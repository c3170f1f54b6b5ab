# kb_share

A tool that shares keys between two machines: a client reports the state of a
set of keys to a server over UDP, and the server maps each client key to one of
its own keys.

- `src/` is the verified library (Verus):
  - `util` — the two-byte big-endian encoding of key codes;
  - `text` — characters of strings, white space and trimming, decimal writing;
  - `keycodes` — the table of key names and virtual-key codes;
  - `client` — addresses, the keycode request, reading the server's reply,
    the "Allowed keys" message and the key-state packets;
  - `server` — the bindings text (adding a binding, reading the bindings),
    the port, and the settings the server starts with.
- `app/` is the GTK program around it: windows, sockets, threads, timers and
  the reading of the keyboard state.
- `tests/` runs the library on concrete values.
