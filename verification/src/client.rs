//! What the client sends and receives, and what it shows.
use vstd::prelude::*;
use vstd::string::*;
use crate::keycodes::KeycodeTable;
use crate::text::push_decimal;
use crate::util::{be_value, bytes_to_u16, u16_to_bytes};

verus! {

/// First byte of the request for the keys that the server listens to.
pub const REQUEST_KEYCODES: u8 = 1;

/// First byte of a packet that reports key states.
pub const KEY_STATES: u8 = 2;

/// Key-state packets sent per second.
pub const SEND_RATE: u64 = 60;

/// Why the server's reply to the keycode request is refused.
#[derive(Debug, Clone, Copy, PartialEq, Eq, Structural)]
pub enum ClientError {
    /// The reply has an odd number of bytes.
    InvalidData,
    /// The reply names a code that is not in the key table.
    InvalidKeycode,
}

impl ClientError {
    /// The text of the error, as shown to the user.
    pub open spec fn spec_message(&self) -> Seq<char> {
        match self {
            ClientError::InvalidData => "Recieved invalid data from server"@,
            ClientError::InvalidKeycode => "Recieved invalid keycode from server"@,
        }
    }

    /// The text of the error, as shown to the user.
    pub fn message(&self) -> (r: String)
        ensures
            r@ == self.spec_message(),
    {
        match self {
            ClientError::InvalidData => String::from_str("Recieved invalid data from server"),
            ClientError::InvalidKeycode => String::from_str("Recieved invalid keycode from server"),
        }
    }
}

/// Milliseconds between two key-state packets.
pub fn send_interval_millis() -> (r: u64)
    ensures
        r == 1000u64 / SEND_RATE,
{
    1000 / SEND_RATE
}

/// The address the client binds to: the loopback host and `src_port`.
pub fn local_address(src_port: u16) -> (r: String)
    ensures
        r@ == "127.0.0.1:"@ + crate::text::decimal(src_port as nat),
{
    let mut r = String::from_str("127.0.0.1:");
    push_decimal(&mut r, src_port);
    r
}

/// The address of the server: its host, a colon and its port.
pub fn server_address(ip: &str, port: u16) -> (r: String)
    ensures
        r@ == ip@ + ":"@ + crate::text::decimal(port as nat),
{
    let mut r = String::from_str(ip);
    r.append(":");
    push_decimal(&mut r, port);
    r
}

/// The codes that a reply carries: one per two bytes, most significant byte first.
pub open spec fn reply_codes(msg: Seq<u8>) -> Seq<u16> {
    Seq::new(msg.len() / 2, |i: int| be_value(msg[2 * i], msg[2 * i + 1]) as u16)
}

/// What the client makes of the server's reply to its keycode request.
pub open spec fn reply_result(msg: Seq<u8>, table: &KeycodeTable) -> Result<Seq<u16>, ClientError> {
    if msg.len() % 2 != 0 {
        Err(ClientError::InvalidData)
    } else if forall|i: int| 0 <= i < reply_codes(msg).len() ==> table.has_code(#[trigger] reply_codes(msg)[i]) {
        Ok(reply_codes(msg))
    } else {
        Err(ClientError::InvalidKeycode)
    }
}

/// Reads the keys that the server listens to from its reply; every code must be in `table`.
pub fn parse_keycodes(msg: &[u8], table: &KeycodeTable) -> (r: Result<Vec<u16>, ClientError>)
    ensures
        r matches Ok(v) ==> reply_result(msg@, table) == Ok::<Seq<u16>, ClientError>(v@),
        r matches Err(e) ==> reply_result(msg@, table) == Err::<Seq<u16>, ClientError>(e),
{
    let size = msg.len();
    if size % 2 != 0 {
        return Err(ClientError::InvalidData);
    }
    let ghost codes = reply_codes(msg@);
    let mut allowed: Vec<u16> = Vec::new();
    let mut i: usize = 0;
    while i < size / 2
        invariant
            size == msg@.len(),
            size % 2 == 0,
            codes == reply_codes(msg@),
            i <= size / 2,
            allowed@ == codes.take(i as int),
            forall|j: int| 0 <= j < i ==> table.has_code(#[trigger] codes[j]),
        decreases size / 2 - i,
    {
        let pair = vstd::slice::slice_subrange(msg, 2 * i, 2 * i + 2);
        let code = bytes_to_u16(pair);
        assert(code == codes[i as int]);
        if !table.contains_code(code) {
            return Err(ClientError::InvalidKeycode);
        }
        allowed.push(code);
        assert(allowed@ == codes.take(i + 1));
        i = i + 1;
    }
    assert(allowed@ == codes);
    Ok(allowed)
}

/// The items of `list`, with `sep` between each two.
pub open spec fn join(list: Seq<Seq<char>>, sep: Seq<char>) -> Seq<char>
    decreases list.len(),
{
    if list.len() == 0 {
        seq![]
    } else if list.len() == 1 {
        list[0]
    } else {
        join(list.drop_last(), sep) + sep + list.last()
    }
}

/// The names of the keys that the server listens to.
pub open spec fn key_names(codes: Seq<u16>, table: &KeycodeTable) -> Seq<Seq<char>> {
    codes.map_values(|c: u16| table.name_of(c))
}

/// The text that tells the user which keys are shared.
pub open spec fn allowed_keys_text(codes: Seq<u16>, table: &KeycodeTable) -> Seq<char> {
    "Allowed keys: "@ + join(key_names(codes, table), ", "@)
}

/// The text that tells the user which keys are shared: each code is named by
/// the first entry of `table` that has it.
pub fn allowed_keys_message(codes: &Vec<u16>, table: &KeycodeTable) -> (r: String)
    requires
        forall|i: int| 0 <= i < codes@.len() ==> table.has_code(#[trigger] codes@[i]),
    ensures
        r@ == allowed_keys_text(codes@, table),
{
    let ghost names = key_names(codes@, table);
    let mut joined = String::new();
    let n = codes.len();
    let mut i: usize = 0;
    while i < n
        invariant
            n == codes@.len(),
            i <= n,
            names == key_names(codes@, table),
            forall|j: int| 0 <= j < codes@.len() ==> table.has_code(#[trigger] codes@[j]),
            joined@ == join(names.take(i as int), ", "@),
        decreases n - i,
    {
        let name = table.name_for(codes[i]);
        assert(names.take(i + 1).drop_last() == names.take(i as int));
        if i != 0 {
            joined.append(", ");
        } else {
            assert(names.take(0) == Seq::<Seq<char>>::empty());
        }
        joined.append(name.as_str());
        i = i + 1;
    }
    assert(names.take(n as int) == names);
    let mut r = String::from_str("Allowed keys: ");
    r.append(joined.as_str());
    r
}

/// What the client does with the server's reply to its keycode request: the
/// keys to report from then on, and the text that tells the user which they
/// are; or the error that stops the client.
pub fn accept_reply(msg: &[u8], table: &KeycodeTable) -> (r: Result<(Vec<u16>, String), ClientError>)
    ensures
        r matches Ok((codes, text)) ==> {
            &&& reply_result(msg@, table) == Ok::<Seq<u16>, ClientError>(codes@)
            &&& text@ == allowed_keys_text(codes@, table)
        },
        r matches Err(e) ==> reply_result(msg@, table) == Err::<Seq<u16>, ClientError>(e),
{
    let codes = match parse_keycodes(msg, table) {
        Ok(codes) => codes,
        Err(e) => {
            return Err(e);
        },
    };
    assert(forall|i: int| 0 <= i < codes@.len() ==> table.has_code(#[trigger] reply_codes(msg@)[i]));
    let text = allowed_keys_message(&codes, table);
    Ok((codes, text))
}

/// The bytes that report one key: its code, most significant byte first, then
/// 1 when it is down and 0 when it is up.
pub open spec fn key_record(code: u16, state: i16) -> Seq<u8> {
    seq![(code as int / 256) as u8, (code as int % 256) as u8, if state == 0 { 0u8 } else { 1u8 }]
}

/// The packet that reports the state of each key, in order.
pub open spec fn key_packet(codes: Seq<u16>, states: Seq<i16>) -> Seq<u8>
    decreases codes.len(),
{
    if codes.len() == 0 {
        seq![KEY_STATES]
    } else {
        key_packet(codes.drop_last(), states.drop_last()) + key_record(codes.last(), states.last())
    }
}

/// The packet that reports the state of each key: `states[i]` is what the
/// system reported for `codes[i]`, zero when the key is up.
pub fn key_state_packet(codes: &Vec<u16>, states: &Vec<i16>) -> (r: Vec<u8>)
    requires
        codes@.len() == states@.len(),
    ensures
        r@ == key_packet(codes@, states@),
{
    let mut packet: Vec<u8> = Vec::new();
    packet.push(KEY_STATES);
    let n = codes.len();
    let mut i: usize = 0;
    while i < n
        invariant
            n == codes@.len(),
            n == states@.len(),
            i <= n,
            packet@ == key_packet(codes@.take(i as int), states@.take(i as int)),
        decreases n - i,
    {
        let keycode = codes[i];
        let bytes = u16_to_bytes(keycode);
        packet.push(bytes[0]);
        packet.push(bytes[1]);
        packet.push(if states[i] == 0 { 0u8 } else { 1u8 });
        assert(codes@.take(i + 1).drop_last() == codes@.take(i as int));
        assert(states@.take(i + 1).drop_last() == states@.take(i as int));
        i = i + 1;
    }
    assert(codes@.take(n as int) == codes@);
    assert(states@.take(n as int) == states@);
    packet
}

/// A reply that lists `codes`, each as two bytes, most significant byte first.
pub open spec fn reply_bytes(codes: Seq<u16>) -> Seq<u8> {
    Seq::new(
        2 * codes.len(),
        |i: int|
            if i % 2 == 0 {
                (codes[i / 2] as int / 256) as u8
            } else {
                (codes[i / 2] as int % 256) as u8
            },
    )
}

/// A reply that lists codes of entries of the key table (any entries, the
/// last one included) is accepted, and gives those codes in order.
pub proof fn lemma_reply_reads_back(codes: Seq<u16>, table: &KeycodeTable)
    requires
        forall|i: int|
            0 <= i < codes.len() ==> exists|k: int|
                0 <= k < table.codes().len() && table.codes()[k] == #[trigger] codes[i],
    ensures
        reply_result(reply_bytes(codes), table) == Ok::<Seq<u16>, ClientError>(codes),
{
    assert forall|i: int| 0 <= i < codes.len() implies table.has_code(#[trigger] codes[i]) by {
        table.lemma_has_code_exactly(codes[i]);
    }
    let msg = reply_bytes(codes);
    assert(msg.len() % 2 == 0);
    assert(msg.len() / 2 == codes.len());
    assert forall|i: int| 0 <= i < codes.len() implies #[trigger] reply_codes(msg)[i] == codes[i] by {
        assert((2 * i) % 2 == 0 && (2 * i) / 2 == i);
        assert((2 * i + 1) % 2 == 1 && (2 * i + 1) / 2 == i);
        assert(msg[2 * i] == (codes[i] as int / 256) as u8);
        assert(msg[2 * i + 1] == (codes[i] as int % 256) as u8);
        crate::util::lemma_decode_encode(codes[i]);
    }
    assert(reply_codes(msg) == codes);
}

/// The layout of a key-state packet: the kind byte, then three bytes per key,
/// in the order of the keys.
pub proof fn lemma_key_packet_layout(codes: Seq<u16>, states: Seq<i16>)
    requires
        codes.len() == states.len(),
    ensures
        key_packet(codes, states).len() == 1 + 3 * codes.len(),
        key_packet(codes, states)[0] == KEY_STATES,
        forall|i: int|
            0 <= i < codes.len() ==> #[trigger] key_packet(codes, states).subrange(1 + 3 * i, 4 + 3 * i)
                == key_record(codes[i], states[i]),
    decreases codes.len(),
{
    if codes.len() > 0 {
        let c = codes.drop_last();
        let s = states.drop_last();
        lemma_key_packet_layout(c, s);
        let p = key_packet(codes, states);
        let q = key_packet(c, s);
        assert(p == q + key_record(codes.last(), states.last()));
        assert forall|i: int| 0 <= i < codes.len() implies #[trigger] p.subrange(1 + 3 * i, 4 + 3 * i)
            == key_record(codes[i], states[i]) by {
            if i < c.len() {
                assert(p.subrange(1 + 3 * i, 4 + 3 * i) == q.subrange(1 + 3 * i, 4 + 3 * i));
                assert(c[i] == codes[i] && s[i] == states[i]);
            } else {
                assert(p.subrange(1 + 3 * i, 4 + 3 * i) == key_record(codes.last(), states.last()));
            }
        }
    }
}

/// The number that bytes `2 * i` and `2 * i + 1` of a reply encode, most
/// significant byte first.
pub open spec fn pair_value(msg: Seq<u8>, i: int) -> int {
    be_value(msg[2 * i], msg[2 * i + 1])
}

proof fn lemma_reply_code(msg: Seq<u8>, i: int)
    requires
        0 <= i < msg.len() / 2,
    ensures
        reply_codes(msg).len() == msg.len() / 2,
        reply_codes(msg)[i] as int == pair_value(msg, i),
{
    crate::util::lemma_encode_decode(msg[2 * i], msg[2 * i + 1]);
}

/// Pair `i` of a reply is the code of no entry of the key table.
pub open spec fn is_unknown_pair(msg: Seq<u8>, table: &KeycodeTable, i: int) -> bool {
    &&& 0 <= i < msg.len() / 2
    &&& forall|k: int| 0 <= k < table.codes().len() ==> #[trigger] table.codes()[k] != pair_value(msg, i)
}

/// What the client makes of any reply, said byte by byte: an odd number of
/// bytes is invalid data; otherwise each two bytes, most significant first,
/// are a code, and the reply is accepted, with those codes in order, exactly
/// when each of them is the code of some entry of the key table.
pub proof fn lemma_reply_outcome(msg: Seq<u8>, table: &KeycodeTable)
    ensures
        msg.len() % 2 != 0 ==> reply_result(msg, table) == Err::<Seq<u16>, ClientError>(
            ClientError::InvalidData,
        ),
        msg.len() % 2 == 0 && (forall|i: int| !#[trigger] is_unknown_pair(msg, table, i))
            ==> reply_result(msg, table) == Ok::<Seq<u16>, ClientError>(
            Seq::new(msg.len() / 2, |i: int| pair_value(msg, i) as u16),
        ),
        msg.len() % 2 == 0 && (exists|i: int| #[trigger] is_unknown_pair(msg, table, i))
            ==> reply_result(msg, table) == Err::<Seq<u16>, ClientError>(
            ClientError::InvalidKeycode,
        ),
{
    let codes = reply_codes(msg);
    if msg.len() % 2 == 0 {
        if forall|i: int| !#[trigger] is_unknown_pair(msg, table, i) {
            assert forall|i: int| 0 <= i < codes.len() implies table.has_code(#[trigger] codes[i]) by {
                lemma_reply_code(msg, i);
                assert(!is_unknown_pair(msg, table, i));
                let k = choose|k: int|
                    0 <= k < table.codes().len() && !(#[trigger] table.codes()[k] != pair_value(msg, i));
                assert(table.codes()[k] == codes[i]);
                table.lemma_has_code_exactly(codes[i]);
            }
            assert forall|i: int| 0 <= i < codes.len() implies codes[i] == pair_value(msg, i) as u16 by {
                lemma_reply_code(msg, i);
            }
            assert(codes == Seq::new(msg.len() / 2, |i: int| pair_value(msg, i) as u16));
        }
        if exists|i: int| #[trigger] is_unknown_pair(msg, table, i) {
            let i = choose|i: int| #[trigger] is_unknown_pair(msg, table, i);
            lemma_reply_code(msg, i);
            table.lemma_has_code_exactly(codes[i]);
            assert(!table.has_code(codes[i]));
        }
    }
}

/// The "Allowed keys" text names every key, in order: with no key it is
/// "Allowed keys: ", with one key it adds that key's name, and each further
/// key adds ", " and its name.
pub proof fn lemma_allowed_keys_text_grows(codes: Seq<u16>, code: u16, table: &KeycodeTable)
    ensures
        allowed_keys_text(seq![], table) == "Allowed keys: "@,
        allowed_keys_text(seq![code], table) == "Allowed keys: "@ + table.name_of(code),
        codes.len() > 0 ==> allowed_keys_text(codes.push(code), table) == allowed_keys_text(
            codes,
            table,
        ) + ", "@ + table.name_of(code),
{
    assert(key_names(seq![], table) == Seq::<Seq<char>>::empty());
    assert(key_names(seq![code], table) == seq![table.name_of(code)]);
    let n = key_names(codes.push(code), table);
    assert(n.drop_last() == key_names(codes, table));
    assert(n.last() == table.name_of(code));
    assert(("Allowed keys: "@ + join(key_names(codes, table), ", "@)) + ", "@ + table.name_of(code)
        == "Allowed keys: "@ + (join(key_names(codes, table), ", "@) + ", "@ + table.name_of(code)));
}

} // verus!
