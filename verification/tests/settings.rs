use kb_share::keycodes::KeycodeTable;
use kb_share::server::{append_binding, parse_bindings, parse_port, read_settings, StartError};

fn table() -> KeycodeTable {
    KeycodeTable::new(vec![
        ("A".to_string(), 0x41),
        ("B".to_string(), 0x42),
        ("SPACE".to_string(), 0x20),
        ("LSHIFT".to_string(), 0xa0),
    ])
}

#[test]
fn append_binding_adds_a_line() {
    assert_eq!(append_binding("", "A", "B"), "A => B");
    assert_eq!(append_binding("A => B", "SPACE", "LSHIFT"), "A => B\nSPACE => LSHIFT");
    assert_eq!(append_binding("A => B\n", "B", "A"), "A => B\n\nB => A");
}

#[test]
fn empty_text_has_no_bindings() {
    let t = table();
    let b = parse_bindings("", &t).unwrap();
    assert!(b.pairs().is_empty());
    let b = parse_bindings("  \n\t\n", &t).unwrap();
    assert!(b.pairs().is_empty());
    assert_eq!(b.get("A"), None);
}

#[test]
fn bindings_are_read_and_trimmed() {
    let t = table();
    let b = parse_bindings("  A=>B \r\n\nSPACE   =>  LSHIFT\n", &t).unwrap();
    assert_eq!(b.get("A").map(|s| s.as_str()), Some("B"));
    assert_eq!(b.get("SPACE").map(|s| s.as_str()), Some("LSHIFT"));
    assert_eq!(b.get("B"), None);
}

#[test]
fn later_binding_replaces_earlier() {
    let t = table();
    let b = parse_bindings("A => B\nA => SPACE", &t).unwrap();
    assert_eq!(b.get("A").map(|s| s.as_str()), Some("SPACE"));
}

#[test]
fn line_without_or_with_two_arrows_is_syntax_error() {
    let t = table();
    assert_eq!(parse_bindings("A B", &t).err(), Some(StartError::InvalidSyntax));
    assert_eq!(parse_bindings("A => B => A", &t).err(), Some(StartError::InvalidSyntax));
    assert_eq!(parse_bindings("A = > B", &t).err(), Some(StartError::InvalidSyntax));
    assert_eq!(parse_bindings("A => B\n=>=>", &t).err(), Some(StartError::InvalidSyntax));
    assert_eq!(StartError::InvalidSyntax.message(), "Invalid bindings syntax");
}

#[test]
fn unknown_key_names_are_refused() {
    let t = table();
    assert_eq!(
        parse_bindings("A => B\n Q => A", &t).err(),
        Some(StartError::InvalidBinding("Q".to_string()))
    );
    assert_eq!(
        parse_bindings("A => Z", &t).err(),
        Some(StartError::InvalidBinding("Z".to_string()))
    );
    assert_eq!(
        parse_bindings("X => Y", &t).err(),
        Some(StartError::InvalidBinding("X".to_string()))
    );
    assert_eq!(parse_bindings("=> A", &t).err(), Some(StartError::InvalidBinding("".to_string())));
    assert_eq!(StartError::InvalidBinding("Q".to_string()).message(), "Invalid binding Q");
}

#[test]
fn first_bad_line_decides() {
    let t = table();
    assert_eq!(
        parse_bindings("Q => A\nA B", &t).err(),
        Some(StartError::InvalidBinding("Q".to_string()))
    );
    assert_eq!(parse_bindings("A B\nQ => A", &t).err(), Some(StartError::InvalidSyntax));
}

#[test]
fn ports_read_as_from_str_radix() {
    for s in ["0", "80", "+80", "080", "65535", "5000", "+0"] {
        assert_eq!(parse_port(s), u16::from_str_radix(s, 10).ok(), "{}", s);
    }
    for s in ["", "+", "-", "-1", "65536", "99999999999", " 80", "80 ", "8a", "++1", "\u{663}"] {
        assert_eq!(parse_port(s), None, "{}", s);
        assert!(u16::from_str_radix(s, 10).is_err());
    }
    assert_eq!(parse_port("+80"), Some(80));
    assert_eq!(StartError::InvalidPort.message(), "Invalid port");
}

#[test]
fn port_written_in_decimal_reads_back() {
    for p in [0u16, 1, 9, 10, 255, 1024, 65535] {
        assert_eq!(parse_port(&p.to_string()), Some(p));
    }
}

#[test]
fn settings_read_bindings_then_port() {
    let t = table();
    let s = read_settings("A => B", "4000", &t).unwrap();
    assert_eq!(s.port, 4000);
    assert_eq!(s.bindings.get("A").map(|s| s.as_str()), Some("B"));
    assert_eq!(read_settings("A B", "x", &t).err(), Some(StartError::InvalidSyntax));
    assert_eq!(read_settings("A => B", "x", &t).err(), Some(StartError::InvalidPort));
    assert_eq!(read_settings("", "", &t).err(), Some(StartError::InvalidPort));
}

#[test]
fn added_binding_is_read_back() {
    let t = table();
    let mut text = String::new();
    let adds = [("A", "B"), ("SPACE", "LSHIFT"), ("A", "SPACE")];
    for (c, s) in adds {
        text = append_binding(&text, c, s);
        let b = parse_bindings(&text, &t).unwrap();
        assert_eq!(b.get(c).map(|v| v.as_str()), Some(s));
    }
    let b = parse_bindings(&text, &t).unwrap();
    assert_eq!(b.get("A").map(|v| v.as_str()), Some("SPACE"));
    assert_eq!(b.get("SPACE").map(|v| v.as_str()), Some("LSHIFT"));
}

#[test]
fn blank_lines_change_nothing() {
    let t = table();
    let a = parse_bindings("A => B\nSPACE => LSHIFT", &t).unwrap();
    let b = parse_bindings("\n  \nA => B\n\t\r\n\nSPACE => LSHIFT\n \n", &t).unwrap();
    for k in ["A", "B", "SPACE", "LSHIFT"] {
        assert_eq!(a.get(k), b.get(k));
    }
    assert_eq!(read_settings("A B", "1", &t).err(), read_settings("\n\nA B\n ", "1", &t).err());
    assert_eq!(read_settings("A => B", "x", &t).err(), read_settings(" \nA => B", "x", &t).err());
}
