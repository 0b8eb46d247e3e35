use torrent_client::bencode::{decode_bencode, Bencode};

fn text(s: &str) -> Bencode {
    Bencode::String(s.to_string())
}

#[test]
fn integer_zero_and_negative() {
    assert_eq!(decode_bencode(b"i0e"), Some(Bencode::Integer(0)));
    assert_eq!(decode_bencode(b"i-42e"), Some(Bencode::Integer(-42)));
}

#[test]
fn integer_malformed_fails() {
    assert_eq!(decode_bencode(b"i3.5e"), None);
    assert_eq!(decode_bencode(b"i42"), None);
    assert_eq!(decode_bencode(b"ie"), None);
    assert_eq!(decode_bencode(b"i-e"), None);
    assert_eq!(decode_bencode(b"i4-2e"), None);
}

#[test]
fn integer_limits() {
    assert_eq!(
        decode_bencode(b"i9223372036854775807e"),
        Some(Bencode::Integer(i64::MAX))
    );
    assert_eq!(
        decode_bencode(b"i-9223372036854775808e"),
        Some(Bencode::Integer(i64::MIN))
    );
    assert_eq!(decode_bencode(b"i9223372036854775808e"), None);
    assert_eq!(decode_bencode(b"i-9223372036854775809e"), None);
    assert_eq!(decode_bencode(b"i99999999999999999999999e"), None);
}

#[test]
fn string_cases() {
    assert_eq!(decode_bencode(b"4:spam"), Some(text("spam")));
    assert_eq!(decode_bencode(b"0:"), Some(text("")));
    assert_eq!(decode_bencode(b"5:ab"), None);
    assert_eq!(decode_bencode(b"4spam"), None);
    assert_eq!(decode_bencode(b"99999999999999999999999:ab"), None);
}

#[test]
fn non_utf8_string_is_bytes() {
    let input = [b'3', b':', 0xff, 0x00, 0xfe];
    assert_eq!(
        decode_bencode(&input),
        Some(Bencode::Bytes(vec![0xff, 0x00, 0xfe]))
    );
}

#[test]
fn dictionary_keeps_pair_order() {
    assert_eq!(
        decode_bencode(b"d3:bar4:spam3:fooi42ee"),
        Some(Bencode::Dictionary(vec![
            (text("bar"), text("spam")),
            (text("foo"), Bencode::Integer(42)),
        ]))
    );
}

#[test]
fn list_of_two_strings() {
    assert_eq!(
        decode_bencode(b"l4:spam4:eggse"),
        Some(Bencode::List(vec![text("spam"), text("eggs")]))
    );
}

#[test]
fn dictionary_errors() {
    assert_eq!(decode_bencode(b"di1ei2ee"), None);
    assert_eq!(decode_bencode(b"d3:fooi1e"), None);
    assert_eq!(decode_bencode(b"d3:foo"), None);
    assert_eq!(decode_bencode(b"d3:fooxe"), None);
}

#[test]
fn list_errors_and_open_end() {
    assert_eq!(decode_bencode(b"li3.5ee"), None);
    assert_eq!(
        decode_bencode(b"l4:spam"),
        Some(Bencode::List(vec![text("spam")]))
    );
    assert_eq!(decode_bencode(b"le"), Some(Bencode::List(vec![])));
}

#[test]
fn other_input_fails() {
    assert_eq!(decode_bencode(b""), None);
    assert_eq!(decode_bencode(b"x"), None);
    assert_eq!(decode_bencode(b"e"), None);
}

#[test]
fn trailing_bytes_are_ignored() {
    assert_eq!(decode_bencode(b"i7eXYZ"), Some(Bencode::Integer(7)));
}

#[test]
fn encode_each_kind() {
    assert_eq!(Bencode::Integer(-42).to_bencode_bytes(), b"i-42e".to_vec());
    assert_eq!(Bencode::Integer(0).to_bencode_bytes(), b"i0e".to_vec());
    assert_eq!(
        Bencode::Integer(i64::MIN).to_bencode_bytes(),
        b"i-9223372036854775808e".to_vec()
    );
    assert_eq!(text("spam").to_bencode_bytes(), b"4:spam".to_vec());
    assert_eq!(
        Bencode::Bytes(vec![1, 2, 3]).to_bencode_bytes(),
        vec![b'3', b':', 1, 2, 3]
    );
    assert_eq!(
        Bencode::List(vec![text("spam"), Bencode::Integer(1)]).to_bencode_bytes(),
        b"l4:spami1ee".to_vec()
    );
    assert_eq!(
        Bencode::Dictionary(vec![(text("a"), Bencode::List(vec![]))]).to_bencode_bytes(),
        b"d1:alee".to_vec()
    );
}

#[test]
fn encode_uses_byte_length_of_text() {
    let v = text("\u{00e9}t\u{00e9}");
    let encoded = v.to_bencode_bytes();
    let mut expected = b"5:".to_vec();
    expected.extend_from_slice("\u{00e9}t\u{00e9}".as_bytes());
    assert_eq!(encoded, expected);
    assert_eq!(decode_bencode(&encoded), Some(v));
}

#[test]
fn canonical_fixture_round_trips() {
    let mut fixture = b"d8:announce20:udp://tracker.test:14:infod6:lengthi1024e4:name8:file.bin12:piece lengthi16384e6:pieces20:".to_vec();
    fixture.extend_from_slice(&[
        0x00, 0x01, 0xff, 0xfe, 0x80, 0x81, 0x10, 0x20, 0x30, 0x40, 0x50, 0x60, 0x70, 0x90,
        0xa0, 0xb0, 0xc0, 0xd0, 0xe0, 0xf0,
    ]);
    fixture.extend_from_slice(b"ee");
    let decoded = decode_bencode(&fixture).expect("fixture decodes");
    assert_eq!(decoded.to_bencode_bytes(), fixture);
    for b in [&b"i-42e"[..], b"0:", b"le", b"de", b"l4:spamd1:ai0eee"] {
        let v = decode_bencode(b).expect("decodes");
        assert_eq!(v.to_bencode_bytes(), b.to_vec());
    }
}

#[test]
fn constructed_value_round_trips() {
    let v = Bencode::Dictionary(vec![
        (text("int"), Bencode::Integer(-7)),
        (
            Bencode::Bytes(vec![0xc3, 0x28]),
            Bencode::List(vec![
                Bencode::Bytes(vec![0xff]),
                text(""),
                Bencode::Integer(i64::MAX),
                Bencode::Dictionary(vec![]),
            ]),
        ),
    ]);
    assert_eq!(decode_bencode(&v.to_bencode_bytes()), Some(v));
}

#[test]
fn unsorted_keys_pass_through_in_input_order() {
    let input = b"d3:zzzi1e3:aaai2ee";
    let v = decode_bencode(input).expect("decodes");
    assert_eq!(
        v,
        Bencode::Dictionary(vec![
            (text("zzz"), Bencode::Integer(1)),
            (text("aaa"), Bencode::Integer(2)),
        ])
    );
    assert_eq!(v.to_bencode_bytes(), input.to_vec());
}

#[test]
fn lax_integer_forms_are_read() {
    assert_eq!(decode_bencode(b"i-0e"), Some(Bencode::Integer(0)));
    assert_eq!(decode_bencode(b"i007e"), Some(Bencode::Integer(7)));
    assert_eq!(decode_bencode(b"04:spam"), Some(text("spam")));
}
