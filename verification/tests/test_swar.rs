use nojson::{skip_non_ascii_bytes, skip_plain_ascii_bytes};

#[test]
fn empty() {
    assert_eq!(skip_plain_ascii_bytes(b""), 0);
}

#[test]
fn all_plain_short() {
    assert_eq!(skip_plain_ascii_bytes(b"hello"), 5);
}

#[test]
fn all_plain_8_bytes() {
    assert_eq!(skip_plain_ascii_bytes(b"abcdefgh"), 8);
}

#[test]
fn all_plain_16_bytes() {
    assert_eq!(skip_plain_ascii_bytes(b"abcdefghijklmnop"), 16);
}

#[test]
fn quote_at_various_positions() {
    for pos in 0..16 {
        let mut buf = [b'a'; 16];
        buf[pos] = b'"';
        assert_eq!(
            skip_plain_ascii_bytes(&buf),
            pos,
            "quote at position {}",
            pos
        );
    }
}

#[test]
fn backslash_at_various_positions() {
    for pos in 0..16 {
        let mut buf = [b'a'; 16];
        buf[pos] = b'\\';
        assert_eq!(
            skip_plain_ascii_bytes(&buf),
            pos,
            "backslash at position {}",
            pos
        );
    }
}

#[test]
fn control_chars() {
    for b in 0..0x20u8 {
        let buf = [b'a', b'b', b'c', b];
        assert_eq!(skip_plain_ascii_bytes(&buf), 3, "control char 0x{:02x}", b);
    }
}

#[test]
fn control_char_at_start() {
    assert_eq!(skip_plain_ascii_bytes(b"\x00abc"), 0);
    assert_eq!(skip_plain_ascii_bytes(b"\nabc"), 0);
    assert_eq!(skip_plain_ascii_bytes(b"\tabc"), 0);
}

#[test]
fn non_ascii_stops() {
    assert_eq!(skip_plain_ascii_bytes("abc日本語".as_bytes()), 3);
    assert_eq!(skip_plain_ascii_bytes("あ".as_bytes()), 0);
}

#[test]
fn non_ascii_run() {
    assert_eq!(skip_non_ascii_bytes("日本語x".as_bytes()), "日本語".len());
    assert_eq!(skip_non_ascii_bytes("あa".as_bytes()), "あ".len());
    assert_eq!(skip_non_ascii_bytes("abc".as_bytes()), 0);
}

#[test]
fn high_ascii_boundary() {
    // 0x7F (DEL) is a control char in JSON context? No, JSON spec says < 0x20 are control.
    // DEL (0x7F) is technically a control char but JSON spec only requires escaping < 0x20.
    // Our function treats 0x7F as plain ASCII (>= 0x20 and < 0x80).
    assert_eq!(skip_plain_ascii_bytes(&[0x7F]), 1);
    // 0x80 is non-ASCII
    assert_eq!(skip_plain_ascii_bytes(&[0x80]), 0);
    // 0x20 (space) is the first plain byte
    assert_eq!(skip_plain_ascii_bytes(&[0x20]), 1);
    // 0x1F is last control char
    assert_eq!(skip_plain_ascii_bytes(&[0x1F]), 0);
}

#[test]
fn mixed_content() {
    let input = b"Hello, World!\"rest";
    assert_eq!(skip_plain_ascii_bytes(input), 13); // stops at "
}

#[test]
fn all_printable_ascii() {
    // All printable ASCII except " and \ should be plain
    let mut count = 0;
    for b in 0x20..0x80u8 {
        if b != b'"' && b != b'\\' {
            assert_eq!(
                skip_plain_ascii_bytes(&[b]),
                1,
                "byte 0x{:02x} ('{}') should be plain",
                b,
                b as char,
            );
            count += 1;
        }
    }
    assert_eq!(count, 94); // 96 printable minus " and \
}

#[test]
fn long_plain_then_special() {
    let buf = [b'x'; 1024];
    // All 1024 bytes are plain 'x'
    assert_eq!(skip_plain_ascii_bytes(&buf), 1024);

    let mut buf2 = [b'x'; 64];
    buf2[50] = b'"';
    assert_eq!(skip_plain_ascii_bytes(&buf2), 50);
}
