use flashmap::text::{
    push_decimal, push_hex, push_hex_digits, push_hex_prefixed, push_padded, push_repeated,
};

fn decimal(n: u64) -> String {
    let mut out = String::new();
    push_decimal(&mut out, n);
    out
}

fn hex(n: u64, width: usize) -> String {
    let mut out = String::new();
    push_hex(&mut out, n, width);
    out
}

fn prefixed(n: u64, width: usize) -> String {
    let mut out = String::new();
    push_hex_prefixed(&mut out, n, width);
    out
}

#[test]
fn decimal_numbers() {
    assert_eq!(decimal(0), "0");
    assert_eq!(decimal(9), "9");
    assert_eq!(decimal(10), "10");
    assert_eq!(decimal(1024), "1024");
    assert_eq!(decimal(4294967295), "4294967295");
    assert_eq!(decimal(u64::MAX), "18446744073709551615");
    for n in [1u64, 99, 100, 101, 65535, 1 << 40] {
        assert_eq!(decimal(n), format!("{n}"));
    }
}

#[test]
fn hexadecimal_numbers() {
    let mut out = String::from("x");
    push_hex_digits(&mut out, 0);
    assert_eq!(out, "x0");
    assert_eq!(hex(0, 0), "0");
    assert_eq!(hex(0, 8), "00000000");
    assert_eq!(hex(0xabcdef, 8), "00abcdef");
    assert_eq!(hex(0x12345678, 8), "12345678");
    assert_eq!(hex(0x123456789, 8), "123456789");
    assert_eq!(hex(u64::MAX, 1), "ffffffffffffffff");
    for n in [1u64, 15, 16, 255, 256, 0xdead_beef, 1 << 63] {
        assert_eq!(hex(n, 8), format!("{n:08x}"));
        assert_eq!(hex(n, 0), format!("{n:x}"));
    }
}

#[test]
fn prefixed_hexadecimal_numbers() {
    assert_eq!(prefixed(0, 0), "0x0");
    assert_eq!(prefixed(0x200, 0), "0x200");
    assert_eq!(prefixed(0x7f, 8), "0x00007f");
    assert_eq!(prefixed(0x1234567, 8), "0x1234567");
    assert_eq!(prefixed(5, 1), "0x5");
    assert_eq!(prefixed(5, 3), "0x5");
    assert_eq!(prefixed(5, 4), "0x05");
    for n in [0u64, 1, 0xff, 0xfffff, 0xffffff, 0x1000000] {
        assert_eq!(prefixed(n, 8), format!("{n:#08x}"));
        assert_eq!(prefixed(n, 0), format!("{n:#x}"));
    }
}

#[test]
fn padding_and_repeating() {
    let mut out = String::from("[");
    push_padded(&mut out, "abc", 5);
    out.push(']');
    assert_eq!(out, "[abc  ]");

    let mut out = String::new();
    push_padded(&mut out, "abcdef", 5);
    assert_eq!(out, "abcdef");

    let mut out = String::new();
    push_padded(&mut out, "", 3);
    assert_eq!(out, "   ");

    let mut out = String::new();
    push_padded(&mut out, "\u{e9}\u{e9}", 3);
    assert_eq!(out, "\u{e9}\u{e9} ");

    let mut out = String::from("-");
    push_repeated(&mut out, "ab", 3);
    push_repeated(&mut out, "zz", 0);
    assert_eq!(out, "-ababab");
}
