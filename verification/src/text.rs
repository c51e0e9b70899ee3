//! Numbers and padding as text.
use vstd::prelude::*;
use vstd::string::StringExecFns;
use vstd::string::StrSliceExecFns;

verus! {

/// The character of the digit `d`, for `d` below sixteen; the digits from
/// ten on are the lower-case letters `a` to `f`.
pub open spec fn digit_char(d: int) -> char {
    if d == 0 {
        '0'
    } else if d == 1 {
        '1'
    } else if d == 2 {
        '2'
    } else if d == 3 {
        '3'
    } else if d == 4 {
        '4'
    } else if d == 5 {
        '5'
    } else if d == 6 {
        '6'
    } else if d == 7 {
        '7'
    } else if d == 8 {
        '8'
    } else if d == 9 {
        '9'
    } else if d == 10 {
        'a'
    } else if d == 11 {
        'b'
    } else if d == 12 {
        'c'
    } else if d == 13 {
        'd'
    } else if d == 14 {
        'e'
    } else {
        'f'
    }
}

/// `n` in decimal: its digits, the most significant first, without
/// leading zeros; one zero for zero.
pub open spec fn decimal(n: nat) -> Seq<char>
    decreases n,
{
    if n < 10 {
        seq![digit_char(n as int)]
    } else {
        decimal(n / 10).push(digit_char((n % 10) as int))
    }
}

/// `n` in hexadecimal, lower case: its digits, the most significant
/// first, without leading zeros; one zero for zero.
pub open spec fn hex(n: nat) -> Seq<char>
    decreases n,
{
    if n < 16 {
        seq![digit_char(n as int)]
    } else {
        hex(n / 16).push(digit_char((n % 16) as int))
    }
}

/// `count` copies of `unit`, one after the other.
pub open spec fn repeated(unit: Seq<char>, count: nat) -> Seq<char>
    decreases count,
{
    if count == 0 {
        seq![]
    } else {
        repeated(unit, (count - 1) as nat) + unit
    }
}

/// How many characters `text` is short of `width`.
pub open spec fn shortfall(text: Seq<char>, width: nat) -> nat {
    if text.len() < width {
        (width - text.len()) as nat
    } else {
        0
    }
}

/// `text` filled up with spaces behind it to at least `width` characters.
pub open spec fn padded(text: Seq<char>, width: nat) -> Seq<char> {
    text + repeated(" "@, shortfall(text, width))
}

/// `n` in hexadecimal with zeros in front of it to at least `width` digits.
pub open spec fn hex_padded(n: nat, width: nat) -> Seq<char> {
    repeated("0"@, shortfall(hex(n), width)) + hex(n)
}

/// `n` in hexadecimal behind `0x`, the whole at least `width` characters
/// long, with zeros in front of the digits.
pub open spec fn hex_prefixed(n: nat, width: nat) -> Seq<char> {
    "0x"@ + hex_padded(n, if width < 2 {
        0
    } else {
        (width - 2) as nat
    })
}

/// The digit `d` as a string of one character.
fn digit_str(d: u64) -> (r: &'static str)
    requires
        d < 16,
    ensures
        r@ == seq![digit_char(d as int)],
{
    proof {
        reveal_strlit("0");
        reveal_strlit("1");
        reveal_strlit("2");
        reveal_strlit("3");
        reveal_strlit("4");
        reveal_strlit("5");
        reveal_strlit("6");
        reveal_strlit("7");
        reveal_strlit("8");
        reveal_strlit("9");
        reveal_strlit("a");
        reveal_strlit("b");
        reveal_strlit("c");
        reveal_strlit("d");
        reveal_strlit("e");
        reveal_strlit("f");
    }
    let r = if d == 0 {
        "0"
    } else if d == 1 {
        "1"
    } else if d == 2 {
        "2"
    } else if d == 3 {
        "3"
    } else if d == 4 {
        "4"
    } else if d == 5 {
        "5"
    } else if d == 6 {
        "6"
    } else if d == 7 {
        "7"
    } else if d == 8 {
        "8"
    } else if d == 9 {
        "9"
    } else if d == 10 {
        "a"
    } else if d == 11 {
        "b"
    } else if d == 12 {
        "c"
    } else if d == 13 {
        "d"
    } else if d == 14 {
        "e"
    } else {
        "f"
    };
    assert(r@ =~= seq![digit_char(d as int)]);
    r
}

/// Appends `n` in decimal.
pub fn push_decimal(out: &mut String, n: u64)
    ensures
        final(out)@ == old(out)@ + decimal(n as nat),
    decreases n,
{
    if n >= 10 {
        push_decimal(out, n / 10);
    }
    out.append(digit_str(n % 10));
    assert(out@ =~= old(out)@ + decimal(n as nat));
}

/// Appends `n` in hexadecimal, lower case.
pub fn push_hex_digits(out: &mut String, n: u64)
    ensures
        final(out)@ == old(out)@ + hex(n as nat),
    decreases n,
{
    if n >= 16 {
        push_hex_digits(out, n / 16);
    }
    out.append(digit_str(n % 16));
    assert(out@ =~= old(out)@ + hex(n as nat));
}

/// Appends `count` copies of `unit`.
pub fn push_repeated(out: &mut String, unit: &str, count: usize)
    ensures
        final(out)@ == old(out)@ + repeated(unit@, count as nat),
{
    let mut i: usize = 0;
    assert(out@ =~= old(out)@ + repeated(unit@, 0));
    while i < count
        invariant
            i <= count,
            out@ == old(out)@ + repeated(unit@, i as nat),
        decreases count - i,
    {
        out.append(unit);
        i = i + 1;
        assert(out@ =~= old(out)@ + repeated(unit@, i as nat));
    }
}

/// Appends `text`, and spaces behind it where it is shorter than `width`
/// characters.
pub fn push_padded(out: &mut String, text: &str, width: usize)
    ensures
        final(out)@ == old(out)@ + padded(text@, width as nat),
{
    let len = text.unicode_len();
    out.append(text);
    if len < width {
        push_repeated(out, " ", width - len);
    } else {
        assert(repeated(" "@, 0) =~= Seq::<char>::empty());
    }
    assert(out@ =~= old(out)@ + padded(text@, width as nat));
}

/// Appends `n` in hexadecimal, with zeros in front of it where it has fewer
/// than `width` digits.
pub fn push_hex(out: &mut String, n: u64, width: usize)
    ensures
        final(out)@ == old(out)@ + hex_padded(n as nat, width as nat),
{
    let mut number = String::new();
    push_hex_digits(&mut number, n);
    assert(number@ =~= hex(n as nat));
    let len = number.as_str().unicode_len();
    if len < width {
        push_repeated(out, "0", width - len);
    } else {
        assert(repeated("0"@, 0) =~= Seq::<char>::empty());
    }
    out.append(number.as_str());
    assert(out@ =~= old(out)@ + hex_padded(n as nat, width as nat));
}

/// Appends `0x` and `n` in hexadecimal, with zeros in front of the digits
/// where the whole has fewer than `width` characters.
pub fn push_hex_prefixed(out: &mut String, n: u64, width: usize)
    ensures
        final(out)@ == old(out)@ + hex_prefixed(n as nat, width as nat),
{
    out.append("0x");
    let digits_width: usize = if width < 2 {
        0
    } else {
        width - 2
    };
    push_hex(out, n, digits_width);
    assert(out@ =~= old(out)@ + hex_prefixed(n as nat, width as nat));
}

} // verus!
