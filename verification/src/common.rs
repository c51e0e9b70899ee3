//! Reading the values of arguments.
use vstd::prelude::*;
use vstd::string::StrSliceExecFns;
use vstd::string::StringExecFns;

verus! {

/// The value of the digit `c` in base `radix`, if `c` is one: `0` to `9`
/// count zero to nine, and the letters, small or capital, count from ten
/// on.
pub open spec fn digit_value(c: char, radix: nat) -> Option<nat> {
    let v: int = if '0' <= c <= '9' {
        c as int - '0' as int
    } else if 'a' <= c <= 'z' {
        c as int - 'a' as int + 10
    } else if 'A' <= c <= 'Z' {
        c as int - 'A' as int + 10
    } else {
        radix as int
    };
    if v < radix {
        Some(v as nat)
    } else {
        None
    }
}

/// The number that the digits `text` write in base `radix`, and none where
/// one of them is no digit. No digits write zero.
pub open spec fn digits_value(text: Seq<char>, radix: nat) -> Option<nat>
    decreases text.len(),
{
    if text.len() == 0 {
        Some(0)
    } else {
        match (digits_value(text.drop_last(), radix), digit_value(text.last(), radix)) {
            (Some(v), Some(d)) => Some(v * radix + d),
            _ => None,
        }
    }
}

/// `text` without one plus sign in front of it.
pub open spec fn unsigned(text: Seq<char>) -> Seq<char> {
    if text.len() > 0 && text[0] == '+' {
        text.skip(1)
    } else {
        text
    }
}

/// The byte that `text` writes in base `radix`: `text` is one or more
/// digits, with or without a plus sign in front of them, and the number is
/// at most 255.
pub open spec fn byte_value(text: Seq<char>, radix: nat) -> Option<u8> {
    if unsigned(text).len() == 0 {
        None
    } else {
        match digits_value(unsigned(text), radix) {
            Some(v) => if v <= 255 {
                Some(v as u8)
            } else {
                None
            },
            None => None,
        }
    }
}

/// `text` without `0x` or `0X` in front of it.
pub open spec fn without_hex_mark(text: Seq<char>) -> Seq<char> {
    if text.len() >= 2 && text[0] == '0' && (text[1] == 'x' || text[1] == 'X') {
        text.skip(2)
    } else {
        text
    }
}

/// What is said of a value that is no byte.
pub open spec fn not_a_byte(text: Seq<char>) -> Seq<char> {
    "Value '"@ + text + "' is not a correctr integer nor hex value matching the argument type"@
}

/// What `text` is worth as a byte: its decimal value if it has one; if not,
/// its hexadecimal value, with or without `0x` in front of it.
pub open spec fn validated_byte(text: Seq<char>) -> Result<u8, Seq<char>> {
    match byte_value(text, 10) {
        Some(v) => Ok(v),
        None => match byte_value(without_hex_mark(text), 16) {
            Some(v) => Ok(v),
            None => Err(not_a_byte(text)),
        },
    }
}

/// Digits that write a number above 255 do so whatever follows them, unless
/// what follows is no number at all.
proof fn lemma_value_grows(text: Seq<char>, radix: nat, upto: int)
    requires
        radix >= 1,
        0 <= upto <= text.len(),
    ensures
        digits_value(text.take(upto), radix) is None ==> digits_value(text, radix) is None,
        digits_value(text.take(upto), radix) matches Some(v) ==> (digits_value(text, radix) matches Some(w)
            ==> v <= w),
    decreases text.len() - upto,
{
    if upto < text.len() {
        lemma_value_grows(text, radix, upto + 1);
        let longer = text.take(upto + 1);
        assert(longer.drop_last() =~= text.take(upto));
        if let Some(v) = digits_value(text.take(upto), radix) {
            if let Some(d) = digit_value(longer.last(), radix) {
                assert(v <= v * radix + d) by (nonlinear_arith)
                    requires
                        radix >= 1,
                        v >= 0,
                        d >= 0,
                ;
            }
        }
    } else {
        assert(text.take(upto) =~= text);
    }
}

/// The value of the digit `c` in base `radix`, if `c` is one.
fn digit_of(c: char, radix: u32) -> (r: Option<u32>)
    requires
        2 <= radix <= 36,
    ensures
        r is Some <==> digit_value(c, radix as nat) is Some,
        r matches Some(v) ==> digit_value(c, radix as nat) == Some(v as nat),
{
    let code: u32 = c as u32;
    let v: u32 = if '0' <= c && c <= '9' {
        code - '0' as u32
    } else if 'a' <= c && c <= 'z' {
        code - 'a' as u32 + 10
    } else if 'A' <= c && c <= 'Z' {
        code - 'A' as u32 + 10
    } else {
        radix
    };
    if v < radix {
        Some(v)
    } else {
        None
    }
}

/// The byte that the characters of `text` from `from` on write in base
/// `radix`.
fn parse_byte(text: &str, from: usize, radix: u32) -> (r: Option<u8>)
    requires
        2 <= radix <= 36,
        from <= text@.len(),
    ensures
        r == byte_value(text@.skip(from as int), radix as nat),
{
    let len = text.unicode_len();
    let ghost whole = text@.skip(from as int);
    let mut i: usize = from;
    if i < len && text.get_char(i) == '+' {
        i = i + 1;
    }
    let ghost body = unsigned(whole);
    assert(body =~= text@.skip(i as int));
    if i >= len {
        return None;
    }
    let start: usize = i;
    let mut value: u32 = 0;
    assert(body.take(0) =~= Seq::<char>::empty());
    while i < len
        invariant
            start <= i <= len,
            len == text@.len(),
            2 <= radix <= 36,
            body == text@.skip(start as int),
            body == unsigned(text@.skip(from as int)),
            body.len() > 0,
            from <= text@.len(),
            value <= 255,
            digits_value(body.take(i - start), radix as nat) == Some(value as nat),
        decreases len - i,
    {
        let c = text.get_char(i);
        proof {
            let longer = body.take(i - start + 1);
            assert(longer.drop_last() =~= body.take(i - start));
            assert(longer.last() == c);
            lemma_value_grows(body, radix as nat, i - start + 1);
        }
        match digit_of(c, radix) {
            None => {
                return None;
            },
            Some(d) => {
                assert(value * radix <= 255 * 36) by (nonlinear_arith)
                    requires
                        value <= 255,
                        radix <= 36,
                ;
                let next: u32 = value * radix + d;
                if next > 255 {
                    return None;
                }
                value = next;
            },
        }
        i = i + 1;
    }
    assert(body.take(i - start) =~= body);
    Some(value as u8)
}

/// Reads a byte: a decimal number or, where `s` is none, a hexadecimal one,
/// with or without `0x` or `0X` in front of it. Either may have a plus sign
/// in front of its digits.
pub fn decimal_or_hex_validator_u8(s: &str) -> (r: Result<u8, String>)
    ensures
        match r {
            Ok(v) => validated_byte(s@) == Ok::<u8, Seq<char>>(v),
            Err(e) => validated_byte(s@) == Err::<u8, Seq<char>>(e@),
        },
{
    assert(s@.skip(0) =~= s@);
    if let Some(decimal) = parse_byte(s, 0, 10) {
        return Ok(decimal);
    }
    let len = s.unicode_len();
    let marked: bool = len >= 2 && s.get_char(0) == '0' && (s.get_char(1) == 'x' || s.get_char(1) == 'X');
    let from: usize = if marked {
        2
    } else {
        0
    };
    if let Some(hex) = parse_byte(s, from, 16) {
        return Ok(hex);
    }
    let mut message = String::from_str("Value '");
    message.append(s);
    message.append("' is not a correctr integer nor hex value matching the argument type");
    Err(message)
}

/// Where the first colon of `text` is, looking from `from` on; the length
/// of `text` if there is none.
pub open spec fn colon_at(text: Seq<char>, from: int) -> int
    decreases text.len() - from,
{
    if from < 0 || from >= text.len() {
        text.len() as int
    } else if text[from] == ':' {
        from
    } else {
        colon_at(text, from + 1)
    }
}

/// What is said of an argument that does not name a section and a path.
pub open spec fn not_a_mapping() -> Seq<char> {
    "The argument should be in the format 'SECTION:PATH'"@
}

/// The section and the path that `text` names: what stands before and what
/// stands behind its colon, where it has exactly one.
pub open spec fn mapping_of(text: Seq<char>) -> Result<(Seq<char>, Seq<char>), Seq<char>> {
    let colon = colon_at(text, 0);
    if colon < text.len() && colon_at(text, colon + 1) == text.len() {
        Ok((text.take(colon), text.skip(colon + 1)))
    } else {
        Err(not_a_mapping())
    }
}

/// Where the first colon of `text` is, looking from `from` on.
fn find_colon(text: &str, from: usize) -> (r: usize)
    requires
        from <= text@.len(),
    ensures
        r == colon_at(text@, from as int),
        from <= r <= text@.len(),
{
    let len = text.unicode_len();
    let mut i: usize = from;
    while i < len && text.get_char(i) != ':'
        invariant
            from <= i <= len,
            len == text@.len(),
            colon_at(text@, from as int) == colon_at(text@, i as int),
        decreases len - i,
    {
        i = i + 1;
    }
    i
}

/// Splits an argument of the form `SECTION:PATH` into the name of the
/// section and the path. The argument must hold exactly one colon.
pub fn area_to_file_mapping_param_valid(s: &str) -> (r: Result<(String, String), String>)
    ensures
        match r {
            Ok((section, path)) => mapping_of(s@) == Ok::<(Seq<char>, Seq<char>), Seq<char>>(
                (section@, path@),
            ),
            Err(e) => mapping_of(s@) == Err::<(Seq<char>, Seq<char>), Seq<char>>(e@),
        },
{
    let len = s.unicode_len();
    let colon = find_colon(s, 0);
    if colon < len && find_colon(s, colon + 1) == len {
        let section = String::from_str(s.substring_char(0, colon));
        let path = String::from_str(s.substring_char(colon + 1, len));
        Ok((section, path))
    } else {
        Err(String::from_str("The argument should be in the format 'SECTION:PATH'"))
    }
}

} // verus!
