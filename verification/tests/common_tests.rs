use flashmap::common::{area_to_file_mapping_param_valid, decimal_or_hex_validator_u8};

fn refused(s: &str) -> Result<u8, String> {
    Err(format!(
        "Value '{s}' is not a correctr integer nor hex value matching the argument type"
    ))
}

#[test]
fn decimal_bytes() {
    assert_eq!(decimal_or_hex_validator_u8("0"), Ok(0));
    assert_eq!(decimal_or_hex_validator_u8("7"), Ok(7));
    assert_eq!(decimal_or_hex_validator_u8("10"), Ok(10));
    assert_eq!(decimal_or_hex_validator_u8("255"), Ok(255));
    assert_eq!(decimal_or_hex_validator_u8("+12"), Ok(12));
    assert_eq!(decimal_or_hex_validator_u8("007"), Ok(7));
    assert_eq!(decimal_or_hex_validator_u8("0000000000000000000000255"), Ok(255));
}

#[test]
fn hexadecimal_bytes() {
    assert_eq!(decimal_or_hex_validator_u8("0xff"), Ok(0xff));
    assert_eq!(decimal_or_hex_validator_u8("0XFF"), Ok(0xff));
    assert_eq!(decimal_or_hex_validator_u8("0x0"), Ok(0));
    assert_eq!(decimal_or_hex_validator_u8("0x10"), Ok(16));
    assert_eq!(decimal_or_hex_validator_u8("0xAb"), Ok(0xab));
    assert_eq!(decimal_or_hex_validator_u8("ff"), Ok(0xff));
    assert_eq!(decimal_or_hex_validator_u8("a"), Ok(10));
    assert_eq!(decimal_or_hex_validator_u8("+f"), Ok(15));
    assert_eq!(decimal_or_hex_validator_u8("0x+f"), Ok(15));
    assert_eq!(decimal_or_hex_validator_u8("0x000ff"), Ok(0xff));
    // Without a mark every digit counts: `0b1` is the number b1.
    assert_eq!(decimal_or_hex_validator_u8("0b1"), Ok(0xb1));
}

#[test]
fn decimal_is_tried_before_hexadecimal() {
    assert_eq!(decimal_or_hex_validator_u8("10"), Ok(10));
    assert_eq!(decimal_or_hex_validator_u8("99"), Ok(99));
    // 256 is no decimal byte, and too large in hexadecimal as well.
    assert_eq!(decimal_or_hex_validator_u8("256"), refused("256"));
    // 300 is no byte either way, but fa is.
    assert_eq!(decimal_or_hex_validator_u8("300"), refused("300"));
    assert_eq!(decimal_or_hex_validator_u8("fa"), Ok(250));
}

#[test]
fn what_is_no_byte() {
    for s in [
        "", "+", "-", "-1", "0x", "0X", "x", "0x100", "100h", "1 ", " 1", "g", "0xg", "0x0x1",
        "++1", "+-1", "1_0", "0o7", "\u{663}", "1\u{e9}", "99999999999999999999999", "0xfffffffffffffffffffff",
    ] {
        assert_eq!(decimal_or_hex_validator_u8(s), refused(s));
    }
}

#[test]
fn mapping_of_section_and_path() {
    assert_eq!(
        area_to_file_mapping_param_valid("FW_MAIN_A:fw_main_a.bin"),
        Ok(("FW_MAIN_A".to_string(), "fw_main_a.bin".to_string()))
    );
    assert_eq!(
        area_to_file_mapping_param_valid(":"),
        Ok((String::new(), String::new()))
    );
    assert_eq!(
        area_to_file_mapping_param_valid("a:"),
        Ok(("a".to_string(), String::new()))
    );
    assert_eq!(
        area_to_file_mapping_param_valid(":/tmp/x"),
        Ok((String::new(), "/tmp/x".to_string()))
    );
    assert_eq!(
        area_to_file_mapping_param_valid("gr\u{fc}n:\u{e9}t\u{e9}.bin"),
        Ok(("gr\u{fc}n".to_string(), "\u{e9}t\u{e9}.bin".to_string()))
    );
}

#[test]
fn mapping_needs_exactly_one_colon() {
    let refused: Result<(String, String), String> =
        Err("The argument should be in the format 'SECTION:PATH'".to_string());
    for s in ["", "no colon", "a:b:c", "::", "a::b", ":a:"] {
        assert_eq!(area_to_file_mapping_param_valid(s), refused);
    }
}
