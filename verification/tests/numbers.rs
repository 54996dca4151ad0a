//! Numbers on the command line, and what is known of a device.

use fatxlib::numbers::parse_hex_or_dec;
use fatxlib::platform::{
    configure_device_io, device_info_from, device_size_from, get_block_device_size,
};

#[test]
fn hexadecimal_and_decimal_numbers() {
    assert_eq!(parse_hex_or_dec("0x80080000"), Ok(0x8008_0000));
    assert_eq!(parse_hex_or_dec("0Xff"), Ok(255));
    assert_eq!(parse_hex_or_dec("4096"), Ok(4096));
    assert_eq!(parse_hex_or_dec("+12"), Ok(12));
    assert_eq!(parse_hex_or_dec("18446744073709551615"), Ok(u64::MAX));
    assert_eq!(parse_hex_or_dec("0xFFFFFFFFFFFFFFFF"), Ok(u64::MAX));
}

/// What the standard library makes of the same text.
fn standard(s: &str) -> Result<u64, String> {
    if let Some(hex) = s.strip_prefix("0x").or_else(|| s.strip_prefix("0X")) {
        u64::from_str_radix(hex, 16).map_err(|e| e.to_string())
    } else {
        s.parse::<u64>().map_err(|e| e.to_string())
    }
}

#[test]
fn numbers_are_read_as_the_standard_library_reads_them() {
    for s in [
        "", "0", "00012", "+", "-1", "+0", "0x", "0X", "0x+1f", "0xg", "12a", "a12", " 1", "1 ",
        "18446744073709551616", "99999999999999999999x", "9999999999999999999x", "0x10000000000000000",
        "0x1FFFFFFFFFFFFFFFFz", "0xFFFFFFFFFFFFFFFFF", "x10", "0xDeadBeef", "\u{661}", "+-1",
    ] {
        assert_eq!(parse_hex_or_dec(s), standard(s), "{:?}", s);
    }
}

#[test]
fn errors_are_given_in_words() {
    assert_eq!(
        parse_hex_or_dec(""),
        Err("cannot parse integer from empty string".to_string())
    );
    assert_eq!(
        parse_hex_or_dec("12x"),
        Err("invalid digit found in string".to_string())
    );
    assert_eq!(
        parse_hex_or_dec("18446744073709551616"),
        Err("number too large to fit in target type".to_string())
    );
}

#[test]
fn block_devices_that_cannot_be_asked() {
    assert_eq!(get_block_device_size(3), None);
    assert!(configure_device_io(3).is_none());
}

#[test]
fn block_devices_that_answer() {
    assert_eq!(device_size_from(Some(512), Some(2048)), Some(1_048_576));
    assert_eq!(device_size_from(None, Some(2048)), None);
    assert_eq!(device_size_from(Some(512), None), None);
    let info = device_info_from(Some(512), Some(2048), None, Some(131072), None).expect("info");
    assert_eq!(info.block_size, 512);
    assert_eq!(info.physical_block_size, 512);
    assert_eq!(info.device_size, 1_048_576);
    assert_eq!(info.max_read_bytes, 131072);
    assert_eq!(info.max_write_bytes, 0);
    let info = device_info_from(Some(512), Some(8), Some(4096), None, Some(9)).expect("info");
    assert_eq!(info.physical_block_size, 4096);
    assert_eq!(info.max_write_bytes, 9);
    assert!(device_info_from(None, Some(8), Some(4096), None, None).is_none());
}
