use nimble::hexify::{format_hex, format_hex_dump_comparison, format_hex_u32_be};
use nimble::protocol::hex_output;

#[test]
fn format_hex_of_three_octets() {
    let data = [0x42, 0xA4, 0xAE];
    let hex = format_hex(&data);
    assert_eq!(hex, "00000000  42 A4 AE                                          B..");
}

#[test]
fn hex_output_separates_octets_with_spaces() {
    assert_eq!(hex_output(&[0x0a, 0xff, 0x00]), "0A FF 00");
    assert_eq!(hex_output(&[]), "");
}

#[test]
fn format_hex_u32_is_big_endian() {
    let text = format_hex_u32_be(0x0102_0304);
    let expected = format!("00000000  0x01,0x02,0x03,0x04{}....", " ".repeat(63));
    assert_eq!(text, expected);
}

#[test]
fn comparison_of_buffers_of_different_lengths_has_a_row_per_buffer_line() {
    let encountered = [1u8, 2, 3];
    let expected: Vec<u8> = (0..20u8).collect();
    let dump = format_hex_dump_comparison(&encountered, &expected);
    let lines: Vec<&str> = dump.split('\n').collect();
    assert_eq!(lines.len(), 3);
    assert!(lines[0].starts_with("00000000    00 01 02 03"));
    assert!(lines[1].starts_with("00000000    "));
    assert!(lines[2].starts_with("00000010    10 11 12 13"));
    assert!(lines.iter().all(|line| line.ends_with('!')));
}
