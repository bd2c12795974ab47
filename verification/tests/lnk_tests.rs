use software_manager::lnk::{parse_lnk_target, read_ansi_string, read_unicode_string, u16_from_le, u32_from_le};

const CLSID: [u8; 16] = [
    0x01, 0x14, 0x02, 0x00, 0x00, 0x00, 0x00, 0x00, 0xC0, 0x00, 0x00, 0x00, 0x00, 0x00, 0x00, 0x46,
];

fn push_u32(v: &mut Vec<u8>, x: u32) {
    v.extend_from_slice(&x.to_le_bytes());
}

fn header(flags: u32) -> Vec<u8> {
    let mut v = Vec::new();
    push_u32(&mut v, 0x4C);
    v.extend_from_slice(&CLSID);
    push_u32(&mut v, flags);
    v.resize(76, 0);
    v
}

/// A LinkInfo block whose local base path and common path suffix follow the
/// 28-byte fixed part.
fn link_info(info_flags: u32, local: &[u8], suffix: &[u8]) -> Vec<u8> {
    let mut v = Vec::new();
    let size = 28 + local.len() + suffix.len();
    push_u32(&mut v, size as u32);
    push_u32(&mut v, 28);
    push_u32(&mut v, info_flags);
    push_u32(&mut v, 0);
    push_u32(&mut v, if local.is_empty() { 0 } else { 28 });
    push_u32(&mut v, 0);
    push_u32(&mut v, if suffix.is_empty() { 0 } else { (28 + local.len()) as u32 });
    v.extend_from_slice(local);
    v.extend_from_slice(suffix);
    v
}

fn utf16z(s: &str) -> Vec<u8> {
    let mut v = Vec::new();
    for u in s.encode_utf16() {
        v.extend_from_slice(&u.to_le_bytes());
    }
    v.extend_from_slice(&[0, 0]);
    v
}

#[test]
fn reads_little_endian_integers() {
    let d = [0x78, 0x56, 0x34, 0x12, 0xff];
    assert_eq!(u32_from_le(&d, 0), 0x1234_5678);
    assert_eq!(u32_from_le(&d, 1), 0xff12_3456);
    assert_eq!(u16_from_le(&d, 0), 0x5678);
    assert_eq!(u16_from_le(&d, 3), 0xff12);
}

#[test]
fn ansi_local_base_path() {
    let mut d = header(0x02);
    d.extend(link_info(0, b"C:\\Program Files\\App\\app.exe\0", b""));
    assert_eq!(parse_lnk_target(&d), Some("C:\\Program Files\\App\\app.exe".to_string()));
}

#[test]
fn local_base_path_is_code_page_whatever_unicode_flags_say() {
    let mut d = header(0x82);
    d.extend(link_info(0x01, b"C:\\App\\run.exe\0", b""));
    assert_eq!(parse_lnk_target(&d), Some("C:\\App\\run.exe".to_string()));
}

#[test]
fn unicode_flag_example_reads_code_page_path() {
    let mut d: Vec<u8> = vec![
        0x4C, 0, 0, 0, 0x01, 0x14, 0x02, 0, 0, 0, 0, 0, 0xC0, 0, 0, 0, 0, 0, 0, 0x46, 0x82, 0, 0, 0,
    ];
    d.extend_from_slice(&[0u8; 52]);
    d.extend_from_slice(&[
        32, 0, 0, 0, 28, 0, 0, 0, 1, 0, 0, 0, 0, 0, 0, 0, 28, 0, 0, 0, 0, 0, 0, 0, 31, 0, 0, 0, 0x43, 0x3A,
        0, 0,
    ]);
    assert_eq!(parse_lnk_target(&d), Some(String::from("C:")));
}

#[test]
fn id_list_example_finds_link_info_after_size_field() {
    let mut d: Vec<u8> = vec![
        0x4C, 0, 0, 0, 0x01, 0x14, 0x02, 0, 0, 0, 0, 0, 0xC0, 0, 0, 0, 0, 0, 0, 0x46, 0x03, 0, 0, 0,
    ];
    d.extend_from_slice(&[0u8; 52]);
    d.extend_from_slice(&[2, 0, 0, 0]);
    d.extend_from_slice(&[
        32, 0, 0, 0, 28, 0, 0, 0, 0, 0, 0, 0, 0, 0, 0, 0, 28, 0, 0, 0, 0, 0, 0, 0, 29, 0, 0, 0, 0, 0x41,
        0x42, 0,
    ]);
    assert_eq!(parse_lnk_target(&d), Some(String::from("AB")));
}

#[test]
fn empty_local_path_with_suffix_example() {
    let mut d: Vec<u8> = vec![
        0x4C, 0, 0, 0, 0x01, 0x14, 0x02, 0, 0, 0, 0, 0, 0xC0, 0, 0, 0, 0, 0, 0, 0x46, 0x02, 0, 0, 0,
    ];
    d.extend_from_slice(&[0u8; 52]);
    d.extend_from_slice(&[
        32, 0, 0, 0, 28, 0, 0, 0, 0, 0, 0, 0, 0, 0, 0, 0, 28, 0, 0, 0, 0, 0, 0, 0, 29, 0, 0, 0, 0, 0x41,
        0x42, 0,
    ]);
    assert_eq!(d.len(), 108);
    assert_eq!(parse_lnk_target(&d), Some(String::from("AB")));
}

#[test]
fn falls_back_to_common_path_suffix() {
    let mut d = header(0x02);
    d.extend(link_info(0, b"", b"share\\tool.exe\0"));
    assert_eq!(parse_lnk_target(&d), Some("share\\tool.exe".to_string()));
}

#[test]
fn empty_local_path_falls_back_to_suffix() {
    let mut d = header(0x02);
    // the local base path is an empty string
    d.extend(link_info(0, b"\0", b"tail.exe\0"));
    assert_eq!(parse_lnk_target(&d), Some("tail.exe".to_string()));
}

#[test]
fn rejects_short_file() {
    let d = header(0x02);
    assert_eq!(parse_lnk_target(&d[..75]), None);
    assert_eq!(parse_lnk_target(&[]), None);
}

#[test]
fn rejects_wrong_header_size() {
    let mut d = header(0x02);
    d.extend(link_info(0, b"C:\\a.exe\0", b""));
    d[0] = 0x4D;
    assert_eq!(parse_lnk_target(&d), None);
}

#[test]
fn rejects_wrong_clsid() {
    let mut d = header(0x02);
    d.extend(link_info(0, b"C:\\a.exe\0", b""));
    d[19] = 0x47;
    assert_eq!(parse_lnk_target(&d), None);
}

#[test]
fn no_link_info_gives_none() {
    let mut d = header(0x00);
    d.extend(link_info(0, b"C:\\a.exe\0", b""));
    assert_eq!(parse_lnk_target(&d), None);
}

#[test]
fn id_list_without_room_gives_none() {
    let d = header(0x03);
    assert_eq!(parse_lnk_target(&d), None);
    let mut d2 = header(0x03);
    d2.push(0);
    assert_eq!(parse_lnk_target(&d2), None);
}

#[test]
fn truncated_link_info_gives_none() {
    let mut d = header(0x02);
    d.extend_from_slice(&[0u8; 27]);
    assert_eq!(parse_lnk_target(&d), None);
}

#[test]
fn oversized_link_info_gives_none() {
    let mut d = header(0x02);
    let mut info = link_info(0, b"C:\\a.exe\0", b"");
    info[0..4].copy_from_slice(&1000u32.to_le_bytes());
    d.extend(info);
    assert_eq!(parse_lnk_target(&d), None);
}

#[test]
fn path_offset_past_end_gives_none() {
    let mut d = header(0x02);
    let mut info = link_info(0, b"C:\\a.exe\0", b"");
    info[16..20].copy_from_slice(&0xFFFF_FFF0u32.to_le_bytes());
    d.extend(info);
    assert_eq!(parse_lnk_target(&d), None);
}

#[test]
fn ansi_string_reading() {
    assert_eq!(read_ansi_string(b"AB\0C", 0), Some("AB".to_string()));
    assert_eq!(read_ansi_string(b"AB\0C", 3), Some("C".to_string()));
    assert_eq!(read_ansi_string(&[0xFF, 0x41, 0], 0), Some("\u{FFFD}A".to_string()));
    let d = b"ab\0cd";
    assert_eq!(read_ansi_string(d, 0), Some("ab".to_string()));
    assert_eq!(read_ansi_string(d, 2), None);
    assert_eq!(read_ansi_string(d, 3), Some("cd".to_string()));
    assert_eq!(read_ansi_string(d, 5), None);
    assert_eq!(read_ansi_string(d, 100), None);
}

#[test]
fn ansi_string_invalid_utf8_is_replaced() {
    let d = [b'a', 0xff, b'b', 0];
    assert_eq!(read_ansi_string(&d, 0), Some("a\u{FFFD}b".to_string()));
}

#[test]
fn unicode_string_reading() {
    let mut d = utf16z("hi");
    d.extend(utf16z("😀"));
    assert_eq!(read_unicode_string(&d, 0), Some("hi".to_string()));
    assert_eq!(read_unicode_string(&d, 4), None);
    assert_eq!(read_unicode_string(&d, 6), Some("😀".to_string()));
    assert_eq!(read_unicode_string(&d, d.len()), None);
}

#[test]
fn unicode_string_without_terminator_stops_at_end() {
    let d = [b'x', 0, b'y', 0, b'z'];
    assert_eq!(read_unicode_string(&d, 0), Some("xy".to_string()));
}

#[test]
fn unicode_string_with_unpaired_surrogate_is_none() {
    let d = [0x00, 0xD8, b'a', 0, 0, 0];
    assert_eq!(read_unicode_string(&d, 0), None);
}
