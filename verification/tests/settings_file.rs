use musickbeets::ini::{parse_hex, parse_ini_to_map};

const SAMPLE: &str = "# muSickBeets Settings\n\n[Analysis]\nwindow_length = 8192\noverlap_percent=75\n  window_type =  Hann  \r\nbad line\n=orphan\n[Colors]\ncolor_accent = 0x89b4fa\nwindow_length = 4096\nformula = a=b";

#[test]
fn ini_keys_and_values() {
    let m = parse_ini_to_map(SAMPLE);
    assert_eq!(m.get("window_length").map(|s| s.as_str()), Some("4096"));
    assert_eq!(m.get("overlap_percent").map(|s| s.as_str()), Some("75"));
    assert_eq!(m.get("window_type").map(|s| s.as_str()), Some("Hann"));
    assert_eq!(m.get("color_accent").map(|s| s.as_str()), Some("0x89b4fa"));
    assert_eq!(m.get("").map(|s| s.as_str()), Some("orphan"));
    assert_eq!(m.get("formula").map(|s| s.as_str()), Some("a=b"));
    assert!(m.get("bad line").is_none());
    assert!(m.get("Analysis").is_none());
    assert!(m.get("# muSickBeets Settings").is_none());
}

#[test]
fn ini_empty_text() {
    let m = parse_ini_to_map("");
    assert!(m.get("").is_none());
}

#[test]
fn hex_colors() {
    assert_eq!(parse_hex("0x1e1e2e"), Some(0x1e1e2e));
    assert_eq!(parse_hex("1E1E2E"), Some(0x1e1e2e));
    assert_eq!(parse_hex("  0X00ff00 "), Some(0x00ff00));
    assert_eq!(parse_hex("0x0x10"), Some(0x10));
    assert_eq!(parse_hex("+ff"), Some(0xff));
    assert_eq!(parse_hex("0xffffffff"), Some(u32::MAX));
    assert_eq!(parse_hex("0x100000000"), None);
    assert_eq!(parse_hex("0x"), None);
    assert_eq!(parse_hex(""), None);
    assert_eq!(parse_hex("+"), None);
    assert_eq!(parse_hex("-1"), None);
    assert_eq!(parse_hex("0xg1"), None);
    assert_eq!(parse_hex("0X0x1"), None);
}
