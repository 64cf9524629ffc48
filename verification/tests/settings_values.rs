use musickbeets::ini::{parse_hex, parse_ini_to_map};
use musickbeets::ini_values::{
    format_bool, format_hex_color, format_i32, format_usize, parse_i32, text_is_true,
};
use musickbeets::ini_write::{render_ini, IniLine};
use musickbeets::validation::parse_usize;

#[test]
fn usize_values_round_trip() {
    assert_eq!(format_usize(0), "0");
    assert_eq!(format_usize(8192), "8192");
    assert_eq!(format_usize(usize::MAX), usize::MAX.to_string());
    for n in [0usize, 7, 10, 4096, 65536, 123456789] {
        assert_eq!(parse_usize(&format_usize(n)), Some(n));
    }
}

#[test]
fn i32_values() {
    assert_eq!(format_i32(0), "0");
    assert_eq!(format_i32(1400), "1400");
    assert_eq!(format_i32(-25), "-25");
    assert_eq!(format_i32(i32::MIN), "-2147483648");
    assert_eq!(format_i32(i32::MAX), "2147483647");
    for n in [0i32, 1, -1, 900, -900, i32::MIN, i32::MAX] {
        assert_eq!(parse_i32(&format_i32(n)), Some(n));
    }
}

#[test]
fn i32_parsing_follows_from_str() {
    let cases = [
        "", "+", "-", "+5", "-5", "007", "-0", "2147483647", "2147483648", "-2147483648",
        "-2147483649", "12a", " 1", "1 ", "+-1", "--1", "99999999999999",
    ];
    for c in cases {
        assert_eq!(parse_i32(c), c.parse::<i32>().ok(), "input {:?}", c);
    }
}

#[test]
fn booleans() {
    assert_eq!(format_bool(true), "true");
    assert_eq!(format_bool(false), "false");
    assert!(text_is_true("true"));
    assert!(!text_is_true("false"));
    assert!(!text_is_true("True"));
    assert!(!text_is_true("true "));
    assert!(!text_is_true(""));
    assert!(text_is_true(&format_bool(true)));
    assert!(!text_is_true(&format_bool(false)));
}

#[test]
fn colors() {
    assert_eq!(format_hex_color(0x1e1e2e), "0x1e1e2e");
    assert_eq!(format_hex_color(0xff), "0x0000ff");
    assert_eq!(format_hex_color(0), "0x000000");
    assert_eq!(format_hex_color(0x89b4fa), "0x89b4fa");
    assert_eq!(format_hex_color(0x1234567), "0x1234567");
    assert_eq!(format_hex_color(u32::MAX), "0xffffffff");
    for c in [0u32, 0xff, 0x1e1e2e, 0xcdd6f4, 0x1234567, u32::MAX] {
        assert_eq!(format_hex_color(c), format!("0x{:06x}", c));
        assert_eq!(parse_hex(&format_hex_color(c)), Some(c));
    }
}

#[test]
fn written_settings_read_back() {
    let lines = vec![
        IniLine::Comment("muSickBeets Settings".to_string()),
        IniLine::Blank,
        IniLine::Section("Analysis".to_string()),
        IniLine::Entry("window_length".to_string(), format_usize(8192)),
        IniLine::Entry("center_pad".to_string(), format_bool(true)),
        IniLine::Entry("window_type".to_string(), "Hann".to_string()),
        IniLine::Blank,
        IniLine::Section("Window".to_string()),
        IniLine::Entry("window_width".to_string(), format_i32(-1400)),
        IniLine::Entry("empty".to_string(), String::new()),
        IniLine::Section("Colors".to_string()),
        IniLine::Comment("Colors are in hex (0xRRGGBB)".to_string()),
        IniLine::Entry("color_accent".to_string(), format_hex_color(0x89b4fa)),
        IniLine::Entry("window_length".to_string(), format_usize(4096)),
    ];
    let text = render_ini(&lines);
    assert_eq!(
        text,
        "# muSickBeets Settings\n\n[Analysis]\nwindow_length = 8192\ncenter_pad = true\n\
         window_type = Hann\n\n[Window]\nwindow_width = -1400\nempty = \n[Colors]\n\
         # Colors are in hex (0xRRGGBB)\ncolor_accent = 0x89b4fa\nwindow_length = 4096\n"
    );
    let m = parse_ini_to_map(&text);
    assert_eq!(m.get("window_length").map(|s| s.as_str()), Some("4096"));
    assert_eq!(m.get("center_pad").map(|s| s.as_str()), Some("true"));
    assert_eq!(m.get("window_type").map(|s| s.as_str()), Some("Hann"));
    assert_eq!(m.get("window_width").map(|s| s.as_str()), Some("-1400"));
    assert_eq!(m.get("empty").map(|s| s.as_str()), Some(""));
    assert_eq!(m.get("color_accent").map(|s| s.as_str()), Some("0x89b4fa"));
    assert!(m.get("Analysis").is_none());
    assert!(m.get("muSickBeets Settings").is_none());
    assert_eq!(parse_i32(m.get("window_width").unwrap()), Some(-1400));
    assert_eq!(parse_hex(m.get("color_accent").unwrap()), Some(0x89b4fa));
}

#[test]
fn render_empty_and_blank() {
    assert_eq!(render_ini(&Vec::new()), "");
    assert_eq!(render_ini(&vec![IniLine::Blank]), "\n");
    assert_eq!(render_ini(&vec![IniLine::Entry(String::new(), String::new())]), " = \n");
    let m = parse_ini_to_map(" = \n");
    assert_eq!(m.get("").map(|s| s.as_str()), Some(""));
}
