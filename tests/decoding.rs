use ttynamed::decode::udevadm_decode;
use ttynamed::tty::{pon, Tty};
use ttynamed::udev::{available_ttys, parse_property_line, property_value, read_usb_info};

fn lines(items: &[&str]) -> Vec<String> {
    items.iter().map(|s| s.to_string()).collect()
}

#[test]
fn decode_without_escapes_is_unchanged() {
    assert_eq!(udevadm_decode("plain_text-123"), "plain_text-123");
    assert_eq!(udevadm_decode(""), "");
    assert_eq!(udevadm_decode("back\\slash"), "back\\slash");
}

#[test]
fn decode_hex_space() {
    assert_eq!(udevadm_decode("hello\\x20world"), "hello world");
}

#[test]
fn decode_non_hex_digits_become_question_mark() {
    assert_eq!(udevadm_decode("a\\xZZb"), "a?b");
    assert_eq!(udevadm_decode("\\x4g"), "?");
}

#[test]
fn decode_upper_and_lower_case_digits() {
    assert_eq!(udevadm_decode("\\x41\\x6a"), "Aj");
    assert_eq!(udevadm_decode("\\x4A"), "J");
}

#[test]
fn decode_byte_above_ascii_is_its_code_point() {
    assert_eq!(udevadm_decode("caf\\xe9"), "caf\u{e9}");
}

#[test]
fn decode_truncated_escape_is_kept() {
    assert_eq!(udevadm_decode("ab\\x4"), "ab\\x4");
    assert_eq!(udevadm_decode("\\x"), "\\x");
}

#[test]
fn decode_several_escapes() {
    assert_eq!(udevadm_decode("FTDI\\x20USB\\x20Serial"), "FTDI USB Serial");
}

#[test]
fn pon_shows_value_or_none() {
    assert_eq!(pon(&Some("FTDI".to_string())), "FTDI");
    assert_eq!(pon(&None), "None");
}

#[test]
fn parse_property_line_shapes() {
    assert_eq!(
        parse_property_line("ID_BUS='usb'"),
        Some(("ID_BUS".to_string(), "usb".to_string()))
    );
    assert_eq!(parse_property_line("garbage"), None);
    assert_eq!(parse_property_line("KEY='a b'"), None);
    assert_eq!(parse_property_line("='x'"), None);
    assert_eq!(parse_property_line("KEY=''"), None);
    assert_eq!(parse_property_line("KEY=x"), None);
    assert_eq!(
        parse_property_line("ID_MODEL_ENC='My\\x20Board'"),
        Some(("ID_MODEL_ENC".to_string(), "My\\x20Board".to_string()))
    );
}

#[test]
fn parse_property_line_finds_pattern_inside_line() {
    assert_eq!(
        parse_property_line(" ID_BUS='usb'"),
        Some(("ID_BUS".to_string(), "usb".to_string()))
    );
    assert_eq!(
        parse_property_line("x A='b' trailing"),
        Some(("A".to_string(), "b".to_string()))
    );
    assert_eq!(parse_property_line("A=B='c'"), Some(("A=B".to_string(), "c".to_string())));
}

#[test]
fn parse_property_line_takes_longest_key_then_value() {
    assert_eq!(
        parse_property_line("A='b'c='d'"),
        Some(("A='b'c".to_string(), "d".to_string()))
    );
    assert_eq!(parse_property_line("A='b'c'"), Some(("A".to_string(), "b'c".to_string())));
}

#[test]
fn read_usb_info_reads_indented_bus_line() {
    let l = lines(&["DEVNAME='/dev/x'", " ID_BUS='usb'"]);
    let p = read_usb_info(&l).expect("a usb device");
    assert_eq!(p.device, "/dev/x");
}

#[test]
fn property_value_last_line_wins() {
    let l = lines(&["A='1'", "B='2'", "A='3'", "junk"]);
    assert_eq!(property_value(&l, "A"), Some("3".to_string()));
    assert_eq!(property_value(&l, "B"), Some("2".to_string()));
    assert_eq!(property_value(&l, "C"), None);
}

#[test]
fn read_usb_info_reads_identity() {
    let l = lines(&[
        "DEVPATH='/devices/x/ttyUSB0'",
        "DEVNAME='/dev/ttyUSB0'",
        "ID_BUS='usb'",
        "ID_VENDOR_ENC='FTDI\\x20Ltd'",
        "ID_MODEL_ENC='FT232R'",
        "ID_SERIAL_SHORT='A12345'",
    ]);
    let p = read_usb_info(&l).expect("a usb device");
    assert_eq!(p.device, "/dev/ttyUSB0");
    assert_eq!(p.tty.manufacturer, Some("FTDI Ltd".to_string()));
    assert_eq!(p.tty.model, Some("FT232R".to_string()));
    assert_eq!(p.tty.serial, Some("A12345".to_string()));
}

#[test]
fn read_usb_info_missing_fields_are_absent() {
    let l = lines(&["DEVNAME='/dev/ttyACM0'", "ID_BUS='usb'"]);
    let p = read_usb_info(&l).expect("a usb device");
    assert_eq!(p.device, "/dev/ttyACM0");
    assert_eq!(p.tty.manufacturer, None);
    assert_eq!(p.tty.model, None);
    assert_eq!(p.tty.serial, None);
}

#[test]
fn read_usb_info_rejects_non_usb() {
    let l = lines(&[
        "DEVNAME='/dev/ttyS0'",
        "ID_BUS='pci'",
        "ID_VENDOR_ENC='Intel'",
        "ID_MODEL_ENC='UART'",
        "ID_SERIAL_SHORT='1'",
    ]);
    assert!(read_usb_info(&l).is_none());
    let no_bus = lines(&["DEVNAME='/dev/ttyS1'", "ID_VENDOR_ENC='Intel'"]);
    assert!(read_usb_info(&no_bus).is_none());
}

#[test]
fn read_usb_info_needs_device_node() {
    let l = lines(&["ID_BUS='usb'", "ID_SERIAL_SHORT='A1'"]);
    assert!(read_usb_info(&l).is_none());
}

#[test]
fn available_ttys_keeps_only_usb_in_order() {
    let listings = vec![
        lines(&["DEVNAME='/dev/ttyUSB0'", "ID_BUS='usb'", "ID_SERIAL_SHORT='A'"]),
        lines(&["DEVNAME='/dev/ttyS0'", "ID_BUS='pci'"]),
        lines(&["DEVNAME='/dev/ttyUSB1'", "ID_BUS='usb'", "ID_SERIAL_SHORT='B'"]),
        lines(&[]),
    ];
    let found = available_ttys(&listings);
    assert_eq!(found.len(), 2);
    assert_eq!(found[0].device, "/dev/ttyUSB0");
    assert_eq!(found[1].device, "/dev/ttyUSB1");
    assert_eq!(found[1].tty.serial, Some("B".to_string()));
}

fn tty(m: Option<&str>, model: Option<&str>, s: Option<&str>) -> Tty {
    Tty {
        manufacturer: m.map(|x| x.to_string()),
        model: model.map(|x| x.to_string()),
        serial: s.map(|x| x.to_string()),
    }
}

#[test]
fn identity_equality_is_field_wise() {
    let a = tty(Some("FTDI"), Some("FT232"), Some("1"));
    let b = tty(Some("FTDI"), Some("FT232"), Some("1"));
    assert!(a == a);
    assert!(a == b && b == a);
    assert!(a != tty(Some("FTDI"), Some("FT232"), Some("2")));
    assert!(a != tty(Some("FTDI"), None, Some("1")));
    assert!(tty(None, None, None) == tty(None, None, None));
    assert!(tty(None, None, None) != tty(None, None, Some("")));
    assert!(a.same_identity(&b));
    assert!(a.is_complete());
    assert!(!tty(Some("x"), None, Some("y")).is_complete());
    assert!(a.duplicate() == a);
}
