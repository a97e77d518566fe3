use dstd::panic::{panic_location, panic_report};

#[test]
fn report_names_the_location() {
    let r = panic_report("src/main.rs", 12, 5, "oops");
    assert_eq!(r, b"\x1b[101;37mThread panicked at src/main.rs:12:5:\noops\x1b[0m\n".to_vec());
}

#[test]
fn report_numbers_in_decimal() {
    let r = panic_report("a", 0, 4294967295, "");
    assert_eq!(r, b"\x1b[101;37mThread panicked at a:0:4294967295:\n\x1b[0m\n".to_vec());
    let r = panic_report("b", 100, 9, "x");
    assert_eq!(r, b"\x1b[101;37mThread panicked at b:100:9:\nx\x1b[0m\n".to_vec());
}

#[test]
fn missing_location_is_unknown() {
    assert_eq!(panic_location(None), ("???", 0, 0));
    assert_eq!(panic_location(Some(("f.rs", 1, 2))), ("f.rs", 1, 2));
}
