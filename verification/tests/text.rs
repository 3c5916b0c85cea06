use crusty_os::text::{decimal, hex};

#[test]
fn numbers_as_text() {
    assert_eq!(decimal(0), "0");
    assert_eq!(decimal(18446744073709551615), "18446744073709551615");
    assert_eq!(hex(0), "0x0");
    assert_eq!(hex(0xdead_beef), "0xdeadbeef");
}
