use std::cell::{Cell, RefCell};

use crusty_os::bitmap::Bitmap;
use crusty_os::framework::AllocStats;
use crusty_os::memory::Memory;
use crusty_os::platform::{
    exit_failure, exit_qemu, exit_success, kernel_panic, platform_panic, test_panic_handler,
    PortWrite, QemuExitCode,
};
use crusty_os::runner::{
    register_writer, runner, test_runner, with_writer, Case, Forward, KernelWriter, Testable,
    TextBuffer, WriterCell,
};

#[test]
fn tests_are_run_and_reported() {
    let mut cell: WriterCell<TextBuffer> = WriterCell::new();
    register_writer(&mut cell, TextBuffer::new());
    let runs = Cell::new(0);
    let a = Case { name: "kernel::a", body: || runs.set(runs.get() + 1) };
    let b = Case { name: "kernel::b", body: || runs.set(runs.get() * 10) };
    let exit = test_runner(&mut cell, &[&a, &b]);
    assert_eq!(
        cell.writer().unwrap().bytes(),
        b"\nRunning 2 test(s)\n  kernel::a...[ok]\n  kernel::b...[ok]\n"
    );
    assert_eq!(exit, PortWrite { port: 0xf4, value: 0x10 });
    assert_eq!(runs.get(), 10);
    assert_eq!(a.name(), "kernel::a");
}

#[test]
fn without_a_writer_nothing_is_written() {
    let mut cell: WriterCell<TextBuffer> = WriterCell::new();
    with_writer(&mut cell, "lost");
    runner(&mut cell, &[&Case { name: "a", body: || {} }]);
    assert!(cell.writer().is_none());
    register_writer(&mut cell, TextBuffer::new());
    with_writer(&mut cell, "kept");
    assert_eq!(cell.writer().unwrap().bytes(), b"kept");
}

#[test]
fn bytes_are_written_as_they_are() {
    let mut b = TextBuffer::new();
    b.write_byte(b'o');
    b.write_byte(0xe9);
    b.write_str("\u{e9}!");
    assert_eq!(b.bytes(), [b'o', 0xe9, 0xc3, 0xa9, b'!']);
}

#[test]
fn leaving_the_emulator() {
    assert_eq!(QemuExitCode::Success.value(), 0x10);
    assert_eq!(QemuExitCode::Failure.value(), 0x11);
    assert_eq!(exit_qemu(QemuExitCode::Failure), PortWrite { port: 0xf4, value: 0x11 });
    assert_eq!(exit_success().value * 2 + 1, 33);
    assert_eq!(exit_failure().value * 2 + 1, 35);
}

#[test]
fn last_words() {
    let (text, exit) = platform_panic("boom");
    assert_eq!(text, "\n[PANIC] boom\n");
    assert_eq!(exit, exit_failure());
    let (text, exit) = test_panic_handler("boom");
    assert_eq!(text, "[failed]\n\nError: boom\n\n");
    assert_eq!(exit, exit_failure());
    let (text, exit) = kernel_panic("boom");
    assert_eq!(text, "boom\n");
    assert_eq!(exit, exit_failure());
}

#[test]
fn counters_start_at_zero() {
    let s = AllocStats::default();
    assert_eq!((s.total_bytes, s.used_bytes, s.free_bytes), (0, 0, 0));
    assert_eq!((s.alloc_count, s.dealloc_count, s.peak_bytes), (0, 0, 0));
}

#[test]
fn bits_are_toggled() {
    let mut b = Bitmap::new();
    assert!(!b.test(0));
    b.toggle(0);
    b.toggle(63);
    b.toggle(1087);
    assert!(b.test(0) && b.test(63) && b.test(1087));
    assert!(!b.test(1) && !b.test(64));
    b.toggle(63);
    assert!(!b.test(63));
}

#[test]
fn words_are_kept_in_memory() {
    let mut m = Memory::new(0x1000, vec![0xffu8; 64]);
    m.write_u64(0x1008, 0x1122_3344_5566_7788);
    assert_eq!(m.read_u64(0x1008), 0x1122_3344_5566_7788);
    assert_eq!(m.read_u16(0x1008), 0x7788);
    m.write_u16(0x100a, 0xabcd);
    assert_eq!(m.read_u64(0x1008), 0x1122_3344_abcd_7788);
    assert_eq!(m.read_u64(0x1000), u64::MAX);
    assert_eq!(m.read_u64(0x1010), u64::MAX);
    assert!(m.covers(0x1000, 64));
    assert!(!m.covers(0x1000, 65));
    assert!(!m.covers(0xfff, 1));
    assert!(!m.covers(u64::MAX, u64::MAX));
}

#[test]
fn a_name_comes_before_its_test_and_the_verdict_after() {
    let log: RefCell<Vec<String>> = RefCell::new(Vec::new());
    let mut cell = WriterCell::new();
    let text = |s: &str| log.borrow_mut().push(s.to_string());
    let byte = |b: u8| log.borrow_mut().push(format!("<{b:x}>"));
    register_writer(&mut cell, Forward::new(text, byte));
    let case = Case { name: "kernel::a", body: || log.borrow_mut().push(String::from("<run>")) };
    runner(&mut cell, &[&case]);
    assert_eq!(
        *log.borrow(),
        vec!["\nRunning 1 test(s)\n", "  kernel::a...", "<run>", "[ok]\n"]
    );
}

#[test]
fn texts_and_bytes_are_handed_on_apart() {
    let texts: RefCell<Vec<String>> = RefCell::new(Vec::new());
    let bytes: RefCell<Vec<u8>> = RefCell::new(Vec::new());
    let mut w = Forward::new(
        |s: &str| texts.borrow_mut().push(s.to_string()),
        |b: u8| bytes.borrow_mut().push(b),
    );
    w.write_byte(b'h');
    w.write_str("i\u{e9}");
    w.write_byte(0xe9);
    assert_eq!(*texts.borrow(), vec!["i\u{e9}"]);
    assert_eq!(*bytes.borrow(), vec![b'h', 0xe9]);
}

#[test]
fn a_case_is_named_by_a_function() {
    let asked = Cell::new(0);
    let runs = Cell::new(0);
    let naming = || {
        asked.set(asked.get() + 1);
        "kernel::named"
    };
    let case = Case::of(|| runs.set(runs.get() + 1), naming);
    assert_eq!((asked.get(), runs.get()), (1, 0));
    assert_eq!(case.name(), "kernel::named");
    let mut cell: WriterCell<TextBuffer> = WriterCell::new();
    register_writer(&mut cell, TextBuffer::new());
    runner(&mut cell, &[&case]);
    assert_eq!((asked.get(), runs.get()), (1, 1));
    assert_eq!(
        cell.writer().unwrap().bytes(),
        b"\nRunning 1 test(s)\n  kernel::named...[ok]\n"
    );
}
