use crusty_os::gdt::{stack_table, STACK_SIZE};
use crusty_os::interrupts::apic::{apic_supported, disable_pic, LocalApic};
use crusty_os::interrupts::dispatch::{dispatch, register, unregister, HandlerTable};
use crusty_os::interrupts::exceptions::{self, handler_of, Handler};
use crusty_os::interrupts::handlers::{self, Frame, Outcome};
use crusty_os::interrupts::keyboard::{key_text, Decoder, Key};
use crusty_os::interrupts::minimal;
use crusty_os::interrupts::pic::{
    end_of_interrupt, eoi_if_not_spurious_master, eoi_if_not_spurious_slave, isr_bit, mask_irq,
    mask_port, query_master, query_slave, read_imr, unmask_irq, Step,
};
use crusty_os::interrupts::stats::{count, record, reset_all, snapshot_active, Counters};
use crusty_os::interrupts::vectors::InterruptVector;
use x86_64::registers::rflags::RFlags;
use x86_64::structures::gdt::SegmentSelector;
use x86_64::structures::idt::{InterruptStackFrame, PageFaultErrorCode};
use x86_64::VirtAddr;

const FRAME: Frame = Frame {
    instruction_pointer: 0xffff_ffff_8010_1234,
    code_segment: 8,
    cpu_flags: 0x202,
    stack_pointer: 0x7000,
    stack_segment: 0x10,
};

fn long_form() -> String {
    let frame = InterruptStackFrame::new(
        VirtAddr::new(FRAME.instruction_pointer),
        SegmentSelector(FRAME.code_segment),
        RFlags::from_bits_retain(FRAME.cpu_flags),
        VirtAddr::new(FRAME.stack_pointer),
        SegmentSelector(FRAME.stack_segment),
    );
    format!("{:#?}", frame)
}

fn panic_text(o: Outcome) -> String {
    match o {
        Outcome::Panic(s) => s,
        Outcome::Print(s) => panic!("printed {s}"),
    }
}

fn print_text(o: Outcome) -> String {
    match o {
        Outcome::Print(s) => s,
        Outcome::Panic(s) => panic!("stopped with {s}"),
    }
}

#[test]
fn test_breakpoint_does_not_panic() {
    let mut stats = Counters::new();
    let text = print_text(handlers::breakpoint_handler(&mut stats, &FRAME));
    assert_eq!(text, "EXCEPTION: BREAKPOINT (#BP)\nip=0xffffffff80101234 sp=0x7000\n");
    assert_eq!(count(&stats, 3), 1);
}

#[test]
fn test_breakpoint_exception() {
    let text = print_text(minimal::breakpoint_handler(&FRAME));
    assert_eq!(text, format!("EXCEPTION: BREAKPOINT\n{}\n", long_form()));
}

#[test]
fn test_repeated_breakpoints() {
    let mut stats = Counters::new();
    for _ in 0..5 {
        print_text(handlers::breakpoint_handler(&mut stats, &FRAME));
    }
    assert_eq!(count(&stats, 3), 5);
    assert_eq!(snapshot_active(&stats), vec![(3, 5)]);
}

#[test]
fn exceptions_that_are_survived() {
    let mut stats = Counters::new();
    assert_eq!(
        print_text(handlers::debug_handler(&mut stats, &FRAME)),
        "EXCEPTION: DEBUG (#DB)\nip=0xffffffff80101234 sp=0x7000\n"
    );
    assert_eq!(
        print_text(handlers::overflow_handler(&mut stats, &FRAME)),
        "EXCEPTION: OVERFLOW (#OF)\nip=0xffffffff80101234\n"
    );
    assert_eq!(snapshot_active(&stats), vec![(1, 1), (4, 1)]);
}

#[test]
fn exceptions_that_stop_the_kernel() {
    let mut s = Counters::new();
    let dump = long_form();
    assert!(dump.starts_with("InterruptStackFrame {"));
    let ip = "0xffffffff80101234";
    assert_eq!(
        panic_text(handlers::divide_error_handler(&mut s, &FRAME)),
        format!("EXCEPTION: DIVIDE ERROR (#DE)\nInstruction pointer: {ip}\n{dump}")
    );
    assert_eq!(
        panic_text(handlers::nmi_handler(&mut s, &FRAME)),
        format!(
            "EXCEPTION: NON-MASKABLE INTERRUPT (NMI)\nThis usually indicates hardware failure \
             (RAM, watchdog, or bus error).\nip={ip}\n{dump}"
        )
    );
    assert_eq!(
        panic_text(handlers::bound_range_handler(&mut s, &FRAME)),
        format!("EXCEPTION: BOUND RANGE EXCEEDED (#BR)\nip={ip}\n{dump}")
    );
    assert_eq!(
        panic_text(handlers::invalid_opcode_handler(&mut s, &FRAME)),
        format!(
            "EXCEPTION: INVALID OPCODE (#UD)\nip={ip}  (check for miscompiled code or \
             unsupported CPU feature)\n{dump}"
        )
    );
    assert_eq!(
        panic_text(handlers::device_not_available_handler(&mut s, &FRAME)),
        format!(
            "EXCEPTION: DEVICE NOT AVAILABLE (#NM)\nFPU/SSE state not saved.  Implement lazy \
             FPU switching.\n{dump}"
        )
    );
    assert_eq!(
        panic_text(handlers::double_fault_handler(&mut s, &FRAME)),
        format!(
            "EXCEPTION: DOUBLE FAULT (#DF)\nThis indicates a fault occurred while handling \
             another fault,\nor a stack overflow corrupted the stack pointer.\n{dump}"
        )
    );
    assert_eq!(
        panic_text(handlers::invalid_tss_handler(&mut s, &FRAME, 0x28)),
        format!("EXCEPTION: INVALID TSS (#TS)\nSelector: 0x28\n{dump}")
    );
    assert_eq!(
        panic_text(handlers::segment_not_present_handler(&mut s, &FRAME, 0x30)),
        format!("EXCEPTION: SEGMENT NOT PRESENT (#NP)\nSelector: 0x30\n{dump}")
    );
    assert_eq!(
        panic_text(handlers::stack_segment_handler(&mut s, &FRAME, 0)),
        format!("EXCEPTION: STACK-SEGMENT FAULT (#SS)\nSelector/offset: 0x0\n{dump}")
    );
    assert_eq!(
        panic_text(handlers::general_protection_handler(&mut s, &FRAME, 0xab)),
        format!(
            "EXCEPTION: GENERAL PROTECTION FAULT (#GP)\nError code: 0xab  (0 = not \
             segment-related)\nip={ip}\n{dump}"
        )
    );
    assert_eq!(
        panic_text(handlers::x87_fp_handler(&mut s, &FRAME)),
        format!(
            "EXCEPTION: x87 FLOATING-POINT (#MF)\nCheck x87 FPU status word for specific \
             condition.\n{dump}"
        )
    );
    assert_eq!(
        panic_text(handlers::alignment_check_handler(&mut s, &FRAME, 0)),
        format!("EXCEPTION: ALIGNMENT CHECK (#AC)\nError code: 0x0\n{dump}")
    );
    assert_eq!(
        panic_text(handlers::machine_check_handler(&mut s, &FRAME)),
        format!(
            "EXCEPTION: MACHINE CHECK (#MC)\nThis indicates unrecoverable hardware \
             error.\nConsult MCi_STATUS MSRs for details.\n{dump}"
        )
    );
    assert_eq!(
        panic_text(handlers::simd_fp_handler(&mut s, &FRAME)),
        format!(
            "EXCEPTION: SIMD FLOATING-POINT (#XM)\nCheck MXCSR for specific condition.\n{dump}"
        )
    );
    assert_eq!(
        panic_text(handlers::virtualization_handler(&mut s, &FRAME)),
        format!(
            "EXCEPTION: VIRTUALIZATION (#VE)\nEPT violation — check VMCS for details.\n{dump}"
        )
    );
    assert_eq!(
        panic_text(minimal::double_fault_handler(&FRAME)),
        format!("EXCEPTION: DOUBLE FAULT\n{dump}")
    );
    let vectors: Vec<u8> = snapshot_active(&s).iter().map(|&(v, _)| v).collect();
    assert_eq!(
        vectors,
        vec![0x00, 0x02, 0x05, 0x06, 0x07, 0x08, 0x0a, 0x0b, 0x0c, 0x0d, 0x10, 0x11, 0x12, 0x13, 0x14]
    );
}

#[test]
fn a_page_fault_says_where_and_why() {
    let mut s = Counters::new();
    let bits = PageFaultErrorCode::PROTECTION_VIOLATION | PageFaultErrorCode::CAUSED_BY_WRITE;
    let text = panic_text(handlers::page_fault_handler(&mut s, &FRAME, bits.bits(), 0xdead_b000));
    assert_eq!(
        text,
        format!(
            "EXCEPTION: PAGE FAULT (#PF)\nFaulting address : 0xdeadb000\nError flags      : \
             {:?}\nip=0xffffffff80101234\n{}",
            bits,
            long_form()
        )
    );
    assert_eq!(count(&s, 14), 1);
}

#[test]
fn hardware_interrupts() {
    let mut s = Counters::new();
    assert_eq!(
        handlers::timer_handler(&mut s),
        vec![Step::Dispatch(0), Step::EndOfInterrupt(0x20)]
    );
    assert_eq!(
        handlers::rtc_handler(&mut s),
        vec![
            Step::Write(0x70, 0x0c),
            Step::Read(0x71),
            Step::Dispatch(8),
            Step::EndOfInterrupt(0x28)
        ]
    );
    assert_eq!(
        handlers::mouse_handler(&mut s),
        vec![Step::Read(0x60), Step::Dispatch(12), Step::EndOfInterrupt(0x2c)]
    );
    assert_eq!(
        handlers::ata_primary_handler(&mut s),
        vec![Step::Dispatch(14), Step::EndOfInterrupt(0x2e)]
    );
    assert_eq!(
        handlers::ata_secondary_handler(&mut s, 0x80),
        vec![Step::Dispatch(15), Step::EndOfInterrupt(0x2f)]
    );
    assert_eq!(handlers::ata_secondary_handler(&mut s, 0x7f), vec![Step::Write(0x20, 0x20)]);
    assert_eq!(
        handlers::spurious_master_handler(&mut s, 0x80),
        vec![Step::Dispatch(7), Step::EndOfInterrupt(0x27)]
    );
    assert_eq!(handlers::spurious_master_handler(&mut s, 0x00), vec![]);
    assert_eq!(
        snapshot_active(&s),
        vec![(0x20, 1), (0x27, 2), (0x28, 1), (0x2c, 1), (0x2e, 1), (0x2f, 2)]
    );
}

#[test]
fn keys_are_decoded_and_shown() {
    let mut s = Counters::new();
    let mut keyboard = Decoder::new();
    // `a` pressed and released, then with shift held
    let (text, steps) = handlers::keyboard_handler(&mut s, &mut keyboard, 0x1e);
    assert_eq!(text.as_deref(), Some("a"));
    assert_eq!(steps, vec![Step::Dispatch(1), Step::EndOfInterrupt(0x21)]);
    let (text, _) = handlers::keyboard_handler(&mut s, &mut keyboard, 0x9e);
    assert_eq!(text, None);
    // the modifier itself is a key without a character
    let shift = keyboard.feed(0x2a);
    assert_eq!(shift.as_deref(), Some("LShift"));
    assert_eq!(keyboard.feed(0x1e).as_deref(), Some("A"));
    // an extended code takes two bytes
    assert_eq!(keyboard.feed(0xe0), None);
    assert_eq!(keyboard.feed(0x48).as_deref(), Some("ArrowUp"));
    assert_eq!(count(&s, 0x21), 2);
}

#[test]
fn what_a_key_shows() {
    assert_eq!(key_text(Key::Character('ß')), "ß");
    assert_eq!(key_text(Key::Named(String::from("F1"))), "F1");
}

#[test]
fn test_pic_irq_mask_round_trip() {
    let before = 0b0000_0011u8;
    let Step::Write(port, masked) = mask_irq(5, before) else { panic!("no write") };
    assert_eq!(port, mask_port(5));
    assert!(masked & (1 << 5) != 0, "IRQ5 should be masked");
    assert_eq!(masked, 0b0010_0011);
    let Step::Write(_, after) = unmask_irq(5, masked) else { panic!("no write") };
    assert_eq!(before, after, "IMR should be restored");
    assert_eq!(mask_irq(12, 0), Step::Write(0xa1, 0x10));
    assert_eq!(unmask_irq(15, 0xff), Step::Write(0xa1, 0x7f));
    assert_eq!(read_imr(0x23, 0xa1), 0xa123);
}

#[test]
fn acknowledging_interrupts() {
    assert_eq!(end_of_interrupt(0x21), Step::EndOfInterrupt(0x21));
    assert_eq!(query_master(), vec![Step::Write(0x20, 0x0b), Step::Read(0x20)]);
    assert_eq!(query_slave(), vec![Step::Write(0xa0, 0x0b), Step::Read(0xa0)]);
    assert!(isr_bit(0x80, 7));
    assert!(!isr_bit(0x7f, 7));
    assert_eq!(eoi_if_not_spurious_master(0xff), (true, vec![Step::EndOfInterrupt(0x27)]));
    assert_eq!(eoi_if_not_spurious_master(0x7f), (false, vec![]));
    assert_eq!(eoi_if_not_spurious_slave(0x80), (true, vec![Step::EndOfInterrupt(0x2f)]));
    assert_eq!(eoi_if_not_spurious_slave(0), (false, vec![Step::Write(0x20, 0x20)]));
}

#[test]
fn test_dispatch_register_and_unregister() {
    fn handler() -> u32 {
        5
    }
    let mut table: HandlerTable<fn() -> u32> = HandlerTable::new();
    register(&mut table, 5, handler).expect("register failed");
    let h = dispatch(&table, 5).expect("a handler");
    assert_eq!(h(), 5);
    unregister(&mut table, 5);
    assert!(dispatch(&table, 5).is_none());
}

#[test]
fn registering_twice_or_out_of_range_fails() {
    let mut table: HandlerTable<u8> = HandlerTable::new();
    assert_eq!(register(&mut table, 3, 1), Ok(()));
    assert_eq!(register(&mut table, 3, 2), Err("IRQ slot already registered"));
    assert_eq!(register(&mut table, 16, 2), Err("IRQ number out of range (0–15 only)"));
    assert_eq!(dispatch(&table, 3), Some(1));
    unregister(&mut table, 200);
    assert_eq!(dispatch(&table, 3), Some(1));
}

#[test]
fn counters_count_and_reset() {
    let mut s = Counters::new();
    record(&mut s, 0x21);
    record(&mut s, 0x21);
    record(&mut s, 0xff);
    assert_eq!(count(&s, 0x21), 2);
    assert_eq!(count(&s, 0x22), 0);
    assert_eq!(snapshot_active(&s), vec![(0x21, 2), (0xff, 1)]);
    reset_all(&mut s);
    assert_eq!(snapshot_active(&s), vec![]);
}

#[test]
fn vectors_have_their_numbers() {
    assert_eq!(InterruptVector::Timer.as_u8(), 0x20);
    assert_eq!(InterruptVector::Keyboard.as_usize(), 0x21);
    assert_eq!(InterruptVector::AtaSecondary.as_u8(), 0x2f);
    assert!(InterruptVector::SpuriousMaster.is_spurious_master());
    assert!(!InterruptVector::Timer.is_spurious_master());
}

#[test]
fn the_table_of_vectors() {
    let table = exceptions::init();
    assert_eq!(table.len(), 26);
    let own: Vec<(u8, u16)> =
        table.iter().filter_map(|e| e.stack_index.map(|i| (e.vector, i))).collect();
    assert_eq!(own, vec![(0x02, 1), (0x08, 0), (0x12, 2)]);
    assert!(table.windows(2).all(|w| w[0].vector < w[1].vector));
    assert_eq!(handler_of(&table, 0x0e), Some(Handler::PageFault));
    assert_eq!(handler_of(&table, 0x27), Some(Handler::SpuriousMaster));
    assert_eq!(handler_of(&table, 0x09), None);
    let small = minimal::init_idt();
    assert_eq!(handler_of(&small, 3), Some(Handler::PlainBreakpoint));
    assert_eq!(handler_of(&small, 0x20), None);
    assert_eq!(small.len(), 2);
    assert_eq!((small[0].vector, small[0].stack_index), (3, None));
    assert_eq!((small[1].vector, small[1].stack_index), (8, Some(0)));
}

#[test]
fn stacks_are_entered_at_their_top() {
    let t = stack_table(0x1000, 0x10_0000, 0x20_0000);
    assert_eq!(STACK_SIZE, 4096 * 5);
    assert_eq!(t, [0x6000, 0x10_5000, 0x20_5000, 0, 0, 0, 0]);
}

#[test]
fn the_local_controller() {
    assert!(apic_supported(1 << 9));
    assert!(!apic_supported(!(1 << 9)));
    assert_eq!(disable_pic(), vec![Step::Write(0x21, 0xff), Step::Write(0xa1, 0xff)]);
    let apic = LocalApic::new(0xfee0_0000);
    assert_eq!(apic.register(0xf0), 0xfee0_00f0);
    assert_eq!(apic.init(0xff).value, 0x1ff);
    assert_eq!(apic.end_of_interrupt().value, 0);
    assert_eq!(apic.id(0x0300_0000), 3);
    assert_eq!(apic.version(0x50014), 0x50014);
    let timer = apic.configure_timer(0x20, 1000, 3, true);
    assert_eq!(timer.iter().map(|w| w.value).collect::<Vec<_>>(), vec![3, 0x2_0020, 1000]);
    let ipi = apic.send_ipi(2, 0x40);
    assert_eq!(ipi.iter().map(|w| w.value).collect::<Vec<_>>(), vec![0x0200_0000, 0x4040]);
}
