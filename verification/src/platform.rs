//! Leaving the emulator, and what is said on the way out.

use vstd::prelude::*;
use vstd::string::StringExecFns;

verus! {

/// Port of the debug-exit device.
pub const EXIT_PORT: u16 = 0xf4;

/// Port of the first serial line.
pub const COM1_PORT: u16 = 0x3f8;

/// How a run under the emulator ended.
#[derive(Debug, Clone, Copy, PartialEq, Eq, Structural)]
pub enum QemuExitCode {
    /// All tests passed.
    Success,
    /// A test or an assertion failed.
    Failure,
}

/// The value that stands for an exit code.
pub open spec fn exit_value(code: QemuExitCode) -> u32 {
    match code {
        QemuExitCode::Success => 0x10,
        QemuExitCode::Failure => 0x11,
    }
}

/// The exit code that the emulator gives to its host for a value.
pub open spec fn host_code(value: int) -> int {
    value * 2 + 1
}

impl QemuExitCode {
    /// The value that stands for this code.
    pub fn value(self) -> (v: u32)
        ensures
            v == exit_value(self),
    {
        match self {
            QemuExitCode::Success => 0x10,
            QemuExitCode::Failure => 0x11,
        }
    }
}

/// One value for one port.
#[derive(Debug, Clone, Copy, PartialEq, Eq, Structural)]
pub struct PortWrite {
    /// The port.
    pub port: u16,
    /// The value.
    pub value: u32,
}

/// What leaving with `code` sends to which port.
pub open spec fn exit_write(code: QemuExitCode) -> PortWrite {
    PortWrite { port: EXIT_PORT, value: exit_value(code) }
}

/// What to send to leave the emulator with `code`.
pub fn exit_qemu(code: QemuExitCode) -> (w: PortWrite)
    ensures
        w == exit_write(code),
{
    PortWrite { port: EXIT_PORT, value: code.value() }
}

/// What to send to leave the emulator after a success.
pub fn exit_success() -> (w: PortWrite)
    ensures
        w == exit_write(QemuExitCode::Success),
{
    exit_qemu(QemuExitCode::Success)
}

/// What to send to leave the emulator after a failure.
pub fn exit_failure() -> (w: PortWrite)
    ensures
        w == exit_write(QemuExitCode::Failure),
{
    exit_qemu(QemuExitCode::Failure)
}

/// The host sees 33 after a success and 35 after a failure.
pub proof fn law_host_codes()
    ensures
        host_code(exit_value(QemuExitCode::Success) as int) == 33,
        host_code(exit_value(QemuExitCode::Failure) as int) == 35,
{
}

/// What the platform says of a panic, and what it sends to leave the emulator.
pub fn platform_panic(info: &str) -> (r: (String, PortWrite))
    ensures
        r.0@ == "\n[PANIC] "@ + info@ + "\n"@,
        r.1 == exit_write(QemuExitCode::Failure),
{
    let mut s: String = String::from_str("\n[PANIC] ");
    s.append(info);
    s.append("\n");
    (s, exit_failure())
}

/// What a test run says of a panic, and what it sends to leave the emulator.
pub fn test_panic_handler(info: &str) -> (r: (String, PortWrite))
    ensures
        r.0@ == "[failed]\n\nError: "@ + info@ + "\n\n"@,
        r.1 == exit_write(QemuExitCode::Failure),
{
    let mut s: String = String::from_str("[failed]\n\nError: ");
    s.append(info);
    s.append("\n\n");
    (s, exit_failure())
}

/// What the kernel says of a panic, and what it sends to leave the emulator.
pub fn kernel_panic(info: &str) -> (r: (String, PortWrite))
    ensures
        r.0@ == info@ + "\n"@,
        r.1 == exit_write(QemuExitCode::Failure),
{
    let mut s: String = String::from_str(info);
    s.append("\n");
    (s, exit_failure())
}

/// Leaving is one write to the exit device, of a value that the host tells the codes apart by
/// and takes for neither success nor failure of the emulator itself.
pub proof fn law_exit(code: QemuExitCode, other: QemuExitCode)
    ensures
        exit_write(code).port == 0xf4,
        COM1_PORT == 0x3f8,
        exit_write(code) == exit_write(other) ==> code == other,
        host_code(exit_write(QemuExitCode::Success).value as int) == 33,
        host_code(exit_write(QemuExitCode::Failure).value as int) == 35,
        host_code(exit_write(code).value as int) == 2 * exit_write(code).value + 1,
{
}

/// Every way to end on a panic says what it was and leaves with a failure.
pub proof fn law_panics(
    info: &str,
    platform: (String, PortWrite),
    test: (String, PortWrite),
    kernel: (String, PortWrite),
)
    requires
        call_ensures(platform_panic, (info,), platform),
        call_ensures(test_panic_handler, (info,), test),
        call_ensures(kernel_panic, (info,), kernel),
    ensures
        platform.0@ == "\n[PANIC] "@ + info@ + "\n"@,
        test.0@ == "[failed]\n\nError: "@ + info@ + "\n\n"@,
        kernel.0@ == info@ + "\n"@,
        host_code(platform.1.value as int) == 35,
        host_code(test.1.value as int) == 35,
        host_code(kernel.1.value as int) == 35,
        platform.1.port == 0xf4 && test.1.port == 0xf4 && kernel.1.port == 0xf4,
{
}

} // verus!
