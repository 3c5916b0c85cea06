use crusty_os::linking::{assemble, kernel_lines, test_kernel_lines};
use crusty_os::xtask::{
    build_iso, build_kernel, build_limine_iso, build_test_kernel, check_deps, join, parse,
    parse_kernel_arg, resolve_boot_kernel, resolve_kernel, run_qemu, run_tests, usage, Action,
    Command, Protocol,
};

fn args(a: &[&str]) -> Vec<String> {
    a.iter().map(|s| s.to_string()).collect()
}

fn said(steps: &[Action]) -> Vec<String> {
    steps.iter().map(|a| format!("{a:?}")).collect()
}

#[test]
fn command_lines() {
    assert!(matches!(parse(&args(&[])), Command::Usage(None)));
    assert!(matches!(parse(&args(&["check-deps", "x"])), Command::CheckDeps));
    assert!(matches!(parse(&args(&["iso"])), Command::Iso(None)));
    assert!(matches!(parse(&args(&["iso", "a", "--kernel", "k.elf"])), Command::Iso(Some(k)) if k == "k.elf"));
    assert!(matches!(parse(&args(&["run", "--kernel"])), Command::Run(None)));
    assert!(matches!(parse(&args(&["run", "--kernel", "--kernel", "b"])), Command::Run(Some(k)) if k == "--kernel"));
    assert!(matches!(parse(&args(&["build"])), Command::Usage(Some(c)) if c == "build"));
    assert!(matches!(parse(&args(&["run", "--boot", "limine"])), Command::Boot(Protocol::Limine, None)));
    assert!(matches!(
        parse(&args(&["run", "--boot", "multiboot2", "--kernel", "k"])),
        Command::Boot(Protocol::Multiboot2, Some(k)) if k == "k"
    ));
    assert!(matches!(parse(&args(&["run", "--boot", "floppy"])), Command::Run(None)));
    assert!(matches!(parse(&args(&["test"])), Command::Test(None)));
    assert!(matches!(parse(&args(&["test", "--test", "heap_stress"])), Command::Test(Some(t)) if t == "heap_stress"));
    assert_eq!(parse_kernel_arg(&args(&["--kernel", "a", "--kernel", "b"]), 1).as_deref(), Some("b"));
    assert_eq!(parse_kernel_arg(&args(&["a"]), 5), None);
}

#[test]
fn how_it_is_done() {
    assert_eq!(
        said(&usage(Some("frob"))),
        vec![
            r#"Complain("usage: cargo xtask <check-deps | iso | run | test> [--kernel <elf>] [--boot <multiboot2 | limine>] [--test <name>]\n")"#,
            r#"Complain("unknown subcommand: frob\n")"#,
            "Exit(1)",
        ]
    );
    assert_eq!(usage(None).len(), 2);
}

#[test]
fn tools_that_are_there_and_tools_that_are_not() {
    assert_eq!(
        said(&check_deps(true, true, true, false)),
        vec![
            r#"Print("  [ok] nasm\n")"#,
            r#"Print("  [ok] qemu-system-x86_64\n")"#,
            r#"Print("  [ok] grub-mkrescue (native)\n")"#,
            r#"Print("All required tools are present.\n")"#,
        ]
    );
    assert_eq!(
        said(&check_deps(false, true, false, true)),
        vec![
            r#"Complain("  [missing] nasm\n")"#,
            r#"Print("  [ok] qemu-system-x86_64\n")"#,
            r#"Print("  [ok] docker (grub-mkrescue fallback)\n")"#,
            "Exit(1)",
        ]
    );
    let none = said(&check_deps(true, true, false, false));
    assert_eq!(none[2], r#"Complain("  [missing] grub-mkrescue  — install grub or docker\n")"#);
    assert_eq!(none[3], "Exit(1)");
}

#[test]
fn paths_are_joined() {
    assert_eq!(join("/a", "b/c"), "/a/b/c");
    assert_eq!(join("/a/", "b"), "/a/b");
    assert_eq!(join("", "b"), "b");
    assert_eq!(resolve_kernel(Some(String::from("x")), "/ws"), "x");
    assert_eq!(resolve_kernel(None, "/ws"), "/ws/target/x86_64-crusty_os/debug/test_kernel");
}

#[test]
fn images_are_built_by_the_tool() {
    let steps = said(&build_iso("/k.elf", true, "/ws", true, true));
    assert_eq!(
        steps,
        vec![
            r#"CreateDir("/ws/isoroot/boot/grub")"#,
            r#"Copy("/k.elf", "/ws/isoroot/boot/kernel.elf")"#,
            "Write(\"/ws/isoroot/boot/grub/grub.cfg\", \"set timeout=0\\nset default=0\\n\\n\
             menuentry \\\"barnacle test_kernel\\\" {\\n    multiboot2 /boot/kernel.elf\\n    \
             boot\\n}\\n\")",
            r#"Run("grub-mkrescue", ["-o", "/ws/barnacle.iso", "/ws/isoroot"], None)"#,
            r#"Print("ISO built: /ws/barnacle.iso\n")"#,
        ]
    );
}

#[test]
fn images_are_built_in_a_container() {
    let steps = said(&build_iso("/k.elf", true, "/ws", false, true));
    assert_eq!(steps.len(), 5);
    assert_eq!(
        steps[3],
        "Run(\"docker\", [\"run\", \"--rm\", \"--platform\", \"linux/amd64\", \"-v\", \
         \"/ws:/work\", \"ubuntu:22.04\", \"sh\", \"-c\", \"apt-get update -qq && apt-get install \
         -y -qq grub-pc-bin xorriso 2>/dev/null && grub-mkrescue -o /work/barnacle.iso \
         /work/isoroot\"], None)"
    );
}

#[test]
fn images_that_cannot_be_built() {
    let steps = said(&build_iso("/k.elf", true, "/ws", false, false));
    assert_eq!(steps.len(), 7);
    assert_eq!(steps[3], r#"Complain("error: neither grub-mkrescue nor docker found.\n")"#);
    assert_eq!(steps[6], "Exit(1)");
    let steps = said(&build_iso("/k.elf", false, "/ws", true, true));
    assert_eq!(
        steps,
        vec![
            r#"Panic("kernel ELF not found at /k.elf\nDid you run `cargo build -p test_kernel` first?")"#
        ]
    );
}

#[test]
fn images_are_booted() {
    assert_eq!(
        format!("{:?}", build_test_kernel("/ws")),
        r#"Run("cargo", ["build", "-p", "test_kernel"], Some("/ws"))"#
    );
    assert_eq!(
        said(&run_qemu("/ws", true)),
        vec![
            r#"Run("qemu-system-x86_64", ["-cdrom", "/ws/barnacle.iso", "-serial", "stdio", "-no-reboot", "-no-shutdown", "-m", "128M"], None)"#,
            r#"Print("QEMU launched — close the window when done.\n")"#,
        ]
    );
    assert_eq!(
        said(&run_qemu("/ws", false)),
        vec![r#"Panic("barnacle.iso not found; run `cargo xtask iso` first")"#]
    );
}

#[test]
fn the_kernel_is_built_for_a_protocol() {
    assert_eq!(
        format!("{:?}", build_kernel(Protocol::Limine, "/ws")),
        r#"Run("cargo", ["build", "-p", "crusty_os", "--no-default-features", "--features", "boot-limine"], Some("/ws"))"#
    );
    assert_eq!(resolve_boot_kernel(None, "/ws"), "/ws/target/x86_64-crusty_os/debug/crusty_os");
    assert_eq!(resolve_boot_kernel(Some(String::from("k")), "/ws"), "k");
    let steps = said(&build_limine_iso("/k.elf", true, "/ws", "/limine"));
    assert_eq!(steps.len(), 9);
    assert_eq!(steps[0], r#"CreateDir("/ws/isoroot/boot/limine")"#);
    assert_eq!(
        steps[3],
        r#"Copy("/limine/limine-bios-cd.bin", "/ws/isoroot/boot/limine/limine-bios-cd.bin")"#
    );
    assert_eq!(steps[7], r#"Run("/limine/limine", ["bios-install", "/ws/barnacle.iso"], None)"#);
    assert_eq!(
        said(&build_limine_iso("/k.elf", false, "/ws", "/limine")),
        vec![r#"Panic("kernel ELF not found at /k.elf")"#]
    );
}

#[test]
fn the_tests_are_run() {
    assert_eq!(
        format!("{:?}", run_tests(None, "/ws")),
        r#"Run("cargo", ["test", "-p", "crusty_os"], Some("/ws"))"#
    );
    assert_eq!(
        format!("{:?}", run_tests(Some(String::from("heap_stress")), "/ws")),
        r#"Run("cargo", ["test", "-p", "crusty_os", "--test", "heap_stress"], Some("/ws"))"#
    );
}

#[test]
fn the_linker_is_told() {
    assert!(kernel_lines(None, None).is_empty());
    assert_eq!(
        said(&kernel_lines(Some(("/o/boot.o", "/m/kernel.ld")), Some("/c"))),
        vec![
            r#"Print("cargo:rustc-link-arg=/o/boot.o\n")"#,
            r#"Print("cargo:rustc-link-arg=-T/m/kernel.ld\n")"#,
            r#"Print("cargo:rustc-link-arg=--gc-sections\n")"#,
            r#"Print("cargo:rustc-link-arg=-T/c/limine.ld\n")"#,
            r#"Print("cargo:rustc-link-arg=--gc-sections\n")"#,
            r#"Print("cargo:rerun-if-changed=limine.ld\n")"#,
        ]
    );
    assert_eq!(test_kernel_lines("a", "b").len(), 5);
    let steps = said(&assemble("/m", "/o"));
    assert_eq!(steps.len(), 5);
    assert_eq!(
        steps[2],
        r#"Run("nasm", ["-f", "elf64", "/m/src/boot/boot.asm", "-o", "/o/boot.o"], None)"#
    );
    assert_eq!(steps[4], r#"Print("cargo:linker_script=/m/kernel.ld\n")"#);
}
