//! Build automation: which commands there are and what each one does.
//!
//! The steps that a command consists of are decided here and carried out elsewhere.

use vstd::prelude::*;
use vstd::string::{StrSliceExecFns, StringExecFns};

verus! {

/// What the command line asks for.
#[derive(Debug)]
pub enum Command {
    /// Check that the tools are there.
    CheckDeps,
    /// Build the image, with this kernel if it is given.
    Iso(Option<String>),
    /// Build the image and boot it, with this kernel if it is given.
    Run(Option<String>),
    /// Build the kernel for a boot protocol and boot it, or this kernel if it is given.
    Boot(Protocol, Option<String>),
    /// Run the tests, only those of this binary if it is given.
    Test(Option<String>),
    /// Nothing known: say how it is done. What was asked for, if anything, is given.
    Usage(Option<String>),
}

/// A boot protocol that the kernel can be built for.
#[derive(Debug, Clone, Copy, PartialEq, Eq, Structural)]
pub enum Protocol {
    /// Through GRUB.
    Multiboot2,
    /// Through Limine.
    Limine,
}

/// One thing to do.
#[derive(Debug)]
pub enum Action {
    /// Print to the standard output.
    Print(String),
    /// Print to the standard error.
    Complain(String),
    /// Make a directory and those above it.
    CreateDir(String),
    /// Copy the first file to the second.
    Copy(String, String),
    /// Write a text to a file.
    Write(String, String),
    /// Run a program with arguments, in a directory if one is given.
    Run(String, Vec<String>, Option<String>),
    /// Stop with this message.
    Panic(String),
    /// Stop with this code.
    Exit(u8),
}

/// What an [`Action`] says.
pub enum Act {
    Print(Seq<char>),
    Complain(Seq<char>),
    CreateDir(Seq<char>),
    Copy(Seq<char>, Seq<char>),
    Write(Seq<char>, Seq<char>),
    Run(Seq<char>, Seq<Seq<char>>, Option<Seq<char>>),
    Panic(Seq<char>),
    Exit(int),
}

/// Strings as texts.
pub open spec fn texts(s: Seq<String>) -> Seq<Seq<char>> {
    s.map_values(|t: String| t@)
}

/// A string as text, if there is one.
pub open spec fn text_of(s: Option<String>) -> Option<Seq<char>> {
    match s {
        Some(t) => Some(t@),
        None => None,
    }
}

impl View for Action {
    type V = Act;

    open spec fn view(&self) -> Act {
        match *self {
            Action::Print(s) => Act::Print(s@),
            Action::Complain(s) => Act::Complain(s@),
            Action::CreateDir(s) => Act::CreateDir(s@),
            Action::Copy(s, t) => Act::Copy(s@, t@),
            Action::Write(s, t) => Act::Write(s@, t@),
            Action::Run(s, a, d) => Act::Run(s@, texts(a@), text_of(d)),
            Action::Panic(s) => Act::Panic(s@),
            Action::Exit(c) => Act::Exit(c as int),
        }
    }
}

/// What actions say.
pub open spec fn acts(s: Seq<Action>) -> Seq<Act> {
    s.map_values(|a: Action| a@)
}

/// Text `a` with text `b` behind it.
pub(crate) fn cat(a: &str, b: &str) -> (s: String)
    ensures
        s@ == a@ + b@,
{
    let mut s: String = String::from_str(a);
    s.append(b);
    s
}

/// The path of `rest` below `root`.
pub open spec fn below(root: Seq<char>, rest: Seq<char>) -> Seq<char> {
    if root.len() == 0 {
        rest
    } else if root.last() == '/' {
        root + rest
    } else {
        root + "/"@ + rest
    }
}

/// The path of `rest`, a relative one, below `root`.
pub fn join(root: &str, rest: &str) -> (p: String)
    ensures
        p@ == below(root@, rest@),
{
    let n: usize = root.unicode_len();
    let mut p: String = String::from_str(root);
    if n > 0 && root.get_char(n - 1) != '/' {
        p.append("/");
    }
    p.append(rest);
    proof {
        assert(p@ =~= below(root@, rest@));
    }
    p
}

/// What stands behind the first `flag` among the arguments from `from` on, if anything does.
pub open spec fn value_named(args: Seq<String>, flag: Seq<char>, from: int) -> Option<Seq<char>>
    decreases args.len() - from,
{
    if from >= args.len() {
        None
    } else if args[from]@ == flag {
        if from + 1 < args.len() {
            Some(args[from + 1]@)
        } else {
            None
        }
    } else {
        value_named(args, flag, from + 1)
    }
}

/// What stands behind the first `flag` among the arguments from `from` on.
fn value_arg(args: &Vec<String>, flag: &str, from: usize) -> (k: Option<String>)
    ensures
        text_of(k) == value_named(args@, flag@, from as int),
{
    let wanted: String = String::from_str(flag);
    let mut i: usize = from;
    while i < args.len()
        invariant
            wanted@ == flag@,
            value_named(args@, flag@, from as int) == value_named(args@, flag@, i as int),
        decreases args@.len() - i,
    {
        if args[i] == wanted {
            if i + 1 < args.len() {
                return Some(args[i + 1].clone());
            }
            return None;
        }
        i = i + 1;
    }
    None
}

/// The kernel that the arguments from `from` on name.
pub fn parse_kernel_arg(args: &Vec<String>, from: usize) -> (k: Option<String>)
    ensures
        text_of(k) == value_named(args@, "--kernel"@, from as int),
{
    value_arg(args, "--kernel", from)
}

/// The boot protocol of this name, if there is one.
pub open spec fn protocol_named(name: Seq<char>) -> Option<Protocol> {
    if name == "multiboot2"@ {
        Some(Protocol::Multiboot2)
    } else if name == "limine"@ {
        Some(Protocol::Limine)
    } else {
        None
    }
}

/// The boot protocol that a command line names, if it names one.
pub open spec fn boot_named(args: Seq<String>) -> Option<Protocol> {
    match value_named(args, "--boot"@, 1) {
        Some(name) => protocol_named(name),
        None => None,
    }
}

/// The boot protocol of this name, if there is one.
fn protocol(name: String) -> (p: Option<Protocol>)
    ensures
        p == protocol_named(name@),
{
    if name == String::from_str("multiboot2") {
        Some(Protocol::Multiboot2)
    } else if name == String::from_str("limine") {
        Some(Protocol::Limine)
    } else {
        None
    }
}

/// What a command line, without the name of the program, asks for. A boot protocol that is
/// not known is passed over, as is every other word that is not.
pub fn parse(args: &Vec<String>) -> (c: Command)
    ensures
        if args@.len() == 0 {
            c matches Command::Usage(None)
        } else if args@[0]@ == "check-deps"@ {
            c is CheckDeps
        } else if args@[0]@ == "iso"@ {
            c matches Command::Iso(k) && text_of(k) == value_named(args@, "--kernel"@, 1)
        } else if args@[0]@ == "run"@ {
            match boot_named(args@) {
                Some(p) => c matches Command::Boot(q, k) && q == p && text_of(k) == value_named(
                    args@,
                    "--kernel"@,
                    1,
                ),
                None => c matches Command::Run(k) && text_of(k) == value_named(
                    args@,
                    "--kernel"@,
                    1,
                ),
            }
        } else if args@[0]@ == "test"@ {
            c matches Command::Test(t) && text_of(t) == value_named(args@, "--test"@, 1)
        } else {
            c matches Command::Usage(Some(other)) && other@ == args@[0]@
        },
{
    if args.len() == 0 {
        return Command::Usage(None);
    }
    if args[0] == String::from_str("check-deps") {
        Command::CheckDeps
    } else if args[0] == String::from_str("iso") {
        Command::Iso(parse_kernel_arg(args, 1))
    } else if args[0] == String::from_str("run") {
        let boot: Option<Protocol> = match value_arg(args, "--boot", 1) {
            Some(name) => protocol(name),
            None => None,
        };
        match boot {
            Some(p) => Command::Boot(p, parse_kernel_arg(args, 1)),
            None => Command::Run(parse_kernel_arg(args, 1)),
        }
    } else if args[0] == String::from_str("test") {
        Command::Test(value_arg(args, "--test", 1))
    } else {
        Command::Usage(Some(args[0].clone()))
    }
}

/// What is said when nothing known was asked for.
pub fn usage(unknown: Option<&str>) -> (steps: Vec<Action>)
    ensures
        acts(steps@) =~= seq![
            Act::Complain(
                "usage: cargo xtask <check-deps | iso | run | test> [--kernel <elf>]"@
                    + " [--boot <multiboot2 | limine>] [--test <name>]\n"@,
            ),
        ] + (match unknown {
            Some(cmd) => seq![Act::Complain("unknown subcommand: "@ + cmd@ + "\n"@)],
            None => Seq::empty(),
        }) + seq![Act::Exit(1)],
{
    let mut steps: Vec<Action> = Vec::new();
    steps.push(
        Action::Complain(
            cat(
                "usage: cargo xtask <check-deps | iso | run | test> [--kernel <elf>]",
                " [--boot <multiboot2 | limine>] [--test <name>]\n",
            ),
        ),
    );
    if let Some(cmd) = unknown {
        steps.push(
            Action::Complain(cat(cat("unknown subcommand: ", cmd).as_str(), "\n")),
        );
    }
    steps.push(Action::Exit(1));
    steps
}

/// Runs the tests of the kernel in the workspace at `root`, only those of one binary if it is
/// named.
pub fn run_tests(named: Option<String>, root: &str) -> (a: Action)
    ensures
        a@ == Act::Run(
            "cargo"@,
            seq!["test"@, "-p"@, "crusty_os"@] + (match named {
                Some(name) => seq!["--test"@, name@],
                None => Seq::empty(),
            }),
            Some(root@),
        ),
{
    let mut args: Vec<String> = vec![
        String::from_str("test"),
        String::from_str("-p"),
        String::from_str("crusty_os"),
    ];
    match named {
        Some(name) => {
            let ghost n = name@;
            args.push(String::from_str("--test"));
            args.push(name);
            assert(texts(args@) =~= seq!["test"@, "-p"@, "crusty_os"@] + seq!["--test"@, n]);
        },
        None => {
            assert(texts(args@) =~= seq!["test"@, "-p"@, "crusty_os"@] + Seq::empty());
        },
    }
    Action::Run(String::from_str("cargo"), args, Some(String::from_str(root)))
}

/// The feature that a boot protocol is built with.
pub open spec fn boot_feature(p: Protocol) -> Seq<char> {
    match p {
        Protocol::Multiboot2 => "boot-multiboot2"@,
        Protocol::Limine => "boot-limine"@,
    }
}

/// Builds the kernel in the workspace at `root` for a boot protocol.
pub fn build_kernel(p: Protocol, root: &str) -> (a: Action)
    ensures
        a@ == Act::Run(
            "cargo"@,
            seq![
                "build"@,
                "-p"@,
                "crusty_os"@,
                "--no-default-features"@,
                "--features"@,
                boot_feature(p),
            ],
            Some(root@),
        ),
{
    let feature: String = match p {
        Protocol::Multiboot2 => String::from_str("boot-multiboot2"),
        Protocol::Limine => String::from_str("boot-limine"),
    };
    let args: Vec<String> = vec![
        String::from_str("build"),
        String::from_str("-p"),
        String::from_str("crusty_os"),
        String::from_str("--no-default-features"),
        String::from_str("--features"),
        feature,
    ];
    assert(texts(args@) =~= seq![
        "build"@,
        "-p"@,
        "crusty_os"@,
        "--no-default-features"@,
        "--features"@,
        boot_feature(p),
    ]);
    Action::Run(String::from_str("cargo"), args, Some(String::from_str(root)))
}

/// The kernel to boot: the one that was named, or the one that the workspace builds for a
/// boot protocol.
pub fn resolve_boot_kernel(named: Option<String>, root: &str) -> (path: String)
    ensures
        path@ == match named {
            Some(p) => p@,
            None => below(root@, "target/x86_64-crusty_os/debug/crusty_os"@),
        },
{
    match named {
        Some(p) => p,
        None => join(root, "target/x86_64-crusty_os/debug/crusty_os"),
    }
}

/// What is said of a tool.
pub open spec fn tool_line(name: Seq<char>, there: bool) -> Act {
    if there {
        Act::Print("  [ok] "@ + name + "\n"@)
    } else {
        Act::Complain("  [missing] "@ + name + "\n"@)
    }
}

/// What is said of a tool.
pub fn check_tool(name: &str, there: bool) -> (a: Action)
    ensures
        a@ == tool_line(name@, there),
{
    if there {
        Action::Print(cat(cat("  [ok] ", name).as_str(), "\n"))
    } else {
        Action::Complain(cat(cat("  [missing] ", name).as_str(), "\n"))
    }
}

/// What is said of the tool that makes images, which a container can stand in for.
pub open spec fn rescue_line(grub: bool, docker: bool) -> Act {
    if grub {
        Act::Print("  [ok] grub-mkrescue (native)\n"@)
    } else if docker {
        Act::Print("  [ok] docker (grub-mkrescue fallback)\n"@)
    } else {
        Act::Complain("  [missing] grub-mkrescue  — install grub or docker\n"@)
    }
}

/// What is said of the tools, by which of them are there; it ends in an error unless all that
/// is needed is.
pub fn check_deps(nasm: bool, qemu: bool, grub: bool, docker: bool) -> (steps: Vec<Action>)
    ensures
        acts(steps@) =~= seq![
            tool_line("nasm"@, nasm),
            tool_line("qemu-system-x86_64"@, qemu),
            rescue_line(grub, docker),
            if nasm && qemu && (grub || docker) {
                Act::Print("All required tools are present.\n"@)
            } else {
                Act::Exit(1)
            },
        ],
{
    let mut steps: Vec<Action> = Vec::new();
    steps.push(check_tool("nasm", nasm));
    steps.push(check_tool("qemu-system-x86_64", qemu));
    if grub {
        steps.push(Action::Print(String::from_str("  [ok] grub-mkrescue (native)\n")));
    } else if docker {
        steps.push(Action::Print(String::from_str("  [ok] docker (grub-mkrescue fallback)\n")));
    } else {
        steps.push(
            Action::Complain(
                String::from_str("  [missing] grub-mkrescue  — install grub or docker\n"),
            ),
        );
    }
    if nasm && qemu && (grub || docker) {
        steps.push(Action::Print(String::from_str("All required tools are present.\n")));
    } else {
        steps.push(Action::Exit(1));
    }
    steps
}

/// The kernel to use: the one that was named, or the one that the workspace builds.
pub fn resolve_kernel(named: Option<String>, root: &str) -> (path: String)
    ensures
        path@ == match named {
            Some(p) => p@,
            None => below(root@, "target/x86_64-crusty_os/debug/test_kernel"@),
        },
{
    match named {
        Some(p) => p,
        None => join(root, "target/x86_64-crusty_os/debug/test_kernel"),
    }
}

/// Builds the kernel of the workspace at `root`.
pub fn build_test_kernel(root: &str) -> (a: Action)
    ensures
        a@ == Act::Run("cargo"@, seq!["build"@, "-p"@, "test_kernel"@], Some(root@)),
{
    let args: Vec<String> = vec![
        String::from_str("build"),
        String::from_str("-p"),
        String::from_str("test_kernel"),
    ];
    assert(texts(args@) =~= seq!["build"@, "-p"@, "test_kernel"@]);
    Action::Run(String::from_str("cargo"), args, Some(String::from_str(root)))
}

/// The boot menu.
pub open spec fn grub_cfg() -> Seq<char> {
    "set timeout=0\n"@
        + "set default=0\n"@
        + "\n"@
        + "menuentry \"barnacle test_kernel\" {\n"@
        + "    multiboot2 /boot/kernel.elf\n"@
        + "    boot\n"@
        + "}\n"@
}

/// The boot menu.
fn grub_menu() -> (s: String)
    ensures
        s@ == grub_cfg(),
{
    let mut s: String = String::from_str("set timeout=0\n");
    s.append("set default=0\n");
    s.append("\n");
    s.append("menuentry \"barnacle test_kernel\" {\n");
    s.append("    multiboot2 /boot/kernel.elf\n");
    s.append("    boot\n");
    s.append("}\n");
    s
}

/// Makes the image from the directory `iso_dir` with the tool itself.
pub open spec fn native_run(iso_dir: Seq<char>, iso_out: Seq<char>) -> Act {
    Act::Run("grub-mkrescue"@, seq!["-o"@, iso_out, iso_dir], None)
}

/// Makes the image from the directory `iso_dir` with the tool itself.
pub fn grub_mkrescue_native(iso_dir: &str, iso_out: &str) -> (a: Action)
    ensures
        a@ == native_run(iso_dir@, iso_out@),
{
    let args: Vec<String> = vec![
        String::from_str("-o"),
        String::from_str(iso_out),
        String::from_str(iso_dir),
    ];
    assert(texts(args@) =~= seq!["-o"@, iso_out@, iso_dir@]);
    Action::Run(String::from_str("grub-mkrescue"), args, None)
}

/// What the container is told to run, on paths relative to the workspace.
pub open spec fn docker_script(iso_dir: Seq<char>, iso_out: Seq<char>) -> Seq<char> {
    "apt-get update -qq && apt-get install -y -qq grub-pc-bin xorriso 2>/dev/null"@
        + " && grub-mkrescue -o /work/"@ + iso_out + " /work/"@ + iso_dir
}

/// Makes the image with the tool in a container that has the workspace mounted.
pub open spec fn docker_run(iso_dir: Seq<char>, iso_out: Seq<char>, workspace: Seq<char>) -> Act {
    Act::Run(
        "docker"@,
        seq![
            "run"@,
            "--rm"@,
            "--platform"@,
            "linux/amd64"@,
            "-v"@,
            workspace + ":/work"@,
            "ubuntu:22.04"@,
            "sh"@,
            "-c"@,
            docker_script(iso_dir, iso_out),
        ],
        None,
    )
}

/// Makes the image with the tool in a container; the first two paths are relative to
/// `workspace`.
pub fn grub_mkrescue_docker(iso_dir: &str, iso_out: &str, workspace: &str) -> (a: Action)
    ensures
        a@ == docker_run(iso_dir@, iso_out@, workspace@),
{
    let mount: String = cat(workspace, ":/work");
    let mut script: String = String::from_str(
        "apt-get update -qq && apt-get install -y -qq grub-pc-bin xorriso 2>/dev/null",
    );
    script.append(" && grub-mkrescue -o /work/");
    script.append(iso_out);
    script.append(" /work/");
    script.append(iso_dir);
    let ghost said = script@;
    let args: Vec<String> = vec![
        String::from_str("run"),
        String::from_str("--rm"),
        String::from_str("--platform"),
        String::from_str("linux/amd64"),
        String::from_str("-v"),
        mount,
        String::from_str("ubuntu:22.04"),
        String::from_str("sh"),
        String::from_str("-c"),
        script,
    ];
    assert(texts(args@) =~= seq![
        "run"@,
        "--rm"@,
        "--platform"@,
        "linux/amd64"@,
        "-v"@,
        workspace@ + ":/work"@,
        "ubuntu:22.04"@,
        "sh"@,
        "-c"@,
        docker_script(iso_dir@, iso_out@),
    ]);
    Action::Run(String::from_str("docker"), args, None)
}

/// The steps that build the image, by whether the kernel is there and which tools are.
pub open spec fn iso_steps(
    kernel: Seq<char>,
    there: bool,
    root: Seq<char>,
    grub: bool,
    docker: bool,
) -> Seq<Act> {
    let iso_dir = below(root, "isoroot"@);
    let grub_dir = below(iso_dir, "boot/grub"@);
    let iso_out = below(root, "barnacle.iso"@);
    let prepared = seq![
        Act::CreateDir(grub_dir),
        Act::Copy(kernel, below(iso_dir, "boot/kernel.elf"@)),
        Act::Write(below(grub_dir, "grub.cfg"@), grub_cfg()),
    ];
    let built = Act::Print("ISO built: "@ + iso_out + "\n"@);
    if !there {
        seq![
            Act::Panic(
                "kernel ELF not found at "@ + kernel
                    + "\nDid you run `cargo build -p test_kernel` first?"@,
            ),
        ]
    } else if grub {
        prepared + seq![native_run(iso_dir, iso_out), built]
    } else if docker {
        prepared + seq![docker_run("isoroot"@, "barnacle.iso"@, root), built]
    } else {
        prepared + seq![
            Act::Complain("error: neither grub-mkrescue nor docker found.\n"@),
            Act::Complain("  macOS: brew install i386-elf-grub xorriso   OR   install docker\n"@),
            Act::Complain("  Linux: apt install grub-pc-bin xorriso\n"@),
            Act::Exit(1),
        ]
    }
}

/// The steps that build the image: a directory with the kernel and a boot menu is laid out
/// below `root` and made into `barnacle.iso`.
pub fn build_iso(kernel: &str, there: bool, root: &str, grub: bool, docker: bool) -> (steps: Vec<
    Action,
>)
    ensures
        acts(steps@) =~= iso_steps(kernel@, there, root@, grub, docker),
{
    let mut steps: Vec<Action> = Vec::new();
    if !there {
        let mut m: String = cat("kernel ELF not found at ", kernel);
        m.append("\nDid you run `cargo build -p test_kernel` first?");
        steps.push(Action::Panic(m));
        return steps;
    }
    let iso_dir: String = join(root, "isoroot");
    let grub_dir: String = join(iso_dir.as_str(), "boot/grub");
    let iso_out: String = join(root, "barnacle.iso");
    let kernel_out: String = join(iso_dir.as_str(), "boot/kernel.elf");
    let menu: String = join(grub_dir.as_str(), "grub.cfg");
    steps.push(Action::CreateDir(grub_dir));
    steps.push(Action::Copy(String::from_str(kernel), kernel_out));
    steps.push(Action::Write(menu, grub_menu()));
    if grub {
        steps.push(grub_mkrescue_native(iso_dir.as_str(), iso_out.as_str()));
    } else if docker {
        steps.push(grub_mkrescue_docker("isoroot", "barnacle.iso", root));
    } else {
        steps.push(
            Action::Complain(String::from_str("error: neither grub-mkrescue nor docker found.\n")),
        );
        steps.push(
            Action::Complain(
                String::from_str(
                    "  macOS: brew install i386-elf-grub xorriso   OR   install docker\n",
                ),
            ),
        );
        steps.push(
            Action::Complain(String::from_str("  Linux: apt install grub-pc-bin xorriso\n")),
        );
        steps.push(Action::Exit(1));
        return steps;
    }
    let mut m: String = cat("ISO built: ", iso_out.as_str());
    m.append("\n");
    steps.push(Action::Print(m));
    steps
}

/// The boot menu of Limine.
pub open spec fn limine_conf() -> Seq<char> {
    "TIMEOUT=0\n"@
        + "VERBOSE=yes\n"@
        + "\n"@
        + "/crusty_os\n"@
        + "    PROTOCOL=limine\n"@
        + "    KERNEL_PATH=boot:///boot/kernel.elf\n"@
}

/// The boot menu of Limine.
fn limine_menu() -> (s: String)
    ensures
        s@ == limine_conf(),
{
    let mut s: String = String::from_str("TIMEOUT=0\n");
    s.append("VERBOSE=yes\n");
    s.append("\n");
    s.append("/crusty_os\n");
    s.append("    PROTOCOL=limine\n");
    s.append("    KERNEL_PATH=boot:///boot/kernel.elf\n");
    s
}

/// Makes an image that Limine boots from the directory `iso_dir`.
pub open spec fn limine_image(iso_dir: Seq<char>, iso_out: Seq<char>) -> Act {
    Act::Run(
        "xorriso"@,
        seq![
            "-as"@,
            "mkisofs"@,
            "-b"@,
            "boot/limine/limine-bios-cd.bin"@,
            "-no-emul-boot"@,
            "-boot-load-size"@,
            "4"@,
            "-boot-info-table"@,
            "--efi-boot"@,
            "boot/limine/limine-uefi-cd.bin"@,
            "-efi-boot-part"@,
            "--efi-boot-image"@,
            "--protective-msdos-label"@,
            iso_dir,
            "-o"@,
            iso_out,
        ],
        None,
    )
}

/// Makes an image that Limine boots from the directory `iso_dir`.
fn xorriso(iso_dir: &str, iso_out: &str) -> (a: Action)
    ensures
        a@ == limine_image(iso_dir@, iso_out@),
{
    let args: Vec<String> = vec![
        String::from_str("-as"),
        String::from_str("mkisofs"),
        String::from_str("-b"),
        String::from_str("boot/limine/limine-bios-cd.bin"),
        String::from_str("-no-emul-boot"),
        String::from_str("-boot-load-size"),
        String::from_str("4"),
        String::from_str("-boot-info-table"),
        String::from_str("--efi-boot"),
        String::from_str("boot/limine/limine-uefi-cd.bin"),
        String::from_str("-efi-boot-part"),
        String::from_str("--efi-boot-image"),
        String::from_str("--protective-msdos-label"),
        String::from_str(iso_dir),
        String::from_str("-o"),
        String::from_str(iso_out),
    ];
    assert(texts(args@) =~= limine_image(iso_dir@, iso_out@)->Run_1);
    Action::Run(String::from_str("xorriso"), args, None)
}

/// The steps that build an image that Limine boots, by whether the kernel is there. The files
/// of Limine are those in the directory `limine`.
pub open spec fn limine_steps(
    kernel: Seq<char>,
    there: bool,
    root: Seq<char>,
    limine: Seq<char>,
) -> Seq<Act> {
    let iso_dir = below(root, "isoroot"@);
    let limine_dir = below(iso_dir, "boot/limine"@);
    let iso_out = below(root, "barnacle.iso"@);
    if !there {
        seq![Act::Panic("kernel ELF not found at "@ + kernel)]
    } else {
        seq![
            Act::CreateDir(limine_dir),
            Act::Copy(kernel, below(iso_dir, "boot/kernel.elf"@)),
            Act::Copy(
                below(limine, "limine-bios.sys"@),
                below(limine_dir, "limine-bios.sys"@),
            ),
            Act::Copy(
                below(limine, "limine-bios-cd.bin"@),
                below(limine_dir, "limine-bios-cd.bin"@),
            ),
            Act::Copy(
                below(limine, "limine-uefi-cd.bin"@),
                below(limine_dir, "limine-uefi-cd.bin"@),
            ),
            Act::Write(below(limine_dir, "limine.conf"@), limine_conf()),
            limine_image(iso_dir, iso_out),
            Act::Run(below(limine, "limine"@), seq!["bios-install"@, iso_out], None),
            Act::Print("ISO built: "@ + iso_out + "\n"@),
        ]
    }
}

/// Copies the file `name` from one directory to another.
fn copied(name: &str, from: &str, to: &str) -> (a: Action)
    ensures
        a@ == Act::Copy(below(from@, name@), below(to@, name@)),
{
    Action::Copy(join(from, name), join(to, name))
}

/// The steps that build an image that Limine boots.
pub fn build_limine_iso(kernel: &str, there: bool, root: &str, limine: &str) -> (steps: Vec<Action>)
    ensures
        acts(steps@) =~= limine_steps(kernel@, there, root@, limine@),
{
    let mut steps: Vec<Action> = Vec::new();
    if !there {
        steps.push(Action::Panic(cat("kernel ELF not found at ", kernel)));
        return steps;
    }
    let iso_dir: String = join(root, "isoroot");
    let limine_dir: String = join(iso_dir.as_str(), "boot/limine");
    let iso_out: String = join(root, "barnacle.iso");
    let kernel_out: String = join(iso_dir.as_str(), "boot/kernel.elf");
    let menu: String = join(limine_dir.as_str(), "limine.conf");
    let bios: Action = copied("limine-bios.sys", limine, limine_dir.as_str());
    let bios_cd: Action = copied("limine-bios-cd.bin", limine, limine_dir.as_str());
    let uefi_cd: Action = copied("limine-uefi-cd.bin", limine, limine_dir.as_str());
    steps.push(Action::CreateDir(limine_dir));
    steps.push(Action::Copy(String::from_str(kernel), kernel_out));
    steps.push(bios);
    steps.push(bios_cd);
    steps.push(uefi_cd);
    steps.push(Action::Write(menu, limine_menu()));
    steps.push(xorriso(iso_dir.as_str(), iso_out.as_str()));
    let install: Vec<String> = vec![
        String::from_str("bios-install"),
        String::from_str(iso_out.as_str()),
    ];
    assert(texts(install@) =~= seq!["bios-install"@, iso_out@]);
    steps.push(Action::Run(join(limine, "limine"), install, None));
    steps.push(Action::Print(cat(cat("ISO built: ", iso_out.as_str()).as_str(), "\n")));
    steps
}

/// The steps that boot the image, if it is there.
pub fn run_qemu(root: &str, there: bool) -> (steps: Vec<Action>)
    ensures
        acts(steps@) =~= if there {
            seq![
                Act::Run(
                    "qemu-system-x86_64"@,
                    seq![
                        "-cdrom"@,
                        below(root@, "barnacle.iso"@),
                        "-serial"@,
                        "stdio"@,
                        "-no-reboot"@,
                        "-no-shutdown"@,
                        "-m"@,
                        "128M"@,
                    ],
                    None,
                ),
                Act::Print("QEMU launched — close the window when done.\n"@),
            ]
        } else {
            seq![Act::Panic("barnacle.iso not found; run `cargo xtask iso` first"@)]
        },
{
    let mut steps: Vec<Action> = Vec::new();
    if !there {
        steps.push(
            Action::Panic(String::from_str("barnacle.iso not found; run `cargo xtask iso` first")),
        );
        return steps;
    }
    let iso: String = join(root, "barnacle.iso");
    let args: Vec<String> = vec![
        String::from_str("-cdrom"),
        iso,
        String::from_str("-serial"),
        String::from_str("stdio"),
        String::from_str("-no-reboot"),
        String::from_str("-no-shutdown"),
        String::from_str("-m"),
        String::from_str("128M"),
    ];
    assert(texts(args@) =~= seq![
        "-cdrom"@,
        below(root@, "barnacle.iso"@),
        "-serial"@,
        "stdio"@,
        "-no-reboot"@,
        "-no-shutdown"@,
        "-m"@,
        "128M"@,
    ]);
    steps.push(Action::Run(String::from_str("qemu-system-x86_64"), args, None));
    steps.push(
        Action::Print(String::from_str("QEMU launched — close the window when done.\n")),
    );
    steps
}

/// The value of a flag is the word behind the first place where the flag stands, from `from`
/// on; there is none exactly if the flag does not stand there or stands last.
pub proof fn law_value(args: Seq<String>, flag: Seq<char>, from: int)
    requires
        0 <= from,
    ensures
        match value_named(args, flag, from) {
            Some(value) => exists|i: int|
                #![trigger args[i]]
                from <= i < args.len() - 1 && args[i]@ == flag && args[i + 1]@ == value && forall|
                    j: int,
                |
                    from <= j < i ==> (#[trigger] args[j])@ != flag,
            None => forall|i: int|
                #![trigger args[i]]
                from <= i < args.len() && args[i]@ == flag ==> (i == args.len() - 1 || exists|
                    j: int,
                |
                    from <= j < i && (#[trigger] args[j])@ == flag),
        },
    decreases args.len() - from,
{
    if from < args.len() && args[from]@ != flag {
        law_value(args, flag, from + 1);
        match value_named(args, flag, from) {
            Some(value) => {
                let i = choose|i: int|
                    #![trigger args[i]]
                    from + 1 <= i < args.len() - 1 && args[i]@ == flag && args[i + 1]@ == value
                        && forall|j: int| from + 1 <= j < i ==> (#[trigger] args[j])@ != flag;
                assert(args[i]@ == flag);
            },
            None => {},
        }
    } else if from < args.len() {
        assert(args[from]@ == flag);
    }
}

/// A path below a directory starts with the directory and ends in the rest, with one slash
/// where the two meet; below nothing it is the rest.
pub proof fn law_below(root: Seq<char>, rest: Seq<char>)
    ensures
        ({
            let p = below(root, rest);
            let at = p.len() - rest.len();
            &&& root.is_prefix_of(p)
            &&& 0 <= at
            &&& p.skip(at) == rest
            &&& root.len() == 0 ==> p == rest
            &&& root.len() > 0 ==> p[at - 1] == '/'
            &&& root.len() > 0 && root.last() == '/' ==> at == root.len()
            &&& root.len() > 0 && root.last() != '/' ==> at == root.len() + 1
        }),
{
    reveal_strlit("/");
    let p = below(root, rest);
    let at = p.len() - rest.len();
    assert(p.skip(at) =~= rest);
    assert(root.is_prefix_of(p)) by {
        assert(p.take(root.len() as int) =~= root);
    }
}

/// Two boot protocols have a name, each its own, and the feature that one is built with is
/// made of its name.
pub proof fn law_protocol(name: Seq<char>)
    ensures
        protocol_named(name) is Some <==> name == "multiboot2"@ || name == "limine"@,
        protocol_named("multiboot2"@) != protocol_named("limine"@),
        protocol_named(name) matches Some(p) ==> boot_feature(p) == "boot-"@ + name,
{
    reveal_strlit("multiboot2");
    reveal_strlit("limine");
    reveal_strlit("boot-");
    reveal_strlit("boot-multiboot2");
    reveal_strlit("boot-limine");
    assert("limine"@.len() != "multiboot2"@.len());
    assert("boot-multiboot2"@ =~= "boot-"@ + "multiboot2"@);
    assert("boot-limine"@ =~= "boot-"@ + "limine"@);
}

/// Building the image without a kernel stops at once. With one, the kernel is copied to where
/// the image is made from, the menu is written there, and then the tool runs, in a container
/// only where it is not there itself; without either it ends in an error instead. Only an
/// image that was made is announced.
pub proof fn law_iso(kernel: Seq<char>, there: bool, root: Seq<char>, grub: bool, docker: bool)
    ensures
        ({
            let s = iso_steps(kernel, there, root, grub, docker);
            let dir = below(root, "isoroot"@);
            let out = below(root, "barnacle.iso"@);
            let last = s.len() - 1;
            &&& !there <==> s.len() == 1
            &&& !there <==> s[0] is Panic
            &&& forall|i: int| 0 <= i < s.len() && there ==> !(#[trigger] s[i] is Panic)
            &&& there ==> s[0] == Act::CreateDir(below(dir, "boot/grub"@))
            &&& there ==> s[1] == Act::Copy(kernel, below(dir, "boot/kernel.elf"@))
            &&& there ==> s[2] == Act::Write(below(below(dir, "boot/grub"@), "grub.cfg"@), grub_cfg())
            &&& forall|i: int|
                0 <= i < s.len() && #[trigger] s[i] is Run ==> i == 3 && i + 1 == last && s[last]
                    is Print
            &&& there && grub ==> s[3] == Act::Run("grub-mkrescue"@, seq!["-o"@, out, dir], None)
            &&& there && !grub && docker ==> s[3] is Run && s[3]->Run_0 == "docker"@
                && s[3]->Run_1.last() == docker_script("isoroot"@, "barnacle.iso"@)
                && s[3]->Run_1[5] == root + ":/work"@
            &&& s[last] == Act::Exit(1) <==> there && !grub && !docker
            &&& s[last] is Print <==> there && (grub || docker)
            &&& s[last] is Print ==> s[last]->Print_0 == "ISO built: "@ + out + "\n"@
        }),
{
}

/// An image that Limine boots is made where the kernel, the menu and the files of Limine were
/// put; it is made bootable after it was made, and then announced. Without a kernel it stops
/// at once.
pub proof fn law_limine_iso(kernel: Seq<char>, there: bool, root: Seq<char>, limine: Seq<char>)
    ensures
        ({
            let s = limine_steps(kernel, there, root, limine);
            let dir = below(root, "isoroot"@);
            let out = below(root, "barnacle.iso"@);
            let put = below(dir, "boot/limine"@);
            &&& !there ==> s.len() == 1 && s[0] == Act::Panic("kernel ELF not found at "@ + kernel)
            &&& there ==> {
                &&& s.len() == 9
                &&& s[0] == Act::CreateDir(put)
                &&& s[1] == Act::Copy(kernel, below(dir, "boot/kernel.elf"@))
                &&& forall|i: int|
                    2 <= i < 5 ==> #[trigger] s[i] is Copy && exists|name: Seq<char>|
                        s[i]->Copy_0 == below(limine, name) && s[i]->Copy_1 == #[trigger] below(
                            put,
                            name,
                        )
                &&& s[2]->Copy_1 == below(put, "limine-bios.sys"@)
                &&& s[3]->Copy_1 == below(put, "limine-bios-cd.bin"@)
                &&& s[4]->Copy_1 == below(put, "limine-uefi-cd.bin"@)
                &&& s[5] == Act::Write(below(put, "limine.conf"@), limine_conf())
                &&& s[6] is Run && s[6]->Run_0 == "xorriso"@ && s[6]->Run_1.len() == 16
                &&& s[6]->Run_1[13] == dir && s[6]->Run_1[14] == "-o"@ && s[6]->Run_1[15] == out
                &&& s[7] == Act::Run(below(limine, "limine"@), seq!["bios-install"@, out], None)
                &&& s[8] == Act::Print("ISO built: "@ + out + "\n"@)
            }
        }),
{
    let s = limine_steps(kernel, there, root, limine);
    let put = below(below(root, "isoroot"@), "boot/limine"@);
    if there {
        assert(s[2]->Copy_1 == below(put, "limine-bios.sys"@));
        assert(s[3]->Copy_1 == below(put, "limine-bios-cd.bin"@));
        assert(s[4]->Copy_1 == below(put, "limine-uefi-cd.bin"@));
        assert forall|i: int| 2 <= i < 5 implies #[trigger] s[i] is Copy && exists|name: Seq<char>|
            s[i]->Copy_0 == below(limine, name) && s[i]->Copy_1 == #[trigger] below(put, name) by {
            assert(i == 2 || i == 3 || i == 4);
        }
    }
}

/// A tool that is there is told of on the standard output and one that is not on the standard
/// error, by its name; the tool for images counts as there if it or a container is.
pub proof fn law_tools(name: Seq<char>, there: bool, grub: bool, docker: bool)
    ensures
        there ==> tool_line(name, there) == Act::Print("  [ok] "@ + name + "\n"@),
        !there ==> tool_line(name, there) == Act::Complain("  [missing] "@ + name + "\n"@),
        rescue_line(grub, docker) is Print <==> grub || docker,
        rescue_line(grub, docker) is Complain <==> !grub && !docker,
        rescue_line(true, docker) == rescue_line(true, !docker),
        grub ==> rescue_line(grub, docker) == Act::Print("  [ok] grub-mkrescue (native)\n"@),
        !grub && docker ==> rescue_line(grub, docker) == Act::Print(
            "  [ok] docker (grub-mkrescue fallback)\n"@,
        ),
{
}

/// What an action says is what it holds, kind by kind.
pub proof fn law_act(a: Action)
    ensures
        match a {
            Action::Print(s) => a@ == Act::Print(s@),
            Action::Complain(s) => a@ == Act::Complain(s@),
            Action::CreateDir(s) => a@ == Act::CreateDir(s@),
            Action::Copy(s, t) => a@ == Act::Copy(s@, t@),
            Action::Write(s, t) => a@ == Act::Write(s@, t@),
            Action::Run(s, args, dir) => {
                &&& a@ is Run
                &&& a@->Run_0 == s@
                &&& a@->Run_1.len() == args@.len()
                &&& forall|i: int| 0 <= i < args@.len() ==> #[trigger] a@->Run_1[i] == args@[i]@
                &&& dir is None ==> a@->Run_2 is None
                &&& dir is Some ==> a@->Run_2 == Some(dir->0@)
            },
            Action::Panic(s) => a@ == Act::Panic(s@),
            Action::Exit(c) => a@ == Act::Exit(c as int),
        },
{
}

/// Actions say what each of them says, in order.
pub proof fn law_acts(s: Seq<Action>, i: int)
    ensures
        acts(s).len() == s.len(),
        0 <= i < s.len() ==> acts(s)[i] == s[i]@,
{
}

/// A command line names a boot protocol exactly if the word behind its first `--boot`, from the
/// second word on, is the name of one.
pub proof fn law_boot(args: Seq<String>, i: int)
    requires
        1 <= i < args.len(),
        args[i]@ == "--boot"@,
        forall|j: int| 1 <= j < i ==> (#[trigger] args[j])@ != "--boot"@,
    ensures
        boot_named(args) == Some(Protocol::Multiboot2) <==> i + 1 < args.len() && args[i + 1]@
            == "multiboot2"@,
        boot_named(args) == Some(Protocol::Limine) <==> i + 1 < args.len() && args[i + 1]@
            == "limine"@,
{
    reveal_strlit("multiboot2");
    reveal_strlit("limine");
    assert("limine"@.len() != "multiboot2"@.len());
    lemma_value_at(args, "--boot"@, 1, i);
}

/// The value of a flag is found at the first place where the flag stands.
proof fn lemma_value_at(args: Seq<String>, flag: Seq<char>, from: int, i: int)
    requires
        0 <= from <= i < args.len(),
        args[i]@ == flag,
        forall|j: int| from <= j < i ==> (#[trigger] args[j])@ != flag,
    ensures
        value_named(args, flag, from) == (if i + 1 < args.len() {
            Some(args[i + 1]@)
        } else {
            None
        }),
    decreases i - from,
{
    if from < i {
        lemma_value_at(args, flag, from + 1, i);
    }
}

/// A command line without the flag names no boot protocol.
pub proof fn law_no_boot(args: Seq<String>)
    requires
        forall|j: int| 1 <= j < args.len() ==> (#[trigger] args[j])@ != "--boot"@,
    ensures
        boot_named(args) is None,
{
    law_value(args, "--boot"@, 1);
}

/// The container has the workspace where the script looks for it, and the script makes the
/// same image from the same directory as the tool itself would, below that place.
pub proof fn law_container(iso_dir: Seq<char>, iso_out: Seq<char>, workspace: Seq<char>)
    ensures
        docker_run(iso_dir, iso_out, workspace) is Run,
        docker_run(iso_dir, iso_out, workspace)->Run_0 == "docker"@,
        docker_run(iso_dir, iso_out, workspace)->Run_2 is None,
        docker_run(iso_dir, iso_out, workspace)->Run_1 == seq![
            "run"@,
            "--rm"@,
            "--platform"@,
            "linux/amd64"@,
            "-v"@,
            workspace + ":/work"@,
            "ubuntu:22.04"@,
            "sh"@,
            "-c"@,
            "apt-get update -qq && apt-get install -y -qq grub-pc-bin xorriso 2>/dev/null"@
                + " && grub-mkrescue -o /work/"@ + iso_out + " /work/"@ + iso_dir,
        ],
{
}

/// Both menus start the kernel from where the image has it, without waiting.
pub proof fn law_menus()
    ensures
        exists|a: Seq<char>|
            grub_cfg() == #[trigger] (a + "    multiboot2 /boot/kernel.elf\n"@) + "    boot\n"@
                + "}\n"@,
        "set timeout=0\n"@.is_prefix_of(grub_cfg()),
        exists|a: Seq<char>|
            limine_conf() == #[trigger] (a + "    KERNEL_PATH=boot:///boot/kernel.elf\n"@),
        "TIMEOUT=0\n"@.is_prefix_of(limine_conf()),
{
    let a = "set timeout=0\n"@ + "set default=0\n"@ + "\n"@
        + "menuentry \"barnacle test_kernel\" {\n"@;
    assert(grub_cfg() == (a + "    multiboot2 /boot/kernel.elf\n"@) + "    boot\n"@ + "}\n"@);
    assert("set timeout=0\n"@.is_prefix_of(grub_cfg()));
    let c = "TIMEOUT=0\n"@ + "VERBOSE=yes\n"@ + "\n"@ + "/crusty_os\n"@
        + "    PROTOCOL=limine\n"@;
    assert(limine_conf() == c + "    KERNEL_PATH=boot:///boot/kernel.elf\n"@);
    assert("TIMEOUT=0\n"@.is_prefix_of(limine_conf()));
}

/// What is said where the image cannot be made, and how Limine's image is made.
pub proof fn law_said(kernel: Seq<char>, root: Seq<char>, iso_dir: Seq<char>, iso_out: Seq<char>)
    ensures
        iso_steps(kernel, false, root, true, true) == iso_steps(kernel, false, root, false, false),
        iso_steps(kernel, false, root, true, true) == seq![
            Act::Panic(
                "kernel ELF not found at "@ + kernel
                    + "\nDid you run `cargo build -p test_kernel` first?"@,
            ),
        ],
        iso_steps(kernel, true, root, false, false).skip(3) == seq![
            Act::Complain("error: neither grub-mkrescue nor docker found.\n"@),
            Act::Complain("  macOS: brew install i386-elf-grub xorriso   OR   install docker\n"@),
            Act::Complain("  Linux: apt install grub-pc-bin xorriso\n"@),
            Act::Exit(1),
        ],
        rescue_line(false, false) == Act::Complain(
            "  [missing] grub-mkrescue  — install grub or docker\n"@,
        ),
        limine_image(iso_dir, iso_out) is Run,
        limine_image(iso_dir, iso_out)->Run_2 is None,
        limine_image(iso_dir, iso_out)->Run_1.take(13) == seq![
            "-as"@,
            "mkisofs"@,
            "-b"@,
            "boot/limine/limine-bios-cd.bin"@,
            "-no-emul-boot"@,
            "-boot-load-size"@,
            "4"@,
            "-boot-info-table"@,
            "--efi-boot"@,
            "boot/limine/limine-uefi-cd.bin"@,
            "-efi-boot-part"@,
            "--efi-boot-image"@,
            "--protective-msdos-label"@,
        ],
{
    assert(iso_steps(kernel, true, root, false, false).skip(3) =~= seq![
        Act::Complain("error: neither grub-mkrescue nor docker found.\n"@),
        Act::Complain("  macOS: brew install i386-elf-grub xorriso   OR   install docker\n"@),
        Act::Complain("  Linux: apt install grub-pc-bin xorriso\n"@),
        Act::Exit(1),
    ]);
    assert(limine_image(iso_dir, iso_out)->Run_1.take(13) =~= seq![
        "-as"@,
        "mkisofs"@,
        "-b"@,
        "boot/limine/limine-bios-cd.bin"@,
        "-no-emul-boot"@,
        "-boot-load-size"@,
        "4"@,
        "-boot-info-table"@,
        "--efi-boot"@,
        "boot/limine/limine-uefi-cd.bin"@,
        "-efi-boot-part"@,
        "--efi-boot-image"@,
        "--protective-msdos-label"@,
    ]);
}

/// The first word of a command line says what is asked for, and nothing behind it does but the
/// boot protocol of a run.
pub proof fn law_parse(args: &Vec<String>, c: Command)
    requires
        call_ensures(parse, (args,), c),
    ensures
        args@.len() == 0 <==> c matches Command::Usage(None),
        c is CheckDeps <==> args@.len() > 0 && args@[0]@ == "check-deps"@,
        c is Iso <==> args@.len() > 0 && args@[0]@ == "iso"@,
        c is Run || c is Boot <==> args@.len() > 0 && args@[0]@ == "run"@,
        c is Boot <==> args@.len() > 0 && args@[0]@ == "run"@ && boot_named(args@) is Some,
        c is Test <==> args@.len() > 0 && args@[0]@ == "test"@,
{
    reveal_strlit("check-deps");
    reveal_strlit("iso");
    reveal_strlit("run");
    reveal_strlit("test");
    assert("iso"@[0] != "run"@[0]);
    assert("iso"@.len() == 3 && "run"@.len() == 3 && "test"@.len() == 4 && "check-deps"@.len()
        == 10);
}

/// Looking for the tools ends in an error exactly if one that is needed is missing, and then
/// each that is missing was complained of.
pub proof fn law_check_deps(
    nasm: bool,
    qemu: bool,
    grub: bool,
    docker: bool,
    steps: Vec<Action>,
)
    requires
        call_ensures(check_deps, (nasm, qemu, grub, docker), steps),
    ensures
        acts(steps@).len() == 4,
        acts(steps@)[3] == Act::Exit(1) <==> !nasm || !qemu || !grub && !docker,
        acts(steps@)[3] is Print <==> nasm && qemu && (grub || docker),
        acts(steps@)[0] is Complain <==> !nasm,
        acts(steps@)[1] is Complain <==> !qemu,
        acts(steps@)[2] is Complain <==> !grub && !docker,
{
}

} // verus!
