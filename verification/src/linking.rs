//! What the linker is told when a kernel is built.

use crate::xtask::{acts, below, cat, join, texts, Act, Action};
use vstd::prelude::*;
use vstd::string::StringExecFns;

verus! {

/// A line that hands an argument to the linker.
pub open spec fn link_line(arg: Seq<char>) -> Act {
    Act::Print("cargo:rustc-link-arg="@ + arg + "\n"@)
}

/// A line that hands an argument to the linker.
fn link_arg(arg: &str) -> (a: Action)
    ensures
        a@ == link_line(arg@),
{
    Action::Print(cat(cat("cargo:rustc-link-arg=", arg).as_str(), "\n"))
}

/// The lines for a kernel that starts from the object `boot_obj` and is laid out by
/// `linker_script`.
pub open spec fn multiboot2_lines(boot_obj: Seq<char>, linker_script: Seq<char>) -> Seq<Act> {
    seq![
        link_line(boot_obj),
        link_line("-T"@ + linker_script),
        link_line("--gc-sections"@),
    ]
}

/// The lines for a kernel that its own script below `manifest` lays out.
pub open spec fn limine_lines(manifest: Seq<char>) -> Seq<Act> {
    seq![
        link_line("-T"@ + manifest + "/limine.ld"@),
        link_line("--gc-sections"@),
        Act::Print("cargo:rerun-if-changed=limine.ld\n"@),
    ]
}

/// What the build of the kernel prints, for each boot protocol that is chosen: the boot
/// object and the linker script, or the directory of the package.
pub fn kernel_lines(multiboot2: Option<(&str, &str)>, limine: Option<&str>) -> (lines: Vec<Action>)
    ensures
        acts(lines@) =~= (match multiboot2 {
            Some((boot_obj, linker_script)) => multiboot2_lines(boot_obj@, linker_script@),
            None => Seq::empty(),
        }) + (match limine {
            Some(manifest) => limine_lines(manifest@),
            None => Seq::empty(),
        }),
{
    let mut lines: Vec<Action> = Vec::new();
    if let Some((boot_obj, linker_script)) = multiboot2 {
        lines.push(link_arg(boot_obj));
        lines.push(link_arg(cat("-T", linker_script).as_str()));
        lines.push(link_arg("--gc-sections"));
    }
    if let Some(manifest) = limine {
        let script: String = cat(cat("-T", manifest).as_str(), "/limine.ld");
        lines.push(link_arg(script.as_str()));
        lines.push(link_arg("--gc-sections"));
        lines.push(Action::Print(String::from_str("cargo:rerun-if-changed=limine.ld\n")));
    }
    lines
}

/// What the build of the test kernel prints.
pub fn test_kernel_lines(boot_obj: &str, linker_script: &str) -> (lines: Vec<Action>)
    ensures
        acts(lines@) =~= multiboot2_lines(boot_obj@, linker_script@) + seq![
            Act::Print("cargo:rerun-if-env-changed=DEP_BARNACLE_BOOT_BOOT_OBJ\n"@),
            Act::Print("cargo:rerun-if-env-changed=DEP_BARNACLE_BOOT_LINKER_SCRIPT\n"@),
        ],
{
    let mut lines: Vec<Action> = kernel_lines(Some((boot_obj, linker_script)), None);
    lines.push(
        Action::Print(String::from_str("cargo:rerun-if-env-changed=DEP_BARNACLE_BOOT_BOOT_OBJ\n")),
    );
    lines.push(
        Action::Print(
            String::from_str("cargo:rerun-if-env-changed=DEP_BARNACLE_BOOT_LINKER_SCRIPT\n"),
        ),
    );
    lines
}

/// How the boot code of the package at `manifest` is assembled into `out`.
pub fn assemble(manifest: &str, out: &str) -> (steps: Vec<Action>)
    ensures
        acts(steps@) =~= seq![
            Act::Print("cargo:rerun-if-changed=src/boot/boot.asm\n"@),
            Act::Print("cargo:rerun-if-changed=kernel.ld\n"@),
            Act::Run(
                "nasm"@,
                seq![
                    "-f"@,
                    "elf64"@,
                    below(manifest@, "src/boot/boot.asm"@),
                    "-o"@,
                    below(out@, "boot.o"@),
                ],
                None,
            ),
            Act::Print("cargo:boot_obj="@ + below(out@, "boot.o"@) + "\n"@),
            Act::Print("cargo:linker_script="@ + below(manifest@, "kernel.ld"@) + "\n"@),
        ],
{
    let source: String = join(manifest, "src/boot/boot.asm");
    let obj: String = join(out, "boot.o");
    let ld: String = join(manifest, "kernel.ld");
    let mut obj_line: String = String::from_str("cargo:boot_obj=");
    obj_line.append(obj.as_str());
    obj_line.append("\n");
    let mut ld_line: String = String::from_str("cargo:linker_script=");
    ld_line.append(ld.as_str());
    ld_line.append("\n");
    let args: Vec<String> = vec![
        String::from_str("-f"),
        String::from_str("elf64"),
        source,
        String::from_str("-o"),
        obj,
    ];
    assert(texts(args@) =~= seq![
        "-f"@,
        "elf64"@,
        below(manifest@, "src/boot/boot.asm"@),
        "-o"@,
        below(out@, "boot.o"@),
    ]);
    let mut steps: Vec<Action> = Vec::new();
    steps.push(Action::Print(String::from_str("cargo:rerun-if-changed=src/boot/boot.asm\n")));
    steps.push(Action::Print(String::from_str("cargo:rerun-if-changed=kernel.ld\n")));
    steps.push(Action::Run(String::from_str("nasm"), args, None));
    steps.push(Action::Print(obj_line));
    steps.push(Action::Print(ld_line));
    steps
}

/// A kernel that starts from an object of its own has the object, its script and the removal
/// of unused sections handed to the linker, in this order; one that Limine boots has its own
/// script and the same removal, and is built again when the script changes.
pub proof fn law_lines(boot_obj: Seq<char>, script: Seq<char>, manifest: Seq<char>)
    ensures
        multiboot2_lines(boot_obj, script).len() == 3,
        multiboot2_lines(boot_obj, script)[0] == Act::Print(
            "cargo:rustc-link-arg="@ + boot_obj + "\n"@,
        ),
        multiboot2_lines(boot_obj, script)[1] == Act::Print(
            "cargo:rustc-link-arg="@ + ("-T"@ + script) + "\n"@,
        ),
        limine_lines(manifest).len() == 3,
        limine_lines(manifest)[0] == Act::Print(
            "cargo:rustc-link-arg="@ + ("-T"@ + manifest + "/limine.ld"@) + "\n"@,
        ),
        limine_lines(manifest)[1] == multiboot2_lines(boot_obj, script)[2],
        limine_lines(manifest)[1] == Act::Print(
            "cargo:rustc-link-arg="@ + "--gc-sections"@ + "\n"@,
        ),
        limine_lines(manifest)[2] == Act::Print("cargo:rerun-if-changed=limine.ld\n"@),
{
}

} // verus!
