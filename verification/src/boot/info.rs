//! What a Multiboot2 bootloader hands over.

use vstd::prelude::*;

verus! {

/// A range of the memory map.
#[derive(Debug, Clone, Copy, PartialEq, Eq, Structural)]
pub struct MemoryArea {
    /// First address.
    pub start_address: u64,
    /// Bytes.
    pub size: u64,
    /// Number of the type of the area.
    pub typ: u32,
}

/// A section of the kernel image.
#[derive(Debug, Clone, Copy, PartialEq, Eq, Structural)]
pub struct ElfSection {
    /// Flags of the section.
    pub flags: u64,
    /// Address that it was linked for.
    pub start_address: u64,
}

/// The command line, as far as it is text.
#[derive(Debug)]
pub enum CommandLine {
    /// Text.
    Text(String),
    /// Bytes that are no text.
    Malformed,
}

/// A frame buffer.
#[derive(Debug, Clone, Copy, PartialEq, Eq, Structural)]
pub struct Framebuffer {
    /// Where it is.
    pub address: u64,
    /// Bytes per line.
    pub pitch: u32,
    /// Columns.
    pub width: u32,
    /// Lines.
    pub height: u32,
    /// Bits per pixel.
    pub bpp: u8,
}

/// What the bootloader says of the frame buffer.
#[derive(Debug, Clone, Copy, PartialEq, Eq, Structural)]
pub enum FramebufferTag {
    /// It is of a type that is known.
    Known(Framebuffer),
    /// It is of a type that is not.
    UnknownType,
}

/// Where the firmware keeps its tables.
#[derive(Debug, Clone, Copy, PartialEq, Eq, Structural)]
pub struct Rsdp {
    /// Revision of the tables.
    pub revision: u8,
    /// Address of the root table.
    pub address: u64,
}

/// The parsed information, tag by tag. A tag that the bootloader left out is `None`.
pub struct BootInfo {
    /// The memory map.
    pub memory_map_tag: Option<Vec<MemoryArea>>,
    /// The command line.
    pub command_line_tag: Option<CommandLine>,
    /// The frame buffer.
    pub framebuffer_tag: Option<FramebufferTag>,
    /// Tables of the first version.
    pub rsdp_v1_tag: Option<Rsdp>,
    /// Tables of the second version.
    pub rsdp_v2_tag: Option<Rsdp>,
    /// Sections of the kernel image.
    pub elf_sections_tag: Option<Vec<ElfSection>>,
    /// Where the information itself lies.
    pub start: u64,
    /// Its bytes.
    pub total_size: u64,
}

impl BootInfo {
    /// The memory map, if there is one.
    pub fn memory_map(&self) -> (r: Option<&Vec<MemoryArea>>)
        ensures
            match self.memory_map_tag {
                Some(m) => r == Some(&m),
                None => r is None,
            },
    {
        match &self.memory_map_tag {
            Some(m) => Some(m),
            None => None,
        }
    }

    /// The command line, if there is one and it is text.
    pub fn command_line(&self) -> (r: Option<&str>)
        ensures
            match self.command_line_tag {
                Some(CommandLine::Text(s)) => r matches Some(t) && t@ == s@,
                _ => r is None,
            },
    {
        match &self.command_line_tag {
            Some(CommandLine::Text(s)) => Some(s.as_str()),
            _ => None,
        }
    }

    /// The frame buffer, if there is one of a known type.
    pub fn framebuffer(&self) -> (r: Option<Framebuffer>)
        ensures
            match self.framebuffer_tag {
                Some(FramebufferTag::Known(f)) => r == Some(f),
                _ => r is None,
            },
    {
        match &self.framebuffer_tag {
            Some(FramebufferTag::Known(f)) => Some(*f),
            _ => None,
        }
    }

    /// Tables of the first version, if there are any.
    pub fn rsdp_v1(&self) -> (r: Option<Rsdp>)
        ensures
            r == self.rsdp_v1_tag,
    {
        self.rsdp_v1_tag
    }

    /// Tables of the second version, if there are any.
    pub fn rsdp_v2(&self) -> (r: Option<Rsdp>)
        ensures
            r == self.rsdp_v2_tag,
    {
        self.rsdp_v2_tag
    }

    /// The sections of the kernel image, if they are known.
    pub fn elf_sections(&self) -> (r: Option<&Vec<ElfSection>>)
        ensures
            match self.elf_sections_tag {
                Some(m) => r == Some(&m),
                None => r is None,
            },
    {
        match &self.elf_sections_tag {
            Some(m) => Some(m),
            None => None,
        }
    }

    /// Where the information starts.
    pub fn start_address(&self) -> (a: u64)
        ensures
            a == self.start,
    {
        self.start
    }

    /// The address behind the information.
    pub fn end_address(&self) -> (a: u64)
        requires
            self.start + self.total_size <= u64::MAX,
        ensures
            a == self.start + self.total_size,
    {
        self.start + self.total_size
    }
}

} // verus!
