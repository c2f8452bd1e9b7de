//! The decoded record types: the file header and a section header. Fields are
//! stored uniformly at their widest encoding; narrow fields of the 32-bit
//! class are zero-extended on decode.

use vstd::prelude::*;
use crate::model::ShModel;

verus! {

/// The fixed file header: identification values plus the type, machine and
/// entry-point fields. The entry point is held as a 64-bit value whatever the
/// class; a 32-bit source value is zero-extended.
#[derive(Clone, Copy, PartialEq, Eq, Structural, Debug)]
pub struct FileHeader {
    /// Class flag: 32-bit or 64-bit field widths.
    pub class: u8,
    /// Data-encoding flag: little- or big-endian multi-byte fields.
    pub data: u8,
    /// File-format version word.
    pub version: u32,
    /// Operating-system / ABI identifier.
    pub os_abi: u8,
    /// ABI version byte.
    pub abi_version: u8,
    /// Object type: relocatable, executable, shared, core.
    pub elf_type: u16,
    /// Target machine architecture.
    pub machine: u16,
    /// Entry-point virtual address.
    pub entrypoint: u64,
}

/// One section-header record, with the name resolved from the string table in
/// the second decode phase.
pub struct SectionHeader {
    /// Resolved section name; the lookup key.
    pub name: String,
    /// Section type tag.
    pub shtype: u32,
    /// Flag bits, widened to 64 bits for both classes.
    pub flags: u64,
    /// Virtual address.
    pub addr: u64,
    /// File offset of the section's payload.
    pub offset: u64,
    /// Payload size in bytes.
    pub size: u64,
    /// Index of a related section; meaning depends on the type.
    pub link: u32,
    /// Auxiliary information word.
    pub info: u32,
    /// Address alignment.
    pub addralign: u64,
    /// Entry size for table-like sections.
    pub entsize: u64,
}

impl View for SectionHeader {
    type V = ShModel;

    open spec fn view(&self) -> ShModel {
        ShModel {
            name: self.name@,
            shtype: self.shtype,
            flags: self.flags,
            addr: self.addr,
            offset: self.offset,
            size: self.size,
            link: self.link,
            info: self.info,
            addralign: self.addralign,
            entsize: self.entsize,
        }
    }
}

} // verus!
