//! What the resolver reads of an object file, through the `object` crate.

use crate::lma::{ObjectFormat, ProgramHeader};
use object::read::elf::ProgramHeader as _;
use object::{File, Object, ObjectSection};
use vstd::prelude::*;

verus! {

/// One section of an object file as the `object` crate reports it.
#[derive(Clone, Debug)]
pub struct RawSection {
    /// The section name; `None` where the crate cannot read it.
    pub name: Option<String>,
    /// Offset and size of the section's bytes in the file; `None` where it has none.
    pub file_range: Option<(u64, u64)>,
    pub align: u64,
    pub address: u64,
}

/// A `RawSection` as plain values.
pub struct RawSectionView {
    pub name: Option<Seq<char>>,
    pub file_range: Option<(u64, u64)>,
    pub align: u64,
    pub address: u64,
}

impl View for RawSection {
    type V = RawSectionView;

    open spec fn view(&self) -> RawSectionView {
        RawSectionView {
            name: match self.name {
                Some(n) => Some(n@),
                None => None,
            },
            file_range: self.file_range,
            align: self.align,
            address: self.address,
        }
    }
}

/// What `object::File::parse` makes of the bytes `data`: the container format
/// of a recognized file, or the text of the error.
pub uninterp spec fn object_parse_outcome(data: Seq<u8>) -> Result<ObjectFormat, Seq<char>>;

/// The sections, in the order `object::Object::sections` yields them, of the
/// file that `object::File::parse` makes of `data`.
pub uninterp spec fn object_section_list(data: Seq<u8>) -> Seq<RawSectionView>;

/// The ELF program headers, in file order, of the file that
/// `object::File::parse` makes of `data`; empty for other formats.
pub uninterp spec fn object_program_headers(data: Seq<u8>) -> Seq<ProgramHeader>;

/// Calls `object::File::parse` and tells apart 32-bit ELF, 64-bit ELF and every
/// other recognized format. The contract claims only that the outcome, and the
/// error text (`object::Error`'s `Display`), are a function of the bytes.
#[verifier::external_body]
pub(crate) fn parse_object(data: &[u8]) -> (r: Result<ObjectFormat, String>)
    ensures
        match r {
            Ok(f) => object_parse_outcome(data@) == Ok::<ObjectFormat, Seq<char>>(f),
            Err(m) => object_parse_outcome(data@) == Err::<ObjectFormat, Seq<char>>(m@),
        },
{
    match File::parse(data) {
        Ok(File::Elf32(_)) => Ok(ObjectFormat::Elf32),
        Ok(File::Elf64(_)) => Ok(ObjectFormat::Elf64),
        Ok(_) => Ok(ObjectFormat::Other),
        Err(e) => Err(e.to_string()),
    }
}

/// Calls `object::Object::sections` on the parsed file and converts each
/// section's `name`, `file_range`, `align` and `address` to plain values. The
/// contract claims only that the list is a function of the bytes.
#[verifier::external_body]
pub(crate) fn object_sections(data: &[u8]) -> (r: Vec<RawSection>)
    requires
        object_parse_outcome(data@) is Ok,
    ensures
        r@.map_values(|s: RawSection| s@) == object_section_list(data@),
{
    match File::parse(data) {
        Ok(file) => file.sections().map(|s| RawSection {
            name: s.name().ok().map(|n| n.to_string()),
            file_range: s.file_range(),
            align: s.align(),
            address: s.address(),
        }).collect(),
        Err(_) => Vec::new(),
    }
}

/// Calls `object::read::elf::ElfFile::elf_program_headers` on a parsed ELF file
/// and converts each header's type, virtual and physical address and memory
/// size to plain values; other formats give no headers. The contract claims
/// only that the list is a function of the bytes.
#[verifier::external_body]
pub(crate) fn elf_program_headers(data: &[u8]) -> (r: Vec<ProgramHeader>)
    requires
        object_parse_outcome(data@) is Ok,
    ensures
        r@ == object_program_headers(data@),
{
    match File::parse(data) {
        Ok(File::Elf32(f)) => { let e = f.endian(); f.elf_program_headers().iter()
            .map(|h| ProgramHeader { p_type: h.p_type(e).0, vaddr: h.p_vaddr(e).into(),
                paddr: h.p_paddr(e).into(), memsz: h.p_memsz(e).into() }).collect() },
        Ok(File::Elf64(f)) => { let e = f.endian(); f.elf_program_headers().iter()
            .map(|h| ProgramHeader { p_type: h.p_type(e).0, vaddr: h.p_vaddr(e),
                paddr: h.p_paddr(e), memsz: h.p_memsz(e) }).collect() },
        _ => Vec::new(),
    }
}

} // verus!
