//! Load addresses (LMA) of object-file sections, from the ELF program headers.

use vstd::prelude::*;

verus! {

/// ELF program header type of a loadable segment.
pub const PT_LOAD: u32 = 1;

/// What the resolver keeps of one section of a parsed object file.
#[derive(Clone, Copy, Debug, PartialEq, Eq, Structural)]
pub struct ObjsecProps {
    pub file_offset: u64,
    pub size: u64,
    pub align: u64,
    pub vma: u64,
    pub lma: Option<u64>,
}

/// The fields of an ELF program header that LMA assignment reads.
#[derive(Clone, Copy, Debug, PartialEq, Eq, Structural)]
pub struct ProgramHeader {
    pub p_type: u32,
    pub vaddr: u64,
    pub paddr: u64,
    pub memsz: u64,
}

/// The container formats that the resolver tells apart.
#[derive(Clone, Copy, Debug, PartialEq, Eq, Structural)]
pub enum ObjectFormat {
    Elf32,
    Elf64,
    Other,
}

/// `h` is a loadable segment whose virtual address range holds `vma`.
pub open spec fn segment_holds(h: ProgramHeader, vma: u64) -> bool {
    h.p_type == PT_LOAD && h.vaddr <= vma && vma < h.vaddr + h.memsz
}

/// The load address that the first loadable segment of `headers` holding `vma`
/// gives it: the segment's physical address plus the offset of `vma` in it.
pub open spec fn first_load_address(headers: Seq<ProgramHeader>, vma: u64) -> Option<int>
    decreases headers.len(),
{
    if headers.len() == 0 {
        None
    } else {
        match first_load_address(headers.drop_last(), vma) {
            Some(a) => Some(a),
            None => if segment_holds(headers.last(), vma) {
                Some(headers.last().paddr + (vma - headers.last().vaddr))
            } else {
                None
            },
        }
    }
}

/// The load address that LMA assignment gives a section: the one it already
/// had, else the one of the first loadable segment that holds its VMA, else its VMA.
pub open spec fn assigned_lma(headers: Seq<ProgramHeader>, p: ObjsecProps) -> u64 {
    match p.lma {
        Some(l) => l,
        None => match first_load_address(headers, p.vma) {
            Some(a) => a as u64,
            None => p.vma,
        },
    }
}

/// No arithmetic of LMA assignment overflows `u64`: the end of each loadable
/// segment, and the load address computed for each section still without one.
pub open spec fn lma_arithmetic_fits(headers: Seq<ProgramHeader>, sections: Seq<ObjsecProps>) -> bool {
    &&& forall|i: int|
        0 <= i < headers.len() && (#[trigger] headers[i]).p_type == PT_LOAD ==> headers[i].vaddr
            + headers[i].memsz <= u64::MAX
    &&& forall|k: int|
        0 <= k < sections.len() && (#[trigger] sections[k]).lma is None ==> match first_load_address(
            headers,
            sections[k].vma,
        ) {
            Some(a) => a <= u64::MAX,
            None => true,
        }
}

proof fn lemma_first_load_address_prefix(headers: Seq<ProgramHeader>, vma: u64, i: int)
    requires
        0 <= i < headers.len(),
    ensures
        first_load_address(headers.take(i + 1), vma) == match first_load_address(
            headers.take(i),
            vma,
        ) {
            Some(a) => Some(a),
            None => if segment_holds(headers[i], vma) {
                Some(headers[i].paddr + (vma - headers[i].vaddr))
            } else {
                None
            },
        },
{
    assert(headers.take(i + 1).drop_last() =~= headers.take(i));
}

/// Gives every section without a load address the one of the first loadable
/// segment that holds its VMA; a section that no loadable segment holds gets its VMA.
pub fn fill_lma(headers: &[ProgramHeader], sections: &mut Vec<ObjsecProps>)
    requires
        lma_arithmetic_fits(headers@, old(sections)@),
    ensures
        final(sections)@.len() == old(sections)@.len(),
        forall|k: int|
            0 <= k < old(sections)@.len() ==> #[trigger] final(sections)@[k] == (ObjsecProps {
                lma: Some(assigned_lma(headers@, old(sections)@[k])),
                ..old(sections)@[k]
            }),
{
    let ghost orig = sections@;
    let mut i: usize = 0;
    while i < headers.len()
        invariant
            i <= headers@.len(),
            lma_arithmetic_fits(headers@, orig),
            sections@.len() == orig.len(),
            forall|k: int|
                0 <= k < orig.len() ==> #[trigger] sections@[k] == (ObjsecProps {
                    lma: match orig[k].lma {
                        Some(l) => Some(l),
                        None => match first_load_address(headers@.take(i as int), orig[k].vma) {
                            Some(a) => Some(a as u64),
                            None => None,
                        },
                    },
                    ..orig[k]
                }),
        decreases headers@.len() - i,
    {
        let h = headers[i];
        if h.p_type == PT_LOAD {
            assert(headers@[i as int].p_type == PT_LOAD);
            let seg_end = h.vaddr + h.memsz;
            let mut j: usize = 0;
            while j < sections.len()
                invariant
                    i < headers@.len(),
                    h == headers@[i as int],
                    h.p_type == PT_LOAD,
                    seg_end == h.vaddr + h.memsz,
                    j <= sections@.len(),
                    lma_arithmetic_fits(headers@, orig),
                    sections@.len() == orig.len(),
                    forall|k: int|
                        0 <= k < orig.len() ==> #[trigger] sections@[k] == (ObjsecProps {
                            lma: match orig[k].lma {
                                Some(l) => Some(l),
                                None => match first_load_address(
                                    headers@.take(if k < j { i + 1 } else { i as int }),
                                    orig[k].vma,
                                ) {
                                    Some(a) => Some(a as u64),
                                    None => None,
                                },
                            },
                            ..orig[k]
                        }),
                decreases sections@.len() - j,
            {
                proof {
                    lemma_first_load_address_prefix(headers@, orig[j as int].vma, i as int);
                }
                let p = sections[j];
                if p.lma.is_none() && p.vma >= h.vaddr && p.vma < seg_end {
                    proof {
                        lemma_first_load_address_fits(headers@, orig, j as int, i as int);
                    }
                    let updated = ObjsecProps { lma: Some(h.paddr + (p.vma - h.vaddr)), ..p };
                    sections.set(j, updated);
                }
                j += 1;
            }
        } else {
            proof {
                assert forall|k: int| 0 <= k < orig.len() implies first_load_address(
                    headers@.take(i + 1),
                    #[trigger] orig[k].vma,
                ) == first_load_address(headers@.take(i as int), orig[k].vma) by {
                    lemma_first_load_address_prefix(headers@, orig[k].vma, i as int);
                }
            }
        }
        i += 1;
    }
    let mut j: usize = 0;
    while j < sections.len()
        invariant
            i == headers@.len(),
            j <= sections@.len(),
            sections@.len() == orig.len(),
            forall|k: int|
                0 <= k < orig.len() ==> #[trigger] sections@[k] == (ObjsecProps {
                    lma: if k < j {
                        Some(assigned_lma(headers@, orig[k]))
                    } else {
                        match orig[k].lma {
                            Some(l) => Some(l),
                            None => match first_load_address(headers@.take(i as int), orig[k].vma) {
                                Some(a) => Some(a as u64),
                                None => None,
                            },
                        }
                    },
                    ..orig[k]
                }),
        decreases sections@.len() - j,
    {
        assert(headers@.take(i as int) =~= headers@);
        let p = sections[j];
        if p.lma.is_none() {
            sections.set(j, ObjsecProps { lma: Some(p.vma), ..p });
        }
        j += 1;
    }
}

proof fn lemma_first_load_address_fits(
    headers: Seq<ProgramHeader>,
    sections: Seq<ObjsecProps>,
    k: int,
    i: int,
)
    requires
        lma_arithmetic_fits(headers, sections),
        0 <= k < sections.len(),
        0 <= i < headers.len(),
        sections[k].lma is None,
        first_load_address(headers.take(i + 1), sections[k].vma) is Some,
    ensures
        first_load_address(headers.take(i + 1), sections[k].vma)->0 <= u64::MAX,
{
    lemma_first_load_address_extends(headers, sections[k].vma, i + 1);
}

proof fn lemma_first_load_address_extends(headers: Seq<ProgramHeader>, vma: u64, n: int)
    requires
        0 <= n <= headers.len(),
        first_load_address(headers.take(n), vma) is Some,
    ensures
        first_load_address(headers, vma) == first_load_address(headers.take(n), vma),
    decreases headers.len() - n,
{
    if n < headers.len() {
        lemma_first_load_address_prefix(headers, vma, n);
        lemma_first_load_address_extends(headers, vma, n + 1);
    } else {
        assert(headers.take(n) =~= headers);
    }
}

/// Assigns load addresses from the program headers of an ELF file; sections of
/// any other format keep what they have.
pub fn compute_lma_from_segments(
    format: ObjectFormat,
    headers: &[ProgramHeader],
    sections: &mut Vec<ObjsecProps>,
)
    requires
        format != ObjectFormat::Other ==> lma_arithmetic_fits(headers@, old(sections)@),
    ensures
        format == ObjectFormat::Other ==> final(sections)@ == old(sections)@,
        format != ObjectFormat::Other ==> final(sections)@.len() == old(sections)@.len(),
        format != ObjectFormat::Other ==> forall|k: int|
            0 <= k < old(sections)@.len() ==> #[trigger] final(sections)@[k] == (ObjsecProps {
                lma: Some(assigned_lma(headers@, old(sections)@[k])),
                ..old(sections)@[k]
            }),
{
    match format {
        ObjectFormat::Elf32 => fill_lma(headers, sections),
        ObjectFormat::Elf64 => fill_lma(headers, sections),
        ObjectFormat::Other => {},
    }
}

/// Tells whether LMA assignment from `headers` on `sections` stays within `u64`
/// (see `lma_arithmetic_fits`).
pub fn lma_arithmetic_check(headers: &[ProgramHeader], sections: &Vec<ObjsecProps>) -> (r: bool)
    ensures
        r == lma_arithmetic_fits(headers@, sections@),
{
    let mut i: usize = 0;
    while i < headers.len()
        invariant
            i <= headers@.len(),
            forall|k: int|
                0 <= k < i && (#[trigger] headers@[k]).p_type == PT_LOAD ==> headers@[k].vaddr
                    + headers@[k].memsz <= u64::MAX,
        decreases headers@.len() - i,
    {
        let h = headers[i];
        if h.p_type == PT_LOAD && h.memsz > u64::MAX - h.vaddr {
            assert(headers@[i as int].p_type == PT_LOAD);
            return false;
        }
        i += 1;
    }
    let mut k: usize = 0;
    while k < sections.len()
        invariant
            k <= sections@.len(),
            forall|i: int|
                0 <= i < headers@.len() && (#[trigger] headers@[i]).p_type == PT_LOAD
                    ==> headers@[i].vaddr + headers@[i].memsz <= u64::MAX,
            forall|m: int|
                0 <= m < k && (#[trigger] sections@[m]).lma is None ==> match first_load_address(
                    headers@,
                    sections@[m].vma,
                ) {
                    Some(a) => a <= u64::MAX,
                    None => true,
                },
        decreases sections@.len() - k,
    {
        let p = sections[k];
        if p.lma.is_none() {
            let mut j: usize = 0;
            let mut found = false;
            while j < headers.len() && !found
                invariant
                    j <= headers@.len(),
                    k < sections@.len(),
                    p == sections@[k as int],
                    p.lma is None,
                    forall|i: int|
                        0 <= i < headers@.len() && (#[trigger] headers@[i]).p_type == PT_LOAD
                            ==> headers@[i].vaddr + headers@[i].memsz <= u64::MAX,
                    !found ==> first_load_address(headers@.take(j as int), p.vma) is None,
                    found ==> first_load_address(headers@.take(j as int), p.vma) is Some,
                    found ==> first_load_address(headers@.take(j as int), p.vma)->0 <= u64::MAX,
                decreases headers@.len() - j,
            {
                proof {
                    lemma_first_load_address_prefix(headers@, p.vma, j as int);
                }
                let h = headers[j];
                if h.p_type == PT_LOAD {
                    assert(headers@[j as int].p_type == PT_LOAD);
                    if p.vma >= h.vaddr && p.vma < h.vaddr + h.memsz {
                        if h.paddr > u64::MAX - (p.vma - h.vaddr) {
                            proof {
                                lemma_first_load_address_extends(headers@, p.vma, j + 1);
                                assert(first_load_address(headers@, p.vma) == Some(
                                    h.paddr + (p.vma - h.vaddr),
                                ));
                                assert(sections@[k as int].lma is None);
                            }
                            return false;
                        }
                        found = true;
                    }
                }
                j += 1;
            }
            proof {
                if found {
                    lemma_first_load_address_extends(headers@, p.vma, j as int);
                } else {
                    assert(headers@.take(j as int) =~= headers@);
                }
            }
        }
        k += 1;
    }
    true
}

/// LMA assignment settles: a section that has been assigned a load address
/// keeps it when assignment runs again.
pub proof fn lemma_lma_assignment_settles(headers: Seq<ProgramHeader>, p: ObjsecProps)
    ensures
        assigned_lma(headers, ObjsecProps { lma: Some(assigned_lma(headers, p)), ..p })
            == assigned_lma(headers, p),
{
}

/// A section that no loadable segment holds is loaded where it runs: its LMA
/// is its VMA.
pub proof fn lemma_unloaded_section_lma_is_vma(headers: Seq<ProgramHeader>, p: ObjsecProps)
    requires
        p.lma is None,
        forall|i: int| 0 <= i < headers.len() ==> !segment_holds(#[trigger] headers[i], p.vma),
    ensures
        assigned_lma(headers, p) == p.vma,
    decreases headers.len(),
{
    if headers.len() > 0 {
        lemma_unloaded_section_lma_is_vma(headers.drop_last(), p);
        assert(!segment_holds(headers[headers.len() - 1], p.vma));
    }
}

proof fn lemma_first_load_address_from_holder(headers: Seq<ProgramHeader>, vma: u64)
    ensures
        first_load_address(headers, vma) matches Some(a) ==> exists|i: int|
            0 <= i < headers.len() && #[trigger] headers[i].p_type == PT_LOAD && headers[i].vaddr <= vma
                && vma < headers[i].vaddr + headers[i].memsz && a == headers[i].paddr + (vma
                - headers[i].vaddr),
    decreases headers.len(),
{
    if headers.len() > 0 {
        let init = headers.drop_last();
        lemma_first_load_address_from_holder(init, vma);
        if let Some(a) = first_load_address(init, vma) {
            let i = choose|i: int|
                0 <= i < init.len() && #[trigger] init[i].p_type == PT_LOAD && init[i].vaddr <= vma
                    && vma < init[i].vaddr + init[i].memsz && a == init[i].paddr + (vma - init[i].vaddr);
            assert(headers[i] == init[i]);
        } else if segment_holds(headers.last(), vma) {
            assert(headers[headers.len() - 1].p_type == PT_LOAD);
        }
    }
}

/// LMA assignment stays within `u64` wherever every loadable segment ends
/// within `u64` and every loadable segment that holds the address of a section
/// without a load address maps it to one within `u64`: the segment's physical
/// address may lie anywhere, below its virtual address too (flash-loaded data
/// that runs from RAM).
pub proof fn lemma_lma_arithmetic_fits_when_addresses_fit(
    headers: Seq<ProgramHeader>,
    sections: Seq<ObjsecProps>,
)
    requires
        forall|i: int|
            0 <= i < headers.len() && (#[trigger] headers[i]).p_type == PT_LOAD ==> headers[i].vaddr
                + headers[i].memsz <= u64::MAX,
        forall|k: int, i: int|
            0 <= k < sections.len() && 0 <= i < headers.len() && (#[trigger] sections[k]).lma is None
                && (#[trigger] headers[i]).p_type == PT_LOAD && headers[i].vaddr <= sections[k].vma
                && sections[k].vma < headers[i].vaddr + headers[i].memsz ==> headers[i].paddr + (
            sections[k].vma - headers[i].vaddr) <= u64::MAX,
    ensures
        lma_arithmetic_fits(headers, sections),
{
    assert forall|k: int| 0 <= k < sections.len() && (#[trigger] sections[k]).lma is None implies match first_load_address(
        headers,
        sections[k].vma,
    ) {
        Some(a) => a <= u64::MAX,
        None => true,
    } by {
        lemma_first_load_address_from_holder(headers, sections[k].vma);
    }
}

proof fn lemma_no_holder_before(headers: Seq<ProgramHeader>, vma: u64, n: int)
    requires
        0 <= n <= headers.len(),
        forall|m: int| 0 <= m < n ==> !segment_holds(#[trigger] headers[m], vma),
    ensures
        first_load_address(headers.take(n), vma) is None,
    decreases n,
{
    if n > 0 {
        lemma_no_holder_before(headers, vma, n - 1);
        lemma_first_load_address_prefix(headers, vma, n - 1);
    } else {
        assert(headers.take(0) =~= Seq::<ProgramHeader>::empty());
    }
}

/// The load address that the headers give an address is the one of the first
/// loadable segment that holds it: that segment's physical address plus the
/// offset of the address in it.
pub proof fn lemma_first_holder_gives_load_address(headers: Seq<ProgramHeader>, vma: u64, i: int)
    requires
        0 <= i < headers.len(),
        headers[i].p_type == PT_LOAD,
        headers[i].vaddr <= vma < headers[i].vaddr + headers[i].memsz,
        forall|m: int|
            0 <= m < i ==> !((#[trigger] headers[m]).p_type == PT_LOAD && headers[m].vaddr <= vma
                < headers[m].vaddr + headers[m].memsz),
    ensures
        first_load_address(headers, vma) == Some(headers[i].paddr + (vma - headers[i].vaddr)),
{
    lemma_no_holder_before(headers, vma, i);
    lemma_first_load_address_prefix(headers, vma, i);
    lemma_first_load_address_extends(headers, vma, i + 1);
}

} // verus!
