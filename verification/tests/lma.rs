use firmion::lma::{compute_lma_from_segments, fill_lma, ObjectFormat, ObjsecProps, ProgramHeader, PT_LOAD};

fn sec(vma: u64, lma: Option<u64>) -> ObjsecProps {
    ObjsecProps { file_offset: 0, size: 4, align: 4, vma, lma }
}

fn load(vaddr: u64, paddr: u64, memsz: u64) -> ProgramHeader {
    ProgramHeader { p_type: PT_LOAD, vaddr, paddr, memsz }
}

#[test]
fn fill_lma_maps_vma_through_the_first_holding_segment() {
    let headers = vec![
        ProgramHeader { p_type: 4, vaddr: 0x1000, paddr: 0x9000, memsz: 0x100 },
        load(0x1000, 0x8000, 0x100),
        load(0x1000, 0x7000, 0x100),
        load(0x2000, 0x6000, 0x10),
    ];
    let mut secs = vec![
        sec(0x1010, None),
        sec(0x2008, None),
        sec(0x2010, None),
        sec(0x1010, Some(0x42)),
    ];
    fill_lma(&headers, &mut secs);
    assert_eq!(secs[0].lma, Some(0x8010));
    assert_eq!(secs[1].lma, Some(0x6008));
    // Not inside any loadable segment: loaded where it runs.
    assert_eq!(secs[2].lma, Some(0x2010));
    // Already placed: kept.
    assert_eq!(secs[3].lma, Some(0x42));
    assert_eq!(secs[0].vma, 0x1010);
}

#[test]
fn non_elf_sections_keep_what_they_have() {
    let headers = vec![load(0x1000, 0x8000, 0x100)];
    let mut secs = vec![sec(0x1010, None)];
    compute_lma_from_segments(ObjectFormat::Other, &headers, &mut secs);
    assert_eq!(secs[0].lma, None);
    compute_lma_from_segments(ObjectFormat::Elf32, &headers, &mut secs);
    assert_eq!(secs[0].lma, Some(0x8010));
}

#[test]
fn lma_assignment_settles() {
    let headers = vec![load(0x1000, 0x8000, 0x100)];
    let mut secs = vec![sec(0x1010, None), sec(0x5000, None)];
    fill_lma(&headers, &mut secs);
    let first = secs.clone();
    fill_lma(&headers, &mut secs);
    assert_eq!(first, secs);
}
