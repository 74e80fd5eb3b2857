use firmion::glob::{GlobError, GlobErrorKind};
use firmion::lma::ObjsecProps;
use firmion::objfile::{
    check_lma_continuity, emit_glob_error, push_infos, select_sections, without_listed, ObjDecl, ObjFileResolver,
    ObjProps, ObjsecInfo, SourceSpan,
};
use firmion::order::SectionCandidate;
use firmion::sections::SectionTable;

const USE: SourceSpan = SourceSpan { start: 100, end: 110 };
const DECL: SourceSpan = SourceSpan { start: 1, end: 20 };

fn put16(v: &mut Vec<u8>, x: u16) {
    v.extend_from_slice(&x.to_le_bytes());
}
fn put32(v: &mut Vec<u8>, x: u32) {
    v.extend_from_slice(&x.to_le_bytes());
}
fn put64(v: &mut Vec<u8>, x: u64) {
    v.extend_from_slice(&x.to_le_bytes());
}

/// A little-endian ELF64 executable with one loadable segment
/// (vaddr 0x1000, paddr 0x8000) holding `.text` (16 bytes at 0x1000,
/// align 16) and `.data` (8 bytes at 0x1010, align 4).
fn tiny_elf() -> Vec<u8> {
    tiny_elf_at(0x8000)
}

/// `tiny_elf` with its segment loaded at `paddr`.
fn tiny_elf_at(paddr: u64) -> Vec<u8> {
    let mut v = Vec::new();
    v.extend_from_slice(&[0x7f, b'E', b'L', b'F', 2, 1, 1, 0, 0, 0, 0, 0, 0, 0, 0, 0]);
    put16(&mut v, 2); // e_type
    put16(&mut v, 0x3E); // e_machine
    put32(&mut v, 1); // e_version
    put64(&mut v, 0x1000); // e_entry
    put64(&mut v, 64); // e_phoff
    put64(&mut v, 168); // e_shoff
    put32(&mut v, 0); // e_flags
    put16(&mut v, 64); // e_ehsize
    put16(&mut v, 56); // e_phentsize
    put16(&mut v, 1); // e_phnum
    put16(&mut v, 64); // e_shentsize
    put16(&mut v, 4); // e_shnum
    put16(&mut v, 3); // e_shstrndx
    assert_eq!(v.len(), 64);
    put32(&mut v, 1); // PT_LOAD
    put32(&mut v, 5);
    put64(&mut v, 120); // p_offset
    put64(&mut v, 0x1000); // p_vaddr
    put64(&mut v, paddr); // p_paddr
    put64(&mut v, 24); // p_filesz
    put64(&mut v, 24); // p_memsz
    put64(&mut v, 16);
    assert_eq!(v.len(), 120);
    v.extend_from_slice(&[0x90; 16]); // .text
    v.extend_from_slice(&[0x11; 8]); // .data
    let names = b"\0.text\0.data\0.shstrtab\0";
    v.extend_from_slice(names); // 144..167
    v.push(0);
    assert_eq!(v.len(), 168);
    // null section
    v.extend_from_slice(&[0; 64]);
    // .text
    put32(&mut v, 1);
    put32(&mut v, 1);
    put64(&mut v, 6);
    put64(&mut v, 0x1000);
    put64(&mut v, 120);
    put64(&mut v, 16);
    put32(&mut v, 0);
    put32(&mut v, 0);
    put64(&mut v, 16);
    put64(&mut v, 0);
    // .data
    put32(&mut v, 7);
    put32(&mut v, 1);
    put64(&mut v, 3);
    put64(&mut v, 0x1010);
    put64(&mut v, 136);
    put64(&mut v, 8);
    put32(&mut v, 0);
    put32(&mut v, 0);
    put64(&mut v, 4);
    put64(&mut v, 0);
    // .shstrtab
    put32(&mut v, 13);
    put32(&mut v, 3);
    put64(&mut v, 0);
    put64(&mut v, 0);
    put64(&mut v, 144);
    put64(&mut v, 23);
    put32(&mut v, 0);
    put32(&mut v, 0);
    put64(&mut v, 1);
    put64(&mut v, 0);
    v
}

fn props(file: &str, name: &str, file_exclude: &str, section_exclude: &str) -> ObjProps {
    ObjProps {
        file: file.to_string(),
        name: name.to_string(),
        file_exclude: file_exclude.to_string(),
        section_exclude: section_exclude.to_string(),
        src_loc: DECL,
    }
}

fn resolver_with(name: &str, p: ObjProps) -> ObjFileResolver {
    ObjFileResolver::new(vec![ObjDecl { obj_name: name.to_string(), props: p }])
}

fn info(file: &str, name: &str, lma: u64, size: u64) -> ObjsecInfo {
    ObjsecInfo {
        file: file.to_string(),
        name: name.to_string(),
        file_offset: 0,
        size,
        align: 1,
        vma: lma,
        lma,
        src_loc: USE,
    }
}

#[test]
fn unrecognized_bytes_are_not_an_object() {
    let mut r = resolver_with("boot", props("*.o", ".text", "", ""));
    let d = r
        .cache_file_checked("x.o", Ok(b"hello, world".as_slice()), USE, DECL)
        .unwrap()
        .unwrap_err();
    assert_eq!(d.code, "ERR_120");
}

#[test]
fn unknown_obj_name_is_err_117() {
    let r = resolver_with("boot", props("*.o", ".text", "", ""));
    let d = r.plan_resolve("app", USE).unwrap_err();
    assert_eq!(d.code, "ERR_117");
    assert_eq!(d.message, "Unknown obj name 'app'");
    assert_eq!(d.primary, USE);
    assert_eq!(d.secondary, None);
    let p = r.plan_resolve("boot", USE).unwrap();
    assert_eq!(p.file, "*.o");
}

#[test]
fn bad_patterns_get_their_codes() {
    let r = resolver_with("boot", props("FOO(*.o)", ".text", "", ""));
    let d = r.plan_resolve("boot", USE).unwrap_err();
    assert_eq!(d.code, "ERR_234");
    assert_eq!(d.primary, DECL);
    let r = resolver_with("boot", props("[*.o", ".text", "", ""));
    let d = r.plan_resolve("boot", USE).unwrap_err();
    assert_eq!(d.code, "ERR_233");
    let e = GlobError { kind: GlobErrorKind::EmptyBrackets, message: "m".to_string() };
    assert_eq!(emit_glob_error(&e, DECL).code, "ERR_233");
    let e = GlobError { kind: GlobErrorKind::InvalidOperator, message: "m".to_string() };
    let d = emit_glob_error(&e, DECL);
    assert_eq!(d.code, "ERR_234");
    assert_eq!(d.message, "m");
}

#[test]
fn file_exclusion_matches_as_a_glob() {
    let p = props("**", ".text", "*.o", "");
    let r = resolver_with("boot", props("**", ".text", "*.o", ""));
    let listed = vec!["b/x.o".to_string(), "a.o".to_string(), "c.txt".to_string(), "d.o".to_string()];
    let files = r.select_files("boot", &p, listed.clone(), USE).unwrap();
    assert_eq!(files, vec!["b/x.o".to_string(), "c.txt".to_string()]);
    let p = props("**", ".text", "**.o", "");
    let files = r.select_files("boot", &p, listed, USE).unwrap();
    assert_eq!(files, vec!["c.txt".to_string()]);
}

#[test]
fn file_exclusion_and_no_files() {
    let p = props("*.o", ".text", "b*", "");
    let r = resolver_with("boot", props("*.o", ".text", "b*", ""));
    let listed = vec!["a.o".to_string(), "b.o".to_string(), "c.o".to_string()];
    let files = r.select_files("boot", &p, listed, USE).unwrap();
    assert_eq!(files, vec!["a.o".to_string(), "c.o".to_string()]);
    let d = r.select_files("boot", &p, vec!["b.o".to_string()], USE).unwrap_err();
    assert_eq!(d.code, "ERR_236");
    assert_eq!(d.message, "obj 'boot': file pattern '*.o' matched no files.");
    assert_eq!(d.primary, USE);
    assert_eq!(d.secondary, Some(DECL));
    let bad = props("*.o", "NOPE(.text)", "", "");
    let d = r.select_files("boot", &bad, vec!["a.o".to_string()], USE).unwrap_err();
    assert_eq!(d.code, "ERR_234");
    let bad = props("*.o", ".text", "", "SORT_BY_ALIGNMENT(");
    let d = r.select_files("boot", &bad, vec!["a.o".to_string()], USE).unwrap_err();
    assert_eq!(d.code, "ERR_233");
}

#[test]
fn unreadable_and_unrecognized_files() {
    let mut r = resolver_with("boot", props("*.o", ".text", "", ""));
    let d = r
        .cache_file_checked("gone.o", Err("No such file".to_string()), USE, DECL)
        .unwrap()
        .unwrap_err();
    assert_eq!(d.code, "ERR_118");
    assert_eq!(d.message, "Cannot read object file 'gone.o': No such file");
    assert_eq!(d.secondary, Some(DECL));
    let d = r
        .cache_file_checked("junk.o", Ok(b"not an object".as_slice()), USE, DECL)
        .unwrap()
        .unwrap_err();
    assert_eq!(d.code, "ERR_120");
    assert!(d.message.starts_with("'junk.o' is not a recognized object file format: "));
    let files = vec!["gone.o".to_string(), "junk.o".to_string()];
    assert_eq!(r.next_uncached(&files), Some(0));
}

#[test]
fn each_file_is_parsed_once() {
    let elf = tiny_elf();
    let mut r = resolver_with("boot", props("*.o", ".text", "", ""));
    let files = vec!["a.o".to_string()];
    assert_eq!(r.next_uncached(&files), Some(0));
    assert!(r.cache_file_checked("a.o", Ok(elf.as_slice()), USE, DECL).unwrap().is_ok());
    assert_eq!(r.next_uncached(&files), None);
    // Cached: the new contents are not even looked at.
    assert!(r.cache_file_checked("a.o", Err("gone".to_string()), USE, DECL).unwrap().is_ok());
}

fn resolved(sections: &str, section_exclude: &str) -> Result<Vec<ObjsecInfo>, firmion::objfile::Diagnostic> {
    let elf = tiny_elf();
    let p = props("*.o", sections, "", section_exclude);
    let mut r = resolver_with("boot", props("*.o", sections, "", section_exclude));
    let plan = r.plan_resolve("boot", USE).unwrap();
    assert_eq!(plan.name, p.name);
    let files = r.select_files("boot", &plan, vec!["a.o".to_string()], USE).unwrap();
    while let Some(i) = r.next_uncached(&files) {
        r.cache_file_checked(&files[i].clone(), Ok(elf.as_slice()), USE, DECL).unwrap().unwrap();
    }
    r.resolve_checked("boot", &plan, &files, USE).unwrap()
}

#[test]
fn resolve_one_section() {
    let infos = resolved(".text", "").unwrap();
    assert_eq!(infos.len(), 1);
    assert_eq!(infos[0].name, ".text");
    assert_eq!(infos[0].file, "a.o");
    assert_eq!(infos[0].file_offset, 120);
    assert_eq!(infos[0].size, 16);
    assert_eq!(infos[0].align, 16);
    assert_eq!(infos[0].vma, 0x1000);
    assert_eq!(infos[0].lma, 0x8000);
    assert_eq!(infos[0].src_loc, USE);
}

#[test]
fn resolve_sorted_by_alignment_is_contiguous() {
    let infos = resolved("SORT_BY_ALIGNMENT(.*t*)", ".shstrtab").unwrap();
    let names: Vec<&str> = infos.iter().map(|i| i.name.as_str()).collect();
    assert_eq!(names, vec![".text", ".data"]);
    assert_eq!(infos[1].lma, 0x8010);
}

#[test]
fn resolve_in_name_order_has_a_gap() {
    let d = resolved(".*t*", ".shstrtab").unwrap_err();
    assert_eq!(d.code, "ERR_235");
    assert_eq!(
        d.message,
        "obj 'boot': LMA of section '.text' in 'a.o' (0x8000) does not follow section '.data' in 'a.o' (0x8010 + 8 = 0x8018). Sections must be LMA-contiguous."
    );
    assert_eq!(d.primary, USE);
}

#[test]
fn resolve_nothing_matched() {
    let d = resolved(".bss", "").unwrap_err();
    assert_eq!(d.code, "ERR_119");
    assert_eq!(d.message, "Objsec pattern '.bss' matched no sections in the matched files.");
    assert_eq!(d.secondary, Some(DECL));
    let d = resolved(".text", ".text").unwrap_err();
    assert_eq!(d.code, "ERR_119");
}

#[test]
fn contiguity_check_reports_the_first_gap() {
    let ok = vec![info("a.o", "x", 0x100, 0x10), info("a.o", "y", 0x110, 0x20), info("b.o", "z", 0x130, 1)];
    assert!(check_lma_continuity("o", &ok, USE).is_ok());
    let gap = vec![info("a.o", "x", 0x100, 0x10), info("a.o", "y", 0x111, 0x20), info("b.o", "z", 0x200, 1)];
    let d = check_lma_continuity("o", &gap, USE).unwrap_err();
    assert_eq!(
        d.message,
        "obj 'o': LMA of section 'y' in 'a.o' (0x111) does not follow section 'x' in 'a.o' (0x100 + 16 = 0x110). Sections must be LMA-contiguous."
    );
    assert!(check_lma_continuity("o", &Vec::new(), USE).is_ok());
}

#[test]
fn section_table_keeps_one_entry_per_name_in_order() {
    let mut t = SectionTable::new();
    let p = |off: u64| ObjsecProps { file_offset: off, size: 1, align: 1, vma: 0, lma: None };
    t.put(".text".to_string(), p(1));
    t.put(".data".to_string(), p(2));
    t.put(".text".to_string(), p(3));
    t.put(".bss".to_string(), p(4));
    assert_eq!(t.len(), 3);
    assert_eq!(t.name_at(0), ".bss");
    assert_eq!(t.name_at(1), ".data");
    assert_eq!(t.name_at(2), ".text");
    assert_eq!(t.props_at(2).file_offset, 3);
}

/// A COFF object for i386 with one section `.text` (4 bytes at 0x100).
fn tiny_coff() -> Vec<u8> {
    let mut v = Vec::new();
    put16(&mut v, 0x14c);
    put16(&mut v, 1);
    put32(&mut v, 0);
    put32(&mut v, 0);
    put32(&mut v, 0);
    put16(&mut v, 0);
    put16(&mut v, 0);
    v.extend_from_slice(b".text\0\0\0");
    put32(&mut v, 4);
    put32(&mut v, 0x100);
    put32(&mut v, 4);
    put32(&mut v, 60);
    put32(&mut v, 0);
    put32(&mut v, 0);
    put16(&mut v, 0);
    put16(&mut v, 0);
    put32(&mut v, 0x6000_0020);
    assert_eq!(v.len(), 60);
    v.extend_from_slice(&[0xC3; 4]);
    v
}

#[test]
fn sections_of_other_formats_load_at_their_address() {
    let coff = tiny_coff();
    let mut r = resolver_with("boot", props("*.o", ".text", "", ""));
    let plan = r.plan_resolve("boot", USE).unwrap();
    let files = r.select_files("boot", &plan, vec!["a.obj".to_string()], USE).unwrap();
    assert!(r.cache_file_checked("a.obj", Ok(coff.as_slice()), USE, DECL).unwrap().is_ok());
    assert_eq!(r.next_uncached(&files), None);
    // COFF has no load segments: the section loads where it runs.
    let v = r.resolve_checked("boot", &plan, &files, USE).unwrap().unwrap();
    assert_eq!(v.len(), 1);
    assert_eq!(v[0].file, "a.obj");
    assert_eq!(v[0].name, ".text");
    assert_eq!(v[0].file_offset, 60);
    assert_eq!(v[0].size, 4);
    assert_eq!(v[0].align, 16);
    assert_eq!(v[0].vma, 0x100);
    assert_eq!(v[0].lma, 0x100);
}

#[test]
fn the_cache_only_grows() {
    let elf = tiny_elf();
    let mut r = resolver_with("boot", props("*.o", ".text", "", ""));
    let files = vec!["a.o".to_string(), "b.o".to_string()];
    // A failed read caches nothing.
    assert!(r.cache_file_checked("a.o", Err("busy".to_string()), USE, DECL).unwrap().is_err());
    assert_eq!(r.next_uncached(&files), Some(0));
    assert!(r.cache_file("a.o", Ok(elf.as_slice()), USE, DECL).is_ok());
    assert_eq!(r.next_uncached(&files), Some(1));
    // A failed parse of another file leaves the first one cached.
    assert!(r.cache_file("b.o", Ok(b"junk".as_slice()), USE, DECL).is_err());
    assert_eq!(r.next_uncached(&files), Some(1));
    assert!(r.cache_file("b.o", Ok(elf.as_slice()), USE, DECL).is_ok());
    assert_eq!(r.next_uncached(&files), None);
}

#[test]
fn resolving_again_gives_the_same_sections() {
    let elf = tiny_elf();
    let mut r = resolver_with("boot", props("*.o", "SORT_BY_ALIGNMENT(.*t*)", "", ".shstrtab"));
    let plan = r.plan_resolve("boot", USE).unwrap();
    let files = r.select_files("boot", &plan, vec!["a.o".to_string()], USE).unwrap();
    r.cache_file_checked("a.o", Ok(elf.as_slice()), USE, DECL).unwrap().unwrap();
    let first = r.resolve_checked("boot", &plan, &files, USE).unwrap().unwrap();
    // More files parsed, and the first one offered again with other bytes.
    r.cache_file_checked("z.o", Ok(elf.as_slice()), USE, DECL).unwrap().unwrap();
    r.cache_file_checked("a.o", Ok(b"changed".as_slice()), USE, DECL).unwrap().unwrap();
    let again = r.resolve_checked("boot", &plan, &files, USE).unwrap().unwrap();
    let key = |v: &Vec<ObjsecInfo>| -> Vec<(String, String, u64, u64, u64, u64, u64)> {
        v.iter().map(|i| (i.file.clone(), i.name.clone(), i.file_offset, i.size, i.align, i.vma, i.lma)).collect()
    };
    assert_eq!(key(&first), key(&again));
    assert_eq!(first.len(), 2);
}

fn candidate(name: &str, lma: u64) -> SectionCandidate {
    SectionCandidate {
        name: name.to_string(),
        file: "a.o".to_string(),
        file_offset: 4,
        size: 2,
        align: 8,
        vma: 0x10,
        lma,
    }
}

#[test]
fn excluded_names_are_dropped_from_the_selection() {
    let sel = vec![candidate(".text", 1), candidate(".data", 2), candidate(".text", 3), candidate(".bss", 4)];
    let excluded = vec![candidate(".text", 9)];
    let mut infos = vec![info("z.o", "keep", 0, 0)];
    push_infos(&mut infos, &sel, &excluded, USE);
    let names: Vec<&str> = infos.iter().map(|i| i.name.as_str()).collect();
    assert_eq!(names, vec!["keep", ".data", ".bss"]);
    assert_eq!(infos[1].lma, 2);
    assert_eq!(infos[1].file, "a.o");
    assert_eq!(infos[1].file_offset, 4);
    assert_eq!(infos[1].size, 2);
    assert_eq!(infos[1].align, 8);
    assert_eq!(infos[1].vma, 0x10);
    assert_eq!(infos[1].src_loc, USE);
    let mut none = Vec::new();
    push_infos(&mut none, &sel, &Vec::new(), USE);
    assert_eq!(none.len(), 4);
}

#[test]
fn excluded_paths_are_dropped_from_the_listing() {
    let listed = vec!["a.o".to_string(), "b.o".to_string(), "a.o".to_string(), "c.o".to_string()];
    let excluded = vec!["a.o".to_string(), "d.o".to_string()];
    assert_eq!(without_listed(&listed, &excluded), vec!["b.o".to_string(), "c.o".to_string()]);
    assert_eq!(without_listed(&listed, &Vec::new()), listed);
    assert!(without_listed(&Vec::new(), &excluded).is_empty());
}

#[test]
fn declarations_are_found_by_name() {
    let r = ObjFileResolver::new(vec![
        ObjDecl { obj_name: "boot".to_string(), props: props("b*.o", ".text", "", "") },
        ObjDecl { obj_name: "app".to_string(), props: props("a*.o", ".data", "", "") },
    ]);
    assert_eq!(r.plan_resolve("app", USE).unwrap().file, "a*.o");
    assert_eq!(r.plan_resolve("boot", USE).unwrap().name, ".text");
}

fn aligned(name: &str, align: u64) -> SectionCandidate {
    SectionCandidate {
        name: name.to_string(),
        file: "a.o".to_string(),
        file_offset: 0,
        size: 1,
        align,
        vma: 0,
        lma: 0,
    }
}

fn names_of(v: &[SectionCandidate]) -> Vec<&str> {
    v.iter().map(|c| c.name.as_str()).collect()
}

#[test]
fn section_patterns_select_then_sort() {
    let cands = vec![aligned(".text", 4), aligned(".data", 16), aligned(".rodata", 8), aligned(".bss", 16)];
    let v = select_sections(".*a*", &cands).unwrap();
    assert_eq!(names_of(&v), vec![".data", ".rodata"]);
    let v = select_sections("SORT_BY_ALIGNMENT(.*)", &cands).unwrap();
    assert_eq!(names_of(&v), vec![".data", ".bss", ".rodata", ".text"]);
    let v = select_sections("SORT_BY_ALIGNMENT(.*a*)", &cands).unwrap();
    assert_eq!(names_of(&v), vec![".data", ".rodata"]);
    let inits = vec![
        aligned(".init_array", 1),
        aligned(".init_array.00200", 1),
        aligned(".init_array.00100", 1),
        aligned(".text", 1),
    ];
    let v = select_sections("SORT_BY_INIT_PRIORITY(.init_array*)", &inits).unwrap();
    assert_eq!(names_of(&v), vec![".init_array.00100", ".init_array.00200", ".init_array"]);
    assert!(select_sections(".none", &cands).unwrap().is_empty());
}

#[test]
fn section_pattern_errors_do_not_depend_on_the_candidates() {
    let cands = vec![aligned(".text", 4)];
    for bad in ["NOPE(.text)", "SORT_BY_ALIGNMENT(.text", "[.text", ""] {
        let e = select_sections(bad, &cands).unwrap_err();
        let e0 = select_sections(bad, &Vec::new()).unwrap_err();
        assert_eq!(e.kind, e0.kind);
        assert_eq!(e.message, e0.message);
    }
    assert_eq!(select_sections("NOPE(.text)", &cands).unwrap_err().kind, GlobErrorKind::InvalidOperator);
}

#[test]
fn sections_are_packed_file_after_file() {
    let a = tiny_elf();
    let b = tiny_elf_at(0x8018);
    let mut r = resolver_with("boot", props("*.o", "SORT_BY_ALIGNMENT(.*t*)", "", ".shstrtab"));
    let plan = r.plan_resolve("boot", USE).unwrap();
    let files = r.select_files("boot", &plan, vec!["a.o".to_string(), "b.o".to_string()], USE).unwrap();
    r.cache_file_checked("a.o", Ok(a.as_slice()), USE, DECL).unwrap().unwrap();
    r.cache_file_checked("b.o", Ok(b.as_slice()), USE, DECL).unwrap().unwrap();
    let v = r.resolve_checked("boot", &plan, &files, USE).unwrap().unwrap();
    let got: Vec<(&str, &str, u64)> = v.iter().map(|i| (i.file.as_str(), i.name.as_str(), i.lma)).collect();
    assert_eq!(
        got,
        vec![("a.o", ".text", 0x8000), ("a.o", ".data", 0x8010), ("b.o", ".text", 0x8018), ("b.o", ".data", 0x8028)]
    );
}
