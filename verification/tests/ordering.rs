use firmion::order::{
    init_priority, numeric_suffix, sort_by_alignment, sort_by_init_priority, SectionCandidate,
};
use firmion::sections::name_lt;
use firmion::text::{push_decimal, push_hex_byte_prefixed, push_hex_prefixed};

fn cand(name: &str, align: u64) -> SectionCandidate {
    SectionCandidate {
        name: name.to_string(),
        file: "a.o".to_string(),
        file_offset: 0,
        size: 0,
        align,
        vma: 0,
        lma: 0,
    }
}

#[test]
fn init_priority_reads_the_numeric_suffix() {
    assert_eq!(init_priority(".init_array.00100"), 100);
    assert_eq!(init_priority(".init_array.5"), 5);
    assert_eq!(init_priority("42"), 42);
    assert_eq!(init_priority("x.+7"), 7);
    assert_eq!(init_priority("x.18446744073709551615"), u64::MAX);
}

#[test]
fn init_priority_without_number_is_max() {
    assert_eq!(init_priority(".init_array"), u64::MAX);
    assert_eq!(init_priority(".text"), u64::MAX);
    assert_eq!(init_priority(""), u64::MAX);
    assert_eq!(init_priority("a."), u64::MAX);
    assert_eq!(init_priority("a.+"), u64::MAX);
    assert_eq!(init_priority("a.-1"), u64::MAX);
    assert_eq!(init_priority("a.12x"), u64::MAX);
    assert_eq!(init_priority("a.18446744073709551616"), u64::MAX);
    assert_eq!(init_priority("a.99999999999999999999999"), u64::MAX);
    assert_eq!(init_priority("a.１２"), u64::MAX);
}

#[test]
fn sort_by_alignment_is_descending_and_stable() {
    let cs = vec![cand("a", 4), cand("b", 16), cand("c", 4), cand("d", 8), cand("e", 16)];
    let mut refs: Vec<&SectionCandidate> = cs.iter().collect();
    sort_by_alignment(&mut refs);
    let names: Vec<&str> = refs.iter().map(|c| c.name.as_str()).collect();
    assert_eq!(names, vec!["b", "e", "d", "a", "c"]);
}

#[test]
fn sort_by_init_priority_is_ascending_and_unnumbered_last() {
    let cs = vec![
        cand(".init_array", 1),
        cand(".init_array.00200", 1),
        cand(".init_array.00100", 1),
        cand(".init_array.x", 1),
        cand(".init_array.100", 1),
    ];
    let mut refs: Vec<&SectionCandidate> = cs.iter().collect();
    sort_by_init_priority(&mut refs);
    let names: Vec<&str> = refs.iter().map(|c| c.name.as_str()).collect();
    assert_eq!(
        names,
        vec![
            ".init_array.00100",
            ".init_array.100",
            ".init_array.00200",
            ".init_array",
            ".init_array.x"
        ]
    );
}

#[test]
fn sorting_nothing_and_sorting_twice() {
    let mut empty: Vec<&SectionCandidate> = Vec::new();
    sort_by_alignment(&mut empty);
    assert!(empty.is_empty());
    let cs = vec![cand("a", 2), cand("b", 8), cand("c", 2)];
    let mut refs: Vec<&SectionCandidate> = cs.iter().collect();
    sort_by_alignment(&mut refs);
    let once: Vec<String> = refs.iter().map(|c| c.name.clone()).collect();
    sort_by_alignment(&mut refs);
    let twice: Vec<String> = refs.iter().map(|c| c.name.clone()).collect();
    assert_eq!(once, twice);
}

#[test]
fn names_compare_by_characters() {
    assert!(name_lt(".data", ".text"));
    assert!(!name_lt(".text", ".data"));
    assert!(name_lt(".text", ".text.hot"));
    assert!(!name_lt(".text", ".text"));
    assert!(name_lt("", "a"));
    assert!(!name_lt("a", ""));
}

#[test]
fn numbers_render_as_format_does() {
    let mut s = String::new();
    push_decimal(&mut s, 0);
    s.push(' ');
    push_decimal(&mut s, 1234567890);
    s.push(' ');
    push_hex_prefixed(&mut s, 0);
    s.push(' ');
    push_hex_prefixed(&mut s, 0x1F00);
    s.push(' ');
    push_hex_prefixed(&mut s, u64::MAX);
    s.push(' ');
    push_hex_byte_prefixed(&mut s, 0x0A);
    assert_eq!(s, format!("{} {} {:#X} {:#X} {:#X} {:#04X}", 0, 1234567890u64, 0, 0x1F00, u64::MAX, 0x0Au8));
}

#[test]
fn numeric_suffix_is_the_parsed_number_after_the_last_dot() {
    assert_eq!(numeric_suffix(".init_array.00100"), Some(100));
    assert_eq!(numeric_suffix("a.b.7"), Some(7));
    assert_eq!(numeric_suffix("a.+7"), Some(7));
    assert_eq!(numeric_suffix("x.18446744073709551615"), Some(u64::MAX));
    assert_eq!(numeric_suffix("x.18446744073709551616"), None);
    assert_eq!(numeric_suffix(".init_array"), None);
    assert_eq!(numeric_suffix("a."), None);
    assert_eq!(numeric_suffix("7.a"), None);
}

#[test]
fn the_largest_suffix_still_sorts_before_no_suffix() {
    let cs = vec![cand(".init_array", 1), cand(".init_array.18446744073709551615", 1)];
    let mut refs: Vec<&SectionCandidate> = cs.iter().collect();
    sort_by_init_priority(&mut refs);
    let names: Vec<&str> = refs.iter().map(|c| c.name.as_str()).collect();
    assert_eq!(names, vec![".init_array.18446744073709551615", ".init_array"]);
}

#[test]
fn formatted_priorities_read_back() {
    for n in [0u64, 7, 100, 65535, 1234567, u64::MAX] {
        for p in ["", ".init_array", "a.b", ".fini_array"] {
            assert_eq!(init_priority(&format!("{}.{}", p, n)), n);
            assert_eq!(init_priority(&format!("{}.{:05}", p, n)), n);
            assert_eq!(init_priority(&format!("{}.{:030}", p, n)), n);
        }
    }
}
