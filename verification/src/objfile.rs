//! Resolution of `obj` declarations to the ordered sections that are packed
//! into the output: file and section patterns, exclusions, the section order
//! operators, and the check that the packed sections are LMA-contiguous.
//!
//! Resolution runs in steps, with the file system between them:
//! `plan_resolve` finds the declaration and checks its file pattern; the
//! caller lists the files that the pattern matches on disk; `select_files`
//! applies the file exclusion and checks the section patterns; the caller
//! reads each file that `next_uncached` names and hands its contents to
//! `cache_file_checked`, which parses it (each file once); `resolve_checked`
//! then selects, orders and checks the sections. The first failure ends
//! resolution with its diagnostic.

use crate::glob::{
    alignment_keys, applied, glob_paths, glob_paths_outcome, glob_sections, glob_sections_outcome,
    is_operator_name, priority_keys, GlobError, GlobErrorKind, SORT_BY_ALIGNMENT,
    SORT_BY_INIT_PRIORITY,
};
use crate::order::is_stable_sort_of;
use crate::lma::{
    lemma_first_holder_gives_load_address, lemma_lma_arithmetic_fits_when_addresses_fit,
    lemma_unloaded_section_lma_is_vma, lma_arithmetic_check,
    lma_arithmetic_fits, ObjectFormat, ObjsecProps, PT_LOAD,
};
use crate::objparse::{
    elf_program_headers, object_parse_outcome, object_program_headers, object_section_list,
    object_sections, parse_object, RawSection,
};
use crate::order::{candidates_view, SectionCandidate, SectionCandidateView};
use crate::sections::{
    entry_props, lemma_name_order_total, lemma_table_of_sections_unplaced, name_less, name_lt, table_of_sections, table_with_lma,
    SectionEntry, SectionTable,
};
use crate::text::{decimal, hex_prefixed, push_decimal, push_hex_prefixed};
use vstd::prelude::*;

verus! {

/// A place in a source script.
#[derive(Clone, Copy, Debug, PartialEq, Eq, Structural)]
pub struct SourceSpan {
    pub start: usize,
    pub end: usize,
}

/// A diagnostic: its code, its text, where it points, and where else.
#[derive(Debug)]
pub struct Diagnostic {
    pub code: &'static str,
    pub message: String,
    pub primary: SourceSpan,
    pub secondary: Option<SourceSpan>,
}

/// A `Diagnostic` as plain values.
pub struct DiagnosticView {
    pub code: Seq<char>,
    pub message: Seq<char>,
    pub primary: SourceSpan,
    pub secondary: Option<SourceSpan>,
}

impl View for Diagnostic {
    type V = DiagnosticView;

    open spec fn view(&self) -> DiagnosticView {
        DiagnosticView {
            code: self.code@,
            message: self.message@,
            primary: self.primary,
            secondary: self.secondary,
        }
    }
}

/// One section placed in the output: where its bytes are, and its addresses.
#[derive(Debug)]
pub struct ObjsecInfo {
    pub file: String,
    pub name: String,
    pub file_offset: u64,
    pub size: u64,
    pub align: u64,
    pub vma: u64,
    pub lma: u64,
    pub src_loc: SourceSpan,
}

/// An `ObjsecInfo` as plain values.
pub struct ObjsecInfoView {
    pub file: Seq<char>,
    pub name: Seq<char>,
    pub file_offset: u64,
    pub size: u64,
    pub align: u64,
    pub vma: u64,
    pub lma: u64,
    pub src_loc: SourceSpan,
}

impl View for ObjsecInfo {
    type V = ObjsecInfoView;

    open spec fn view(&self) -> ObjsecInfoView {
        ObjsecInfoView {
            file: self.file@,
            name: self.name@,
            file_offset: self.file_offset,
            size: self.size,
            align: self.align,
            vma: self.vma,
            lma: self.lma,
            src_loc: self.src_loc,
        }
    }
}

/// The views of a list of placed sections.
pub open spec fn infos_view(v: Seq<ObjsecInfo>) -> Seq<ObjsecInfoView> {
    v.map_values(|i: ObjsecInfo| i@)
}

/// The code of the diagnostic for a bad pattern: unknown operators have their
/// own, every other pattern error shares one.
pub open spec fn glob_error_code(kind: GlobErrorKind) -> Seq<char> {
    if kind == GlobErrorKind::InvalidOperator {
        "ERR_234"@
    } else {
        "ERR_233"@
    }
}

/// The diagnostic for the pattern error `e` of the declaration at `src_loc`.
pub open spec fn glob_diagnostic(e: (GlobErrorKind, Seq<char>), src_loc: SourceSpan) -> DiagnosticView {
    DiagnosticView { code: glob_error_code(e.0), message: e.1, primary: src_loc, secondary: None }
}

/// Reports the pattern error `e` of the declaration at `src_loc`.
pub fn emit_glob_error(e: &GlobError, src_loc: SourceSpan) -> (d: Diagnostic)
    ensures
        d@ == glob_diagnostic(e@, src_loc),
{
    let code = match e.kind {
        GlobErrorKind::InvalidOperator => "ERR_234",
        _ => "ERR_233",
    };
    Diagnostic { code, message: e.message.clone(), primary: src_loc, secondary: None }
}

/// The first position `i` at which the section does not start where the one
/// before it ends (its LMA is not the previous LMA plus the previous size).
pub open spec fn first_lma_gap(infos: Seq<ObjsecInfoView>) -> Option<int>
    decreases infos.len(),
{
    if infos.len() < 2 {
        None
    } else {
        match first_lma_gap(infos.drop_last()) {
            Some(i) => Some(i),
            None => {
                let prev = infos[infos.len() - 2];
                if prev.lma + prev.size != infos.last().lma {
                    Some(infos.len() - 1)
                } else {
                    None
                }
            },
        }
    }
}

/// No end address that the contiguity check computes overflows `u64`: every
/// section up to the first gap, bar the last, ends within range.
pub open spec fn lma_ends_fit(infos: Seq<ObjsecInfoView>) -> bool {
    forall|i: int|
        1 <= i < infos.len() && #[trigger] first_lma_gap(infos.take(i)) is None ==> infos[i - 1].lma
            + infos[i - 1].size <= u64::MAX
}

/// The text of the diagnostic for a gap before `curr` in the sections of `obj_name`.
pub open spec fn lma_gap_message(
    obj_name: Seq<char>,
    prev: ObjsecInfoView,
    curr: ObjsecInfoView,
) -> Seq<char> {
    "obj '"@ + obj_name + "': LMA of section '"@ + curr.name + "' in '"@ + curr.file + "' ("@
        + hex_prefixed(curr.lma as nat) + ") does not follow section '"@ + prev.name + "' in '"@
        + prev.file + "' ("@ + hex_prefixed(prev.lma as nat) + " + "@ + decimal(prev.size as nat)
        + " = "@ + hex_prefixed((prev.lma + prev.size) as nat)
        + "). Sections must be LMA-contiguous."@
}

/// What the contiguity check reports of the packed sections of `obj_name`.
pub open spec fn lma_continuity_outcome(
    obj_name: Seq<char>,
    infos: Seq<ObjsecInfoView>,
    use_loc: SourceSpan,
) -> Result<(), DiagnosticView> {
    match first_lma_gap(infos) {
        None => Ok(()),
        Some(i) => Err(
            DiagnosticView {
                code: "ERR_235"@,
                message: lma_gap_message(obj_name, infos[i - 1], infos[i]),
                primary: use_loc,
                secondary: None,
            },
        ),
    }
}

proof fn lemma_first_lma_gap_prefix(infos: Seq<ObjsecInfoView>, i: int)
    requires
        1 <= i < infos.len(),
    ensures
        first_lma_gap(infos.take(i + 1)) == match first_lma_gap(infos.take(i)) {
            Some(g) => Some(g),
            None => if infos[i - 1].lma + infos[i - 1].size != infos[i].lma {
                Some(i)
            } else {
                None
            },
        },
{
    assert(infos.take(i + 1).drop_last() =~= infos.take(i));
}

/// Checks that each packed section starts where the one before it ends, so that
/// the packed output is one contiguous image slice.
pub fn check_lma_continuity(obj_name: &str, infos: &Vec<ObjsecInfo>, use_loc: SourceSpan) -> (r: Result<
    (),
    Diagnostic,
>)
    requires
        lma_ends_fit(infos_view(infos@)),
    ensures
        match (r, lma_continuity_outcome(obj_name@, infos_view(infos@), use_loc)) {
            (Ok(()), Ok(())) => true,
            (Err(d), Err(v)) => d@ == v,
            _ => false,
        },
{
    let ghost v = infos_view(infos@);
    let mut i: usize = 1;
    if infos.len() < 2 {
        return Ok(());
    }
    while i < infos.len()
        invariant
            1 <= i <= infos@.len(),
            v == infos_view(infos@),
            lma_ends_fit(v),
            first_lma_gap(v.take(i as int)) is None,
        decreases infos@.len() - i,
    {
        proof {
            lemma_first_lma_gap_prefix(v, i as int);
        }
        let prev = &infos[i - 1];
        let curr = &infos[i];
        let end = prev.lma + prev.size;
        if end != curr.lma {
            proof {
                lemma_first_lma_gap_stays(v, i as int + 1);
            }
            let mut m = String::from_str("obj '");
            m.append(obj_name);
            m.append("': LMA of section '");
            m.append(curr.name.as_str());
            m.append("' in '");
            m.append(curr.file.as_str());
            m.append("' (");
            push_hex_prefixed(&mut m, curr.lma);
            m.append(") does not follow section '");
            m.append(prev.name.as_str());
            m.append("' in '");
            m.append(prev.file.as_str());
            m.append("' (");
            push_hex_prefixed(&mut m, prev.lma);
            m.append(" + ");
            push_decimal(&mut m, prev.size);
            m.append(" = ");
            push_hex_prefixed(&mut m, end);
            m.append("). Sections must be LMA-contiguous.");
            return Err(Diagnostic { code: "ERR_235", message: m, primary: use_loc, secondary: None });
        }
        i += 1;
    }
    assert(v.take(i as int) =~= v);
    Ok(())
}

proof fn lemma_first_lma_gap_stays(infos: Seq<ObjsecInfoView>, n: int)
    requires
        2 <= n <= infos.len(),
        first_lma_gap(infos.take(n)) is Some,
    ensures
        first_lma_gap(infos) == first_lma_gap(infos.take(n)),
    decreases infos.len() - n,
{
    if n < infos.len() {
        lemma_first_lma_gap_prefix(infos, n);
        lemma_first_lma_gap_stays(infos, n + 1);
    } else {
        assert(infos.take(n) =~= infos);
    }
}

/// What an `obj` declaration says: the file pattern, the section pattern, the
/// optional exclusion patterns (empty where there is none), and where it stands.
#[derive(Debug)]
pub struct ObjProps {
    pub file: String,
    pub name: String,
    pub file_exclude: String,
    pub section_exclude: String,
    pub src_loc: SourceSpan,
}

/// An `ObjProps` as plain values.
pub struct ObjPropsView {
    pub file: Seq<char>,
    pub name: Seq<char>,
    pub file_exclude: Seq<char>,
    pub section_exclude: Seq<char>,
    pub src_loc: SourceSpan,
}

impl View for ObjProps {
    type V = ObjPropsView;

    open spec fn view(&self) -> ObjPropsView {
        ObjPropsView {
            file: self.file@,
            name: self.name@,
            file_exclude: self.file_exclude@,
            section_exclude: self.section_exclude@,
            src_loc: self.src_loc,
        }
    }
}

impl ObjProps {
    /// A copy of the declaration.
    pub fn duplicate(&self) -> (r: ObjProps)
        ensures
            r@ == self@,
    {
        ObjProps {
            file: self.file.clone(),
            name: self.name.clone(),
            file_exclude: self.file_exclude.clone(),
            section_exclude: self.section_exclude.clone(),
            src_loc: self.src_loc,
        }
    }
}

/// A named `obj` declaration.
#[derive(Debug)]
pub struct ObjDecl {
    pub obj_name: String,
    pub props: ObjProps,
}

/// The value of the first pair of `s` whose key is `key`.
pub open spec fn find_first<V>(s: Seq<(Seq<char>, V)>, key: Seq<char>) -> Option<V>
    decreases s.len(),
{
    if s.len() == 0 {
        None
    } else if s[0].0 == key {
        Some(s[0].1)
    } else {
        find_first(s.drop_first(), key)
    }
}

proof fn lemma_find_first<V>(s: Seq<(Seq<char>, V)>, key: Seq<char>, i: int)
    requires
        0 <= i <= s.len(),
        forall|j: int| 0 <= j < i ==> (#[trigger] s[j]).0 != key,
    ensures
        i < s.len() && s[i].0 == key ==> find_first(s, key) == Some(s[i].1),
        i == s.len() ==> find_first(s, key) is None,
    decreases i,
{
    if i > 0 {
        lemma_find_first(s.drop_first(), key, i - 1);
    }
}

/// No two pairs of `s` have the same key, as in a map.
pub open spec fn distinct_keys<V>(s: Seq<(Seq<char>, V)>) -> bool {
    forall|i: int, j: int| #![trigger s[i], s[j]] 0 <= i < j < s.len() ==> s[i].0 != s[j].0
}

proof fn lemma_find_first_absent<V>(s: Seq<(Seq<char>, V)>, key: Seq<char>)
    requires
        find_first(s, key) is None,
    ensures
        forall|j: int| 0 <= j < s.len() ==> (#[trigger] s[j]).0 != key,
    decreases s.len(),
{
    if s.len() > 0 {
        lemma_find_first_absent(s.drop_first(), key);
        assert forall|j: int| 0 <= j < s.len() implies (#[trigger] s[j]).0 != key by {
            if j > 0 {
                assert(s[j] == s.drop_first()[j - 1]);
            }
        }
    }
}

/// What a list finds for a key it holds stays what a longer list that starts
/// with it finds: entries added behind never shadow earlier ones.
pub proof fn lemma_find_first_prefix<V>(s: Seq<(Seq<char>, V)>, t: Seq<(Seq<char>, V)>, key: Seq<char>)
    requires
        s.is_prefix_of(t),
        find_first(s, key) is Some,
    ensures
        find_first(t, key) == find_first(s, key),
    decreases s.len(),
{
    assert(t[0] == s[0]);
    if s[0].0 != key {
        assert(s.drop_first() =~= t.drop_first().subrange(0, s.len() - 1));
        lemma_find_first_prefix(s.drop_first(), t.drop_first(), key);
    }
}

/// Compares two names for equality, character by character.
pub fn name_eq(a: &str, b: &str) -> (r: bool)
    ensures
        r == (a@ == b@),
{
    proof {
        lemma_name_order_total(a@, b@);
    }
    !name_lt(a, b) && !name_lt(b, a)
}

/// The diagnostic for an unknown `obj` name.
pub open spec fn unknown_obj_diagnostic(obj_name: Seq<char>, use_loc: SourceSpan) -> DiagnosticView {
    DiagnosticView {
        code: "ERR_117"@,
        message: "Unknown obj name '"@ + obj_name + "'"@,
        primary: use_loc,
        secondary: None,
    }
}

/// Resolving `obj_name` starts with finding its declaration and checking its
/// file pattern: the declaration, or the diagnostic.
pub open spec fn plan_outcome(
    decls: Seq<(Seq<char>, ObjPropsView)>,
    obj_name: Seq<char>,
    use_loc: SourceSpan,
) -> Result<ObjPropsView, DiagnosticView> {
    match find_first(decls, obj_name) {
        None => Err(unknown_obj_diagnostic(obj_name, use_loc)),
        Some(p) => match glob_paths_outcome(p.file, Seq::empty()) {
            Err(e) => Err(glob_diagnostic(e, p.src_loc)),
            Ok(_) => Ok(p),
        },
    }
}

/// `paths` without those that `excluded` lists, in order.
pub open spec fn without_paths(paths: Seq<Seq<char>>, excluded: Seq<Seq<char>>) -> Seq<Seq<char>>
    decreases paths.len(),
{
    if paths.len() == 0 {
        paths
    } else {
        let rest = without_paths(paths.drop_last(), excluded);
        if excluded.contains(paths.last()) {
            rest
        } else {
            rest.push(paths.last())
        }
    }
}

/// The diagnostic for a file pattern that selects no file.
pub open spec fn no_files_diagnostic(
    obj_name: Seq<char>,
    p: ObjPropsView,
    use_loc: SourceSpan,
) -> DiagnosticView {
    DiagnosticView {
        code: "ERR_236"@,
        message: "obj '"@ + obj_name + "': file pattern '"@ + p.file + "' matched no files."@,
        primary: use_loc,
        secondary: Some(p.src_loc),
    }
}

/// The files that a declaration selects from the paths `listed` that its file
/// pattern found, once its exclusion pattern has removed its own matches; or the
/// diagnostic: a bad exclusion pattern, no file left, or a bad section pattern.
pub open spec fn file_selection_outcome(
    obj_name: Seq<char>,
    p: ObjPropsView,
    listed: Seq<Seq<char>>,
    use_loc: SourceSpan,
) -> Result<Seq<Seq<char>>, DiagnosticView> {
    let selected = if p.file_exclude.len() == 0 {
        Ok(listed)
    } else {
        match glob_paths_outcome(p.file_exclude, listed) {
            Err(e) => Err(glob_diagnostic(e, p.src_loc)),
            Ok(ex) => Ok(without_paths(listed, ex)),
        }
    };
    match selected {
        Err(d) => Err(d),
        Ok(files) => if files.len() == 0 {
            Err(no_files_diagnostic(obj_name, p, use_loc))
        } else {
            match section_patterns_error(p) {
                Some(e) => Err(glob_diagnostic(e, p.src_loc)),
                None => Ok(files),
            }
        },
    }
}

/// The error of the declaration's section pattern, else of its section
/// exclusion pattern where it has one; `None` where both are sound. Whether a
/// pattern is sound does not depend on what it runs over.
pub open spec fn section_patterns_error(p: ObjPropsView) -> Option<(GlobErrorKind, Seq<char>)> {
    match glob_sections_outcome(p.name, SORT_BY_ALIGNMENT@, SORT_BY_INIT_PRIORITY@, Seq::empty()) {
        Err(e) => Some(e),
        Ok(_) => if p.section_exclude.len() == 0 {
            None
        } else {
            match glob_sections_outcome(
                p.section_exclude,
                SORT_BY_ALIGNMENT@,
                SORT_BY_INIT_PRIORITY@,
                Seq::empty(),
            ) {
                Err(e) => Some(e),
                Ok(_) => None,
            }
        },
    }
}

/// What the section pattern `pattern` selects from `candidates`, in the order
/// its operators leave them.
pub open spec fn selected_sections(pattern: Seq<char>, candidates: Seq<SectionCandidateView>) -> Seq<
    SectionCandidateView,
> {
    glob_sections_outcome(pattern, SORT_BY_ALIGNMENT@, SORT_BY_INIT_PRIORITY@, candidates)->Ok_0
}

/// The diagnostic for an object file that cannot be read.
pub open spec fn unreadable_diagnostic(
    path: Seq<char>,
    reason: Seq<char>,
    use_loc: SourceSpan,
    decl_loc: SourceSpan,
) -> DiagnosticView {
    DiagnosticView {
        code: "ERR_118"@,
        message: "Cannot read object file '"@ + path + "': "@ + reason,
        primary: use_loc,
        secondary: Some(decl_loc),
    }
}

/// The diagnostic for a file that is no object file the `object` crate knows.
pub open spec fn unrecognized_diagnostic(
    path: Seq<char>,
    reason: Seq<char>,
    use_loc: SourceSpan,
    decl_loc: SourceSpan,
) -> DiagnosticView {
    DiagnosticView {
        code: "ERR_120"@,
        message: "'"@ + path + "' is not a recognized object file format: "@ + reason,
        primary: use_loc,
        secondary: Some(decl_loc),
    }
}

/// The section table that the object file `data` gives: its named sections
/// with file bytes, with load addresses assigned for ELF files.
pub open spec fn parsed_table(data: Seq<u8>) -> Seq<SectionEntry> {
    table_with_lma(
        table_of_sections(object_section_list(data)),
        object_parse_outcome(data)->Ok_0,
        object_program_headers(data),
    )
}

/// LMA assignment on the object file `data` does no arithmetic that overflows.
pub open spec fn parsed_lma_fits(data: Seq<u8>) -> bool {
    object_parse_outcome(data) is Ok && object_parse_outcome(data)->Ok_0 != ObjectFormat::Other
        ==> lma_arithmetic_fits(
        object_program_headers(data),
        entry_props(table_of_sections(object_section_list(data))),
    )
}

/// Resolves `obj` declarations to the ordered sections packed into the output.
/// Each object file is parsed at most once; later references use the table kept.
pub struct ObjFileResolver {
    obj_props: Vec<ObjDecl>,
    cache_paths: Vec<String>,
    cache_tables: Vec<SectionTable>,
}

impl ObjFileResolver {
    /// The declarations, by name, in the order given.
    pub closed spec fn decls(&self) -> Seq<(Seq<char>, ObjPropsView)> {
        self.obj_props@.map_values(|d: ObjDecl| (d.obj_name@, d.props@))
    }

    /// The object files parsed so far, each with its section table.
    pub closed spec fn cache(&self) -> Seq<(Seq<char>, Seq<SectionEntry>)> {
        Seq::new(
            self.cache_paths@.len(),
            |i: int| (self.cache_paths@[i]@, self.cache_tables@[i].entries()),
        )
    }

    /// The resolver's tables are well formed.
    pub closed spec fn wf(&self) -> bool {
        &&& self.cache_paths@.len() == self.cache_tables@.len()
        &&& forall|i: int| 0 <= i < self.cache_tables@.len() ==> (#[trigger] self.cache_tables@[i]).wf()
        &&& distinct_keys(self.decls())
        &&& distinct_keys(self.cache())
    }

    /// A resolver holds each declaration name once, as the map of
    /// declarations it was made from does, and each parsed file once.
    pub proof fn lemma_keys_distinct(&self)
        requires
            self.wf(),
        ensures
            distinct_keys(self.decls()),
            distinct_keys(self.cache()),
    {
    }

    /// A resolver over the declarations `obj_props`, which name each `obj`
    /// once, with no file parsed yet.
    pub fn new(obj_props: Vec<ObjDecl>) -> (r: Self)
        requires
            distinct_keys(obj_props@.map_values(|d: ObjDecl| (d.obj_name@, d.props@))),
        ensures
            r.wf(),
            r.decls() == obj_props@.map_values(|d: ObjDecl| (d.obj_name@, d.props@)),
            r.cache() == Seq::<(Seq<char>, Seq<SectionEntry>)>::empty(),
    {
        let r = ObjFileResolver { obj_props, cache_paths: Vec::new(), cache_tables: Vec::new() };
        assert(r.cache() =~= Seq::<(Seq<char>, Seq<SectionEntry>)>::empty());
        r
    }

    /// Finds the declaration of `obj_name` and checks its file pattern.
    pub fn plan_resolve(&self, obj_name: &str, use_loc: SourceSpan) -> (r: Result<ObjProps, Diagnostic>)
        ensures
            match (r, plan_outcome(self.decls(), obj_name@, use_loc)) {
                (Ok(p), Ok(v)) => p@ == v,
                (Err(d), Err(v)) => d@ == v,
                _ => false,
            },
    {
        let ghost decls = self.decls();
        let mut i: usize = 0;
        while i < self.obj_props.len()
            invariant
                i <= self.obj_props@.len(),
                decls == self.decls(),
                forall|j: int| 0 <= j < i ==> (#[trigger] decls[j]).0 != obj_name@,
            decreases self.obj_props@.len() - i,
        {
            if name_eq(self.obj_props[i].obj_name.as_str(), obj_name) {
                proof {
                    lemma_find_first(decls, obj_name@, i as int);
                }
                let p = self.obj_props[i].props.duplicate();
                let no_paths: Vec<String> = Vec::new();
                assert(no_paths@.map_values(|q: String| q@) =~= Seq::<Seq<char>>::empty());
                return match glob_paths(p.file.as_str(), &no_paths) {
                    Err(e) => Err(emit_glob_error(&e, p.src_loc)),
                    Ok(_) => Ok(p),
                };
            }
            i += 1;
        }
        proof {
            lemma_find_first(decls, obj_name@, i as int);
        }
        let mut m = String::from_str("Unknown obj name '");
        m.append(obj_name);
        m.append("'");
        Err(Diagnostic { code: "ERR_117", message: m, primary: use_loc, secondary: None })
    }

    /// Takes the paths that the declaration's file pattern found on disk and
    /// applies its file exclusion; checks that some file is left and that its
    /// section patterns are well formed. Gives the files, in order.
    pub fn select_files(
        &self,
        obj_name: &str,
        props: &ObjProps,
        listed: Vec<String>,
        use_loc: SourceSpan,
    ) -> (r: Result<Vec<String>, Diagnostic>)
        ensures
            match (r, file_selection_outcome(obj_name@, props@, paths_view(listed@), use_loc)) {
                (Ok(v), Ok(w)) => paths_view(v@) == w,
                (Err(d), Err(w)) => d@ == w,
                _ => false,
            },
    {
        let files: Vec<String> = if props.file_exclude.as_str().is_empty() {
            listed
        } else {
            match glob_paths(props.file_exclude.as_str(), &listed) {
                Err(e) => {
                    return Err(emit_glob_error(&e, props.src_loc));
                },
                Ok(ex) => without_listed(&listed, &ex),
            }
        };
        if files.len() == 0 {
            let mut m = String::from_str("obj '");
            m.append(obj_name);
            m.append("': file pattern '");
            m.append(props.file.as_str());
            m.append("' matched no files.");
            return Err(
                Diagnostic {
                    code: "ERR_236",
                    message: m,
                    primary: use_loc,
                    secondary: Some(props.src_loc),
                },
            );
        }
        let no_candidates: Vec<SectionCandidate> = Vec::new();
        assert(no_candidates@.map_values(|c: SectionCandidate| c@) =~= Seq::<
            SectionCandidateView,
        >::empty());
        if let Err(e) = glob_sections(
            props.name.as_str(),
            SORT_BY_ALIGNMENT,
            SORT_BY_INIT_PRIORITY,
            &no_candidates,
        ) {
            return Err(emit_glob_error(&e, props.src_loc));
        }
        if !props.section_exclude.as_str().is_empty() {
            if let Err(e) = glob_sections(
                props.section_exclude.as_str(),
                SORT_BY_ALIGNMENT,
                SORT_BY_INIT_PRIORITY,
                &no_candidates,
            ) {
                return Err(emit_glob_error(&e, props.src_loc));
            }
        }
        Ok(files)
    }
}

/// The contents of a file as plain values: its bytes, or why it could not be read.
pub open spec fn contents_view(contents: Result<&[u8], String>) -> Result<Seq<u8>, Seq<char>> {
    match contents {
        Ok(d) => Ok(d@),
        Err(m) => Err(m@),
    }
}

/// What caching the file at `path` with the given contents does to the cache:
/// the cache after, and the outcome.
pub open spec fn cache_step(
    cache: Seq<(Seq<char>, Seq<SectionEntry>)>,
    path: Seq<char>,
    contents: Result<Seq<u8>, Seq<char>>,
    use_loc: SourceSpan,
    decl_loc: SourceSpan,
) -> (Seq<(Seq<char>, Seq<SectionEntry>)>, Result<(), DiagnosticView>) {
    if find_first(cache, path) is Some {
        (cache, Ok(()))
    } else {
        match contents {
            Err(m) => (cache, Err(unreadable_diagnostic(path, m, use_loc, decl_loc))),
            Ok(data) => match object_parse_outcome(data) {
                Err(m) => (cache, Err(unrecognized_diagnostic(path, m, use_loc, decl_loc))),
                Ok(_) => (cache.push((path, parsed_table(data))), Ok(())),
            },
        }
    }
}

/// Caching the file at `path` with the given contents would do LMA arithmetic
/// that overflows.
pub open spec fn cache_step_overflows(
    cache: Seq<(Seq<char>, Seq<SectionEntry>)>,
    path: Seq<char>,
    contents: Result<Seq<u8>, Seq<char>>,
) -> bool {
    find_first(cache, path) is None && contents is Ok && !parsed_lma_fits(contents->Ok_0)
}

/// The section table of the object file `data`, before LMA assignment.
fn table_of_file(data: &[u8]) -> (t: SectionTable)
    requires
        object_parse_outcome(data@) is Ok,
    ensures
        t.wf(),
        t.entries() == table_of_sections(object_section_list(data@)),
{
    let raws = object_sections(data);
    let ghost rv = raws@.map_values(|r: RawSection| r@);
    let mut table = SectionTable::new();
    let mut i: usize = 0;
    while i < raws.len()
        invariant
            i <= raws@.len(),
            rv == raws@.map_values(|r: RawSection| r@),
            rv == object_section_list(data@),
            table.wf(),
            table.entries() == table_of_sections(rv.take(i as int)),
        decreases raws@.len() - i,
    {
        assert(rv.take(i + 1).drop_last() =~= rv.take(i as int));
        let r = &raws[i];
        match (&r.name, r.file_range) {
            (Some(n), Some((offset, size))) => {
                table.put(
                    n.clone(),
                    ObjsecProps { file_offset: offset, size, align: r.align, vma: r.address, lma: None },
                );
            },
            _ => {},
        }
        i += 1;
    }
    assert(rv.take(i as int) =~= rv);
    table
}

impl ObjFileResolver {
    /// Where the cache holds the file at `path`, the position of its first entry.
    fn cached_index(&self, path: &str) -> (r: Option<usize>)
        requires
            self.wf(),
        ensures
            match r {
                Some(i) => i < self.cache().len() && self.cache()[i as int].0 == path@ && find_first(
                    self.cache(),
                    path@,
                ) == Some(self.cache()[i as int].1),
                None => find_first(self.cache(), path@) is None,
            },
    {
        let ghost c = self.cache();
        let mut i: usize = 0;
        while i < self.cache_paths.len()
            invariant
                self.wf(),
                c == self.cache(),
                i <= c.len(),
                forall|j: int| 0 <= j < i ==> (#[trigger] c[j]).0 != path@,
            decreases c.len() - i,
        {
            if name_eq(self.cache_paths[i].as_str(), path) {
                proof {
                    lemma_find_first(c, path@, i as int);
                }
                return Some(i);
            }
            i += 1;
        }
        proof {
            lemma_find_first(c, path@, i as int);
        }
        None
    }

    /// The position of the first of `files` that has not been parsed yet.
    pub fn next_uncached(&self, files: &Vec<String>) -> (r: Option<usize>)
        requires
            self.wf(),
        ensures
            match r {
                Some(i) => i < files@.len() && find_first(self.cache(), files@[i as int]@) is None
                    && forall|j: int|
                    0 <= j < i ==> find_first(self.cache(), (#[trigger] files@[j])@) is Some,
                None => forall|j: int|
                    0 <= j < files@.len() ==> find_first(self.cache(), (#[trigger] files@[j])@) is Some,
            },
    {
        let mut i: usize = 0;
        while i < files.len()
            invariant
                self.wf(),
                i <= files@.len(),
                forall|j: int| 0 <= j < i ==> find_first(self.cache(), (#[trigger] files@[j])@) is Some,
            decreases files@.len() - i,
        {
            if self.cached_index(files[i].as_str()).is_none() {
                return Some(i);
            }
            i += 1;
        }
        None
    }

    /// Parses the object file at `file_path`, whose contents the caller read,
    /// and keeps its section table; does nothing where it was parsed before.
    pub fn cache_file(
        &mut self,
        file_path: &str,
        contents: Result<&[u8], String>,
        use_loc: SourceSpan,
        decl_loc: SourceSpan,
    ) -> (r: Result<(), Diagnostic>)
        requires
            old(self).wf(),
            !cache_step_overflows(old(self).cache(), file_path@, contents_view(contents)),
        ensures
            final(self).wf(),
            final(self).decls() == old(self).decls(),
            old(self).cache().is_prefix_of(final(self).cache()),
            r is Ok <==> find_first(final(self).cache(), file_path@) is Some,
            final(self).cache() == cache_step(
                old(self).cache(),
                file_path@,
                contents_view(contents),
                use_loc,
                decl_loc,
            ).0,
            match (r, cache_step(
                old(self).cache(),
                file_path@,
                contents_view(contents),
                use_loc,
                decl_loc,
            ).1) {
                (Ok(()), Ok(())) => true,
                (Err(d), Err(v)) => d@ == v,
                _ => false,
            },
    {
        match self.cache_file_checked(file_path, contents, use_loc, decl_loc) {
            Some(r) => r,
            None => {
                proof {
                    assert(false);
                }
                Ok(())
            },
        }
    }

    /// `cache_file` where LMA assignment stays within `u64`; `None`, with the
    /// resolver unchanged, where it would overflow. The file is parsed once.
    pub fn cache_file_checked(
        &mut self,
        file_path: &str,
        contents: Result<&[u8], String>,
        use_loc: SourceSpan,
        decl_loc: SourceSpan,
    ) -> (r: Option<Result<(), Diagnostic>>)
        requires
            old(self).wf(),
        ensures
            final(self).wf(),
            final(self).decls() == old(self).decls(),
            r is None <==> cache_step_overflows(old(self).cache(), file_path@, contents_view(contents)),
            r is None ==> final(self).cache() == old(self).cache(),
            old(self).cache().is_prefix_of(final(self).cache()),
            r matches Some(x) ==> (x is Ok <==> find_first(final(self).cache(), file_path@) is Some),
            r is Some ==> final(self).cache() == cache_step(
                old(self).cache(),
                file_path@,
                contents_view(contents),
                use_loc,
                decl_loc,
            ).0,
            r matches Some(x) ==> match (x, cache_step(
                old(self).cache(),
                file_path@,
                contents_view(contents),
                use_loc,
                decl_loc,
            ).1) {
                (Ok(()), Ok(())) => true,
                (Err(d), Err(v)) => d@ == v,
                _ => false,
            },
    {
        proof {
            lemma_cache_grows(self.cache(), file_path@, contents_view(contents), use_loc, decl_loc);
        }
        if self.cached_index(file_path).is_some() {
            return Some(Ok(()));
        }
        let data = match contents {
            Ok(d) => d,
            Err(reason) => {
                let mut m = String::from_str("Cannot read object file '");
                m.append(file_path);
                m.append("': ");
                m.append(reason.as_str());
                return Some(
                    Err(
                        Diagnostic {
                            code: "ERR_118",
                            message: m,
                            primary: use_loc,
                            secondary: Some(decl_loc),
                        },
                    ),
                );
            },
        };
        let format = match parse_object(data) {
            Ok(f) => f,
            Err(reason) => {
                let mut m = String::from_str("'");
                m.append(file_path);
                m.append("' is not a recognized object file format: ");
                m.append(reason.as_str());
                return Some(
                    Err(
                        Diagnostic {
                            code: "ERR_120",
                            message: m,
                            primary: use_loc,
                            secondary: Some(decl_loc),
                        },
                    ),
                );
            },
        };
        let mut table = table_of_file(data);
        let headers = elf_program_headers(data);
        if format != ObjectFormat::Other {
            let props = table.props_list();
            if !lma_arithmetic_check(headers.as_slice(), &props) {
                return None;
            }
        }
        table.assign_lma(format, headers.as_slice());
        let ghost c = self.cache();
        proof {
            lemma_find_first_absent(c, file_path@);
        }
        self.cache_paths.push(String::from_str(file_path));
        self.cache_tables.push(table);
        assert(self.cache() =~= c.push((file_path@, parsed_table(data@))));
        Some(Ok(()))
    }
}

/// The load address of a parsed section: the one its load segment gave it,
/// else its own address. Formats without load segments (COFF, Mach-O) give
/// none, and their sections load where they run, as ELF sections outside
/// every segment do.
pub open spec fn load_address(p: ObjsecProps) -> u64 {
    match p.lma {
        Some(l) => l,
        None => p.vma,
    }
}

/// The section candidates that the table of `file` offers, in name order.
pub open spec fn candidates_of(entries: Seq<SectionEntry>, file: Seq<char>) -> Seq<SectionCandidateView> {
    Seq::new(
        entries.len(),
        |i: int|
            SectionCandidateView {
                name: entries[i].0,
                file: file,
                file_offset: entries[i].1.file_offset,
                size: entries[i].1.size,
                align: entries[i].1.align,
                vma: entries[i].1.vma,
                lma: load_address(entries[i].1),
            },
    )
}

/// `sel` without the candidates whose name is that of a candidate in `excluded`.
pub open spec fn without_named(
    sel: Seq<SectionCandidateView>,
    excluded: Seq<SectionCandidateView>,
) -> Seq<SectionCandidateView>
    decreases sel.len(),
{
    if sel.len() == 0 {
        sel
    } else {
        let rest = without_named(sel.drop_last(), excluded);
        if excluded.map_values(|c: SectionCandidateView| c.name).contains(sel.last().name) {
            rest
        } else {
            rest.push(sel.last())
        }
    }
}

/// The sections that the declaration `p` selects from the table of `file`, in
/// the order its operators leave them, once its exclusion pattern has removed
/// those with the name of one it matches; or the error of one of its patterns.
pub open spec fn file_section_outcome(
    p: ObjPropsView,
    entries: Seq<SectionEntry>,
    file: Seq<char>,
) -> Result<Seq<SectionCandidateView>, (GlobErrorKind, Seq<char>)> {
    let c = candidates_of(entries, file);
    match section_patterns_error(p) {
        Some(e) => Err(e),
        None => if p.section_exclude.len() == 0 {
            Ok(selected_sections(p.name, c))
        } else {
            Ok(without_named(selected_sections(p.name, c), selected_sections(p.section_exclude, c)))
        },
    }
}

/// The placed section that a selected candidate becomes, pointing at `use_loc`.
pub open spec fn info_of(c: SectionCandidateView, use_loc: SourceSpan) -> ObjsecInfoView {
    ObjsecInfoView {
        file: c.file,
        name: c.name,
        file_offset: c.file_offset,
        size: c.size,
        align: c.align,
        vma: c.vma,
        lma: c.lma,
        src_loc: use_loc,
    }
}

/// `info` is what one section of the table `entries` of `file` becomes when
/// packed, pointing at `use_loc`.
pub open spec fn from_table(
    info: ObjsecInfoView,
    entries: Seq<SectionEntry>,
    file: Seq<char>,
    use_loc: SourceSpan,
) -> bool {
    exists|j: int|
        0 <= j < entries.len() && info == info_of(#[trigger] candidates_of(entries, file)[j], use_loc)
}

/// `fi` says from which of `files` each of `infos` comes: the packed section
/// `infos[k]` names the file `files[fi[k]]` and is one of the sections of its
/// table, and the files follow one another in the order of `files`.
pub open spec fn packed_by(
    fi: Seq<int>,
    infos: Seq<ObjsecInfoView>,
    cache: Seq<(Seq<char>, Seq<SectionEntry>)>,
    files: Seq<Seq<char>>,
    use_loc: SourceSpan,
) -> bool {
    &&& fi.len() == infos.len()
    &&& forall|k: int|
        0 <= k < fi.len() ==> 0 <= #[trigger] fi[k] < files.len() && infos[k].file == files[fi[k]]
            && from_table(infos[k], cached_table(cache, files[fi[k]]), files[fi[k]], use_loc)
    &&& forall|k: int, l: int| 0 <= k <= l < fi.len() ==> #[trigger] fi[k] <= #[trigger] fi[l]
}

/// Each of the packed sections `infos` is a section of the table of one of
/// `files`, and names that file; the sections of one file stand together, file
/// after file in the order of `files`.
pub open spec fn packed_from_files(
    infos: Seq<ObjsecInfoView>,
    cache: Seq<(Seq<char>, Seq<SectionEntry>)>,
    files: Seq<Seq<char>>,
    use_loc: SourceSpan,
) -> bool {
    exists|fi: Seq<int>| packed_by(fi, infos, cache, files, use_loc)
}

proof fn lemma_without_named_from(sel: Seq<SectionCandidateView>, ex: Seq<SectionCandidateView>)
    ensures
        forall|i: int|
            0 <= i < without_named(sel, ex).len() ==> sel.contains(#[trigger] without_named(sel, ex)[i]),
    decreases sel.len(),
{
    if sel.len() > 0 {
        lemma_without_named_from(sel.drop_last(), ex);
        let w0 = without_named(sel.drop_last(), ex);
        assert forall|i: int| 0 <= i < without_named(sel, ex).len() implies sel.contains(
            #[trigger] without_named(sel, ex)[i],
        ) by {
            if i < w0.len() {
                assert(without_named(sel, ex)[i] == w0[i]);
                let j = choose|j: int| 0 <= j < sel.drop_last().len() && sel.drop_last()[j] == w0[i];
                assert(sel[j] == w0[i]);
            } else {
                assert(sel[sel.len() - 1] == without_named(sel, ex)[i]);
            }
        }
    }
}

/// The table that the cache keeps for `path`.
pub open spec fn cached_table(cache: Seq<(Seq<char>, Seq<SectionEntry>)>, path: Seq<char>) -> Seq<
    SectionEntry,
> {
    find_first(cache, path)->Some_0
}

/// The sections that the declaration `p` selects from `files`, file after file.
pub open spec fn gathered_sections(
    cache: Seq<(Seq<char>, Seq<SectionEntry>)>,
    p: ObjPropsView,
    files: Seq<Seq<char>>,
    use_loc: SourceSpan,
) -> Result<Seq<ObjsecInfoView>, (GlobErrorKind, Seq<char>)>
    decreases files.len(),
{
    if files.len() == 0 {
        Ok(Seq::empty())
    } else {
        match gathered_sections(cache, p, files.drop_last(), use_loc) {
            Err(e) => Err(e),
            Ok(acc) => match file_section_outcome(p, cached_table(cache, files.last()), files.last()) {
                Err(e) => Err(e),
                Ok(sel) => Ok(acc + sel.map_values(|c: SectionCandidateView| info_of(c, use_loc))),
            },
        }
    }
}

/// The diagnostic for a section pattern that selects nothing.
pub open spec fn no_sections_diagnostic(p: ObjPropsView, use_loc: SourceSpan) -> DiagnosticView {
    DiagnosticView {
        code: "ERR_119"@,
        message: "Objsec pattern '"@ + p.name + "' matched no sections in the matched files."@,
        primary: use_loc,
        secondary: Some(p.src_loc),
    }
}

/// What resolving `obj_name`, declared as `p`, over the parsed `files` gives:
/// the sections to pack, in order, or the diagnostic.
pub open spec fn resolve_outcome(
    cache: Seq<(Seq<char>, Seq<SectionEntry>)>,
    obj_name: Seq<char>,
    p: ObjPropsView,
    files: Seq<Seq<char>>,
    use_loc: SourceSpan,
) -> Result<Seq<ObjsecInfoView>, DiagnosticView> {
    match gathered_sections(cache, p, files, use_loc) {
        Err(e) => Err(glob_diagnostic(e, p.src_loc)),
        Ok(infos) => if infos.len() == 0 {
            Err(no_sections_diagnostic(p, use_loc))
        } else {
            match lma_continuity_outcome(obj_name, infos, use_loc) {
                Err(d) => Err(d),
                Ok(()) => Ok(infos),
            }
        },
    }
}

/// Every file of `files` has been parsed.
pub open spec fn all_cached(cache: Seq<(Seq<char>, Seq<SectionEntry>)>, files: Seq<Seq<char>>) -> bool {
    forall|j: int| 0 <= j < files.len() ==> find_first(cache, #[trigger] files[j]) is Some
}

/// Resolving would compute an end address that overflows `u64` in the
/// contiguity check.
pub open spec fn resolve_overflows(
    cache: Seq<(Seq<char>, Seq<SectionEntry>)>,
    p: ObjPropsView,
    files: Seq<Seq<char>>,
    use_loc: SourceSpan,
) -> bool {
    match gathered_sections(cache, p, files, use_loc) {
        Ok(infos) => !lma_ends_fit(infos),
        Err(_) => false,
    }
}

proof fn lemma_gathered_err_stays(
    cache: Seq<(Seq<char>, Seq<SectionEntry>)>,
    p: ObjPropsView,
    files: Seq<Seq<char>>,
    use_loc: SourceSpan,
    n: int,
)
    requires
        0 <= n <= files.len(),
        gathered_sections(cache, p, files.take(n), use_loc) is Err,
    ensures
        gathered_sections(cache, p, files, use_loc) == gathered_sections(cache, p, files.take(n), use_loc),
    decreases files.len() - n,
{
    if n < files.len() {
        assert(files.take(n + 1).drop_last() =~= files.take(n));
        lemma_gathered_err_stays(cache, p, files, use_loc, n + 1);
    } else {
        assert(files.take(n) =~= files);
    }
}

/// What the section pattern `pattern`, with the two sort operators, gives over
/// `candidates`.
pub open spec fn sections_outcome(pattern: Seq<char>, candidates: Seq<SectionCandidateView>) -> Result<
    Seq<SectionCandidateView>,
    (GlobErrorKind, Seq<char>),
> {
    glob_sections_outcome(pattern, SORT_BY_ALIGNMENT@, SORT_BY_INIT_PRIORITY@, candidates)
}

/// Runs the section pattern `pattern`, with the operators `SORT_BY_ALIGNMENT`
/// and `SORT_BY_INIT_PRIORITY`, over the candidates of one file: the
/// candidates it selects, in the order its operators leave them, or its error.
/// The error depends on the pattern alone; what it selects comes from
/// `candidates`; and `SORT_BY_ALIGNMENT(p)` and `SORT_BY_INIT_PRIORITY(p)`
/// give what `p` selects, stably sorted by alignment, largest first, and by
/// init priority, unnumbered names last.
pub fn select_sections(pattern: &str, candidates: &Vec<SectionCandidate>) -> (r: Result<
    Vec<SectionCandidate>,
    GlobError,
>)
    ensures
        match r {
            Ok(v) => sections_outcome(pattern@, candidates_view(candidates@)) == Ok::<
                Seq<SectionCandidateView>,
                (GlobErrorKind, Seq<char>),
            >(candidates_view(v@)),
            Err(e) => sections_outcome(pattern@, candidates_view(candidates@)) == Err::<
                Seq<SectionCandidateView>,
                (GlobErrorKind, Seq<char>),
            >(e@),
        },
        match r {
            Ok(_) => sections_outcome(pattern@, Seq::empty()) is Ok,
            Err(e) => sections_outcome(pattern@, Seq::empty()) == Err::<
                Seq<SectionCandidateView>,
                (GlobErrorKind, Seq<char>),
            >(e@),
        },
        r matches Ok(v) ==> forall|i: int|
            0 <= i < v@.len() ==> candidates_view(candidates@).contains(#[trigger] v@[i]@),
        r matches Ok(v) ==> forall|inner: Seq<char>|
            pattern@ == applied(SORT_BY_ALIGNMENT@, inner) ==> {
                let o = #[trigger] sections_outcome(inner, candidates_view(candidates@));
                &&& o is Ok
                &&& is_stable_sort_of(candidates_view(v@), o->Ok_0, alignment_keys(o->Ok_0))
            },
        r matches Ok(v) ==> forall|inner: Seq<char>|
            pattern@ == applied(SORT_BY_INIT_PRIORITY@, inner) ==> {
                let o = #[trigger] sections_outcome(inner, candidates_view(candidates@));
                &&& o is Ok
                &&& is_stable_sort_of(candidates_view(v@), o->Ok_0, priority_keys(o->Ok_0))
            },
{
    proof {
        reveal_strlit("SORT_BY_ALIGNMENT");
        reveal_strlit("SORT_BY_INIT_PRIORITY");
        assert(is_operator_name(SORT_BY_ALIGNMENT@));
        assert(is_operator_name(SORT_BY_INIT_PRIORITY@));
    }
    let r = glob_sections(pattern, SORT_BY_ALIGNMENT, SORT_BY_INIT_PRIORITY, candidates);
    proof {
        let cv = candidates_view(candidates@);
        assert(candidates@.map_values(|c: SectionCandidate| c@) == cv);
        if r is Ok {
            assert forall|inner: Seq<char>| pattern@ == applied(SORT_BY_ALIGNMENT@, inner) implies ({
                let o = #[trigger] sections_outcome(inner, cv);
                &&& o is Ok
                &&& is_stable_sort_of(candidates_view(r->Ok_0@), o->Ok_0, alignment_keys(o->Ok_0))
            }) by {
                let o = glob_sections_outcome(inner, SORT_BY_ALIGNMENT@, SORT_BY_INIT_PRIORITY@, cv);
            }
            assert forall|inner: Seq<char>| pattern@ == applied(SORT_BY_INIT_PRIORITY@, inner) implies ({
                let o = #[trigger] sections_outcome(inner, cv);
                &&& o is Ok
                &&& is_stable_sort_of(candidates_view(r->Ok_0@), o->Ok_0, priority_keys(o->Ok_0))
            }) by {
                let o = glob_sections_outcome(inner, SORT_BY_ALIGNMENT@, SORT_BY_INIT_PRIORITY@, cv);
            }
        }
    }
    r
}

/// The candidates that a table offers for `file`.
fn table_candidates(table: &SectionTable, file: &String) -> (r: Vec<SectionCandidate>)
    requires
        table.wf(),
    ensures
        candidates_view(r@) == candidates_of(table.entries(), file@),
{
    let mut r: Vec<SectionCandidate> = Vec::new();
    let mut i: usize = 0;
    while i < table.len()
        invariant
            table.wf(),
            i <= table.entries().len(),
            r@.len() == i,
            forall|j: int|
                0 <= j < i ==> (#[trigger] r@[j])@ == candidates_of(table.entries(), file@)[j],
        decreases table.entries().len() - i,
    {
        let p = table.props_at(i);
        let lma = match p.lma {
            Some(l) => l,
            None => p.vma,
        };
        r.push(
            SectionCandidate {
                name: table.name_at(i).clone(),
                file: file.clone(),
                file_offset: p.file_offset,
                size: p.size,
                align: p.align,
                vma: p.vma,
                lma,
            },
        );
        i += 1;
    }
    assert(candidates_view(r@) =~= candidates_of(table.entries(), file@));
    r
}

/// Whether one of `list` has the name `name`.
fn has_candidate_named(list: &Vec<SectionCandidate>, name: &String) -> (r: bool)
    ensures
        r == candidates_view(list@).map_values(|c: SectionCandidateView| c.name).contains(name@),
{
    let ghost names = candidates_view(list@).map_values(|c: SectionCandidateView| c.name);
    let mut i: usize = 0;
    while i < list.len()
        invariant
            i <= list@.len(),
            names == candidates_view(list@).map_values(|c: SectionCandidateView| c.name),
            forall|j: int| 0 <= j < i ==> (#[trigger] list@[j]).name@ != name@,
        decreases list@.len() - i,
    {
        if list[i].name == *name {
            assert(names[i as int] == name@);
            return true;
        }
        i += 1;
    }
    proof {
        if names.contains(name@) {
            let w = choose|w: int| 0 <= w < names.len() && names[w] == name@;
            assert(list@[w].name@ == name@);
        }
    }
    false
}

/// Appends to `infos` the placed sections that the candidates of `sel` whose
/// names `excluded` does not hold become.
pub fn push_infos(
    infos: &mut Vec<ObjsecInfo>,
    sel: &Vec<SectionCandidate>,
    excluded: &Vec<SectionCandidate>,
    use_loc: SourceSpan,
)
    ensures
        infos_view(final(infos)@) == infos_view(old(infos)@) + without_named(
            candidates_view(sel@),
            candidates_view(excluded@),
        ).map_values(|c: SectionCandidateView| info_of(c, use_loc)),
{
    let ghost sv = candidates_view(sel@);
    let ghost ev = candidates_view(excluded@);
    let ghost start = infos_view(infos@);
    let mut i: usize = 0;
    while i < sel.len()
        invariant
            i <= sel@.len(),
            sv == candidates_view(sel@),
            ev == candidates_view(excluded@),
            infos_view(infos@) == start + without_named(sv.take(i as int), ev).map_values(
                |c: SectionCandidateView| info_of(c, use_loc),
            ),
        decreases sel@.len() - i,
    {
        assert(sv.take(i + 1).drop_last() =~= sv.take(i as int));
        let c = &sel[i];
        if !has_candidate_named(excluded, &c.name) {
            let ghost before = infos_view(infos@);
            infos.push(
                ObjsecInfo {
                    file: c.file.clone(),
                    name: c.name.clone(),
                    file_offset: c.file_offset,
                    size: c.size,
                    align: c.align,
                    vma: c.vma,
                    lma: c.lma,
                    src_loc: use_loc,
                },
            );
            assert(infos_view(infos@) =~= before.push(info_of(sv[i as int], use_loc)));
            assert(without_named(sv.take(i + 1), ev) == without_named(sv.take(i as int), ev).push(
                sv[i as int],
            ));
            assert(without_named(sv.take(i + 1), ev).map_values(
                |c: SectionCandidateView| info_of(c, use_loc),
            ) =~= without_named(sv.take(i as int), ev).map_values(
                |c: SectionCandidateView| info_of(c, use_loc),
            ).push(info_of(sv[i as int], use_loc)));
        }
        i += 1;
    }
    assert(sv.take(i as int) =~= sv);
}

proof fn lemma_without_nothing(sel: Seq<SectionCandidateView>)
    ensures
        without_named(sel, Seq::empty()) == sel,
    decreases sel.len(),
{
    if sel.len() > 0 {
        lemma_without_nothing(sel.drop_last());
        assert(Seq::<SectionCandidateView>::empty().map_values(|c: SectionCandidateView| c.name)
            =~= Seq::<Seq<char>>::empty());
        assert(sel.drop_last().push(sel.last()) =~= sel);
    }
}

impl ObjFileResolver {
    /// Gathers the sections that the declaration `props` selects from the
    /// parsed `files`, file after file.
    fn gather_sections(&self, props: &ObjProps, files: &Vec<String>, use_loc: SourceSpan) -> (r: Result<
        Vec<ObjsecInfo>,
        GlobError,
    >)
        requires
            self.wf(),
            all_cached(self.cache(), paths_view(files@)),
        ensures
            match (r, gathered_sections(self.cache(), props@, paths_view(files@), use_loc)) {
                (Ok(v), Ok(w)) => infos_view(v@) == w,
                (Err(e), Err(w)) => e@ == w,
                _ => false,
            },
            r matches Ok(v) ==> packed_from_files(infos_view(v@), self.cache(), paths_view(files@), use_loc),
    {
        let ghost fv = paths_view(files@);
        let mut infos: Vec<ObjsecInfo> = Vec::new();
        let mut i: usize = 0;
        let ghost mut fi: Seq<int> = Seq::empty();
        assert(infos_view(infos@) =~= Seq::<ObjsecInfoView>::empty());
        while i < files.len()
            invariant
                self.wf(),
                i <= files@.len(),
                fv == paths_view(files@),
                all_cached(self.cache(), fv),
                packed_by(fi, infos_view(infos@), self.cache(), fv, use_loc),
                forall|k: int| 0 <= k < fi.len() ==> #[trigger] fi[k] < i,
                gathered_sections(self.cache(), props@, fv.take(i as int), use_loc) == Ok::<
                    Seq<ObjsecInfoView>,
                    (GlobErrorKind, Seq<char>),
                >(infos_view(infos@)),
            decreases files@.len() - i,
        {
            assert(fv.take(i + 1).drop_last() =~= fv.take(i as int));
            assert(find_first(self.cache(), fv[i as int]) is Some);
            let idx = self.cached_index(files[i].as_str()).unwrap();
            let table = &self.cache_tables[idx];
            let cands = table_candidates(table, &files[i]);
            let sel = match select_sections(props.name.as_str(), &cands) {
                Ok(v) => v,
                Err(e) => {
                    proof {
                        lemma_gathered_err_stays(self.cache(), props@, fv, use_loc, i + 1);
                    }
                    return Err(e);
                },
            };
            let excluded = if props.section_exclude.as_str().is_empty() {
                let none: Vec<SectionCandidate> = Vec::new();
                proof {
                    lemma_without_nothing(candidates_view(sel@));
                    assert(candidates_view(none@) =~= Seq::<SectionCandidateView>::empty());
                }
                none
            } else {
                match select_sections(props.section_exclude.as_str(), &cands) {
                    Ok(v) => v,
                    Err(e) => {
                        proof {
                            lemma_gathered_err_stays(self.cache(), props@, fv, use_loc, i + 1);
                        }
                        return Err(e);
                    },
                }
            };
            let ghost before = infos_view(infos@);
            push_infos(&mut infos, &sel, &excluded, use_loc);
            proof {
                let cv = candidates_view(cands@);
                let sv = candidates_view(sel@);
                let w = without_named(sv, candidates_view(excluded@));
                let entries = cached_table(self.cache(), fv[i as int]);
                let after = infos_view(infos@);
                assert(self.cache()[idx as int].1 == table.entries());
                assert(cv == candidates_of(entries, fv[i as int]));
                lemma_without_named_from(sv, candidates_view(excluded@));
                let nfi = fi + Seq::new(w.len(), |k: int| i as int);
                assert forall|k: int| 0 <= k < nfi.len() implies 0 <= #[trigger] nfi[k] < fv.len()
                    && after[k].file == fv[nfi[k]] && from_table(
                    after[k],
                    cached_table(self.cache(), fv[nfi[k]]),
                    fv[nfi[k]],
                    use_loc,
                ) by {
                    if k < fi.len() {
                        assert(nfi[k] == fi[k]);
                        assert(after[k] == before[k]);
                    } else {
                        let c = w[k - fi.len()];
                        assert(after[k] == info_of(c, use_loc));
                        assert(sv.contains(c));
                        let a = choose|a: int| 0 <= a < sv.len() && sv[a] == c;
                        assert(sel@[a]@ == c);
                        assert(cv.contains(sel@[a]@));
                        let j = choose|j: int| 0 <= j < cv.len() && cv[j] == c;
                        assert(candidates_of(entries, fv[i as int])[j] == c);
                    }
                }
                assert forall|k: int, l: int| 0 <= k <= l < nfi.len() implies #[trigger] nfi[k]
                    <= #[trigger] nfi[l] by {
                    if l < fi.len() {
                        assert(nfi[k] == fi[k] && nfi[l] == fi[l]);
                    } else if k < fi.len() {
                        assert(nfi[k] == fi[k]);
                        assert(fi[k] < i);
                    }
                }
                fi = nfi;
            }
            i += 1;
        }
        assert(fv.take(i as int) =~= fv);
        assert(packed_by(fi, infos_view(infos@), self.cache(), fv, use_loc));
        Ok(infos)
    }

    /// Resolves `obj_name`, declared as `props`, over the selected and parsed
    /// `files`: the sections to pack, in order, or the diagnostic.
    pub fn resolve(&self, obj_name: &str, props: &ObjProps, files: &Vec<String>, use_loc: SourceSpan) -> (r: Result<
        Vec<ObjsecInfo>,
        Diagnostic,
    >)
        requires
            self.wf(),
            all_cached(self.cache(), paths_view(files@)),
            !resolve_overflows(self.cache(), props@, paths_view(files@), use_loc),
        ensures
            match (r, resolve_outcome(self.cache(), obj_name@, props@, paths_view(files@), use_loc)) {
                (Ok(v), Ok(w)) => infos_view(v@) == w,
                (Err(d), Err(w)) => d@ == w,
                _ => false,
            },
            r matches Ok(v) ==> packed_from_files(infos_view(v@), self.cache(), paths_view(files@), use_loc),
    {
        let infos = match self.gather_sections(props, files, use_loc) {
            Ok(v) => v,
            Err(e) => {
                return Err(emit_glob_error(&e, props.src_loc));
            },
        };
        if infos.len() == 0 {
            let mut m = String::from_str("Objsec pattern '");
            m.append(props.name.as_str());
            m.append("' matched no sections in the matched files.");
            return Err(
                Diagnostic {
                    code: "ERR_119",
                    message: m,
                    primary: use_loc,
                    secondary: Some(props.src_loc),
                },
            );
        }
        match check_lma_continuity(obj_name, &infos, use_loc) {
            Ok(()) => Ok(infos),
            Err(d) => Err(d),
        }
    }

    /// `resolve` where the contiguity check stays within `u64`; `None` where
    /// it would overflow.
    pub fn resolve_checked(
        &self,
        obj_name: &str,
        props: &ObjProps,
        files: &Vec<String>,
        use_loc: SourceSpan,
    ) -> (r: Option<Result<Vec<ObjsecInfo>, Diagnostic>>)
        requires
            self.wf(),
            all_cached(self.cache(), paths_view(files@)),
        ensures
            r is None <==> resolve_overflows(self.cache(), props@, paths_view(files@), use_loc),
            r matches Some(x) ==> match (x, resolve_outcome(
                self.cache(),
                obj_name@,
                props@,
                paths_view(files@),
                use_loc,
            )) {
                (Ok(v), Ok(w)) => infos_view(v@) == w,
                (Err(d), Err(w)) => d@ == w,
                _ => false,
            },
            r matches Some(Ok(v)) ==> packed_from_files(
                infos_view(v@),
                self.cache(),
                paths_view(files@),
                use_loc,
            ),
    {
        if let Ok(infos) = self.gather_sections(props, files, use_loc) {
            if !lma_ends_check(&infos) {
                return None;
            }
        }
        Some(self.resolve(obj_name, props, files, use_loc))
    }
}

/// Whether the contiguity check over `infos` stays within `u64` (see `lma_ends_fit`).
fn lma_ends_check(infos: &Vec<ObjsecInfo>) -> (r: bool)
    ensures
        r == lma_ends_fit(infos_view(infos@)),
{
    let ghost v = infos_view(infos@);
    if infos.len() < 2 {
        return true;
    }
    let mut i: usize = 1;
    while i < infos.len()
        invariant
            1 <= i <= infos@.len(),
            v == infos_view(infos@),
            first_lma_gap(v.take(i as int)) is None,
            forall|j: int|
                1 <= j < i && j < v.len() && #[trigger] first_lma_gap(v.take(j)) is None ==> v[j
                    - 1].lma + v[j - 1].size <= u64::MAX,
        decreases infos@.len() - i,
    {
        proof {
            lemma_first_lma_gap_prefix(v, i as int);
        }
        let prev = &infos[i - 1];
        let curr = &infos[i];
        if prev.size > u64::MAX - prev.lma {
            return false;
        }
        if prev.lma + prev.size != curr.lma {
            proof {
                assert forall|j: int|
                    1 <= j < v.len() && #[trigger] first_lma_gap(v.take(j)) is None implies v[j
                    - 1].lma + v[j - 1].size <= u64::MAX by {
                    if j > i {
                        assert(v.take(j).take(i + 1) =~= v.take(i + 1));
                        lemma_first_lma_gap_stays(v.take(j), i + 1);
                    }
                }
            }
            return true;
        }
        i += 1;
    }
    true
}

/// The texts of a list of paths.
pub open spec fn paths_view(v: Seq<String>) -> Seq<Seq<char>> {
    v.map_values(|p: String| p@)
}

/// Whether `list` holds the path `path`.
fn holds_path(list: &Vec<String>, path: &String) -> (r: bool)
    ensures
        r == paths_view(list@).contains(path@),
{
    let mut i: usize = 0;
    while i < list.len()
        invariant
            i <= list@.len(),
            forall|j: int| 0 <= j < i ==> (#[trigger] list@[j])@ != path@,
        decreases list@.len() - i,
    {
        if list[i] == *path {
            assert(paths_view(list@)[i as int] == path@);
            return true;
        }
        i += 1;
    }
    proof {
        if paths_view(list@).contains(path@) {
            let w = choose|w: int| 0 <= w < list@.len() && paths_view(list@)[w] == path@;
            assert(list@[w]@ == path@);
        }
    }
    false
}

/// The paths of `listed` that `excluded` does not hold, in order.
pub fn without_listed(listed: &Vec<String>, excluded: &Vec<String>) -> (r: Vec<String>)
    ensures
        paths_view(r@) == without_paths(paths_view(listed@), paths_view(excluded@)),
{
    let ghost lv = paths_view(listed@);
    let ghost ev = paths_view(excluded@);
    let mut out: Vec<String> = Vec::new();
    let mut i: usize = 0;
    while i < listed.len()
        invariant
            i <= listed@.len(),
            lv == paths_view(listed@),
            ev == paths_view(excluded@),
            paths_view(out@) == without_paths(lv.take(i as int), ev),
        decreases listed@.len() - i,
    {
        assert(lv.take(i + 1).drop_last() =~= lv.take(i as int));
        if !holds_path(excluded, &listed[i]) {
            out.push(listed[i].clone());
            assert(paths_view(out@) =~= without_paths(lv.take(i as int), ev).push(lv[i as int]));
        }
        i += 1;
    }
    assert(lv.take(i as int) =~= lv);
    out
}

proof fn lemma_no_gap_contiguous(infos: Seq<ObjsecInfoView>)
    requires
        first_lma_gap(infos) is None,
    ensures
        forall|i: int|
            1 <= i < infos.len() ==> infos[i - 1].lma + infos[i - 1].size == (#[trigger] infos[i]).lma,
    decreases infos.len(),
{
    if infos.len() >= 2 {
        lemma_no_gap_contiguous(infos.drop_last());
        assert forall|i: int| 1 <= i < infos.len() implies infos[i - 1].lma + infos[i - 1].size
            == (#[trigger] infos[i]).lma by {
            if i < infos.len() - 1 {
                assert(infos.drop_last()[i] == infos[i]);
                assert(infos.drop_last()[i - 1] == infos[i - 1]);
            }
        }
    }
}

/// What resolution gives is never empty, and each section starts where the one
/// before it ends: the packed output is one contiguous image slice.
pub proof fn lemma_resolved_sections_contiguous(
    cache: Seq<(Seq<char>, Seq<SectionEntry>)>,
    obj_name: Seq<char>,
    p: ObjPropsView,
    files: Seq<Seq<char>>,
    use_loc: SourceSpan,
)
    requires
        resolve_outcome(cache, obj_name, p, files, use_loc) is Ok,
    ensures
        ({
            let infos = resolve_outcome(cache, obj_name, p, files, use_loc)->Ok_0;
            &&& infos.len() > 0
            &&& forall|i: int|
                1 <= i < infos.len() ==> infos[i - 1].lma + infos[i - 1].size == (
                #[trigger] infos[i]).lma
        }),
{
    let infos = gathered_sections(cache, p, files, use_loc)->Ok_0;
    lemma_no_gap_contiguous(infos);
}

/// The file exclusion removes exactly the excluded paths: every path kept was
/// listed and is not excluded, and every listed path that is not excluded is kept.
pub proof fn lemma_file_exclusion(listed: Seq<Seq<char>>, excluded: Seq<Seq<char>>)
    ensures
        forall|i: int|
            0 <= i < without_paths(listed, excluded).len() ==> listed.contains(
                #[trigger] without_paths(listed, excluded)[i],
            ) && !excluded.contains(without_paths(listed, excluded)[i]),
        forall|f: Seq<char>|
            #[trigger] listed.contains(f) && !excluded.contains(f) ==> without_paths(
                listed,
                excluded,
            ).contains(f),
    decreases listed.len(),
{
    if listed.len() > 0 {
        let init = listed.drop_last();
        lemma_file_exclusion(init, excluded);
        let w = without_paths(listed, excluded);
        let w0 = without_paths(init, excluded);
        assert forall|i: int| 0 <= i < w.len() implies listed.contains(#[trigger] w[i])
            && !excluded.contains(w[i]) by {
            if i < w0.len() {
                assert(w[i] == w0[i]);
                let k = choose|k: int| 0 <= k < init.len() && init[k] == w0[i];
                assert(listed[k] == init[k]);
            } else {
                assert(listed[listed.len() - 1] == w[i]);
            }
        }
        assert forall|f: Seq<char>| #[trigger]
            listed.contains(f) && !excluded.contains(f) implies w.contains(f) by {
            let k = choose|k: int| 0 <= k < listed.len() && listed[k] == f;
            if k < listed.len() - 1 {
                assert(init[k] == f);
                assert(init.contains(f));
                let m = choose|m: int| 0 <= m < w0.len() && w0[m] == f;
                assert(w[m] == f);
            } else {
                assert(w[w.len() - 1] == f);
            }
        }
    }
}

/// A file is parsed at most once: caching a file that the cache holds changes
/// nothing and reports nothing, whatever its contents now are.
pub proof fn lemma_parsed_once(
    cache: Seq<(Seq<char>, Seq<SectionEntry>)>,
    path: Seq<char>,
    contents: Result<Seq<u8>, Seq<char>>,
    use_loc: SourceSpan,
    decl_loc: SourceSpan,
)
    requires
        find_first(cache, path) is Some,
    ensures
        cache_step(cache, path, contents, use_loc, decl_loc) == (
            cache,
            Ok::<(), DiagnosticView>(()),
        ),
{
}

proof fn lemma_find_first_push<V>(s: Seq<(Seq<char>, V)>, x: (Seq<char>, V), key: Seq<char>)
    ensures
        find_first(s.push(x), key) == match find_first(s, key) {
            Some(v) => Some(v),
            None => if x.0 == key {
                Some(x.1)
            } else {
                None
            },
        },
    decreases s.len(),
{
    if s.len() > 0 {
        assert(s.push(x)[0] == s[0]);
        assert(s.push(x).drop_first() =~= s.drop_first().push(x));
        lemma_find_first_push(s.drop_first(), x, key);
    } else {
        assert(s.push(x)[0] == x);
        assert(s.push(x).drop_first() =~= s);
    }
}

/// The cache only grows. A caching step keeps every entry the cache had, in
/// place, so every file cached before keeps its table; it succeeds exactly
/// when the file is cached afterwards; and a file it adds gets the table that
/// its bytes give.
pub proof fn lemma_cache_grows(
    cache: Seq<(Seq<char>, Seq<SectionEntry>)>,
    path: Seq<char>,
    contents: Result<Seq<u8>, Seq<char>>,
    use_loc: SourceSpan,
    decl_loc: SourceSpan,
)
    ensures
        cache.is_prefix_of(cache_step(cache, path, contents, use_loc, decl_loc).0),
        forall|k: Seq<char>|
            #[trigger] find_first(cache, k) is Some ==> find_first(
                cache_step(cache, path, contents, use_loc, decl_loc).0,
                k,
            ) == find_first(cache, k),
        cache_step(cache, path, contents, use_loc, decl_loc).1 is Ok <==> find_first(
            cache_step(cache, path, contents, use_loc, decl_loc).0,
            path,
        ) is Some,
        find_first(cache, path) is None && cache_step(cache, path, contents, use_loc, decl_loc).1 is Ok
            ==> find_first(cache_step(cache, path, contents, use_loc, decl_loc).0, path) == Some(
            parsed_table(contents->Ok_0),
        ),
{
    let after = cache_step(cache, path, contents, use_loc, decl_loc).0;
    assert(cache =~= after.subrange(0, cache.len() as int));
    assert forall|k: Seq<char>| #[trigger] find_first(cache, k) is Some implies find_first(after, k)
        == find_first(cache, k) by {
        lemma_find_first_prefix(cache, after, k);
    }
    if find_first(cache, path) is None && contents is Ok && object_parse_outcome(contents->Ok_0) is Ok {
        lemma_find_first_push(cache, (path, parsed_table(contents->Ok_0)), path);
    }
}

proof fn lemma_gathered_stable(
    cache: Seq<(Seq<char>, Seq<SectionEntry>)>,
    later: Seq<(Seq<char>, Seq<SectionEntry>)>,
    p: ObjPropsView,
    files: Seq<Seq<char>>,
    use_loc: SourceSpan,
)
    requires
        all_cached(cache, files),
        cache.is_prefix_of(later),
    ensures
        all_cached(later, files),
        gathered_sections(later, p, files, use_loc) == gathered_sections(cache, p, files, use_loc),
    decreases files.len(),
{
    assert forall|j: int| 0 <= j < files.len() implies find_first(later, #[trigger] files[j]) is Some by {
        lemma_find_first_prefix(cache, later, files[j]);
    }
    if files.len() > 0 {
        let init = files.drop_last();
        assert forall|j: int| 0 <= j < init.len() implies find_first(cache, #[trigger] init[j]) is Some by {
            assert(init[j] == files[j]);
        }
        lemma_gathered_stable(cache, later, p, init, use_loc);
        assert(find_first(cache, files[files.len() - 1]) is Some);
        lemma_find_first_prefix(cache, later, files.last());
    }
}

/// Once every file of `files` is parsed, caching more files changes nothing
/// that resolving over `files` gives: what a file was parsed to the first
/// time is what every later resolution uses.
pub proof fn lemma_resolve_stable_as_cache_grows(
    cache: Seq<(Seq<char>, Seq<SectionEntry>)>,
    later: Seq<(Seq<char>, Seq<SectionEntry>)>,
    obj_name: Seq<char>,
    p: ObjPropsView,
    files: Seq<Seq<char>>,
    use_loc: SourceSpan,
)
    requires
        all_cached(cache, files),
        cache.is_prefix_of(later),
    ensures
        all_cached(later, files),
        resolve_outcome(later, obj_name, p, files, use_loc) == resolve_outcome(
            cache,
            obj_name,
            p,
            files,
            use_loc,
        ),
        resolve_overflows(later, p, files, use_loc) == resolve_overflows(cache, p, files, use_loc),
{
    lemma_gathered_stable(cache, later, p, files, use_loc);
}

proof fn lemma_gathered_ok(
    cache: Seq<(Seq<char>, Seq<SectionEntry>)>,
    p: ObjPropsView,
    files: Seq<Seq<char>>,
    use_loc: SourceSpan,
)
    requires
        section_patterns_error(p) is None,
    ensures
        gathered_sections(cache, p, files, use_loc) is Ok,
    decreases files.len(),
{
    if files.len() > 0 {
        lemma_gathered_ok(cache, p, files.drop_last(), use_loc);
    }
}

/// Once the files of a declaration are selected, its section patterns have
/// been found sound: resolving over those files then fails only where no
/// section is selected or the sections are not LMA-contiguous, never on a
/// pattern.
pub proof fn lemma_selected_files_have_sound_patterns(
    cache: Seq<(Seq<char>, Seq<SectionEntry>)>,
    obj_name: Seq<char>,
    p: ObjPropsView,
    listed: Seq<Seq<char>>,
    use_loc: SourceSpan,
)
    requires
        file_selection_outcome(obj_name, p, listed, use_loc) is Ok,
    ensures
        gathered_sections(
            cache,
            p,
            file_selection_outcome(obj_name, p, listed, use_loc)->Ok_0,
            use_loc,
        ) is Ok,
        resolve_outcome(
            cache,
            obj_name,
            p,
            file_selection_outcome(obj_name, p, listed, use_loc)->Ok_0,
            use_loc,
        ) matches Err(d) ==> d.code == "ERR_119"@ || d.code == "ERR_235"@,
{
    let files = file_selection_outcome(obj_name, p, listed, use_loc)->Ok_0;
    lemma_gathered_ok(cache, p, files, use_loc);
}

/// The paths `files` rise strictly in name order.
pub open spec fn ascending(files: Seq<Seq<char>>) -> bool {
    forall|i: int, j: int| 0 <= i < j < files.len() ==> name_less(#[trigger] files[i], #[trigger] files[j])
}

/// Packed sections follow their files: where the files rise in name order (as
/// a listing of the file system gives them), the sections of one file stand
/// together and the files they name rise in name order too.
pub proof fn lemma_packed_in_file_order(
    infos: Seq<ObjsecInfoView>,
    cache: Seq<(Seq<char>, Seq<SectionEntry>)>,
    files: Seq<Seq<char>>,
    use_loc: SourceSpan,
)
    requires
        packed_from_files(infos, cache, files, use_loc),
        ascending(files),
    ensures
        forall|i: int, j: int|
            0 <= i < j < infos.len() && #[trigger] infos[i].file != #[trigger] infos[j].file ==> name_less(
                infos[i].file,
                infos[j].file,
            ),
{
    let fi = choose|fi: Seq<int>| packed_by(fi, infos, cache, files, use_loc);
    assert forall|i: int, j: int|
        0 <= i < j < infos.len() && #[trigger] infos[i].file != #[trigger] infos[j].file implies name_less(
            infos[i].file,
            infos[j].file,
        ) by {
        assert(fi[i] <= fi[j]);
        assert(infos[i].file == files[fi[i]]);
        assert(infos[j].file == files[fi[j]]);
    }
}

/// The file exclusion keeps the order of the listing: the files selected from
/// a listing that rises in name order rise in name order too.
pub proof fn lemma_selection_keeps_order(listed: Seq<Seq<char>>, excluded: Seq<Seq<char>>)
    requires
        ascending(listed),
    ensures
        ascending(without_paths(listed, excluded)),
    decreases listed.len(),
{
    if listed.len() > 0 {
        let init = listed.drop_last();
        assert forall|i: int, j: int| 0 <= i < j < init.len() implies name_less(
            #[trigger] init[i],
            #[trigger] init[j],
        ) by {
            assert(init[i] == listed[i] && init[j] == listed[j]);
        }
        lemma_selection_keeps_order(init, excluded);
        lemma_file_exclusion(init, excluded);
        let w0 = without_paths(init, excluded);
        let w = without_paths(listed, excluded);
        if !excluded.contains(listed.last()) {
            assert forall|i: int, j: int| 0 <= i < j < w.len() implies name_less(
                #[trigger] w[i],
                #[trigger] w[j],
            ) by {
                if j < w0.len() {
                    assert(w[i] == w0[i] && w[j] == w0[j]);
                } else {
                    assert(w[i] == w0[i]);
                    assert(init.contains(w0[i]));
                    let a = choose|a: int| 0 <= a < init.len() && init[a] == w0[i];
                    assert(listed[a] == w0[i]);
                    assert(w[j] == listed[listed.len() - 1]);
                }
            }
        }
    }
}

/// Resolving an `obj` again, over the same listing, once a first resolution
/// has parsed its files, reads no file and gives what the first gave: the
/// declaration and the selected files are what they were, every selected file
/// is still cached (so `next_uncached` names none of them, whatever other
/// files were cached in between), and resolution over the grown cache agrees.
pub proof fn lemma_rerun_reads_nothing_and_agrees(
    decls: Seq<(Seq<char>, ObjPropsView)>,
    first: Seq<(Seq<char>, Seq<SectionEntry>)>,
    later: Seq<(Seq<char>, Seq<SectionEntry>)>,
    obj_name: Seq<char>,
    listed: Seq<Seq<char>>,
    use_loc: SourceSpan,
)
    requires
        plan_outcome(decls, obj_name, use_loc) is Ok,
        file_selection_outcome(obj_name, plan_outcome(decls, obj_name, use_loc)->Ok_0, listed, use_loc) is Ok,
        all_cached(
            first,
            file_selection_outcome(
                obj_name,
                plan_outcome(decls, obj_name, use_loc)->Ok_0,
                listed,
                use_loc,
            )->Ok_0,
        ),
        first.is_prefix_of(later),
    ensures
        ({
            let p = plan_outcome(decls, obj_name, use_loc)->Ok_0;
            let files = file_selection_outcome(obj_name, p, listed, use_loc)->Ok_0;
            &&& all_cached(later, files)
            &&& resolve_outcome(later, obj_name, p, files, use_loc) == resolve_outcome(
                first,
                obj_name,
                p,
                files,
                use_loc,
            )
            &&& resolve_overflows(later, p, files, use_loc) == resolve_overflows(first, p, files, use_loc)
        }),
{
    let p = plan_outcome(decls, obj_name, use_loc)->Ok_0;
    let files = file_selection_outcome(obj_name, p, listed, use_loc)->Ok_0;
    lemma_resolve_stable_as_cache_grows(first, later, obj_name, p, files, use_loc);
}

/// The test that the section exclusion applies: no candidate of `excluded`
/// has the name of `c`.
pub open spec fn not_excluded(excluded: Seq<SectionCandidateView>) -> spec_fn(SectionCandidateView) -> bool {
    |c: SectionCandidateView|
        !(exists|j: int| 0 <= j < excluded.len() && (#[trigger] excluded[j]).name == c.name)
}

/// The section exclusion keeps exactly the selected candidates whose name is
/// the name of no excluded candidate, in the order of the selection: it is the
/// selection filtered by that test, so a candidate of `sel` is kept if and only
/// if no candidate of `excluded` has its name.
pub proof fn lemma_exclusion_by_name(sel: Seq<SectionCandidateView>, excluded: Seq<SectionCandidateView>)
    ensures
        without_named(sel, excluded) == sel.filter(not_excluded(excluded)),
        forall|c: SectionCandidateView|
            #[trigger] without_named(sel, excluded).contains(c) <==> sel.contains(c) && forall|j: int|
                0 <= j < excluded.len() ==> (#[trigger] excluded[j]).name != c.name,
    decreases sel.len(),
{
    let keep = not_excluded(excluded);
    reveal(Seq::filter);
    if sel.len() > 0 {
        lemma_exclusion_by_name(sel.drop_last(), excluded);
        let x = sel.last();
        let names = excluded.map_values(|c: SectionCandidateView| c.name);
        if names.contains(x.name) {
            let j = choose|j: int| 0 <= j < names.len() && names[j] == x.name;
            assert(excluded[j].name == x.name);
            assert(!keep(x));
        } else {
            assert forall|j: int| 0 <= j < excluded.len() implies (#[trigger] excluded[j]).name
                != x.name by {
                assert(names[j] == excluded[j].name);
            }
            assert(keep(x));
        }
    }
    let w = without_named(sel, excluded);
    assert(w == sel.filter(keep));
    assert forall|c: SectionCandidateView|
        #[trigger] w.contains(c) <==> sel.contains(c) && forall|j: int|
            0 <= j < excluded.len() ==> (#[trigger] excluded[j]).name != c.name by {
        if w.contains(c) {
            sel.lemma_filter_contains_rev(keep, c);
            let i = choose|i: int| 0 <= i < w.len() && w[i] == c;
            sel.lemma_filter_pred(keep, i);
        }
        if sel.contains(c) && keep(c) {
            let i = choose|i: int| 0 <= i < sel.len() && sel[i] == c;
            sel.lemma_filter_contains(keep, i);
        }
    }
}

/// Caching a 32- or 64-bit ELF file gives each section of its table the load
/// address of the first loadable (`PT_LOAD`) segment whose virtual range holds
/// the section's address: the segment's physical address plus the section's
/// offset in the segment. A section that no loadable segment holds loads at
/// its own address.
pub proof fn lemma_cached_elf_load_addresses(
    cache: Seq<(Seq<char>, Seq<SectionEntry>)>,
    path: Seq<char>,
    data: Seq<u8>,
    use_loc: SourceSpan,
    decl_loc: SourceSpan,
)
    requires
        find_first(cache, path) is None,
        object_parse_outcome(data) == Ok::<ObjectFormat, Seq<char>>(ObjectFormat::Elf32)
            || object_parse_outcome(data) == Ok::<ObjectFormat, Seq<char>>(ObjectFormat::Elf64),
        !cache_step_overflows(cache, path, Ok::<Seq<u8>, Seq<char>>(data)),
    ensures
        ({
            let step = cache_step(cache, path, Ok::<Seq<u8>, Seq<char>>(data), use_loc, decl_loc);
            let t = find_first(step.0, path)->Some_0;
            let hs = object_program_headers(data);
            &&& step.1 is Ok
            &&& find_first(step.0, path) is Some
            &&& forall|k: int, i: int|
                0 <= k < t.len() && 0 <= i < hs.len() && (#[trigger] hs[i]).p_type == PT_LOAD
                    && hs[i].vaddr <= (#[trigger] t[k]).1.vma < hs[i].vaddr + hs[i].memsz && (forall|
                    m: int,
                |
                    0 <= m < i ==> !((#[trigger] hs[m]).p_type == PT_LOAD && hs[m].vaddr <= t[k].1.vma
                        < hs[m].vaddr + hs[m].memsz)) ==> (t[k].1.lma matches Some(l) && l == hs[i].paddr
                    + (t[k].1.vma - hs[i].vaddr))
            &&& forall|k: int|
                0 <= k < t.len() && (forall|i: int|
                    0 <= i < hs.len() ==> !((#[trigger] hs[i]).p_type == PT_LOAD && hs[i].vaddr
                        <= (#[trigger] t[k]).1.vma < hs[i].vaddr + hs[i].memsz)) ==> t[k].1.lma == Some(
                    t[k].1.vma,
                )
        }),
{
    let step = cache_step(cache, path, Ok::<Seq<u8>, Seq<char>>(data), use_loc, decl_loc);
    let t0 = table_of_sections(object_section_list(data));
    let hs = object_program_headers(data);
    lemma_find_first_push(cache, (path, parsed_table(data)), path);
    let t = find_first(step.0, path)->Some_0;
    assert(t == parsed_table(data));
    lemma_table_of_sections_unplaced(object_section_list(data));
    assert(lma_arithmetic_fits(hs, entry_props(t0)));
    assert forall|k: int, i: int|
        0 <= k < t.len() && 0 <= i < hs.len() && (#[trigger] hs[i]).p_type == PT_LOAD && hs[i].vaddr
            <= (#[trigger] t[k]).1.vma < hs[i].vaddr + hs[i].memsz && (forall|m: int|
            0 <= m < i ==> !((#[trigger] hs[m]).p_type == PT_LOAD && hs[m].vaddr <= t[k].1.vma
                < hs[m].vaddr + hs[m].memsz)) implies (t[k].1.lma matches Some(l) && l == hs[i].paddr + (
    t[k].1.vma - hs[i].vaddr)) by {
        let p = t0[k].1;
        assert(t[k].1.vma == p.vma);
        assert(p.lma is None);
        lemma_first_holder_gives_load_address(hs, p.vma, i);
        assert(entry_props(t0)[k] == p);
    }
    assert forall|k: int|
        0 <= k < t.len() && (forall|i: int|
            0 <= i < hs.len() ==> !((#[trigger] hs[i]).p_type == PT_LOAD && hs[i].vaddr <= (
            #[trigger] t[k]).1.vma < hs[i].vaddr + hs[i].memsz)) implies t[k].1.lma == Some(t[k].1.vma) by {
        let p = t0[k].1;
        assert(t[k].1.vma == p.vma);
        assert forall|i: int| 0 <= i < hs.len() implies !crate::lma::segment_holds(#[trigger] hs[i], p.vma) by {
            assert(!(hs[i].p_type == PT_LOAD && hs[i].vaddr <= t[k].1.vma < hs[i].vaddr + hs[i].memsz));
        }
        lemma_unloaded_section_lma_is_vma(hs, p);
    }
}

/// Caching refuses an object file for overflow only where its addresses do
/// not fit in `u64`: where every loadable segment ends within `u64` and every
/// loadable segment that holds a section's address maps it to a load address
/// within `u64` (whether above or below the address), caching goes through.
pub proof fn lemma_cache_accepts_fitting_addresses(
    cache: Seq<(Seq<char>, Seq<SectionEntry>)>,
    path: Seq<char>,
    data: Seq<u8>,
)
    requires
        ({
            let hs = object_program_headers(data);
            let t0 = table_of_sections(object_section_list(data));
            &&& forall|i: int|
                0 <= i < hs.len() && (#[trigger] hs[i]).p_type == PT_LOAD ==> hs[i].vaddr + hs[i].memsz
                    <= u64::MAX
            &&& forall|k: int, i: int|
                0 <= k < t0.len() && 0 <= i < hs.len() && (#[trigger] hs[i]).p_type == PT_LOAD
                    && hs[i].vaddr <= (#[trigger] t0[k]).1.vma < hs[i].vaddr + hs[i].memsz
                    ==> hs[i].paddr + (t0[k].1.vma - hs[i].vaddr) <= u64::MAX
        }),
    ensures
        !cache_step_overflows(cache, path, Ok::<Seq<u8>, Seq<char>>(data)),
{
    let hs = object_program_headers(data);
    let t0 = table_of_sections(object_section_list(data));
    let ps = entry_props(t0);
    assert forall|k: int, i: int|
        0 <= k < ps.len() && 0 <= i < hs.len() && (#[trigger] ps[k]).lma is None && (
        #[trigger] hs[i]).p_type == PT_LOAD && hs[i].vaddr <= ps[k].vma && ps[k].vma < hs[i].vaddr
            + hs[i].memsz implies hs[i].paddr + (ps[k].vma - hs[i].vaddr) <= u64::MAX by {
        assert(ps[k] == t0[k].1);
    }
    lemma_lma_arithmetic_fits_when_addresses_fit(hs, ps);
}

} // verus!
