//! Wildcard patterns over file paths and section names, through `flexiglob`.

use crate::order::{
    candidates_view, init_priority_rank, is_stable_sort_of, sort_by_alignment, sort_by_init_priority, SectionCandidate,
    SectionCandidateView,
};
use flexiglob::{FnOperator, GlobberBuilder, ParseErrorKind};
use vstd::prelude::*;

verus! {

/// Name of the pattern operator that sorts by alignment, largest first.
pub const SORT_BY_ALIGNMENT: &'static str = "SORT_BY_ALIGNMENT";

/// Name of the pattern operator that sorts by init priority, smallest first.
pub const SORT_BY_INIT_PRIORITY: &'static str = "SORT_BY_INIT_PRIORITY";

/// The kinds of error a pattern can have.
#[derive(Clone, Copy, Debug, PartialEq, Eq, Structural)]
pub enum GlobErrorKind {
    EmptyPattern,
    InvalidOperator,
    DuplicateOperator,
    MismatchedParentheses,
    UnexpectedParen,
    UnterminatedBracketSet,
    EmptyBrackets,
    UnexpectedTrailingCharacters,
    InvalidEscape,
}

/// An error in a pattern, with its explanation.
#[derive(Clone, Debug)]
pub struct GlobError {
    pub kind: GlobErrorKind,
    pub message: String,
}

impl View for GlobError {
    type V = (GlobErrorKind, Seq<char>);

    open spec fn view(&self) -> (GlobErrorKind, Seq<char>) {
        (self.kind, self.message@)
    }
}

/// What compiling `pattern` with a `flexiglob::GlobberBuilder` that has no
/// operators, and running it over `paths`, gives: the paths it selects, in
/// order, or the pattern's error.
pub uninterp spec fn glob_paths_outcome(pattern: Seq<char>, paths: Seq<Seq<char>>) -> Result<
    Seq<Seq<char>>,
    (GlobErrorKind, Seq<char>),
>;

/// What compiling `pattern` with a `flexiglob::GlobberBuilder` that has the two
/// sort operators, registered under the names given, and running it over
/// `candidates` (matched by name), gives: the candidates it selects, in the
/// order its operators leave them, or the error.
pub uninterp spec fn glob_sections_outcome(
    pattern: Seq<char>,
    alignment_op: Seq<char>,
    priority_op: Seq<char>,
    candidates: Seq<SectionCandidateView>,
) -> Result<Seq<SectionCandidateView>, (GlobErrorKind, Seq<char>)>;

/// `c` is an ASCII letter or `_`.
pub open spec fn is_name_start(c: char) -> bool {
    ('a' <= c && c <= 'z') || ('A' <= c && c <= 'Z') || c == '_'
}

/// `s` can name a pattern operator: an ASCII letter or `_`, then ASCII
/// letters, digits and `_`.
pub open spec fn is_operator_name(s: Seq<char>) -> bool {
    &&& s.len() > 0
    &&& is_name_start(s[0])
    &&& forall|i: int| 0 <= i < s.len() ==> is_name_start(#[trigger] s[i]) || ('0' <= s[i] && s[i] <= '9')
}

/// The pattern that applies the operator `op` to the pattern `inner`: `op(inner)`.
pub open spec fn applied(op: Seq<char>, inner: Seq<char>) -> Seq<char> {
    op + seq!['('] + inner + seq![')']
}

/// The keys by which candidates sort by alignment, largest first.
pub open spec fn alignment_keys(s: Seq<SectionCandidateView>) -> Seq<int> {
    Seq::new(s.len(), |j: int| -(s[j].align as int))
}

/// The keys by which candidates sort by init priority, unnumbered names last.
pub open spec fn priority_keys(s: Seq<SectionCandidateView>) -> Seq<int> {
    Seq::new(s.len(), |j: int| init_priority_rank(s[j].name))
}

/// `flexiglob::ParseError`, the error of a pattern, carried through unread.
#[verifier::external_type_specification]
#[verifier::external_body]
pub struct ExGlobParseError(flexiglob::ParseError);

/// Converts a `flexiglob::ParseError`, one arm per kind, keeping its message.
#[verifier::external_body]
fn glob_error(e: flexiglob::ParseError) -> GlobError {
    let kind = match e.kind {
        ParseErrorKind::EmptyPattern => GlobErrorKind::EmptyPattern,
        ParseErrorKind::InvalidOperator(_) => GlobErrorKind::InvalidOperator,
        ParseErrorKind::DuplicateOperator(_) => GlobErrorKind::DuplicateOperator,
        ParseErrorKind::MismatchedParentheses => GlobErrorKind::MismatchedParentheses,
        ParseErrorKind::UnexpectedParen => GlobErrorKind::UnexpectedParen,
        ParseErrorKind::UnterminatedBracketSet => GlobErrorKind::UnterminatedBracketSet,
        ParseErrorKind::EmptyBrackets => GlobErrorKind::EmptyBrackets,
        ParseErrorKind::UnexpectedTrailingCharacters => GlobErrorKind::UnexpectedTrailingCharacters,
        ParseErrorKind::InvalidEscape(_) => GlobErrorKind::InvalidEscape,
    };
    GlobError { kind, message: e.message }
}

/// Calls `flexiglob::GlobberBuilder::compile` on a builder without operators and
/// `flexiglob::Globber::run` over `paths`, matching each path as it is. The
/// contract claims that the outcome is a function of the pattern and the paths;
/// that whether it is an error, and which, depends on the pattern alone (only
/// `compile` fails, and it does not see the paths); and that what `run`
/// selects is drawn from `paths` (it filters them). Which paths match is not
/// stated.
#[verifier::external_body]
pub(crate) fn glob_paths(pattern: &str, paths: &Vec<String>) -> (r: Result<Vec<String>, GlobError>)
    ensures
        match r {
            Ok(v) => glob_paths_outcome(pattern@, paths@.map_values(|p: String| p@)) == Ok::<
                Seq<Seq<char>>,
                (GlobErrorKind, Seq<char>),
            >(v@.map_values(|p: String| p@)),
            Err(e) => glob_paths_outcome(pattern@, paths@.map_values(|p: String| p@)) == Err::<
                Seq<Seq<char>>,
                (GlobErrorKind, Seq<char>),
            >(e@),
        },
        match r {
            Ok(_) => glob_paths_outcome(pattern@, Seq::empty()) is Ok,
            Err(e) => glob_paths_outcome(pattern@, Seq::empty()) == Err::<
                Seq<Seq<char>>,
                (GlobErrorKind, Seq<char>),
            >(e@),
        },
        r matches Ok(v) ==> forall|i: int|
            0 <= i < v@.len() ==> paths@.map_values(|p: String| p@).contains(#[trigger] v@[i]@),
{
    let builder = GlobberBuilder::<String>::new();
    let globber = builder.compile(pattern).map_err(glob_error)?;
    Ok(globber.run(paths, |p| p.as_str()).into_iter().cloned().collect())
}

/// Registers the two sort operators on a new `flexiglob::GlobberBuilder`
/// (`register_operator`, each a `flexiglob::FnOperator` that calls the verified
/// sort), compiles `pattern` and runs it over `candidates`, matching their names.
/// The contract claims that the outcome is a function of the pattern, the
/// operator names and the candidates; that whether it is an error, and which,
/// depends on the pattern and the operator names alone (`register_operator` and
/// `compile` do not see the candidates, and `run` does not fail); and that what
/// `run` selects is drawn from `candidates` (the wildcard step filters them and
/// the sorts reorder what they are given). Of a pattern `op(inner)` that
/// applies one of the two operators, named as identifiers, to a pattern
/// `inner`, it claims what `Globber::run_inner` does with the `Operator` node
/// that the parser builds for it: `inner` alone selects something, and the
/// operator's verified sort reorders that. Which candidates a wildcard matches
/// is not stated.
#[verifier::external_body]
pub(crate) fn glob_sections(
    pattern: &str,
    alignment_op: &'static str,
    priority_op: &'static str,
    candidates: &Vec<SectionCandidate>,
) -> (r: Result<Vec<SectionCandidate>, GlobError>)
    ensures
        match r {
            Ok(v) => glob_sections_outcome(
                pattern@,
                alignment_op@,
                priority_op@,
                candidates@.map_values(|c: SectionCandidate| c@),
            ) == Ok::<Seq<SectionCandidateView>, (GlobErrorKind, Seq<char>)>(
                v@.map_values(|c: SectionCandidate| c@),
            ),
            Err(e) => glob_sections_outcome(
                pattern@,
                alignment_op@,
                priority_op@,
                candidates@.map_values(|c: SectionCandidate| c@),
            ) == Err::<Seq<SectionCandidateView>, (GlobErrorKind, Seq<char>)>(e@),
        },
        match r {
            Ok(_) => glob_sections_outcome(pattern@, alignment_op@, priority_op@, Seq::empty()) is Ok,
            Err(e) => glob_sections_outcome(pattern@, alignment_op@, priority_op@, Seq::empty())
                == Err::<Seq<SectionCandidateView>, (GlobErrorKind, Seq<char>)>(e@),
        },
        r matches Ok(v) ==> forall|i: int|
            0 <= i < v@.len() ==> candidates@.map_values(|c: SectionCandidate| c@).contains(
                #[trigger] v@[i]@,
            ),
        r matches Ok(v) ==> forall|inner: Seq<char>|
            is_operator_name(alignment_op@) && pattern@ == applied(alignment_op@, inner) ==> {
                let o = #[trigger] glob_sections_outcome(
                    inner,
                    alignment_op@,
                    priority_op@,
                    candidates_view(candidates@),
                );
                &&& o is Ok
                &&& is_stable_sort_of(
                    candidates_view(v@),
                    o->Ok_0,
                    alignment_keys(o->Ok_0),
                )
            },
        r matches Ok(v) ==> forall|inner: Seq<char>|
            is_operator_name(priority_op@) && pattern@ == applied(priority_op@, inner) ==> {
                let o = #[trigger] glob_sections_outcome(
                    inner,
                    alignment_op@,
                    priority_op@,
                    candidates_view(candidates@),
                );
                &&& o is Ok
                &&& is_stable_sort_of(
                    candidates_view(v@),
                    o->Ok_0,
                    priority_keys(o->Ok_0),
                )
            },
{
    let mut builder = GlobberBuilder::new();
    builder.register_operator(FnOperator::new(alignment_op, |c| sort_by_alignment(c))).map_err(glob_error)?;
    builder.register_operator(FnOperator::new(priority_op, |c| sort_by_init_priority(c))).map_err(glob_error)?;
    let globber = builder.compile(pattern).map_err(glob_error)?;
    Ok(globber.run(candidates, |c| c.name.as_str()).into_iter().cloned().collect())
}

} // verus!
