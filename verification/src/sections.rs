//! The sections of one parsed object file, kept by name in name order.

use crate::lma::{
    assigned_lma, compute_lma_from_segments, lma_arithmetic_fits, ObjectFormat, ObjsecProps,
    ProgramHeader,
};
use crate::objparse::RawSectionView;
use vstd::prelude::*;

verus! {

/// `a` comes strictly before `b` in lexicographic order of characters.
pub open spec fn name_less(a: Seq<char>, b: Seq<char>) -> bool
    decreases a.len(),
{
    if a.len() == 0 {
        b.len() > 0
    } else if b.len() == 0 {
        false
    } else if a[0] != b[0] {
        a[0] < b[0]
    } else {
        name_less(a.drop_first(), b.drop_first())
    }
}

/// Names compare lexicographically: where `a` and `b` first differ, at a
/// position within both, the smaller character decides, whatever their
/// lengths; a proper prefix comes before every longer name it starts.
pub proof fn lemma_name_order_lexicographic(a: Seq<char>, b: Seq<char>, k: int)
    requires
        0 <= k <= a.len(),
        k <= b.len(),
        forall|i: int| 0 <= i < k ==> a[i] == b[i],
    ensures
        k < a.len() && k < b.len() && a[k] != b[k] ==> (name_less(a, b) <==> a[k] < b[k]),
        k == a.len() && a.len() < b.len() ==> name_less(a, b),
        k == a.len() && a.len() < b.len() ==> !name_less(b, a),
    decreases k,
{
    if k > 0 && a.len() > 0 && b.len() > 0 {
        assert(a[0] == b[0]);
        assert forall|i: int| 0 <= i < k - 1 implies a.drop_first()[i] == b.drop_first()[i] by {
            assert(a[i + 1] == b[i + 1]);
        }
        lemma_name_order_lexicographic(a.drop_first(), b.drop_first(), k - 1);
    }
}

/// The table of a file's sections, before LMA assignment, gives no section a
/// load address.
pub proof fn lemma_table_of_sections_unplaced(raws: Seq<RawSectionView>)
    ensures
        forall|k: int|
            0 <= k < table_of_sections(raws).len() ==> (#[trigger] table_of_sections(raws)[k]).1.lma
                is None,
    decreases raws.len(),
{
    if raws.len() > 0 {
        lemma_table_of_sections_unplaced(raws.drop_last());
        let e = table_of_sections(raws.drop_last());
        lemma_first_not_below_bounds(e, raws.last().name->Some_0);
    }
}

/// Exactly one of `a < b`, `a == b`, `b < a` holds.
pub proof fn lemma_name_order_total(a: Seq<char>, b: Seq<char>)
    ensures
        name_less(a, b) || a == b || name_less(b, a),
        !(name_less(a, b) && name_less(b, a)),
        !(name_less(a, b) && a == b),
    decreases a.len(),
{
    if a.len() > 0 && b.len() > 0 && a[0] == b[0] {
        lemma_name_order_total(a.drop_first(), b.drop_first());
        if a.drop_first() == b.drop_first() {
            assert(a =~= seq![a[0]] + a.drop_first());
            assert(b =~= seq![b[0]] + b.drop_first());
        }
    } else if a.len() == 0 && b.len() == 0 {
        assert(a =~= b);
    }
}

/// The order of names is transitive.
pub proof fn lemma_name_order_transitive(a: Seq<char>, b: Seq<char>, c: Seq<char>)
    requires
        name_less(a, b),
        name_less(b, c),
    ensures
        name_less(a, c),
    decreases a.len(),
{
    if a.len() > 0 && b.len() > 0 && c.len() > 0 && a[0] == b[0] && b[0] == c[0] {
        lemma_name_order_transitive(a.drop_first(), b.drop_first(), c.drop_first());
    }
}

/// Compares two names by their characters.
pub fn name_lt(a: &str, b: &str) -> (r: bool)
    ensures
        r == name_less(a@, b@),
{
    let la = a.unicode_len();
    let lb = b.unicode_len();
    let mut i: usize = 0;
    assert(a@.subrange(0, la as int) =~= a@);
    assert(b@.subrange(0, lb as int) =~= b@);
    while i < la && i < lb
        invariant
            la == a@.len(),
            lb == b@.len(),
            i <= la,
            i <= lb,
            a@.subrange(0, i as int) == b@.subrange(0, i as int),
            name_less(a@, b@) == name_less(
                a@.subrange(i as int, la as int),
                b@.subrange(i as int, lb as int),
            ),
        decreases la - i,
    {
        let ca = a.get_char(i);
        let cb = b.get_char(i);
        if ca != cb {
            return ca < cb;
        }
        assert(a@.subrange(i as int, la as int).drop_first() =~= a@.subrange(i + 1, la as int));
        assert(b@.subrange(i as int, lb as int).drop_first() =~= b@.subrange(i + 1, lb as int));
        assert(a@.subrange(0, i + 1) =~= a@.subrange(0, i as int).push(ca));
        assert(b@.subrange(0, i + 1) =~= b@.subrange(0, i as int).push(cb));
        i += 1;
    }
    i == la && i < lb
}

/// One entry of a section table: a section name and what is known of the section.
pub type SectionEntry = (Seq<char>, ObjsecProps);

/// The names of `e` rise strictly: no name twice, in name order.
pub open spec fn sorted_by_name(e: Seq<SectionEntry>) -> bool {
    forall|i: int, j: int| 0 <= i < j < e.len() ==> name_less(e[i].0, e[j].0)
}

/// The position of the first entry of `e` whose name is not below `n`.
pub open spec fn first_not_below(e: Seq<SectionEntry>, n: Seq<char>) -> int
    decreases e.len(),
{
    if e.len() == 0 {
        0
    } else if name_less(e[0].0, n) {
        1 + first_not_below(e.drop_first(), n)
    } else {
        0
    }
}

/// `e` with the section `n` set to `p`: replaced where `e` has it, else added
/// at its place in name order. This is what inserting into a map keyed by
/// name does, the map kept in name order.
pub open spec fn put_section(e: Seq<SectionEntry>, n: Seq<char>, p: ObjsecProps) -> Seq<SectionEntry> {
    let k = first_not_below(e, n);
    if k < e.len() && e[k].0 == n {
        e.update(k, (n, p))
    } else {
        e.insert(k, (n, p))
    }
}

/// The table that a parsed file's sections make: each section that has a name
/// and bytes in the file, keyed by name (a later section of the same name
/// replacing an earlier one), with no load address yet.
pub open spec fn table_of_sections(raws: Seq<RawSectionView>) -> Seq<SectionEntry>
    decreases raws.len(),
{
    if raws.len() == 0 {
        Seq::empty()
    } else {
        let e = table_of_sections(raws.drop_last());
        let r = raws.last();
        match (r.name, r.file_range) {
            (Some(n), Some(range)) => put_section(
                e,
                n,
                ObjsecProps {
                    file_offset: range.0,
                    size: range.1,
                    align: r.align,
                    vma: r.address,
                    lma: None,
                },
            ),
            _ => e,
        }
    }
}

/// The table `e` after LMA assignment from `headers` for a file of `format`.
pub open spec fn table_with_lma(
    e: Seq<SectionEntry>,
    format: ObjectFormat,
    headers: Seq<ProgramHeader>,
) -> Seq<SectionEntry> {
    if format == ObjectFormat::Other {
        e
    } else {
        Seq::new(
            e.len(),
            |i: int| (e[i].0, ObjsecProps { lma: Some(assigned_lma(headers, e[i].1)), ..e[i].1 }),
        )
    }
}

/// The section properties of the entries of `e`, in order.
pub open spec fn entry_props(e: Seq<SectionEntry>) -> Seq<ObjsecProps> {
    e.map_values(|x: SectionEntry| x.1)
}

proof fn lemma_first_not_below(e: Seq<SectionEntry>, n: Seq<char>, k: int)
    requires
        0 <= k <= e.len(),
        forall|j: int| 0 <= j < k ==> name_less(#[trigger] e[j].0, n),
        k == e.len() || !name_less(e[k].0, n),
    ensures
        first_not_below(e, n) == k,
    decreases k,
{
    if k > 0 {
        lemma_first_not_below(e.drop_first(), n, k - 1);
    }
}

proof fn lemma_first_not_below_bounds(e: Seq<SectionEntry>, n: Seq<char>)
    ensures
        0 <= first_not_below(e, n) <= e.len(),
        forall|j: int| 0 <= j < first_not_below(e, n) ==> name_less(#[trigger] e[j].0, n),
        first_not_below(e, n) < e.len() ==> !name_less(e[first_not_below(e, n)].0, n),
    decreases e.len(),
{
    if e.len() > 0 && name_less(e[0].0, n) {
        lemma_first_not_below_bounds(e.drop_first(), n);
        assert forall|j: int| 0 <= j < first_not_below(e, n) implies name_less(
            #[trigger] e[j].0,
            n,
        ) by {
            if j > 0 {
                assert(e[j] == e.drop_first()[j - 1]);
            }
        }
    }
}

/// Setting a section keeps a table in name order, with no name twice.
pub proof fn lemma_put_section_sorted(e: Seq<SectionEntry>, n: Seq<char>, p: ObjsecProps)
    requires
        sorted_by_name(e),
    ensures
        sorted_by_name(put_section(e, n, p)),
{
    let k = first_not_below(e, n);
    lemma_first_not_below_bounds(e, n);
    let f = put_section(e, n, p);
    if k < e.len() && e[k].0 == n {
        assert(forall|i: int| 0 <= i < e.len() ==> #[trigger] f[i].0 == e[i].0);
    } else {
        e.insert_ensures(k, (n, p));
        if k < e.len() {
            lemma_name_order_total(e[k].0, n);
            assert forall|j: int| k < j < e.len() implies name_less(n, #[trigger] e[j].0) by {
                lemma_name_order_transitive(n, e[k].0, e[j].0);
            }
        }
        assert forall|i: int, j: int| 0 <= i < j < f.len() implies name_less(f[i].0, f[j].0) by {
            if j < k {
            } else if j == k {
            } else if i < k {
                assert(f[j] == e[j - 1]);
            } else if i == k {
                assert(f[j] == e[j - 1]);
            } else {
                assert(f[j] == e[j - 1]);
                assert(f[i] == e[i - 1]);
            }
        }
    }
}

/// The table of a parsed file's sections is in name order, with no name
/// twice, whatever the order and repetitions of the sections in the file.
pub proof fn lemma_table_sorted(raws: Seq<RawSectionView>)
    ensures
        sorted_by_name(table_of_sections(raws)),
    decreases raws.len(),
{
    if raws.len() > 0 {
        lemma_table_sorted(raws.drop_last());
        let r = raws.last();
        match (r.name, r.file_range) {
            (Some(n), Some(range)) => {
                lemma_put_section_sorted(
                    table_of_sections(raws.drop_last()),
                    n,
                    ObjsecProps {
                        file_offset: range.0,
                        size: range.1,
                        align: r.align,
                        vma: r.address,
                        lma: None,
                    },
                );
            },
            _ => {},
        }
    }
}

/// The sections of one parsed object file, by name, in name order.
pub struct SectionTable {
    names: Vec<String>,
    props: Vec<ObjsecProps>,
}

impl SectionTable {
    /// The entries of the table, in name order.
    pub closed spec fn entries(&self) -> Seq<SectionEntry> {
        Seq::new(self.names@.len(), |i: int| (self.names@[i]@, self.props@[i]))
    }

    /// The table is well formed: its names rise strictly.
    pub closed spec fn wf(&self) -> bool {
        &&& self.names@.len() == self.props@.len()
        &&& sorted_by_name(self.entries())
    }

    /// A well-formed table is in name order, with no name twice.
    pub proof fn lemma_wf_sorted(&self)
        requires
            self.wf(),
        ensures
            sorted_by_name(self.entries()),
    {
    }

    /// An empty table.
    pub fn new() -> (t: Self)
        ensures
            t.wf(),
            t.entries() == Seq::<SectionEntry>::empty(),
    {
        let t = SectionTable { names: Vec::new(), props: Vec::new() };
        assert(t.entries() =~= Seq::<SectionEntry>::empty());
        t
    }

    /// The number of sections.
    pub fn len(&self) -> (r: usize)
        requires
            self.wf(),
        ensures
            r == self.entries().len(),
    {
        self.names.len()
    }

    /// The name of the section at `i`.
    pub fn name_at(&self, i: usize) -> (r: &String)
        requires
            self.wf(),
            i < self.entries().len(),
        ensures
            r@ == self.entries()[i as int].0,
    {
        &self.names[i]
    }

    /// What is known of the section at `i`.
    pub fn props_at(&self, i: usize) -> (r: ObjsecProps)
        requires
            self.wf(),
            i < self.entries().len(),
        ensures
            r == self.entries()[i as int].1,
    {
        self.props[i]
    }

    /// What is known of each section, in name order.
    pub fn props_list(&self) -> (r: Vec<ObjsecProps>)
        requires
            self.wf(),
        ensures
            r@ == entry_props(self.entries()),
    {
        let r = self.props.clone();
        assert(r@ =~= entry_props(self.entries()));
        r
    }

    /// Sets the section `name` to `p`, replacing what the table had of it.
    pub fn put(&mut self, name: String, p: ObjsecProps)
        requires
            old(self).wf(),
        ensures
            final(self).wf(),
            final(self).entries() == put_section(old(self).entries(), name@, p),
    {
        let ghost e = self.entries();
        let mut k: usize = 0;
        while k < self.names.len() && name_lt(self.names[k].as_str(), name.as_str())
            invariant
                self.wf(),
                self.entries() == e,
                k <= e.len(),
                forall|j: int| 0 <= j < k ==> name_less(#[trigger] e[j].0, name@),
            decreases e.len() - k,
        {
            k += 1;
        }
        proof {
            lemma_first_not_below(e, name@, k as int);
            lemma_put_section_sorted(e, name@, p);
        }
        if k < self.names.len() && self.names[k] == name {
            self.props.set(k, p);
            assert(self.entries() =~= e.update(k as int, (name@, p)));
        } else {
            self.names.insert(k, name);
            self.props.insert(k, p);
            assert(self.entries() =~= e.insert(k as int, (name@, p)));
        }
    }

    /// Assigns load addresses from the program headers of an ELF file; the
    /// sections of any other format keep what they have.
    pub fn assign_lma(&mut self, format: ObjectFormat, headers: &[ProgramHeader])
        requires
            old(self).wf(),
            format != ObjectFormat::Other ==> lma_arithmetic_fits(
                headers@,
                entry_props(old(self).entries()),
            ),
        ensures
            final(self).wf(),
            final(self).entries() == table_with_lma(old(self).entries(), format, headers@),
    {
        let ghost e = self.entries();
        assert(self.props@ =~= entry_props(e));
        compute_lma_from_segments(format, headers, &mut self.props);
        assert(self.entries() =~= table_with_lma(e, format, headers@));
    }
}

} // verus!
