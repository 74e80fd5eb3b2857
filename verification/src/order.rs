//! The orders in which section candidates are packed: stable sorts by
//! alignment and by init priority, and the init priority of a section name.

use crate::text::{decimal, digit_char, digits};
use vstd::prelude::*;

verus! {

/// One section of one matched object file, as the section patterns see it.
#[derive(Clone, Debug)]
pub struct SectionCandidate {
    pub name: String,
    pub file: String,
    pub file_offset: u64,
    pub size: u64,
    pub align: u64,
    pub vma: u64,
    pub lma: u64,
}

/// A section candidate as plain values.
pub struct SectionCandidateView {
    pub name: Seq<char>,
    pub file: Seq<char>,
    pub file_offset: u64,
    pub size: u64,
    pub align: u64,
    pub vma: u64,
    pub lma: u64,
}

impl View for SectionCandidate {
    type V = SectionCandidateView;

    open spec fn view(&self) -> SectionCandidateView {
        SectionCandidateView {
            name: self.name@,
            file: self.file@,
            file_offset: self.file_offset,
            size: self.size,
            align: self.align,
            vma: self.vma,
            lma: self.lma,
        }
    }
}

/// The views of a list of candidates.
pub open spec fn candidates_view(v: Seq<SectionCandidate>) -> Seq<SectionCandidateView> {
    v.map_values(|c: SectionCandidate| c@)
}

/// `perm` lists every position `0..keys.len()` once, ordered by key and, among
/// equal keys, by position: the order in which a stable sort by `keys` puts them.
pub open spec fn stable_order(perm: Seq<int>, keys: Seq<int>) -> bool {
    &&& perm.len() == keys.len()
    &&& forall|i: int| 0 <= i < perm.len() ==> 0 <= #[trigger] perm[i] < keys.len()
    &&& forall|k: int| 0 <= k < keys.len() ==> #[trigger] perm.contains(k)
    &&& forall|i: int, j: int|
        0 <= i < j < perm.len() ==> keys[perm[i]] < keys[perm[j]] || (keys[perm[i]]
            == keys[perm[j]] && perm[i] < perm[j])
}

/// `out` is `inp` sorted stably by `keys` (`keys[j]` the key of `inp[j]`).
pub open spec fn is_stable_sort_of<T>(out: Seq<T>, inp: Seq<T>, keys: Seq<int>) -> bool {
    exists|perm: Seq<int>|
        stable_order(perm, keys) && #[trigger] perm.len() == out.len() && forall|i: int|
            0 <= i < out.len() ==> out[i] == inp[#[trigger] perm[i]]
}

/// The keys of `keys` as integers, negated when sorting in descending order.
pub open spec fn directed_keys(keys: Seq<u128>, descending: bool) -> Seq<int> {
    Seq::new(keys.len(), |j: int| if descending { -(keys[j] as int) } else { keys[j] as int })
}

/// A key `a` stays before a key `b` that comes later in a stable sort.
fn key_not_after(a: u128, b: u128, descending: bool) -> (r: bool)
    ensures
        r == (if descending {
            a >= b
        } else {
            a <= b
        }),
{
    if descending {
        a >= b
    } else {
        a <= b
    }
}

/// The positions of `keys` in the order of a stable sort by key, ascending or descending.
pub fn stable_order_of_keys(keys: &Vec<u128>, descending: bool) -> (order: Vec<usize>)
    ensures
        stable_order(order@.map_values(|x: usize| x as int), directed_keys(keys@, descending)),
{
    let ghost dk = directed_keys(keys@, descending);
    let mut order: Vec<usize> = Vec::new();
    let mut idx: usize = 0;
    while idx < keys.len()
        invariant
            idx <= keys@.len(),
            dk == directed_keys(keys@, descending),
            order@.len() == idx,
            forall|i: int| 0 <= i < order@.len() ==> #[trigger] order@[i] < idx,
            forall|k: int| 0 <= k < idx ==> #[trigger] order@.contains(k as usize),
            forall|i: int, j: int|
                0 <= i < j < order@.len() ==> dk[order@[i] as int] < dk[order@[j] as int] || (
                dk[order@[i] as int] == dk[order@[j] as int] && order@[i] < order@[j]),
        decreases keys@.len() - idx,
    {
        let k = keys[idx];
        let mut p: usize = 0;
        while p < order.len() && key_not_after(keys[order[p]], k, descending)
            invariant
                idx < keys@.len(),
                k == keys@[idx as int],
                dk == directed_keys(keys@, descending),
                p <= order@.len(),
                forall|i: int| 0 <= i < order@.len() ==> #[trigger] order@[i] < idx,
                forall|i: int| 0 <= i < p ==> dk[#[trigger] order@[i] as int] <= dk[idx as int],
            decreases order@.len() - p,
        {
            p += 1;
        }
        let ghost old_order = order@;
        proof {
            assert forall|i: int| p <= i < old_order.len() implies dk[idx as int] < dk[
                #[trigger] old_order[i] as int] by {
                if dk[old_order[i] as int] <= dk[idx as int] {
                    assert(dk[old_order[p as int] as int] <= dk[old_order[i] as int]);
                }
            }
        }
        order.insert(p, idx);
        proof {
            old_order.insert_ensures(p as int, idx);
            assert forall|kk: int| 0 <= kk < idx + 1 implies #[trigger] order@.contains(
                kk as usize,
            ) by {
                if kk == idx {
                    assert(order@[p as int] == idx);
                } else {
                    assert(old_order.contains(kk as usize));
                    let w = choose|w: int| 0 <= w < old_order.len() && old_order[w] == kk as usize;
                    if w < p {
                        assert(order@[w] == kk as usize);
                    } else {
                        assert(order@[w + 1] == kk as usize);
                    }
                }
            }
        }
        idx += 1;
    }
    proof {
        let perm = order@.map_values(|x: usize| x as int);
        assert forall|k: int| 0 <= k < dk.len() implies #[trigger] perm.contains(k) by {
            assert(order@.contains(k as usize));
            let w = choose|w: int| 0 <= w < order@.len() && order@[w] == k as usize;
            assert(perm[w] == k);
        }
    }
    order
}

/// The part of `s` after its last `.`, or all of `s` where it has none.
pub open spec fn after_last_dot(s: Seq<char>) -> Seq<char>
    decreases s.len(),
{
    if s.len() == 0 {
        s
    } else if s.last() == '.' {
        Seq::empty()
    } else {
        after_last_dot(s.drop_last()).push(s.last())
    }
}

/// `c` is one of the ASCII digits `0` to `9`.
pub open spec fn is_ascii_digit(c: char) -> bool {
    '0' <= c && c <= '9'
}

/// The value of a string of decimal digits.
pub open spec fn digits_value(d: Seq<char>) -> int
    decreases d.len(),
{
    if d.len() == 0 {
        0
    } else {
        10 * digits_value(d.drop_last()) + (d.last() as int - '0' as int)
    }
}

/// What `str::parse::<u64>` gives for the text `t`: an optional `+`, then one or
/// more ASCII digits whose value fits in `u64`; anything else is an error.
pub open spec fn parse_u64(t: Seq<char>) -> Option<u64> {
    let d = without_plus_sign(t);
    if d.len() > 0 && all_ascii_digits(d) && digits_value(d) <= u64::MAX {
        Some(digits_value(d) as u64)
    } else {
        None
    }
}

/// `t` without the `+` sign that may lead it.
pub open spec fn without_plus_sign(t: Seq<char>) -> Seq<char> {
    if t.len() > 0 && t[0] == '+' {
        t.drop_first()
    } else {
        t
    }
}

/// Every character of `d` is an ASCII digit.
pub open spec fn all_ascii_digits(d: Seq<char>) -> bool {
    forall|i: int| 0 <= i < d.len() ==> is_ascii_digit(#[trigger] d[i])
}

/// The init priority of a section name: the number after its last `.`
/// (`.init_array.00100` has 100), or `u64::MAX` where that part is no number.
pub open spec fn init_priority_of(name: Seq<char>) -> u64 {
    match parse_u64(after_last_dot(name)) {
        Some(v) => v,
        None => u64::MAX,
    }
}

/// The key by which sections sort by init priority: the number after the last
/// `.`, and for names without one a key above every number, so that they sort
/// after all numbered names.
pub open spec fn init_priority_rank(name: Seq<char>) -> int {
    match parse_u64(after_last_dot(name)) {
        Some(v) => v as int,
        None => u64::MAX + 1,
    }
}

proof fn lemma_after_last_dot(s: Seq<char>, start: int)
    requires
        0 <= start <= s.len(),
        start == 0 || s[start - 1] == '.',
        forall|k: int| start <= k < s.len() ==> s[k] != '.',
    ensures
        after_last_dot(s) == s.subrange(start, s.len() as int),
    decreases s.len(),
{
    if s.len() == 0 {
    } else if start == s.len() {
        assert(s.subrange(start, s.len() as int) =~= Seq::<char>::empty());
    } else {
        lemma_after_last_dot(s.drop_last(), start);
        assert(s.subrange(start, s.len() as int) =~= s.drop_last().subrange(
            start,
            s.len() - 1,
        ).push(s.last()));
    }
}

proof fn lemma_digits_value_grows(d: Seq<char>, k: int)
    requires
        0 <= k <= d.len(),
        forall|i: int| 0 <= i < d.len() ==> is_ascii_digit(#[trigger] d[i]),
    ensures
        0 <= digits_value(d.take(k)) <= digits_value(d),
    decreases d.len(),
{
    if d.len() == 0 {
        assert(d.take(k) =~= d);
    } else if k == d.len() {
        assert(d.take(k) =~= d);
        lemma_digits_value_grows(d.drop_last(), k - 1);
    } else {
        lemma_digits_value_grows(d.drop_last(), k);
        assert(d.drop_last().take(k) =~= d.take(k));
        lemma_digits_value_grows(d.drop_last(), 0);
    }
}

/// The init priority of a section name: the decimal number after its last `.`,
/// or `u64::MAX` where there is none.
pub fn init_priority(name: &str) -> (r: u64)
    ensures
        r == init_priority_of(name@),
{
    match numeric_suffix(name) {
        Some(v) => v,
        None => u64::MAX,
    }
}

/// The decimal number after the last `.` of a section name, as
/// `str::parse::<u64>` reads it, or `None` where that part is no such number.
pub fn numeric_suffix(name: &str) -> (r: Option<u64>)
    ensures
        r == parse_u64(after_last_dot(name@)),
{
    let n = name.unicode_len();
    let mut start = n;
    while start > 0 && name.get_char(start - 1) != '.'
        invariant
            start <= n,
            n == name@.len(),
            forall|k: int| start <= k < n ==> name@[k] != '.',
        decreases start,
    {
        start -= 1;
    }
    proof {
        lemma_after_last_dot(name@, start as int);
    }
    let ghost t = name@.subrange(start as int, n as int);
    let mut i = start;
    if i < n && name.get_char(i) == '+' {
        i += 1;
    }
    let ghost d = name@.subrange(i as int, n as int);
    assert(d =~= without_plus_sign(t));
    if i == n {
        return None;
    }
    let d_start = i;
    let mut value: u64 = 0;
    while i < n
        invariant
            d_start <= i <= n,
            n == name@.len(),
            d == name@.subrange(d_start as int, n as int),
            d == without_plus_sign(t),
            after_last_dot(name@) == t,
            d.len() > 0,
            forall|k: int| d_start <= k < i ==> is_ascii_digit(#[trigger] name@[k]),
            value == digits_value(name@.subrange(d_start as int, i as int)),
        decreases n - i,
    {
        let c = name.get_char(i);
        assert(d[i - d_start] == name@[i as int]);
        if !(c >= '0' && c <= '9') {
            assert(!is_ascii_digit(d[i - d_start]));
            assert(!all_ascii_digits(d));
            assert(parse_u64(t) is None);
            return None;
        }
        let digit = (c as u32 - 48) as u64;
        assert(name@.subrange(d_start as int, i + 1).drop_last() =~= name@.subrange(
            d_start as int,
            i as int,
        ));
        let next = match value.checked_mul(10) {
            Some(v) => v.checked_add(digit),
            None => None,
        };
        match next {
            Some(v) => {
                value = v;
            },
            None => {
                proof {
                    let p = name@.subrange(d_start as int, i + 1);
                    assert(digits_value(p) == 10 * value + digit);
                    assert(digits_value(p) > u64::MAX);
                    if all_ascii_digits(d) {
                        lemma_digits_value_grows(d, i + 1 - d_start);
                        assert(d.take(i + 1 - d_start) =~= p);
                    }
                    assert(parse_u64(t) is None);
                }
                return None;
            },
        }
        i += 1;
    }
    assert(d =~= name@.subrange(d_start as int, i as int));
    Some(value)
}

/// Sorts the candidates by alignment, largest first, keeping the order of
/// candidates with equal alignment.
pub fn sort_by_alignment(candidates: &mut Vec<&SectionCandidate>)
    ensures
        is_stable_sort_of(
            final(candidates)@,
            old(candidates)@,
            Seq::new(old(candidates)@.len(), |j: int| -(old(candidates)@[j].align as int)),
        ),
{
    let mut keys: Vec<u128> = Vec::new();
    let mut i: usize = 0;
    while i < candidates.len()
        invariant
            i <= candidates@.len(),
            keys@.len() == i,
            forall|j: int| 0 <= j < i ==> keys@[j] == (#[trigger] candidates@[j]).align,
        decreases candidates@.len() - i,
    {
        keys.push(candidates[i].align as u128);
        i += 1;
    }
    let order = stable_order_of_keys(&keys, true);
    assert(directed_keys(keys@, true) =~= Seq::new(
        candidates@.len(),
        |j: int| -(candidates@[j].align as int),
    ));
    reorder(candidates, &order, Ghost(directed_keys(keys@, true)));
}

/// Sorts the candidates by init priority, smallest first, names without a
/// numeric suffix last, keeping the order of candidates with equal keys.
pub fn sort_by_init_priority(candidates: &mut Vec<&SectionCandidate>)
    ensures
        is_stable_sort_of(
            final(candidates)@,
            old(candidates)@,
            Seq::new(
                old(candidates)@.len(),
                |j: int| init_priority_rank(old(candidates)@[j].name@),
            ),
        ),
{
    let mut keys: Vec<u128> = Vec::new();
    let mut i: usize = 0;
    while i < candidates.len()
        invariant
            i <= candidates@.len(),
            keys@.len() == i,
            forall|j: int|
                0 <= j < i ==> keys@[j] == init_priority_rank((#[trigger] candidates@[j]).name@),
        decreases candidates@.len() - i,
    {
        let rank: u128 = match numeric_suffix(candidates[i].name.as_str()) {
            Some(v) => v as u128,
            None => 0x1_0000_0000_0000_0000u128,
        };
        keys.push(rank);
        i += 1;
    }
    let order = stable_order_of_keys(&keys, false);
    assert(directed_keys(keys@, false) =~= Seq::new(
        candidates@.len(),
        |j: int| init_priority_rank(candidates@[j].name@),
    ));
    reorder(candidates, &order, Ghost(directed_keys(keys@, false)));
}

/// Replaces the candidates by the ones at the positions that `order` lists.
fn reorder(candidates: &mut Vec<&SectionCandidate>, order: &Vec<usize>, Ghost(keys): Ghost<Seq<int>>)
    requires
        stable_order(order@.map_values(|x: usize| x as int), keys),
        keys.len() == old(candidates)@.len(),
    ensures
        is_stable_sort_of(final(candidates)@, old(candidates)@, keys),
{
    let ghost perm = order@.map_values(|x: usize| x as int);
    let mut out: Vec<&SectionCandidate> = Vec::new();
    let mut i: usize = 0;
    while i < order.len()
        invariant
            i <= order@.len(),
            stable_order(perm, keys),
            perm == order@.map_values(|x: usize| x as int),
            keys.len() == candidates@.len(),
            out@.len() == i,
            forall|j: int| 0 <= j < i ==> out@[j] == candidates@[#[trigger] perm[j]],
        decreases order@.len() - i,
    {
        assert(0 <= perm[i as int] < keys.len());
        out.push(candidates[order[i]]);
        i += 1;
    }
    let ghost before = candidates@;
    *candidates = out;
    assert(stable_order(perm, keys) && perm.len() == candidates@.len() && forall|j: int|
        0 <= j < candidates@.len() ==> candidates@[j] == before[#[trigger] perm[j]]);
}

/// Sections whose name has no numeric suffix sort after all that have one,
/// even the suffix `u64::MAX`.
pub proof fn lemma_unnumbered_sorts_last(numbered: Seq<char>, unnumbered: Seq<char>)
    requires
        parse_u64(after_last_dot(numbered)) is Some,
        parse_u64(after_last_dot(unnumbered)) is None,
    ensures
        init_priority_rank(numbered) < init_priority_rank(unnumbered),
{
}

/// Two stable orders of the same keys are the same: a stable sort has one result.
pub proof fn lemma_stable_order_unique(p1: Seq<int>, p2: Seq<int>, keys: Seq<int>)
    requires
        stable_order(p1, keys),
        stable_order(p2, keys),
    ensures
        p1 == p2,
{
    if p1 != p2 {
        assert(!(p1 =~= p2));
        let i = choose|i: int| 0 <= i < p1.len() && p1[i] != p2[i] && forall|j: int|
            0 <= j < i ==> p1[j] == p2[j];
        lemma_first_difference(p1, p2);
        let a = p1[i];
        let b = p2[i];
        assert(p2.contains(a));
        let ja = choose|ja: int| 0 <= ja < p2.len() && p2[ja] == a;
        assert(p1.contains(b));
        let jb = choose|jb: int| 0 <= jb < p1.len() && p1[jb] == b;
        if ja < i {
            assert(p1[ja] == a);
        } else if jb < i {
            assert(p2[jb] == b);
        } else {
            assert(ja > i && jb > i);
        }
    }
}

proof fn lemma_first_difference(p1: Seq<int>, p2: Seq<int>)
    requires
        p1.len() == p2.len(),
        !(p1 =~= p2),
    ensures
        exists|i: int| 0 <= i < p1.len() && p1[i] != p2[i] && forall|j: int|
            0 <= j < i ==> p1[j] == p2[j],
    decreases p1.len(),
{
    if p1.len() > 0 && p1[0] == p2[0] {
        if p1.drop_first() =~= p2.drop_first() {
            assert forall|i: int| 0 <= i < p1.len() implies p1[i] == p2[i] by {
                if i > 0 {
                    assert(p1[i] == p1.drop_first()[i - 1]);
                    assert(p2[i] == p2.drop_first()[i - 1]);
                }
            }
            assert(p1 =~= p2);
        }
        lemma_first_difference(p1.drop_first(), p2.drop_first());
        let k = choose|k: int| 0 <= k < p1.drop_first().len() && p1.drop_first()[k] != p2.drop_first()[k]
            && forall|j: int| 0 <= j < k ==> p1.drop_first()[j] == p2.drop_first()[j];
        assert forall|j: int| 0 <= j < k + 1 implies p1[j] == p2[j] by {
            if j > 0 {
                assert(p1[j] == p1.drop_first()[j - 1]);
                assert(p2[j] == p2.drop_first()[j - 1]);
            }
        }
        assert(p1[k + 1] != p2[k + 1]);
    } else {
        assert(p1[0] != p2[0]);
    }
}

/// A stable sort has one result: two stable sorts of the same input by the
/// same keys agree.
pub proof fn lemma_stable_sort_unique<T>(out1: Seq<T>, out2: Seq<T>, inp: Seq<T>, keys: Seq<int>)
    requires
        is_stable_sort_of(out1, inp, keys),
        is_stable_sort_of(out2, inp, keys),
    ensures
        out1 == out2,
{
    let p1 = choose|perm: Seq<int>|
        stable_order(perm, keys) && #[trigger] perm.len() == out1.len() && forall|i: int|
            0 <= i < out1.len() ==> out1[i] == inp[#[trigger] perm[i]];
    let p2 = choose|perm: Seq<int>|
        stable_order(perm, keys) && #[trigger] perm.len() == out2.len() && forall|i: int|
            0 <= i < out2.len() ==> out2[i] == inp[#[trigger] perm[i]];
    lemma_stable_order_unique(p1, p2, keys);
    assert forall|i: int| 0 <= i < out1.len() implies out1[i] == out2[i] by {
        assert(out1[i] == inp[p1[i]]);
        assert(out2[i] == inp[p2[i]]);
    }
    assert(out1 =~= out2);
}

/// The keys that `f` gives the items of `s`.
pub open spec fn keys_by<T>(s: Seq<T>, f: spec_fn(T) -> int) -> Seq<int> {
    Seq::new(s.len(), |j: int| f(s[j]))
}

/// Sorting settles: stably sorting, by the same key, what a stable sort gave
/// gives it back unchanged.
pub proof fn lemma_stable_sort_settles<T>(out: Seq<T>, inp: Seq<T>, f: spec_fn(T) -> int, again: Seq<T>)
    requires
        is_stable_sort_of(out, inp, keys_by(inp, f)),
        is_stable_sort_of(again, out, keys_by(out, f)),
    ensures
        again == out,
{
    let keys = keys_by(inp, f);
    let p = choose|perm: Seq<int>|
        stable_order(perm, keys) && #[trigger] perm.len() == out.len() && forall|i: int|
            0 <= i < out.len() ==> out[i] == inp[#[trigger] perm[i]];
    let ko = keys_by(out, f);
    let id = Seq::new(out.len(), |i: int| i);
    assert forall|i: int| 0 <= i < out.len() implies ko[i] == keys[p[i]] by {
        assert(out[i] == inp[p[i]]);
    }
    assert forall|k: int| 0 <= k < ko.len() implies #[trigger] id.contains(k) by {
        assert(id[k] == k);
    }
    assert forall|i: int, j: int| 0 <= i < j < id.len() implies ko[id[i]] < ko[id[j]] || (ko[id[i]]
        == ko[id[j]] && id[i] < id[j]) by {
        assert(ko[i] == keys[p[i]] && ko[j] == keys[p[j]]);
    }
    assert(stable_order(id, ko));
    assert(forall|i: int| 0 <= i < out.len() ==> out[i] == out[#[trigger] id[i]]);
    assert(is_stable_sort_of(out, out, ko));
    lemma_stable_sort_unique(again, out, out, ko);
}

/// `k` zero digits.
pub open spec fn zeros(k: nat) -> Seq<char> {
    Seq::new(k, |i: int| '0')
}

proof fn lemma_digit_char(d: nat)
    requires
        d < 10,
    ensures
        is_ascii_digit(digit_char(d)),
        digit_char(d) as int - '0' as int == d,
{
}

proof fn lemma_decimal_digits(n: nat)
    ensures
        decimal(n).len() > 0,
        all_ascii_digits(decimal(n)),
        digits_value(decimal(n)) == n,
    decreases n,
{
    lemma_digit_char(n % 10);
    if n < 10 {
        assert(decimal(n) == seq![digit_char(n % 10)]);
        assert(decimal(n).drop_last() =~= Seq::<char>::empty());
        assert(digits_value(decimal(n)) == 10 * digits_value(Seq::<char>::empty()) + (
        digit_char(n % 10) as int - '0' as int));
    } else {
        lemma_decimal_digits(n / 10);
        let d = digits(n / 10, 10);
        assert(decimal(n) == d.push(digit_char(n % 10)));
        assert(decimal(n).drop_last() =~= d);
        assert(digits_value(decimal(n)) == 10 * (n / 10) + n % 10);
        assert(10 * (n / 10) + n % 10 == n) by (nonlinear_arith);
        assert forall|i: int| 0 <= i < decimal(n).len() implies is_ascii_digit(
            #[trigger] decimal(n)[i],
        ) by {
            if i < d.len() {
                assert(decimal(n)[i] == d[i]);
            }
        }
    }
}

proof fn lemma_zeros_value(k: nat)
    ensures
        digits_value(zeros(k)) == 0,
    decreases k,
{
    if k > 0 {
        lemma_zeros_value((k - 1) as nat);
        assert(zeros(k).drop_last() =~= zeros((k - 1) as nat));
    }
}

proof fn lemma_zeros_prefix(k: nat, d: Seq<char>)
    ensures
        digits_value(zeros(k) + d) == digits_value(d),
    decreases d.len(),
{
    if d.len() == 0 {
        assert(zeros(k) + d =~= zeros(k));
        lemma_zeros_value(k);
    } else {
        lemma_zeros_prefix(k, d.drop_last());
        assert((zeros(k) + d).drop_last() =~= zeros(k) + d.drop_last());
    }
}

/// A section name written as any prefix, a `.` and a number, with or without
/// leading zeros (`.init_array.100`, `.init_array.00100`), has that number as
/// its init priority and sorts by it.
pub proof fn lemma_init_priority_round_trip(prefix: Seq<char>, pad: nat, n: u64)
    ensures
        init_priority_of(prefix + seq!['.'] + zeros(pad) + decimal(n as nat)) == n,
        init_priority_rank(prefix + seq!['.'] + zeros(pad) + decimal(n as nat)) == n,
{
    let d = decimal(n as nat);
    let s = zeros(pad) + d;
    let name = prefix + seq!['.'] + s;
    lemma_decimal_digits(n as nat);
    lemma_zeros_prefix(pad, d);
    assert forall|i: int| 0 <= i < s.len() implies is_ascii_digit(#[trigger] s[i]) by {
        if i >= pad {
            assert(s[i] == d[i - pad]);
        }
    }
    assert forall|k: int| prefix.len() + 1 <= k < name.len() implies name[k] != '.' by {
        assert(name[k] == s[k - prefix.len() - 1]);
        assert(is_ascii_digit(s[k - prefix.len() - 1]));
    }
    assert(name[prefix.len() as int] == '.');
    lemma_after_last_dot(name, prefix.len() + 1int);
    assert(name.subrange(prefix.len() + 1int, name.len() as int) =~= s);
    assert(is_ascii_digit(s[0]));
    assert(without_plus_sign(s) == s);
    assert(prefix + seq!['.'] + zeros(pad) + d =~= name);
}

} // verus!
