//! Searching the index by name or description.

use vstd::prelude::*;
use crate::formula::Formula;
use crate::text::{
    chars_of, lemma_text_lt_transitive, occurs_in, occurs_in_exec, text_lt, text_lt_exec,
};

verus! {

/// How many hits `search` shows; the rest are counted.
pub const SHOWN_HITS: usize = 50;

/// The lowercase form of a text.
pub uninterp spec fn spec_lowercase(s: Seq<char>) -> Seq<char>;

/// `str::to_lowercase`: the lowercase form of `s`, which depends on `s` alone.
#[verifier::external_body]
fn lowercase(s: &str) -> (res: String)
    ensures
        res@ == spec_lowercase(s@),
{
    s.to_lowercase()
}

/// A formula matches a query when the lowercased query occurs in its
/// lowercased name or description.
pub open spec fn search_match(f: Formula, q: Seq<char>) -> bool {
    ||| occurs_in(spec_lowercase(f.name@), spec_lowercase(q))
    ||| (f.desc matches Some(d) && occurs_in(spec_lowercase(d@), spec_lowercase(q)))
}

/// The indices below `n` of the matching formulae, in index order.
pub open spec fn matching(fs: Seq<Formula>, q: Seq<char>, n: int) -> Seq<int>
    decreases n,
{
    if n <= 0 {
        Seq::empty()
    } else if search_match(fs[n - 1], q) {
        matching(fs, q, n - 1).push(n - 1)
    } else {
        matching(fs, q, n - 1)
    }
}

/// Where a stable insertion by name puts formula `x` into `s`: after every
/// entry whose name does not order after its own.
pub open spec fn first_greater(fs: Seq<Formula>, s: Seq<int>, x: int) -> int
    decreases s.len(),
{
    if s.len() == 0 {
        0
    } else if text_lt(fs[x].name@, fs[s[0]].name@) {
        0
    } else {
        1 + first_greater(fs, s.drop_first(), x)
    }
}

/// The entries of `s` stably sorted by formula name (`sort_by` on names).
pub open spec fn sort_by_name(fs: Seq<Formula>, s: Seq<int>) -> Seq<int>
    decreases s.len(),
{
    if s.len() == 0 {
        Seq::empty()
    } else {
        let t = sort_by_name(fs, s.drop_last());
        t.insert(first_greater(fs, t, s.last()), s.last())
    }
}

/// The search result: the matching formulae, stably sorted by name.
pub open spec fn spec_search(fs: Seq<Formula>, q: Seq<char>) -> Seq<int> {
    sort_by_name(fs, matching(fs, q, fs.len() as int))
}

pub open spec fn idx(v: Seq<usize>) -> Seq<int> {
    v.map_values(|u: usize| u as int)
}

proof fn lemma_first_greater_range(fs: Seq<Formula>, s: Seq<int>, x: int)
    ensures
        0 <= first_greater(fs, s, x) <= s.len(),
    decreases s.len(),
{
    if s.len() > 0 && !text_lt(fs[x].name@, fs[s[0]].name@) {
        lemma_first_greater_range(fs, s.drop_first(), x);
    }
}

/// Whether a formula matches, given its name, its description and the
/// query, each already lowercased: the query occurs in the name or in the
/// description.
pub fn matches_lowered(name: &str, desc: Option<&str>, query: &str) -> (res: bool)
    ensures
        res == (occurs_in(name@, query@) || (desc matches Some(d) && occurs_in(d@, query@))),
{
    let q = chars_of(query);
    if occurs_in_exec(&chars_of(name), &q) {
        return true;
    }
    match desc {
        Some(d) => occurs_in_exec(&chars_of(d), &q),
        None => false,
    }
}

/// The formulae whose name or description contains the query (ignoring
/// case), as indices into the index, sorted by name; formulae of equal name
/// keep their index order.
pub fn search(formulae: &Vec<Formula>, query: &str) -> (res: Vec<usize>)
    ensures
        idx(res@) == spec_search(formulae@, query@),
{
    let ghost fs = formulae@;
    let q = lowercase(query);
    let mut hits: Vec<usize> = Vec::new();
    let mut i: usize = 0;
    while i < formulae.len()
        invariant
            i <= formulae.len(),
            fs == formulae@,
            q@ == spec_lowercase(query@),
            idx(hits@) == matching(fs, query@, i as int),
            forall|j: int| 0 <= j < hits@.len() ==> hits@[j] < formulae.len(),
        decreases formulae.len() - i,
    {
        let f = &formulae[i];
        let name = lowercase(f.name.as_str());
        let m = match &f.desc {
            Some(d) => {
                let dl = lowercase(d.as_str());
                matches_lowered(name.as_str(), Some(dl.as_str()), q.as_str())
            },
            None => matches_lowered(name.as_str(), None, q.as_str()),
        };
        assert(m == search_match(fs[i as int], query@));
        if m {
            let ghost h0 = idx(hits@);
            hits.push(i);
            assert(idx(hits@) =~= h0.push(i as int));
        }
        i = i + 1;
    }
    sort_hits(formulae, &hits)
}

/// Sorts hits (indices into the index) by formula name, stably: hits of
/// equal name keep their order.
pub fn sort_hits(formulae: &Vec<Formula>, hits: &Vec<usize>) -> (res: Vec<usize>)
    requires
        forall|j: int| 0 <= j < hits@.len() ==> hits@[j] < formulae.len(),
    ensures
        idx(res@) == sort_by_name(formulae@, idx(hits@)),
{
    let ghost fs = formulae@;
    let mut out: Vec<usize> = Vec::new();
    let ghost mv = idx(hits@);
    let mut k: usize = 0;
    assert(mv.take(0) =~= Seq::<int>::empty());
    while k < hits.len()
        invariant
            k <= hits.len(),
            fs == formulae@,
            mv == idx(hits@),
            forall|j: int| 0 <= j < hits@.len() ==> hits@[j] < formulae.len(),
            forall|j: int| 0 <= j < out@.len() ==> out@[j] < formulae.len(),
            idx(out@) == sort_by_name(fs, mv.take(k as int)),
        decreases hits.len() - k,
    {
        let x = hits[k];
        assert(mv.take(k + 1).drop_last() =~= mv.take(k as int));
        assert(mv.take(k + 1).last() == x as int);
        let xn = chars_of(formulae[x].name.as_str());
        let ghost t = idx(out@);
        let mut p: usize = 0;
        let mut go = true;
        assert(t.skip(0) =~= t);
        while go && p < out.len()
            invariant
                p <= out.len(),
                t == idx(out@),
                fs == formulae@,
                x < formulae.len(),
                xn@ == fs[x as int].name@,
                forall|j: int| 0 <= j < out@.len() ==> out@[j] < formulae.len(),
                first_greater(fs, t, x as int) == p + first_greater(fs, t.skip(p as int), x as int),
                !go ==> p < out.len() && text_lt(fs[x as int].name@, fs[t[p as int]].name@),
            decreases out.len() - p, (if go { 1int } else { 0int }),
        {
            let yn = chars_of(formulae[out[p]].name.as_str());
            assert(t.skip(p as int)[0] == out@[p as int] as int);
            if text_lt_exec(&xn, &yn) {
                go = false;
            } else {
                assert(t.skip(p as int).drop_first() =~= t.skip(p + 1));
                p = p + 1;
            }
        }
        if go {
            assert(t.skip(p as int).len() == 0);
        } else {
            assert(t.skip(p as int)[0] == t[p as int]);
        }
        out.insert(p, x);
        assert(idx(out@) =~= t.insert(p as int, x as int));
        k = k + 1;
    }
    assert(mv.take(hits.len() as int) =~= mv);
    out
}

/// Entries ordered by name, equal names allowed.
pub open spec fn sorted_by_name(fs: Seq<Formula>, s: Seq<int>) -> bool {
    forall|i: int, j: int| 0 <= i < j < s.len() ==> !text_lt(fs[#[trigger] s[j]].name@, fs[#[trigger] s[i]].name@)
}

proof fn lemma_first_greater_props(fs: Seq<Formula>, s: Seq<int>, x: int)
    ensures
        forall|j: int| 0 <= j < first_greater(fs, s, x) ==> !text_lt(fs[x].name@, fs[#[trigger] s[j]].name@),
        first_greater(fs, s, x) < s.len() ==> text_lt(fs[x].name@, fs[s[first_greater(fs, s, x)]].name@),
    decreases s.len(),
{
    lemma_first_greater_range(fs, s, x);
    if s.len() > 0 && !text_lt(fs[x].name@, fs[s[0]].name@) {
        lemma_first_greater_props(fs, s.drop_first(), x);
        lemma_first_greater_range(fs, s.drop_first(), x);
        let k1 = first_greater(fs, s.drop_first(), x);
        if k1 < s.drop_first().len() {
            assert(s[k1 + 1] == s.drop_first()[k1]);
        }
        assert forall|j: int| 0 <= j < first_greater(fs, s, x) implies !text_lt(fs[x].name@, fs[#[trigger] s[j]].name@) by {
            if j > 0 {
                assert(s.drop_first()[j - 1] == s[j]);
                assert(!text_lt(fs[x].name@, fs[s.drop_first()[j - 1]].name@));
            }
        }
    }
}

/// Formulae of equal name keep their index order.
pub open spec fn stable_by_name(fs: Seq<Formula>, s: Seq<int>) -> bool {
    forall|i: int, j: int|
        0 <= i < j < s.len() && fs[#[trigger] s[i]].name@ == fs[#[trigger] s[j]].name@ ==> s[i] < s[j]
}

/// Strictly increasing indices.
pub open spec fn increasing(s: Seq<int>) -> bool {
    forall|i: int, j: int| 0 <= i < j < s.len() ==> #[trigger] s[i] < #[trigger] s[j]
}

/// Law: search results come in name order, hold each matching formula
/// exactly once, and list formulae of equal name in index order (a stable
/// sort).
pub proof fn law_search(fs: Seq<Formula>, q: Seq<char>)
    ensures
        sorted_by_name(fs, spec_search(fs, q)),
        spec_search(fs, q).to_multiset() == matching(fs, q, fs.len() as int).to_multiset(),
        stable_by_name(fs, spec_search(fs, q)),
{
    lemma_sort_by_name(fs, matching(fs, q, fs.len() as int));
    lemma_matching_increasing(fs, q, fs.len() as int);
    lemma_sort_stable(fs, matching(fs, q, fs.len() as int));
}

proof fn lemma_matching_increasing(fs: Seq<Formula>, q: Seq<char>, n: int)
    ensures
        increasing(matching(fs, q, n)),
        forall|i: int| 0 <= i < matching(fs, q, n).len() ==> #[trigger] matching(fs, q, n)[i] < n,
    decreases n,
{
    if n > 0 {
        lemma_matching_increasing(fs, q, n - 1);
    }
}

proof fn lemma_sort_stable(fs: Seq<Formula>, s: Seq<int>)
    requires
        increasing(s),
    ensures
        stable_by_name(fs, sort_by_name(fs, s)),
    decreases s.len(),
{
    broadcast use vstd::seq_lib::group_to_multiset_ensures;
    if s.len() > 0 {
        let init = s.drop_last();
        assert(increasing(init)) by {
            assert forall|i: int, j: int| 0 <= i < j < init.len() implies #[trigger] init[i] < #[trigger] init[j] by {
                assert(s[i] < s[j]);
            }
        }
        let t = sort_by_name(fs, init);
        lemma_sort_stable(fs, init);
        lemma_sort_by_name(fs, init);
        let x = s.last();
        let k = first_greater(fs, t, x);
        lemma_first_greater_range(fs, t, x);
        lemma_first_greater_props(fs, t, x);
        let r = t.insert(k, x);
        assert forall|e: int| t.contains(e) implies e < x by {
            assert(t.to_multiset().count(e) > 0);
            assert(init.contains(e));
            let w = choose|w: int| 0 <= w < init.len() && init[w] == e;
            assert(s[w] < s[s.len() - 1]);
        }
        assert forall|i: int, j: int|
            0 <= i < j < r.len() && fs[#[trigger] r[i]].name@ == fs[#[trigger] r[j]].name@ implies r[i] < r[j] by {
            if j < k {
                assert(r[i] == t[i] && r[j] == t[j]);
            } else if j == k {
                assert(r[i] == t[i]);
                assert(t.contains(t[i]));
            } else if i < k {
                assert(r[i] == t[i] && r[j] == t[j - 1]);
            } else if i == k {
                assert(r[j] == t[j - 1]);
                assert(text_lt(fs[x].name@, fs[t[k]].name@));
                if k < j - 1 {
                    assert(!text_lt(fs[t[j - 1]].name@, fs[t[k]].name@));
                    crate::text::lemma_text_lt_total(fs[t[k]].name@, fs[t[j - 1]].name@);
                    if text_lt(fs[t[k]].name@, fs[t[j - 1]].name@) {
                        lemma_text_lt_transitive(fs[x].name@, fs[t[k]].name@, fs[t[j - 1]].name@);
                    }
                }
                crate::text::lemma_text_lt_irreflexive(fs[x].name@);
            } else {
                assert(r[i] == t[i - 1] && r[j] == t[j - 1]);
            }
        }
    }
}

proof fn lemma_sort_by_name(fs: Seq<Formula>, s: Seq<int>)
    ensures
        sorted_by_name(fs, sort_by_name(fs, s)),
        sort_by_name(fs, s).to_multiset() == s.to_multiset(),
    decreases s.len(),
{
    broadcast use vstd::seq_lib::group_to_multiset_ensures;
    if s.len() > 0 {
        let t = sort_by_name(fs, s.drop_last());
        lemma_sort_by_name(fs, s.drop_last());
        let x = s.last();
        let k = first_greater(fs, t, x);
        lemma_first_greater_range(fs, t, x);
        lemma_first_greater_props(fs, t, x);
        let r = t.insert(k, x);
        assert forall|i: int, j: int| 0 <= i < j < r.len() implies !text_lt(fs[#[trigger] r[j]].name@, fs[#[trigger] r[i]].name@) by {
            if j < k {
                assert(r[i] == t[i] && r[j] == t[j]);
            } else if j == k {
                assert(r[i] == t[i]);
            } else if i < k {
                assert(r[i] == t[i] && r[j] == t[j - 1]);
            } else if i == k {
                assert(r[j] == t[j - 1]);
                if text_lt(fs[t[j - 1]].name@, fs[x].name@) {
                    if k < j - 1 {
                        lemma_text_lt_transitive(fs[t[j - 1]].name@, fs[x].name@, fs[t[k]].name@);
                    } else {
                        crate::text::lemma_text_lt_total(fs[t[k]].name@, fs[x].name@);
                    }
                }
            } else {
                assert(r[i] == t[i - 1] && r[j] == t[j - 1]);
            }
        }
        assert(s.drop_last().push(x) =~= s);
    }
}

} // verus!
