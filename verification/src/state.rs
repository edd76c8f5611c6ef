//! Tracking of explicitly requested formulae.
//!
//! The formulae the user installed directly (rather than as a pulled-in
//! dependency) are recorded in `<prefix>/.requested`, one name per line.
//! Cleanup uses this set as the roots of the dependency graph: anything
//! installed but not reachable from a requested formula is an orphan.
//! This module reads and writes that record's text and edits the set.

use vstd::prelude::*;
use crate::text::{
    chars_of, join, join_exec, lemma_sorted_no_duplicates, lemma_split_join, lemma_text_lt_total, lemma_text_lt_transitive, sort_names, sorted_strict, split, split_exec,
    string_of, strs, text_lt, trim, trim_exec,
};

verus! {

/// The names recorded by the given lines: each line trimmed, blank lines skipped.
pub open spec fn requested_lines(lines: Seq<Seq<char>>) -> Seq<Seq<char>>
    decreases lines.len(),
{
    if lines.len() == 0 {
        Seq::empty()
    } else {
        let init = requested_lines(lines.drop_last());
        if trim(lines.last()).len() > 0 {
            init.push(trim(lines.last()))
        } else {
            init
        }
    }
}

/// The set of names that a record's text holds.
pub open spec fn spec_parse_requested(text: Seq<char>) -> Set<Seq<char>> {
    requested_lines(split(text, '\n')).to_set()
}

/// The requested set read from the record's text; a missing or unreadable
/// record (`None`) is the empty set. The result holds each name once.
pub fn load(content: Option<&str>) -> (res: Vec<String>)
    ensures
        strs(res@).no_duplicates(),
        match content {
            Some(t) => strs(res@).to_set() == spec_parse_requested(t@),
            None => res@.len() == 0,
        },
{
    let mut res: Vec<String> = Vec::new();
    match content {
        None => res,
        Some(text) => {
            let cs = chars_of(text);
            let lines = split_exec(&cs, '\n');
            let ghost views = lines@.map_values(|v: Vec<char>| v@);
            let mut i: usize = 0;
            assert(views.take(0) =~= Seq::<Seq<char>>::empty());
            while i < lines.len()
                invariant
                    i <= lines.len(),
                    views == lines@.map_values(|v: Vec<char>| v@),
                    strs(res@).no_duplicates(),
                    strs(res@).to_set() == requested_lines(views.take(i as int)).to_set(),
                decreases lines.len() - i,
            {
                assert(views.take(i + 1).drop_last() =~= views.take(i as int));
                assert(views.take(i + 1).last() == lines@[i as int]@);
                let t = trim_exec(&lines[i]);
                if t.len() > 0 {
                    let name = string_of(&t);
                    let mut present = false;
                    let mut k: usize = 0;
                    while k < res.len()
                        invariant
                            k <= res.len(),
                            !present ==> forall|q: int| 0 <= q < k ==> res@[q]@ != name@,
                            present ==> strs(res@).contains(name@),
                        decreases res.len() - k,
                    {
                        if res[k] == name {
                            present = true;
                            assert(strs(res@)[k as int] == name@);
                        }
                        k = k + 1;
                    }
                    let ghost r0 = strs(res@);
                    proof {
                        requested_lines(views.take(i as int)).lemma_push_to_set_commute(t@);
                    }
                    if !present {
                        res.push(name);
                        proof {
                            r0.lemma_push_to_set_commute(t@);
                            assert(strs(res@) =~= r0.push(t@));
                            assert(!r0.contains(t@)) by {
                                if r0.contains(t@) {
                                    let q = choose|q: int| 0 <= q < r0.len() && r0[q] == t@;
                                    assert(res@[q]@ == t@);
                                }
                            }
                        }
                    } else {
                        assert(r0.to_set().insert(t@) =~= r0.to_set());
                    }
                }
                i = i + 1;
            }
            assert(views.take(lines.len() as int) =~= views);
            res
        },
    }
}

/// The strictly increasing sequence of the names of a finite set.
pub open spec fn sorted_of(s: Set<Seq<char>>) -> Seq<Seq<char>> {
    choose|q: Seq<Seq<char>>| sorted_strict(q) && q.to_set() == s
}

/// The record's text for a set of names: sorted, one per line.
pub open spec fn spec_save_text(s: Set<Seq<char>>) -> Seq<char> {
    join(sorted_of(s), "\n"@)
}

/// Two strictly increasing sequences of the same names are equal.
pub proof fn lemma_sorted_unique(a: Seq<Seq<char>>, b: Seq<Seq<char>>)
    requires
        sorted_strict(a),
        sorted_strict(b),
        a.to_set() == b.to_set(),
    ensures
        a == b,
    decreases a.len(),
{
    lemma_sorted_no_duplicates(a);
    lemma_sorted_no_duplicates(b);
    a.unique_seq_to_set();
    b.unique_seq_to_set();
    if a.len() == 0 {
        assert(b.len() == 0);
        assert(a =~= b);
    } else {
        assert(b.len() > 0);
        assert(a.to_set().contains(b[0]));
        assert(b.to_set().contains(a[0]));
        let ia = choose|i: int| 0 <= i < a.len() && a[i] == b[0];
        let ib = choose|i: int| 0 <= i < b.len() && b[i] == a[0];
        if a[0] != b[0] {
            assert(ia > 0 && ib > 0);
            assert(text_lt(a[0], a[ia]));
            assert(text_lt(b[0], b[ib]));
            lemma_text_lt_total(a[0], b[0]);
        }
        let a1 = a.drop_first();
        let b1 = b.drop_first();
        assert forall|i: int, j: int| 0 <= i < j < a1.len() implies text_lt(#[trigger] a1[i], #[trigger] a1[j]) by {
            assert(text_lt(a[i + 1], a[j + 1]));
        }
        assert forall|i: int, j: int| 0 <= i < j < b1.len() implies text_lt(#[trigger] b1[i], #[trigger] b1[j]) by {
            assert(text_lt(b[i + 1], b[j + 1]));
        }
        assert(a1.to_set() =~= b1.to_set()) by {
            assert forall|x: Seq<char>| a1.to_set().contains(x) <==> b1.to_set().contains(x) by {
                if a1.contains(x) {
                    let i = choose|i: int| 0 <= i < a1.len() && a1[i] == x;
                    assert(a.contains(x)) by { assert(a[i + 1] == x); }
                    assert(a.to_set().contains(x));
                    assert(b.contains(x));
                    let j = choose|j: int| 0 <= j < b.len() && b[j] == x;
                    if j == 0 {
                        assert(a[0] == a[i + 1]);
                    } else {
                        assert(b1[j - 1] == x);
                    }
                }
                if b1.contains(x) {
                    let i = choose|i: int| 0 <= i < b1.len() && b1[i] == x;
                    assert(b.contains(x)) by { assert(b[i + 1] == x); }
                    assert(b.to_set().contains(x));
                    assert(a.contains(x));
                    let j = choose|j: int| 0 <= j < a.len() && a[j] == x;
                    if j == 0 {
                        assert(b[0] == b[i + 1]);
                    } else {
                        assert(a1[j - 1] == x);
                    }
                }
            }
        }
        lemma_sorted_unique(a1, b1);
        assert(a =~= b) by {
            assert forall|i: int| 0 <= i < a.len() implies a[i] == b[i] by {
                if i > 0 {
                    assert(a1[i - 1] == b1[i - 1]);
                }
            }
        }
    }
}

/// The record's text for the requested set: the names sorted, one per line.
pub fn save(names: &Vec<String>) -> (res: String)
    ensures
        res@ == spec_save_text(strs(names@).to_set()),
{
    let sorted = sort_names(names);
    let mut lines: Vec<Vec<char>> = Vec::new();
    let mut i: usize = 0;
    while i < sorted.len()
        invariant
            i <= sorted.len(),
            lines@.map_values(|v: Vec<char>| v@) == strs(sorted@).take(i as int),
        decreases sorted.len() - i,
    {
        let ghost l0 = lines@.map_values(|v: Vec<char>| v@);
        lines.push(chars_of(sorted[i].as_str()));
        assert(lines@.map_values(|v: Vec<char>| v@) =~= l0.push(sorted@[i as int]@));
        assert(strs(sorted@).take(i + 1) =~= strs(sorted@).take(i as int).push(sorted@[i as int]@));
        i = i + 1;
    }
    assert(strs(sorted@).take(sorted.len() as int) =~= strs(sorted@));
    let sep = chars_of("\n");
    let text = join_exec(&lines, &sep);
    proof {
        let s = strs(names@).to_set();
        assert(sorted_strict(sorted_of(s)) && sorted_of(s).to_set() == s);
        lemma_sorted_unique(strs(sorted@), sorted_of(s));
    }
    string_of(&text)
}

/// Marks `name` as requested; true when it was not yet.
pub fn add(requested: &mut Vec<String>, name: &str) -> (changed: bool)
    requires
        strs(old(requested)@).no_duplicates(),
    ensures
        strs(final(requested)@).no_duplicates(),
        strs(final(requested)@).to_set() == strs(old(requested)@).to_set().insert(name@),
        changed == !strs(old(requested)@).contains(name@),
{
    let n = name.to_owned();
    let mut k: usize = 0;
    while k < requested.len()
        invariant
            k <= requested.len(),
            n@ == name@,
            requested@ == old(requested)@,
            strs(old(requested)@).no_duplicates(),
            forall|q: int| 0 <= q < k ==> requested@[q]@ != name@,
        decreases requested.len() - k,
    {
        if requested[k] == n {
            proof {
                assert(strs(requested@)[k as int] == name@);
                strs(requested@).lemma_push_to_set_commute(name@);
                assert(strs(requested@).to_set().insert(name@) =~= strs(requested@).to_set());
            }
            return false;
        }
        k = k + 1;
    }
    let ghost r0 = strs(requested@);
    assert(!r0.contains(name@)) by {
        if r0.contains(name@) {
            let q = choose|q: int| 0 <= q < r0.len() && r0[q] == name@;
            assert(requested@[q]@ == name@);
        }
    }
    requested.push(name.to_owned());
    proof {
        r0.lemma_push_to_set_commute(name@);
        assert(strs(requested@) =~= r0.push(name@));
    }
    true
}

/// Law: `remove` undoes an `add` of a name that was not requested, and
/// adding a name that is requested changes nothing (over the sets that their
/// contracts give).
pub proof fn law_remove_undoes_add(requested: Set<Seq<char>>, name: Seq<char>)
    ensures
        !requested.contains(name) ==> requested.insert(name).remove(name) == requested,
        requested.contains(name) ==> requested.insert(name) == requested,
{
    assert(!requested.contains(name) ==> requested.insert(name).remove(name) =~= requested);
    assert(requested.contains(name) ==> requested.insert(name) =~= requested);
}

/// Drops `name` from the requested set; true when it was there.
pub fn remove(requested: &mut Vec<String>, name: &str) -> (changed: bool)
    requires
        strs(old(requested)@).no_duplicates(),
    ensures
        strs(final(requested)@).no_duplicates(),
        strs(final(requested)@).to_set() == strs(old(requested)@).to_set().remove(name@),
        changed == strs(old(requested)@).contains(name@),
{
    let n = name.to_owned();
    let mut k: usize = 0;
    while k < requested.len()
        invariant
            k <= requested.len(),
            n@ == name@,
            requested@ == old(requested)@,
            strs(old(requested)@).no_duplicates(),
            forall|q: int| 0 <= q < k ==> requested@[q]@ != name@,
        decreases requested.len() - k,
    {
        if requested[k] == n {
            let ghost r0 = strs(requested@);
            requested.remove(k);
            proof {
                assert(r0[k as int] == name@);
                assert(strs(requested@) =~= r0.remove(k as int));
                assert(strs(requested@).to_set() =~= r0.to_set().remove(name@)) by {
                    assert forall|x: Seq<char>| strs(requested@).to_set().contains(x) <==> r0.to_set().remove(name@).contains(x) by {
                        if strs(requested@).contains(x) {
                            let q = choose|q: int| 0 <= q < strs(requested@).len() && strs(requested@)[q] == x;
                            if q < k {
                                assert(r0[q] == x);
                                assert(x != name@);
                            } else {
                                assert(r0[q + 1] == x);
                                assert(x != name@);
                            }
                        }
                        if r0.contains(x) && x != name@ {
                            let q = choose|q: int| 0 <= q < r0.len() && r0[q] == x;
                            if q < k {
                                assert(strs(requested@)[q] == x);
                            } else {
                                assert(q != k);
                                assert(strs(requested@)[q - 1] == x);
                            }
                        }
                    }
                }
                assert(r0.contains(name@));
                assert(strs(requested@).no_duplicates()) by {
                    assert forall|a: int, b: int| 0 <= a < strs(requested@).len() && 0 <= b < strs(requested@).len() && a != b implies strs(requested@)[a] != strs(requested@)[b] by {
                        let a1 = if a < k { a } else { a + 1 };
                        let b1 = if b < k { b } else { b + 1 };
                        assert(strs(requested@)[a] == r0[a1]);
                        assert(strs(requested@)[b] == r0[b1]);
                    }
                }
            }
            return true;
        }
        k = k + 1;
    }
    proof {
        let r0 = strs(requested@);
        assert(!r0.contains(name@)) by {
            if r0.contains(name@) {
                let q = choose|q: int| 0 <= q < r0.len() && r0[q] == name@;
                assert(requested@[q]@ == name@);
            }
        }
        assert(r0.to_set().remove(name@) =~= r0.to_set());
    }
    false
}

/// The number of leading items of a sorted list that order before `x`.
spec fn count_below(q: Seq<Seq<char>>, x: Seq<char>) -> int
    decreases q.len(),
{
    if q.len() == 0 || !text_lt(q[0], x) {
        0
    } else {
        1 + count_below(q.drop_first(), x)
    }
}

proof fn lemma_count_below(q: Seq<Seq<char>>, x: Seq<char>)
    requires
        sorted_strict(q),
        !q.contains(x),
    ensures
        0 <= count_below(q, x) <= q.len(),
        forall|i: int| 0 <= i < count_below(q, x) ==> text_lt(#[trigger] q[i], x),
        forall|i: int| count_below(q, x) <= i < q.len() ==> text_lt(x, #[trigger] q[i]),
    decreases q.len(),
{
    if q.len() > 0 {
        let q1 = q.drop_first();
        assert forall|i: int, j: int| 0 <= i < j < q1.len() implies text_lt(#[trigger] q1[i], #[trigger] q1[j]) by {
            assert(text_lt(q[i + 1], q[j + 1]));
        }
        assert(!q1.contains(x)) by {
            if q1.contains(x) {
                let i = choose|i: int| 0 <= i < q1.len() && q1[i] == x;
                assert(q[i + 1] == x);
            }
        }
        lemma_count_below(q1, x);
        if text_lt(q[0], x) {
            assert forall|i: int| 0 <= i < count_below(q, x) implies text_lt(#[trigger] q[i], x) by {
                if i > 0 {
                    assert(q[i] == q1[i - 1]);
                }
            }
            assert forall|i: int| count_below(q, x) <= i < q.len() implies text_lt(x, #[trigger] q[i]) by {
                assert(q[i] == q1[i - 1]);
            }
        } else {
            assert(q[0] != x);
            lemma_text_lt_total(q[0], x);
            assert forall|i: int| 0 <= i < q.len() implies text_lt(x, #[trigger] q[i]) by {
                if i > 0 {
                    assert(text_lt(q[0], q[i]));
                    lemma_text_lt_transitive(x, q[0], q[i]);
                }
            }
        }
    }
}

/// `sorted_of` of the names of a list is strictly increasing and holds
/// exactly those names.
pub proof fn lemma_sorted_of(v: Seq<Seq<char>>)
    ensures
        sorted_strict(sorted_of(v.to_set())),
        sorted_of(v.to_set()).to_set() == v.to_set(),
{
    lemma_sorted_exists(v);
}

/// Every finite collection of names has a strictly increasing arrangement.
proof fn lemma_sorted_exists(v: Seq<Seq<char>>)
    ensures
        exists|q: Seq<Seq<char>>| sorted_strict(q) && q.to_set() == v.to_set(),
    decreases v.len(),
{
    if v.len() == 0 {
        let q: Seq<Seq<char>> = Seq::empty();
        assert(q.to_set() =~= v.to_set());
        assert(sorted_strict(q));
    } else {
        let x = v.last();
        lemma_sorted_exists(v.drop_last());
        let q = choose|q: Seq<Seq<char>>| sorted_strict(q) && q.to_set() == v.drop_last().to_set();
        v.drop_last().lemma_push_to_set_commute(x);
        assert(v.drop_last().push(x) =~= v);
        if q.contains(x) {
            assert(q.to_set().insert(x) =~= q.to_set());
        } else {
            lemma_count_below(q, x);
            let k = count_below(q, x);
            let q2 = q.insert(k, x);
            assert forall|a: int, b: int| 0 <= a < b < q2.len() implies text_lt(#[trigger] q2[a], #[trigger] q2[b]) by {
                if b < k {
                } else if a < k && b == k {
                } else if a < k {
                    assert(q2[b] == q[b - 1]);
                    lemma_text_lt_transitive(q2[a], x, q2[b]);
                } else if a == k {
                    assert(q2[b] == q[b - 1]);
                } else {
                    assert(q2[a] == q[a - 1]);
                    assert(q2[b] == q[b - 1]);
                }
            }
            assert(q2.to_set() =~= q.to_set().insert(x)) by {
                assert forall|y: Seq<char>| q2.to_set().contains(y) <==> q.to_set().insert(x).contains(y) by {
                    if q2.contains(y) {
                        let j = choose|j: int| 0 <= j < q2.len() && q2[j] == y;
                        if j < k {
                            assert(q[j] == y);
                        } else if j > k {
                            assert(q[j - 1] == y);
                        }
                    }
                    if q.contains(y) {
                        let j = choose|j: int| 0 <= j < q.len() && q[j] == y;
                        if j < k {
                            assert(q2[j] == y);
                        } else {
                            assert(q2[j + 1] == y);
                        }
                    }
                    if y == x {
                        assert(q2[k] == y);
                    }
                }
            }
            assert(sorted_strict(q2) && q2.to_set() == v.to_set());
        }
    }
}

proof fn lemma_requested_lines_identity(list: Seq<Seq<char>>)
    requires
        forall|i: int| 0 <= i < list.len() ==> trim(#[trigger] list[i]) == list[i] && list[i].len() > 0,
    ensures
        requested_lines(list) == list,
    decreases list.len(),
{
    if list.len() > 0 {
        let init = list.drop_last();
        assert forall|i: int| 0 <= i < init.len() implies trim(#[trigger] init[i]) == init[i] && init[i].len() > 0 by {
            assert(init[i] == list[i]);
        }
        lemma_requested_lines_identity(init);
        assert(list.last() == list[list.len() - 1]);
        assert(init.push(list.last()) =~= list);
    }
}

/// Law: reading back the record written for a set of names gives the same
/// set, when every name is non-blank, holds no line break and has no
/// surrounding white space.
pub proof fn law_save_load(names: Seq<Seq<char>>)
    requires
        forall|i: int|
            0 <= i < names.len() ==> (#[trigger] names[i]).len() > 0 && !names[i].contains('\n')
                && trim(names[i]) == names[i],
    ensures
        spec_parse_requested(spec_save_text(names.to_set())) == names.to_set(),
{
    let s = names.to_set();
    lemma_sorted_exists(names);
    let q = sorted_of(s);
    assert(sorted_strict(q) && q.to_set() == s);
    reveal_strlit("\n");
    assert("\n"@ =~= seq!['\n']);
    assert forall|i: int| 0 <= i < q.len() implies (#[trigger] q[i]).len() > 0 && !q[i].contains('\n')
        && trim(q[i]) == q[i] by {
        assert(q.to_set().contains(q[i]));
        let j = choose|j: int| 0 <= j < names.len() && names[j] == q[i];
        assert(names[j].len() > 0);
    }
    lemma_requested_lines_identity(q);
    if q.len() == 0 {
        assert(join(q, "\n"@) =~= Seq::<char>::empty());
        assert(requested_lines(split(Seq::<char>::empty(), '\n')) =~= Seq::<Seq<char>>::empty()) by {
            let sp = split(Seq::<char>::empty(), '\n');
            assert(sp =~= seq![Seq::<char>::empty()]);
            assert(sp.drop_last() =~= Seq::<Seq<char>>::empty());
            assert(trim(sp.last()) =~= Seq::<char>::empty());
        }
        assert(Seq::<Seq<char>>::empty().to_set() =~= Set::<Seq<char>>::empty());
        assert(q =~= Seq::<Seq<char>>::empty());
    } else {
        lemma_split_join(q, '\n');
    }
}

} // verus!
