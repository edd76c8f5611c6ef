//! Character-level text operations with their mathematical meaning.
//!
//! Strings are handled as sequences of `char`s; every operation states its
//! result as a spec function over `Seq<char>`.

use vstd::prelude::*;

verus! {

/// Appends one character to a string (`String::push`).
#[verifier::external_body]
pub(crate) fn push_char(s: &mut String, c: char)
    ensures
        final(s)@ == old(s)@.push(c),
{
    s.push(c);
}

/// The characters of a string slice, in order.
pub fn chars_of(s: &str) -> (res: Vec<char>)
    ensures
        res@ == s@,
{
    let mut res: Vec<char> = Vec::new();
    for c in it: s.chars()
        invariant
            res@ == it.seq().take(it.index() as int),
    {
        res.push(c);
    }
    res
}

/// Builds a string from its characters.
pub fn string_of(cs: &Vec<char>) -> (res: String)
    ensures
        res@ == cs@,
{
    let mut res = String::new();
    for i in 0..cs.len()
        invariant
            res@ == cs@.take(i as int),
    {
        push_char(&mut res, cs[i]);
        assert(cs@.take(i + 1) == cs@.take(i as int).push(cs@[i as int]));
    }
    assert(cs@.take(cs.len() as int) == cs@);
    res
}

/// `p` occurs in `s` starting at index `i`.
pub open spec fn occurs_at(s: Seq<char>, p: Seq<char>, i: int) -> bool {
    0 <= i && i + p.len() <= s.len() && s.subrange(i, i + p.len()) == p
}

/// `p` occurs somewhere in `s`.
pub open spec fn occurs_in(s: Seq<char>, p: Seq<char>) -> bool {
    exists|i: int| occurs_at(s, p, i)
}

/// Every non-overlapping occurrence of the non-empty pattern `p` in `s`,
/// scanning from the left, replaced by `r` (the meaning of `str::replace`).
pub open spec fn replace_all(s: Seq<char>, p: Seq<char>, r: Seq<char>) -> Seq<char>
    decreases s.len(),
{
    if s.len() == 0 || p.len() == 0 {
        s
    } else if p.is_prefix_of(s) {
        r + replace_all(s.skip(p.len() as int), p, r)
    } else {
        seq![s[0]] + replace_all(s.skip(1), p, r)
    }
}

/// Whether `p` occurs in `s` at index `i`.
pub fn occurs_at_exec(s: &Vec<char>, p: &Vec<char>, i: usize) -> (res: bool)
    ensures
        res == occurs_at(s@, p@, i as int),
{
    if i > s.len() || p.len() > s.len() - i {
        return false;
    }
    let mut k: usize = 0;
    while k < p.len()
        invariant
            i + p.len() <= s.len(),
            k <= p.len(),
            forall|j: int| 0 <= j < k ==> s@[i + j] == p@[j],
        decreases p.len() - k,
    {
        if s[i + k] != p[k] {
            assert(s@.subrange(i as int, i + p.len())[k as int] != p@[k as int]);
            return false;
        }
        k = k + 1;
    }
    assert(s@.subrange(i as int, i + p.len()) =~= p@);
    true
}

/// Whether `p` occurs anywhere in `s`.
pub fn occurs_in_exec(s: &Vec<char>, p: &Vec<char>) -> (res: bool)
    ensures
        res == occurs_in(s@, p@),
{
    if p.len() > s.len() {
        assert forall|j: int| !occurs_at(s@, p@, j) by {}
        return false;
    }
    let last = s.len() - p.len();
    let mut i: usize = 0;
    while i <= last
        invariant
            last == s.len() - p.len(),
            i <= last + 1,
            forall|j: int| 0 <= j < i ==> !occurs_at(s@, p@, j),
        decreases last + 1 - i,
    {
        if occurs_at_exec(s, p, i) {
            return true;
        }
        if i == last {
            assert forall|j: int| !occurs_at(s@, p@, j) by {
                if 0 <= j && j + p@.len() <= s@.len() {
                    assert(j <= i);
                }
            }
            return false;
        }
        i = i + 1;
    }
    assert forall|j: int| !occurs_at(s@, p@, j) by {
        if 0 <= j && j + p@.len() <= s@.len() {
            assert(j < i);
        }
    }
    false
}

proof fn lemma_prefix_occurs_at(s: Seq<char>, p: Seq<char>, i: int)
    requires
        0 <= i <= s.len(),
    ensures
        p.is_prefix_of(s.skip(i)) == occurs_at(s, p, i),
{
    if p.is_prefix_of(s.skip(i)) {
        assert(s.subrange(i, i + p.len()) =~= s.skip(i).take(p.len() as int));
    }
    if occurs_at(s, p, i) {
        assert(s.subrange(i, i + p.len()) =~= s.skip(i).take(p.len() as int));
    }
}

/// Replaces every non-overlapping occurrence of `p` in `s` by `r`, left to right.
pub fn replace_all_exec(s: &Vec<char>, p: &Vec<char>, r: &Vec<char>) -> (res: Vec<char>)
    requires
        p@.len() > 0,
    ensures
        res@ == replace_all(s@, p@, r@),
{
    let mut res: Vec<char> = Vec::new();
    let mut i: usize = 0;
    assert(s@.skip(0) =~= s@);
    while i < s.len()
        invariant
            p@.len() > 0,
            i <= s.len(),
            res@ + replace_all(s@.skip(i as int), p@, r@) == replace_all(s@, p@, r@),
        decreases s.len() - i,
    {
        proof {
            lemma_prefix_occurs_at(s@, p@, i as int);
        }
        if occurs_at_exec(s, p, i) {
            let ghost old_res = res@;
            let mut k: usize = 0;
            while k < r.len()
                invariant
                    k <= r.len(),
                    res@ == old_res + r@.take(k as int),
                decreases r.len() - k,
            {
                res.push(r[k]);
                assert(r@.take(k + 1) =~= r@.take(k as int).push(r@[k as int]));
                k = k + 1;
            }
            assert(r@.take(r.len() as int) =~= r@);
            assert(s@.skip(i as int).skip(p@.len() as int) =~= s@.skip(i + p.len()));
            assert(old_res + replace_all(s@.skip(i as int), p@, r@) == old_res + (r@
                + replace_all(s@.skip(i + p.len()), p@, r@)));
            assert(old_res + (r@ + replace_all(s@.skip(i + p.len()), p@, r@)) =~= res@
                + replace_all(s@.skip(i + p.len()), p@, r@));
            i = i + p.len();
        } else {
            let ghost old_res = res@;
            res.push(s[i]);
            assert(s@.skip(i as int).skip(1) =~= s@.skip(i + 1));
            assert(s@.skip(i as int)[0] == s@[i as int]);
            assert(old_res + (seq![s@[i as int]] + replace_all(s@.skip(i + 1), p@, r@)) =~= res@
                + replace_all(s@.skip(i + 1), p@, r@));
        i = i + 1;
        }
    }
    assert(s@.skip(i as int).len() == 0);
    assert(res@ + replace_all(s@.skip(i as int), p@, r@) =~= res@);
    res
}

/// Replacing a pattern that does not occur leaves the text unchanged.
pub proof fn lemma_replace_absent(s: Seq<char>, p: Seq<char>, r: Seq<char>)
    requires
        !occurs_in(s, p),
    ensures
        replace_all(s, p, r) == s,
    decreases s.len(),
{
    if s.len() == 0 || p.len() == 0 {
    } else {
        if p.is_prefix_of(s) {
            assert(occurs_at(s, p, 0)) by {
                assert(s.subrange(0, p.len() as int) =~= s.take(p.len() as int));
            }
        }
        assert forall|i: int| !occurs_at(s.skip(1), p, i) by {
            if occurs_at(s.skip(1), p, i) {
                assert(s.subrange(i + 1, i + 1 + p.len()) =~= s.skip(1).subrange(i, i + p.len()));
                assert(occurs_at(s, p, i + 1));
            }
        }
        lemma_replace_absent(s.skip(1), p, r);
        assert(seq![s[0]] + s.skip(1) =~= s);
    }
}

/// An occurrence inside a suffix is an occurrence in the whole text.
pub proof fn lemma_occurs_skip(s: Seq<char>, q: Seq<char>, k: int, i: int)
    requires
        0 <= k <= s.len(),
        occurs_at(s.skip(k), q, i),
    ensures
        occurs_at(s, q, i + k),
{
    assert(s.subrange(i + k, i + k + q.len()) =~= s.skip(k).subrange(i, i + q.len()));
}

/// A text that contains `q` contains every prefix of `q`.
pub proof fn lemma_occurs_prefix(s: Seq<char>, q: Seq<char>, h: Seq<char>, i: int)
    requires
        occurs_at(s, q, i),
        h.is_prefix_of(q),
    ensures
        occurs_at(s, h, i),
{
    assert(s.subrange(i, i + h.len()) =~= q.subrange(0, h.len() as int));
    assert(q.subrange(0, h.len() as int) =~= q.take(h.len() as int));
}

/// The side conditions under which a replacement text cannot take part in an
/// occurrence of `t`: `t` ends with `'@'`, `r` holds no `'@'`, and `r` holds a
/// character `x` that `t` lacks.
pub open spec fn opaque_replacement(t: Seq<char>, r: Seq<char>, x: char) -> bool {
    &&& t.len() > 0
    &&& t.last() == '@'
    &&& !t.contains(x)
    &&& r.contains(x)
    &&& !r.contains('@')
}

/// If the result of a replacement starts with `t`, so did the input.
proof fn lemma_replace_prefix_back(s: Seq<char>, p: Seq<char>, r: Seq<char>, t: Seq<char>, x: char)
    requires
        p.len() > 0,
        opaque_replacement(t, r, x),
        t.is_prefix_of(replace_all(s, p, r)),
    ensures
        t.is_prefix_of(s),
    decreases s.len(),
{
    let big = replace_all(s, p, r);
    if s.len() == 0 {
    } else if p.is_prefix_of(s) {
        if t.len() <= r.len() {
            assert(big[t.len() - 1] == r[t.len() - 1]);
            assert(r.contains('@'));
        } else {
            let j = choose|j: int| 0 <= j < r.len() && r[j] == x;
            assert(big[j] == r[j]);
            assert(t[j] == x);
            assert(t.contains(x));
        }
    } else {
        let rest = replace_all(s.skip(1), p, r);
        assert(big == seq![s[0]] + rest);
        if t.len() == 1 {
            assert(t[0] == big[0]);
        } else {
            let t1 = t.drop_first();
            assert(t1.last() == t.last());
            assert(!t1.contains(x)) by {
                if t1.contains(x) {
                    let j = choose|j: int| 0 <= j < t1.len() && t1[j] == x;
                    assert(t[j + 1] == x);
                }
            }
            assert forall|j: int| 0 <= j < t1.len() implies t1[j] == rest[j] by {
                assert(t[j + 1] == big[j + 1]);
            }
            lemma_replace_prefix_back(s.skip(1), p, r, t1, x);
            assert forall|j: int| 0 <= j < t.len() implies t[j] == s[j] by {
                if j > 0 {
                    assert(t1[j - 1] == s.skip(1)[j - 1]);
                }
            }
        }
    }
}

/// After replacing `p` by `r`, a pattern `q` shaped like a placeholder
/// (starting and ending with `'@'`) does not occur in the result, provided it
/// is `p` itself or did not occur before, and `r` cannot take part in it.
pub proof fn lemma_replace_leaves_no_occurrence(
    s: Seq<char>,
    p: Seq<char>,
    r: Seq<char>,
    q: Seq<char>,
    x: char,
)
    requires
        p.len() > 0,
        opaque_replacement(q, r, x),
        q[0] == '@',
        q == p || !occurs_in(s, q),
    ensures
        !occurs_in(replace_all(s, p, r), q),
    decreases s.len(),
{
    let big = replace_all(s, p, r);
    if s.len() == 0 {
    } else {
        let k: int = if p.is_prefix_of(s) { p.len() as int } else { 1 };
        let front: Seq<char> = if p.is_prefix_of(s) { r } else { seq![s[0]] };
        let rest = replace_all(s.skip(k), p, r);
        assert(big == front + rest);
        if q != p {
            assert forall|i: int| !occurs_at(s.skip(k), q, i) by {
                if occurs_at(s.skip(k), q, i) {
                    lemma_occurs_skip(s, q, k, i);
                }
            }
        }
        lemma_replace_leaves_no_occurrence(s.skip(k), p, r, q, x);
        assert forall|a: int| !occurs_at(big, q, a) by {
            if occurs_at(big, q, a) {
                assert(big[a] == q[0]);
                if a < front.len() {
                    if p.is_prefix_of(s) {
                        assert(r[a] == '@');
                        assert(r.contains('@'));
                    } else {
                        assert(a == 0);
                        assert(q.is_prefix_of(big)) by {
                            assert(big.take(q.len() as int) =~= big.subrange(0, q.len() as int));
                        }
                        lemma_replace_prefix_back(s, p, r, q, x);
                        assert(occurs_at(s, q, 0)) by {
                            assert(s.subrange(0, q.len() as int) =~= s.take(q.len() as int));
                        }
                    }
                } else {
                    assert(rest.subrange(a - front.len(), a - front.len() + q.len())
                        =~= big.subrange(a, a + q.len()));
                    assert(occurs_at(rest, q, a - front.len()));
                }
            }
        }
    }
}

/// The characters with the Unicode `White_Space` property (`char::is_whitespace`).
pub open spec fn is_space(c: char) -> bool {
    ||| ('\u{9}' <= c && c <= '\u{d}')
    ||| c == ' '
    ||| c == '\u{85}'
    ||| c == '\u{a0}'
    ||| c == '\u{1680}'
    ||| ('\u{2000}' <= c && c <= '\u{200a}')
    ||| c == '\u{2028}'
    ||| c == '\u{2029}'
    ||| c == '\u{202f}'
    ||| c == '\u{205f}'
    ||| c == '\u{3000}'
}

/// Whether a character is white space.
pub fn is_space_exec(c: char) -> (res: bool)
    ensures
        res == is_space(c),
{
    ('\u{9}' <= c && c <= '\u{d}') || c == ' ' || c == '\u{85}' || c == '\u{a0}' || c == '\u{1680}'
        || ('\u{2000}' <= c && c <= '\u{200a}') || c == '\u{2028}' || c == '\u{2029}' || c
        == '\u{202f}' || c == '\u{205f}' || c == '\u{3000}'
}

/// `s` without its leading white space.
pub open spec fn trim_start(s: Seq<char>) -> Seq<char>
    decreases s.len(),
{
    if s.len() > 0 && is_space(s[0]) {
        trim_start(s.drop_first())
    } else {
        s
    }
}

/// `s` without its trailing white space.
pub open spec fn trim_end(s: Seq<char>) -> Seq<char>
    decreases s.len(),
{
    if s.len() > 0 && is_space(s.last()) {
        trim_end(s.drop_last())
    } else {
        s
    }
}

/// `s` without leading and trailing white space (`str::trim`).
pub open spec fn trim(s: Seq<char>) -> Seq<char> {
    trim_end(trim_start(s))
}

/// Removes leading and trailing white space.
pub fn trim_exec(s: &Vec<char>) -> (res: Vec<char>)
    ensures
        res@ == trim(s@),
{
    let mut i: usize = 0;
    assert(s@.skip(0) =~= s@);
    while i < s.len() && is_space_exec(s[i])
        invariant
            i <= s.len(),
            trim_start(s@.skip(i as int)) == trim_start(s@),
        decreases s.len() - i,
    {
        assert(s@.skip(i as int).drop_first() =~= s@.skip(i + 1));
        i = i + 1;
    }
    let ghost t = s@.skip(i as int);
    assert(trim_start(t) == t);
    let mut j: usize = s.len();
    assert(s@.subrange(i as int, j as int) =~= t);
    while j > i && is_space_exec(s[j - 1])
        invariant
            i <= j <= s.len(),
            trim_end(s@.subrange(i as int, j as int)) == trim_end(t),
        decreases j,
    {
        assert(s@.subrange(i as int, j as int).drop_last() =~= s@.subrange(i as int, j - 1));
        j = j - 1;
    }
    let mut res: Vec<char> = Vec::new();
    let mut k: usize = i;
    while k < j
        invariant
            i <= k <= j <= s.len(),
            res@ == s@.subrange(i as int, k as int),
        decreases j - k,
    {
        res.push(s[k]);
        assert(s@.subrange(i as int, k + 1) =~= s@.subrange(i as int, k as int).push(s@[k as int]));
        k = k + 1;
    }
    res
}

/// The pieces of `s` between occurrences of `c` (`str::split` on a character);
/// there is always at least one piece.
pub open spec fn split(s: Seq<char>, c: char) -> Seq<Seq<char>>
    decreases s.len(),
{
    if s.len() == 0 {
        seq![Seq::<char>::empty()]
    } else {
        let init = split(s.drop_last(), c);
        if s.last() == c {
            init.push(Seq::<char>::empty())
        } else {
            init.update(init.len() - 1, init.last().push(s.last()))
        }
    }
}

pub proof fn lemma_split_nonempty(s: Seq<char>, c: char)
    ensures
        split(s, c).len() >= 1,
    decreases s.len(),
{
    if s.len() > 0 {
        lemma_split_nonempty(s.drop_last(), c);
    }
}

/// Splits a text at every occurrence of `c`.
pub fn split_exec(s: &Vec<char>, c: char) -> (res: Vec<Vec<char>>)
    ensures
        res@.map_values(|v: Vec<char>| v@) == split(s@, c),
{
    let mut done: Vec<Vec<char>> = Vec::new();
    let mut cur: Vec<char> = Vec::new();
    let mut i: usize = 0;
    assert(s@.take(0) =~= Seq::<char>::empty());
    while i < s.len()
        invariant
            i <= s.len(),
            done@.map_values(|v: Vec<char>| v@).push(cur@) == split(s@.take(i as int), c),
        decreases s.len() - i,
    {
        let ghost before = done@.map_values(|v: Vec<char>| v@).push(cur@);
        assert(s@.take(i + 1).drop_last() =~= s@.take(i as int));
        assert(s@.take(i + 1).last() == s@[i as int]);
        if s[i] == c {
            let piece = cur;
            done.push(piece);
            cur = Vec::new();
            assert(done@.map_values(|v: Vec<char>| v@).push(cur@) =~= before.push(
                Seq::<char>::empty(),
            ));
        } else {
            cur.push(s[i]);
            assert(done@.map_values(|v: Vec<char>| v@).push(cur@) =~= before.update(
                before.len() - 1,
                before.last().push(s@[i as int]),
            ));
        }
        i = i + 1;
    }
    assert(s@.take(s.len() as int) =~= s@);
    done.push(cur);
    done
}

/// The list joined with `sep` between consecutive items (`[T]::join`).
pub open spec fn join(list: Seq<Seq<char>>, sep: Seq<char>) -> Seq<char>
    decreases list.len(),
{
    if list.len() == 0 {
        Seq::empty()
    } else if list.len() == 1 {
        list[0]
    } else {
        join(list.drop_last(), sep) + sep + list.last()
    }
}

/// Appends all of `b` to `a`.
pub fn append_chars(a: &mut Vec<char>, b: &Vec<char>)
    ensures
        final(a)@ == old(a)@ + b@,
{
    let mut k: usize = 0;
    while k < b.len()
        invariant
            k <= b.len(),
            a@ == old(a)@ + b@.take(k as int),
        decreases b.len() - k,
    {
        a.push(b[k]);
        assert(b@.take(k + 1) =~= b@.take(k as int).push(b@[k as int]));
        k = k + 1;
    }
    assert(b@.take(b.len() as int) =~= b@);
}

/// Joins the items of a list with a separator.
pub fn join_exec(list: &Vec<Vec<char>>, sep: &Vec<char>) -> (res: Vec<char>)
    ensures
        res@ == join(list@.map_values(|v: Vec<char>| v@), sep@),
{
    let ghost views = list@.map_values(|v: Vec<char>| v@);
    let mut res: Vec<char> = Vec::new();
    let mut i: usize = 0;
    while i < list.len()
        invariant
            i <= list.len(),
            views == list@.map_values(|v: Vec<char>| v@),
            res@ == join(views.take(i as int), sep@),
        decreases list.len() - i,
    {
        assert(views.take(i + 1).drop_last() =~= views.take(i as int));
        if i > 0 {
            append_chars(&mut res, sep);
        }
        append_chars(&mut res, &list[i]);
        assert(i == 0 ==> views.take(i + 1) =~= seq![views[0]]);
        assert(i == 0 ==> res@ =~= views[0]);
        i = i + 1;
    }
    assert(views.take(list.len() as int) =~= views);
    res
}

/// The index of the first occurrence of `p` in `s` at or after `i`, or -1.
pub open spec fn index_of_from(s: Seq<char>, p: Seq<char>, i: int) -> int
    decreases s.len() + 1 - i,
{
    if i < 0 || i + p.len() > s.len() {
        -1
    } else if occurs_at(s, p, i) {
        i
    } else {
        index_of_from(s, p, i + 1)
    }
}

/// The index of the first occurrence of `p` in `s`, or -1.
pub open spec fn index_of(s: Seq<char>, p: Seq<char>) -> int {
    index_of_from(s, p, 0)
}

/// Finds the first occurrence of `p` in `s`.
pub fn index_of_exec(s: &Vec<char>, p: &Vec<char>) -> (res: Option<usize>)
    ensures
        match res {
            Some(i) => index_of(s@, p@) == i as int && occurs_at(s@, p@, i as int),
            None => index_of(s@, p@) == -1,
        },
{
    if p.len() > s.len() {
        return None;
    }
    let last = s.len() - p.len();
    let mut i: usize = 0;
    while i <= last
        invariant
            last == s.len() - p.len(),
            i <= last + 1,
            index_of_from(s@, p@, i as int) == index_of(s@, p@),
        decreases last + 1 - i,
    {
        if occurs_at_exec(s, p, i) {
            return Some(i);
        }
        if i == last {
            assert(index_of_from(s@, p@, i + 1) == -1);
            return None;
        }
        i = i + 1;
    }
    None
}

/// `a` orders strictly before `b`, comparing characters lexicographically
/// (the order of `str`, since UTF-8 preserves the order of code points).
pub open spec fn text_lt(a: Seq<char>, b: Seq<char>) -> bool
    decreases a.len(),
{
    if a.len() == 0 {
        b.len() > 0
    } else if b.len() == 0 {
        false
    } else if a[0] != b[0] {
        a[0] < b[0]
    } else {
        text_lt(a.drop_first(), b.drop_first())
    }
}

/// Compares two texts in lexicographic order.
pub fn text_lt_exec(a: &Vec<char>, b: &Vec<char>) -> (res: bool)
    ensures
        res == text_lt(a@, b@),
{
    let mut i: usize = 0;
    assert(a@.skip(0) =~= a@);
    assert(b@.skip(0) =~= b@);
    while i < a.len() && i < b.len() && a[i] == b[i]
        invariant
            i <= a.len(),
            i <= b.len(),
            text_lt(a@.skip(i as int), b@.skip(i as int)) == text_lt(a@, b@),
        decreases a.len() - i,
    {
        assert(a@.skip(i as int).drop_first() =~= a@.skip(i + 1));
        assert(b@.skip(i as int).drop_first() =~= b@.skip(i + 1));
        i = i + 1;
    }
    if i == a.len() {
        i < b.len()
    } else if i == b.len() {
        false
    } else {
        a[i] < b[i]
    }
}

/// The views of a list of strings.
pub open spec fn strs(v: Seq<String>) -> Seq<Seq<char>> {
    v.map_values(|s: String| s@)
}

pub proof fn lemma_text_lt_irreflexive(a: Seq<char>)
    ensures
        !text_lt(a, a),
    decreases a.len(),
{
    if a.len() > 0 {
        lemma_text_lt_irreflexive(a.drop_first());
    }
}

pub proof fn lemma_text_lt_transitive(a: Seq<char>, b: Seq<char>, c: Seq<char>)
    requires
        text_lt(a, b),
        text_lt(b, c),
    ensures
        text_lt(a, c),
    decreases a.len(),
{
    if a.len() > 0 && b.len() > 0 && c.len() > 0 && a[0] == b[0] && b[0] == c[0] {
        lemma_text_lt_transitive(a.drop_first(), b.drop_first(), c.drop_first());
    }
}

pub proof fn lemma_text_lt_total(a: Seq<char>, b: Seq<char>)
    ensures
        a == b || text_lt(a, b) || text_lt(b, a),
        !(text_lt(a, b) && text_lt(b, a)),
    decreases a.len(),
{
    if a.len() > 0 && b.len() > 0 && a[0] == b[0] {
        lemma_text_lt_total(a.drop_first(), b.drop_first());
        if a.drop_first() == b.drop_first() {
            assert(a =~= seq![a[0]] + a.drop_first());
            assert(b =~= seq![b[0]] + b.drop_first());
        }
    } else if a.len() == 0 && b.len() == 0 {
        assert(a =~= b);
    }
}

/// Strictly increasing in text order (so also free of duplicates).
pub open spec fn sorted_strict(s: Seq<Seq<char>>) -> bool {
    forall|i: int, j: int| 0 <= i < j < s.len() ==> text_lt(#[trigger] s[i], #[trigger] s[j])
}

pub proof fn lemma_sorted_no_duplicates(s: Seq<Seq<char>>)
    requires
        sorted_strict(s),
    ensures
        s.no_duplicates(),
{
    assert forall|i: int, j: int| 0 <= i < s.len() && 0 <= j < s.len() && i != j implies s[i]
        != s[j] by {
        if i < j {
            lemma_text_lt_irreflexive(s[i]);
        } else {
            lemma_text_lt_irreflexive(s[j]);
        }
    }
}

/// Sorts names in text order, dropping repeats.
pub fn sort_names(v: &Vec<String>) -> (res: Vec<String>)
    ensures
        sorted_strict(strs(res@)),
        strs(res@).to_set() == strs(v@).to_set(),
{
    let mut out: Vec<String> = Vec::new();
    let mut i: usize = 0;
    assert(strs(v@).take(0).to_set() =~= Set::<Seq<char>>::empty());
    while i < v.len()
        invariant
            i <= v.len(),
            sorted_strict(strs(out@)),
            strs(out@).to_set() == strs(v@).take(i as int).to_set(),
        decreases v.len() - i,
    {
        let x = v[i].clone();
        let xs = chars_of(x.as_str());
        assert(strs(v@).take(i + 1) =~= strs(v@).take(i as int).push(x@));
        let mut k: usize = 0;
        let mut go = true;
        while go && k < out.len()
            invariant
                k <= out.len(),
                xs@ == x@,
                sorted_strict(strs(out@)),
                forall|j: int| 0 <= j < k ==> text_lt(#[trigger] strs(out@)[j], x@),
                !go ==> k < out.len() && !text_lt(strs(out@)[k as int], x@),
            decreases out.len() - k, (if go { 1int } else { 0int }),
        {
            let ys = chars_of(out[k].as_str());
            if text_lt_exec(&ys, &xs) {
                k = k + 1;
            } else {
                go = false;
            }
        }
        let dup = if k < out.len() {
            let ys = chars_of(out[k].as_str());
            !text_lt_exec(&xs, &ys)
        } else {
            false
        };
        proof {
            if k < out.len() {
                lemma_text_lt_total(x@, strs(out@)[k as int]);
            }
        }
        let ghost old_out = strs(out@);
        if !dup {
            proof {
                assert forall|j: int| k <= j < old_out.len() implies text_lt(x@, #[trigger] old_out[j]) by {
                    if j > k {
                        assert(text_lt(old_out[k as int], old_out[j]));
                        assert(text_lt(x@, old_out[k as int]));
                        lemma_text_lt_transitive(x@, old_out[k as int], old_out[j]);
                    }
                }
            }
            out.insert(k, x);
            assert(strs(out@) =~= old_out.insert(k as int, x@));
            assert forall|a: int, b: int| 0 <= a < b < strs(out@).len() implies text_lt(
                #[trigger] strs(out@)[a],
                #[trigger] strs(out@)[b],
            ) by {
                let o = strs(out@);
                if b < k {
                } else if a < k && b == k {
                } else if a < k {
                    assert(o[b] == old_out[b - 1]);
                    lemma_text_lt_transitive(o[a], x@, o[b]);
                } else if a == k {
                    assert(o[b] == old_out[b - 1]);
                } else {
                    assert(o[a] == old_out[a - 1]);
                    assert(o[b] == old_out[b - 1]);
                }
            }
            assert(strs(out@).to_set() =~= old_out.to_set().insert(x@)) by {
                assert forall|y: Seq<char>| strs(out@).to_set().contains(y) <==> old_out.to_set().insert(
                    x@,
                ).contains(y) by {
                    if strs(out@).contains(y) {
                        let j = choose|j: int| 0 <= j < strs(out@).len() && strs(out@)[j] == y;
                        if j < k {
                            assert(old_out[j] == y);
                        } else if j > k {
                            assert(old_out[j - 1] == y);
                        }
                    }
                    if old_out.contains(y) {
                        let j = choose|j: int| 0 <= j < old_out.len() && old_out[j] == y;
                        if j < k {
                            assert(strs(out@)[j] == y);
                        } else {
                            assert(strs(out@)[j + 1] == y);
                        }
                    }
                    if y == x@ {
                        assert(strs(out@)[k as int] == y);
                    }
                }
            }
        } else {
            assert(strs(out@).to_set() =~= old_out.to_set().insert(x@)) by {
                assert(old_out[k as int] == x@);
                assert(old_out.to_set().contains(x@));
            }
        }
        proof {
            strs(v@).take(i as int).lemma_push_to_set_commute(x@);
        }
        i = i + 1;
    }
    assert(strs(v@).take(v.len() as int) =~= strs(v@));
    out
}

/// Splitting a text free of `c` gives the text itself.
pub proof fn lemma_split_no_sep(y: Seq<char>, c: char)
    requires
        !y.contains(c),
    ensures
        split(y, c) == seq![y],
    decreases y.len(),
{
    if y.len() > 0 {
        assert(!y.drop_last().contains(c)) by {
            if y.drop_last().contains(c) {
                let i = choose|i: int| 0 <= i < y.drop_last().len() && y.drop_last()[i] == c;
                assert(y[i] == c);
            }
        }
        lemma_split_no_sep(y.drop_last(), c);
        assert(y.last() != c) by {
            assert(y[y.len() - 1] == y.last());
        }
        assert(y.drop_last().push(y.last()) =~= y);
        assert(split(y, c) =~= seq![y]);
    } else {
        assert(y =~= Seq::<char>::empty());
    }
}

/// Splitting at a separator between two texts splits each of them.
pub proof fn lemma_split_sep(x: Seq<char>, y: Seq<char>, c: char)
    ensures
        split(x + seq![c] + y, c) == split(x, c) + split(y, c),
    decreases y.len(),
{
    let z = x + seq![c] + y;
    if y.len() == 0 {
        assert(z.drop_last() =~= x);
        assert(z.last() == c);
        assert(split(y, c) =~= seq![Seq::<char>::empty()]);
        assert(split(x, c).push(Seq::<char>::empty()) =~= split(x, c) + split(y, c));
    } else {
        assert(z.drop_last() =~= x + seq![c] + y.drop_last());
        lemma_split_sep(x, y.drop_last(), c);
        assert(z.last() == y.last());
        lemma_split_nonempty(y.drop_last(), c);
        let a = split(x, c);
        let b = split(y.drop_last(), c);
        if y.last() == c {
            assert((a + b).push(Seq::<char>::empty()) =~= a + b.push(Seq::<char>::empty()));
        } else {
            assert((a + b).update((a + b).len() - 1, (a + b).last().push(y.last())) =~= a + b.update(
                b.len() - 1,
                b.last().push(y.last()),
            ));
        }
    }
}

/// Splitting the join of a non-empty list, whose items are free of the
/// separator, gives the list back.
pub proof fn lemma_split_join(list: Seq<Seq<char>>, c: char)
    requires
        list.len() >= 1,
        forall|i: int| 0 <= i < list.len() ==> !(#[trigger] list[i]).contains(c),
    ensures
        split(join(list, seq![c]), c) == list,
    decreases list.len(),
{
    if list.len() == 1 {
        lemma_split_no_sep(list[0], c);
        assert(list =~= seq![list[0]]);
    } else {
        let init = list.drop_last();
        assert forall|i: int| 0 <= i < init.len() implies !(#[trigger] init[i]).contains(c) by {
            assert(init[i] == list[i]);
        }
        lemma_split_join(init, c);
        lemma_split_sep(join(init, seq![c]), list.last(), c);
        assert(!list.last().contains(c)) by {
            assert(list[list.len() - 1] == list.last());
        }
        lemma_split_no_sep(list.last(), c);
        assert(init + seq![list.last()] =~= list);
    }
}

/// The decimal digit for `d < 10`.
pub open spec fn digit_char(d: nat) -> char {
    ((d + 48) as u8) as char
}

/// The decimal representation of `n` (as `Display` writes an unsigned integer).
pub open spec fn decimal(n: nat) -> Seq<char>
    decreases n,
{
    if n < 10 {
        seq![digit_char(n)]
    } else {
        decimal(n / 10).push(digit_char(n % 10))
    }
}

/// Writes `n` in decimal.
pub fn decimal_exec(n: u64) -> (res: Vec<char>)
    ensures
        res@ == decimal(n as nat),
    decreases n,
{
    let d: u8 = (n % 10) as u8;
    let c: char = (d + 48) as char;
    if n < 10 {
        vec![c]
    } else {
        let mut v = decimal_exec(n / 10);
        v.push(c);
        v
    }
}

/// The line that counts the items of a list not shown when only the first
/// `limit` of `total` are.
pub open spec fn and_more_line(total: nat, limit: nat) -> Option<Seq<char>> {
    if total > limit {
        Some("… and "@ + decimal((total - limit) as nat) + " more"@)
    } else {
        None
    }
}

/// `… and N more` when `total` exceeds `limit`, N being the excess.
pub fn and_more(total: usize, limit: usize) -> (res: Option<String>)
    ensures
        match res {
            Some(s) => and_more_line(total as nat, limit as nat) == Some(s@),
            None => and_more_line(total as nat, limit as nat) is None,
        },
{
    if total > limit {
        let mut m = chars_of("… and ");
        append_chars(&mut m, &decimal_exec((total - limit) as u64));
        append_chars(&mut m, &chars_of(" more"));
        Some(string_of(&m))
    } else {
        None
    }
}

/// The lowercase hexadecimal digit for `d < 16`.
pub open spec fn hex_digit(d: nat) -> char {
    if d < 10 {
        ((d + 48) as u8) as char
    } else {
        ((d + 87) as u8) as char
    }
}

/// Each byte as two lowercase hexadecimal digits (`{:02x}`), in order.
pub open spec fn hex_text(bytes: Seq<u8>) -> Seq<char>
    decreases bytes.len(),
{
    if bytes.len() == 0 {
        Seq::empty()
    } else {
        hex_text(bytes.drop_last()).push(hex_digit((bytes.last() / 16) as nat)).push(
            hex_digit((bytes.last() % 16) as nat),
        )
    }
}

fn hex_digit_exec(d: u8) -> (c: char)
    requires
        d < 16,
    ensures
        c == hex_digit(d as nat),
{
    if d < 10 {
        (d + 48) as char
    } else {
        (d + 87) as char
    }
}

/// Encodes bytes as lowercase hexadecimal.
pub fn hex_exec(bytes: &[u8]) -> (res: Vec<char>)
    ensures
        res@ == hex_text(bytes@),
{
    let mut res: Vec<char> = Vec::new();
    let mut i: usize = 0;
    while i < bytes.len()
        invariant
            i <= bytes.len(),
            res@ == hex_text(bytes@.take(i as int)),
        decreases bytes.len() - i,
    {
        let b = bytes[i];
        res.push(hex_digit_exec(b / 16));
        res.push(hex_digit_exec(b % 16));
        assert(bytes@.take(i + 1).drop_last() =~= bytes@.take(i as int));
        assert(bytes@.take(i + 1).last() == b);
        i = i + 1;
    }
    assert(bytes@.take(bytes.len() as int) =~= bytes@);
    res
}

/// Whether two texts are equal.
pub fn seq_eq_exec(a: &Vec<char>, b: &Vec<char>) -> (res: bool)
    ensures
        res == (a@ == b@),
{
    if a.len() != b.len() {
        return false;
    }
    let mut i: usize = 0;
    while i < a.len()
        invariant
            i <= a.len() == b.len(),
            forall|j: int| 0 <= j < i ==> a@[j] == b@[j],
        decreases a.len() - i,
    {
        if a[i] != b[i] {
            return false;
        }
        i = i + 1;
    }
    assert(a@ =~= b@);
    true
}

/// A copy of a text.
pub fn copy_chars(v: &Vec<char>) -> (res: Vec<char>)
    ensures
        res@ == v@,
{
    let mut res: Vec<char> = Vec::new();
    append_chars(&mut res, v);
    assert(res@ =~= v@);
    res
}

/// A found index is an occurrence, with no earlier one.
pub proof fn lemma_index_of_found(s: Seq<char>, p: Seq<char>)
    requires
        index_of(s, p) >= 0,
    ensures
        occurs_at(s, p, index_of(s, p)),
        0 <= index_of(s, p) <= s.len() - p.len(),
{
    lemma_index_of_from_found(s, p, 0);
}

proof fn lemma_index_of_from_found(s: Seq<char>, p: Seq<char>, i: int)
    requires
        index_of_from(s, p, i) >= 0,
    ensures
        occurs_at(s, p, index_of_from(s, p, i)),
        i <= index_of_from(s, p, i) <= s.len() - p.len(),
    decreases s.len() + 1 - i,
{
    if i < 0 || i + p.len() > s.len() {
    } else if occurs_at(s, p, i) {
    } else {
        lemma_index_of_from_found(s, p, i + 1);
    }
}

} // verus!
