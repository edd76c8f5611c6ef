//! Filesystem layout of an installation prefix.
//!
//! Paths are plain strings; `path_join` states how one component is appended
//! to a path, as `Path::join` does on Unix.

use vstd::prelude::*;
use crate::text::{chars_of, copy_chars, lemma_split_nonempty, lemma_split_sep, split, split_exec, string_of};

verus! {

/// `comp` appended to `base`: an absolute `comp` replaces `base`; otherwise a
/// `/` separates them unless `base` is empty or already ends with one.
pub open spec fn path_join(base: Seq<char>, comp: Seq<char>) -> Seq<char> {
    if comp.len() > 0 && comp[0] == '/' {
        comp
    } else if base.len() == 0 || base.last() == '/' {
        base + comp
    } else {
        base + seq!['/'] + comp
    }
}

/// Appends a path component to a path.
pub fn join_path(base: &str, comp: &str) -> (res: String)
    ensures
        res@ == path_join(base@, comp@),
{
    let b = chars_of(base);
    let c = chars_of(comp);
    let mut out: Vec<char>;
    if c.len() > 0 && c[0] == '/' {
        out = c;
    } else {
        out = b;
        if out.len() > 0 && out[out.len() - 1] != '/' {
            out.push('/');
        }
        let ghost start = out@;
        let mut i: usize = 0;
        while i < c.len()
            invariant
                i <= c.len(),
                out@ == start + c@.take(i as int),
            decreases c.len() - i,
        {
            out.push(c[i]);
            assert(c@.take(i + 1) =~= c@.take(i as int).push(c@[i as int]));
            i = i + 1;
        }
        assert(c@.take(c.len() as int) =~= c@);
        assert(base@.len() > 0 && base@.last() != '/' ==> start =~= base@ + seq!['/']);
    }
    string_of(&out)
}

/// Resolved paths for the active prefix.
pub struct Config {
    /// Install prefix; `bin`, `lib`, etc. are linked under it.
    pub prefix: String,
}

pub open spec fn spec_cellar(prefix: Seq<char>) -> Seq<char> {
    path_join(prefix, "Cellar"@)
}

pub open spec fn spec_formula_cellar(prefix: Seq<char>, name: Seq<char>) -> Seq<char> {
    path_join(spec_cellar(prefix), name)
}

pub open spec fn spec_keg(prefix: Seq<char>, name: Seq<char>, version: Seq<char>) -> Seq<char> {
    path_join(spec_formula_cellar(prefix, name), version)
}

pub open spec fn spec_opt(prefix: Seq<char>, name: Seq<char>) -> Seq<char> {
    path_join(path_join(prefix, "opt"@), name)
}

pub open spec fn spec_cache(prefix: Seq<char>) -> Seq<char> {
    path_join(prefix, "cache"@)
}

/// The directories of a keg that are linked into the prefix, in order.
pub open spec fn spec_link_dirs() -> Seq<Seq<char>> {
    seq!["bin"@, "sbin"@, "etc"@, "include"@, "lib"@, "share"@]
}

impl Config {
    /// The prefix chosen from the environment: `FEHEIM_PREFIX` when it is set,
    /// otherwise `.feheim` under the home directory.
    pub fn load(prefix_var: Option<String>, home: Option<String>) -> (cfg: Config)
        requires
            prefix_var.is_some() || home.is_some(),
        ensures
            cfg.prefix@ == match prefix_var {
                Some(p) => p@,
                None => path_join(home.unwrap()@, ".feheim"@),
            },
    {
        match prefix_var {
            Some(p) => Config { prefix: p },
            None => {
                let h = home.unwrap();
                Config { prefix: join_path(h.as_str(), ".feheim") }
            },
        }
    }

    /// Where extracted kegs live: `<prefix>/Cellar`.
    pub fn cellar(&self) -> (res: String)
        ensures
            res@ == spec_cellar(self.prefix@),
    {
        join_path(self.prefix.as_str(), "Cellar")
    }

    /// Keg directory for one version of a formula: `<prefix>/Cellar/<name>/<version>`.
    pub fn keg(&self, name: &str, version: &str) -> (res: String)
        ensures
            res@ == spec_keg(self.prefix@, name@, version@),
    {
        let fc = self.formula_cellar(name);
        join_path(fc.as_str(), version)
    }

    /// Per-formula cellar root: `<prefix>/Cellar/<name>`.
    pub fn formula_cellar(&self, name: &str) -> (res: String)
        ensures
            res@ == spec_formula_cellar(self.prefix@, name@),
    {
        let c = self.cellar();
        join_path(c.as_str(), name)
    }

    /// Stable per-formula link to the active keg: `<prefix>/opt/<name>`.
    pub fn opt(&self, name: &str) -> (res: String)
        ensures
            res@ == spec_opt(self.prefix@, name@),
    {
        let o = join_path(self.prefix.as_str(), "opt");
        join_path(o.as_str(), name)
    }

    /// Downloaded bottle cache: `<prefix>/cache`.
    pub fn cache(&self) -> (res: String)
        ensures
            res@ == spec_cache(self.prefix@),
    {
        join_path(self.prefix.as_str(), "cache")
    }

    /// Cached copy of the formula index: `<prefix>/cache/formula.json`.
    pub fn index_path(&self) -> (res: String)
        ensures
            res@ == path_join(spec_cache(self.prefix@), "formula.json"@),
    {
        let c = self.cache();
        join_path(c.as_str(), "formula.json")
    }

    /// Record of explicitly requested formulae: `<prefix>/.requested`.
    pub fn requested_path(&self) -> (res: String)
        ensures
            res@ == path_join(self.prefix@, ".requested"@),
    {
        join_path(self.prefix.as_str(), ".requested")
    }

    /// Directories that receive symlinks into a keg.
    pub fn link_dirs(&self) -> (res: Vec<&'static str>)
        ensures
            res@.map_values(|d: &str| d@) == spec_link_dirs(),
    {
        let res: Vec<&'static str> = vec!["bin", "sbin", "etc", "include", "lib", "share"];
        assert(res@.map_values(|d: &str| d@) =~= spec_link_dirs());
        res
    }
}

/// A piece of a path between separators that names something: not empty
/// and not `.`.
pub open spec fn names_entry(p: Seq<char>) -> bool {
    p.len() > 0 && p != seq!['.']
}

/// The pieces that name something, in order.
pub open spec fn normal_pieces(ps: Seq<Seq<char>>) -> Seq<Seq<char>>
    decreases ps.len(),
{
    if ps.len() == 0 {
        Seq::empty()
    } else if names_entry(ps.last()) {
        normal_pieces(ps.drop_last()).push(ps.last())
    } else {
        normal_pieces(ps.drop_last())
    }
}

/// The components of a Unix path, as `Path::components` yields them: a root
/// (`"/"`) for an absolute path, a leading `"."` when a relative path starts
/// with one, then every other piece between separators except empty pieces
/// and `.`.
pub open spec fn components(s: Seq<char>) -> Seq<Seq<char>> {
    let ps = split(s, '/');
    if s.len() > 0 && s[0] == '/' {
        seq![seq!['/']] + normal_pieces(ps)
    } else if ps[0] == seq!['.'] {
        seq![seq!['.']] + normal_pieces(ps.drop_first())
    } else {
        normal_pieces(ps)
    }
}

/// `base` is a leading part of `path`, comparing whole components
/// (`Path::starts_with`).
pub open spec fn path_starts_with(path: Seq<char>, base: Seq<char>) -> bool {
    components(base).is_prefix_of(components(path))
}

fn normal_pieces_exec(ps: &Vec<Vec<char>>, from: usize) -> (res: Vec<Vec<char>>)
    requires
        from <= ps.len(),
    ensures
        res@.map_values(|v: Vec<char>| v@) == normal_pieces(ps@.map_values(|v: Vec<char>| v@).skip(
            from as int,
        )),
{
    let ghost all = ps@.map_values(|v: Vec<char>| v@).skip(from as int);
    let mut res: Vec<Vec<char>> = Vec::new();
    let mut i: usize = from;
    assert(all.take(0) =~= Seq::<Seq<char>>::empty());
    while i < ps.len()
        invariant
            from <= i <= ps.len(),
            all == ps@.map_values(|v: Vec<char>| v@).skip(from as int),
            res@.map_values(|v: Vec<char>| v@) == normal_pieces(all.take(i - from)),
        decreases ps.len() - i,
    {
        let p = &ps[i];
        assert(all.take(i + 1 - from).drop_last() =~= all.take(i - from));
        assert(all.take(i + 1 - from).last() == p@);
        let is_dot = p.len() == 1 && p[0] == '.';
        assert(is_dot == (p@ == seq!['.'])) by {
            if p@ == seq!['.'] {
                assert(p@[0] == '.');
            }
            if is_dot {
                assert(p@ =~= seq!['.']);
            }
        }
        if p.len() > 0 && !is_dot {
            let ghost r0 = res@.map_values(|v: Vec<char>| v@);
            res.push(copy_chars(p));
            assert(res@.map_values(|v: Vec<char>| v@) =~= r0.push(p@));
        }
        i = i + 1;
    }
    assert(all.take(ps.len() - from) =~= all);
    res
}

/// The components of a path.
pub fn components_exec(s: &str) -> (res: Vec<Vec<char>>)
    ensures
        res@.map_values(|v: Vec<char>| v@) == components(s@),
{
    let cs = chars_of(s);
    let ps = split_exec(&cs, '/');
    proof {
        lemma_split_nonempty(s@, '/');
    }
    let ghost pv = ps@.map_values(|v: Vec<char>| v@);
    assert(pv.skip(0) =~= pv);
    if cs.len() > 0 && cs[0] == '/' {
        let rest = normal_pieces_exec(&ps, 0);
        let mut root: Vec<char> = Vec::new();
        root.push('/');
        let mut res: Vec<Vec<char>> = Vec::new();
        res.push(root);
        let mut i: usize = 0;
        let ghost head = res@.map_values(|v: Vec<char>| v@);
        assert(head =~= seq![seq!['/']]);
        while i < rest.len()
            invariant
                i <= rest.len(),
                res@.map_values(|v: Vec<char>| v@) == head + rest@.map_values(|v: Vec<char>| v@).take(
                    i as int,
                ),
            decreases rest.len() - i,
        {
            let ghost r0 = res@.map_values(|v: Vec<char>| v@);
            res.push(copy_chars(&rest[i]));
            assert(res@.map_values(|v: Vec<char>| v@) =~= r0.push(rest@[i as int]@));
            assert(rest@.map_values(|v: Vec<char>| v@).take(i + 1) =~= rest@.map_values(|v: Vec<char>| v@).take(
                i as int,
            ).push(rest@[i as int]@));
            i = i + 1;
        }
        assert(rest@.map_values(|v: Vec<char>| v@).take(rest.len() as int) =~= rest@.map_values(
            |v: Vec<char>| v@,
        ));
        res
    } else {
        let first_dot = ps[0].len() == 1 && ps[0][0] == '.';
        assert(pv[0] == ps@[0]@);
        assert(first_dot == (pv[0] == seq!['.'])) by {
            if pv[0] == seq!['.'] {
                assert(ps@[0]@[0] == '.');
            }
            if first_dot {
                assert(ps@[0]@ =~= seq!['.']);
            }
        }
        if first_dot {
            let rest = normal_pieces_exec(&ps, 1);
            let mut dot: Vec<char> = Vec::new();
            dot.push('.');
            let mut res: Vec<Vec<char>> = Vec::new();
            res.push(dot);
            let ghost head = res@.map_values(|v: Vec<char>| v@);
            assert(head =~= seq![seq!['.']]);
            assert(pv.skip(1) =~= pv.drop_first());
            let mut i: usize = 0;
            while i < rest.len()
                invariant
                    i <= rest.len(),
                    res@.map_values(|v: Vec<char>| v@) == head + rest@.map_values(|v: Vec<char>| v@).take(
                        i as int,
                    ),
                decreases rest.len() - i,
            {
                let ghost r0 = res@.map_values(|v: Vec<char>| v@);
                res.push(copy_chars(&rest[i]));
                assert(res@.map_values(|v: Vec<char>| v@) =~= r0.push(rest@[i as int]@));
                assert(rest@.map_values(|v: Vec<char>| v@).take(i + 1) =~= rest@.map_values(|v: Vec<char>| v@).take(
                    i as int,
                ).push(rest@[i as int]@));
                i = i + 1;
            }
            assert(rest@.map_values(|v: Vec<char>| v@).take(rest.len() as int) =~= rest@.map_values(
                |v: Vec<char>| v@,
            ));
            res
        } else {
            normal_pieces_exec(&ps, 0)
        }
    }
}

/// Whether `path` starts with the components of `base`.
pub fn path_starts_with_exec(path: &str, base: &str) -> (res: bool)
    ensures
        res == path_starts_with(path@, base@),
{
    let p = components_exec(path);
    let b = components_exec(base);
    let ghost pv = p@.map_values(|v: Vec<char>| v@);
    let ghost bv = b@.map_values(|v: Vec<char>| v@);
    if b.len() > p.len() {
        assert(bv.len() > pv.len());
        return false;
    }
    let mut i: usize = 0;
    while i < b.len()
        invariant
            i <= b.len() <= p.len(),
            pv == p@.map_values(|v: Vec<char>| v@),
            bv == b@.map_values(|v: Vec<char>| v@),
            pv == components(path@),
            bv == components(base@),
            forall|j: int| 0 <= j < i ==> bv[j] == pv[j],
        decreases b.len() - i,
    {
        if !crate::text::seq_eq_exec(&b[i], &p[i]) {
            assert(bv[i as int] == b@[i as int]@ && pv[i as int] == p@[i as int]@);
            assert(bv[i as int] != pv[i as int]);
            assert(!bv.is_prefix_of(pv)) by {
                if bv.is_prefix_of(pv) {
                    assert(pv.subrange(0, bv.len() as int)[i as int] == pv[i as int]);
                }
            }
            return false;
        }
        i = i + 1;
    }
    assert(pv.subrange(0, bv.len() as int) =~= bv);
    true
}

proof fn lemma_normal_single_empty()
    ensures
        normal_pieces(seq![Seq::<char>::empty()]) == Seq::<Seq<char>>::empty(),
{
    let x = seq![Seq::<char>::empty()];
    assert(x.drop_last() =~= Seq::<Seq<char>>::empty());
    assert(x.last() == Seq::<char>::empty());
    assert(!names_entry(x.last()));
    assert(normal_pieces(x.drop_last()) == Seq::<Seq<char>>::empty());
}

proof fn lemma_normal_concat(x: Seq<Seq<char>>, y: Seq<Seq<char>>)
    ensures
        normal_pieces(x + y) == normal_pieces(x) + normal_pieces(y),
    decreases y.len(),
{
    if y.len() == 0 {
        assert(x + y =~= x);
        assert(normal_pieces(x) + normal_pieces(y) =~= normal_pieces(x));
    } else {
        assert((x + y).drop_last() =~= x + y.drop_last());
        assert((x + y).last() == y.last());
        lemma_normal_concat(x, y.drop_last());
        if names_entry(y.last()) {
            assert((normal_pieces(x) + normal_pieces(y.drop_last())).push(y.last()) =~= normal_pieces(x)
                + normal_pieces(y.drop_last()).push(y.last()));
        }
    }
}

/// The components of a path joined with a relative piece start with the
/// components of the path.
pub proof fn lemma_join_starts_with(base: Seq<char>, rel: Seq<char>)
    requires
        rel.len() > 0,
        rel[0] != '/',
    ensures
        path_starts_with(path_join(base, rel), base),
{
    let j = path_join(base, rel);
    let e: Seq<char> = Seq::empty();
    if base.len() == 0 {
        assert(j =~= rel);
        assert(split(base, '/') =~= seq![e]);
        lemma_normal_single_empty();
        assert(components(base) =~= Seq::<Seq<char>>::empty());
    } else {
        let k = if base.last() == '/' { base.drop_last() } else { base };
        let a = split(k, '/');
        let r = split(rel, '/');
        lemma_split_nonempty(k, '/');
        lemma_split_sep(k, rel, '/');
        lemma_split_sep(k, e, '/');
        assert(split(e, '/') =~= seq![e]);
        if base.last() == '/' {
            assert(j =~= k + seq!['/'] + rel);
            assert(base =~= k + seq!['/'] + e);
        } else {
            assert(j =~= k + seq!['/'] + rel);
            assert(base == k);
        }
        assert(split(j, '/') == a + r);
        let sb = split(base, '/');
        assert(sb == a || sb == a + seq![e]);
        lemma_normal_concat(a, r);
        lemma_normal_concat(a, seq![e]);
        lemma_normal_single_empty();
        assert(normal_pieces(a + seq![e]) =~= normal_pieces(a));
        lemma_normal_concat(a.drop_first(), r);
        lemma_normal_concat(a.drop_first(), seq![e]);
        assert(normal_pieces(a.drop_first() + seq![e]) =~= normal_pieces(a.drop_first()));
        assert((a + r).drop_first() =~= a.drop_first() + r);
        assert((a + seq![e]).drop_first() =~= a.drop_first() + seq![e]);
        assert((a + r)[0] == a[0]);
        assert((a + seq![e])[0] == a[0]);
        assert(j[0] == base[0]);
        let cj = components(j);
        let cb = components(base);
        if base[0] == '/' {
            assert(cj == seq![seq!['/']] + (normal_pieces(a) + normal_pieces(r)));
            assert(cb == seq![seq!['/']] + normal_pieces(a));
            assert(cb.is_prefix_of(cj)) by {
                assert(cj.subrange(0, cb.len() as int) =~= cb);
            }
        } else if a[0] == seq!['.'] {
            assert(cj == seq![seq!['.']] + (normal_pieces(a.drop_first()) + normal_pieces(r)));
            assert(cb == seq![seq!['.']] + normal_pieces(a.drop_first()));
            assert(cb.is_prefix_of(cj)) by {
                assert(cj.subrange(0, cb.len() as int) =~= cb);
            }
        } else {
            assert(cj == normal_pieces(a) + normal_pieces(r));
            assert(cb == normal_pieces(a));
            assert(cb.is_prefix_of(cj)) by {
                assert(cj.subrange(0, cb.len() as int) =~= cb);
            }
        }
    }
}

} // verus!
