//! Bottle selection, verification and linking decisions.
//!
//! A bottle is a pre-built binary tarball. The library picks the bottle for
//! the platform, names where it is cached, checks its sha256 digest, and
//! plans which symlinks tie a keg into the prefix and which are removed again.

use vstd::prelude::*;
use sha2::Digest;
use crate::config::{
    lemma_join_starts_with, path_join, path_starts_with, path_starts_with_exec,
    spec_cache, spec_keg, spec_link_dirs, Config,
};
use crate::formula::{spec_bottle_for, spec_stable_version, BottleFile, Formula};
use crate::text::{
    append_chars, chars_of, decimal, decimal_exec, hex_text, hex_exec, index_of, index_of_exec,
    seq_eq_exec, string_of,
};

verus! {

/// The SHA-256 digest of a byte string.
pub uninterp spec fn spec_sha256(data: Seq<u8>) -> Seq<u8>;

/// `sha2::Sha256::digest`: the SHA-256 digest of `data`, which is 32 bytes long.
#[verifier::external_body]
fn sha256_digest(data: &[u8]) -> (res: Vec<u8>)
    ensures
        res@ == spec_sha256(data@),
        res@.len() == 32,
{
    sha2::Sha256::digest(data).to_vec()
}

/// Encodes bytes as lowercase hexadecimal, two digits per byte.
pub fn hex(bytes: &[u8]) -> (res: String)
    ensures
        res@ == hex_text(bytes@),
{
    let h = hex_exec(bytes);
    string_of(&h)
}

/// The keg version: the stable version, with `_<revision>` appended when the
/// formula's revision is not zero.
pub open spec fn spec_keg_version(f: Formula) -> Seq<char> {
    if f.revision > 0 {
        spec_stable_version(f) + "_"@ + decimal(f.revision as nat)
    } else {
        spec_stable_version(f)
    }
}

/// Keg version string, appending `_<revision>` when the formula has a
/// non-zero revision (the keg path is `Cellar/<name>/<version>_<revision>`;
/// the bottle's rebuild count never enters it).
pub fn keg_version(formula: &Formula) -> (res: String)
    ensures
        res@ == spec_keg_version(*formula),
{
    let base = formula.stable_version();
    if formula.revision > 0 {
        let mut out = chars_of(base.as_str());
        append_chars(&mut out, &chars_of("_"));
        append_chars(&mut out, &decimal_exec(formula.revision as u64));
        string_of(&out)
    } else {
        base
    }
}

/// Why a bottle cannot be installed.
pub enum InstallError {
    /// No bottle for any of the platform's tags.
    NoBottle(String),
    /// The downloaded bottle's digest is not the index's.
    ShaMismatch { name: String, expected: String, actual: String },
}

pub open spec fn spec_install_error_message(e: InstallError) -> Seq<char> {
    match e {
        InstallError::NoBottle(name) => "no bottle available for "@ + name@ + " on this platform"@,
        InstallError::ShaMismatch { name, expected, actual } => "sha256 mismatch for "@ + name@
            + ": expected "@ + expected@ + ", got "@ + actual@,
    }
}

impl InstallError {
    /// The user-facing message of this error.
    pub fn message(&self) -> (res: String)
        ensures
            res@ == spec_install_error_message(*self),
    {
        match self {
            InstallError::NoBottle(name) => {
                let mut out = chars_of("no bottle available for ");
                append_chars(&mut out, &chars_of(name.as_str()));
                append_chars(&mut out, &chars_of(" on this platform"));
                string_of(&out)
            },
            InstallError::ShaMismatch { name, expected, actual } => {
                let mut out = chars_of("sha256 mismatch for ");
                append_chars(&mut out, &chars_of(name.as_str()));
                append_chars(&mut out, &chars_of(": expected "));
                append_chars(&mut out, &chars_of(expected.as_str()));
                append_chars(&mut out, &chars_of(", got "));
                append_chars(&mut out, &chars_of(actual.as_str()));
                string_of(&out)
            },
        }
    }
}

/// The first bottle file that one of the tags, tried in order, yields.
pub open spec fn spec_select_bottle(f: Formula, tags: Seq<Seq<char>>) -> Option<BottleFile>
    decreases tags.len(),
{
    if tags.len() == 0 {
        None
    } else {
        match spec_bottle_for(f, tags[0]) {
            Some(b) => Some(b),
            None => spec_select_bottle(f, tags.drop_first()),
        }
    }
}

/// Picks the bottle file for the first of the candidate tags that has one.
pub fn select_bottle<'a>(formula: &'a Formula, tags: &Vec<String>) -> (res: Option<&'a BottleFile>)
    ensures
        match res {
            Some(b) => spec_select_bottle(*formula, crate::text::strs(tags@)) == Some(*b),
            None => spec_select_bottle(*formula, crate::text::strs(tags@)) is None,
        },
{
    let ghost ts = crate::text::strs(tags@);
    let mut i: usize = 0;
    assert(ts.skip(0) =~= ts);
    while i < tags.len()
        invariant
            i <= tags.len(),
            ts == crate::text::strs(tags@),
            spec_select_bottle(*formula, ts.skip(i as int)) == spec_select_bottle(*formula, ts),
        decreases tags.len() - i,
    {
        assert(ts.skip(i as int)[0] == tags@[i as int]@);
        assert(ts.skip(i as int).drop_first() =~= ts.skip(i + 1));
        match formula.bottle_for(tags[i].as_str()) {
            Some(b) => {
                return Some(b);
            },
            None => {},
        }
        i = i + 1;
    }
    None
}

/// Where a formula's bottle is fetched from and cached.
pub struct DownloadPlan {
    pub url: String,
    pub sha256: String,
    /// The keg version the bottle installs.
    pub version: String,
    /// The cached tarball: `<prefix>/cache/<name>-<version>.tar.gz`.
    pub dest: String,
}

/// The cached tarball's path for a formula version.
pub open spec fn spec_bottle_dest(prefix: Seq<char>, name: Seq<char>, version: Seq<char>) -> Seq<char> {
    path_join(spec_cache(prefix), name + "-"@ + version + ".tar.gz"@)
}

/// Plans the download of `formula`'s bottle for the first candidate tag that
/// has one; `NoBottle` when none has.
pub fn download_bottle(cfg: &Config, formula: &Formula, tags: &Vec<String>) -> (res: Result<
    DownloadPlan,
    InstallError,
>)
    ensures
        (match spec_select_bottle(*formula, crate::text::strs(tags@)) {
            None => (res matches Err(InstallError::NoBottle(n)) && n@ == formula.name@),
            Some(file) => (res matches Ok(plan) && plan.url@ == file.url@ && plan.sha256@
                == file.sha256@ && plan.version@ == spec_keg_version(*formula) && plan.dest@
                == spec_bottle_dest(cfg.prefix@, formula.name@, spec_keg_version(*formula))),
        }),
{
    match select_bottle(formula, tags) {
        None => Err(InstallError::NoBottle(formula.name.clone())),
        Some(file) => {
            let version = keg_version(formula);
            let mut fname = chars_of(formula.name.as_str());
            append_chars(&mut fname, &chars_of("-"));
            append_chars(&mut fname, &chars_of(version.as_str()));
            append_chars(&mut fname, &chars_of(".tar.gz"));
            let fname = string_of(&fname);
            let cache = cfg.cache();
            let dest = crate::config::join_path(cache.as_str(), fname.as_str());
            Ok(DownloadPlan { url: file.url.clone(), sha256: file.sha256.clone(), version, dest })
        },
    }
}

/// Compares a bottle's SHA-256 digest, written in lowercase hexadecimal,
/// with the expected one.
pub fn check_digest(name: &str, expected: &str, digest: &[u8]) -> (res: Result<(), InstallError>)
    ensures
        res is Ok <==> hex_text(digest@) == expected@,
        res is Err ==> (res matches Err(InstallError::ShaMismatch { name: n, expected: x, actual: a })
            && n@ == name@ && x@ == expected@ && a@ == hex_text(digest@)),
{
    let actual = hex(digest);
    let a = chars_of(actual.as_str());
    let e = chars_of(expected);
    if seq_eq_exec(&a, &e) {
        Ok(())
    } else {
        Err(
            InstallError::ShaMismatch {
                name: name.to_owned(),
                expected: expected.to_owned(),
                actual,
            },
        )
    }
}

/// Checks a downloaded (or cached) bottle against its expected digest.
pub fn verify_bottle(name: &str, expected: &str, bytes: &[u8]) -> (res: Result<(), InstallError>)
    ensures
        res is Ok <==> hex_text(spec_sha256(bytes@)) == expected@,
        res is Err ==> (res matches Err(InstallError::ShaMismatch { name: n, expected: x, actual: a })
            && n@ == name@ && x@ == expected@ && a@ == hex_text(spec_sha256(bytes@))),
{
    let digest = sha256_digest(bytes);
    check_digest(name, expected, digest.as_slice())
}

/// A path relative to the keg is linked when it lies inside one of the link
/// directories.
pub open spec fn linkable(rel: Seq<char>) -> bool {
    let j = index_of(rel, "/"@);
    j >= 0 && spec_link_dirs().contains(rel.take(j))
}

/// The symlinks (target in the keg, link in the prefix) for the given keg files.
pub open spec fn spec_link_plan(keg: Seq<char>, prefix: Seq<char>, files: Seq<Seq<char>>) -> Seq<
    (Seq<char>, Seq<char>),
>
    decreases files.len(),
{
    if files.len() == 0 {
        Seq::empty()
    } else {
        let init = spec_link_plan(keg, prefix, files.drop_last());
        if linkable(files.last()) {
            init.push((path_join(keg, files.last()), path_join(prefix, files.last())))
        } else {
            init
        }
    }
}

/// Plans the symlinks that tie a keg into the prefix, mirroring `brew link`:
/// every file under one of the link directories of the keg (given relative to
/// the keg) is linked at the same relative path under the prefix.
pub fn link_keg(cfg: &Config, name: &str, version: &str, files: &Vec<String>) -> (res: Vec<
    (String, String),
>)
    ensures
        res@.map_values(|l: (String, String)| (l.0@, l.1@)) == spec_link_plan(
            spec_keg(cfg.prefix@, name@, version@),
            cfg.prefix@,
            crate::text::strs(files@),
        ),
{
    let keg = cfg.keg(name, version);
    let dirs = cfg.link_dirs();
    let slash = chars_of("/");
    let ghost fs = crate::text::strs(files@);
    let mut res: Vec<(String, String)> = Vec::new();
    let mut i: usize = 0;
    assert(fs.take(0) =~= Seq::<Seq<char>>::empty());
    while i < files.len()
        invariant
            i <= files.len(),
            fs == crate::text::strs(files@),
            keg@ == spec_keg(cfg.prefix@, name@, version@),
            dirs@.map_values(|d: &str| d@) == spec_link_dirs(),
            slash@ == "/"@,
            res@.map_values(|l: (String, String)| (l.0@, l.1@)) == spec_link_plan(
                keg@,
                cfg.prefix@,
                fs.take(i as int),
            ),
        decreases files.len() - i,
    {
        let rel = &files[i];
        assert(fs.take(i + 1).drop_last() =~= fs.take(i as int));
        assert(fs.take(i + 1).last() == rel@);
        let cs = chars_of(rel.as_str());
        let mut link = false;
        match index_of_exec(&cs, &slash) {
            Some(j) => {
                let mut head: Vec<char> = Vec::new();
                let mut k: usize = 0;
                while k < j
                    invariant
                        k <= j <= cs.len(),
                        head@ == cs@.take(k as int),
                    decreases j - k,
                {
                    head.push(cs[k]);
                    assert(cs@.take(k + 1) =~= cs@.take(k as int).push(cs@[k as int]));
                    k = k + 1;
                }
                let mut d: usize = 0;
                while d < dirs.len()
                    invariant
                        d <= dirs.len(),
                        dirs@.map_values(|d: &str| d@) == spec_link_dirs(),
                        head@ == rel@.take(j as int),
                        !link ==> forall|q: int| 0 <= q < d ==> spec_link_dirs()[q] != head@,
                        link ==> spec_link_dirs().contains(head@),
                    decreases dirs.len() - d,
                {
                    let dc = chars_of(dirs[d]);
                    if seq_eq_exec(&dc, &head) {
                        link = true;
                        assert(spec_link_dirs()[d as int] == head@);
                    }
                    d = d + 1;
                }
                assert(link == linkable(rel@)) by {
                    if !link && spec_link_dirs().contains(head@) {
                        let q = choose|q: int| 0 <= q < spec_link_dirs().len() && spec_link_dirs()[q] == head@;
                    }
                }
            },
            None => {
                assert(!linkable(rel@));
            },
        }
        if link {
            let src = crate::config::join_path(keg.as_str(), rel.as_str());
            let dst = crate::config::join_path(cfg.prefix.as_str(), rel.as_str());
            let ghost r0 = res@.map_values(|l: (String, String)| (l.0@, l.1@));
            res.push((src, dst));
            assert(res@.map_values(|l: (String, String)| (l.0@, l.1@)) =~= r0.push(
                (path_join(keg@, rel@), path_join(cfg.prefix@, rel@)),
            ));
        }
        i = i + 1;
    }
    assert(fs.take(files.len() as int) =~= fs);
    res
}

/// The links among `links` (each a link path with its target) whose target
/// lies inside `keg`.
pub open spec fn spec_unlink_plan(keg: Seq<char>, links: Seq<(Seq<char>, Seq<char>)>) -> Seq<
    Seq<char>,
>
    decreases links.len(),
{
    if links.len() == 0 {
        Seq::empty()
    } else {
        let init = spec_unlink_plan(keg, links.drop_last());
        if path_starts_with(links.last().1, keg) {
            init.push(links.last().0)
        } else {
            init
        }
    }
}

/// Picks, among the symlinks found in the prefix (each a link path with the
/// target it reads), those that point into the given keg: these are removed.
pub fn unlink_keg(cfg: &Config, name: &str, version: &str, links: &Vec<(String, String)>) -> (res:
    Vec<String>)
    ensures
        crate::text::strs(res@) == spec_unlink_plan(
            spec_keg(cfg.prefix@, name@, version@),
            links@.map_values(|l: (String, String)| (l.0@, l.1@)),
        ),
{
    let keg = cfg.keg(name, version);
    let ghost ls = links@.map_values(|l: (String, String)| (l.0@, l.1@));
    let mut res: Vec<String> = Vec::new();
    let mut i: usize = 0;
    assert(ls.take(0) =~= Seq::<(Seq<char>, Seq<char>)>::empty());
    while i < links.len()
        invariant
            i <= links.len(),
            ls == links@.map_values(|l: (String, String)| (l.0@, l.1@)),
            keg@ == spec_keg(cfg.prefix@, name@, version@),
            crate::text::strs(res@) == spec_unlink_plan(keg@, ls.take(i as int)),
        decreases links.len() - i,
    {
        assert(ls.take(i + 1).drop_last() =~= ls.take(i as int));
        assert(ls.take(i + 1).last() == (links@[i as int].0@, links@[i as int].1@));
        if path_starts_with_exec(links[i].1.as_str(), keg.as_str()) {
            let ghost r0 = crate::text::strs(res@);
            res.push(links[i].0.clone());
            assert(crate::text::strs(res@) =~= r0.push(links@[i as int].0@));
        }
        i = i + 1;
    }
    assert(ls.take(links.len() as int) =~= ls);
    res
}

proof fn lemma_linkable_relative(rel: Seq<char>)
    requires
        linkable(rel),
    ensures
        rel.len() > 0,
        rel[0] != '/',
{
    let j = index_of(rel, "/"@);
    crate::text::lemma_index_of_found(rel, "/"@);
    reveal_strlit("bin");
    reveal_strlit("sbin");
    reveal_strlit("etc");
    reveal_strlit("include");
    reveal_strlit("lib");
    reveal_strlit("share");
    let q = choose|q: int| 0 <= q < spec_link_dirs().len() && spec_link_dirs()[q] == rel.take(j);
    assert(rel.take(j).len() > 0);
    assert(rel.take(j)[0] != '/');
}

/// Every link that linking a keg creates points into the keg.
proof fn lemma_link_targets_in_keg(prefix: Seq<char>, keg: Seq<char>, files: Seq<Seq<char>>, i: int)
    requires
        0 <= i < spec_link_plan(keg, prefix, files).len(),
    ensures
        path_starts_with(spec_link_plan(keg, prefix, files)[i].0, keg),
    decreases files.len(),
{
    let init = spec_link_plan(keg, prefix, files.drop_last());
    if i < init.len() {
        lemma_link_targets_in_keg(prefix, keg, files.drop_last(), i);
        if linkable(files.last()) {
            assert(spec_link_plan(keg, prefix, files)[i] == init[i]);
        }
    } else {
        lemma_linkable_relative(files.last());
        lemma_join_starts_with(keg, files.last());
    }
}

/// The links of a link plan, each with the target it reads.
pub open spec fn found_links(plan: Seq<(Seq<char>, Seq<char>)>) -> Seq<(Seq<char>, Seq<char>)> {
    plan.map_values(|p: (Seq<char>, Seq<char>)| (p.1, p.0))
}

/// Law: unlinking a keg removes every link that linking the keg created,
/// whatever files the keg holds: given the links that `link_keg` planned
/// (each with the target it reads), `unlink_keg` picks all of them, in order.
pub proof fn law_unlink_undoes_link(prefix: Seq<char>, keg: Seq<char>, files: Seq<Seq<char>>)
    ensures
        spec_unlink_plan(keg, found_links(spec_link_plan(keg, prefix, files))) == spec_link_plan(
            keg,
            prefix,
            files,
        ).map_values(|p: (Seq<char>, Seq<char>)| p.1),
    decreases files.len(),
{
    let plan = spec_link_plan(keg, prefix, files);
    if files.len() == 0 {
        assert(found_links(plan) =~= Seq::<(Seq<char>, Seq<char>)>::empty());
        assert(plan.map_values(|p: (Seq<char>, Seq<char>)| p.1) =~= Seq::<Seq<char>>::empty());
    } else {
        let init = spec_link_plan(keg, prefix, files.drop_last());
        law_unlink_undoes_link(prefix, keg, files.drop_last());
        if linkable(files.last()) {
            let t = path_join(keg, files.last());
            let l = path_join(prefix, files.last());
            assert(plan == init.push((t, l)));
            lemma_link_targets_in_keg(prefix, keg, files, plan.len() - 1);
            assert(found_links(plan) =~= found_links(init).push((l, t)));
            assert(found_links(plan).drop_last() =~= found_links(init));
            assert(plan.map_values(|p: (Seq<char>, Seq<char>)| p.1) =~= init.map_values(
                |p: (Seq<char>, Seq<char>)| p.1,
            ).push(l));
        } else {
            assert(plan == init);
        }
    }
}

/// A path is among the unlink plan exactly when some found link with that
/// path reads a target inside the keg.
proof fn lemma_unlink_plan_contains(keg: Seq<char>, found: Seq<(Seq<char>, Seq<char>)>, l: Seq<char>)
    ensures
        spec_unlink_plan(keg, found).contains(l) <==> exists|j: int|
            0 <= j < found.len() && (#[trigger] found[j]).0 == l && path_starts_with(found[j].1, keg),
    decreases found.len(),
{
    if found.len() > 0 {
        let init = found.drop_last();
        lemma_unlink_plan_contains(keg, init, l);
        let last = found.len() - 1;
        assert(found[last] == found.last());
        let ip = spec_unlink_plan(keg, init);
        if path_starts_with(found.last().1, keg) {
            assert(spec_unlink_plan(keg, found) == ip.push(found.last().0));
            assert(ip.push(found.last().0).contains(l) <==> (ip.contains(l) || found.last().0 == l)) by {
                if ip.push(found.last().0).contains(l) && !ip.contains(l) {
                    let q = choose|q: int| 0 <= q < ip.len() + 1 && ip.push(found.last().0)[q] == l;
                    if q < ip.len() {
                        assert(ip[q] == l);
                    }
                }
                if ip.contains(l) {
                    let q = choose|q: int| 0 <= q < ip.len() && ip[q] == l;
                    assert(ip.push(found.last().0)[q] == l);
                }
                if found.last().0 == l {
                    assert(ip.push(found.last().0)[ip.len() as int] == l);
                }
            }
        } else {
            assert(spec_unlink_plan(keg, found) == ip);
        }
        if exists|j: int| 0 <= j < init.len() && (#[trigger] init[j]).0 == l && path_starts_with(init[j].1, keg) {
            let j = choose|j: int| 0 <= j < init.len() && (#[trigger] init[j]).0 == l && path_starts_with(init[j].1, keg);
            assert(found[j] == init[j]);
        }
        if exists|j: int| 0 <= j < found.len() && (#[trigger] found[j]).0 == l && path_starts_with(found[j].1, keg) {
            let j = choose|j: int| 0 <= j < found.len() && (#[trigger] found[j]).0 == l && path_starts_with(found[j].1, keg);
            if j < init.len() {
                assert(init[j] == found[j]);
            }
        }
    }
}

/// Law: unlinking a keg, whatever other links the prefix holds, removes every
/// link that linking the keg created and that is still found reading its
/// target, and removes nothing but links whose target lies inside the keg.
pub proof fn law_unlink_among_other_links(
    prefix: Seq<char>,
    keg: Seq<char>,
    files: Seq<Seq<char>>,
    found: Seq<(Seq<char>, Seq<char>)>,
)
    ensures
        forall|i: int|
            0 <= i < spec_link_plan(keg, prefix, files).len() && found.contains(
                (spec_link_plan(keg, prefix, files)[i].1, spec_link_plan(keg, prefix, files)[i].0),
            ) ==> spec_unlink_plan(keg, found).contains(#[trigger] spec_link_plan(keg, prefix, files)[i].1),
        forall|l: Seq<char>|
            #[trigger] spec_unlink_plan(keg, found).contains(l) ==> exists|j: int|
                0 <= j < found.len() && (#[trigger] found[j]).0 == l && path_starts_with(found[j].1, keg),
{
    let plan = spec_link_plan(keg, prefix, files);
    assert forall|i: int|
        0 <= i < plan.len() && found.contains((plan[i].1, plan[i].0)) implies spec_unlink_plan(
        keg,
        found,
    ).contains(#[trigger] plan[i].1) by {
        lemma_link_targets_in_keg(prefix, keg, files, i);
        let j = choose|j: int| 0 <= j < found.len() && found[j] == (plan[i].1, plan[i].0);
        assert(found[j].0 == plan[i].1 && path_starts_with(found[j].1, keg));
        lemma_unlink_plan_contains(keg, found, plan[i].1);
    }
    assert forall|l: Seq<char>| #[trigger] spec_unlink_plan(keg, found).contains(l) implies exists|j: int|
        0 <= j < found.len() && (#[trigger] found[j]).0 == l && path_starts_with(found[j].1, keg) by {
        lemma_unlink_plan_contains(keg, found, l);
    }
}

/// Each planned link comes from a linkable file of the keg.
proof fn lemma_link_plan_origin(prefix: Seq<char>, keg: Seq<char>, files: Seq<Seq<char>>, k: int)
    requires
        0 <= k < spec_link_plan(keg, prefix, files).len(),
    ensures
        exists|j: int|
            0 <= j < files.len() && linkable(#[trigger] files[j]) && spec_link_plan(keg, prefix, files)[k]
                == (path_join(keg, files[j]), path_join(prefix, files[j])),
    decreases files.len(),
{
    let init = spec_link_plan(keg, prefix, files.drop_last());
    if k < init.len() {
        lemma_link_plan_origin(prefix, keg, files.drop_last(), k);
        let j = choose|j: int|
            0 <= j < files.drop_last().len() && linkable(#[trigger] files.drop_last()[j]) && init[k] == (
                path_join(keg, files.drop_last()[j]),
                path_join(prefix, files.drop_last()[j]),
            );
        assert(files[j] == files.drop_last()[j]);
        if linkable(files.last()) {
            assert(spec_link_plan(keg, prefix, files)[k] == init[k]);
        }
    } else {
        assert(files[files.len() - 1] == files.last());
    }
}

/// Joining one base with two relative paths gives the same path only for
/// the same relative path.
proof fn lemma_join_injective(base: Seq<char>, a: Seq<char>, b: Seq<char>)
    requires
        a.len() > 0 && a[0] != '/',
        b.len() > 0 && b[0] != '/',
        path_join(base, a) == path_join(base, b),
    ensures
        a == b,
{
    let head: Seq<char> = if base.len() == 0 || base.last() == '/' { base } else { base + seq!['/'] };
    assert(path_join(base, a) == head + a);
    assert(path_join(base, b) == head + b);
    assert(a =~= (head + a).skip(head.len() as int));
    assert(b =~= (head + b).skip(head.len() as int));
}

/// Law: linking the keg's distinct files plans distinct links, one per
/// linkable file, so linking again replaces each link rather than adding one.
pub proof fn law_link_plan_distinct(prefix: Seq<char>, keg: Seq<char>, files: Seq<Seq<char>>)
    requires
        files.no_duplicates(),
    ensures
        spec_link_plan(keg, prefix, files).map_values(|p: (Seq<char>, Seq<char>)| p.1).no_duplicates(),
    decreases files.len(),
{
    let plan = spec_link_plan(keg, prefix, files);
    let init = spec_link_plan(keg, prefix, files.drop_last());
    if files.len() > 0 {
        law_link_plan_distinct(prefix, keg, files.drop_last());
        let links = plan.map_values(|p: (Seq<char>, Seq<char>)| p.1);
        let ilinks = init.map_values(|p: (Seq<char>, Seq<char>)| p.1);
        if linkable(files.last()) {
            let f = files.last();
            assert(links =~= ilinks.push(path_join(prefix, f)));
            lemma_linkable_relative(f);
            assert forall|k: int| 0 <= k < ilinks.len() implies ilinks[k] != path_join(prefix, f) by {
                lemma_link_plan_origin(prefix, keg, files.drop_last(), k);
                let j = choose|j: int|
                    0 <= j < files.drop_last().len() && linkable(#[trigger] files.drop_last()[j]) && init[k]
                        == (path_join(keg, files.drop_last()[j]), path_join(prefix, files.drop_last()[j]));
                let g = files.drop_last()[j];
                lemma_linkable_relative(g);
                assert(files[j] == g);
                assert(files[files.len() - 1] == f);
                if ilinks[k] == path_join(prefix, f) {
                    lemma_join_injective(prefix, g, f);
                }
            }
            assert forall|x: int, y: int| 0 <= x < links.len() && 0 <= y < links.len() && x != y implies links[x]
                != links[y] by {
                if x < ilinks.len() && y < ilinks.len() {
                    assert(links[x] == ilinks[x] && links[y] == ilinks[y]);
                } else if x < ilinks.len() {
                    assert(links[x] == ilinks[x]);
                } else {
                    assert(links[y] == ilinks[y]);
                }
            }
        } else {
            assert(links =~= ilinks);
        }
    } else {
        assert(plan.map_values(|p: (Seq<char>, Seq<char>)| p.1) =~= Seq::<Seq<char>>::empty());
    }
}

/// With distinct found link paths, the unlink plan names no link twice.
proof fn lemma_unlink_plan_distinct(keg: Seq<char>, found: Seq<(Seq<char>, Seq<char>)>)
    requires
        found.map_values(|f: (Seq<char>, Seq<char>)| f.0).no_duplicates(),
    ensures
        spec_unlink_plan(keg, found).no_duplicates(),
    decreases found.len(),
{
    if found.len() > 0 {
        let init = found.drop_last();
        let paths = found.map_values(|f: (Seq<char>, Seq<char>)| f.0);
        assert(init.map_values(|f: (Seq<char>, Seq<char>)| f.0) =~= paths.drop_last());
        lemma_unlink_plan_distinct(keg, init);
        let ip = spec_unlink_plan(keg, init);
        if path_starts_with(found.last().1, keg) {
            let l = found.last().0;
            lemma_unlink_plan_contains(keg, init, l);
            if ip.contains(l) {
                let j = choose|j: int|
                    0 <= j < init.len() && (#[trigger] init[j]).0 == l && path_starts_with(init[j].1, keg);
                assert(paths[j] == l && paths[found.len() - 1] == l);
            }
            let r = ip.push(l);
            assert forall|x: int, y: int| 0 <= x < r.len() && 0 <= y < r.len() && x != y implies r[x] != r[y] by {
                if x < ip.len() && y < ip.len() {
                } else if x < ip.len() {
                    assert(ip.contains(ip[x]));
                } else {
                    assert(ip.contains(ip[y]));
                }
            }
        }
    }
}

/// Law: when the keg's files are distinct, the links found in the prefix
/// have distinct paths, every link that linking created is found reading its
/// target, and no other found link points into the keg, then unlinking picks
/// exactly the links that linking created, as many as linking created.
pub proof fn law_unlink_count(
    prefix: Seq<char>,
    keg: Seq<char>,
    files: Seq<Seq<char>>,
    found: Seq<(Seq<char>, Seq<char>)>,
)
    requires
        files.no_duplicates(),
        found.map_values(|f: (Seq<char>, Seq<char>)| f.0).no_duplicates(),
        forall|i: int|
            0 <= i < spec_link_plan(keg, prefix, files).len() ==> found.contains(
                (
                    (#[trigger] spec_link_plan(keg, prefix, files)[i]).1,
                    spec_link_plan(keg, prefix, files)[i].0,
                ),
            ),
        forall|j: int|
            0 <= j < found.len() && path_starts_with((#[trigger] found[j]).1, keg) ==> exists|i: int|
                0 <= i < spec_link_plan(keg, prefix, files).len() && (#[trigger] spec_link_plan(
                    keg,
                    prefix,
                    files,
                )[i]).1 == found[j].0,
    ensures
        spec_unlink_plan(keg, found).to_set() == spec_link_plan(keg, prefix, files).map_values(
            |p: (Seq<char>, Seq<char>)| p.1,
        ).to_set(),
        spec_unlink_plan(keg, found).len() == spec_link_plan(keg, prefix, files).len(),
{
    let plan = spec_link_plan(keg, prefix, files);
    let links = plan.map_values(|p: (Seq<char>, Seq<char>)| p.1);
    let un = spec_unlink_plan(keg, found);
    law_unlink_among_other_links(prefix, keg, files, found);
    assert forall|l: Seq<char>| un.to_set().contains(l) <==> links.to_set().contains(l) by {
        if un.contains(l) {
            let j = choose|j: int|
                0 <= j < found.len() && (#[trigger] found[j]).0 == l && path_starts_with(found[j].1, keg);
            let i = choose|i: int| 0 <= i < plan.len() && (#[trigger] plan[i]).1 == found[j].0;
            assert(links[i] == l);
        }
        if links.contains(l) {
            let i = choose|i: int| 0 <= i < links.len() && links[i] == l;
            assert(plan[i].1 == l);
            assert(found.contains((plan[i].1, plan[i].0)));
        }
    }
    assert(un.to_set() =~= links.to_set());
    law_link_plan_distinct(prefix, keg, files);
    lemma_unlink_plan_distinct(keg, found);
    un.unique_seq_to_set();
    links.unique_seq_to_set();
}

/// Law: the selected bottle is the file of the first candidate tag, in
/// order, that yields one: no bottle exactly when no tag yields a file;
/// otherwise the file of some tag, every earlier tag yielding none.
pub proof fn law_select_first_tag(f: Formula, tags: Seq<Seq<char>>)
    ensures
        spec_select_bottle(f, tags) is None <==> forall|i: int|
            0 <= i < tags.len() ==> (#[trigger] spec_bottle_for(f, tags[i])) is None,
        spec_select_bottle(f, tags) matches Some(b) ==> exists|i: int|
            0 <= i < tags.len() && spec_bottle_for(f, tags[i]) == Some(b) && forall|j: int|
                0 <= j < i ==> (#[trigger] spec_bottle_for(f, tags[j])) is None,
    decreases tags.len(),
{
    if tags.len() > 0 {
        let rest = tags.drop_first();
        law_select_first_tag(f, rest);
        assert forall|i: int| 0 < i < tags.len() implies tags[i] == rest[i - 1] by {}
        if spec_bottle_for(f, tags[0]) is Some {
            assert(exists|i: int|
                0 <= i < tags.len() && spec_bottle_for(f, tags[i]) == spec_select_bottle(f, tags)
                    && forall|j: int| 0 <= j < i ==> (#[trigger] spec_bottle_for(f, tags[j])) is None) by {
                assert(forall|j: int| 0 <= j < 0 ==> (#[trigger] spec_bottle_for(f, tags[j])) is None);
            }
        } else {
            if spec_select_bottle(f, rest) is Some {
                let k = choose|k: int|
                    0 <= k < rest.len() && spec_bottle_for(f, rest[k]) == spec_select_bottle(f, rest)
                        && forall|j: int| 0 <= j < k ==> (#[trigger] spec_bottle_for(f, rest[j])) is None;
                assert(spec_bottle_for(f, tags[k + 1]) == spec_select_bottle(f, tags));
                assert forall|j: int| 0 <= j < k + 1 implies (#[trigger] spec_bottle_for(f, tags[j])) is None by {
                    if j > 0 {
                        assert(tags[j] == rest[j - 1]);
                        assert(spec_bottle_for(f, rest[j - 1]) is None);
                    }
                }
            } else {
                assert forall|i: int| 0 <= i < tags.len() implies (#[trigger] spec_bottle_for(f, tags[i])) is None by {
                    if i > 0 {
                        assert(tags[i] == rest[i - 1]);
                        assert(spec_bottle_for(f, rest[i - 1]) is None);
                    }
                }
            }
            if spec_select_bottle(f, tags) is None {
            } else {
            }
        }
        if forall|i: int| 0 <= i < tags.len() ==> (#[trigger] spec_bottle_for(f, tags[i])) is None {
            assert(spec_bottle_for(f, tags[0]) is None);
            assert forall|i: int| 0 <= i < rest.len() implies (#[trigger] spec_bottle_for(f, rest[i])) is None by {
                assert(rest[i] == tags[i + 1]);
                assert(spec_bottle_for(f, tags[i + 1]) is None);
            }
        }
    }
}

/// The link directories, by name.
proof fn lemma_link_dirs_named()
    ensures
        spec_link_dirs() == seq!["bin"@, "sbin"@, "etc"@, "include"@, "lib"@, "share"@],
{
}

/// The first path component of `rel` (the part before its first `/`) is
/// `bin`, `sbin`, `etc`, `include`, `lib` or `share`.
pub open spec fn under_link_dir(rel: Seq<char>) -> bool {
    index_of(rel, "/"@) >= 0 && seq!["bin"@, "sbin"@, "etc"@, "include"@, "lib"@, "share"@].contains(
        rel.take(index_of(rel, "/"@)),
    )
}

/// `link` is the link, from the keg to the prefix, of one of the files
/// that lies under a link directory.
pub open spec fn links_a_file_under_link_dir(
    prefix: Seq<char>,
    keg: Seq<char>,
    files: Seq<Seq<char>>,
    link: (Seq<char>, Seq<char>),
) -> bool {
    exists|i: int|
        0 <= i < files.len() && under_link_dir(#[trigger] files[i]) && link == (
            path_join(keg, files[i]),
            path_join(prefix, files[i]),
        )
}

/// Law: linking plans one link for each keg file under `bin`, `sbin`, `etc`,
/// `include`, `lib` or `share`, from the file in the keg to the same relative
/// path in the prefix; every planned link is of that kind.
pub proof fn law_link_plan_covers_link_dirs(prefix: Seq<char>, keg: Seq<char>, files: Seq<Seq<char>>)
    ensures
        forall|i: int|
            0 <= i < files.len() && under_link_dir(#[trigger] files[i]) ==> spec_link_plan(
                keg,
                prefix,
                files,
            ).contains((path_join(keg, files[i]), path_join(prefix, files[i]))),
        forall|k: int|
            0 <= k < spec_link_plan(keg, prefix, files).len() ==> links_a_file_under_link_dir(
                prefix,
                keg,
                files,
                #[trigger] spec_link_plan(keg, prefix, files)[k],
            ),
    decreases files.len(),
{
    lemma_link_dirs_named();
    let plan = spec_link_plan(keg, prefix, files);
    assert(forall|rel: Seq<char>| #[trigger] linkable(rel) == under_link_dir(rel));
    if files.len() > 0 {
        let init = files.drop_last();
        law_link_plan_covers_link_dirs(prefix, keg, init);
        let ip = spec_link_plan(keg, prefix, init);
        let last = files.len() - 1;
        assert(files[last] == files.last());
        assert forall|i: int| 0 <= i < files.len() && under_link_dir(#[trigger] files[i]) implies plan.contains(
            (path_join(keg, files[i]), path_join(prefix, files[i])),
        ) by {
            if i < last {
                assert(init[i] == files[i]);
                let x = (path_join(keg, files[i]), path_join(prefix, files[i]));
                assert(ip.contains(x));
                let q = choose|q: int| 0 <= q < ip.len() && ip[q] == x;
                assert(plan[q] == ip[q]);
            } else {
                assert(linkable(files.last()));
                assert(plan[ip.len() as int] == (path_join(keg, files[i]), path_join(prefix, files[i])));
            }
        }
        assert forall|k: int| 0 <= k < plan.len() implies links_a_file_under_link_dir(
            prefix,
            keg,
            files,
            #[trigger] plan[k],
        ) by {
            if k < ip.len() {
                assert(plan[k] == ip[k]);
                assert(links_a_file_under_link_dir(prefix, keg, init, ip[k]));
                let i = choose|i: int|
                    0 <= i < init.len() && under_link_dir(#[trigger] init[i]) && ip[k] == (
                        path_join(keg, init[i]),
                        path_join(prefix, init[i]),
                    );
                assert(files[i] == init[i]);
                assert(under_link_dir(files[i]));
            } else {
                assert(linkable(files.last()));
                assert(plan == ip.push((path_join(keg, files.last()), path_join(prefix, files.last()))));
                assert(plan[k] == (path_join(keg, files[last]), path_join(prefix, files[last])));
                assert(under_link_dir(files[last]));
            }
        }
    }
}

} // verus!
