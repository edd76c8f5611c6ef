//! Bottle relocation.
//!
//! Bottles are built against placeholder paths (`@@HOMEBREW_PREFIX@@`,
//! `@@HOMEBREW_CELLAR@@`, ...) so they can be poured into any prefix. At
//! install time the placeholders are rewritten to the real prefix: in Mach-O
//! load commands (by the install name tool) and in text files such as
//! pkg-config `.pc` files. This module decides what is rewritten and to what.

use vstd::prelude::*;
use vstd::utf8::{decode_utf8, valid_utf8};
use crate::config::{spec_cellar, spec_keg, Config};
use crate::text::{
    lemma_occurs_prefix, lemma_replace_absent, lemma_replace_leaves_no_occurrence, opaque_replacement,
    chars_of, index_of, index_of_exec, lemma_split_nonempty, occurs_in, occurs_in_exec, replace_all,
    replace_all_exec, split, split_exec, string_of, trim, trim_exec,
};

verus! {

pub open spec fn token_prefix() -> Seq<char> {
    "@@HOMEBREW_PREFIX@@"@
}

pub open spec fn token_cellar() -> Seq<char> {
    "@@HOMEBREW_CELLAR@@"@
}

pub open spec fn token_repository() -> Seq<char> {
    "@@HOMEBREW_REPOSITORY@@"@
}

/// The marker that every placeholder starts with.
pub open spec fn placeholder_marker() -> Seq<char> {
    "@@HOMEBREW"@
}

/// The Homebrew path tokens of `input` replaced by this prefix's paths: the
/// cellar token by the cellar, and the repository and prefix tokens by the
/// prefix, in that order.
pub open spec fn spec_substitute(prefix: Seq<char>, input: Seq<char>) -> Seq<char> {
    replace_all(
        replace_all(replace_all(input, token_cellar(), spec_cellar(prefix)), token_repository(), prefix),
        token_prefix(),
        prefix,
    )
}

/// Substitutes the Homebrew path tokens in a string with this prefix's paths.
pub fn substitute(cfg: &Config, input: &str) -> (res: String)
    ensures
        res@ == spec_substitute(cfg.prefix@, input@),
{
    let text = chars_of(input);
    let cellar = chars_of(cfg.cellar().as_str());
    let prefix = chars_of(cfg.prefix.as_str());
    let t_cellar = chars_of("@@HOMEBREW_CELLAR@@");
    let t_repo = chars_of("@@HOMEBREW_REPOSITORY@@");
    let t_prefix = chars_of("@@HOMEBREW_PREFIX@@");
    proof {
        reveal_strlit("@@HOMEBREW_CELLAR@@");
        reveal_strlit("@@HOMEBREW_REPOSITORY@@");
        reveal_strlit("@@HOMEBREW_PREFIX@@");
    }
    let a = replace_all_exec(&text, &t_cellar, &cellar);
    let b = replace_all_exec(&a, &t_repo, &prefix);
    let c = replace_all_exec(&b, &t_prefix, &prefix);
    string_of(&c)
}

/// Whether the text holds a placeholder marker.
fn has_placeholder(text: &Vec<char>) -> (res: bool)
    ensures
        res == occurs_in(text@, placeholder_marker()),
{
    let marker = chars_of("@@HOMEBREW");
    occurs_in_exec(text, &marker)
}

/// The first four bytes are the magic number of a Mach-O object: thin 32- or
/// 64-bit, or fat, in either byte order.
pub open spec fn spec_is_macho(bytes: Seq<u8>) -> bool {
    bytes.len() >= 4 && {
        let m = bytes.take(4);
        ||| m == seq![0xfeu8, 0xed, 0xfa, 0xce]
        ||| m == seq![0xfeu8, 0xed, 0xfa, 0xcf]
        ||| m == seq![0xceu8, 0xfa, 0xed, 0xfe]
        ||| m == seq![0xcfu8, 0xfa, 0xed, 0xfe]
        ||| m == seq![0xcau8, 0xfe, 0xba, 0xbe]
        ||| m == seq![0xbeu8, 0xba, 0xfe, 0xca]
    }
}

/// Detects a Mach-O (thin or fat) object by its magic number.
pub fn is_macho(bytes: &[u8]) -> (res: bool)
    ensures
        res == spec_is_macho(bytes@),
{
    if bytes.len() < 4 {
        return false;
    }
    let (b0, b1, b2, b3) = (bytes[0], bytes[1], bytes[2], bytes[3]);
    let ghost m = bytes@.take(4);
    assert(m =~= seq![b0, b1, b2, b3]);
    (b0 == 0xfe && b1 == 0xed && b2 == 0xfa && b3 == 0xce) || (b0 == 0xfe && b1 == 0xed && b2
        == 0xfa && b3 == 0xcf) || (b0 == 0xce && b1 == 0xfa && b2 == 0xed && b3 == 0xfe) || (b0
        == 0xcf && b1 == 0xfa && b2 == 0xed && b3 == 0xfe) || (b0 == 0xca && b1 == 0xfe && b2
        == 0xba && b3 == 0xbe) || (b0 == 0xbe && b1 == 0xba && b2 == 0xfe && b3 == 0xca)
}

/// The owner-write permission bit.
pub const OWNER_WRITE: u32 = 0o200;

/// Bottle files are often read-only; relocation must write to them. The mode
/// to set so the owner may write (the given mode with the owner-write bit
/// added), or `None` when the owner already may.
pub fn ensure_writable(mode: u32) -> (res: Option<u32>)
    ensures
        res is None <==> mode & OWNER_WRITE != 0,
        res matches Some(m) ==> m == mode | OWNER_WRITE,
{
    if mode & OWNER_WRITE == 0 {
        Some(mode | OWNER_WRITE)
    } else {
        None
    }
}

/// `std::str::from_utf8`: the text that `bytes` encode, exactly when they are
/// valid UTF-8.
#[verifier::external_body]
fn utf8_text(bytes: &[u8]) -> (res: Option<&str>)
    ensures
        res is Some <==> valid_utf8(bytes@),
        res matches Some(t) ==> t@ == decode_utf8(bytes@),
{
    std::str::from_utf8(bytes).ok()
}

/// What relocation does with one regular file of a keg.
pub enum FileRelocation {
    /// A Mach-O object: its install id and load commands are rewritten.
    MachO,
    /// A text file holding placeholders: its new contents.
    Rewrite(String),
    /// Nothing to do.
    Unchanged,
}

/// Decides how one regular file of a keg is relocated, from its contents.
pub fn relocate_file(cfg: &Config, bytes: &[u8]) -> (res: FileRelocation)
    ensures
        spec_is_macho(bytes@) ==> res is MachO,
        !spec_is_macho(bytes@) && valid_utf8(bytes@) && occurs_in(
            decode_utf8(bytes@),
            placeholder_marker(),
        ) ==> (res matches FileRelocation::Rewrite(t) && t@ == spec_substitute(
            cfg.prefix@,
            decode_utf8(bytes@),
        )),
        !spec_is_macho(bytes@) && !(valid_utf8(bytes@) && occurs_in(
            decode_utf8(bytes@),
            placeholder_marker(),
        )) ==> res is Unchanged,
{
    if is_macho(bytes) {
        return FileRelocation::MachO;
    }
    match utf8_text(bytes) {
        Some(text) => {
            let cs = chars_of(text);
            if has_placeholder(&cs) {
                FileRelocation::Rewrite(substitute(cfg, text))
            } else {
                FileRelocation::Unchanged
            }
        },
        None => FileRelocation::Unchanged,
    }
}

/// The directory whose files are relocated for one installed version.
pub fn relocate_keg(cfg: &Config, name: &str, version: &str) -> (res: String)
    ensures
        res@ == spec_keg(cfg.prefix@, name@, version@),
{
    cfg.keg(name, version)
}

/// The install id in the output of `otool -D`: the second line, trimmed,
/// when it is not empty.
pub open spec fn spec_macho_id(out: Seq<char>) -> Option<Seq<char>> {
    let lines = split(out, '\n');
    if lines.len() >= 2 && trim(lines[1]).len() > 0 {
        Some(trim(lines[1]))
    } else {
        None
    }
}

/// The path of a dependency line of `otool -L`: the trimmed line up to the
/// first `" ("`, when it has one.
pub open spec fn dep_of_line(line: Seq<char>) -> Option<Seq<char>> {
    let t = trim(line);
    let j = index_of(t, " ("@);
    if j >= 0 {
        Some(t.take(j))
    } else {
        None
    }
}

/// The dependency paths of the given lines, in order.
pub open spec fn deps_of_lines(lines: Seq<Seq<char>>) -> Seq<Seq<char>>
    decreases lines.len(),
{
    if lines.len() == 0 {
        Seq::empty()
    } else {
        let init = deps_of_lines(lines.drop_last());
        match dep_of_line(lines.last()) {
            Some(d) => init.push(d),
            None => init,
        }
    }
}

/// The dependency paths in the output of `otool -L`, after its header line.
pub open spec fn spec_macho_deps(out: Seq<char>) -> Seq<Seq<char>> {
    deps_of_lines(split(out, '\n').skip(1))
}

/// Parses the output of `otool -D` for a dylib's install id.
pub fn macho_id(out: &str) -> (res: Option<String>)
    ensures
        match res {
            Some(s) => spec_macho_id(out@) == Some(s@),
            None => spec_macho_id(out@) is None,
        },
{
    let cs = chars_of(out);
    let lines = split_exec(&cs, '\n');
    proof {
        lemma_split_nonempty(out@, '\n');
    }
    if lines.len() >= 2 {
        assert(lines@.map_values(|v: Vec<char>| v@)[1] == lines@[1]@);
        let t = trim_exec(&lines[1]);
        if t.len() > 0 {
            return Some(string_of(&t));
        }
    }
    None
}

/// Parses the output of `otool -L` for dependency paths, skipping the header line.
pub fn macho_deps(out: &str) -> (res: Vec<String>)
    ensures
        res@.map_values(|s: String| s@) == spec_macho_deps(out@),
{
    let cs = chars_of(out);
    let lines = split_exec(&cs, '\n');
    let ghost views = lines@.map_values(|v: Vec<char>| v@);
    let sep = chars_of(" (");
    let mut res: Vec<String> = Vec::new();
    let mut i: usize = 1;
    proof {
        lemma_split_nonempty(out@, '\n');
    }
    assert(views.skip(1).take(0) =~= Seq::<Seq<char>>::empty());
    while i < lines.len()
        invariant
            1 <= i <= lines.len(),
            views == lines@.map_values(|v: Vec<char>| v@),
            views == split(out@, '\n'),
            sep@ == " ("@,
            res@.map_values(|s: String| s@) == deps_of_lines(views.skip(1).take(i - 1)),
        decreases lines.len() - i,
    {
        let ghost prev = views.skip(1).take(i - 1);
        assert(views.skip(1).take(i as int).drop_last() =~= prev);
        assert(views.skip(1).take(i as int).last() == lines@[i as int]@);
        let t = trim_exec(&lines[i]);
        match index_of_exec(&t, &sep) {
            Some(j) => {
                let mut d: Vec<char> = Vec::new();
                let mut k: usize = 0;
                while k < j
                    invariant
                        k <= j <= t.len(),
                        d@ == t@.take(k as int),
                    decreases j - k,
                {
                    d.push(t[k]);
                    assert(t@.take(k + 1) =~= t@.take(k as int).push(t@[k as int]));
                    k = k + 1;
                }
                res.push(string_of(&d));
                assert(res@.map_values(|s: String| s@) =~= deps_of_lines(prev).push(t@.take(j as int)));
            },
            None => {},
        }
        i = i + 1;
    }
    assert(views.skip(1).take(lines.len() - 1) =~= views.skip(1));
    res
}

/// How a Mach-O object's recorded paths are rewritten.
pub struct MachoEdits {
    /// The new install id, when the current one holds a placeholder.
    pub id: Option<String>,
    /// Each dependency path holding a placeholder, with its replacement.
    pub changes: Vec<(String, String)>,
}

/// The rewrites of the given dependency paths that hold a placeholder.
pub open spec fn spec_dep_changes(prefix: Seq<char>, deps: Seq<Seq<char>>) -> Seq<(Seq<char>, Seq<char>)>
    decreases deps.len(),
{
    if deps.len() == 0 {
        Seq::empty()
    } else {
        let init = spec_dep_changes(prefix, deps.drop_last());
        if occurs_in(deps.last(), placeholder_marker()) {
            init.push((deps.last(), spec_substitute(prefix, deps.last())))
        } else {
            init
        }
    }
}

/// Plans the rewrite of a Mach-O object from the outputs of `otool -D` and
/// `otool -L`: the install id and each dependency path that holds a
/// placeholder get their substituted form.
pub fn relocate_macho(cfg: &Config, id_out: &str, deps_out: &str) -> (res: MachoEdits)
    ensures
        match spec_macho_id(id_out@) {
            Some(id) => if occurs_in(id, placeholder_marker()) {
                res.id matches Some(n) && n@ == spec_substitute(cfg.prefix@, id)
            } else {
                res.id is None
            },
            None => res.id is None,
        },
        res.changes@.map_values(|c: (String, String)| (c.0@, c.1@)) == spec_dep_changes(
            cfg.prefix@,
            spec_macho_deps(deps_out@),
        ),
{
    let id = match macho_id(id_out) {
        Some(i) => {
            let cs = chars_of(i.as_str());
            if has_placeholder(&cs) {
                Some(substitute(cfg, i.as_str()))
            } else {
                None
            }
        },
        None => None,
    };
    let deps = macho_deps(deps_out);
    let ghost dviews = deps@.map_values(|s: String| s@);
    let mut changes: Vec<(String, String)> = Vec::new();
    let mut i: usize = 0;
    assert(dviews.take(0) =~= Seq::<Seq<char>>::empty());
    while i < deps.len()
        invariant
            i <= deps.len(),
            dviews == deps@.map_values(|s: String| s@),
            changes@.map_values(|c: (String, String)| (c.0@, c.1@)) == spec_dep_changes(
                cfg.prefix@,
                dviews.take(i as int),
            ),
        decreases deps.len() - i,
    {
        assert(dviews.take(i + 1).drop_last() =~= dviews.take(i as int));
        assert(dviews.take(i + 1).last() == deps@[i as int]@);
        let cs = chars_of(deps[i].as_str());
        if has_placeholder(&cs) {
            let new = substitute(cfg, deps[i].as_str());
            let old = deps[i].clone();
            let ghost prev = changes@.map_values(|c: (String, String)| (c.0@, c.1@));
            changes.push((old, new));
            assert(changes@.map_values(|c: (String, String)| (c.0@, c.1@)) =~= prev.push(
                (deps@[i as int]@, spec_substitute(cfg.prefix@, deps@[i as int]@)),
            ));
        }
        i = i + 1;
    }
    assert(dviews.take(deps.len() as int) =~= dviews);
    MachoEdits { id, changes }
}

proof fn lemma_token_shape(t: Seq<char>)
    requires
        t == token_prefix() || t == token_cellar() || t == token_repository(),
    ensures
        t.len() > 0,
        t[0] == '@',
        t.last() == '@',
        !t.contains('/'),
        placeholder_marker().is_prefix_of(t),
{
    reveal_strlit("@@HOMEBREW_PREFIX@@");
    reveal_strlit("@@HOMEBREW_CELLAR@@");
    reveal_strlit("@@HOMEBREW_REPOSITORY@@");
    reveal_strlit("@@HOMEBREW");
    assert(!t.contains('/')) by {
        if t.contains('/') {
            let i = choose|i: int| 0 <= i < t.len() && t[i] == '/';
            assert(t[i] != '/');
        }
    }
    assert(placeholder_marker() =~= t.take(10));
}

/// A prefix path that holds a `/` and no `@` yields a cellar path of the same kind.
proof fn lemma_cellar_shape(prefix: Seq<char>)
    requires
        prefix.contains('/'),
        !prefix.contains('@'),
    ensures
        spec_cellar(prefix).contains('/'),
        !spec_cellar(prefix).contains('@'),
{
    reveal_strlit("Cellar");
    let c = spec_cellar(prefix);
    let j = choose|j: int| 0 <= j < prefix.len() && prefix[j] == '/';
    assert(c[j] == '/');
    assert(!c.contains('@')) by {
        if c.contains('@') {
            let i = choose|i: int| 0 <= i < c.len() && c[i] == '@';
            if i < prefix.len() {
                assert(prefix[i] == '@');
            }
        }
    }
}

/// Law: substituting with a prefix path that holds a `/` and no `@` leaves
/// none of the three placeholders in the text.
pub proof fn law_substitute_leaves_no_placeholder(prefix: Seq<char>, input: Seq<char>)
    requires
        prefix.contains('/'),
        !prefix.contains('@'),
    ensures
        !occurs_in(spec_substitute(prefix, input), token_cellar()),
        !occurs_in(spec_substitute(prefix, input), token_repository()),
        !occurs_in(spec_substitute(prefix, input), token_prefix()),
{
    let cellar = spec_cellar(prefix);
    lemma_cellar_shape(prefix);
    lemma_token_shape(token_cellar());
    lemma_token_shape(token_repository());
    lemma_token_shape(token_prefix());
    let a = replace_all(input, token_cellar(), cellar);
    let b = replace_all(a, token_repository(), prefix);
    assert(opaque_replacement(token_cellar(), cellar, '/'));
    assert(opaque_replacement(token_cellar(), prefix, '/'));
    assert(opaque_replacement(token_repository(), prefix, '/'));
    assert(opaque_replacement(token_prefix(), prefix, '/'));
    lemma_replace_leaves_no_occurrence(input, token_cellar(), cellar, token_cellar(), '/');
    lemma_replace_leaves_no_occurrence(a, token_repository(), prefix, token_cellar(), '/');
    lemma_replace_leaves_no_occurrence(a, token_repository(), prefix, token_repository(), '/');
    lemma_replace_leaves_no_occurrence(b, token_prefix(), prefix, token_cellar(), '/');
    lemma_replace_leaves_no_occurrence(b, token_prefix(), prefix, token_repository(), '/');
    lemma_replace_leaves_no_occurrence(b, token_prefix(), prefix, token_prefix(), '/');
}

proof fn lemma_no_marker_no_token(input: Seq<char>, t: Seq<char>)
    requires
        !occurs_in(input, placeholder_marker()),
        t == token_prefix() || t == token_cellar() || t == token_repository(),
    ensures
        !occurs_in(input, t),
{
    lemma_token_shape(t);
    if occurs_in(input, t) {
        let i = choose|i: int| crate::text::occurs_at(input, t, i);
        lemma_occurs_prefix(input, t, placeholder_marker(), i);
    }
}

/// Law: a text without any `@@HOMEBREW` marker is left unchanged by substitution.
pub proof fn law_substitute_identity(prefix: Seq<char>, input: Seq<char>)
    requires
        !occurs_in(input, placeholder_marker()),
    ensures
        spec_substitute(prefix, input) == input,
{
    lemma_no_marker_no_token(input, token_cellar());
    lemma_no_marker_no_token(input, token_repository());
    lemma_no_marker_no_token(input, token_prefix());
    lemma_replace_absent(input, token_cellar(), spec_cellar(prefix));
    lemma_replace_absent(input, token_repository(), prefix);
    lemma_replace_absent(input, token_prefix(), prefix);
}

/// Law: relocating a Mach-O object changes exactly the dependency paths that
/// hold the `@@HOMEBREW` marker (whichever placeholder follows it), each to
/// its substituted form; with a prefix path that holds a `/` and no `@`, no
/// changed path keeps a placeholder.
pub proof fn law_dep_changes(prefix: Seq<char>, deps: Seq<Seq<char>>)
    ensures
        forall|i: int|
            0 <= i < deps.len() && occurs_in(#[trigger] deps[i], "@@HOMEBREW"@) ==> spec_dep_changes(
                prefix,
                deps,
            ).contains((deps[i], spec_substitute(prefix, deps[i]))),
        forall|k: int|
            0 <= k < spec_dep_changes(prefix, deps).len() ==> deps.contains(
                (#[trigger] spec_dep_changes(prefix, deps)[k]).0,
            ) && occurs_in(spec_dep_changes(prefix, deps)[k].0, "@@HOMEBREW"@)
                && spec_dep_changes(prefix, deps)[k].1 == spec_substitute(
                prefix,
                spec_dep_changes(prefix, deps)[k].0,
            ),
        prefix.contains('/') && !prefix.contains('@') ==> forall|k: int|
            0 <= k < spec_dep_changes(prefix, deps).len() ==> !occurs_in(
                (#[trigger] spec_dep_changes(prefix, deps)[k]).1,
                "@@HOMEBREW_PREFIX@@"@,
            ) && !occurs_in(spec_dep_changes(prefix, deps)[k].1, "@@HOMEBREW_CELLAR@@"@) && !occurs_in(
                spec_dep_changes(prefix, deps)[k].1,
                "@@HOMEBREW_REPOSITORY@@"@,
            ),
    decreases deps.len(),
{
    let ch = spec_dep_changes(prefix, deps);
    if deps.len() > 0 {
        let init = deps.drop_last();
        law_dep_changes(prefix, init);
        let ic = spec_dep_changes(prefix, init);
        let last = deps.len() - 1;
        assert(deps[last] == deps.last());
        assert forall|i: int| 0 <= i < init.len() implies init[i] == deps[i] by {}
        assert forall|x: (Seq<char>, Seq<char>)| ic.contains(x) implies ch.contains(x) by {
            let q = choose|q: int| 0 <= q < ic.len() && ic[q] == x;
            if occurs_in(deps.last(), placeholder_marker()) {
                assert(ch[q] == ic[q]);
            }
        }
        assert forall|i: int|
            0 <= i < deps.len() && occurs_in(#[trigger] deps[i], "@@HOMEBREW"@) implies ch.contains(
            (deps[i], spec_substitute(prefix, deps[i])),
        ) by {
            if i < last {
                assert(init[i] == deps[i]);
                assert(ic.contains((init[i], spec_substitute(prefix, init[i]))));
            } else {
                assert(ch[ic.len() as int] == (deps[i], spec_substitute(prefix, deps[i])));
            }
        }
        assert forall|k: int| 0 <= k < ch.len() implies deps.contains((#[trigger] ch[k]).0) && occurs_in(
            ch[k].0,
            "@@HOMEBREW"@,
        ) && ch[k].1 == spec_substitute(prefix, ch[k].0) by {
            if k < ic.len() {
                assert(ch[k] == ic[k]);
                let j = choose|j: int| 0 <= j < init.len() && init[j] == ic[k].0;
                assert(deps[j] == init[j]);
            } else {
                assert(ch[k].0 == deps[last]);
            }
        }
        if prefix.contains('/') && !prefix.contains('@') {
            assert forall|k: int| 0 <= k < ch.len() implies !occurs_in(
                (#[trigger] ch[k]).1,
                "@@HOMEBREW_PREFIX@@"@,
            ) && !occurs_in(ch[k].1, "@@HOMEBREW_CELLAR@@"@) && !occurs_in(ch[k].1, "@@HOMEBREW_REPOSITORY@@"@) by {
                law_substitute_leaves_no_placeholder(prefix, ch[k].0);
            }
        }
    }
}

} // verus!
