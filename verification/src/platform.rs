//! The bottle tags for the host platform.
//!
//! macOS bottles are named `<arch>_<codename>` (e.g. `arm64_sequoia`) and
//! Linux bottles `x86_64_linux`. The candidates run from most to least
//! specific, so an exact codename miss still resolves to a usable bottle.

use vstd::prelude::*;
use crate::text::{append_chars, chars_of, copy_chars, string_of, strs};

verus! {

/// The host operating system, as far as bottle tags are concerned.
pub enum HostOs {
    MacOs,
    Linux,
    Other,
}

/// The host processor architecture, as far as bottle tags are concerned.
pub enum HostArch {
    Aarch64,
    Other,
}

/// The macOS codenames, newest first.
pub open spec fn mac_codenames() -> Seq<Seq<char>> {
    seq!["sequoia"@, "sonoma"@, "ventura"@, "monterey"@, "big_sur"@]
}

/// The candidate tags: for macOS each codename, newest first, prefixed by
/// `arm64_` on Apple silicon; for Linux `x86_64_linux`; always ending with the
/// architecture-independent `all`.
pub open spec fn spec_candidate_tags(os: HostOs, arch: HostArch) -> Seq<Seq<char>> {
    match os {
        HostOs::MacOs => {
            let p: Seq<char> = match arch {
                HostArch::Aarch64 => "arm64_"@,
                HostArch::Other => Seq::empty(),
            };
            seq![
                p + mac_codenames()[0],
                p + mac_codenames()[1],
                p + mac_codenames()[2],
                p + mac_codenames()[3],
                p + mac_codenames()[4],
                "all"@,
            ]
        },
        HostOs::Linux => seq!["x86_64_linux"@, "all"@],
        HostOs::Other => seq!["all"@],
    }
}

/// Ordered list of candidate bottle tags, most specific first; always ends
/// with `all`.
pub fn candidate_tags(os: HostOs, arch: HostArch) -> (res: Vec<String>)
    ensures
        strs(res@) == spec_candidate_tags(os, arch),
        res@.len() > 0 && res@.last()@ == "all"@,
{
    let mut tags: Vec<String> = Vec::new();
    match os {
        HostOs::MacOs => {
            let p: Vec<char> = match arch {
                HostArch::Aarch64 => chars_of("arm64_"),
                HostArch::Other => Vec::new(),
            };
            let names: Vec<&'static str> = vec!["sequoia", "sonoma", "ventura", "monterey", "big_sur"];
            assert(names@.map_values(|d: &str| d@) =~= mac_codenames());
            let mut i: usize = 0;
            while i < names.len()
                invariant
                    i <= names.len(),
                    names@.map_values(|d: &str| d@) == mac_codenames(),
                    strs(tags@) == mac_codenames().take(i as int).map_values(|c: Seq<char>| p@ + c),
                decreases names.len() - i,
            {
                let mut t = copy_chars(&p);
                append_chars(&mut t, &chars_of(names[i]));
                let ghost before = strs(tags@);
                tags.push(string_of(&t));
                assert(mac_codenames().take(i + 1) =~= mac_codenames().take(i as int).push(mac_codenames()[i as int]));
                assert(names@.map_values(|d: &str| d@)[i as int] == names@[i as int]@);
                assert(strs(tags@) =~= before.push(p@ + mac_codenames()[i as int]));
                assert(strs(tags@) =~= mac_codenames().take(i + 1).map_values(|c: Seq<char>| p@ + c));
                i = i + 1;
            }
            let ghost before = strs(tags@);
            tags.push(string_of(&chars_of("all")));
            assert(mac_codenames().take(5) =~= mac_codenames());
            assert(before =~= mac_codenames().map_values(|c: Seq<char>| p@ + c));
            assert(strs(tags@) =~= before.push("all"@));
            assert(strs(tags@) =~= spec_candidate_tags(os, arch));
            return tags;
        },
        HostOs::Linux => {
            tags.push(string_of(&chars_of("x86_64_linux")));
        },
        HostOs::Other => {},
    }
    tags.push(string_of(&chars_of("all")));
    assert(strs(tags@) =~= spec_candidate_tags(os, arch));
    tags
}

/// Two texts that differ in length or in their first character stay
/// different behind a common prefix.
proof fn lemma_prefixed_differ(p: Seq<char>, a: Seq<char>, b: Seq<char>)
    requires
        a.len() != b.len() || (a.len() > 0 && b.len() > 0 && a[0] != b[0]),
    ensures
        p + a != p + b,
{
    if p + a == p + b {
        assert((p + a).len() == (p + b).len());
        if a.len() > 0 {
            assert((p + a)[p.len() as int] == a[0]);
            assert((p + b)[p.len() as int] == b[0]);
        }
    }
}

/// Law: every host's candidate tags end with `all`, hold `all` nowhere
/// else, and name no tag twice.
pub proof fn law_candidate_tags(os: HostOs, arch: HostArch)
    ensures
        spec_candidate_tags(os, arch).len() > 0,
        spec_candidate_tags(os, arch).last() == "all"@,
        forall|i: int|
            0 <= i < spec_candidate_tags(os, arch).len() - 1 ==> spec_candidate_tags(os, arch)[i]
                != "all"@,
        spec_candidate_tags(os, arch).no_duplicates(),
{
    reveal_strlit("sequoia");
    reveal_strlit("sonoma");
    reveal_strlit("ventura");
    reveal_strlit("monterey");
    reveal_strlit("big_sur");
    reveal_strlit("all");
    reveal_strlit("arm64_");
    reveal_strlit("x86_64_linux");
    let t = spec_candidate_tags(os, arch);
    match os {
        HostOs::MacOs => {
            let p: Seq<char> = match arch {
                HostArch::Aarch64 => "arm64_"@,
                HostArch::Other => Seq::empty(),
            };
            let c = mac_codenames();
            assert forall|i: int, j: int| 0 <= i < j < 5 implies p + c[i] != p + c[j] by {
                lemma_prefixed_differ(p, c[i], c[j]);
            }
            assert forall|i: int| 0 <= i < 5 implies p + c[i] != "all"@ by {
                assert((p + c[i]).len() != "all"@.len());
            }
            assert forall|i: int, j: int| 0 <= i < t.len() && 0 <= j < t.len() && i != j implies t[i] != t[j] by {
                if i < j && j < 5 {
                    assert(t[i] == p + c[i] && t[j] == p + c[j]);
                } else if j < i && i < 5 {
                    assert(t[i] == p + c[i] && t[j] == p + c[j]);
                } else if j == 5 {
                    assert(t[i] == p + c[i]);
                } else {
                    assert(t[j] == p + c[j]);
                }
            }
        },
        HostOs::Linux => {
            assert("x86_64_linux"@.len() != "all"@.len());
        },
        HostOs::Other => {},
    }
}

} // verus!
