//! The `doctor` report: which checks pass, warn or fail, given what was
//! found on disk.

use vstd::prelude::*;
use crate::text::{
    and_more, and_more_line, append_chars, chars_of, decimal, decimal_exec, join, join_exec, string_of,
    strs,
};

verus! {

/// Health level of one check.
#[derive(Clone, Copy, Debug, PartialEq, Eq, Structural)]
pub enum Health {
    Pass,
    Warn,
    Fail,
}

/// What was found of the cached formula index.
pub enum IndexState {
    /// The index file does not exist.
    Missing,
    /// The index was read; it holds this many formulae.
    Loaded(usize),
    /// The index exists but could not be read; the reason.
    Unreadable(String),
}

/// What the checks look at, as found on disk.
pub struct DoctorFacts {
    /// The prefix, as displayed.
    pub prefix: String,
    /// Whether the prefix is a directory.
    pub prefix_is_dir: bool,
    pub index: IndexState,
    /// Each installed formula, in order, with whether its `opt` link resolves.
    pub installed: Vec<(String, bool)>,
    /// The dangling symlinks found under the prefix's link directories.
    pub broken: Vec<String>,
    /// The orphaned dependencies, sorted.
    pub orphans: Vec<String>,
}

/// The rendered diagnosis.
pub struct DoctorReport {
    /// Every check, in order, with its message.
    pub checks: Vec<(Health, String)>,
    /// The broken links listed under their summary line (at most ten).
    pub broken_listed: Vec<String>,
    /// The line that counts the broken links not listed, if any.
    pub broken_more: Option<String>,
    /// The number of warnings.
    pub warnings: usize,
    /// The number of errors.
    pub errors: usize,
    /// The closing line and its mark.
    pub summary: (Health, String),
}

/// The checks as values.
pub open spec fn check_views(cs: Seq<(Health, String)>) -> Seq<(Health, Seq<char>)> {
    cs.map_values(|c: (Health, String)| (c.0, c.1@))
}

pub open spec fn prefix_check(prefix: Seq<char>, is_dir: bool) -> (Health, Seq<char>) {
    if is_dir {
        (Health::Pass, "prefix "@ + prefix)
    } else {
        (Health::Fail, "prefix missing: "@ + prefix)
    }
}

pub open spec fn index_check(index: IndexState) -> (Health, Seq<char>) {
    match index {
        IndexState::Missing => (Health::Warn, "formula index not fetched (run `feheim update`)"@),
        IndexState::Loaded(n) => (Health::Pass, "formula index: "@ + decimal(n as nat) + " formulae"@),
        IndexState::Unreadable(e) => (Health::Fail, "formula index unreadable: "@ + e@),
    }
}

pub open spec fn installed_check(n: nat) -> (Health, Seq<char>) {
    (Health::Pass, decimal(n) + " formulae installed"@)
}

/// The installed formulae whose `opt` link does not resolve, in order.
pub open spec fn dead_opt(installed: Seq<(String, bool)>) -> Seq<Seq<char>>
    decreases installed.len(),
{
    if installed.len() == 0 {
        Seq::empty()
    } else if installed.last().1 {
        dead_opt(installed.drop_last())
    } else {
        dead_opt(installed.drop_last()).push(installed.last().0@)
    }
}

/// One passing check when every `opt` link resolves, else one failure per
/// dead link.
pub open spec fn opt_checks(dead: Seq<Seq<char>>) -> Seq<(Health, Seq<char>)> {
    if dead.len() == 0 {
        seq![(Health::Pass, "all opt links resolve"@)]
    } else {
        dead.map_values(|n: Seq<char>| (Health::Fail, "dead opt link: opt/"@ + n))
    }
}

pub open spec fn broken_check(n: nat) -> (Health, Seq<char>) {
    if n == 0 {
        (Health::Pass, "no broken prefix symlinks"@)
    } else {
        (Health::Warn, decimal(n) + " broken prefix symlink(s)"@)
    }
}

pub open spec fn orphan_check(orphans: Seq<Seq<char>>) -> (Health, Seq<char>) {
    if orphans.len() == 0 {
        (Health::Pass, "no orphan dependencies"@)
    } else {
        (
            Health::Warn,
            decimal(orphans.len()) + " orphan dependenc"@ + (if orphans.len() == 1 {
                "y"@
            } else {
                "ies"@
            }) + " (run `feheim cleanup`): "@ + join(orphans, ", "@),
        )
    }
}

/// Every check of the diagnosis, in the order they are shown.
pub open spec fn doctor_checks(f: DoctorFacts) -> Seq<(Health, Seq<char>)> {
    seq![
        prefix_check(f.prefix@, f.prefix_is_dir),
        index_check(f.index),
        installed_check(f.installed@.len()),
    ] + opt_checks(dead_opt(f.installed@)) + seq![
        broken_check(f.broken@.len()),
        orphan_check(strs(f.orphans@)),
    ]
}

/// How many checks have the given health.
pub open spec fn count_health(cs: Seq<(Health, Seq<char>)>, h: Health) -> nat
    decreases cs.len(),
{
    if cs.len() == 0 {
        0
    } else {
        count_health(cs.drop_last(), h) + if cs.last().0 == h {
            1nat
        } else {
            0nat
        }
    }
}

/// The closing line: all clear, or the counts of warnings and errors.
pub open spec fn summary_line(warnings: nat, errors: nat) -> (Health, Seq<char>) {
    if warnings == 0 && errors == 0 {
        (Health::Pass, "Your system is ready to brew."@)
    } else {
        (
            if errors > 0 {
                Health::Fail
            } else {
                Health::Warn
            },
            decimal(warnings) + " warning(s), "@ + decimal(errors) + " error(s)."@,
        )
    }
}

fn decimal_usize(n: usize) -> (res: Vec<char>)
    ensures
        res@ == decimal(n as nat),
{
    decimal_exec(n as u64)
}

fn prefix_check_exec(prefix: &String, is_dir: bool) -> (res: (Health, String))
    ensures
        (res.0, res.1@) == prefix_check(prefix@, is_dir),
{
    let mut m = if is_dir {
        chars_of("prefix ")
    } else {
        chars_of("prefix missing: ")
    };
    append_chars(&mut m, &chars_of(prefix.as_str()));
    (if is_dir {
        Health::Pass
    } else {
        Health::Fail
    }, string_of(&m))
}

fn index_check_exec(index: &IndexState) -> (res: (Health, String))
    ensures
        (res.0, res.1@) == index_check(*index),
{
    match index {
        IndexState::Missing => (
            Health::Warn,
            string_of(&chars_of("formula index not fetched (run `feheim update`)")),
        ),
        IndexState::Loaded(n) => {
            let mut m = chars_of("formula index: ");
            append_chars(&mut m, &decimal_usize(*n));
            append_chars(&mut m, &chars_of(" formulae"));
            (Health::Pass, string_of(&m))
        },
        IndexState::Unreadable(e) => {
            let mut m = chars_of("formula index unreadable: ");
            append_chars(&mut m, &chars_of(e.as_str()));
            (Health::Fail, string_of(&m))
        },
    }
}

fn broken_check_exec(n: usize) -> (res: (Health, String))
    ensures
        (res.0, res.1@) == broken_check(n as nat),
{
    if n == 0 {
        (Health::Pass, string_of(&chars_of("no broken prefix symlinks")))
    } else {
        let mut m = decimal_usize(n);
        append_chars(&mut m, &chars_of(" broken prefix symlink(s)"));
        (Health::Warn, string_of(&m))
    }
}

fn orphan_check_exec(orphans: &Vec<String>) -> (res: (Health, String))
    ensures
        (res.0, res.1@) == orphan_check(strs(orphans@)),
{
    if orphans.len() == 0 {
        return (Health::Pass, string_of(&chars_of("no orphan dependencies")));
    }
    let mut parts: Vec<Vec<char>> = Vec::new();
    let mut i: usize = 0;
    while i < orphans.len()
        invariant
            i <= orphans.len(),
            parts@.map_values(|v: Vec<char>| v@) == strs(orphans@).take(i as int),
        decreases orphans.len() - i,
    {
        let ghost p0 = parts@.map_values(|v: Vec<char>| v@);
        parts.push(chars_of(orphans[i].as_str()));
        assert(parts@.map_values(|v: Vec<char>| v@) =~= p0.push(orphans@[i as int]@));
        assert(strs(orphans@).take(i + 1) =~= strs(orphans@).take(i as int).push(orphans@[i as int]@));
        i = i + 1;
    }
    assert(strs(orphans@).take(orphans.len() as int) =~= strs(orphans@));
    let mut m = decimal_usize(orphans.len());
    append_chars(&mut m, &chars_of(" orphan dependenc"));
    if orphans.len() == 1 {
        append_chars(&mut m, &chars_of("y"));
    } else {
        append_chars(&mut m, &chars_of("ies"));
    }
    append_chars(&mut m, &chars_of(" (run `feheim cleanup`): "));
    append_chars(&mut m, &join_exec(&parts, &chars_of(", ")));
    (Health::Warn, string_of(&m))
}

fn summary_exec(warnings: usize, errors: usize) -> (res: (Health, String))
    ensures
        (res.0, res.1@) == summary_line(warnings as nat, errors as nat),
{
    if warnings == 0 && errors == 0 {
        (Health::Pass, string_of(&chars_of("Your system is ready to brew.")))
    } else {
        let mut m = decimal_usize(warnings);
        append_chars(&mut m, &chars_of(" warning(s), "));
        append_chars(&mut m, &decimal_usize(errors));
        append_chars(&mut m, &chars_of(" error(s)."));
        (if errors > 0 {
            Health::Fail
        } else {
            Health::Warn
        }, string_of(&m))
    }
}

/// Pushes a check onto the list.
fn push_check(checks: &mut Vec<(Health, String)>, c: (Health, String))
    ensures
        check_views(final(checks)@) == check_views(old(checks)@).push((c.0, c.1@)),
{
    let ghost before = check_views(checks@);
    checks.push(c);
    assert(check_views(checks@) =~= before.push((c.0, c.1@)));
}

/// Diagnoses the installation from what was found on disk: each check with
/// its health and message, the broken links to list, and the summary.
pub fn doctor(facts: &DoctorFacts) -> (res: DoctorReport)
    ensures
        check_views(res.checks@) == doctor_checks(*facts),
        res.warnings == count_health(doctor_checks(*facts), Health::Warn),
        res.errors == count_health(doctor_checks(*facts), Health::Fail),
        (res.summary.0, res.summary.1@) == summary_line(res.warnings as nat, res.errors as nat),
        strs(res.broken_listed@) == strs(facts.broken@).take(
            if facts.broken@.len() > 10 {
                10
            } else {
                facts.broken@.len() as int
            },
        ),
        match res.broken_more {
            Some(s) => and_more_line(facts.broken@.len(), 10) == Some(s@),
            None => and_more_line(facts.broken@.len(), 10) is None,
        },
{
    let mut checks: Vec<(Health, String)> = Vec::new();
    push_check(&mut checks, prefix_check_exec(&facts.prefix, facts.prefix_is_dir));
    push_check(&mut checks, index_check_exec(&facts.index));
    let mut n = decimal_usize(facts.installed.len());
    append_chars(&mut n, &chars_of(" formulae installed"));
    push_check(&mut checks, (Health::Pass, string_of(&n)));
    let ghost head = check_views(checks@);
    assert(head =~= seq![
        prefix_check(facts.prefix@, facts.prefix_is_dir),
        index_check(facts.index),
        installed_check(facts.installed@.len()),
    ]);

    // Dead opt links, in order.
    let mut dead: Vec<String> = Vec::new();
    let mut i: usize = 0;
    while i < facts.installed.len()
        invariant
            i <= facts.installed.len(),
            strs(dead@) == dead_opt(facts.installed@.take(i as int)),
        decreases facts.installed.len() - i,
    {
        let ghost d0 = strs(dead@);
        assert(facts.installed@.take(i + 1).drop_last() =~= facts.installed@.take(i as int));
        if !facts.installed[i].1 {
            dead.push(facts.installed[i].0.clone());
            assert(strs(dead@) =~= d0.push(facts.installed@[i as int].0@));
        }
        i = i + 1;
    }
    assert(facts.installed@.take(facts.installed.len() as int) =~= facts.installed@);
    if dead.len() == 0 {
        push_check(&mut checks, (Health::Pass, string_of(&chars_of("all opt links resolve"))));
        assert(check_views(checks@) =~= head + opt_checks(dead_opt(facts.installed@)));
    } else {
        let mut k: usize = 0;
        while k < dead.len()
            invariant
                k <= dead.len(),
                check_views(checks@) == head + strs(dead@).take(k as int).map_values(
                    |n: Seq<char>| (Health::Fail, "dead opt link: opt/"@ + n),
                ),
            decreases dead.len() - k,
        {
            let ghost c0 = check_views(checks@);
            let mut m = chars_of("dead opt link: opt/");
            append_chars(&mut m, &chars_of(dead[k].as_str()));
            push_check(&mut checks, (Health::Fail, string_of(&m)));
            assert(strs(dead@).take(k + 1).map_values(
                |n: Seq<char>| (Health::Fail, "dead opt link: opt/"@ + n),
            ) =~= strs(dead@).take(k as int).map_values(
                |n: Seq<char>| (Health::Fail, "dead opt link: opt/"@ + n),
            ).push((Health::Fail, "dead opt link: opt/"@ + dead@[k as int]@)));
            k = k + 1;
        }
        assert(strs(dead@).take(dead.len() as int) =~= strs(dead@));
    }
    let ghost mid = check_views(checks@);
    assert(mid == head + opt_checks(dead_opt(facts.installed@)));
    push_check(&mut checks, broken_check_exec(facts.broken.len()));
    push_check(&mut checks, orphan_check_exec(&facts.orphans));
    assert(check_views(checks@) =~= doctor_checks(*facts));

    // Count warnings and errors.
    let mut warnings: usize = 0;
    let mut errors: usize = 0;
    let mut j: usize = 0;
    while j < checks.len()
        invariant
            j <= checks.len(),
            check_views(checks@) == doctor_checks(*facts),
            warnings == count_health(check_views(checks@).take(j as int), Health::Warn),
            errors == count_health(check_views(checks@).take(j as int), Health::Fail),
            warnings + errors <= j,
        decreases checks.len() - j,
    {
        let ghost cv = check_views(checks@);
        assert(cv.take(j + 1).drop_last() =~= cv.take(j as int));
        match checks[j].0 {
            Health::Pass => {},
            Health::Warn => {
                warnings = warnings + 1;
            },
            Health::Fail => {
                errors = errors + 1;
            },
        }
        j = j + 1;
    }
    assert(check_views(checks@).take(checks.len() as int) =~= check_views(checks@));
    let summary = summary_exec(warnings, errors);

    // The broken links listed, and the count of the rest.
    let mut listed: Vec<String> = Vec::new();
    let mut b: usize = 0;
    while b < facts.broken.len() && b < 10
        invariant
            b <= facts.broken.len(),
            b <= 10,
            strs(listed@) == strs(facts.broken@).take(b as int),
        decreases facts.broken.len() - b,
    {
        let ghost l0 = strs(listed@);
        listed.push(facts.broken[b].clone());
        assert(strs(listed@) =~= l0.push(facts.broken@[b as int]@));
        assert(strs(facts.broken@).take(b + 1) =~= strs(facts.broken@).take(b as int).push(
            facts.broken@[b as int]@,
        ));
        b = b + 1;
    }
    let more = and_more(facts.broken.len(), 10);
    DoctorReport {
        checks,
        broken_listed: listed,
        broken_more: more,
        warnings,
        errors,
        summary,
    }
}

/// Law: the closing line's mark is `Fail` exactly when some check fails,
/// `Warn` when some check warns and none fails, and `Pass` otherwise; and
/// it counts the warnings and the errors.
pub proof fn law_doctor_summary(cs: Seq<(Health, Seq<char>)>)
    ensures
        count_health(cs, Health::Fail) > 0 <==> exists|i: int| 0 <= i < cs.len() && (#[trigger] cs[i]).0 == Health::Fail,
        count_health(cs, Health::Warn) > 0 <==> exists|i: int| 0 <= i < cs.len() && (#[trigger] cs[i]).0 == Health::Warn,
        (summary_line(count_health(cs, Health::Warn), count_health(cs, Health::Fail)).0 == Health::Fail)
            <==> exists|i: int| 0 <= i < cs.len() && (#[trigger] cs[i]).0 == Health::Fail,
        (summary_line(count_health(cs, Health::Warn), count_health(cs, Health::Fail)).0 == Health::Pass)
            <==> forall|i: int| 0 <= i < cs.len() ==> (#[trigger] cs[i]).0 == Health::Pass,
        summary_line(count_health(cs, Health::Warn), count_health(cs, Health::Fail)).1 != "Your system is ready to brew."@
            ==> summary_line(count_health(cs, Health::Warn), count_health(cs, Health::Fail)).1 == decimal(
            count_health(cs, Health::Warn),
        ) + " warning(s), "@ + decimal(count_health(cs, Health::Fail)) + " error(s)."@,
{
    lemma_count_health(cs, Health::Fail);
    lemma_count_health(cs, Health::Warn);
    let w = count_health(cs, Health::Warn);
    let e = count_health(cs, Health::Fail);
    if e == 0 && w == 0 {
        assert forall|i: int| 0 <= i < cs.len() implies (#[trigger] cs[i]).0 == Health::Pass by {
            assert(cs[i].0 != Health::Fail && cs[i].0 != Health::Warn);
        }
    } else {
        if e == 0 {
            let i = choose|i: int| 0 <= i < cs.len() && (#[trigger] cs[i]).0 == Health::Warn;
        } else {
            let i = choose|i: int| 0 <= i < cs.len() && (#[trigger] cs[i]).0 == Health::Fail;
        }
    }
}

/// Some check has health `h` exactly when `h` is counted.
proof fn lemma_count_health(cs: Seq<(Health, Seq<char>)>, h: Health)
    ensures
        count_health(cs, h) > 0 <==> exists|i: int| 0 <= i < cs.len() && (#[trigger] cs[i]).0 == h,
    decreases cs.len(),
{
    if cs.len() > 0 {
        let init = cs.drop_last();
        lemma_count_health(init, h);
        let last = cs.len() - 1;
        assert(cs[last] == cs.last());
        if exists|i: int| 0 <= i < init.len() && (#[trigger] init[i]).0 == h {
            let i = choose|i: int| 0 <= i < init.len() && (#[trigger] init[i]).0 == h;
            assert(cs[i] == init[i]);
        }
        if exists|i: int| 0 <= i < cs.len() && (#[trigger] cs[i]).0 == h {
            let i = choose|i: int| 0 <= i < cs.len() && (#[trigger] cs[i]).0 == h;
            if i < last {
                assert(init[i] == cs[i]);
            }
        }
    }
}

} // verus!
