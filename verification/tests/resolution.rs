use feheim::commands::{compute_orphans, dependency_map, install_order, requested_roots};
use feheim::error::FeheimError;
use feheim::formula::{BottleSpec, Formula, Versions};
use feheim::state;
use std::collections::HashSet;

fn f(name: &str, deps: &[&str]) -> Formula {
    Formula {
        name: name.to_string(),
        desc: None,
        homepage: None,
        versions: Versions { stable: Some("1.0".to_string()) },
        revision: 0,
        dependencies: deps.iter().map(|d| d.to_string()).collect(),
        bottle: BottleSpec { stable: None },
    }
}

fn names(ns: &[&str]) -> Vec<String> {
    ns.iter().map(|n| n.to_string()).collect()
}

fn set(v: &[String]) -> HashSet<String> {
    v.iter().cloned().collect()
}

#[test]
fn dependencies_come_first() {
    let g = dependency_map(&vec![f("jq", &["oniguruma"]), f("oniguruma", &[])]);
    assert_eq!(install_order(&g, "jq").ok().unwrap(), names(&["oniguruma", "jq"]));
    assert_eq!(install_order(&g, "oniguruma").ok().unwrap(), names(&["oniguruma"]));
}

#[test]
fn diamond_each_once() {
    let g = dependency_map(&vec![
        f("app", &["b", "c"]),
        f("b", &["d"]),
        f("c", &["d"]),
        f("d", &[]),
    ]);
    assert_eq!(install_order(&g, "app").ok().unwrap(), names(&["d", "b", "c", "app"]));
}

#[test]
fn deps_missing_from_index_are_skipped() {
    let g = dependency_map(&vec![f("a", &["system-lib", "b"]), f("b", &["also-missing"])]);
    assert_eq!(install_order(&g, "a").ok().unwrap(), names(&["b", "a"]));
}

#[test]
fn cycles_terminate() {
    let g = dependency_map(&vec![f("a", &["b"]), f("b", &["a"])]);
    assert_eq!(install_order(&g, "a").ok().unwrap(), names(&["b", "a"]));
    let g = dependency_map(&vec![f("s", &["s"])]);
    assert_eq!(install_order(&g, "s").ok().unwrap(), names(&["s"]));
}

#[test]
fn unknown_formula_is_not_found() {
    let g = dependency_map(&vec![f("a", &[])]);
    match install_order(&g, "zzz") {
        Err(e) => {
            assert!(matches!(&e, FeheimError::NotFound(n) if n == "zzz"));
            assert_eq!(e.message(), "no formula named \"zzz\" (try `feheim update`)");
        }
        Ok(_) => panic!("expected NotFound"),
    }
}

#[test]
fn later_entries_replace_earlier_ones() {
    let g = dependency_map(&vec![f("a", &["b"]), f("b", &[]), f("c", &[]), f("a", &["c"])]);
    assert_eq!(install_order(&g, "a").ok().unwrap(), names(&["c", "a"]));
    assert!(g.contains(&"b".to_string()));
    assert_eq!(g.deps_of(&"a".to_string()).unwrap(), &names(&["c"]));
    assert!(g.deps_of(&"x".to_string()).is_none());
}

#[test]
fn orphans_are_unreachable_installed() {
    let g = dependency_map(&vec![
        f("jq", &["oniguruma"]),
        f("oniguruma", &[]),
        f("wget", &["openssl", "libidn2"]),
        f("openssl", &["ca-certificates"]),
        f("ca-certificates", &[]),
        f("libidn2", &[]),
    ]);
    let installed = names(&["jq", "oniguruma", "openssl", "ca-certificates", "libidn2"]);
    let orphans = compute_orphans(&installed, &g, &names(&["jq"]));
    assert_eq!(orphans, names(&["ca-certificates", "libidn2", "openssl"]));
}

#[test]
fn no_roots_orphans_everything() {
    let g = dependency_map(&vec![f("a", &["b"]), f("b", &[])]);
    assert_eq!(compute_orphans(&names(&["b", "a"]), &g, &names(&[])), names(&["a", "b"]));
    assert!(compute_orphans(&names(&[]), &g, &names(&["a"])).is_empty());
}

#[test]
fn walk_stays_within_installed() {
    // c is reachable only through b, which is not installed.
    let g = dependency_map(&vec![f("a", &["b"]), f("b", &["c"]), f("c", &[])]);
    assert_eq!(compute_orphans(&names(&["a", "c"]), &g, &names(&["a"])), names(&["c"]));
}

#[test]
fn cleanup_leaves_no_orphans() {
    let g = dependency_map(&vec![f("a", &["b"]), f("b", &[]), f("x", &["y"]), f("y", &[])]);
    let installed = names(&["a", "b", "x", "y"]);
    let roots = names(&["a"]);
    let orphans = compute_orphans(&installed, &g, &roots);
    assert_eq!(orphans, names(&["x", "y"]));
    let rest: Vec<String> = installed.into_iter().filter(|n| !orphans.contains(n)).collect();
    assert!(compute_orphans(&rest, &g, &roots).is_empty());
}

#[test]
fn roots_from_the_record() {
    let g = dependency_map(&vec![f("a", &["b"]), f("b", &[])]);
    let r = requested_roots(Some(&names(&["a", "gone"])), &names(&["a", "b"]), &g);
    assert_eq!(set(&r.roots), set(&names(&["a"])));
    assert!(r.bootstrap.is_none());
}

#[test]
fn roots_bootstrapped_from_leaves() {
    let g = dependency_map(&vec![f("a", &["b"]), f("b", &[]), f("c", &["b"]), f("d", &[])]);
    let r = requested_roots(None, &names(&["a", "b", "c", "d"]), &g);
    assert_eq!(set(&r.roots), set(&names(&["a", "c", "d"])));
    assert_eq!(set(&r.bootstrap.unwrap()), set(&names(&["a", "c", "d"])));
}

#[test]
fn no_bootstrap_when_nothing_installed() {
    let g = dependency_map(&vec![f("a", &[])]);
    let r = requested_roots(None, &names(&[]), &g);
    assert!(r.roots.is_empty());
    assert!(r.bootstrap.is_none());
}

#[test]
fn bootstrap_ignores_uninstalled_dependents() {
    // b is needed by a, but a is not installed: b is a leaf of what is installed.
    let g = dependency_map(&vec![f("a", &["b"]), f("b", &[])]);
    let r = requested_roots(None, &names(&["b"]), &g);
    assert_eq!(r.roots, names(&["b"]));
}

#[test]
fn empty_record_is_not_reseeded() {
    let g = dependency_map(&vec![f("a", &["b"]), f("b", &[])]);
    let record = state::load(Some(""));
    let r = requested_roots(Some(&record), &names(&["a", "b"]), &g);
    assert!(r.roots.is_empty());
    assert!(r.bootstrap.is_none());
}

#[test]
fn uninstall_sweeps_dependency_of_last_request() {
    let g = dependency_map(&vec![f("jq", &["oniguruma"]), f("oniguruma", &[])]);
    let mut record = state::load(Some("jq\n"));
    assert!(state::remove(&mut record, "jq"));
    let installed = names(&["oniguruma"]);
    let r = requested_roots(Some(&record), &installed, &g);
    assert!(r.bootstrap.is_none());
    assert_eq!(compute_orphans(&installed, &g, &r.roots), names(&["oniguruma"]));
}

#[test]
fn second_cleanup_after_bootstrap_finds_nothing() {
    // No record yet: the leaves become the record, then the orphans go.
    let g = dependency_map(&vec![f("a", &["b"]), f("b", &[]), f("c", &["a"]), f("x", &["c"])]);
    let installed = names(&["a", "b", "c"]);
    let r = requested_roots(None, &installed, &g);
    let mut record = r.bootstrap.unwrap();
    assert_eq!(record, names(&["c"]));
    let orphans = compute_orphans(&installed, &g, &r.roots);
    assert!(orphans.is_empty());
    for o in &orphans {
        state::remove(&mut record, o);
    }
    let r2 = requested_roots(Some(&record), &installed, &g);
    assert!(compute_orphans(&installed, &g, &r2.roots).is_empty());
}

#[test]
fn second_cleanup_with_record_finds_nothing() {
    let g = dependency_map(&vec![f("a", &["b"]), f("b", &[]), f("y", &["z"]), f("z", &[])]);
    let installed = names(&["a", "b", "y", "z"]);
    let mut record = names(&["a", "gone"]);
    let r = requested_roots(Some(&record), &installed, &g);
    let orphans = compute_orphans(&installed, &g, &r.roots);
    assert_eq!(orphans, names(&["y", "z"]));
    for o in &orphans {
        state::remove(&mut record, o);
    }
    let rest: Vec<String> = installed.into_iter().filter(|n| !orphans.contains(n)).collect();
    let r2 = requested_roots(Some(&record), &rest, &g);
    assert!(compute_orphans(&rest, &g, &r2.roots).is_empty());
}
