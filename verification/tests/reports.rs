use feheim::api::find;
use feheim::commands::{info, list};
use feheim::config::Config;
use feheim::doctor::{doctor, DoctorFacts, Health, IndexState};
use feheim::error::FeheimError;
use feheim::formula::{BottleSpec, Formula, Versions};
use feheim::search::{matches_lowered, search, sort_hits, SHOWN_HITS};
use feheim::text::{and_more, sort_names};

fn f(name: &str, desc: Option<&str>, deps: &[&str]) -> Formula {
    Formula {
        name: name.to_string(),
        desc: desc.map(|d| d.to_string()),
        homepage: None,
        versions: Versions { stable: Some("1.0".to_string()) },
        revision: 0,
        dependencies: deps.iter().map(|d| d.to_string()).collect(),
        bottle: BottleSpec { stable: None },
    }
}

fn names(ns: &[&str]) -> Vec<String> {
    ns.iter().map(|n| n.to_string()).collect()
}

#[test]
fn find_first_of_name() {
    let mut a2 = f("a", Some("second"), &[]);
    a2.revision = 7;
    let idx = vec![f("b", None, &[]), f("a", Some("first"), &[]), a2];
    let found = find(idx, "a").unwrap();
    assert_eq!(found.desc, Some("first".to_string()));
    assert!(find(vec![f("b", None, &[])], "a").is_none());
    assert!(find(Vec::new(), "a").is_none());
}

#[test]
fn info_of_a_formula() {
    let cfg = Config { prefix: "/p".to_string() };
    let mut jq = f("jq", Some("Lightweight and flexible command-line JSON processor"), &["oniguruma"]);
    jq.homepage = Some("https://jqlang.github.io/jq/".to_string());
    jq.versions.stable = Some("1.7.1".to_string());
    jq.revision = 1;
    let r = info(&cfg, vec![f("other", None, &[]), jq], "jq").ok().unwrap();
    assert_eq!(r.name, "jq");
    assert_eq!(r.version, "1.7.1");
    assert_eq!(r.desc, Some("Lightweight and flexible command-line JSON processor".to_string()));
    assert_eq!(r.homepage, Some("https://jqlang.github.io/jq/".to_string()));
    assert_eq!(r.dependencies, "oniguruma");
    assert_eq!(r.keg_version, "1.7.1_1");
    assert_eq!(r.keg, "/p/Cellar/jq/1.7.1_1");
}

#[test]
fn info_dependencies_line() {
    let cfg = Config { prefix: "/p".to_string() };
    let r = info(&cfg, vec![f("a", None, &[])], "a").ok().unwrap();
    assert_eq!(r.dependencies, "none");
    let r = info(&cfg, vec![f("a", None, &["x", "y", "z"])], "a").ok().unwrap();
    assert_eq!(r.dependencies, "x, y, z");
}

#[test]
fn info_of_unknown_formula() {
    let cfg = Config { prefix: "/p".to_string() };
    match info(&cfg, vec![f("a", None, &[])], "nope") {
        Err(FeheimError::NotFound(n)) => assert_eq!(n, "nope"),
        _ => panic!("expected NotFound"),
    }
}

#[test]
fn list_sorted_with_versions() {
    let entries = vec![
        ("wget".to_string(), names(&["1.24.5", "1.21"])),
        ("jq".to_string(), names(&["1.7.1"])),
        ("empty".to_string(), names(&[])),
    ];
    assert_eq!(
        list(&entries),
        vec![
            ("empty".to_string(), "".to_string()),
            ("jq".to_string(), "1.7.1".to_string()),
            ("wget".to_string(), "1.21, 1.24.5".to_string()),
        ]
    );
    assert!(list(&Vec::new()).is_empty());
}

#[test]
fn search_name_or_description_ignoring_case() {
    let idx = vec![
        f("yq", Some("Process YAML documents"), &[]),
        f("jq", Some("Lightweight and flexible command-line JSON processor"), &[]),
        f("json-c", Some("JSON parser for C"), &[]),
        f("wget", Some("Internet file retriever"), &[]),
        f("jo", None, &[]),
    ];
    assert_eq!(search(&idx, "JSON"), vec![1, 2]);
    assert_eq!(search(&idx, "json"), vec![1, 2]);
    assert_eq!(search(&idx, "Q"), vec![1, 0]);
    assert!(search(&idx, "nothing-like-this").is_empty());
    assert_eq!(search(&idx, ""), vec![4, 1, 2, 3, 0]);
}

#[test]
fn search_keeps_index_order_for_equal_names() {
    let idx = vec![f("b", Some("one"), &[]), f("a", None, &[]), f("b", Some("two"), &[])];
    assert_eq!(search(&idx, "b"), vec![0, 2]);
    assert_eq!(search(&idx, ""), vec![1, 0, 2]);
}

#[test]
fn counting_what_is_not_shown() {
    assert_eq!(SHOWN_HITS, 50);
    assert_eq!(and_more(60, SHOWN_HITS), Some("… and 10 more".to_string()));
    assert_eq!(and_more(50, SHOWN_HITS), None);
    assert_eq!(and_more(3, 10), None);
    assert_eq!(and_more(11, 10), Some("… and 1 more".to_string()));
}

#[test]
fn sorting_names() {
    assert_eq!(sort_names(&names(&["b", "a", "B", "ab", "a"])), names(&["B", "a", "ab", "b"]));
}

fn healthy() -> DoctorFacts {
    DoctorFacts {
        prefix: "/home/u/.feheim".to_string(),
        prefix_is_dir: true,
        index: IndexState::Loaded(8123),
        installed: vec![("jq".to_string(), true), ("oniguruma".to_string(), true)],
        broken: Vec::new(),
        orphans: Vec::new(),
    }
}

fn texts(r: &feheim::doctor::DoctorReport) -> Vec<(Health, String)> {
    r.checks.iter().map(|(h, m)| (*h, m.clone())).collect()
}

#[test]
fn doctor_all_clear() {
    let r = doctor(&healthy());
    assert_eq!(
        texts(&r),
        vec![
            (Health::Pass, "prefix /home/u/.feheim".to_string()),
            (Health::Pass, "formula index: 8123 formulae".to_string()),
            (Health::Pass, "2 formulae installed".to_string()),
            (Health::Pass, "all opt links resolve".to_string()),
            (Health::Pass, "no broken prefix symlinks".to_string()),
            (Health::Pass, "no orphan dependencies".to_string()),
        ]
    );
    assert_eq!(r.warnings, 0);
    assert_eq!(r.errors, 0);
    assert_eq!(r.summary, (Health::Pass, "Your system is ready to brew.".to_string()));
    assert!(r.broken_listed.is_empty());
    assert_eq!(r.broken_more, None);
}

#[test]
fn doctor_reports_problems() {
    let facts = DoctorFacts {
        prefix: "/nowhere".to_string(),
        prefix_is_dir: false,
        index: IndexState::Missing,
        installed: vec![
            ("a".to_string(), false),
            ("b".to_string(), true),
            ("c".to_string(), false),
        ],
        broken: (0..12).map(|i| format!("/nowhere/bin/l{i}")).collect(),
        orphans: names(&["x"]),
    };
    let r = doctor(&facts);
    assert_eq!(
        texts(&r),
        vec![
            (Health::Fail, "prefix missing: /nowhere".to_string()),
            (Health::Warn, "formula index not fetched (run `feheim update`)".to_string()),
            (Health::Pass, "3 formulae installed".to_string()),
            (Health::Fail, "dead opt link: opt/a".to_string()),
            (Health::Fail, "dead opt link: opt/c".to_string()),
            (Health::Warn, "12 broken prefix symlink(s)".to_string()),
            (Health::Warn, "1 orphan dependency (run `feheim cleanup`): x".to_string()),
        ]
    );
    assert_eq!(r.warnings, 3);
    assert_eq!(r.errors, 3);
    assert_eq!(r.summary, (Health::Fail, "3 warning(s), 3 error(s).".to_string()));
    assert_eq!(r.broken_listed.len(), 10);
    assert_eq!(r.broken_listed[0], "/nowhere/bin/l0");
    assert_eq!(r.broken_listed[9], "/nowhere/bin/l9");
    assert_eq!(r.broken_more, Some("… and 2 more".to_string()));
}

#[test]
fn doctor_warnings_only() {
    let mut facts = healthy();
    facts.orphans = names(&["x", "y"]);
    facts.index = IndexState::Loaded(0);
    let r = doctor(&facts);
    assert_eq!(r.checks[1].1, "formula index: 0 formulae");
    assert_eq!(r.checks[5], (Health::Warn, "2 orphan dependencies (run `feheim cleanup`): x, y".to_string()));
    assert_eq!(r.summary, (Health::Warn, "1 warning(s), 0 error(s).".to_string()));
}

#[test]
fn doctor_unreadable_index() {
    let mut facts = healthy();
    facts.index = IndexState::Unreadable("expected value at line 1 column 1".to_string());
    facts.installed = Vec::new();
    let r = doctor(&facts);
    assert_eq!(
        r.checks[1],
        (Health::Fail, "formula index unreadable: expected value at line 1 column 1".to_string())
    );
    assert_eq!(r.checks[2].1, "0 formulae installed");
    assert_eq!(r.errors, 1);
    assert_eq!(r.summary.1, "0 warning(s), 1 error(s).");
}

#[test]
fn matching_on_lowercased_text() {
    assert!(matches_lowered("jq", Some("command-line json processor"), "json"));
    assert!(matches_lowered("json-c", None, "json"));
    assert!(!matches_lowered("wget", Some("internet file retriever"), "json"));
    assert!(!matches_lowered("wget", None, "JSON"));
    assert!(matches_lowered("anything", None, ""));
}

#[test]
fn sorting_hits_by_name_stably() {
    let idx = vec![f("b", None, &[]), f("a", None, &[]), f("b", None, &[]), f("c", None, &[])];
    assert_eq!(sort_hits(&idx, &vec![3, 2, 1, 0]), vec![1, 2, 0, 3]);
    assert_eq!(sort_hits(&idx, &vec![0, 2]), vec![0, 2]);
    assert!(sort_hits(&idx, &vec![]).is_empty());
}
