use feheim::config::Config;
use feheim::formula::{Bottle, BottleFile, BottleSpec, Formula, Versions};
use feheim::install::{
    check_digest, download_bottle, hex, keg_version, link_keg, select_bottle, unlink_keg,
    verify_bottle, InstallError,
};

fn file(url: &str, sha: &str) -> BottleFile {
    BottleFile { url: url.to_string(), sha256: sha.to_string() }
}

fn formula(name: &str, version: Option<&str>, revision: u32, files: Option<Vec<(&str, BottleFile)>>) -> Formula {
    Formula {
        name: name.to_string(),
        desc: None,
        homepage: None,
        versions: Versions { stable: version.map(|v| v.to_string()) },
        revision,
        dependencies: Vec::new(),
        bottle: BottleSpec {
            stable: files.map(|fs| Bottle {
                rebuild: 0,
                files: fs.into_iter().map(|(t, f)| (t.to_string(), f)).collect(),
            }),
        },
    }
}

fn tags(ts: &[&str]) -> Vec<String> {
    ts.iter().map(|t| t.to_string()).collect()
}

#[test]
fn stable_version_or_zero() {
    assert_eq!(formula("a", Some("1.2.3"), 0, None).stable_version(), "1.2.3");
    assert_eq!(formula("a", None, 0, None).stable_version(), "0");
}

#[test]
fn keg_version_appends_revision() {
    assert_eq!(keg_version(&formula("a", Some("1.0"), 0, None)), "1.0");
    assert_eq!(keg_version(&formula("a", Some("1.0"), 2, None)), "1.0_2");
    assert_eq!(keg_version(&formula("a", Some("3.4"), 12, None)), "3.4_12");
    assert_eq!(keg_version(&formula("a", None, 1, None)), "0_1");
}

#[test]
fn bottle_for_exact_tag() {
    let f = formula(
        "jq",
        Some("1.7"),
        0,
        Some(vec![("arm64_sonoma", file("u1", "s1")), ("all", file("u2", "s2"))]),
    );
    let b = f.bottle_for("arm64_sonoma").unwrap();
    assert_eq!(b.url, "u1");
    assert_eq!(b.sha256, "s1");
}

#[test]
fn bottle_for_falls_back_to_all() {
    let f = formula("jq", Some("1.7"), 0, Some(vec![("arm64_sonoma", file("u1", "s1")), ("all", file("u2", "s2"))]));
    assert_eq!(f.bottle_for("x86_64_linux").unwrap().url, "u2");
    let g = formula("jq", Some("1.7"), 0, Some(vec![("arm64_sonoma", file("u1", "s1"))]));
    assert!(g.bottle_for("x86_64_linux").is_none());
    let h = formula("jq", Some("1.7"), 0, None);
    assert!(h.bottle_for("all").is_none());
}

#[test]
fn select_bottle_takes_first_tag_with_a_file() {
    let f = formula(
        "jq",
        Some("1.7"),
        0,
        Some(vec![("sonoma", file("u-sonoma", "s")), ("ventura", file("u-ventura", "s"))]),
    );
    let b = select_bottle(&f, &tags(&["sequoia", "sonoma", "ventura"])).unwrap();
    assert_eq!(b.url, "u-sonoma");
    assert!(select_bottle(&f, &tags(&["x86_64_linux"])).is_none());
    assert!(select_bottle(&f, &tags(&[])).is_none());
}

#[test]
fn download_plan() {
    let cfg = Config { prefix: "/p".to_string() };
    let f = formula("jq", Some("1.7.1"), 1, Some(vec![("all", file("https://ghcr.io/v2/jq", "abc"))]));
    let plan = download_bottle(&cfg, &f, &tags(&["arm64_sequoia", "all"])).ok().unwrap();
    assert_eq!(plan.url, "https://ghcr.io/v2/jq");
    assert_eq!(plan.sha256, "abc");
    assert_eq!(plan.version, "1.7.1_1");
    assert_eq!(plan.dest, "/p/cache/jq-1.7.1_1.tar.gz");
}

#[test]
fn download_without_bottle() {
    let cfg = Config { prefix: "/p".to_string() };
    let f = formula("jq", Some("1.7.1"), 0, Some(vec![("arm64_sonoma", file("u", "s"))]));
    match download_bottle(&cfg, &f, &tags(&["x86_64_linux"])) {
        Err(e) => {
            assert!(matches!(&e, InstallError::NoBottle(n) if n == "jq"));
            assert_eq!(e.message(), "no bottle available for jq on this platform");
        }
        Ok(_) => panic!("expected no bottle"),
    }
}

#[test]
fn hex_encoding() {
    assert_eq!(hex(&[]), "");
    assert_eq!(hex(&[0x00, 0xff, 0x1a, 0x09]), "00ff1a09");
}

#[test]
fn sha256_known_digests() {
    assert!(verify_bottle(
        "empty",
        "e3b0c44298fc1c149afbf4c8996fb92427ae41e4649b934ca495991b7852b855",
        b""
    )
    .is_ok());
    match verify_bottle("abc", "", b"abc") {
        Err(InstallError::ShaMismatch { actual, .. }) => assert_eq!(
            actual,
            "ba7816bf8f01cfea414140de5dae2223b00361a396177a9cb410ff61f20015ad"
        ),
        _ => panic!("expected a mismatch"),
    }
}

#[test]
fn verify_bottle_accepts_matching_digest() {
    assert!(verify_bottle(
        "jq",
        "ba7816bf8f01cfea414140de5dae2223b00361a396177a9cb410ff61f20015ad",
        b"abc"
    )
    .is_ok());
}

#[test]
fn verify_bottle_reports_mismatch() {
    match verify_bottle("jq", "deadbeef", b"abc") {
        Err(e) => {
            match &e {
                InstallError::ShaMismatch { name, expected, actual } => {
                    assert_eq!(name, "jq");
                    assert_eq!(expected, "deadbeef");
                    assert_eq!(
                        actual,
                        "ba7816bf8f01cfea414140de5dae2223b00361a396177a9cb410ff61f20015ad"
                    );
                }
                _ => panic!("expected a digest mismatch"),
            }
            assert_eq!(
                e.message(),
                "sha256 mismatch for jq: expected deadbeef, got ba7816bf8f01cfea414140de5dae2223b00361a396177a9cb410ff61f20015ad"
            );
        }
        Ok(()) => panic!("expected a mismatch"),
    }
}

#[test]
fn link_plan_covers_link_dirs_only() {
    let cfg = Config { prefix: "/p".to_string() };
    let files = tags(&["bin/jq", "share/man/man1/jq.1", "README.md", "libexec/helper", "lib/libjq.dylib"]);
    let links = link_keg(&cfg, "jq", "1.7", &files);
    assert_eq!(
        links,
        vec![
            ("/p/Cellar/jq/1.7/bin/jq".to_string(), "/p/bin/jq".to_string()),
            ("/p/Cellar/jq/1.7/share/man/man1/jq.1".to_string(), "/p/share/man/man1/jq.1".to_string()),
            ("/p/Cellar/jq/1.7/lib/libjq.dylib".to_string(), "/p/lib/libjq.dylib".to_string()),
        ]
    );
}

#[test]
fn unlink_picks_links_into_the_keg() {
    let cfg = Config { prefix: "/p".to_string() };
    let found = vec![
        ("/p/bin/jq".to_string(), "/p/Cellar/jq/1.7/bin/jq".to_string()),
        ("/p/bin/other".to_string(), "/p/Cellar/other/2/bin/other".to_string()),
        ("/p/bin/jq2".to_string(), "/p/Cellar/jq/1.70/bin/jq2".to_string()),
        ("/p/lib/x".to_string(), "/p/Cellar/jq/1.7".to_string()),
    ];
    assert_eq!(unlink_keg(&cfg, "jq", "1.7", &found), vec!["/p/bin/jq".to_string(), "/p/lib/x".to_string()]);
}

#[test]
fn unlink_undoes_link() {
    let cfg = Config { prefix: "/p".to_string() };
    let files = tags(&["bin/jq", "include/jq.h", "share/doc/jq/README", "other/x"]);
    let links = link_keg(&cfg, "jq", "1.7", &files);
    let found: Vec<(String, String)> = links.iter().map(|(t, l)| (l.clone(), t.clone())).collect();
    let removed = unlink_keg(&cfg, "jq", "1.7", &found);
    let created: Vec<String> = links.iter().map(|(_, l)| l.clone()).collect();
    assert_eq!(removed, created);
    assert_eq!(removed.len(), 3);
}

#[test]
fn check_digest_against_expected_hex() {
    assert!(check_digest("x", "00ff10", &[0x00, 0xff, 0x10]).is_ok());
    match check_digest("x", "00FF10", &[0x00, 0xff, 0x10]) {
        Err(InstallError::ShaMismatch { name, expected, actual }) => {
            assert_eq!(name, "x");
            assert_eq!(expected, "00FF10");
            assert_eq!(actual, "00ff10");
        }
        _ => panic!("hex digests compare in lowercase"),
    }
    assert!(check_digest("x", "", &[]).is_ok());
}

#[test]
fn bottle_for_later_entry_of_a_tag_wins() {
    let f = formula(
        "jq",
        Some("1.7"),
        0,
        Some(vec![("all", file("old", "s1")), ("sonoma", file("u", "s")), ("all", file("new", "s2"))]),
    );
    assert_eq!(f.bottle_for("x86_64_linux").unwrap().url, "new");
    assert_eq!(f.bottle_for("sonoma").unwrap().url, "u");
}

#[test]
fn relinking_plans_the_same_distinct_links() {
    let cfg = Config { prefix: "/p/".to_string() };
    let files = tags(&["bin/a", "bin/b", "lib/a", "share/x/y"]);
    let first = link_keg(&cfg, "k", "1", &files);
    let second = link_keg(&cfg, "k", "1", &files);
    assert_eq!(first, second);
    let mut links: Vec<String> = first.iter().map(|(_, l)| l.clone()).collect();
    links.sort();
    links.dedup();
    assert_eq!(links.len(), 4);
    assert_eq!(first[0], ("/p/Cellar/k/1/bin/a".to_string(), "/p/bin/a".to_string()));
}

#[test]
fn unlink_among_other_links_removes_only_the_kegs() {
    let cfg = Config { prefix: "/p".to_string() };
    let files = tags(&["bin/jq", "lib/libjq.a"]);
    let links = link_keg(&cfg, "jq", "1.7", &files);
    let mut found = vec![
        ("/p/bin/wget".to_string(), "/p/Cellar/wget/1.24/bin/wget".to_string()),
        ("/p/bin/dangling".to_string(), "/elsewhere/x".to_string()),
    ];
    for (t, l) in links.iter().rev() {
        found.push((l.clone(), t.clone()));
    }
    assert_eq!(
        unlink_keg(&cfg, "jq", "1.7", &found),
        vec!["/p/lib/libjq.a".to_string(), "/p/bin/jq".to_string()]
    );
}

#[test]
fn unlink_removes_as_many_as_linked() {
    let cfg = Config { prefix: "/p".to_string() };
    let files = tags(&["bin/jq", "share/doc/jq/README", "include/jq.h", "notes.txt"]);
    let links = link_keg(&cfg, "jq", "1.7", &files);
    let mut found = vec![
        ("/p/bin/wget".to_string(), "/p/Cellar/wget/1.24/bin/wget".to_string()),
        ("/p/lib/old".to_string(), "/p/Cellar/jq/1.6/lib/old".to_string()),
    ];
    found.insert(1, (links[1].1.clone(), links[1].0.clone()));
    found.push((links[0].1.clone(), links[0].0.clone()));
    found.insert(0, (links[2].1.clone(), links[2].0.clone()));
    let removed = unlink_keg(&cfg, "jq", "1.7", &found);
    assert_eq!(removed.len(), links.len());
    let mut a = removed.clone();
    a.sort();
    let mut b: Vec<String> = links.iter().map(|(_, l)| l.clone()).collect();
    b.sort();
    assert_eq!(a, b);
}
