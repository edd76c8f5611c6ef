use feheim::config::Config;
use feheim::relocate::{
    ensure_writable, is_macho, macho_deps, macho_id, relocate_file, relocate_keg, relocate_macho,
    substitute, FileRelocation,
};

fn cfg() -> Config {
    Config { prefix: "/opt/fh".to_string() }
}

#[test]
fn substitute_each_token() {
    let c = cfg();
    assert_eq!(substitute(&c, "@@HOMEBREW_PREFIX@@/lib"), "/opt/fh/lib");
    assert_eq!(substitute(&c, "@@HOMEBREW_CELLAR@@/jq/1.7"), "/opt/fh/Cellar/jq/1.7");
    assert_eq!(substitute(&c, "@@HOMEBREW_REPOSITORY@@/x"), "/opt/fh/x");
    assert_eq!(
        substitute(&c, "prefix=@@HOMEBREW_PREFIX@@\nlibdir=@@HOMEBREW_CELLAR@@/a @@HOMEBREW_PREFIX@@"),
        "prefix=/opt/fh\nlibdir=/opt/fh/Cellar/a /opt/fh"
    );
}

#[test]
fn substitute_without_tokens_is_identity() {
    let c = cfg();
    assert_eq!(substitute(&c, "plain text @@HOMEBREW"), "plain text @@HOMEBREW");
    assert_eq!(substitute(&c, ""), "");
}

#[test]
fn substitute_leaves_no_placeholder() {
    let c = cfg();
    let out = substitute(&c, "@@HOMEBREW_PREFIX@@@@HOMEBREW_CELLAR@@@@HOMEBREW_REPOSITORY@@");
    assert_eq!(out, "/opt/fh/opt/fh/Cellar/opt/fh");
    assert!(!out.contains("@@HOMEBREW"));
}

#[test]
fn macho_magic_numbers() {
    for m in [
        [0xfe, 0xed, 0xfa, 0xce],
        [0xfe, 0xed, 0xfa, 0xcf],
        [0xce, 0xfa, 0xed, 0xfe],
        [0xcf, 0xfa, 0xed, 0xfe],
        [0xca, 0xfe, 0xba, 0xbe],
        [0xbe, 0xba, 0xfe, 0xca],
    ] {
        assert!(is_macho(&m));
        let mut longer = m.to_vec();
        longer.extend_from_slice(b"rest");
        assert!(is_macho(&longer));
    }
    assert!(!is_macho(&[0xcf, 0xfa, 0xed]));
    assert!(!is_macho(b"#!/bin/sh\n"));
    assert!(!is_macho(&[]));
}

#[test]
fn relocate_file_decisions() {
    let c = cfg();
    assert!(matches!(relocate_file(&c, &[0xcf, 0xfa, 0xed, 0xfe, 0, 0]), FileRelocation::MachO));
    match relocate_file(&c, b"prefix=@@HOMEBREW_PREFIX@@\n") {
        FileRelocation::Rewrite(t) => assert_eq!(t, "prefix=/opt/fh\n"),
        _ => panic!("expected a rewrite"),
    }
    assert!(matches!(relocate_file(&c, b"no placeholders"), FileRelocation::Unchanged));
    assert!(matches!(relocate_file(&c, &[0xff, 0xfe, b'@', b'@']), FileRelocation::Unchanged));
}

#[test]
fn relocate_keg_is_the_keg() {
    assert_eq!(relocate_keg(&cfg(), "jq", "1.7"), "/opt/fh/Cellar/jq/1.7");
}

#[test]
fn otool_install_id() {
    let out = "/opt/fh/Cellar/x/1/lib/libx.dylib:\n  @@HOMEBREW_PREFIX@@/opt/x/lib/libx.1.dylib  \n";
    assert_eq!(macho_id(out), Some("@@HOMEBREW_PREFIX@@/opt/x/lib/libx.1.dylib".to_string()));
    assert_eq!(macho_id("/bin/jq:\n"), None);
    assert_eq!(macho_id("/bin/jq:"), None);
    assert_eq!(macho_id("/bin/jq:\n   \n"), None);
}

#[test]
fn otool_dependencies() {
    let out = "/opt/fh/bin/jq:\n\t@@HOMEBREW_PREFIX@@/opt/oniguruma/lib/libonig.5.dylib (compatibility version 6.0.0, current version 6.9.0)\n\t/usr/lib/libSystem.B.dylib (compatibility version 1.0.0, current version 1345.0.0)\n";
    assert_eq!(
        macho_deps(out),
        vec![
            "@@HOMEBREW_PREFIX@@/opt/oniguruma/lib/libonig.5.dylib".to_string(),
            "/usr/lib/libSystem.B.dylib".to_string()
        ]
    );
    assert!(macho_deps("header only\n").is_empty());
    assert!(macho_deps("/x (not a header dep)\nno paren line").is_empty());
}

#[test]
fn macho_edits() {
    let c = cfg();
    let id_out = "lib:\n@@HOMEBREW_CELLAR@@/x/1/lib/libx.dylib\n";
    let deps_out = "lib:\n\t@@HOMEBREW_PREFIX@@/opt/y/lib/liby.dylib (compatibility version 1.0.0)\n\t/usr/lib/libc.dylib (compatibility version 1.0.0)\n";
    let e = relocate_macho(&c, id_out, deps_out);
    assert_eq!(e.id, Some("/opt/fh/Cellar/x/1/lib/libx.dylib".to_string()));
    assert_eq!(
        e.changes,
        vec![(
            "@@HOMEBREW_PREFIX@@/opt/y/lib/liby.dylib".to_string(),
            "/opt/fh/opt/y/lib/liby.dylib".to_string()
        )]
    );
    let plain = relocate_macho(&c, "lib:\n/usr/lib/libx.dylib\n", "lib:\n");
    assert_eq!(plain.id, None);
    assert!(plain.changes.is_empty());
}

#[test]
fn owner_write_bit() {
    assert_eq!(ensure_writable(0o444), Some(0o644));
    assert_eq!(ensure_writable(0o555), Some(0o755));
    assert_eq!(ensure_writable(0o644), None);
    assert_eq!(ensure_writable(0o200), None);
}
