use feheim::config::{join_path, Config};
use feheim::error::FeheimError;

fn cfg() -> Config {
    Config { prefix: "/opt/fh".to_string() }
}

#[test]
fn prefix_layout() {
    let c = cfg();
    assert_eq!(c.cellar(), "/opt/fh/Cellar");
    assert_eq!(c.formula_cellar("jq"), "/opt/fh/Cellar/jq");
    assert_eq!(c.keg("jq", "1.7.1"), "/opt/fh/Cellar/jq/1.7.1");
    assert_eq!(c.opt("jq"), "/opt/fh/opt/jq");
    assert_eq!(c.cache(), "/opt/fh/cache");
    assert_eq!(c.index_path(), "/opt/fh/cache/formula.json");
    assert_eq!(c.requested_path(), "/opt/fh/.requested");
}

#[test]
fn link_dirs_in_order() {
    assert_eq!(cfg().link_dirs(), vec!["bin", "sbin", "etc", "include", "lib", "share"]);
}

#[test]
fn load_prefers_the_prefix_variable() {
    let c = Config::load(Some("/custom".to_string()), Some("/home/u".to_string()));
    assert_eq!(c.prefix, "/custom");
    let c = Config::load(Some("/custom".to_string()), None);
    assert_eq!(c.prefix, "/custom");
}

#[test]
fn load_defaults_under_home() {
    let c = Config::load(None, Some("/home/u".to_string()));
    assert_eq!(c.prefix, "/home/u/.feheim");
    let c = Config::load(None, Some("/home/u/".to_string()));
    assert_eq!(c.prefix, "/home/u/.feheim");
}

#[test]
fn join_path_like_path_join() {
    assert_eq!(join_path("/a", "b"), "/a/b");
    assert_eq!(join_path("/a/", "b"), "/a/b");
    assert_eq!(join_path("", "b"), "b");
    assert_eq!(join_path("/a", "/etc"), "/etc");
    assert_eq!(join_path("/a", ""), "/a/");
}

#[test]
fn keg_of_relative_prefix() {
    let c = Config { prefix: "rel".to_string() };
    assert_eq!(c.keg("a", "2"), "rel/Cellar/a/2");
}

#[test]
fn error_messages() {
    let e = FeheimError::NotFound("nosuch".to_string());
    assert_eq!(e.message(), "no formula named \"nosuch\" (try `feheim update`)");
    let e = FeheimError::NotInstalled("jq".to_string());
    assert_eq!(e.message(), "\"jq\" is not installed");
}
