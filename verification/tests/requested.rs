use feheim::state::{add, load, remove, save};
use std::collections::HashSet;

fn set(v: &[String]) -> HashSet<String> {
    v.iter().cloned().collect()
}

fn names(ns: &[&str]) -> Vec<String> {
    ns.iter().map(|n| n.to_string()).collect()
}

#[test]
fn load_missing_record_is_empty() {
    assert!(load(None).is_empty());
    assert!(load(Some("")).is_empty());
    assert!(load(Some("\n \n\t\n")).is_empty());
}

#[test]
fn load_trims_and_skips_blank_lines() {
    let r = load(Some("wget\n  jq  \n\nwget\r\ncurl"));
    assert_eq!(r.len(), 3);
    assert_eq!(set(&r), set(&names(&["wget", "jq", "curl"])));
}

#[test]
fn save_sorts_one_per_line() {
    assert_eq!(save(&names(&["wget", "curl", "jq"])), "curl\njq\nwget");
    assert_eq!(save(&names(&[])), "");
    assert_eq!(save(&names(&["b", "a", "b"])), "a\nb");
}

#[test]
fn save_then_load_round_trip() {
    let ns = names(&["zstd", "jq", "ca-certificates", "python@3.12"]);
    let back = load(Some(&save(&ns)));
    assert_eq!(set(&back), set(&ns));
}

#[test]
fn add_marks_once() {
    let mut r = names(&["jq"]);
    assert!(add(&mut r, "wget"));
    assert_eq!(set(&r), set(&names(&["jq", "wget"])));
    assert!(!add(&mut r, "jq"));
    assert_eq!(r.len(), 2);
}

#[test]
fn remove_drops_only_that_name() {
    let mut r = names(&["jq", "wget"]);
    assert!(remove(&mut r, "jq"));
    assert_eq!(r, names(&["wget"]));
    assert!(!remove(&mut r, "jq"));
    assert_eq!(r, names(&["wget"]));
}

#[test]
fn remove_undoes_add() {
    let mut r = names(&["a", "b"]);
    let before = set(&r);
    assert!(add(&mut r, "c"));
    assert!(remove(&mut r, "c"));
    assert_eq!(set(&r), before);
}
