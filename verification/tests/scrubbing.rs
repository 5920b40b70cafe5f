use person2vec::identity::{DevCfg, TraitsCfg};
use person2vec::pattern::{
    gutenberg_end_source, gutenberg_start_source, strip_between, strip_boilerplate, Pattern, PatternError,
};
use person2vec::scrub::Scrubber;
use person2vec::dedup::{keep_passage, DedupState};
use std::collections::HashSet;

fn dev(name: &str, logins: &[&str]) -> DevCfg {
    DevCfg {
        name: name.to_string(),
        color: None,
        emails: Vec::new(),
        logins: logins.iter().map(|s| s.to_string()).collect(),
        traits: TraitsCfg { paradigm: String::new() },
        repos: Vec::new(),
    }
}

#[test]
fn scrub_replaces_emails_urls_and_names() {
    let s = Scrubber::build(&[dev("Grace Hopper", &["ghopper"])]).unwrap();
    let out = s.scrub("contact grace.hopper@navy.mil or see https://example.com/x now; Grace Hopper wrote this, ghopper too");
    assert_eq!(out, "contact EMAIL or see URL now; NAME NAME wrote this, NAME too");
}

#[test]
fn scrub_names_are_literal_and_case_insensitive() {
    let s = Scrubber::build(&[dev("J.R. Smith", &[])]).unwrap();
    assert_eq!(s.scrub("J.R. Smith"), "NAME");
    assert_eq!(s.scrub("JxRx smith"), "JxRx NAME");
    // whole words only
    assert_eq!(s.scrub("blacksmith"), "blacksmith");
}

#[test]
fn scrub_without_roster_keeps_names() {
    let s = Scrubber::build(&[]).unwrap();
    assert!(s.ident.is_none());
    assert_eq!(s.scrub("Grace Hopper a@b.io"), "Grace Hopper EMAIL");
}

#[test]
fn leaks_finds_long_tokens_inside_identifiers() {
    let s = Scrubber::build(&[dev("Grace Hopper", &["ghopper", "gh"])]).unwrap();
    assert!(s.leaks("let my_HOPPER_var = 1;"));
    assert!(s.leaks("ghopperConfig"));
    assert!(!s.leaks("let grace = 1; // gh"));
    let residual: Vec<String> = s.residual.iter().map(|t| t.iter().collect()).collect();
    assert_eq!(residual, vec!["ghopper".to_string(), "hopper".to_string()]);
}

#[test]
fn keep_passage_drops_leaking_text() {
    let s = Scrubber::build(&[dev("Grace Hopper", &["ghopper"])]).unwrap();
    let mut dedup = DedupState { seen_exact: HashSet::new(), per_dev_shingles: vec![HashSet::new()] };
    let code = "fn ghopperHelper(values: &[u64]) -> u64 {\n    let total = values.len();\n    total as u64\n}";
    assert_eq!(keep_passage(code, 0, Some(&s), &mut dedup), None);
    let clean = "fn compute_total(values: &[u64]) -> u64 {\n    // by Grace Hopper\n    let total = values.len();\n    total as u64\n}";
    let kept = keep_passage(clean, 0, Some(&s), &mut dedup).unwrap();
    assert!(kept.contains("// by NAME NAME"));
}

#[test]
fn compile_rejects_bad_pattern() {
    assert!(matches!(Pattern::compile("foo("), Err(PatternError::Rejected)));
    assert!(Pattern::compile("foo").is_ok());
}

const BOOK: &str = "Title page\n*** START OF THE PROJECT GUTENBERG EBOOK EMMA ***\nChapter I\nEmma Woodhouse.\n*** END OF THE PROJECT GUTENBERG EBOOK EMMA ***\nLicense text";

#[test]
fn strip_keeps_the_body_between_markers() {
    let start = Pattern::compile(gutenberg_start_source()).unwrap();
    let end = Pattern::compile(gutenberg_end_source()).unwrap();
    assert_eq!(strip_boilerplate(BOOK, &start, &end), "\nChapter I\nEmma Woodhouse.\n");
    assert_eq!(strip_boilerplate("no markers here", &start, &end), "no markers here");
    let only_start = "x\n*** START OF THIS PROJECT GUTENBERG EBOOK Y ***\nbody";
    assert_eq!(strip_boilerplate(only_start, &start, &end), "\nbody");
}

#[test]
fn strip_between_uses_byte_offsets() {
    // "é" is two bytes
    assert_eq!(strip_between("aébc", Some((0, 3)), Some((4, 5))), "b");
    // an empty span leaves the text whole
    assert_eq!(strip_between("abc", Some((0, 2)), Some((1, 1))), "abc");
    assert_eq!(strip_between("abc", None, None), "abc");
}
