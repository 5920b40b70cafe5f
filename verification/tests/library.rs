use person2vec::attributes::{
    attr_counts, author_classes, class_colors, passage_attr_class_labels, passage_classes, passage_counts,
    trait_names, AttrField, PassageAttr,
};
use person2vec::calendar::{era_bucket, weekend_bucket, year_from_unix};
use person2vec::codefilter::{author_patterns, is_trivial, keep_file, median_time, norm_line, plus_path, push_trait};
use person2vec::copy::copy_for;
use person2vec::display::{clean, short, snippet};
use person2vec::folds::{familiarity_split, group_passages, mystery_by_author, GroupBy};
use person2vec::identity::{
    github_login, is_bot, residual_identity_hits, Config, DevCfg, IdentityMap, TraitsCfg,
};
use person2vec::labels::{code_ladder_labels, LadderLabels};
use person2vec::loocv::LoocvResult;
use person2vec::model::{count_mystery, mark_mystery, site_datasets, AuthorMeta, Passage, Trait};
use person2vec::numparse::{decimal_chars, parse_i64};
use person2vec::positions::{pick_examples, spread_positions};
use person2vec::views;

fn passage(author: usize, book: &str, series: &str, mystery: bool, authored: i64) -> Passage {
    Passage {
        author_id: author,
        book_title: book.to_string(),
        series: series.to_string(),
        text: String::new(),
        is_mystery: mystery,
        authored,
    }
}

fn author(gender: &str, traits: &[(&str, &str)]) -> AuthorMeta {
    AuthorMeta {
        id: 0,
        name: String::new(),
        color: String::new(),
        gender: gender.to_string(),
        birth_country: String::new(),
        raised: String::new(),
        educated: String::new(),
        college: String::new(),
        traits: traits.iter().map(|(n, v)| Trait { name: n.to_string(), value: v.to_string() }).collect(),
    }
}

fn dev(name: &str, emails: &[&str], logins: &[&str]) -> DevCfg {
    DevCfg {
        name: name.to_string(),
        color: None,
        emails: emails.iter().map(|s| s.to_string()).collect(),
        logins: logins.iter().map(|s| s.to_string()).collect(),
        traits: TraitsCfg { paradigm: String::new() },
        repos: Vec::new(),
    }
}

#[test]
fn civil_years_from_timestamps() {
    assert_eq!(year_from_unix(0), 1970);
    assert_eq!(year_from_unix(946_684_800), 2000);
    assert_eq!(year_from_unix(946_684_799), 1999);
    assert_eq!(year_from_unix(-1), 1969);
    assert_eq!(year_from_unix(951_782_400), 2000); // 2000-02-29
    assert_eq!(year_from_unix(4_102_444_800), 2100);
}

#[test]
fn era_buckets() {
    assert_eq!(era_bucket(0), None);
    assert_eq!(era_bucket(-5), None);
    assert_eq!(era_bucket(1_230_768_000), Some(0)); // 2009-01-01
    assert_eq!(era_bucket(1_262_304_000), Some(1)); // 2010-01-01
    assert_eq!(era_bucket(1_451_606_400), Some(2)); // 2016-01-01
    assert_eq!(era_bucket(1_609_459_200), Some(3)); // 2021-01-01
}

#[test]
fn weekend_buckets() {
    assert_eq!(weekend_bucket(0), None);
    assert_eq!(weekend_bucket(1), Some(0)); // Thursday
    assert_eq!(weekend_bucket(172_800), Some(1)); // Saturday
    assert_eq!(weekend_bucket(259_200), Some(1)); // Sunday
    assert_eq!(weekend_bucket(345_600), Some(0)); // Monday
}

#[test]
fn loocv_tally_counts_hits_and_confusion() {
    let mut r = LoocvResult::empty(3);
    r.record(0, 0);
    r.record(0, 2);
    r.record(2, 2);
    assert_eq!(r.correct, 2);
    assert_eq!(r.total, 3);
    assert_eq!(r.per_author, vec![(1, 2), (0, 0), (1, 1)]);
    assert_eq!(r.confusion[0], vec![1, 0, 1]);
    assert_eq!(r.confusion[2], vec![0, 0, 1]);
}

#[test]
fn mystery_marks_four_spread_passages_per_large_author() {
    let mut ps: Vec<Passage> = (0..10).map(|_| passage(0, "b", "s", false, 0)).collect();
    ps.extend((0..8).map(|_| passage(1, "b", "s", false, 0)));
    mark_mystery(&mut ps, 4);
    let marked: Vec<usize> = (0..ps.len()).filter(|&i| ps[i].is_mystery).collect();
    assert_eq!(marked, vec![2, 4, 6, 8]);
    assert_eq!(count_mystery(&ps, 0), 4);
    assert_eq!(count_mystery(&ps, 1), 0);
    let mut ps: Vec<Passage> = (0..20).map(|_| passage(0, "b", "s", false, 0)).collect();
    mark_mystery(&mut ps, 2);
    let marked: Vec<usize> = (0..ps.len()).filter(|&i| ps[i].is_mystery).collect();
    assert_eq!(marked, vec![4, 8]);
}

#[test]
fn groups_and_held_out_sets() {
    let ps = vec![
        passage(0, "A", "S1", false, 0),
        passage(1, "B", "S2", false, 0),
        passage(0, "A", "S1", true, 0),
        passage(0, "C", "S1", false, 0),
        passage(1, "B", "S2", false, 0),
    ];
    assert_eq!(group_passages(&ps, GroupBy::Book), vec![(0, vec![0]), (1, vec![1, 4]), (0, vec![3])]);
    assert_eq!(group_passages(&ps, GroupBy::Series), vec![(0, vec![0, 3]), (1, vec![1, 4])]);
    assert_eq!(mystery_by_author(&ps), vec![(0, vec![2])]);
}

#[test]
fn familiarity_split_every_fifth_passage_is_test() {
    let ps: Vec<Passage> = (0..7).map(|_| passage(0, "b", "s", false, 0)).collect();
    let (test, pools) = familiarity_split(&ps, 1);
    assert_eq!(test, vec![0, 5]);
    assert_eq!(pools, vec![vec![1, 2, 3, 4, 6]]);
}

#[test]
fn spread_positions_cover_inner_tokens() {
    assert_eq!(spread_positions(10, 4), vec![1, 3, 5, 8]);
    assert_eq!(spread_positions(2, 4), vec![0]);
    assert_eq!(spread_positions(3, 4), vec![1]);
    assert_eq!(spread_positions(5, 5), vec![1, 2, 3]);
}

#[test]
fn pick_examples_one_per_spread_author() {
    let ps = vec![
        passage(0, "b", "s", true, 0),
        passage(0, "b", "s", false, 0),
        passage(2, "b", "s", false, 0),
        passage(1, "b", "s", false, 0),
    ];
    assert_eq!(pick_examples(3, &ps, 3), vec![1, 3, 2]);
    assert_eq!(pick_examples(4, &ps, 2), vec![1, 2]);
}

#[test]
fn identity_resolution_and_noreply_logins() {
    assert_eq!(github_login("12345+OctoCat@users.noreply.github.com"), Some("octocat".to_string()));
    assert_eq!(github_login("octocat@users.noreply.github.com"), Some("octocat".to_string()));
    assert_eq!(github_login("12345+@users.noreply.github.com"), None);
    assert_eq!(github_login("octocat@example.com"), None);
    let devs = vec![dev("Ada Lovelace", &["ada@example.com"], &["ada-l"]), dev("Bob", &[], &["bob"])];
    let ids = IdentityMap::build(&devs);
    assert_eq!(ids.resolve("someone", " ADA@example.com "), Some(0));
    assert_eq!(ids.resolve("x", "1+ada-l@users.noreply.github.com"), Some(0));
    assert_eq!(ids.resolve("ada lovelace", "other@example.com"), Some(0));
    assert_eq!(ids.resolve("BOB", "other@example.com"), Some(1));
    assert_eq!(ids.resolve("Carol", "carol@example.com"), None);
}

#[test]
fn bots_are_recognized() {
    assert!(is_bot("dependabot[bot]", "x@example.com"));
    assert!(is_bot("Someone", "49699333+Renovate-Bot@users.noreply.github.com"));
    assert!(is_bot("GitHub", "noreply@github.com"));
    assert!(is_bot("x", "19864447+web-flow@users.noreply.github.com"));
    assert!(!is_bot("Ada", "ada@example.com"));
}

#[test]
fn residual_hits_count_texts_and_tokens() {
    let cfg = Config {
        languages: vec!["rs".to_string()],
        devs: vec![dev("Grace Hopper", &[], &["ghopper", "gh"]), dev("Al Turing", &[], &["aturing"])],
    };
    let texts = vec![
        "let HOPPER = 1;".to_string(),
        "nothing".to_string(),
        "aturing and ghopper".to_string(),
        "hopper again".to_string(),
    ];
    let (hits, found) = residual_identity_hits(&cfg, &texts);
    assert_eq!(hits, 3);
    assert_eq!(found, vec!["hopper".to_string(), "aturing".to_string()]);
}

#[test]
fn code_file_filter() {
    let langs = vec!["rs".to_string(), "py".to_string()];
    let exclude = vec!["Legacy/".to_string()];
    assert!(keep_file("src/Main.RS", &langs, &exclude));
    assert!(!keep_file("vendor/x.rs", &langs, &exclude));
    assert!(!keep_file("src/legacy/x.py", &langs, &exclude));
    assert!(!keep_file("web/app.min.js", &langs, &exclude));
    assert!(!keep_file("Makefile", &langs, &exclude));
    assert!(!keep_file("docs/readme.md", &langs, &exclude));
    assert!(!keep_file("poetry.lock", &langs, &exclude));
}

#[test]
fn plus_path_and_line_normalization() {
    assert_eq!(plus_path("+++ b/src/lib.rs"), Some("src/lib.rs".to_string()));
    assert_eq!(plus_path("+++ src/lib.rs"), Some("src/lib.rs".to_string()));
    assert_eq!(plus_path("+++ /dev/null"), None);
    assert_eq!(plus_path("--- a/x"), None);
    assert_eq!(norm_line("  a \t b   c "), "a b c");
    assert!(is_trivial("short"));
    assert!(is_trivial("aaa aaa aaa aaa aaa aaa aaa"));
    assert!(!is_trivial("alpha beta gamma delta epsilon"));
    let mut t = vec![5, 3, 9];
    assert_eq!(median_time(&mut t), 5);
    assert_eq!(t, vec![3, 5, 9]);
}

#[test]
fn traits_and_author_patterns() {
    let mut v: Vec<Trait> = Vec::new();
    push_trait(&mut v, "Systems or scripting?", "  Systems ");
    push_trait(&mut v, "Empty", "   ");
    assert_eq!(v.len(), 1);
    assert_eq!(v[0].value, "Systems");
    let d = dev("Ada", &["a@x.io"], &["ada"]);
    assert_eq!(author_patterns(&d), vec!["a@x.io".to_string(), "ada".to_string(), "Ada".to_string()]);
}

#[test]
fn author_classes_and_counts() {
    let authors = vec![
        author("Female", &[("lang", "Rust")]),
        author("Male", &[("lang", "Go"), ("era", "old")]),
        author("Female", &[]),
    ];
    let (classes, ids) = author_classes(&authors, &AttrField::Gender);
    assert_eq!(classes, vec!["Female".to_string(), "Male".to_string()]);
    assert_eq!(ids, vec![0, 1, 0]);
    let (tclasses, tids) = author_classes(&authors, &AttrField::Trait("lang".to_string()));
    assert_eq!(tclasses, vec!["Rust".to_string(), "Go".to_string(), String::new()]);
    assert_eq!(tids, vec![0, 1, 2]);
    assert_eq!(trait_names(&authors), vec!["lang".to_string(), "era".to_string()]);
    let c = attr_counts(&ids, 2);
    assert_eq!(c.class_authors, vec![2, 1]);
    assert_eq!(c.tested_counts, vec![2, 0]);
    assert_eq!(c.n_testable_classes, 1);
    assert_eq!(c.n_tested, 2);
    assert_eq!(c.max_tested, 2);
    let colors = class_colors(7);
    assert_eq!(colors[0], "#e6194b");
    assert_eq!(colors[6], "#e6194b");
}

#[test]
fn passage_attribute_classes() {
    let ps = vec![
        passage(0, "b", "s", false, 1_230_768_000),
        passage(0, "b", "s", true, 1_609_459_200),
        passage(0, "b", "s", false, 0),
        passage(0, "b", "s", false, 1_609_459_200),
    ];
    let era = passage_classes(&ps, PassageAttr::Era);
    assert_eq!(era, vec![Some(0), None, None, Some(3)]);
    let counts = passage_counts(&era, 4);
    assert_eq!(counts.class_counts, vec![1, 0, 0, 1]);
    assert_eq!(counts.total, 2);
    assert_eq!(counts.max_count, 1);
    assert_eq!(counts.n_present, 2);
    assert_eq!(passage_attr_class_labels(PassageAttr::Weekend).len(), 2);
    assert_eq!(passage_attr_class_labels(PassageAttr::Era).len(), 4);
}

#[test]
fn display_helpers() {
    assert_eq!(snippet("ab\ncd", 3), "ab …");
    assert_eq!(snippet("ab", 3), "ab");
    assert_eq!(views::snippet("ab\ncd", 3), "ab\n…");
    assert_eq!(views::snippet("abc", 3), "abc");
    assert_eq!(short("Jane  Austen"), "Austen");
    assert_eq!(short("   "), "   ");
    assert_eq!(clean("\u{0120}the\u{010A}".to_string()), "\u{2420}the\\n");
}

#[test]
fn numbers_parse_and_print() {
    let c = |s: &str| s.chars().collect::<Vec<char>>();
    assert_eq!(parse_i64(&c("1700000000")), Some(1_700_000_000));
    assert_eq!(parse_i64(&c("-42")), Some(-42));
    assert_eq!(parse_i64(&c("+7")), Some(7));
    assert_eq!(parse_i64(&c("-9223372036854775808")), Some(i64::MIN));
    assert_eq!(parse_i64(&c("9223372036854775808")), None);
    assert_eq!(parse_i64(&c("")), None);
    assert_eq!(parse_i64(&c("-")), None);
    assert_eq!(parse_i64(&c("1e3")), None);
    assert_eq!(decimal_chars(0), c("0"));
    assert_eq!(decimal_chars(1342), c("1342"));
    assert_eq!(decimal_chars(u64::MAX), c("18446744073709551615"));
}

#[test]
fn labels_copy_and_datasets() {
    let p = LadderLabels::prose();
    assert_eq!(p.blind.0, "Blind guessing");
    assert_eq!(p.book_out.0, "Never read this book");
    let c = code_ladder_labels();
    assert_eq!(c.author_out.0, "Never seen this coder");
    assert_eq!(copy_for("coders").subject, "coder");
    assert_eq!(copy_for("minilm").subject, "author");
    assert_eq!(copy_for("anything").unit, "book");
    let d = site_datasets();
    assert_eq!(d.default, "coders");
    assert_eq!(d.datasets.len(), 2);
    assert_eq!(d.datasets[1].key, "minilm");
}
