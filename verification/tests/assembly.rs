use person2vec::attributes::{AttrField, PassageAttr};
use person2vec::cli::clone_args;
use person2vec::corpus::{coder_author, coder_passages, kept_devs, prose_passages, Collected};
use person2vec::discover::DiscoverScan;
use person2vec::experiments::{attribute_experiments, Experiment};
use person2vec::gutenberg::{book_chunks, book_urls, cached_text_usable, usable_body};
use person2vec::identity::{DevCfg, RepoCfg, TraitsCfg};
use person2vec::model::{AuthorMeta, Passage, Trait};
use person2vec::pattern::{gutenberg_end_source, gutenberg_start_source, Pattern};

fn item(text: &str, t: i64) -> Collected {
    Collected { book_title: "f.rs".to_string(), series: "repo".to_string(), text: text.to_string(), authored: t }
}

#[test]
fn book_urls_try_every_mirror_and_suffix() {
    let urls = book_urls(1342);
    assert_eq!(urls.len(), 9);
    assert_eq!(urls[0], "http://aleph.gutenberg.org/1/3/4/1342/1342-0.txt");
    assert_eq!(urls[1], "http://aleph.gutenberg.org/1/3/4/1342/1342.txt");
    assert_eq!(urls[5], "http://gutenberg.pglaf.org/1/3/4/1342/1342-8.txt");
    assert_eq!(urls[8], "http://mirror.csclub.uwaterloo.ca/gutenberg/1/3/4/1342/1342-8.txt");
}

#[test]
fn bodies_must_be_long_and_not_404() {
    let long = "x".repeat(1001);
    assert!(usable_body(&long));
    assert!(!usable_body(&"x".repeat(1000)));
    assert!(!usable_body(&format!("<title>404 Not Found</title>{long}")));
    assert!(cached_text_usable(&long));
    assert!(!cached_text_usable("short"));
}

#[test]
fn book_chunks_tag_title_and_series() {
    let start = Pattern::compile(gutenberg_start_source()).unwrap();
    let end = Pattern::compile(gutenberg_end_source()).unwrap();
    let body = vec!["word"; 210].join(" ");
    let raw = format!("junk\n*** START OF THE PROJECT GUTENBERG EBOOK E ***\n{body}\n*** END OF THE PROJECT GUTENBERG EBOOK E ***\n");
    let c = book_chunks(&raw, "Emma", &None, &start, &end);
    assert_eq!(c.len(), 1);
    assert_eq!(c[0].0, "Emma");
    assert_eq!(c[0].1, "Emma");
    assert_eq!(c[0].2, body);
    let c = book_chunks(&raw, "Emma", &Some("Novels".to_string()), &start, &end);
    assert_eq!(c[0].1, "Novels");
}

#[test]
fn kept_devs_and_coder_records() {
    let per_dev = vec![vec![item("a", 1)], Vec::new(), vec![item("b", 2), item("c", 3)]];
    assert_eq!(kept_devs(&per_dev), vec![0, 2]);
    let d = DevCfg {
        name: "Ada".to_string(),
        color: None,
        emails: Vec::new(),
        logins: Vec::new(),
        traits: TraitsCfg { paradigm: " Systems ".to_string() },
        repos: Vec::new(),
    };
    let a = coder_author(1, &d, "#123456".to_string());
    assert_eq!(a.id, 1);
    assert_eq!(a.name, "Ada");
    assert_eq!(a.color, "#123456");
    assert_eq!(a.traits.len(), 1);
    assert_eq!(a.traits[0].name, "Systems or scripting?");
    assert_eq!(a.traits[0].value, "Systems");
    let (ps, texts) = coder_passages(1, vec![item("b", 2), item("c", 3)]);
    assert_eq!(texts, vec!["b".to_string(), "c".to_string()]);
    assert_eq!(ps[1].author_id, 1);
    assert_eq!(ps[1].authored, 3);
    assert_eq!(ps[1].series, "repo");
    assert!(!ps[1].is_mystery);
    let (ps, texts) = prose_passages(4, vec![("T".to_string(), "S".to_string(), "x".to_string())]);
    assert_eq!(texts, vec!["x".to_string()]);
    assert_eq!((ps[0].author_id, ps[0].authored), (4, 0));
    assert_eq!(ps[0].book_title, "T");
}

#[test]
fn clone_args_with_and_without_depth() {
    let mut r = RepoCfg {
        slug: "s".to_string(),
        url: "https://x/y.git".to_string(),
        domain: String::new(),
        paths: Vec::new(),
        exclude: Vec::new(),
        depth: Some(50),
        max_commits: None,
    };
    assert_eq!(
        clone_args(&r, "/c/s"),
        vec!["clone", "--single-branch", "--no-tags", "--depth", "50", "https://x/y.git", "/c/s"]
    );
    r.depth = None;
    assert_eq!(clone_args(&r, "/c/s"), vec!["clone", "--single-branch", "--no-tags", "https://x/y.git", "/c/s"]);
}

#[test]
fn discover_tallies_code_lines_per_committer() {
    let langs = vec!["rs".to_string()];
    let log = [
        "\u{1}a\u{1f}Ada\u{1f}ada@x.io\u{1f}1262304000\u{1f}s", // 2010
        "+++ b/src/a.rs",
        "+x",
        "+y",
        "+++ b/README.md",
        "+not counted",
        "\u{1}b\u{1f}Bob\u{1f}bob@x.io\u{1f}1609459200\u{1f}s", // 2021
        "diff --git a/src/b.rs b/src/b.rs",
        "+not counted either",
        "+++ b/src/b.rs",
        "+z",
        "\u{1}c\u{1f}renovate[bot]\u{1f}bot@x.io\u{1f}1609459200\u{1f}s",
        "+++ b/src/c.rs",
        "+bot line",
        "\u{1}d\u{1f}Ada\u{1f}ada@x.io\u{1f}1577836800\u{1f}s", // 2020-01-01, rough year 2019
        "+++ b/src/a.rs",
        "+w",
        "\u{1}e\u{1f}Cy\u{1f}cy@x.io\u{1f}1577836800\u{1f}s",
        "+++ b/src/a.rs",
        "+v",
    ];
    let mut scan = DiscoverScan::new();
    for l in log.iter() {
        scan.step(l, &langs, &[]);
    }
    let rows = scan.top_rows(40);
    assert_eq!(rows.len(), 3);
    assert_eq!(rows[0], ("Ada".to_string(), "ada@x.io".to_string(), 3, 2010, 2019));
    assert_eq!(rows[1], ("Bob".to_string(), "bob@x.io".to_string(), 1, 2021, 2021));
    assert_eq!(rows[2], ("Cy".to_string(), "cy@x.io".to_string(), 1, 2019, 2019));
    assert_eq!(scan.top_rows(1).len(), 1);
}

fn author(traits: &[(&str, &str)]) -> AuthorMeta {
    AuthorMeta {
        id: 0,
        name: String::new(),
        color: String::new(),
        gender: String::new(),
        birth_country: String::new(),
        raised: String::new(),
        educated: String::new(),
        college: String::new(),
        traits: traits.iter().map(|(n, v)| Trait { name: n.to_string(), value: v.to_string() }).collect(),
    }
}

fn passage(authored: i64) -> Passage {
    Passage {
        author_id: 0,
        book_title: String::new(),
        series: String::new(),
        text: String::new(),
        is_mystery: false,
        authored,
    }
}

#[test]
fn experiments_follow_the_dataset() {
    let coders = attribute_experiments(&[author(&[("Systems or scripting?", "Systems")])], &[passage(5)]);
    let titles: Vec<&str> = coders.iter().map(|(t, _)| t.as_str()).collect();
    assert_eq!(titles, vec!["When was it written?", "Weekend or weekday?", "Systems or scripting?"]);
    assert!(matches!(coders[0].1, Experiment::Passage(PassageAttr::Era)));
    assert!(matches!(&coders[2].1, Experiment::Author(AttrField::Trait(n)) if n == "Systems or scripting?"));
    let prose = attribute_experiments(&[author(&[])], &[passage(0)]);
    let titles: Vec<&str> = prose.iter().map(|(t, _)| t.as_str()).collect();
    assert_eq!(titles, vec!["Gender", "Birth country", "Where they were raised", "Where they were educated", "College"]);
}
