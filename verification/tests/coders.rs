use person2vec::commits::{accumulate_commit, flush_block, CommitCtx, FilePool, MAX_COMMIT_LINES};
use person2vec::dedup::{keep_passage, shingles, DedupState};
use person2vec::identity::{DevCfg, IdentityMap, TraitsCfg};
use person2vec::scan::{split_on_char, DevLogScan};
use person2vec::windows::{emit_file, median};
use std::collections::HashSet;

fn dev(name: &str, emails: &[&str], logins: &[&str]) -> DevCfg {
    DevCfg {
        name: name.to_string(),
        color: None,
        emails: emails.iter().map(|s| s.to_string()).collect(),
        logins: logins.iter().map(|s| s.to_string()).collect(),
        traits: TraitsCfg { paradigm: "Systems".to_string() },
        repos: Vec::new(),
    }
}

fn strings(v: &[&str]) -> Vec<String> {
    v.iter().map(|s| s.to_string()).collect()
}

fn chars(s: &str) -> Vec<char> {
    s.chars().collect()
}

#[test]
fn flush_moves_run_into_attributed_commit() {
    let mut ctx = Some(CommitCtx { dev: Some(0), blocks: Vec::new(), added: 0, time: 5 });
    let file = Some("src/a.rs".to_string());
    let mut block = strings(&["x", "y"]);
    flush_block(&mut ctx, &file, &mut block);
    assert!(block.is_empty());
    let c = ctx.unwrap();
    assert_eq!(c.added, 2);
    assert_eq!(c.blocks.len(), 1);
    assert_eq!(c.blocks[0].0, "src/a.rs");
    assert_eq!(c.blocks[0].1, strings(&["x", "y"]));
}

#[test]
fn flush_drops_run_of_foreign_commit_or_untracked_file() {
    let mut ctx = Some(CommitCtx { dev: None, blocks: Vec::new(), added: 0, time: 5 });
    let mut block = strings(&["x"]);
    flush_block(&mut ctx, &Some("a.rs".to_string()), &mut block);
    assert!(block.is_empty());
    assert!(ctx.as_ref().unwrap().blocks.is_empty());

    let mut ctx = Some(CommitCtx { dev: Some(1), blocks: Vec::new(), added: 0, time: 5 });
    let mut block = strings(&["x"]);
    flush_block(&mut ctx, &None, &mut block);
    assert!(block.is_empty());
    assert_eq!(ctx.as_ref().unwrap().added, 0);
}

fn pool_entry(p: &FilePool, file: &str) -> Option<Vec<(String, i64)>> {
    let f = chars(file);
    p.files.iter().position(|x| *x == f).map(|i| p.lines[i].clone())
}

#[test]
fn accumulate_pools_lines_per_file_with_time() {
    let mut pool = FilePool::new();
    let c1 = CommitCtx {
        dev: Some(0),
        blocks: vec![("b.rs".to_string(), strings(&["one"])), ("a.rs".to_string(), strings(&["two", "three"]))],
        added: 3,
        time: 100,
    };
    accumulate_commit(c1, &mut pool);
    let c2 = CommitCtx { dev: Some(0), blocks: vec![("b.rs".to_string(), strings(&["four"]))], added: 1, time: 200 };
    accumulate_commit(c2, &mut pool);
    // files kept sorted
    assert_eq!(pool.files, vec![chars("a.rs"), chars("b.rs")]);
    assert_eq!(pool_entry(&pool, "a.rs").unwrap(), vec![("two".to_string(), 100), ("three".to_string(), 100)]);
    assert_eq!(pool_entry(&pool, "b.rs").unwrap(), vec![("one".to_string(), 100), ("four".to_string(), 200)]);
}

#[test]
fn accumulate_skips_foreign_empty_and_oversized_commits() {
    let mut pool = FilePool::new();
    let foreign = CommitCtx { dev: None, blocks: vec![("a.rs".to_string(), strings(&["x"]))], added: 1, time: 1 };
    accumulate_commit(foreign, &mut pool);
    let empty = CommitCtx { dev: Some(0), blocks: Vec::new(), added: 0, time: 1 };
    accumulate_commit(empty, &mut pool);
    let huge = CommitCtx {
        dev: Some(0),
        blocks: vec![("a.rs".to_string(), strings(&["x"]))],
        added: MAX_COMMIT_LINES + 1,
        time: 1,
    };
    accumulate_commit(huge, &mut pool);
    assert!(pool.files.is_empty());
    let at_limit = CommitCtx {
        dev: Some(0),
        blocks: vec![("a.rs".to_string(), strings(&["x"]))],
        added: MAX_COMMIT_LINES,
        time: 1,
    };
    accumulate_commit(at_limit, &mut pool);
    assert_eq!(pool.files.len(), 1);
}

#[test]
fn split_keeps_empty_fields() {
    let parts = split_on_char(&chars("a\u{1f}\u{1f}b"), '\u{1f}');
    assert_eq!(parts, vec![chars("a"), chars(""), chars("b")]);
}

#[test]
fn scan_attributes_added_lines_of_the_developer_only() {
    let devs = vec![dev("Ada Lovelace", &["ada@example.com"], &["ada"]), dev("Bob", &["bob@example.com"], &[])];
    let ids = IdentityMap::build(&devs);
    let langs = strings(&["rs"]);
    let exclude: Vec<String> = Vec::new();
    let log = [
        "\u{1}abc\u{1f}Ada Lovelace\u{1f}ADA@example.com\u{1f}1700000000\u{1f}first",
        "diff --git a/src/lib.rs b/src/lib.rs",
        "--- a/src/lib.rs",
        "+++ b/src/lib.rs",
        "@@ -1,2 +1,3 @@",
        "+fn main() {}",
        "+let x = 1;",
        " context",
        "+more",
        "diff --git a/README b/README",
        "+++ b/README",
        "+not code",
        "\u{1}def\u{1f}Bob\u{1f}bob@example.com\u{1f}1700000100\u{1f}second",
        "+++ b/src/lib.rs",
        "+bob's line",
        "\u{1}ghi\u{1f}dependabot[bot]\u{1f}ada@example.com\u{1f}1700000200\u{1f}bump",
        "+++ b/src/lib.rs",
        "+bot line",
    ];
    let mut scan = DevLogScan::new(0);
    for l in log.iter() {
        scan.step(l, &ids, &langs, &exclude);
    }
    let pool = scan.finish();
    assert_eq!(pool.files, vec![chars("src/lib.rs")]);
    assert_eq!(
        pool.lines[0],
        vec![
            ("fn main() {}".to_string(), 1700000000),
            ("let x = 1;".to_string(), 1700000000),
            ("more".to_string(), 1700000000),
        ]
    );
}

#[test]
fn scan_header_with_unparsable_time_counts_as_zero() {
    let devs = vec![dev("Ada", &["ada@example.com"], &[])];
    let ids = IdentityMap::build(&devs);
    let langs = strings(&["py"]);
    let mut scan = DevLogScan::new(0);
    for l in ["\u{1}x\u{1f}Ada\u{1f}ada@example.com\u{1f}soon", "+++ b/tool.py", "+print(1)"].iter() {
        scan.step(l, &ids, &langs, &[]);
    }
    let pool = scan.finish();
    assert_eq!(pool.lines[0], vec![("print(1)".to_string(), 0)]);
}

#[test]
fn median_is_upper_middle_of_sorted_times() {
    let mut t = vec![3, 1, 2];
    assert_eq!(median(&mut t), 2);
    let mut t = vec![4, 1];
    assert_eq!(median(&mut t), 4);
    let mut t: Vec<i64> = Vec::new();
    assert_eq!(median(&mut t), 0);
}

fn tokens(n: usize) -> String {
    (0..n).map(|i| format!("t{i}")).collect::<Vec<_>>().join(" ")
}

#[test]
fn emit_file_windows_by_token_count() {
    let lines = vec![
        (tokens(60), 10),
        (tokens(60), 0),
        (tokens(60), 30),
        (tokens(70), 5),
        (tokens(10), 7),
    ];
    let out = emit_file(&lines);
    assert_eq!(out.len(), 2);
    assert_eq!(out[0].0, format!("{}\n{}\n{}", tokens(60), tokens(60), tokens(60)));
    assert_eq!(out[0].1, 30);
    assert_eq!(out[1].0, format!("{}\n{}", tokens(70), tokens(10)));
    assert_eq!(out[1].1, 7);
}

#[test]
fn emit_file_drops_short_tail() {
    let lines = vec![(tokens(59), 10)];
    assert!(emit_file(&lines).is_empty());
    let lines = vec![(tokens(60), 10)];
    assert_eq!(emit_file(&lines).len(), 1);
}

const CODE: &str = "fn compute_total(values: &[u64]) -> u64 {\n    let mut total = 0;\n    for value in values {\n        total += value;\n    }\n    total\n}";

#[test]
fn shingles_hash_normalized_code_lines() {
    let s = shingles("  let   x = 1;\n}\nlet x = 1;\n!!!!\n");
    assert_eq!(s.len(), 1);
    assert_eq!(s, shingles("let x = 1;"));
    assert_ne!(s, shingles("let y = 1;"));
    assert!(shingles("}\n()\nabc\n").is_empty());
    assert_eq!(shingles("abcd\r\nabcd\nefgh").len(), 2);
}

#[test]
fn keep_passage_dedups_exactly_and_by_shingles() {
    let mut dedup = DedupState { seen_exact: HashSet::new(), per_dev_shingles: vec![HashSet::new(), HashSet::new()] };
    assert_eq!(keep_passage(CODE, 0, None, &mut dedup), Some(CODE.to_string()));
    // exact duplicate (whitespace differences do not matter)
    let respaced = CODE.replace("    ", "  ");
    assert_eq!(keep_passage(&respaced, 1, None, &mut dedup), None);
    // mostly the same lines for the same coder: dropped
    let extended = format!("{CODE}\nfn helper() -> u64 {{ 1 }}");
    assert_eq!(keep_passage(&extended, 0, None, &mut dedup), None);
    // its exact key was recorded all the same
    assert_eq!(keep_passage(&extended, 1, None, &mut dedup), None);
    // the same lines are new for another coder
    let other = format!("{CODE}\nfn other() -> u64 {{ 2 }}");
    assert_eq!(keep_passage(&other, 1, None, &mut dedup), Some(other.clone()));
    // trivial text is dropped
    assert_eq!(keep_passage("x = 1", 0, None, &mut dedup), None);
}
