use person2vec::attributes::AttrField;
use person2vec::cli::{arg_value, log_args, ood_samples};
use person2vec::identity::RepoCfg;
use person2vec::model::AuthorMeta;
use person2vec::ranking::top_classes;

fn repo(paths: &[&str], max_commits: Option<usize>) -> RepoCfg {
    RepoCfg {
        slug: "r".to_string(),
        url: "https://example.com/r.git".to_string(),
        domain: String::new(),
        paths: paths.iter().map(|s| s.to_string()).collect(),
        exclude: Vec::new(),
        depth: None,
        max_commits,
    }
}

#[test]
fn log_args_build_the_git_command() {
    let pats = vec!["ada@example.com".to_string(), "Ada".to_string()];
    let args = log_args("/tmp/clone", &repo(&["src", "lib"], Some(500)), &pats);
    let expected: Vec<&str> = vec![
        "-C",
        "/tmp/clone",
        "log",
        "--no-merges",
        "--no-color",
        "-M",
        "-C",
        "--format=%x01%H%x1f%an%x1f%ae%x1f%ct%x1f%s",
        "-p",
        "--author=ada@example.com",
        "--author=Ada",
        "-n",
        "500",
        "--",
        "src",
        "lib",
    ];
    assert_eq!(args, expected);
    let plain = log_args("p", &repo(&[], None), &[]);
    assert_eq!(plain.len(), 9);
    assert_eq!(plain.last().unwrap(), "-p");
}

#[test]
fn arg_value_reads_the_value_after_a_flag() {
    let args: Vec<String> = ["prog", "--config", "a.toml", "--config", "b.toml"].iter().map(|s| s.to_string()).collect();
    assert_eq!(arg_value(&args, "--config"), Some("a.toml"));
    assert_eq!(arg_value(&args, "--other"), None);
    let tail: Vec<String> = ["prog", "--config"].iter().map(|s| s.to_string()).collect();
    assert_eq!(arg_value(&tail, "--config"), None);
}

#[test]
fn ood_samples_depend_on_dataset() {
    let c = ood_samples("coders");
    assert_eq!(c.len(), 4);
    assert_eq!(c[0].0, "Victorian prose");
    assert_eq!(c[3].0, "recipe");
    let p = ood_samples("minilm");
    assert_eq!(p[0].0, "source code");
    assert_eq!(p[3].0, "legalese");
}

fn author(educated: &str) -> AuthorMeta {
    AuthorMeta {
        id: 0,
        name: String::new(),
        color: String::new(),
        gender: String::new(),
        birth_country: String::new(),
        raised: String::new(),
        educated: educated.to_string(),
        college: String::new(),
        traits: Vec::new(),
    }
}

#[test]
fn top_classes_by_count_then_name() {
    let authors: Vec<AuthorMeta> =
        ["Oxford", "Cambridge", "Oxford", "", "Harvard", "Cambridge", ""].iter().map(|e| author(e)).collect();
    assert_eq!(top_classes(&authors, &AttrField::Educated, 2), vec!["Cambridge".to_string(), "Oxford".to_string()]);
    assert_eq!(
        top_classes(&authors, &AttrField::Educated, 5),
        vec!["Cambridge".to_string(), "Oxford".to_string(), "Harvard".to_string()]
    );
    assert!(top_classes(&authors, &AttrField::Educated, 0).is_empty());
    assert!(top_classes(&authors, &AttrField::Gender, 3).is_empty());
}
