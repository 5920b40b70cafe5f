//! Command lines: the `git log` invocation of a developer's history, flag lookup, and
//! the out-of-distribution probe texts of a fingerprint.

use vstd::prelude::*;

use crate::identity::RepoCfg;
use crate::lex::chars_eq;
use crate::numparse::{decimal, decimal_chars};
use crate::scrub::string_views;
use crate::text::{append_chars, chars_of, string_of};

verus! {

broadcast use vstd::string::group_string_axioms;

/// The fixed head of the `git log` command line, after the repository path.
pub open spec fn log_head(path: Seq<char>) -> Seq<Seq<char>> {
    seq![
        "-C"@,
        path,
        "log"@,
        "--no-merges"@,
        "--no-color"@,
        "-M"@,
        "-C"@,
        "--format=%x01%H%x1f%an%x1f%ae%x1f%ct%x1f%s"@,
        "-p"@,
    ]
}

/// The arguments of `git log` over one developer's history in a repository: rename and
/// copy detection, one header line per commit (`\u{1}` hash, then `\u{1f}`-separated
/// author name, author email, commit time, subject), the patch; one `--author=`
/// filter per pattern (git ORs them); `-n` with the repository's commit cap, if any;
/// and the repository's path filters after `--`, if any.
pub open spec fn log_args_spec(path: Seq<char>, max_commits: Option<usize>, paths: Seq<Seq<char>>, patterns: Seq<Seq<char>>) -> Seq<Seq<char>> {
    let authors = patterns.map_values(|p: Seq<char>| "--author="@ + p);
    let cap = match max_commits {
        Some(mc) => seq!["-n"@, decimal(mc as nat)],
        None => Seq::empty(),
    };
    let tail = if paths.len() > 0 {
        seq!["--"@] + paths
    } else {
        Seq::empty()
    };
    log_head(path) + authors + cap + tail
}

fn push_str(args: &mut Vec<String>, s: &str)
    ensures
        string_views(final(args)@) == string_views(old(args)@).push(s@),
{
    let ghost before = args@;
    args.push(s.to_string());
    proof {
        assert(string_views(args@) =~= string_views(before).push(s@));
    }
}

/// The `git log` arguments for `repo` checked out at `path`, restricted to the
/// authors matching `patterns`.
pub fn log_args(path: &str, repo: &RepoCfg, patterns: &[String]) -> (args: Vec<String>)
    ensures
        string_views(args@) == log_args_spec(path@, repo.max_commits, string_views(repo.paths@), string_views(patterns@)),
{
    let mut args: Vec<String> = Vec::new();
    push_str(&mut args, "-C");
    push_str(&mut args, path);
    push_str(&mut args, "log");
    push_str(&mut args, "--no-merges");
    push_str(&mut args, "--no-color");
    push_str(&mut args, "-M");
    push_str(&mut args, "-C");
    push_str(&mut args, "--format=%x01%H%x1f%an%x1f%ae%x1f%ct%x1f%s");
    push_str(&mut args, "-p");
    let ghost head = string_views(args@);
    assert(head =~= log_head(path@));
    let ghost pv = string_views(patterns@);
    let ghost authors = pv.map_values(|p: Seq<char>| "--author="@ + p);
    let mut i: usize = 0;
    while i < patterns.len()
        invariant
            i <= patterns@.len(),
            pv == string_views(patterns@),
            authors == pv.map_values(|p: Seq<char>| "--author="@ + p),
            string_views(args@) == head + authors.take(i as int),
        decreases patterns@.len() - i,
    {
        let mut a = chars_of("--author=");
        append_chars(&mut a, &chars_of(patterns[i].as_str()));
        let s = string_of(&a);
        let ghost before = args@;
        args.push(s);
        proof {
            assert(authors.take(i as int + 1) =~= authors.take(i as int).push(authors[i as int]));
            assert(string_views(args@) =~= string_views(before).push(s@));
        }
        i += 1;
    }
    proof {
        assert(authors.take(i as int) =~= authors);
    }
    let ghost mid = string_views(args@);
    match repo.max_commits {
        Some(mc) => {
            push_str(&mut args, "-n");
            let d = string_of(&decimal_chars(mc as u64));
            let ghost before = args@;
            args.push(d);
            proof {
                assert(string_views(args@) =~= string_views(before).push(d@));
                assert(string_views(args@) =~= mid + seq!["-n"@, decimal(mc as nat)]);
            }
        },
        None => {
            proof {
                assert(mid + Seq::<Seq<char>>::empty() =~= mid);
            }
        },
    }
    let ghost mid2 = string_views(args@);
    let ghost rp = string_views(repo.paths@);
    if repo.paths.len() > 0 {
        push_str(&mut args, "--");
        let mut j: usize = 0;
        while j < repo.paths.len()
            invariant
                j <= repo.paths@.len(),
                rp == string_views(repo.paths@),
                string_views(args@) == mid2 + seq!["--"@] + rp.take(j as int),
            decreases repo.paths@.len() - j,
        {
            let s = repo.paths[j].clone();
            let ghost before = args@;
            args.push(s);
            proof {
                assert(rp.take(j as int + 1) =~= rp.take(j as int).push(rp[j as int]));
                assert(string_views(args@) =~= string_views(before).push(s@));
            }
            j += 1;
        }
        proof {
            assert(rp.take(j as int) =~= rp);
            assert(mid2 + seq!["--"@] + rp =~= mid2 + (seq!["--"@] + rp));
        }
    } else {
        proof {
            assert(mid2 + Seq::<Seq<char>>::empty() =~= mid2);
        }
    }
    args
}

/// The arguments of `git clone` for `repo` into `path`: one branch, no tags, shallow to
/// the repository's depth when it has one.
pub open spec fn clone_args_spec(url: Seq<char>, depth: Option<usize>, path: Seq<char>) -> Seq<Seq<char>> {
    let head = seq!["clone"@, "--single-branch"@, "--no-tags"@];
    let d = match depth {
        Some(n) => seq!["--depth"@, decimal(n as nat)],
        None => Seq::empty(),
    };
    head + d + seq![url, path]
}

/// The `git clone` arguments for `repo` into `path`.
pub fn clone_args(repo: &RepoCfg, path: &str) -> (args: Vec<String>)
    ensures
        string_views(args@) == clone_args_spec(repo.url@, repo.depth, path@),
{
    let mut args: Vec<String> = Vec::new();
    push_str(&mut args, "clone");
    push_str(&mut args, "--single-branch");
    push_str(&mut args, "--no-tags");
    let ghost head = string_views(args@);
    match repo.depth {
        Some(d) => {
            push_str(&mut args, "--depth");
            let ds = string_of(&decimal_chars(d as u64));
            push_str(&mut args, ds.as_str());
        },
        None => {},
    }
    push_str(&mut args, repo.url.as_str());
    push_str(&mut args, path);
    proof {
        assert(string_views(args@) =~= clone_args_spec(repo.url@, repo.depth, path@));
    }
    args
}

/// The index of the first argument equal to `flag`.
pub open spec fn flag_position(args: Seq<Seq<char>>, flag: Seq<char>) -> Option<int> {
    if exists|i: int| 0 <= i < args.len() && args[i] == flag {
        Some(choose|i: int| 0 <= i < args.len() && args[i] == flag && forall|j: int| 0 <= j < i ==> args[j] != flag)
    } else {
        None
    }
}

/// The value after the first occurrence of `flag` in `args`, if both are there.
pub fn arg_value<'a>(args: &'a [String], flag: &str) -> (r: Option<&'a str>)
    ensures
        match flag_position(string_views(args@), flag@) {
            Some(i) => if i + 1 < args@.len() {
                r matches Some(v) && v@ == args@[i + 1]@
            } else {
                r is None
            },
            None => r is None,
        },
{
    let f = chars_of(flag);
    let ghost av = string_views(args@);
    let mut i: usize = 0;
    while i < args.len()
        invariant
            i <= args@.len(),
            av == string_views(args@),
            f@ == flag@,
            forall|j: int| 0 <= j < i ==> av[j] != flag@,
        decreases args@.len() - i,
    {
        if chars_eq(&chars_of(args[i].as_str()), &f) {
            proof {
                assert(av[i as int] == flag@);
                let p = flag_position(av, flag@);
                assert(p == Some(i as int)) by {
                    let c = choose|c: int| 0 <= c < av.len() && av[c] == flag@ && forall|j: int| 0 <= j < c ==> av[j] != flag@;
                    assert(0 <= i < av.len() && av[i as int] == flag@ && forall|j: int| 0 <= j < i ==> av[j] != flag@);
                    if c < i {
                    } else if c > i {
                        assert(av[i as int] != flag@);
                    }
                }
            }
            if i + 1 < args.len() {
                return Some(args[i + 1].as_str());
            } else {
                return None;
            }
        }
        proof {
            assert(av[i as int] == args@[i as int]@);
        }
        i += 1;
    }
    None
}

/// The out-of-distribution probe texts of a fingerprint, as (label, text) pairs: prose
/// and chat for the code dataset, code and other registers for prose.
pub open spec fn ood_samples_spec(dataset: Seq<char>) -> Seq<(Seq<char>, Seq<char>)> {
    if dataset == "coders"@ {
        seq![
            ("Victorian prose"@, "It is a truth universally acknowledged, that a single man in possession of a good fortune, must be in want of a wife."@),
            ("modern chat"@, "lol yeah just grabbing coffee brb, this standup is dragging so hard rn wyd after"@),
            ("news headline"@, "Central bank holds interest rates steady amid signs of cooling inflation across the economy."@),
            ("recipe"@, "Preheat the oven to 220C. Toss the potatoes in olive oil and salt, then roast for forty minutes until golden."@),
        ]
    } else {
        seq![
            ("source code"@, "for (int i = 0; i < n; i++) { total += weights[i] * inputs[i]; } return sigmoid(total);"@),
            ("modern chat"@, "lol yeah just grabbing coffee brb, this standup is dragging so hard rn wyd after"@),
            ("biology abstract"@, "The mitochondrion generates ATP through oxidative phosphorylation across the inner membrane."@),
            ("legalese"@, "The party of the first part hereby agrees to indemnify and hold harmless the party of the second part."@),
        ]
    }
}

/// The probe texts for `dataset`.
pub fn ood_samples(dataset: &str) -> (r: Vec<(&'static str, &'static str)>)
    ensures
        r@.map_values(|p: (&'static str, &'static str)| (p.0@, p.1@)) == ood_samples_spec(dataset@),
{
    let mut r: Vec<(&'static str, &'static str)> = Vec::new();
    if chars_eq(&chars_of(dataset), &chars_of("coders")) {
        r.push(("Victorian prose", "It is a truth universally acknowledged, that a single man in possession of a good fortune, must be in want of a wife."));
        r.push(("modern chat", "lol yeah just grabbing coffee brb, this standup is dragging so hard rn wyd after"));
        r.push(("news headline", "Central bank holds interest rates steady amid signs of cooling inflation across the economy."));
        r.push(("recipe", "Preheat the oven to 220C. Toss the potatoes in olive oil and salt, then roast for forty minutes until golden."));
    } else {
        r.push(("source code", "for (int i = 0; i < n; i++) { total += weights[i] * inputs[i]; } return sigmoid(total);"));
        r.push(("modern chat", "lol yeah just grabbing coffee brb, this standup is dragging so hard rn wyd after"));
        r.push(("biology abstract", "The mitochondrion generates ATP through oxidative phosphorylation across the inner membrane."));
        r.push(("legalese", "The party of the first part hereby agrees to indemnify and hold harmless the party of the second part."));
    }
    proof {
        assert(r@.map_values(|p: (&'static str, &'static str)| (p.0@, p.1@)) =~= ood_samples_spec(dataset@));
    }
    r
}

} // verus!
