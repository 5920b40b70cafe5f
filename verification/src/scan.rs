//! Attribution of one developer's code in one repository, line by line over the
//! output of `git log -p --format=%x01%H%x1f%an%x1f%ae%x1f%ct%x1f%s`: commit headers
//! start an attributed (or foreign) commit, diff headers pick the file, and runs of
//! added lines are buffered and pooled per file.

use vstd::prelude::*;

use crate::codefilter::{keep_file, keep_file_spec, plus_path, plus_path_spec};
use crate::commits::{
    accumulate_commit, accumulate_model, ctx_model, flush_block, flush_model, opt_view, pool_after,
    pooled, CommitCtx, CommitModel, FilePool, MAX_COMMIT_LINES,
};
use crate::identity::{is_bot, is_bot_spec, IdentityMap};
use crate::numparse::{parse_i64, parse_i64_spec};
use crate::scrub::string_views;
use crate::text::{chars_of, starts_with, starts_with_chars, slice_chars, string_of};

verus! {

broadcast use vstd::string::group_string_axioms;

/// The pieces of `s` between occurrences of `c` (empty pieces included), as a
/// left-to-right scan with the current piece `cur` and the finished pieces `acc`.
pub open spec fn split_acc(s: Seq<char>, c: char, cur: Seq<char>, acc: Seq<Seq<char>>) -> Seq<Seq<char>>
    decreases s.len(),
{
    if s.len() == 0 {
        acc.push(cur)
    } else if s[0] == c {
        split_acc(s.drop_first(), c, Seq::empty(), acc.push(cur))
    } else {
        split_acc(s.drop_first(), c, cur.push(s[0]), acc)
    }
}

/// `s` split at every `c` (what `str::split(c)` yields).
pub open spec fn split_on(s: Seq<char>, c: char) -> Seq<Seq<char>> {
    split_acc(s, c, Seq::empty(), Seq::empty())
}

/// Splits `s` at every `c`.
pub fn split_on_char(s: &[char], c: char) -> (r: Vec<Vec<char>>)
    ensures
        r@.map_values(|w: Vec<char>| w@) == split_on(s@, c),
{
    let mut acc: Vec<Vec<char>> = Vec::new();
    let mut cur: Vec<char> = Vec::new();
    let mut i: usize = 0;
    proof {
        assert(s@.skip(0) =~= s@);
        assert(acc@.map_values(|w: Vec<char>| w@) =~= Seq::<Seq<char>>::empty());
        assert(cur@ =~= Seq::<char>::empty());
    }
    while i < s.len()
        invariant
            i <= s@.len(),
            split_on(s@, c) == split_acc(s@.skip(i as int), c, cur@, acc@.map_values(|w: Vec<char>| w@)),
        decreases s@.len() - i,
    {
        proof {
            assert(s@.skip(i as int)[0] == s@[i as int]);
            assert(s@.skip(i as int).drop_first() =~= s@.skip(i as int + 1));
        }
        if s[i] == c {
            let ghost before = acc@;
            acc.push(cur);
            cur = Vec::new();
            proof {
                assert(acc@.map_values(|w: Vec<char>| w@) =~= before.map_values(|w: Vec<char>| w@).push(
                    acc@.last()@,
                ));
                assert(cur@ =~= Seq::<char>::empty());
            }
        } else {
            cur.push(s[i]);
        }
        i += 1;
    }
    proof {
        assert(s@.skip(i as int) =~= Seq::<char>::empty());
    }
    let ghost before = acc@;
    acc.push(cur);
    proof {
        assert(acc@.map_values(|w: Vec<char>| w@) =~= before.map_values(|w: Vec<char>| w@).push(acc@.last()@));
    }
    acc
}

/// Author name, author email and commit time of a commit header's fields (after the
/// leading `\u{1}`): the 2nd, 3rd and 4th `\u{1f}`-separated fields, empty when
/// missing; a time that does not parse as an `i64` counts as 0.
pub open spec fn header_fields(rest: Seq<char>) -> (Seq<char>, Seq<char>, i64) {
    let f = split_on(rest, '\u{1f}');
    let an = if f.len() > 1 { f[1] } else { Seq::empty() };
    let ae = if f.len() > 2 { f[2] } else { Seq::empty() };
    let time = if f.len() > 3 {
        match parse_i64_spec(f[3]) {
            Some(t) => t,
            None => 0,
        }
    } else {
        0
    };
    (an, ae, time)
}

/// The state of the scan.
pub struct ScanModel {
    pub ctx: Option<CommitModel>,
    pub cur_file: Option<Seq<char>>,
    pub cur_block: Seq<Seq<char>>,
    pub pool: Map<Seq<char>, Seq<(Seq<char>, i64)>>,
}

/// The state after ending the current run of added lines.
pub open spec fn flushed(s: ScanModel) -> ScanModel {
    ScanModel {
        ctx: flush_model(s.ctx, s.cur_file, s.cur_block),
        cur_file: s.cur_file,
        cur_block: Seq::empty(),
        pool: s.pool,
    }
}

/// The pool once the current commit is finished.
pub open spec fn closed_pool(s: ScanModel) -> Map<Seq<char>, Seq<(Seq<char>, i64)>> {
    match flush_model(s.ctx, s.cur_file, s.cur_block) {
        Some(c) => accumulate_model(s.pool, c),
        None => s.pool,
    }
}

/// One line of `git log -p` output, for developer `dev`:
/// - a commit header (`\u{1}` first) finishes the current commit into the pool and
///   opens a new one, attributed to `dev` when the author is no bot and resolves to
///   `dev`;
/// - `diff --git ` ends the run and forgets the file;
/// - `+++ ` ends the run and picks the new file when it passes the path filter;
/// - `@@` ends the run; any other `+++` line is ignored;
/// - `+` adds the rest of the line to the run, when a file is picked and the commit is
///   attributed;
/// - anything else (context, removed lines, ...) ends the run.
pub open spec fn step_model(
    s: ScanModel,
    dev: usize,
    line: Seq<char>,
    ids: IdentityMap,
    langs: Seq<Seq<char>>,
    exclude: Seq<Seq<char>>,
) -> ScanModel {
    if line.len() > 0 && line[0] == '\u{1}' {
        let (an, ae, time) = header_fields(line.skip(1));
        let theirs = !is_bot_spec(an, ae) && ids.resolve_spec(an, ae) == Some(dev);
        ScanModel {
            ctx: Some(CommitModel {
                dev: if theirs { Some(dev) } else { None },
                blocks: Seq::empty(),
                added: 0,
                time,
            }),
            cur_file: None,
            cur_block: Seq::empty(),
            pool: closed_pool(s),
        }
    } else if starts_with(line, "diff --git "@) {
        ScanModel { cur_file: None, ..flushed(s) }
    } else if starts_with(line, "+++ "@) {
        let f = match plus_path_spec(line) {
            Some(p) => if keep_file_spec(p, langs, exclude) {
                Some(p)
            } else {
                None
            },
            None => None,
        };
        ScanModel { cur_file: f, ..flushed(s) }
    } else if starts_with(line, "@@"@) {
        flushed(s)
    } else if starts_with(line, "+++"@) {
        s
    } else if starts_with(line, "+"@) {
        if s.cur_file is Some && (s.ctx matches Some(c) && c.dev is Some) {
            ScanModel { cur_block: s.cur_block.push(line.skip(1)), ..s }
        } else {
            s
        }
    } else {
        flushed(s)
    }
}

/// The scan of one developer's commits in one repository.
pub struct DevLogScan {
    pub dev: usize,
    pub ctx: Option<CommitCtx>,
    pub cur_file: Option<String>,
    pub cur_block: Vec<String>,
    pub pool: FilePool,
}

impl DevLogScan {
    pub open spec fn model(&self) -> ScanModel {
        ScanModel {
            ctx: ctx_model(self.ctx),
            cur_file: opt_view(self.cur_file),
            cur_block: string_views(self.cur_block@),
            pool: self.pool.view(),
        }
    }

    pub open spec fn wf(&self) -> bool {
        self.pool.wf()
    }

    /// A scan for developer `dev`, before the first line.
    pub fn new(dev: usize) -> (s: DevLogScan)
        ensures
            s.wf(),
            s.dev == dev,
            s.model() == (ScanModel {
                ctx: None,
                cur_file: None,
                cur_block: Seq::empty(),
                pool: Map::empty(),
            }),
    {
        let s = DevLogScan { dev, ctx: None, cur_file: None, cur_block: Vec::new(), pool: FilePool::new() };
        proof {
            assert(string_views(s.cur_block@) =~= Seq::<Seq<char>>::empty());
        }
        s
    }

    /// Feeds one line of the log (`langs`: lowercased allowed extensions; `exclude`:
    /// the repository's excluded path substrings).
    pub fn step(&mut self, line: &str, ids: &IdentityMap, langs: &[String], exclude: &[String])
        requires
            old(self).wf(),
        ensures
            final(self).wf(),
            final(self).dev == old(self).dev,
            final(self).model() == step_model(
                old(self).model(),
                old(self).dev,
                line@,
                *ids,
                string_views(langs@),
                string_views(exclude@),
            ),
    {
        let cs = chars_of(line);
        if cs.len() > 0 && cs[0] == '\u{1}' {
            flush_block(&mut self.ctx, &self.cur_file, &mut self.cur_block);
            match self.ctx.take() {
                Some(c) => accumulate_commit(c, &mut self.pool),
                None => {},
            }
            let rest = slice_chars(&cs, 1, cs.len());
            proof {
                assert(rest@ == line@.skip(1));
            }
            let f = split_on_char(&rest, '\u{1f}');
            let ghost fv = f@.map_values(|w: Vec<char>| w@);
            let an: Vec<char> = if f.len() > 1 { f[1].clone() } else { Vec::new() };
            let ae: Vec<char> = if f.len() > 2 { f[2].clone() } else { Vec::new() };
            let time: i64 = if f.len() > 3 {
                match parse_i64(f[3].as_slice()) {
                    Some(t) => t,
                    None => 0,
                }
            } else {
                0
            };
            proof {
                if f@.len() > 1 { assert(fv[1] == f@[1]@); }
                if f@.len() > 2 { assert(fv[2] == f@[2]@); }
                if f@.len() > 3 { assert(fv[3] == f@[3]@); }
                assert(an@ == header_fields(line@.skip(1)).0);
                assert(ae@ == header_fields(line@.skip(1)).1);
                assert(time == header_fields(line@.skip(1)).2);
            }
            let ans = string_of(&an);
            let aes = string_of(&ae);
            let theirs = !is_bot(ans.as_str(), aes.as_str()) && ids.resolve(ans.as_str(), aes.as_str()) == Some(self.dev);
            let d: Option<usize> = if theirs { Some(self.dev) } else { None };
            self.ctx = Some(CommitCtx { dev: d, blocks: Vec::new(), added: 0, time });
            self.cur_file = None;
            self.cur_block = Vec::new();
            proof {
                assert(crate::commits::blocks_view(Seq::<(String, Vec<String>)>::empty()) =~= Seq::<(Seq<char>, Seq<Seq<char>>)>::empty());
                assert(string_views(self.cur_block@) =~= Seq::<Seq<char>>::empty());
            }
            return;
        }
        if starts_with_chars(&cs, &chars_of("diff --git ")) {
            flush_block(&mut self.ctx, &self.cur_file, &mut self.cur_block);
            self.cur_file = None;
            proof {
                assert(string_views(self.cur_block@) =~= Seq::<Seq<char>>::empty());
            }
        } else if starts_with_chars(&cs, &chars_of("+++ ")) {
            flush_block(&mut self.ctx, &self.cur_file, &mut self.cur_block);
            let f: Option<String> = match plus_path(line) {
                Some(p) => if keep_file(p.as_str(), langs, exclude) {
                    Some(p)
                } else {
                    None
                },
                None => None,
            };
            self.cur_file = f;
            proof {
                assert(string_views(self.cur_block@) =~= Seq::<Seq<char>>::empty());
            }
        } else if starts_with_chars(&cs, &chars_of("@@")) {
            flush_block(&mut self.ctx, &self.cur_file, &mut self.cur_block);
            proof {
                assert(string_views(self.cur_block@) =~= Seq::<Seq<char>>::empty());
            }
        } else if starts_with_chars(&cs, &chars_of("+++")) {
        } else if starts_with_chars(&cs, &chars_of("+")) {
            let has_dev = match &self.ctx {
                Some(c) => c.dev.is_some(),
                None => false,
            };
            if self.cur_file.is_some() && has_dev {
                proof {
                    reveal_strlit("+");
                }
                let added = string_of(&slice_chars(&cs, 1, cs.len()));
                let ghost before = self.cur_block@;
                self.cur_block.push(added);
                proof {
                    assert(string_views(self.cur_block@) =~= string_views(before).push(line@.skip(1)));
                }
            }
        } else {
            flush_block(&mut self.ctx, &self.cur_file, &mut self.cur_block);
            proof {
                assert(string_views(self.cur_block@) =~= Seq::<Seq<char>>::empty());
            }
        }
    }

    /// Finishes the last commit and hands over the pool.
    pub fn finish(self) -> (p: FilePool)
        requires
            self.wf(),
        ensures
            p.wf(),
            p.view() == closed_pool(self.model()),
    {
        let mut s = self;
        flush_block(&mut s.ctx, &s.cur_file, &mut s.cur_block);
        match s.ctx.take() {
            Some(c) => accumulate_commit(c, &mut s.pool),
            None => {},
        }
        s.pool
    }
}

/// Inside a commit that is not attributed to the developer, no line but the next
/// commit header changes the pool, the commit buffer or the run of added lines.
pub proof fn lemma_foreign_commit_lines_ignored(
    s: ScanModel,
    dev: usize,
    line: Seq<char>,
    ids: IdentityMap,
    langs: Seq<Seq<char>>,
    exclude: Seq<Seq<char>>,
)
    requires
        s.ctx matches Some(c) && c.dev is None,
        s.cur_block.len() == 0,
        !(line.len() > 0 && line[0] == '\u{1}'),
    ensures
        step_model(s, dev, line, ids, langs, exclude).pool == s.pool,
        step_model(s, dev, line, ids, langs, exclude).ctx == s.ctx,
        step_model(s, dev, line, ids, langs, exclude).cur_block.len() == 0,
{
}

/// A line of a hunk that is neither added nor a header of any kind: context (` `) or
/// removed (`-`).
pub open spec fn is_plain_hunk_line(line: Seq<char>) -> bool {
    line.len() > 0 && (line[0] == ' ' || line[0] == '-')
}

proof fn lemma_plain_hunk_line_prefixes(line: Seq<char>)
    requires
        is_plain_hunk_line(line),
    ensures
        !(line.len() > 0 && line[0] == '\u{1}'),
        !starts_with(line, "diff --git "@),
        !starts_with(line, "+++ "@),
        !starts_with(line, "@@"@),
        !starts_with(line, "+++"@),
        !starts_with(line, "+"@),
{
    reveal_strlit("diff --git ");
    reveal_strlit("+++ ");
    reveal_strlit("@@");
    reveal_strlit("+++");
    reveal_strlit("+");
    if starts_with(line, "diff --git "@) {
        assert(line.subrange(0, 11)[0] == line[0]);
    }
    if starts_with(line, "+++ "@) {
        assert(line.subrange(0, 4)[0] == line[0]);
    }
    if starts_with(line, "@@"@) {
        assert(line.subrange(0, 2)[0] == line[0]);
    }
    if starts_with(line, "+++"@) {
        assert(line.subrange(0, 3)[0] == line[0]);
    }
    if starts_with(line, "+"@) {
        assert(line.subrange(0, 1)[0] == line[0]);
    }
}

/// A commit header pools the run of added lines that it interrupts: the pool after a
/// header is the same whether the commit's last run was ended by a context or removed
/// line first, or directly by the header.
pub proof fn law_header_keeps_open_run(
    s: ScanModel,
    dev: usize,
    plain: Seq<char>,
    header: Seq<char>,
    ids: IdentityMap,
    langs: Seq<Seq<char>>,
    exclude: Seq<Seq<char>>,
)
    requires
        is_plain_hunk_line(plain),
        header.len() > 0 && header[0] == '\u{1}',
    ensures
        step_model(step_model(s, dev, plain, ids, langs, exclude), dev, header, ids, langs, exclude).pool
            == step_model(s, dev, header, ids, langs, exclude).pool,
{
    lemma_plain_hunk_line_prefixes(plain);
    assert(step_model(s, dev, plain, ids, langs, exclude) == flushed(s));
}

/// A commit header pools exactly what finishing the scan at that point hands over.
pub proof fn law_header_pools_as_finish(
    s: ScanModel,
    dev: usize,
    header: Seq<char>,
    ids: IdentityMap,
    langs: Seq<Seq<char>>,
    exclude: Seq<Seq<char>>,
)
    requires
        header.len() > 0 && header[0] == '\u{1}',
    ensures
        step_model(s, dev, header, ids, langs, exclude).pool == closed_pool(s),
{
}

/// When a commit header arrives inside a run of added lines of a tracked file in an
/// attributed commit that stays within `MAX_COMMIT_LINES`, the lines of the run, tagged
/// with the commit's time, are the last lines pooled for that file afterwards.
pub proof fn law_header_pools_open_run(
    s: ScanModel,
    dev: usize,
    header: Seq<char>,
    ids: IdentityMap,
    langs: Seq<Seq<char>>,
    exclude: Seq<Seq<char>>,
)
    requires
        header.len() > 0 && header[0] == '\u{1}',
        s.ctx matches Some(c) && c.dev is Some && c.added + s.cur_block.len() <= MAX_COMMIT_LINES,
        s.cur_file is Some,
        s.cur_block.len() > 0,
    ensures
        ({
            let p = pooled(step_model(s, dev, header, ids, langs, exclude).pool, s.cur_file->0);
            let n = s.cur_block.len();
            &&& p.len() >= n
            &&& p.skip(p.len() - n) == s.cur_block.map_values(|l: Seq<char>| (l, s.ctx->0.time))
        }),
{
    let c = s.ctx->0;
    let f = s.cur_file->0;
    let b = s.cur_block;
    let c1 = flush_model(s.ctx, s.cur_file, b)->0;
    assert(c1.blocks == c.blocks.push((f, b)));
    assert(c1.added == c.added + b.len());
    let m1 = pool_after(s.pool, c.blocks, c.time);
    assert(c1.blocks.drop_last() =~= c.blocks);
    assert(closed_pool(s) == pool_after(s.pool, c1.blocks, c.time));
    let p = pooled(closed_pool(s), f);
    assert(p == pooled(m1, f) + b.map_values(|l: Seq<char>| (l, c.time)));
    assert(p.skip(p.len() - b.len()) =~= b.map_values(|l: Seq<char>| (l, c.time)));
}

} // verus!
