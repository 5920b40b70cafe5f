//! Attribution of added code lines: per-commit buffers of added lines grouped by file,
//! and the per-file pool of one coder's lines (with their authored times) that later
//! becomes passages.

use vstd::prelude::*;

use crate::lex::{chars_eq, lemma_lex_total, lemma_lex_trans, lex_less, lex_lt, strictly_sorted, views};
use crate::scrub::string_views;

verus! {

broadcast use vstd::string::group_string_axioms;

/// Commits that add more lines than this are imports or generated dumps and are skipped.
pub const MAX_COMMIT_LINES: usize = 6000;

/// Per-commit buffer of added lines grouped by file, with the resolved author and the
/// commit time.
pub struct CommitCtx {
    /// The roster developer this commit is attributed to (none: not theirs).
    pub dev: Option<usize>,
    /// Runs of added lines, each with the file it was added to.
    pub blocks: Vec<(String, Vec<String>)>,
    /// Number of added lines buffered so far.
    pub added: usize,
    /// Commit time (Unix seconds).
    pub time: i64,
}

/// The model of a commit buffer.
pub struct CommitModel {
    pub dev: Option<usize>,
    pub blocks: Seq<(Seq<char>, Seq<Seq<char>>)>,
    pub added: usize,
    pub time: i64,
}

/// The views of a list of (file, lines) blocks.
pub open spec fn blocks_view(b: Seq<(String, Vec<String>)>) -> Seq<(Seq<char>, Seq<Seq<char>>)> {
    b.map_values(|x: (String, Vec<String>)| (x.0@, string_views(x.1@)))
}

impl CommitCtx {
    pub open spec fn model(&self) -> CommitModel {
        CommitModel { dev: self.dev, blocks: blocks_view(self.blocks@), added: self.added, time: self.time }
    }
}

/// The model of an optional commit buffer.
pub open spec fn ctx_model(c: Option<CommitCtx>) -> Option<CommitModel> {
    match c {
        Some(x) => Some(x.model()),
        None => None,
    }
}

/// The model of an optional string.
pub open spec fn opt_view(s: Option<String>) -> Option<Seq<char>> {
    match s {
        Some(x) => Some(x@),
        None => None,
    }
}

/// `a + b`, capped at `usize::MAX`.
pub open spec fn sat_add(a: usize, b: int) -> usize {
    if a + b > usize::MAX {
        usize::MAX
    } else {
        (a + b) as usize
    }
}

/// What ending the current run of added lines does to the commit buffer: a non-empty
/// run in a tracked file of an attributed commit becomes a block of that commit.
pub open spec fn flush_model(ctx: Option<CommitModel>, file: Option<Seq<char>>, block: Seq<Seq<char>>) -> Option<CommitModel> {
    if block.len() == 0 {
        ctx
    } else {
        match (ctx, file) {
            (Some(c), Some(f)) => if c.dev is Some {
                Some(CommitModel {
                    dev: c.dev,
                    blocks: c.blocks.push((f, block)),
                    added: sat_add(c.added, block.len() as int),
                    time: c.time,
                })
            } else {
                ctx
            },
            _ => ctx,
        }
    }
}

/// Ends the current run of added lines: the run is moved into the commit buffer when
/// the commit is attributed and the file is tracked, and dropped otherwise.
pub fn flush_block(ctx: &mut Option<CommitCtx>, cur_file: &Option<String>, cur_block: &mut Vec<String>)
    ensures
        ctx_model(*final(ctx)) == flush_model(ctx_model(*old(ctx)), opt_view(*cur_file), string_views(old(cur_block)@)),
        final(cur_block)@.len() == 0,
{
    if cur_block.len() == 0 {
        return;
    }
    let mut block: Vec<String> = Vec::new();
    block.append(cur_block);
    assert(block@ == old(cur_block)@);
    match ctx {
        Some(c) => match cur_file {
            Some(f) => {
                if c.dev.is_some() {
                    let n = block.len();
                    c.added = c.added.saturating_add(n);
                    let ghost before = c.blocks@;
                    c.blocks.push((f.clone(), block));
                    proof {
                        assert(blocks_view(c.blocks@) =~= blocks_view(before).push((f@, string_views(old(cur_block)@))));
                    }
                }
            },
            None => {},
        },
        None => {},
    }
}

/// A per-file pool of one coder's added lines with their authored times, files kept in
/// sorted order without repeats.
pub struct FilePool {
    pub files: Vec<Vec<char>>,
    pub lines: Vec<Vec<(String, i64)>>,
}

/// The view of a list of (line, time) pairs.
pub open spec fn timed_view(v: Seq<(String, i64)>) -> Seq<(Seq<char>, i64)> {
    v.map_values(|p: (String, i64)| (p.0@, p.1))
}

/// The lines already pooled for `file` (none when it has no entry).
pub open spec fn pooled(m: Map<Seq<char>, Seq<(Seq<char>, i64)>>, file: Seq<char>) -> Seq<(Seq<char>, i64)> {
    if m.dom().contains(file) {
        m[file]
    } else {
        Seq::empty()
    }
}

impl FilePool {
    /// Parallel vectors, files strictly sorted.
    pub open spec fn wf(&self) -> bool {
        &&& self.files@.len() == self.lines@.len()
        &&& strictly_sorted(views(self.files@))
    }

    /// Position of `file` in the file list.
    pub open spec fn index_of(&self, file: Seq<char>) -> int {
        choose|i: int| 0 <= i < self.files@.len() && self.files@[i]@ == file
    }

    /// The pool as a map from file to its pooled lines.
    pub open spec fn view(&self) -> Map<Seq<char>, Seq<(Seq<char>, i64)>> {
        Map::new(
            |f: Seq<char>| views(self.files@).contains(f),
            |f: Seq<char>| timed_view(self.lines@[self.index_of(f)]@),
        )
    }

    /// The empty pool.
    pub fn new() -> (p: FilePool)
        ensures
            p.wf(),
            p.view() == Map::<Seq<char>, Seq<(Seq<char>, i64)>>::empty(),
    {
        let p = FilePool { files: Vec::new(), lines: Vec::new() };
        proof {
            assert(p.view() =~= Map::<Seq<char>, Seq<(Seq<char>, i64)>>::empty());
        }
        p
    }

    /// Appends `new` to the lines pooled for `file`, opening an entry in sorted position
    /// when the file is new.
    pub fn add(&mut self, file: Vec<char>, new: Vec<(String, i64)>)
        requires
            old(self).wf(),
        ensures
            final(self).wf(),
            final(self).view() == old(self).view().insert(file@, pooled(old(self).view(), file@) + timed_view(new@)),
    {
        let ghost fv = views(self.files@);
        let ghost m0 = self.view();
        let mut new = new;
        let ghost nw0 = timed_view(new@);
        let mut i: usize = 0;
        while i < self.files.len()
            invariant
                i <= self.files@.len(),
                self.files@ == old(self).files@,
                self.lines@ == old(self).lines@,
                fv == views(self.files@),
                strictly_sorted(fv),
                forall|j: int| 0 <= j < i ==> lex_lt(#[trigger] fv[j], file@),
            ensures
                i <= self.files@.len(),
                self.files@ == old(self).files@,
                self.lines@ == old(self).lines@,
                forall|j: int| 0 <= j < i ==> lex_lt(#[trigger] fv[j], file@),
                i < self.files@.len() ==> !lex_lt(fv[i as int], file@),
            decreases self.files@.len() - i,
        {
            if !lex_less(self.files[i].as_slice(), file.as_slice()) {
                break;
            }
            i += 1;
        }
        if i < self.files.len() && chars_eq(self.files[i].as_slice(), file.as_slice()) {
            let ghost old_entry = self.lines@[i as int]@;
            proof {
                assert(fv[i as int] == file@);
                assert(self.index_of(file@) == i) by {
                    let k = self.index_of(file@);
                    assert(fv.contains(file@)) by {
                        assert(fv[i as int] == file@);
                    }
                    assert(0 <= k < fv.len() && fv[k] == file@);
                    if k < i {
                        lemma_lex_irrefl_via(fv, k, i as int);
                    } else if k > i {
                        lemma_lex_irrefl_via(fv, i as int, k);
                    }
                }
            }
            self.lines[i].append(&mut new);
            proof {
                assert(self.files@ == old(self).files@);
                assert forall|j: int| 0 <= j < self.lines@.len() && j != i implies self.lines@[j] == old(self).lines@[j] by {}
                let m1 = self.view();
                assert(m1 =~= m0.insert(file@, pooled(m0, file@) + nw0)) by {
                    assert(m0.dom().contains(file@));
                    assert(pooled(m0, file@) == timed_view(old_entry));
                    assert(timed_view(self.lines@[i as int]@) =~= timed_view(old_entry) + nw0);
                    assert forall|f: Seq<char>| #[trigger] m1.dom().contains(f) implies m1[f] == m0.insert(file@, pooled(m0, file@) + nw0)[f] by {
                        if f != file@ {
                            let k = self.index_of(f);
                            assert(k != i);
                        }
                    }
                }
            }
        } else {
            proof {
                if i < self.files@.len() {
                    lemma_lex_total(fv[i as int], file@);
                    assert(fv[i as int] != file@);
                    assert(lex_lt(file@, fv[i as int]));
                }
                assert forall|j: int| i <= j < fv.len() implies lex_lt(file@, #[trigger] fv[j]) by {
                    if j > i {
                        lemma_lex_trans(file@, fv[i as int], fv[j]);
                    }
                }
                assert(!fv.contains(file@)) by {
                    if fv.contains(file@) {
                        let k = choose|k: int| 0 <= k < fv.len() && fv[k] == file@;
                        if k < i {
                            crate::lex::lemma_lex_irrefl(file@);
                        } else {
                            crate::lex::lemma_lex_irrefl(file@);
                        }
                    }
                }
            }
            let ghost fw = file@;
            let ghost nw = timed_view(new@);
            self.files.insert(i, file);
            self.lines.insert(i, new);
            proof {
                let nv = views(self.files@);
                assert(nv =~= fv.insert(i as int, fw));
                assert forall|a: int, b: int| 0 <= a < b < nv.len() implies lex_lt(#[trigger] nv[a], #[trigger] nv[b]) by {
                    if b == i {
                    } else if a == i {
                        assert(nv[b] == fv[b - 1]);
                    } else if a < i && b > i {
                        assert(nv[b] == fv[b - 1]);
                        lemma_lex_trans(fv[a], fw, nv[b]);
                    } else if a > i {
                        assert(nv[a] == fv[a - 1]);
                        assert(nv[b] == fv[b - 1]);
                    }
                }
                let m1 = self.view();
                assert(pooled(m0, fw) =~= Seq::<(Seq<char>, i64)>::empty());
                assert(m1 =~= m0.insert(fw, pooled(m0, fw) + nw)) by {
                    assert forall|f: Seq<char>| m1.dom().contains(f) <==> m0.insert(fw, pooled(m0, fw) + nw).dom().contains(f) by {
                        if nv.contains(f) {
                            let k = choose|k: int| 0 <= k < nv.len() && nv[k] == f;
                            if k < i {
                                assert(fv[k] == f);
                            } else if k > i {
                                assert(fv[k - 1] == f);
                            }
                        }
                        if fv.contains(f) {
                            let k = choose|k: int| 0 <= k < fv.len() && fv[k] == f;
                            if k < i {
                                assert(nv[k] == f);
                            } else {
                                assert(nv[k + 1] == f);
                            }
                        }
                        if f == fw {
                            assert(nv[i as int] == f);
                        }
                    }
                    assert forall|f: Seq<char>| #[trigger] m1.dom().contains(f) implies m1[f] == m0.insert(fw, pooled(m0, fw) + nw)[f] by {
                        let k = self.index_of(f);
                        assert(0 <= k < nv.len() && nv[k] == f);
                        if f == fw {
                            if k != i {
                                if k < i {
                                    lemma_lex_irrefl_via(nv, k, i as int);
                                } else {
                                    lemma_lex_irrefl_via(nv, i as int, k);
                                }
                            }
                        } else {
                            let k0 = old(self).index_of(f);
                            assert(fv.contains(f)) by {
                                if k < i {
                                    assert(fv[k] == f);
                                } else {
                                    assert(k != i);
                                    assert(fv[k - 1] == f);
                                }
                            }
                            assert(0 <= k0 < fv.len() && fv[k0] == f);
                            if k < i {
                                assert(fv[k] == f);
                                if k0 != k {
                                    if k0 < k { lemma_lex_irrefl_via(fv, k0, k); } else { lemma_lex_irrefl_via(fv, k, k0); }
                                }
                                assert(self.lines@[k] == old(self).lines@[k0]);
                            } else {
                                assert(fv[k - 1] == f);
                                if k0 != k - 1 {
                                    if k0 < k - 1 { lemma_lex_irrefl_via(fv, k0, k - 1); } else { lemma_lex_irrefl_via(fv, k - 1, k0); }
                                }
                                assert(self.lines@[k] == old(self).lines@[k0]);
                            }
                        }
                    }
                }
            }
        }
    }
}

/// In a strictly sorted list, two different positions hold different strings.
proof fn lemma_lex_irrefl_via(s: Seq<Seq<char>>, a: int, b: int)
    requires
        strictly_sorted(s),
        0 <= a < b < s.len(),
    ensures
        s[a] != s[b],
{
    assert(lex_lt(s[a], s[b]));
    if s[a] == s[b] {
        crate::lex::lemma_lex_irrefl(s[a]);
    }
}


/// The pool after adding each block's lines, tagged with `time`, in block order.
pub open spec fn pool_after(
    m: Map<Seq<char>, Seq<(Seq<char>, i64)>>,
    blocks: Seq<(Seq<char>, Seq<Seq<char>>)>,
    time: i64,
) -> Map<Seq<char>, Seq<(Seq<char>, i64)>>
    decreases blocks.len(),
{
    if blocks.len() == 0 {
        m
    } else {
        let m1 = pool_after(m, blocks.drop_last(), time);
        let b = blocks.last();
        m1.insert(b.0, pooled(m1, b.0) + b.1.map_values(|l: Seq<char>| (l, time)))
    }
}

/// A finished commit's contribution to the pool: nothing when it is not attributed,
/// adds no line, or adds more than `MAX_COMMIT_LINES`; else all its blocks.
pub open spec fn accumulate_model(m: Map<Seq<char>, Seq<(Seq<char>, i64)>>, c: CommitModel) -> Map<
    Seq<char>,
    Seq<(Seq<char>, i64)>,
> {
    if c.dev is None || c.added == 0 || c.added > MAX_COMMIT_LINES {
        m
    } else {
        pool_after(m, c.blocks, c.time)
    }
}

/// The lines of `lines`, each paired with `time`.
fn tag_lines(lines: &Vec<String>, time: i64) -> (r: Vec<(String, i64)>)
    ensures
        timed_view(r@) == string_views(lines@).map_values(|l: Seq<char>| (l, time)),
{
    let mut r: Vec<(String, i64)> = Vec::new();
    let mut k: usize = 0;
    while k < lines.len()
        invariant
            k <= lines@.len(),
            timed_view(r@) == string_views(lines@).take(k as int).map_values(|l: Seq<char>| (l, time)),
        decreases lines@.len() - k,
    {
        let ghost before = r@;
        r.push((lines[k].clone(), time));
        proof {
            assert(timed_view(r@) =~= timed_view(before).push((lines@[k as int]@, time)));
            assert(string_views(lines@).take(k as int + 1) =~= string_views(lines@).take(k as int).push(
                lines@[k as int]@,
            ));
            assert(timed_view(r@) =~= string_views(lines@).take(k as int + 1).map_values(
                |l: Seq<char>| (l, time),
            ));
        }
        k += 1;
    }
    proof {
        assert(string_views(lines@).take(k as int) =~= string_views(lines@));
    }
    r
}

/// A finished commit contributes its added lines, tagged with its time, to the per-file
/// pool, unless it is not attributed, adds nothing, or is an oversized dump.
pub fn accumulate_commit(ctx: CommitCtx, pool: &mut FilePool)
    requires
        old(pool).wf(),
    ensures
        final(pool).wf(),
        final(pool).view() == accumulate_model(old(pool).view(), ctx.model()),
{
    if ctx.dev.is_none() {
        return;
    }
    if ctx.added == 0 || ctx.added > MAX_COMMIT_LINES {
        return;
    }
    let ghost bv = blocks_view(ctx.blocks@);
    let mut i: usize = 0;
    while i < ctx.blocks.len()
        invariant
            i <= ctx.blocks@.len(),
            bv == blocks_view(ctx.blocks@),
            pool.wf(),
            pool.view() == pool_after(old(pool).view(), bv.take(i as int), ctx.time),
        decreases ctx.blocks@.len() - i,
    {
        let file = crate::text::chars_of(ctx.blocks[i].0.as_str());
        let tagged = tag_lines(&ctx.blocks[i].1, ctx.time);
        pool.add(file, tagged);
        proof {
            assert(bv.take(i as int + 1).drop_last() =~= bv.take(i as int));
            assert(bv.take(i as int + 1).last() == bv[i as int]);
        }
        i += 1;
    }
    proof {
        assert(bv.take(i as int) =~= bv);
    }
}

/// Pooling only appends: whatever a file had pooled stays, in order, at the front.
pub proof fn lemma_pool_extends(
    m: Map<Seq<char>, Seq<(Seq<char>, i64)>>,
    blocks: Seq<(Seq<char>, Seq<Seq<char>>)>,
    time: i64,
    f: Seq<char>,
)
    ensures
        pooled(pool_after(m, blocks, time), f).len() >= pooled(m, f).len(),
        pooled(pool_after(m, blocks, time), f).take(pooled(m, f).len() as int) == pooled(m, f),
    decreases blocks.len(),
{
    if blocks.len() > 0 {
        lemma_pool_extends(m, blocks.drop_last(), time, f);
        let m1 = pool_after(m, blocks.drop_last(), time);
        let p0 = pooled(m, f);
        let p1 = pooled(m1, f);
        let b = blocks.last();
        if b.0 == f {
            let p2 = pooled(pool_after(m, blocks, time), f);
            assert(p2 == p1 + b.1.map_values(|l: Seq<char>| (l, time)));
            assert(p2.take(p0.len() as int) =~= p1.take(p0.len() as int));
        }
    }
}

} // verus!
