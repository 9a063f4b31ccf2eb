//! How the chapters of a batch are divided into shards, and what a shard is told of itself and of
//! the chapters next to it.
use vstd::prelude::*;
use vstd::arithmetic::div_mod::lemma_fundamental_div_mod;
use vstd::slice::slice_subrange;
use crate::domain::{
    duplicate_all, opt_text, Chapter, ChapterView, Duplicate, ParsedChapterRewrite,
    ParsedChapterRewriteView, StagedChapterOutput, StagedChapterOutputView,
};
use crate::excerpt::{head, tail, truncate_text, truncate_text_tail};
use crate::text::{
    blank, decimal, holds_text, i64_text, is_blank, join, join_texts, lemma_views_push, same_text,
    trim, trimmed, usize_text, views,
};

verus! {

// ---- dividing into equal parts --------------------------------------------------------------
/// Where the `i`-th of `parts` parts begins: the first parts are the longer ones.
pub open spec fn part_start(len: int, parts: int, i: int) -> int {
    i * (len / parts) + (if i < len % parts {
        i
    } else {
        len % parts
    })
}

/// The `i`-th of `parts` parts.
pub open spec fn even_part<T>(s: Seq<T>, parts: int, i: int) -> Seq<T> {
    s.subrange(part_start(s.len() as int, parts, i), part_start(s.len() as int, parts, i + 1))
}

/// The sequence cut into at most `parallelism` parts, none of them empty.
pub open spec fn split_evenly<T>(s: Seq<T>, parallelism: int) -> Seq<Seq<T>> {
    let parts = if parallelism < s.len() {
        parallelism
    } else {
        s.len() as int
    };
    if s.len() == 0 {
        Seq::empty()
    } else if parts <= 1 {
        seq![s]
    } else {
        Seq::new(parts as nat, |i: int| even_part(s, parts, i))
    }
}

/// Lists of lists by the views of their elements.
pub open spec fn shard_views(s: Seq<Vec<Chapter>>) -> Seq<Seq<ChapterView>> {
    Seq::new(s.len(), |i: int| views(s[i]@))
}

proof fn lemma_part_start(len: int, parts: int, i: int)
    requires
        0 < parts <= len,
        0 <= i < parts,
    ensures
        part_start(len, parts, 0) == 0,
        part_start(len, parts, parts) == len,
        part_start(len, parts, i + 1) == part_start(len, parts, i) + len / parts + (if i < len
            % parts {
            1int
        } else {
            0int
        }),
        0 <= part_start(len, parts, i) < part_start(len, parts, i + 1) <= len,
        len / parts >= 1,
{
    let base = len / parts;
    let rest = len % parts;
    lemma_fundamental_div_mod(len, parts);
    assert((i + 1) * base == i * base + base) by (nonlinear_arith);
    assert(base >= 1) by (nonlinear_arith)
        requires
            len == parts * base + rest,
            0 <= rest < parts,
            parts <= len,
    ;
    assert(0 * base == 0) by (nonlinear_arith);
    assert(parts * base + rest == len);
    assert(0 <= i * base) by (nonlinear_arith)
        requires
            0 <= i,
            1 <= base,
    ;
    assert((i + 1) * base + rest <= parts * base + rest) by (nonlinear_arith)
        requires
            i + 1 <= parts,
            1 <= base,
    ;
}

/// Divides the chapters into as many shards as requests may run side by side, or fewer where
/// there are fewer chapters.
pub fn split_chapters_for_parallelism(chapters: &[Chapter], rewrite_parallelism: usize) -> (r: Vec<
    Vec<Chapter>,
>)
    ensures
        shard_views(r@) == split_evenly(views(chapters@), rewrite_parallelism as int),
{
    let mut shards: Vec<Vec<Chapter>> = Vec::new();
    let ghost all = views(chapters@);
    if chapters.len() == 0 {
        proof {
            assert(shard_views(shards@) =~= split_evenly(all, rewrite_parallelism as int));
        }
        return shards;
    }
    let parallelism: usize = if rewrite_parallelism < chapters.len() {
        rewrite_parallelism
    } else {
        chapters.len()
    };
    if parallelism <= 1 {
        shards.push(duplicate_all(chapters));
        proof {
            assert(shard_views(shards@) =~= seq![all]);
        }
        return shards;
    }
    let base_size = chapters.len() / parallelism;
    let remainder = chapters.len() % parallelism;
    let ghost len = chapters@.len() as int;
    let mut start: usize = 0;
    let mut i: usize = 0;
    proof {
        lemma_part_start(len, parallelism as int, 0);
    }
    while i < parallelism
        invariant
            i <= parallelism,
            1 < parallelism <= len == chapters@.len(),
            base_size == len / (parallelism as int),
            remainder == len % (parallelism as int),
            all == views(chapters@),
            start == part_start(len, parallelism as int, i as int),
            start <= len,
            shard_views(shards@) == Seq::new(
                i as nat,
                |k: int| even_part(all, parallelism as int, k),
            ),
        decreases parallelism - i,
    {
        proof {
            lemma_part_start(len, parallelism as int, i as int);
        }
        let total = chapters.len();
        let extra: usize = if i < remainder {
            1
        } else {
            0
        };
        let end = start + base_size + extra;
        let ghost before = shards@;
        shards.push(duplicate_all(slice_subrange(chapters, start, end)));
        proof {
            assert(views(chapters@.subrange(start as int, end as int)) =~= all.subrange(
                start as int,
                end as int,
            ));
            assert(shard_views(before).len() == i);
            assert(shards@.len() == i + 1);
            assert(shards@ == before.push(shards@[i as int]));
            assert forall|k: int| 0 <= k < i + 1 implies (#[trigger] shard_views(shards@)[k])
                == even_part(all, parallelism as int, k) by {
                if k < i {
                    assert(shard_views(before)[k] == even_part(all, parallelism as int, k));
                }
            }
            assert(shard_views(shards@) =~= Seq::new(
                (i + 1) as nat,
                |k: int| even_part(all, parallelism as int, k),
            ));
        }
        start = end;
        i += 1;
    }
    shards
}

// ---- dividing what is left to do ------------------------------------------------------------
/// The ids of chapters.
pub open spec fn ids_of(chapters: Seq<ChapterView>) -> Seq<Seq<char>> {
    Seq::new(chapters.len(), |i: int| chapters[i].id)
}

/// A shard together with the chapters right before and behind it.
pub struct ChapterShardWork {
    pub chapters: Vec<Chapter>,
    pub previous: Option<Chapter>,
    pub next: Option<Chapter>,
}

#[verifier::ext_equal]
pub struct ChapterShardWorkView {
    pub chapters: Seq<ChapterView>,
    pub previous: Option<ChapterView>,
    pub next: Option<ChapterView>,
}

pub open spec fn opt_chapter(o: Option<Chapter>) -> Option<ChapterView> {
    match o {
        Some(c) => Some(c@),
        None => None,
    }
}

impl View for ChapterShardWork {
    type V = ChapterShardWorkView;

    open spec fn view(&self) -> ChapterShardWorkView {
        ChapterShardWorkView {
            chapters: views(self.chapters@),
            previous: opt_chapter(self.previous),
            next: opt_chapter(self.next),
        }
    }
}

/// The end of the run of wanted chapters that begins at `pos`, at `limit` at the latest.
pub open spec fn chunk_end(
    all: Seq<ChapterView>,
    wanted: Seq<Seq<char>>,
    pos: int,
    limit: int,
) -> int
    decreases limit - pos,
{
    if 0 <= pos < all.len() && pos < limit && wanted.contains(all[pos].id) {
        chunk_end(all, wanted, pos + 1, limit)
    } else {
        pos
    }
}

/// The chapters from `from` to `to` with their neighbours.
pub open spec fn work_between(all: Seq<ChapterView>, from: int, to: int) -> ChapterShardWorkView {
    ChapterShardWorkView {
        chapters: all.subrange(from, to),
        previous: if from > 0 {
            Some(all[from - 1])
        } else {
            None
        },
        next: if to < all.len() {
            Some(all[to])
        } else {
            None
        },
    }
}

/// The wanted chapters from `pos` on, in runs without a gap of at most `size` chapters.
pub open spec fn runs_from(
    all: Seq<ChapterView>,
    wanted: Seq<Seq<char>>,
    size: int,
    pos: int,
) -> Seq<ChapterShardWorkView>
    decreases all.len() - pos,
{
    if pos < 0 || pos >= all.len() || size <= 0 {
        Seq::empty()
    } else if !wanted.contains(all[pos].id) {
        runs_from(all, wanted, size, pos + 1)
    } else {
        let end = chunk_end(all, wanted, pos, pos + size);
        if end <= pos || end > all.len() {
            Seq::empty()
        } else {
            seq![work_between(all, pos, end)] + runs_from(all, wanted, size, end)
        }
    }
}

/// Whether the targets are the whole batch: as many different ids as chapters, and every
/// chapter among them.
pub open spec fn covers_all(all: Seq<ChapterView>, wanted: Seq<Seq<char>>) -> bool {
    wanted.to_set().len() == all.len() && forall|i: int|
        0 <= i < all.len() ==> wanted.contains((#[trigger] all[i]).id)
}

/// The length of a full shard.
pub open spec fn shard_size(len: int, parallelism: int) -> int {
    let parts = if parallelism > 1 {
        parallelism
    } else {
        1
    };
    let size = (len + parts - 1) / parts;
    if size > 1 {
        size
    } else {
        1
    }
}

/// The shards of the chapters that are left to do. The whole batch is divided evenly; a part of
/// it is divided so that no shard reaches over a chapter that is done.
pub open spec fn shard_work(
    all: Seq<ChapterView>,
    targets: Seq<ChapterView>,
    parallelism: int,
) -> Seq<ChapterShardWorkView> {
    let wanted = ids_of(targets);
    if targets.len() == 0 {
        Seq::empty()
    } else if covers_all(all, wanted) {
        let parts = split_evenly(all, parallelism);
        Seq::new(
            parts.len(),
            |i: int|
                ChapterShardWorkView { chapters: parts[i], previous: None, next: None },
        )
    } else {
        runs_from(all, wanted, shard_size(all.len() as int, parallelism), 0)
    }
}

/// The different ids of chapters, each once.
fn distinct_ids(chapters: &[Chapter]) -> (r: Vec<String>)
    ensures
        views(r@).no_duplicates(),
        forall|id: Seq<char>|
            views(r@).contains(id) <==> #[trigger] ids_of(views(chapters@)).contains(id),
        r@.len() == ids_of(views(chapters@)).to_set().len(),
{
    let ghost all = ids_of(views(chapters@));
    let mut out: Vec<String> = Vec::new();
    let mut i: usize = 0;
    while i < chapters.len()
        invariant
            i <= chapters@.len(),
            all == ids_of(views(chapters@)),
            views(out@).no_duplicates(),
            forall|k: int| 0 <= k < i ==> views(out@).contains(#[trigger] all[k]),
            forall|k: int| 0 <= k < out@.len() ==> all.contains(#[trigger] views(out@)[k]),
        decreases chapters@.len() - i,
    {
        let ghost before = views(out@);
        proof {
            assert(all[i as int] == chapters@[i as int].id@);
        }
        if !holds_text(out.as_slice(), chapters[i].id.as_str()) {
            let ghost old_out = out@;
            out.push(chapters[i].id.clone());
            proof {
                lemma_views_push(old_out, out@.last());
                let after = views(out@);
                assert(after == before.push(all[i as int]));
                assert(after[before.len() as int] == all[i as int]);
                assert forall|k: int| 0 <= k < i + 1 implies after.contains(#[trigger] all[k]) by {
                    if k < i {
                        let m = before.index_of(all[k]);
                        assert(after[m] == all[k]);
                    }
                }
            }
        }
        i += 1;
    }
    proof {
        let ids = views(out@);
        assert forall|id: Seq<char>| ids.contains(id) <==> #[trigger] all.contains(id) by {
            if ids.contains(id) {
                let m = ids.index_of(id);
                assert(all.contains(ids[m]));
            }
            if all.contains(id) {
                let m = all.index_of(id);
                assert(ids.contains(all[m]));
            }
        }
        ids.unique_seq_to_set();
        assert(ids.to_set() =~= all.to_set());
    }
    out
}

fn every_id_in(chapters: &[Chapter], ids: &[String]) -> (r: bool)
    ensures
        r == forall|i: int|
            0 <= i < chapters@.len() ==> views(ids@).contains((#[trigger] views(chapters@)[i]).id),
{
    let ghost all = views(chapters@);
    let mut i: usize = 0;
    while i < chapters.len()
        invariant
            i <= chapters@.len(),
            all == views(chapters@),
            forall|k: int| 0 <= k < i ==> views(ids@).contains((#[trigger] all[k]).id),
        decreases chapters@.len() - i,
    {
        proof {
            assert(all[i as int] == chapters@[i as int]@);
        }
        if !holds_text(ids, chapters[i].id.as_str()) {
            return false;
        }
        i += 1;
    }
    true
}

fn copy_chapter_at(chapters: &[Chapter], i: usize) -> (r: Option<Chapter>)
    ensures
        opt_chapter(r) == if i < chapters@.len() {
            Some(views(chapters@)[i as int])
        } else {
            None
        },
{
    if i < chapters.len() {
        Some(chapters[i].duplicate())
    } else {
        None
    }
}

pub fn build_contiguous_shard_work(
    all_chapters: &[Chapter],
    target_chapters: &[Chapter],
    rewrite_parallelism: usize,
) -> (r: Vec<ChapterShardWork>)
    ensures
        views(r@) == shard_work(
            views(all_chapters@),
            views(target_chapters@),
            rewrite_parallelism as int,
        ),
{
    let ghost all = views(all_chapters@);
    let ghost wanted = ids_of(views(target_chapters@));
    let ghost parallel = rewrite_parallelism as int;
    let mut work: Vec<ChapterShardWork> = Vec::new();
    if target_chapters.len() == 0 {
        proof {
            assert(views(work@) =~= Seq::empty());
        }
        return work;
    }
    let ids = distinct_ids(target_chapters);
    proof {
        assert forall|i: int| 0 <= i < all.len() implies views(ids@).contains(
            (#[trigger] all[i]).id,
        ) == wanted.contains(all[i].id) by {}
    }
    if ids.len() == all_chapters.len() && every_id_in(all_chapters, ids.as_slice()) {
        let mut shards = split_chapters_for_parallelism(all_chapters, rewrite_parallelism);
        let ghost parts = split_evenly(all, parallel);
        let mut i: usize = 0;
        while i < shards.len()
            invariant
                i <= shards@.len(),
                shard_views(shards@) == parts,
                views(work@) == Seq::new(
                    i as nat,
                    |k: int|
                        ChapterShardWorkView { chapters: parts[k], previous: None, next: None },
                ),
            decreases shards@.len() - i,
        {
            let ghost before = work@;
            work.push(
                ChapterShardWork {
                    chapters: duplicate_all(shards[i].as_slice()),
                    previous: None,
                    next: None,
                },
            );
            proof {
                lemma_views_push(before, work@.last());
                assert(views(shards@[i as int]@) == parts[i as int]);
                assert(views(work@) =~= Seq::new(
                    (i + 1) as nat,
                    |k: int|
                        ChapterShardWorkView { chapters: parts[k], previous: None, next: None },
                ));
            }
            i += 1;
        }
        proof {
            assert(covers_all(all, wanted));
        }
        return work;
    }
    let parallelism: usize = if rewrite_parallelism > 1 {
        rewrite_parallelism
    } else {
        1
    };
    let whole = all_chapters.len() / parallelism;
    let rest = all_chapters.len() % parallelism;
    proof {
        let len = all_chapters@.len() as int;
        lemma_fundamental_div_mod(len, parallelism as int);
        assert(rest > 0 ==> whole < len) by (nonlinear_arith)
            requires
                len == parallelism * whole + rest,
                1 <= parallelism,
                0 <= whole,
        ;
    }
    let size: usize = if rest > 0 {
        whole + 1
    } else if whole > 0 {
        whole
    } else {
        1
    };
    proof {
        lemma_shard_size(all.len() as int, parallel);
    }
    let mut position: usize = 0;
    proof {
        assert(views(work@) + runs_from(all, wanted, size as int, 0) =~= runs_from(
            all,
            wanted,
            size as int,
            0,
        ));
    }
    while position < all_chapters.len()
        invariant
            position <= all_chapters@.len(),
            all == views(all_chapters@),
            size > 0,
            forall|i: int|
                0 <= i < all.len() ==> views(ids@).contains((#[trigger] all[i]).id)
                    == wanted.contains(all[i].id),
            views(work@) + runs_from(all, wanted, size as int, position as int) == runs_from(
                all,
                wanted,
                size as int,
                0,
            ),
        decreases all_chapters@.len() - position,
    {
        proof {
            assert(all[position as int] == all_chapters@[position as int]@);
        }
        if !holds_text(ids.as_slice(), all_chapters[position].id.as_str()) {
            position += 1;
        } else {
            let total = all_chapters.len();
            let mut end: usize = position;
            while end < all_chapters.len() && end - position < size && holds_text(
                ids.as_slice(),
                all_chapters[end].id.as_str(),
            )
                invariant
                    position <= end <= all_chapters@.len(),
                    end - position <= size,
                    all == views(all_chapters@),
                    forall|i: int|
                        0 <= i < all.len() ==> views(ids@).contains((#[trigger] all[i]).id)
                            == wanted.contains(all[i].id),
                    chunk_end(all, wanted, position as int, position + size) == chunk_end(
                        all,
                        wanted,
                        end as int,
                        position + size,
                    ),
                decreases all_chapters@.len() - end,
            {
                proof {
                    assert(all[end as int] == all_chapters@[end as int]@);
                }
                end += 1;
            }
            proof {
                if end < all_chapters@.len() {
                    assert(all[end as int] == all_chapters@[end as int]@);
                }
                assert(end == chunk_end(all, wanted, position as int, position + size));
                if end == position {
                    assert(chunk_end(all, wanted, position as int, position + size) == chunk_end(
                        all,
                        wanted,
                        position + 1,
                        position + size,
                    ));
                    lemma_chunk_end(all, wanted, position + 1, position + size);
                }
            }
            let previous = if position > 0 {
                copy_chapter_at(all_chapters, position - 1)
            } else {
                None
            };
            let ghost before = work@;
            work.push(
                ChapterShardWork {
                    chapters: duplicate_all(slice_subrange(all_chapters, position, end)),
                    previous,
                    next: copy_chapter_at(all_chapters, end),
                },
            );
            proof {
                lemma_views_push(before, work@.last());
                assert(views(all_chapters@.subrange(position as int, end as int))
                    =~= all.subrange(position as int, end as int));
                assert(work@.last()@ == work_between(all, position as int, end as int));
                let rest = runs_from(all, wanted, size as int, end as int);
                assert(views(before) + (seq![work_between(all, position as int, end as int)]
                    + rest) =~= views(work@) + rest);
            }
            position = end;
        }
    }
    proof {
        assert(views(work@) + Seq::<ChapterShardWorkView>::empty() =~= views(work@));
    }
    work
}

proof fn lemma_chunk_end(all: Seq<ChapterView>, wanted: Seq<Seq<char>>, pos: int, limit: int)
    ensures
        pos <= chunk_end(all, wanted, pos, limit),
        pos <= limit ==> chunk_end(all, wanted, pos, limit) <= limit,
        0 <= pos <= all.len() ==> chunk_end(all, wanted, pos, limit) <= all.len(),
    decreases limit - pos,
{
    if 0 <= pos < all.len() && pos < limit && wanted.contains(all[pos].id) {
        lemma_chunk_end(all, wanted, pos + 1, limit);
    }
}

proof fn lemma_shard_size(len: int, parallelism: int)
    requires
        0 <= len,
    ensures
        ({
            let parts = if parallelism > 1 {
                parallelism
            } else {
                1
            };
            shard_size(len, parallelism) == if len % parts > 0 {
                len / parts + 1
            } else if len / parts > 0 {
                len / parts
            } else {
                1
            }
        }),
{
    let parts = if parallelism > 1 {
        parallelism
    } else {
        1
    };
    let q = len / parts;
    let m = len % parts;
    lemma_fundamental_div_mod(len, parts);
    assert(q >= 0) by (nonlinear_arith)
        requires
            len == parts * q + m,
            0 <= m < parts,
            0 <= len,
    ;
    if m > 0 {
        assert((len + parts - 1) / parts == q + 1) by (nonlinear_arith)
            requires
                len == parts * q + m,
                0 < m < parts,
        ;
    } else {
        assert((len + parts - 1) / parts == q) by (nonlinear_arith)
            requires
                len == parts * q,
                1 <= parts,
        ;
    }
}

// ---- neighbours -----------------------------------------------------------------------------
/// What was staged for a chapter: the first entry with its id.
pub open spec fn staged_for(
    staged: Seq<(String, StagedChapterOutput)>,
    id: Seq<char>,
    i: int,
) -> Option<StagedChapterOutputView>
    decreases staged.len() - i,
{
    if i < 0 || i >= staged.len() {
        None
    } else if staged[i].0@ == id {
        Some(staged[i].1@)
    } else {
        staged_for(staged, id, i + 1)
    }
}

pub fn find_staged<'a>(staged: &'a [(String, StagedChapterOutput)], id: &str) -> (r: Option<
    &'a StagedChapterOutput,
>)
    ensures
        match r {
            Some(o) => staged_for(staged@, id@, 0) == Some(o@),
            None => staged_for(staged@, id@, 0) is None,
        },
{
    let mut i: usize = 0;
    while i < staged.len()
        invariant
            i <= staged@.len(),
            staged_for(staged@, id@, 0) == staged_for(staged@, id@, i as int),
        decreases staged@.len() - i,
    {
        if same_text(staged[i].0.as_str(), id) {
            return Some(&staged[i].1);
        }
        i += 1;
    }
    None
}

/// A short form of a chapter's text, from its end or from its start.
pub open spec fn summary(content: Seq<char>, use_tail: bool) -> Seq<char> {
    if use_tail {
        tail(trim(content), 600)
    } else {
        head(trim(content), 600)
    }
}

fn summarize(content: &str, use_tail: bool) -> (r: String)
    ensures
        r@ == summary(content@, use_tail),
{
    let text = trimmed(content);
    if use_tail {
        truncate_text_tail(text.as_str(), 600)
    } else {
        truncate_text(text.as_str(), 600)
    }
}

/// The finished text of a neighbour, where it has one that is not blank.
pub open spec fn finished(staged: Option<StagedChapterOutputView>) -> Option<Seq<char>> {
    match staged {
        Some(o) => match o.content {
            Some(c) => if blank(c) {
                None
            } else {
                Some(c)
            },
            None => None,
        },
        None => None,
    }
}

/// What is shown of a neighbour: its finished text in the phases that have one, else its
/// original text.
pub open spec fn neighbor_context(
    chapter: ChapterView,
    staged: Option<StagedChapterOutputView>,
    phase: Seq<char>,
    use_tail: bool,
) -> Seq<char> {
    match finished(staged) {
        Some(c) => if phase == "rewrite"@ {
            "已完成改写摘要："@ + summary(c, use_tail)
        } else if phase == "analysis"@ {
            "已完成分析摘要："@ + summary(c, use_tail)
        } else {
            "原文摘要："@ + summary(chapter.original_text, use_tail)
        },
        None => "原文摘要："@ + summary(chapter.original_text, use_tail),
    }
}

pub open spec fn neighbor_title(
    chapter: ChapterView,
    staged: Option<StagedChapterOutputView>,
) -> Seq<char> {
    match staged {
        Some(o) => match o.title {
            Some(t) => t,
            None => chapter.title,
        },
        None => chapter.title,
    }
}

pub open spec fn neighbor_text(
    label: Seq<char>,
    chapter: ChapterView,
    staged: Option<StagedChapterOutputView>,
    phase: Seq<char>,
    use_tail: bool,
) -> Seq<char> {
    label + "：内部索引 "@ + decimal(chapter.index as int) + " · 标题："@ + neighbor_title(
        chapter,
        staged,
    ) + "\n"@ + neighbor_context(chapter, staged, phase, use_tail)
}

pub open spec fn opt_neighbor(
    label: Seq<char>,
    chapter: Option<ChapterView>,
    staged: Seq<(String, StagedChapterOutput)>,
    phase: Seq<char>,
    use_tail: bool,
) -> Option<Seq<char>> {
    match chapter {
        Some(c) => Some(neighbor_text(label, c, staged_for(staged, c.id, 0), phase, use_tail)),
        None => None,
    }
}

pub fn format_readonly_neighbor(
    label: &str,
    chapter: Option<&Chapter>,
    staged: &[(String, StagedChapterOutput)],
    phase: &str,
    use_tail: bool,
) -> (r: Option<String>)
    ensures
        opt_text(r) == opt_neighbor(
            label@,
            match chapter {
                Some(c) => Some(c@),
                None => None,
            },
            staged@,
            phase@,
            use_tail,
        ),
{
    let chapter = match chapter {
        Some(c) => c,
        None => {
            return None;
        },
    };
    let output = find_staged(staged, chapter.id.as_str());
    let title: &str = match output {
        Some(o) => match &o.title {
            Some(t) => t.as_str(),
            None => chapter.title.as_str(),
        },
        None => chapter.title.as_str(),
    };
    let completed: Option<&String> = match output {
        Some(o) => match &o.content {
            Some(c) => if is_blank(c.as_str()) {
                None
            } else {
                Some(c)
            },
            None => None,
        },
        None => None,
    };
    let mut context: String;
    match completed {
        Some(c) => {
            if same_text(phase, "rewrite") {
                context = "已完成改写摘要：".to_string();
                let text = summarize(c.as_str(), use_tail);
                context.append(text.as_str());
            } else if same_text(phase, "analysis") {
                context = "已完成分析摘要：".to_string();
                let text = summarize(c.as_str(), use_tail);
                context.append(text.as_str());
            } else {
                context = "原文摘要：".to_string();
                let text = summarize(chapter.original_text.as_str(), use_tail);
                context.append(text.as_str());
            }
        },
        None => {
            context = "原文摘要：".to_string();
            let text = summarize(chapter.original_text.as_str(), use_tail);
            context.append(text.as_str());
        },
    }
    let index = i64_text(chapter.index);
    let mut out = label.to_string();
    out.append("：内部索引 ");
    out.append(index.as_str());
    out.append(" · 标题：");
    out.append(title);
    out.append("\n");
    out.append(context.as_str());
    Some(out)
}

/// What a shard is shown of its neighbours.
pub open spec fn adjacent_context(
    work: ChapterShardWorkView,
    staged: Seq<(String, StagedChapterOutput)>,
    phase: Seq<char>,
) -> Seq<char> {
    match (
        opt_neighbor("前一相邻章节"@, work.previous, staged, phase, true),
        opt_neighbor("后一相邻章节"@, work.next, staged, phase, false),
    ) {
        (Some(a), Some(b)) => a + "\n\n"@ + b,
        (Some(a), None) => a,
        (None, Some(b)) => b,
        (None, None) => "无相邻章节。"@,
    }
}

pub fn build_readonly_adjacent_context(
    work: &ChapterShardWork,
    staged: &[(String, StagedChapterOutput)],
    phase: &str,
) -> (r: String)
    ensures
        r@ == adjacent_context(work@, staged@, phase@),
{
    let before = format_readonly_neighbor(
        "前一相邻章节",
        work.previous.as_ref(),
        staged,
        phase,
        true,
    );
    let behind = format_readonly_neighbor("后一相邻章节", work.next.as_ref(), staged, phase, false);
    match (before, behind) {
        (Some(a), Some(b)) => {
            let mut out = a;
            out.append("\n\n");
            out.append(b.as_str());
            out
        },
        (Some(a), None) => a,
        (None, Some(b)) => b,
        (None, None) => "无相邻章节。".to_string(),
    }
}

// ---- labels ---------------------------------------------------------------------------------
/// The chapters of a shard in words: one chapter, a range, or nothing.
pub open spec fn range_text(chapters: Seq<ChapterView>) -> Option<Seq<char>> {
    if chapters.len() == 0 {
        None
    } else if chapters.first().index == chapters.last().index {
        Some("第"@ + decimal(chapters.first().index as int) + "章"@)
    } else {
        Some(
            "第"@ + decimal(chapters.first().index as int) + "-"@ + decimal(
                chapters.last().index as int,
            ) + "章"@,
        )
    }
}

fn range_text_of(chapters: &[Chapter]) -> (r: Option<String>)
    ensures
        opt_text(r) == range_text(views(chapters@)),
{
    if chapters.len() == 0 {
        return None;
    }
    let ghost all = views(chapters@);
    let first = chapters[0].index;
    let last = chapters[chapters.len() - 1].index;
    proof {
        assert(all.first().index == first);
        assert(all.last().index == last);
    }
    let a = i64_text(first);
    let mut out = "第".to_string();
    out.append(a.as_str());
    if first != last {
        let b = i64_text(last);
        out.append("-");
        out.append(b.as_str());
    }
    out.append("章");
    Some(out)
}

/// The label of a shard, with its number among the shards and its chapters.
pub open spec fn shard_label(
    batch_label: Seq<char>,
    shard_index: int,
    shard_total: int,
    chapters: Seq<ChapterView>,
) -> Seq<char> {
    let numbered = batch_label + " · 分片 "@ + decimal(shard_index + 1) + "/"@ + decimal(
        shard_total,
    );
    if shard_total <= 1 {
        batch_label
    } else {
        match range_text(chapters) {
            Some(range) => numbered + " · "@ + range,
            None => numbered,
        }
    }
}

pub fn format_shard_label(
    batch_label: &str,
    shard_index: usize,
    shard_total: usize,
    chapters: &[Chapter],
) -> (r: String)
    requires
        shard_index < usize::MAX,
    ensures
        r@ == shard_label(
            batch_label@,
            shard_index as int,
            shard_total as int,
            views(chapters@),
        ),
{
    let mut out = batch_label.to_string();
    if shard_total <= 1 {
        return out;
    }
    let number = usize_text(shard_index + 1);
    let total = usize_text(shard_total);
    out.append(" · 分片 ");
    out.append(number.as_str());
    out.append("/");
    out.append(total.as_str());
    if let Some(range) = range_text_of(chapters) {
        out.append(" · ");
        out.append(range.as_str());
    }
    out
}

/// Each chapter by its number.
pub open spec fn chapter_names(chapters: Seq<ChapterView>) -> Seq<Seq<char>> {
    Seq::new(chapters.len(), |i: int| "第"@ + decimal(chapters[i].index as int) + "章"@)
}

/// What a shard is told of its task.
pub open spec fn shard_context(chapters: Seq<ChapterView>, adjacent: Seq<char>) -> Seq<char> {
    let range = match range_text(chapters) {
        Some(r) => r,
        None => "空分片"@,
    };
    "本次目标只包含"@ + range + "："@ + join(chapter_names(chapters), "、"@)
        + "。只能处理和输出这些目标章节，严禁输出输入外的任何章节、标题、正文或章节边界标记。所有请求共享同一份小说设定、一致性资产、姓名女性化规则和章节边界规则；不得因为只看到当前输入就改变人物设定或重置关系进展。\n\n相邻章节只读上下文（仅用于判断人物、场景、称谓和剧情连续性；不得分析为本次结果，不得输出、改写或覆盖）：\n"@
        + trim(adjacent)
}

pub fn format_shard_context_with_neighbors(
    _shard_index: usize,
    _shard_total: usize,
    _rewrite_parallelism: usize,
    _batch_label: &str,
    chapters: &[Chapter],
    readonly_adjacent_context: &str,
) -> (r: String)
    ensures
        r@ == shard_context(views(chapters@), readonly_adjacent_context@),
{
    let ghost all = views(chapters@);
    let mut names: Vec<String> = Vec::new();
    let mut i: usize = 0;
    while i < chapters.len()
        invariant
            i <= chapters@.len(),
            all == views(chapters@),
            views(names@) == chapter_names(all).take(i as int),
        decreases chapters@.len() - i,
    {
        let number = i64_text(chapters[i].index);
        let mut name = "第".to_string();
        name.append(number.as_str());
        name.append("章");
        let ghost before = names@;
        names.push(name);
        proof {
            lemma_views_push(before, names@.last());
            assert(views(names@) =~= chapter_names(all).take(i + 1));
        }
        i += 1;
    }
    proof {
        assert(chapter_names(all).take(i as int) =~= chapter_names(all));
    }
    let list = join_texts(names.as_slice(), "、");
    let range = match range_text_of(chapters) {
        Some(r) => r,
        None => "空分片".to_string(),
    };
    let adjacent = trimmed(readonly_adjacent_context);
    let mut out = "本次目标只包含".to_string();
    out.append(range.as_str());
    out.append("：");
    out.append(list.as_str());
    out.append(
        "。只能处理和输出这些目标章节，严禁输出输入外的任何章节、标题、正文或章节边界标记。所有请求共享同一份小说设定、一致性资产、姓名女性化规则和章节边界规则；不得因为只看到当前输入就改变人物设定或重置关系进展。\n\n相邻章节只读上下文（仅用于判断人物、场景、称谓和剧情连续性；不得分析为本次结果，不得输出、改写或覆盖）：\n",
    );
    out.append(adjacent.as_str());
    out
}

pub fn format_shard_context(
    shard_index: usize,
    shard_total: usize,
    rewrite_parallelism: usize,
    batch_label: &str,
    chapters: &[Chapter],
) -> (r: String)
    ensures
        r@ == shard_context(views(chapters@), "无相邻章节。"@),
{
    format_shard_context_with_neighbors(
        shard_index,
        shard_total,
        rewrite_parallelism,
        batch_label,
        chapters,
        "无相邻章节。",
    )
}

// ---- what is staged already -----------------------------------------------------------------
/// The chapters whose id is not among the given ones, in their order.
pub open spec fn chapters_outside(chapters: Seq<ChapterView>, ids: Seq<Seq<char>>) -> Seq<
    ChapterView,
> {
    chapters.filter(|c: ChapterView| !ids.contains(c.id))
}

pub fn chapters_without_staged_outputs(chapters: &[Chapter], staged_chapter_ids: &[String]) -> (r:
    Vec<Chapter>)
    ensures
        views(r@) == chapters_outside(views(chapters@), views(staged_chapter_ids@)),
{
    let ghost all = views(chapters@);
    let ghost ids = views(staged_chapter_ids@);
    let ghost kept = |c: ChapterView| !ids.contains(c.id);
    let mut out: Vec<Chapter> = Vec::new();
    let mut i: usize = 0;
    proof {
        reveal(Seq::filter);
        assert(views(out@) =~= all.take(0).filter(kept));
    }
    while i < chapters.len()
        invariant
            i <= chapters@.len(),
            all == views(chapters@),
            ids == views(staged_chapter_ids@),
            kept == (|c: ChapterView| !ids.contains(c.id)),
            views(out@) == all.take(i as int).filter(kept),
        decreases chapters@.len() - i,
    {
        proof {
            reveal(Seq::filter);
            assert(all.take(i + 1).drop_last() =~= all.take(i as int));
            assert(all.take(i + 1).last() == chapters@[i as int]@);
        }
        if !holds_text(staged_chapter_ids, chapters[i].id.as_str()) {
            let ghost before = out@;
            out.push(chapters[i].duplicate());
            proof {
                lemma_views_push(before, out@.last());
            }
        }
        i += 1;
    }
    proof {
        assert(all.take(i as int) =~= all);
    }
    out
}

/// The ids of the chapters that are not targets any more, each once.
pub fn completed_chapter_ids_before_resume(
    all_chapters: &[Chapter],
    target_chapters: &[Chapter],
) -> (r: Vec<String>)
    ensures
        views(r@).no_duplicates(),
        forall|id: Seq<char>|
            #![trigger views(r@).contains(id)]
            views(r@).contains(id) <==> ids_of(views(all_chapters@)).contains(id) && !ids_of(
                views(target_chapters@),
            ).contains(id),
{
    let targets = distinct_ids(target_chapters);
    let rest = chapters_without_staged_outputs(all_chapters, targets.as_slice());
    let out = distinct_ids(rest.as_slice());
    proof {
        let all = views(all_chapters@);
        let wanted = views(targets@);
        let kept = |c: ChapterView| !wanted.contains(c.id);
        let left = views(rest@);
        assert forall|id: Seq<char>| #![trigger views(out@).contains(id)]
            views(out@).contains(id) <==> ids_of(all).contains(id) && !ids_of(
                views(target_chapters@),
            ).contains(id) by {
            broadcast use vstd::seq_lib::group_filter_ensures;

            assert(left == all.filter(kept));
            if ids_of(left).contains(id) {
                let k = ids_of(left).index_of(id);
                assert(left[k].id == id);
                all.lemma_filter_contains_rev(kept, left[k]);
                assert(all.contains(left[k]));
                let m = all.index_of(left[k]);
                assert(ids_of(all)[m] == id);
                assert(kept(left[k]));
            }
            if ids_of(all).contains(id) && !wanted.contains(id) {
                let m = ids_of(all).index_of(id);
                assert(kept(all[m]));
                assert(left.contains(all[m]));
                let k = left.index_of(all[m]);
                assert(ids_of(left)[k] == id);
            }
            assert(views(out@).contains(id) <==> ids_of(left).contains(id));
            assert(wanted.contains(id) <==> ids_of(views(target_chapters@)).contains(id));
        }
    }
    out
}

/// What an interrupted run left of a chapter's rewrite, where both parts are there.
pub open spec fn staged_rewrite(
    chapter: ChapterView,
    staged: Option<StagedChapterOutputView>,
) -> Option<ParsedChapterRewriteView> {
    match staged {
        Some(o) => match (o.title, o.content) {
            (Some(title), Some(content)) => if blank(title) || blank(content) {
                None
            } else {
                Some(
                    ParsedChapterRewriteView {
                        id: chapter.id,
                        index: chapter.index,
                        title: trim(title),
                        text: trim(content),
                    },
                )
            },
            _ => None,
        },
        None => None,
    }
}

fn read_staged_rewrite(chapter: &Chapter, staged: &[(String, StagedChapterOutput)]) -> (r: Option<
    ParsedChapterRewrite,
>)
    ensures
        match r {
            Some(p) => staged_rewrite(chapter@, staged_for(staged@, chapter.id@, 0)) == Some(p@),
            None => staged_rewrite(chapter@, staged_for(staged@, chapter.id@, 0)) is None,
        },
{
    let output = match find_staged(staged, chapter.id.as_str()) {
        Some(o) => o,
        None => {
            return None;
        },
    };
    match (&output.title, &output.content) {
        (Some(title), Some(content)) => {
            let title = trimmed(title.as_str());
            let text = trimmed(content.as_str());
            if title.as_str().is_empty() || text.as_str().is_empty() {
                None
            } else {
                Some(
                    ParsedChapterRewrite {
                        id: chapter.id.clone(),
                        index: chapter.index,
                        title,
                        text,
                    },
                )
            }
        },
        _ => None,
    }
}

/// The draft that an interrupted run left for a shard; there is one only where every chapter
/// has its part.
pub fn staged_draft_for_shard(shard: &[Chapter], staged: &[(String, StagedChapterOutput)]) -> (r:
    Option<Vec<ParsedChapterRewrite>>)
    ensures
        match r {
            Some(v) => v@.len() == shard@.len() && forall|i: int|
                #![trigger views(v@)[i]]
                0 <= i < shard@.len() ==> staged_rewrite(
                    shard@[i]@,
                    staged_for(staged@, shard@[i].id@, 0),
                ) == Some(views(v@)[i]),
            None => exists|i: int|
                0 <= i < shard@.len() && staged_rewrite(
                    (#[trigger] shard@[i])@,
                    staged_for(staged@, shard@[i].id@, 0),
                ) is None,
        },
{
    let mut out: Vec<ParsedChapterRewrite> = Vec::new();
    let mut i: usize = 0;
    while i < shard.len()
        invariant
            i <= shard@.len(),
            out@.len() == i,
            forall|k: int|
                #![trigger views(out@)[k]]
                0 <= k < i ==> staged_rewrite(
                    shard@[k]@,
                    staged_for(staged@, shard@[k].id@, 0),
                ) == Some(views(out@)[k]),
        decreases shard@.len() - i,
    {
        match read_staged_rewrite(&shard[i], staged) {
            Some(p) => {
                let ghost before = out@;
                out.push(p);
                proof {
                    lemma_views_push(before, p);
                    assert forall|k: int| #![trigger views(out@)[k]] 0 <= k < i + 1 implies staged_rewrite(
                        shard@[k]@,
                        staged_for(staged@, shard@[k].id@, 0),
                    ) == Some(views(out@)[k]) by {
                        if k < i {
                            assert(views(out@)[k] == views(before)[k]);
                        }
                    }
                }
            },
            None => {
                return None;
            },
        }
        i += 1;
    }
    Some(out)
}

/// Whether a chapter has any original text to work on.
pub fn chapter_has_source_body(chapter: &Chapter) -> (r: bool)
    ensures
        r == !blank(chapter.original_text@),
{
    !is_blank(chapter.original_text.as_str())
}

/// A chapter as it was before any rewrite.
pub open spec fn without_rewrite(c: ChapterView) -> ChapterView {
    ChapterView { rewrite_text: None, ..c }
}

/// The chapters without their saved rewrites: a fresh run starts from the original text.
pub fn chapters_from_original(chapters: &[Chapter]) -> (r: Vec<Chapter>)
    ensures
        views(r@) == views(chapters@).map_values(|c: ChapterView| without_rewrite(c)),
{
    let ghost all = views(chapters@);
    let ghost fresh = all.map_values(|c: ChapterView| without_rewrite(c));
    let mut out: Vec<Chapter> = Vec::new();
    let mut i: usize = 0;
    while i < chapters.len()
        invariant
            i <= chapters@.len(),
            all == views(chapters@),
            fresh == all.map_values(|c: ChapterView| without_rewrite(c)),
            views(out@) == fresh.take(i as int),
        decreases chapters@.len() - i,
    {
        let mut chapter = chapters[i].duplicate();
        chapter.rewrite_text = None;
        let ghost before = out@;
        out.push(chapter);
        proof {
            lemma_views_push(before, out@.last());
            assert(out@.last()@ == without_rewrite(all[i as int]));
            assert(views(out@) =~= fresh.take(i + 1));
        }
        i += 1;
    }
    proof {
        assert(fresh.take(i as int) =~= fresh);
    }
    out
}

// ---- smaller shards after a failure ---------------------------------------------------------
/// The number of chapters in the first of two halves; it is the longer one.
pub open spec fn first_half(len: int) -> int {
    (len + 1) / 2
}

/// Divides a shard that failed into two; a single chapter cannot be divided.
pub fn split_chapters_for_rewrite_recovery(chapters: &[Chapter]) -> (r: Option<
    (Vec<Chapter>, Vec<Chapter>),
>)
    ensures
        match r {
            None => chapters@.len() <= 1,
            Some((a, b)) => chapters@.len() > 1 && views(a@) == views(chapters@).take(
                first_half(chapters@.len() as int),
            ) && views(b@) == views(chapters@).skip(first_half(chapters@.len() as int)),
        },
{
    let len = chapters.len();
    if len <= 1 {
        return None;
    }
    let mid = len / 2 + len % 2;
    let a = duplicate_all(slice_subrange(chapters, 0, mid));
    let b = duplicate_all(slice_subrange(chapters, mid, len));
    proof {
        let all = views(chapters@);
        assert(views(chapters@.subrange(0, mid as int)) =~= all.take(mid as int));
        assert(views(chapters@.subrange(mid as int, len as int)) =~= all.skip(mid as int));
    }
    Some((a, b))
}

/// The two halves of a shard under revision, each chapter with its rewrite.
pub struct RevisionRecoverySplit {
    pub left: (Vec<Chapter>, Vec<ParsedChapterRewrite>),
    pub right: (Vec<Chapter>, Vec<ParsedChapterRewrite>),
}

/// Divides a shard under revision into two; a single chapter cannot be divided, nor one whose
/// rewrites do not match it in number.
pub fn split_revision_for_recovery(chapters: &[Chapter], rewrites: &[ParsedChapterRewrite]) -> (r:
    Option<RevisionRecoverySplit>)
    ensures
        match r {
            None => chapters@.len() <= 1 || chapters@.len() != rewrites@.len(),
            Some(s) => {
                let mid = first_half(chapters@.len() as int);
                &&& chapters@.len() > 1
                &&& chapters@.len() == rewrites@.len()
                &&& views(s.left.0@) == views(chapters@).take(mid)
                &&& views(s.left.1@) == views(rewrites@).take(mid)
                &&& views(s.right.0@) == views(chapters@).skip(mid)
                &&& views(s.right.1@) == views(rewrites@).skip(mid)
            },
        },
{
    let len = chapters.len();
    if len <= 1 || len != rewrites.len() {
        return None;
    }
    let mid = len / 2 + len % 2;
    let left = (
        duplicate_all(slice_subrange(chapters, 0, mid)),
        duplicate_all(slice_subrange(rewrites, 0, mid)),
    );
    let right = (
        duplicate_all(slice_subrange(chapters, mid, len)),
        duplicate_all(slice_subrange(rewrites, mid, len)),
    );
    proof {
        let a = views(chapters@);
        let b = views(rewrites@);
        assert(views(chapters@.subrange(0, mid as int)) =~= a.take(mid as int));
        assert(views(chapters@.subrange(mid as int, len as int)) =~= a.skip(mid as int));
        assert(views(rewrites@.subrange(0, mid as int)) =~= b.take(mid as int));
        assert(views(rewrites@.subrange(mid as int, len as int)) =~= b.skip(mid as int));
    }
    Some(RevisionRecoverySplit { left, right })
}

// ---- laws -----------------------------------------------------------------------------------
/// Every part of an even division holds something, and no two parts differ in length by more
/// than one.
pub proof fn law_even_parts_are_balanced<T>(s: Seq<T>, parallelism: int, i: int, j: int)
    requires
        0 <= parallelism,
        0 <= i < split_evenly(s, parallelism).len(),
        0 <= j < split_evenly(s, parallelism).len(),
    ensures
        split_evenly(s, parallelism)[i].len() >= 1,
        split_evenly(s, parallelism)[i].len() <= split_evenly(s, parallelism)[j].len() + 1,
{
    let parts = if parallelism < s.len() {
        parallelism
    } else {
        s.len() as int
    };
    if s.len() > 0 && parts > 1 {
        lemma_part_start(s.len() as int, parts, i);
        lemma_part_start(s.len() as int, parts, j);
    }
}

/// An even division has as many parts as may run side by side, unless there are fewer elements.
pub proof fn law_even_division_uses_all_slots<T>(s: Seq<T>, parallelism: int)
    requires
        1 <= parallelism,
    ensures
        split_evenly(s, parallelism).len() == (if parallelism < s.len() {
            parallelism
        } else {
            s.len() as int
        }),
{
}

proof fn lemma_even_prefix<T>(s: Seq<T>, parts: int, k: int)
    requires
        1 < parts <= s.len(),
        0 <= k <= parts,
    ensures
        Seq::new(k as nat, |i: int| even_part(s, parts, i)).flatten_alt() == s.take(
            part_start(s.len() as int, parts, k),
        ),
        0 <= part_start(s.len() as int, parts, k) <= s.len(),
    decreases k,
{
    let len = s.len() as int;
    let prefix = Seq::new(k as nat, |i: int| even_part(s, parts, i));
    if k == 0 {
        lemma_part_start(len, parts, 0);
        assert(prefix.flatten_alt() =~= s.take(0));
    } else {
        lemma_part_start(len, parts, k - 1);
        lemma_even_prefix(s, parts, k - 1);
        let shorter = Seq::new((k - 1) as nat, |i: int| even_part(s, parts, i));
        assert(prefix.drop_last() =~= shorter);
        assert(prefix.last() == even_part(s, parts, k - 1));
        assert(prefix.flatten_alt() =~= s.take(part_start(len, parts, k)));
    }
}

/// An even division loses nothing, repeats nothing and keeps the order: its parts one behind
/// the other are the whole.
pub proof fn law_even_parts_rejoin<T>(s: Seq<T>, parallelism: int)
    requires
        0 <= parallelism,
    ensures
        split_evenly(s, parallelism).flatten() == s,
{
    let parts = if parallelism < s.len() {
        parallelism
    } else {
        s.len() as int
    };
    let all = split_evenly(s, parallelism);
    all.lemma_flatten_and_flatten_alt_are_equivalent();
    if s.len() == 0 {
        assert(all.flatten_alt() =~= s);
    } else if parts <= 1 {
        assert(all.drop_last() =~= Seq::<Seq<T>>::empty());
        assert(all.drop_last().flatten_alt() =~= Seq::<T>::empty());
        assert(all.flatten_alt() =~= s);
    } else {
        lemma_even_prefix(s, parts, parts);
        lemma_part_start(s.len() as int, parts, 0);
        assert(s.take(s.len() as int) =~= s);
    }
}

/// The chapters of the shards one behind the other.
pub open spec fn worked_chapters(work: Seq<ChapterShardWorkView>) -> Seq<ChapterView>
    decreases work.len(),
{
    if work.len() == 0 {
        Seq::empty()
    } else {
        work.first().chapters + worked_chapters(work.drop_first())
    }
}

pub open spec fn is_wanted(wanted: Seq<Seq<char>>) -> spec_fn(ChapterView) -> bool {
    |c: ChapterView| wanted.contains(c.id)
}

proof fn lemma_filter_all<T>(s: Seq<T>, keep: spec_fn(T) -> bool)
    requires
        forall|i: int| 0 <= i < s.len() ==> keep(#[trigger] s[i]),
    ensures
        s.filter(keep) == s,
    decreases s.len(),
{
    reveal(Seq::filter);
    if s.len() > 0 {
        lemma_filter_all(s.drop_last(), keep);
        assert(s =~= s.drop_last().push(s.last()));
    }
}

proof fn lemma_chunk_wanted(
    all: Seq<ChapterView>,
    wanted: Seq<Seq<char>>,
    pos: int,
    limit: int,
    i: int,
)
    requires
        0 <= pos <= i < chunk_end(all, wanted, pos, limit),
    ensures
        i < all.len(),
        wanted.contains(all[i].id),
    decreases limit - pos,
{
    if pos < all.len() && pos < limit && wanted.contains(all[pos].id) {
        if i > pos {
            lemma_chunk_wanted(all, wanted, pos + 1, limit, i);
        }
    }
}

proof fn lemma_runs_cover(all: Seq<ChapterView>, wanted: Seq<Seq<char>>, size: int, pos: int)
    requires
        0 < size,
        0 <= pos <= all.len(),
    ensures
        worked_chapters(runs_from(all, wanted, size, pos)) == all.skip(pos).filter(
            is_wanted(wanted),
        ),
    decreases all.len() - pos,
{
    let keep = is_wanted(wanted);
    let rest = all.skip(pos);
    if pos == all.len() {
        reveal(Seq::filter);
        assert(rest =~= Seq::empty());
    } else if !wanted.contains(all[pos].id) {
        lemma_runs_cover(all, wanted, size, pos + 1);
        assert(rest =~= seq![all[pos]] + all.skip(pos + 1));
        Seq::filter_distributes_over_add(seq![all[pos]], all.skip(pos + 1), keep);
        seq![all[pos]].lemma_all_neg_filter_empty(keep);
        assert(seq![all[pos]].filter(keep) =~= Seq::<ChapterView>::empty());
        assert(rest.filter(keep) =~= all.skip(pos + 1).filter(keep));
    } else {
        let end = chunk_end(all, wanted, pos, pos + size);
        assert(end == chunk_end(all, wanted, pos + 1, pos + size));
        lemma_chunk_end(all, wanted, pos + 1, pos + size);
        lemma_runs_cover(all, wanted, size, end);
        let chunk = all.subrange(pos, end);
        assert(rest =~= chunk + all.skip(end));
        Seq::filter_distributes_over_add(chunk, all.skip(end), keep);
        assert forall|i: int| 0 <= i < chunk.len() implies keep(#[trigger] chunk[i]) by {
            lemma_chunk_wanted(all, wanted, pos, pos + size, pos + i);
        }
        lemma_filter_all(chunk, keep);
        let work = runs_from(all, wanted, size, pos);
        let more = runs_from(all, wanted, size, end);
        assert(work == seq![work_between(all, pos, end)] + more);
        assert(work.drop_first() =~= more);
        assert(work.first().chapters == chunk);
    }
}

proof fn lemma_worked_parts(parts: Seq<Seq<ChapterView>>)
    ensures
        worked_chapters(
            Seq::new(
                parts.len(),
                |i: int|
                    ChapterShardWorkView { chapters: parts[i], previous: None, next: None },
            ),
        ) == parts.flatten(),
    decreases parts.len(),
{
    let work = Seq::new(
        parts.len(),
        |i: int| ChapterShardWorkView { chapters: parts[i], previous: None, next: None },
    );
    if parts.len() > 0 {
        let rest = parts.drop_first();
        lemma_worked_parts(rest);
        assert(work.drop_first() =~= Seq::new(
            rest.len(),
            |i: int| ChapterShardWorkView { chapters: rest[i], previous: None, next: None },
        ));
    }
}

/// The shards hold exactly the chapters that are left to do, each where it stands in the batch:
/// none is lost, none is done twice, and none that is done already comes again.
pub proof fn law_shards_hold_what_is_left(
    all: Seq<ChapterView>,
    targets: Seq<ChapterView>,
    parallelism: int,
)
    requires
        0 <= parallelism,
    ensures
        worked_chapters(shard_work(all, targets, parallelism)) == all.filter(
            is_wanted(ids_of(targets)),
        ),
{
    let wanted = ids_of(targets);
    let keep = is_wanted(wanted);
    if targets.len() == 0 {
        assert forall|i: int| 0 <= i < all.len() implies !keep(#[trigger] all[i]) by {}
        all.lemma_all_neg_filter_empty(keep);
        assert(all.filter(keep) =~= Seq::empty());
    } else if covers_all(all, wanted) {
        law_even_parts_rejoin(all, parallelism);
        lemma_worked_parts(split_evenly(all, parallelism));
        lemma_filter_all(all, keep);
    } else {
        lemma_runs_cover(all, wanted, shard_size(all.len() as int, parallelism), 0);
        assert(all.skip(0) =~= all);
    }
}

/// The two halves of a shard that failed are its chapters again, and each is shorter than it.
pub proof fn law_recovery_halves<T>(s: Seq<T>)
    requires
        s.len() > 1,
    ensures
        s.take(first_half(s.len() as int)) + s.skip(first_half(s.len() as int)) == s,
        0 < first_half(s.len() as int) < s.len(),
{
    let mid = first_half(s.len() as int);
    assert(s.take(mid) + s.skip(mid) =~= s);
}

} // verus!
