//! What a shard is told: which chapters are its own, and what stands before and behind them.
use vstd::prelude::*;
use crate::domain::{ChapterView, StagedChapterOutput, StagedChapterOutputView};
use crate::excerpt::{head, tail};
use crate::shard_context::{
    adjacent_context, chapter_names, chapters_outside, chunk_end, finished, neighbor_context,
    neighbor_text, neighbor_title, opt_neighbor, range_text, runs_from, shard_context, shard_label,
    staged_for, staged_rewrite, summary, without_rewrite, ChapterShardWorkView,
};
use crate::text::{blank, decimal, holds, join, trim};
use crate::text_laws::{
    law_holding_is_transitive, law_joined_text_holds_its_parts, lemma_holds_inside,
    lemma_holds_itself,
};

verus! {

// ---- the chapters around a shard ------------------------------------------------------------
proof fn lemma_chunk_end(
    all: Seq<ChapterView>,
    wanted: Seq<Seq<char>>,
    pos: int,
    limit: int,
)
    requires
        0 <= pos <= all.len(),
        pos <= limit,
    ensures
        pos <= chunk_end(all, wanted, pos, limit) <= limit,
        chunk_end(all, wanted, pos, limit) <= all.len(),
        forall|i: int|
            pos <= i < chunk_end(all, wanted, pos, limit) ==> wanted.contains(
                (#[trigger] all[i]).id,
            ),
        pos < limit && pos < all.len() && wanted.contains(all[pos].id) ==> chunk_end(
            all,
            wanted,
            pos,
            limit,
        ) > pos,
        chunk_end(all, wanted, pos, limit) < limit && chunk_end(all, wanted, pos, limit)
            < all.len() ==> !wanted.contains(all[chunk_end(all, wanted, pos, limit)].id),
    decreases limit - pos,
{
    if pos < all.len() && pos < limit && wanted.contains(all[pos].id) {
        lemma_chunk_end(all, wanted, pos + 1, limit);
    }
}

/// Each run of chapters is a stretch of the batch, no longer than asked for, in which every chapter
/// is wanted. The chapter right before it and the one right behind it are its neighbours, and it
/// has none only at the ends of the batch.
pub proof fn law_run_has_its_neighbors(
    all: Seq<ChapterView>,
    wanted: Seq<Seq<char>>,
    size: int,
    pos: int,
    k: int,
) -> (ends: (int, int))
    requires
        0 <= pos,
        0 <= k < runs_from(all, wanted, size, pos).len(),
    ensures
        pos <= ends.0 < ends.1 <= all.len(),
        ends.1 - ends.0 <= size,
        runs_from(all, wanted, size, pos)[k].chapters == all.subrange(ends.0, ends.1),
        forall|i: int| ends.0 <= i < ends.1 ==> wanted.contains((#[trigger] all[i]).id),
        runs_from(all, wanted, size, pos)[k].previous is None <==> ends.0 == 0,
        ends.0 > 0 ==> runs_from(all, wanted, size, pos)[k].previous == Some(all[ends.0 - 1]),
        runs_from(all, wanted, size, pos)[k].next is None <==> ends.1 == all.len(),
        ends.1 < all.len() ==> runs_from(all, wanted, size, pos)[k].next == Some(all[ends.1]),
    decreases all.len() - pos,
{
    if !wanted.contains(all[pos].id) {
        law_run_has_its_neighbors(all, wanted, size, pos + 1, k)
    } else {
        let end = chunk_end(all, wanted, pos, pos + size);
        lemma_chunk_end(all, wanted, pos, pos + size);
        if k == 0 {
            (pos, end)
        } else {
            law_run_has_its_neighbors(all, wanted, size, end, k - 1)
        }
    }
}

/// What was staged for a chapter is its own entry.
pub proof fn law_staged_output_of_a_chapter(
    staged: Seq<(String, StagedChapterOutput)>,
    id: Seq<char>,
    from: int,
    i: int,
)
    requires
        0 <= from <= i < staged.len(),
        staged[i].0@ == id,
        forall|j: int| from <= j < i ==> (#[trigger] staged[j]).0@ != id,
    ensures
        staged_for(staged, id, from) == Some(staged[i].1@),
    decreases i - from,
{
    if from < i {
        assert(staged[from].0@ != id);
        law_staged_output_of_a_chapter(staged, id, from + 1, i);
    }
}

/// A chapter without an entry has nothing staged.
pub proof fn law_nothing_is_staged_for_another(
    staged: Seq<(String, StagedChapterOutput)>,
    id: Seq<char>,
    from: int,
)
    requires
        0 <= from,
        forall|j: int| from <= j < staged.len() ==> (#[trigger] staged[j]).0@ != id,
    ensures
        staged_for(staged, id, from) is None,
    decreases staged.len() - from,
{
    if from < staged.len() {
        assert(staged[from].0@ != id);
        law_nothing_is_staged_for_another(staged, id, from + 1);
    }
}

proof fn lemma_neighbor_holds(
    label: Seq<char>,
    chapter: ChapterView,
    staged: Option<StagedChapterOutputView>,
    phase: Seq<char>,
    use_tail: bool,
)
    ensures
        holds(neighbor_text(label, chapter, staged, phase, use_tail), label),
        holds(
            neighbor_text(label, chapter, staged, phase, use_tail),
            neighbor_title(chapter, staged),
        ),
        finished(staged) matches Some(c) ==> (phase == "rewrite"@ || phase == "analysis"@) ==> holds(
            neighbor_text(label, chapter, staged, phase, use_tail),
            summary(c, use_tail),
        ),
        finished(staged) is None ==> holds(
            neighbor_text(label, chapter, staged, phase, use_tail),
            summary(chapter.original_text, use_tail),
        ),
{
    let title = neighbor_title(chapter, staged);
    let context = neighbor_context(chapter, staged, phase, use_tail);
    let whole = neighbor_text(label, chapter, staged, phase, use_tail);
    let start = label + "：内部索引 "@ + decimal(chapter.index as int) + " · 标题："@;
    let behind = "：内部索引 "@ + decimal(chapter.index as int) + " · 标题："@ + title + "\n"@ + context;
    lemma_holds_inside(Seq::empty(), label, behind);
    assert(Seq::empty() + label + behind =~= whole);
    lemma_holds_inside(start, title, "\n"@ + context);
    assert(start + title + ("\n"@ + context) =~= whole);
    lemma_holds_inside(start + title + "\n"@, context, Seq::empty());
    assert(start + title + "\n"@ + context + Seq::empty() =~= whole);
    match finished(staged) {
        Some(c) => {
            let s = summary(c, use_tail);
            if phase == "rewrite"@ {
                lemma_holds_inside("已完成改写摘要："@, s, Seq::empty());
                assert("已完成改写摘要："@ + s + Seq::empty() =~= context);
                law_holding_is_transitive(whole, context, s);
            } else if phase == "analysis"@ {
                lemma_holds_inside("已完成分析摘要："@, s, Seq::empty());
                assert("已完成分析摘要："@ + s + Seq::empty() =~= context);
                law_holding_is_transitive(whole, context, s);
            }
        },
        None => {
            let s = summary(chapter.original_text, use_tail);
            lemma_holds_inside("原文摘要："@, s, Seq::empty());
            assert("原文摘要："@ + s + Seq::empty() =~= context);
            law_holding_is_transitive(whole, context, s);
        },
    }
}

proof fn lemma_context_holds_both(
    work: ChapterShardWorkView,
    staged: Seq<(String, StagedChapterOutput)>,
    phase: Seq<char>,
)
    ensures
        opt_neighbor("前一相邻章节"@, work.previous, staged, phase, true) matches Some(a) ==> holds(
            adjacent_context(work, staged, phase),
            a,
        ),
        opt_neighbor("后一相邻章节"@, work.next, staged, phase, false) matches Some(b) ==> holds(
            adjacent_context(work, staged, phase),
            b,
        ),
{
    let x = opt_neighbor("前一相邻章节"@, work.previous, staged, phase, true);
    let y = opt_neighbor("后一相邻章节"@, work.next, staged, phase, false);
    let whole = adjacent_context(work, staged, phase);
    if let Some(a) = x {
        if let Some(b) = y {
            lemma_holds_inside(Seq::empty(), a, "\n\n"@ + b);
            assert(Seq::empty() + a + ("\n\n"@ + b) =~= whole);
            lemma_holds_inside(a + "\n\n"@, b, Seq::empty());
            assert(a + "\n\n"@ + b + Seq::empty() =~= whole);
        } else {
            lemma_holds_itself(a);
        }
    } else if let Some(b) = y {
        lemma_holds_itself(b);
    }
}

/// A shard sees how the chapter before it ends: as it was finished, where it was, else as it was
/// written.
pub proof fn law_shard_sees_the_end_of_the_one_before(
    work: ChapterShardWorkView,
    staged: Seq<(String, StagedChapterOutput)>,
    phase: Seq<char>,
)
    requires
        work.previous is Some,
        phase == "rewrite"@ || phase == "analysis"@,
    ensures
        ({
            let chapter = work.previous->0;
            let whole = adjacent_context(work, staged, phase);
            let output = staged_for(staged, chapter.id, 0);
            &&& holds(whole, "前一相邻章节"@)
            &&& output is None ==> holds(whole, chapter.title)
            &&& output is None ==> holds(whole, tail(trim(chapter.original_text), 600))
            &&& output matches Some(o) ==> {
                &&& o.title matches Some(t) ==> holds(whole, t)
                &&& o.title is None ==> holds(whole, chapter.title)
                &&& o.content matches Some(c) ==> !blank(c) ==> holds(whole, tail(trim(c), 600))
                &&& o.content is None ==> holds(whole, tail(trim(chapter.original_text), 600))
            }
        }),
{
    let chapter = work.previous->0;
    let whole = adjacent_context(work, staged, phase);
    let output = staged_for(staged, chapter.id, 0);
    let part = neighbor_text("前一相邻章节"@, chapter, output, phase, true);
    lemma_context_holds_both(work, staged, phase);
    lemma_neighbor_holds("前一相邻章节"@, chapter, output, phase, true);
    law_holding_is_transitive(whole, part, "前一相邻章节"@);
    law_holding_is_transitive(whole, part, neighbor_title(chapter, output));
    match finished(output) {
        Some(c) => {
            law_holding_is_transitive(whole, part, summary(c, true));
        },
        None => {
            law_holding_is_transitive(whole, part, summary(chapter.original_text, true));
        },
    }
}

/// A shard sees how the chapter behind it begins: as it was finished, where it was, else as it was
/// written.
pub proof fn law_shard_sees_the_start_of_the_one_behind(
    work: ChapterShardWorkView,
    staged: Seq<(String, StagedChapterOutput)>,
    phase: Seq<char>,
)
    requires
        work.next is Some,
        phase == "rewrite"@ || phase == "analysis"@,
    ensures
        ({
            let chapter = work.next->0;
            let whole = adjacent_context(work, staged, phase);
            let output = staged_for(staged, chapter.id, 0);
            &&& holds(whole, "后一相邻章节"@)
            &&& output is None ==> holds(whole, chapter.title)
            &&& output is None ==> holds(whole, head(trim(chapter.original_text), 600))
            &&& output matches Some(o) ==> {
                &&& o.title matches Some(t) ==> holds(whole, t)
                &&& o.title is None ==> holds(whole, chapter.title)
                &&& o.content matches Some(c) ==> !blank(c) ==> holds(whole, head(trim(c), 600))
                &&& o.content is None ==> holds(whole, head(trim(chapter.original_text), 600))
            }
        }),
{
    let chapter = work.next->0;
    let whole = adjacent_context(work, staged, phase);
    let output = staged_for(staged, chapter.id, 0);
    let part = neighbor_text("后一相邻章节"@, chapter, output, phase, false);
    lemma_context_holds_both(work, staged, phase);
    lemma_neighbor_holds("后一相邻章节"@, chapter, output, phase, false);
    law_holding_is_transitive(whole, part, "后一相邻章节"@);
    law_holding_is_transitive(whole, part, neighbor_title(chapter, output));
    match finished(output) {
        Some(c) => {
            law_holding_is_transitive(whole, part, summary(c, false));
        },
        None => {
            law_holding_is_transitive(whole, part, summary(chapter.original_text, false));
        },
    }
}

/// Text that is not blank is what counts as finished, and nothing else does.
pub proof fn law_finished_text(o: StagedChapterOutputView)
    ensures
        finished(None) is None,
        finished(Some(o)) is Some <==> (o.content matches Some(c) && !blank(c)),
        finished(Some(o)) is Some ==> finished(Some(o)) == o.content,
{
}

// ---- the task of a shard --------------------------------------------------------------------
/// A shard is told each of its chapters by number, from which to which it reaches, and what stands
/// around it.
pub proof fn law_shard_is_told_its_chapters(
    chapters: Seq<ChapterView>,
    adjacent: Seq<char>,
    i: int,
)
    requires
        0 <= i < chapters.len(),
    ensures
        holds(shard_context(chapters, adjacent), "第"@ + decimal(chapters[i].index as int) + "章"@),
        holds(shard_context(chapters, adjacent), trim(adjacent)),
{
    let whole = shard_context(chapters, adjacent);
    let names = chapter_names(chapters);
    law_joined_text_holds_its_parts(names, "、"@, i);
    let range = match range_text(chapters) {
        Some(r) => r,
        None => "空分片"@,
    };
    let listed = join(names, "、"@);
    let task =
        "。只能处理和输出这些目标章节，严禁输出输入外的任何章节、标题、正文或章节边界标记。所有请求共享同一份小说设定、一致性资产、姓名女性化规则和章节边界规则；不得因为只看到当前输入就改变人物设定或重置关系进展。\n\n相邻章节只读上下文（仅用于判断人物、场景、称谓和剧情连续性；不得分析为本次结果，不得输出、改写或覆盖）：\n"@;
    let start = "本次目标只包含"@ + range + "："@;
    lemma_holds_inside(start, listed, task + trim(adjacent));
    assert(start + listed + (task + trim(adjacent)) =~= whole);
    lemma_holds_inside(start + listed + task, trim(adjacent), Seq::empty());
    assert(start + listed + task + trim(adjacent) + Seq::empty() =~= whole);
    law_holding_is_transitive(whole, listed, names[i]);
}

/// The range of a shard names its first chapter and its last.
pub proof fn law_range_names_its_ends(chapters: Seq<ChapterView>)
    requires
        chapters.len() > 0,
    ensures
        range_text(chapters) is Some,
        holds(range_text(chapters)->0, decimal(chapters[0].index as int)),
        holds(range_text(chapters)->0, decimal(chapters.last().index as int)),
{
    let first = decimal(chapters[0].index as int);
    let last = decimal(chapters.last().index as int);
    let whole = range_text(chapters)->0;
    if chapters[0].index == chapters.last().index {
        lemma_holds_inside("第"@, first, "章"@);
    } else {
        lemma_holds_inside("第"@, first, "-"@ + last + "章"@);
        assert("第"@ + first + ("-"@ + last + "章"@) =~= whole);
        lemma_holds_inside("第"@ + first + "-"@, last, "章"@);
    }
}

/// The label of one shard of several has the label of the batch, the number of the shard counted
/// from one, the number of shards, and the range of the shard. An only shard has the batch's label.
pub proof fn law_label_tells_the_shard(
    batch_label: Seq<char>,
    shard_index: int,
    shard_total: int,
    chapters: Seq<ChapterView>,
)
    ensures
        shard_total <= 1 ==> shard_label(batch_label, shard_index, shard_total, chapters)
            == batch_label,
        shard_total > 1 ==> ({
            let label = shard_label(batch_label, shard_index, shard_total, chapters);
            &&& holds(label, batch_label)
            &&& holds(label, decimal(shard_index + 1) + "/"@ + decimal(shard_total))
            &&& chapters.len() > 0 ==> holds(label, range_text(chapters)->0)
        }),
{
    if shard_total > 1 {
        let label = shard_label(batch_label, shard_index, shard_total, chapters);
        let number = decimal(shard_index + 1) + "/"@ + decimal(shard_total);
        let numbered = batch_label + " · 分片 "@ + decimal(shard_index + 1) + "/"@ + decimal(
            shard_total,
        );
        let end = match range_text(chapters) {
            Some(range) => " · "@ + range,
            None => Seq::empty(),
        };
        assert(numbered + end =~= label);
        lemma_holds_inside(Seq::empty(), batch_label, " · 分片 "@ + number + end);
        assert(Seq::empty() + batch_label + (" · 分片 "@ + number + end) =~= label);
        lemma_holds_inside(batch_label + " · 分片 "@, number, end);
        assert(batch_label + " · 分片 "@ + number + end =~= label);
        if chapters.len() > 0 {
            let range = range_text(chapters)->0;
            lemma_holds_inside(numbered + " · "@, range, Seq::empty());
            assert(numbered + " · "@ + range + Seq::empty() =~= label);
        }
    }
}

// ---- what is left to do ---------------------------------------------------------------------
/// What is left is every chapter without an output, and no other.
pub proof fn law_what_is_left_has_no_output(
    chapters: Seq<ChapterView>,
    ids: Seq<Seq<char>>,
    c: ChapterView,
)
    ensures
        chapters_outside(chapters, ids).contains(c) <==> chapters.contains(c) && !ids.contains(c.id),
    decreases chapters.len(),
{
    reveal(Seq::filter);
    let keep = |c: ChapterView| !ids.contains(c.id);
    if chapters.len() > 0 {
        let rest = chapters.drop_last();
        law_what_is_left_has_no_output(rest, ids, c);
        crate::text_laws::lemma_push_contains(rest.filter(keep), chapters.last(), c);
        crate::text_laws::lemma_push_contains(rest, chapters.last(), c);
        assert(rest.push(chapters.last()) =~= chapters);
    } else {
        assert(!chapters.contains(c));
        assert(!chapters_outside(chapters, ids).contains(c));
    }
}

/// A draft is taken up again where both its title and its text are there, under the chapter's own
/// id and index.
pub proof fn law_draft_is_taken_up(chapter: ChapterView, o: StagedChapterOutputView)
    ensures
        staged_rewrite(chapter, None) is None,
        staged_rewrite(chapter, Some(o)) is Some <==> (o.title matches Some(t) && !blank(t)) && (
        o.content matches Some(c) && !blank(c)),
        staged_rewrite(chapter, Some(o)) matches Some(r) ==> r.id == chapter.id && r.index
            == chapter.index && r.title == trim(o.title->0) && r.text == trim(o.content->0),
{
}

/// Going back to the originals takes the rewrite away and changes nothing else.
pub proof fn law_original_has_no_rewrite(c: ChapterView)
    ensures
        without_rewrite(c).rewrite_text is None,
        without_rewrite(c).id == c.id,
        without_rewrite(c).index == c.index,
        without_rewrite(c).title == c.title,
        without_rewrite(c).original_text == c.original_text,
        without_rewrite(without_rewrite(c)) == without_rewrite(c),
{
}

} // verus!
