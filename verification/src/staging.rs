//! Which chapters of a batch are worked on, and whether what was staged for them is complete.
use vstd::prelude::*;
use crate::analysis_call::{ParsedChapterAnalysis, ParsedChapterAnalysisView};
use crate::domain::{opt_text, Chapter, ChapterView, Duplicate, StagedChapterOutput};
use crate::shard_context::{
    chapter_has_source_body, chapters_from_original, chapters_outside,
    chapters_without_staged_outputs, find_staged, staged_for, without_rewrite,
};
use crate::text::{blank, holds_text, lemma_views_push, same_text, views};

verus! {

/// Whether a chapter has a text.
pub open spec fn has_body(c: ChapterView) -> bool {
    !blank(c.original_text)
}

/// Whether a chapter can be rewritten.
pub open spec fn is_ready(c: ChapterView) -> bool {
    has_body(c) && c.analysis_status == "completed"@
}

pub open spec fn with_body() -> spec_fn(ChapterView) -> bool {
    |c: ChapterView| has_body(c)
}

pub open spec fn ready() -> spec_fn(ChapterView) -> bool {
    |c: ChapterView| is_ready(c)
}

/// The chapters that have a text.
pub fn chapters_with_body(chapters: &[Chapter]) -> (r: Vec<Chapter>)
    ensures
        views(r@) == views(chapters@).filter(with_body()),
{
    let ghost all = views(chapters@);
    let mut out: Vec<Chapter> = Vec::new();
    let mut i: usize = 0;
    proof {
        reveal(Seq::filter);
        assert(views(out@) =~= all.take(0).filter(with_body()));
    }
    while i < chapters.len()
        invariant
            i <= chapters@.len(),
            all == views(chapters@),
            views(out@) == all.take(i as int).filter(with_body()),
        decreases chapters@.len() - i,
    {
        proof {
            reveal(Seq::filter);
            assert(all.take(i + 1).drop_last() =~= all.take(i as int));
            assert(all.take(i + 1).last() == chapters@[i as int]@);
        }
        if chapter_has_source_body(&chapters[i]) {
            let ghost before = out@;
            out.push(chapters[i].duplicate());
            proof {
                lemma_views_push(before, out@.last());
            }
        }
        i += 1;
    }
    proof {
        assert(all.take(i as int) =~= all);
    }
    out
}

/// The chapters of a batch that are rewritten: those with a text that were analysed. A batch with
/// texts of which none was analysed is refused.
pub fn chapters_to_rewrite(chapters: &[Chapter]) -> (r: Result<Vec<Chapter>, String>)
    ensures
        match r {
            Ok(v) => views(v@) == views(chapters@).filter(ready()) && (v@.len() > 0 || forall|
                i: int,
            |
                0 <= i < chapters@.len() ==> !has_body(#[trigger] views(chapters@)[i])),
            Err(m) => m@ == "当前批次没有已完成分析的内容。"@ && views(chapters@).filter(ready()).len() == 0
                && exists|i: int|
                0 <= i < chapters@.len() && has_body(#[trigger] views(chapters@)[i]),
        },
{
    let ghost all = views(chapters@);
    let mut out: Vec<Chapter> = Vec::new();
    let mut any_body = false;
    let mut i: usize = 0;
    proof {
        reveal(Seq::filter);
        assert(views(out@) =~= all.take(0).filter(ready()));
    }
    while i < chapters.len()
        invariant
            i <= chapters@.len(),
            all == views(chapters@),
            views(out@) == all.take(i as int).filter(ready()),
            any_body == exists|k: int| 0 <= k < i && has_body(#[trigger] all[k]),
        decreases chapters@.len() - i,
    {
        proof {
            reveal(Seq::filter);
            assert(all.take(i + 1).drop_last() =~= all.take(i as int));
            assert(all.take(i + 1).last() == chapters@[i as int]@);
            assert(all[i as int] == chapters@[i as int]@);
        }
        if chapter_has_source_body(&chapters[i]) {
            any_body = true;
            proof {
                assert(has_body(all[i as int]));
            }
            if same_text(chapters[i].analysis_status.as_str(), "completed") {
                let ghost before = out@;
                out.push(chapters[i].duplicate());
                proof {
                    lemma_views_push(before, out@.last());
                }
            }
        }
        i += 1;
    }
    proof {
        assert(all.take(i as int) =~= all);
    }
    if out.len() == 0 && any_body {
        return Err("当前批次没有已完成分析的内容。".to_string());
    }
    Ok(out)
}

/// Whether every chapter was staged.
pub open spec fn all_staged(chapters: Seq<ChapterView>, ids: Seq<Seq<char>>) -> bool {
    forall|i: int| 0 <= i < chapters.len() ==> ids.contains((#[trigger] chapters[i]).id)
}

/// Analyses are written only where all of them are staged.
pub fn require_staged_analyses(chapters: &[Chapter], staged_ids: &[String]) -> (r: Result<
    (),
    String,
>)
    ensures
        match r {
            Ok(_) => all_staged(views(chapters@), views(staged_ids@)),
            Err(m) => !all_staged(views(chapters@), views(staged_ids@)) && m@
                == "分析分片恢复数据不完整，未写入章节结果。"@,
        },
{
    let ghost all = views(chapters@);
    let mut i: usize = 0;
    while i < chapters.len()
        invariant
            i <= chapters@.len(),
            all == views(chapters@),
            forall|k: int| 0 <= k < i ==> views(staged_ids@).contains((#[trigger] all[k]).id),
        decreases chapters@.len() - i,
    {
        proof {
            assert(all[i as int] == chapters@[i as int]@);
        }
        if !holds_text(staged_ids, chapters[i].id.as_str()) {
            return Err("分析分片恢复数据不完整，未写入章节结果。".to_string());
        }
        i += 1;
    }
    Ok(())
}

/// Whether every chapter was staged with a title and a text.
pub open spec fn all_rewritten(
    chapters: Seq<ChapterView>,
    staged: Seq<(String, StagedChapterOutput)>,
) -> bool {
    forall|i: int| 0 <= i < chapters.len() ==> rewritten_at(chapters, staged, i)
}

pub open spec fn rewritten_at(
    chapters: Seq<ChapterView>,
    staged: Seq<(String, StagedChapterOutput)>,
    i: int,
) -> bool {
    staged_for(staged, chapters[i].id, 0) matches Some(s) && s.title is Some && s.content is Some
}

/// Rewrites are written only where all of them are staged with a title and a text.
pub fn require_staged_rewrites(
    chapters: &[Chapter],
    staged: &[(String, StagedChapterOutput)],
) -> (r: Result<(), String>)
    ensures
        match r {
            Ok(_) => all_rewritten(views(chapters@), staged@),
            Err(m) => !all_rewritten(views(chapters@), staged@) && m@
                == "改写分片恢复数据不完整，未写入章节结果。"@,
        },
{
    let ghost all = views(chapters@);
    let mut i: usize = 0;
    while i < chapters.len()
        invariant
            i <= chapters@.len(),
            all == views(chapters@),
            forall|k: int| 0 <= k < i ==> rewritten_at(all, staged@, k),
        decreases chapters@.len() - i,
    {
        proof {
            assert(all[i as int] == chapters@[i as int]@);
        }
        let complete = match find_staged(staged, chapters[i].id.as_str()) {
            Some(s) => s.title.is_some() && s.content.is_some(),
            None => false,
        };
        if !complete {
            proof {
                assert(!rewritten_at(all, staged@, i as int));
            }
            return Err("改写分片恢复数据不完整，未写入章节结果。".to_string());
        }
        proof {
            assert(rewritten_at(all, staged@, i as int));
        }
        i += 1;
    }
    Ok(())
}

// ---- what is still to be done ---------------------------------------------------------------
/// The chapters that a run still has to rewrite, from their original texts: all of them, or those
/// for which an interrupted run staged nothing.
pub fn chapters_pending(chapters: &[Chapter], staged_ids: &Option<Vec<String>>) -> (r: Vec<Chapter>)
    ensures
        ({
            let fresh = views(chapters@).map_values(|c: ChapterView| without_rewrite(c));
            views(r@) == match *staged_ids {
                Some(ids) => chapters_outside(fresh, views(ids@)),
                None => fresh,
            }
        }),
{
    let fresh = chapters_from_original(chapters);
    match staged_ids {
        Some(ids) => chapters_without_staged_outputs(fresh.as_slice(), ids.as_slice()),
        None => fresh,
    }
}

// ---- what is staged of an analysis ----------------------------------------------------------
/// The last analysis of a chapter.
pub open spec fn analysis_of(analyses: Seq<ParsedChapterAnalysisView>, id: Seq<char>) -> Option<
    Seq<char>,
>
    decreases analyses.len(),
{
    if analyses.len() == 0 {
        None
    } else if analyses.last().id == id {
        Some(analyses.last().json)
    } else {
        analysis_of(analyses.drop_last(), id)
    }
}

/// What is staged for a chapter: its analysis, where there is one.
pub fn staged_analysis(analyses: &[ParsedChapterAnalysis], chapter_id: &str) -> (r: Option<String>)
    ensures
        opt_text(r) == analysis_of(views(analyses@), chapter_id@),
{
    let ghost all = views(analyses@);
    let mut n: usize = analyses.len();
    proof {
        assert(all.take(n as int) =~= all);
    }
    while n > 0
        invariant
            n <= analyses@.len(),
            all == views(analyses@),
            analysis_of(all, chapter_id@) == analysis_of(all.take(n as int), chapter_id@),
        decreases n,
    {
        proof {
            assert(all.take(n as int).last() == analyses@[n - 1]@);
            assert(all.take(n as int).drop_last() =~= all.take(n - 1));
        }
        if same_text(analyses[n - 1].id.as_str(), chapter_id) {
            return Some(analyses[n - 1].json.clone());
        }
        n -= 1;
    }
    None
}

} // verus!
