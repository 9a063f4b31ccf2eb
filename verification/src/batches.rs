//! How the chapters of a novel are put into batches.
use vstd::prelude::*;
use crate::domain::{Chapter, ChapterView};
use crate::text::{decimal, i64_text, join, join_texts, lemma_views_push, usize_text, views};

verus! {

/// A batch of chapters, with the name and the body of its file.
#[derive(Debug, PartialEq, Eq)]
pub struct ChapterBatchPlan {
    pub batch_index: usize,
    pub label: String,
    pub file_name: String,
    pub body: String,
    pub start_chapter: i64,
    pub end_chapter: i64,
}

#[verifier::ext_equal]
pub struct ChapterBatchPlanView {
    pub batch_index: usize,
    pub label: Seq<char>,
    pub file_name: Seq<char>,
    pub body: Seq<char>,
    pub start_chapter: i64,
    pub end_chapter: i64,
}

impl View for ChapterBatchPlan {
    type V = ChapterBatchPlanView;

    open spec fn view(&self) -> ChapterBatchPlanView {
        ChapterBatchPlanView {
            batch_index: self.batch_index,
            label: self.label@,
            file_name: self.file_name@,
            body: self.body@,
            start_chapter: self.start_chapter,
            end_chapter: self.end_chapter,
        }
    }
}

/// A number with at least three digits.
pub open spec fn three_digits(n: int) -> Seq<char> {
    if n < 10 {
        "00"@ + decimal(n)
    } else if n < 100 {
        "0"@ + decimal(n)
    } else {
        decimal(n)
    }
}

/// A chapter in the file of its batch.
pub open spec fn chapter_body(chapter: ChapterView) -> Seq<char> {
    chapter.title + "\n\n"@ + chapter.original_text
}

pub open spec fn chapter_bodies(chapters: Seq<ChapterView>) -> Seq<Seq<char>> {
    Seq::new(chapters.len(), |i: int| chapter_body(chapters[i]))
}

/// The batch of the chapters of a chunk.
pub open spec fn batch_of(chunk: Seq<ChapterView>, number: int, detected: bool) -> ChapterBatchPlanView {
    ChapterBatchPlanView {
        batch_index: number as usize,
        label: if detected {
            decimal(chunk[0].index as int) + "-"@ + decimal(chunk.last().index as int) + "章"@
        } else {
            "第"@ + decimal(number) + "批（约10万字）"@
        },
        file_name: "batch-"@ + three_digits(number) + ".txt"@,
        body: join(chapter_bodies(chunk), "\n\n"@),
        start_chapter: chunk[0].index,
        end_chapter: chunk.last().index,
    }
}

/// Where the chunk that begins at a place ends.
pub open spec fn chunk_end(len: int, start: int, size: int) -> int {
    if start + size < len {
        start + size
    } else {
        len
    }
}

/// The batches of the chapters from a place on, numbered onwards.
pub open spec fn batches_from(
    chapters: Seq<ChapterView>,
    start: int,
    size: int,
    number: int,
    detected: bool,
) -> Seq<ChapterBatchPlanView>
    decreases chapters.len() - start,
{
    if start < 0 || start >= chapters.len() || size <= 0 {
        Seq::empty()
    } else {
        let end = chunk_end(chapters.len() as int, start, size);
        seq![batch_of(chapters.subrange(start, end), number, detected)] + batches_from(
            chapters,
            end,
            size,
            number + 1,
            detected,
        )
    }
}

/// The batches of a novel: of the given size where chapters were found in it, else one chapter
/// each.
pub open spec fn batch_plan(chapters: Seq<ChapterView>, detected: bool, size: int) -> Seq<
    ChapterBatchPlanView,
> {
    batches_from(
        chapters,
        0,
        if detected {
            size
        } else {
            1
        },
        1,
        detected,
    )
}

fn three_digits_of(n: usize) -> (r: String)
    ensures
        r@ == three_digits(n as int),
{
    let digits = usize_text(n);
    if n >= 100 {
        return digits;
    }
    let mut out = if n < 10 {
        "00".to_string()
    } else {
        "0".to_string()
    };
    out.append(digits.as_str());
    out
}

fn make_batch(chapters: &[Chapter], start: usize, end: usize, number: usize, detected: bool) -> (r:
    ChapterBatchPlan)
    requires
        start < end <= chapters@.len(),
    ensures
        r@ == batch_of(
            views(chapters@).subrange(start as int, end as int),
            number as int,
            detected,
        ),
{
    let ghost chunk = views(chapters@).subrange(start as int, end as int);
    let ghost goal = chapter_bodies(chunk);
    let mut parts: Vec<String> = Vec::new();
    let mut i: usize = start;
    while i < end
        invariant
            start <= i <= end <= chapters@.len(),
            chunk == views(chapters@).subrange(start as int, end as int),
            goal == chapter_bodies(chunk),
            views(parts@) == goal.take(i - start),
        decreases end - i,
    {
        let mut part = chapters[i].title.clone();
        part.append("\n\n");
        part.append(chapters[i].original_text.as_str());
        let ghost before = parts@;
        parts.push(part);
        proof {
            lemma_views_push(before, parts@.last());
            assert(chunk[i - start] == chapters@[i as int]@);
            assert(views(parts@) =~= goal.take(i - start + 1));
        }
        i += 1;
    }
    proof {
        assert(goal.take(i - start) =~= goal);
        assert(chunk[0] == chapters@[start as int]@);
        assert(chunk.last() == chapters@[end - 1]@);
    }
    let number_text = usize_text(number);
    let first = i64_text(chapters[start].index);
    let last = i64_text(chapters[end - 1].index);
    let label = if detected {
        let mut label = first;
        label.append("-");
        label.append(last.as_str());
        label.append("章");
        label
    } else {
        let mut label = "第".to_string();
        label.append(number_text.as_str());
        label.append("批（约10万字）");
        label
    };
    let digits = three_digits_of(number);
    let mut file_name = "batch-".to_string();
    file_name.append(digits.as_str());
    file_name.append(".txt");
    ChapterBatchPlan {
        batch_index: number,
        label,
        file_name,
        body: join_texts(parts.as_slice(), "\n\n"),
        start_chapter: chapters[start].index,
        end_chapter: chapters[end - 1].index,
    }
}

pub fn plan_chapter_batches(
    chapters: &[Chapter],
    detected_chapters: bool,
    chapter_batch_size: usize,
) -> (r: Vec<ChapterBatchPlan>)
    requires
        detected_chapters ==> chapter_batch_size > 0,
    ensures
        views(r@) == batch_plan(views(chapters@), detected_chapters, chapter_batch_size as int),
{
    let size: usize = if detected_chapters {
        chapter_batch_size
    } else {
        1
    };
    let ghost all = views(chapters@);
    let mut out: Vec<ChapterBatchPlan> = Vec::new();
    let mut start: usize = 0;
    let ghost whole = batch_plan(all, detected_chapters, chapter_batch_size as int);
    proof {
        assert(views(out@) + whole =~= whole);
    }
    while start < chapters.len()
        invariant
            start <= chapters@.len(),
            size > 0,
            all == views(chapters@),
            out@.len() <= start,
            whole == views(out@) + batches_from(
                all,
                start as int,
                size as int,
                out@.len() as int + 1,
                detected_chapters,
            ),
        decreases chapters@.len() - start,
    {
        let left: usize = chapters.len() - start;
        let end: usize = if size < left {
            start + size
        } else {
            chapters.len()
        };
        let number: usize = out.len() + 1;
        let batch = make_batch(chapters, start, end, number, detected_chapters);
        let ghost before = out@;
        out.push(batch);
        proof {
            lemma_views_push(before, out@.last());
            let rest = batches_from(all, end as int, size as int, number + 1, detected_chapters);
            assert(batches_from(all, start as int, size as int, number as int, detected_chapters)
                == seq![out@.last()@] + rest);
            assert(views(before) + (seq![out@.last()@] + rest) =~= views(out@) + rest);
        }
        start = end;
    }
    proof {
        assert(views(out@) + Seq::<ChapterBatchPlanView>::empty() =~= views(out@));
    }
    out
}

// ---- laws -----------------------------------------------------------------------------------
/// The batches follow each other: they are numbered from one, each begins with the chapter behind
/// the last one of the batch before, and only the last one may be smaller than the others.
pub proof fn law_batches_cover_the_chapters(
    chapters: Seq<ChapterView>,
    start: int,
    size: int,
    number: int,
    detected: bool,
    i: int,
)
    requires
        0 <= start <= chapters.len(),
        size > 0,
        0 <= i,
        start + i * size < chapters.len(),
    ensures
        ({
            let from = start + i * size;
            let batches = batches_from(chapters, start, size, number, detected);
            &&& i < batches.len()
            &&& batches[i] == batch_of(
                chapters.subrange(from, chunk_end(chapters.len() as int, from, size)),
                number + i,
                detected,
            )
        }),
    decreases i,
{
    let end = chunk_end(chapters.len() as int, start, size);
    if i > 0 {
        assert(i * size == (i - 1) * size + size) by (nonlinear_arith);
        assert((i - 1) * size >= 0) by (nonlinear_arith)
            requires
                i > 0,
                size > 0,
        ;
        law_batches_cover_the_chapters(chapters, end, size, number + 1, detected, i - 1);
    } else {
        assert(i * size == 0) by (nonlinear_arith)
            requires
                i == 0,
        ;
        assert(start < chapters.len());
    }
}

} // verus!
