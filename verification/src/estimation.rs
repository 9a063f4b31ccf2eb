//! How much work a rewriting will be, and what the calls of the recent past were like.
use vstd::prelude::*;
use crate::domain::{Chapter, ChapterView};
use crate::shard_context::{shard_views, split_chapters_for_parallelism, split_evenly};
use crate::text::{
    ascii_digit, chars_of, find_chars, find_from, is_ascii_digit, lemma_find_from, number_up_to, parse_usize,
    same_text, string_of, trim_start, trim_start_chars, views,
};
use vstd::slice::slice_subrange;

verus! {

/// How many calls one shard takes.
pub open spec fn calls_per_shard(review_enabled: bool) -> int {
    if review_enabled {
        7
    } else {
        2
    }
}

pub fn estimate_requests_for_chapters(
    chapters: &[Chapter],
    rewrite_parallelism: usize,
    review_enabled: bool,
) -> (r: usize)
    requires
        chapters@.len() * 7 <= usize::MAX,
    ensures
        r == split_evenly(views(chapters@), rewrite_parallelism as int).len() * calls_per_shard(
            review_enabled,
        ),
{
    let shards = split_chapters_for_parallelism(chapters, rewrite_parallelism);
    let count: usize = shards.len();
    proof {
        assert(shard_views(shards@).len() == count);
        assert(count <= chapters@.len());
    }
    count * if review_enabled {
        7
    } else {
        2
    }
}

/// How many calls are waited for one after the other.
pub fn estimate_wait_stages_for_chapters(chapters: &[Chapter], review_enabled: bool) -> (r: usize)
    ensures
        r == if chapters@.len() == 0 {
            0
        } else {
            calls_per_shard(review_enabled)
        },
{
    if chapters.len() == 0 {
        0
    } else if review_enabled {
        7
    } else {
        2
    }
}

/// The characters of a chapter, its title included.
pub open spec fn chapter_size(chapter: ChapterView) -> int {
    chapter.title.len() as int + chapter.original_text.len() as int
}

pub fn chapter_text_chars(chapter: &Chapter) -> (r: usize)
    requires
        chapter_size(chapter@) <= usize::MAX,
    ensures
        r == chapter_size(chapter@),
{
    chapter.title.as_str().unicode_len() + chapter.original_text.as_str().unicode_len()
}

/// The characters of all chapters.
pub open spec fn total_size(chapters: Seq<ChapterView>) -> int
    decreases chapters.len(),
{
    if chapters.len() == 0 {
        0
    } else {
        total_size(chapters.drop_last()) + chapter_size(chapters.last())
    }
}

proof fn lemma_size_of_part(chapters: Seq<ChapterView>, n: int)
    requires
        0 <= n <= chapters.len(),
    ensures
        0 <= total_size(chapters.take(n)) <= total_size(chapters),
    decreases chapters.len(),
{
    if n < chapters.len() {
        assert(chapters.drop_last().take(n) =~= chapters.take(n));
        lemma_size_of_part(chapters.drop_last(), n);
    } else {
        assert(chapters.take(n) =~= chapters);
        if n > 0 {
            lemma_size_of_part(chapters.drop_last(), n - 1);
        }
    }
}

/// The size of all chapters together.
pub fn total_text_chars(chapters: &[Chapter]) -> (r: usize)
    requires
        total_size(views(chapters@)) <= usize::MAX,
    ensures
        r == total_size(views(chapters@)),
{
    let ghost all = views(chapters@);
    let mut total: usize = 0;
    let mut i: usize = 0;
    while i < chapters.len()
        invariant
            i <= chapters@.len(),
            all == views(chapters@),
            total == total_size(all.take(i as int)),
            total_size(all) <= usize::MAX,
        decreases chapters@.len() - i,
    {
        proof {
            assert(all.take(i + 1).drop_last() =~= all.take(i as int));
            assert(all.take(i + 1).last() == chapters@[i as int]@);
            lemma_size_of_part(all, i + 1);
            lemma_size_of_part(all, i as int);
        }
        total += chapter_text_chars(&chapters[i]);
        i += 1;
    }
    proof {
        assert(all.take(i as int) =~= all);
    }
    total
}

// ---- the figures in a log -------------------------------------------------------------------
/// Whether a character belongs to a figure.
pub open spec fn in_figure(c: char) -> bool {
    ascii_digit(c) || c == '.'
}

fn is_in_figure(c: char) -> (r: bool)
    ensures
        r == in_figure(c),
{
    is_ascii_digit(c) || c == '.'
}

/// The figure at the beginning of a text.
pub open spec fn leading_figure(s: Seq<char>) -> Seq<char>
    decreases s.len(),
{
    if s.len() == 0 || !in_figure(s[0]) {
        Seq::empty()
    } else {
        seq![s[0]] + leading_figure(s.skip(1))
    }
}

/// The figure behind the first place where a label stands.
pub open spec fn labelled_figure(text: Seq<char>, label: Seq<char>) -> Option<Seq<char>> {
    match find_from(text, label, 0) {
        None => None,
        Some(at) => {
            let figure = leading_figure(trim_start(text.skip(at + label.len())));
            if figure.len() == 0 {
                None
            } else {
                Some(figure)
            }
        },
    }
}

proof fn lemma_figure_ends(s: Seq<char>, n: int)
    requires
        0 <= n <= s.len(),
        forall|k: int| 0 <= k < n ==> in_figure(#[trigger] s[k]),
        n < s.len() ==> !in_figure(s[n]),
    ensures
        leading_figure(s) == s.take(n),
    decreases n,
{
    if n == 0 {
        assert(s.take(0) =~= Seq::<char>::empty());
    } else {
        assert forall|k: int| 0 <= k < n - 1 implies in_figure(#[trigger] s.skip(1)[k]) by {
            assert(s.skip(1)[k] == s[k + 1]);
        }
        assert(in_figure(s[0]));
        lemma_figure_ends(s.skip(1), n - 1);
        assert(seq![s[0]] + s.skip(1).take(n - 1) =~= s.take(n));
    }
}

pub fn extract_value_after_label(text: &str, label: &str) -> (r: Option<String>)
    ensures
        match r {
            Some(v) => labelled_figure(text@, label@) == Some(v@),
            None => labelled_figure(text@, label@) is None,
        },
{
    let all = chars_of(text);
    let mark = chars_of(label);
    let at = match find_chars(all.as_slice(), mark.as_slice(), 0) {
        Some(at) => at,
        None => {
            return None;
        },
    };
    let total: usize = all.len();
    proof {
        lemma_find_from(text@, label@, 0);
    }
    let rest = slice_subrange(all.as_slice(), at + mark.len(), total);
    proof {
        assert(rest@ =~= text@.skip(at + label@.len()));
    }
    let rest = trim_start_chars(rest);
    let mut n: usize = 0;
    while n < rest.len() && is_in_figure(rest[n])
        invariant
            n <= rest@.len(),
            forall|k: int| 0 <= k < n ==> in_figure(#[trigger] rest@[k]),
        decreases rest@.len() - n,
    {
        n += 1;
    }
    proof {
        lemma_figure_ends(rest@, n as int);
    }
    if n == 0 {
        return None;
    }
    let figure = slice_subrange(rest, 0, n);
    proof {
        assert(figure@ =~= rest@.take(n as int));
    }
    Some(string_of(figure))
}

/// The whole number behind a label.
pub open spec fn labelled_number(text: Seq<char>, label: Seq<char>) -> Option<int> {
    match labelled_figure(text, label) {
        Some(figure) => number_up_to(figure, usize::MAX as int),
        None => None,
    }
}

pub fn extract_usize_after_label(text: &str, label: &str) -> (r: Option<usize>)
    ensures
        match r {
            Some(n) => labelled_number(text@, label@) == Some(n as int),
            None => labelled_number(text@, label@) is None,
        },
{
    match extract_value_after_label(text, label) {
        Some(figure) => {
            let digits = chars_of(figure.as_str());
            parse_usize(digits.as_slice())
        },
        None => None,
    }
}

/// What the calls of the recent past were like, as far as it can be counted in whole numbers.
#[derive(Debug, PartialEq, Eq)]
pub struct RecentModelStats {
    pub success_calls: usize,
    pub failed_calls: usize,
    pub total_input_chars: usize,
    pub input_samples: usize,
    pub total_output_chars: usize,
    pub output_samples: usize,
}

/// A number where there is one, else nothing.
pub open spec fn amount(n: Option<int>) -> int {
    match n {
        Some(n) => n,
        None => 0,
    }
}

pub open spec fn sample(n: Option<int>) -> int {
    match n {
        Some(_) => 1,
        None => 0,
    }
}

impl RecentModelStats {
    pub fn new() -> (r: RecentModelStats)
        ensures
            r.success_calls == 0,
            r.failed_calls == 0,
            r.total_input_chars == 0,
            r.input_samples == 0,
            r.total_output_chars == 0,
            r.output_samples == 0,
    {
        RecentModelStats {
            success_calls: 0,
            failed_calls: 0,
            total_input_chars: 0,
            input_samples: 0,
            total_output_chars: 0,
            output_samples: 0,
        }
    }

    /// Counts one call by its status and its log. The result is the figure for the time that it
    /// took, where the call succeeded and the log gives one.
    pub fn note_call(&mut self, status: &str, content: &str) -> (r: Option<String>)
        requires
            status@ == "success"@ ==> {
                &&& old(self).success_calls < usize::MAX
                &&& old(self).input_samples < usize::MAX
                &&& old(self).output_samples < usize::MAX
                &&& old(self).total_input_chars + amount(
                    labelled_number(content@, "输入字符数："@),
                ) <= usize::MAX
                &&& old(self).total_output_chars + amount(
                    labelled_number(content@, "输出字符数："@),
                ) <= usize::MAX
            },
            status@ == "error"@ ==> old(self).failed_calls < usize::MAX,
        ensures
            ({
                let input = labelled_number(content@, "输入字符数："@);
                let output = labelled_number(content@, "输出字符数："@);
                if status@ == "success"@ {
                    &&& final(self).success_calls == old(self).success_calls + 1
                    &&& final(self).failed_calls == old(self).failed_calls
                    &&& final(self).total_input_chars == old(self).total_input_chars + amount(input)
                    &&& final(self).input_samples == old(self).input_samples + sample(input)
                    &&& final(self).total_output_chars == old(self).total_output_chars + amount(
                        output,
                    )
                    &&& final(self).output_samples == old(self).output_samples + sample(output)
                    &&& match r {
                        Some(v) => labelled_figure(content@, "AI 调用耗时："@) == Some(v@),
                        None => labelled_figure(content@, "AI 调用耗时："@) is None,
                    }
                } else {
                    &&& final(self).failed_calls == old(self).failed_calls + (if status@
                        == "error"@ {
                        1int
                    } else {
                        0
                    })
                    &&& final(self).success_calls == old(self).success_calls
                    &&& final(self).total_input_chars == old(self).total_input_chars
                    &&& final(self).input_samples == old(self).input_samples
                    &&& final(self).total_output_chars == old(self).total_output_chars
                    &&& final(self).output_samples == old(self).output_samples
                    &&& r is None
                }
            }),
    {
        if same_text(status, "success") {
            self.success_calls += 1;
            if let Some(value) = extract_usize_after_label(content, "输入字符数：") {
                self.total_input_chars += value;
                self.input_samples += 1;
            }
            if let Some(value) = extract_usize_after_label(content, "输出字符数：") {
                self.total_output_chars += value;
                self.output_samples += 1;
            }
            extract_value_after_label(content, "AI 调用耗时：")
        } else {
            if same_text(status, "error") {
                self.failed_calls += 1;
            }
            None
        }
    }

    pub fn average_input_chars(&self) -> (r: Option<usize>)
        ensures
            r == if self.input_samples == 0 {
                None
            } else {
                Some((self.total_input_chars / self.input_samples) as usize)
            },
    {
        if self.input_samples == 0 {
            None
        } else {
            Some(self.total_input_chars / self.input_samples)
        }
    }

    pub fn average_output_chars(&self) -> (r: Option<usize>)
        ensures
            r == if self.output_samples == 0 {
                None
            } else {
                Some((self.total_output_chars / self.output_samples) as usize)
            },
    {
        if self.output_samples == 0 {
            None
        } else {
            Some(self.total_output_chars / self.output_samples)
        }
    }
}

} // verus!
