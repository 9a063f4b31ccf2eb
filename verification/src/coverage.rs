//! Whether a rewrite covers the obligations of its plan: the evidence that a review quotes has to
//! stand in the rewritten text, and the states that the plan sets are carried on.
use vstd::prelude::*;
use vstd::slice::slice_subrange;
use crate::domain::{
    Chapter, ChapterView, Duplicate, ParsedChapterRewrite, ParsedChapterRewriteView, ReviewCoverageItem,
    ReviewCoverageItemView, ReviewIssue, ReviewIssueView, RewriteObligation, RewriteObligationView,
    RewritePlan, RewritePlanView, RewriteStateUpdate, RewriteStateUpdateView,
};
use crate::order::{sort_distinct, sort_distinct_texts, strings_of};
use crate::text::{
    blank, chars_have, chars_of, copy_chars, holds, holds_char, holds_index, holds_text,
    is_whitespace, join, join_texts, lemma_lex_transitive, lemma_lex_trichotomy, lemma_views_push,
    lex_less, lex_less_chars, lowercase, matches_at, normalized, normalized_chars, same_chars,
    same_text, string_of, trim, trim_chars, trimmed, views, white,
};

verus! {

// ---- nearly equal texts ---------------------------------------------------------------------
/// Whether two texts of one length differ in one place at most.
pub open spec fn one_place(a: Seq<char>, b: Seq<char>) -> bool {
    a.len() == b.len() && forall|i: int, j: int|
        0 <= i < a.len() && 0 <= j < a.len() && a[i] != b[i] && a[j] != b[j] ==> i == j
}

/// Whether the shorter text is the longer one without one character.
pub open spec fn one_removed(longer: Seq<char>, shorter: Seq<char>) -> bool {
    longer.len() == shorter.len() + 1 && exists|k: int|
        0 <= k < longer.len() && #[trigger] longer.remove(k) == shorter
}

/// Whether one text becomes the other by changing, adding or removing one character at most.
pub open spec fn one_edit(a: Seq<char>, b: Seq<char>) -> bool {
    one_place(a, b) || one_removed(a, b) || one_removed(b, a)
}

fn differ_in_one_place(left: &[char], right: &[char]) -> (r: bool)
    requires
        left@.len() == right@.len(),
    ensures
        r == one_place(left@, right@),
{
    let mut seen = false;
    let ghost mut place: int = 0;
    let mut i: usize = 0;
    while i < left.len()
        invariant
            i <= left@.len() == right@.len(),
            seen ==> 0 <= place < i && left@[place] != right@[place],
            forall|k: int| 0 <= k < i && left@[k] != right@[k] ==> seen && k == place,
        decreases left@.len() - i,
    {
        if left[i] != right[i] {
            if seen {
                return false;
            }
            seen = true;
            proof {
                place = i as int;
            }
        }
        i += 1;
    }
    true
}

fn is_one_removed(longer: &[char], shorter: &[char]) -> (r: bool)
    requires
        longer@.len() == shorter@.len() + 1,
    ensures
        r == one_removed(longer@, shorter@),
{
    let mut short_index: usize = 0;
    let mut long_index: usize = 0;
    let mut skipped = false;
    let ghost mut gap: int = 0;
    while short_index < shorter.len() && long_index < longer.len()
        invariant
            longer@.len() == shorter@.len() + 1,
            short_index <= shorter@.len(),
            long_index == short_index + (if skipped {
                1int
            } else {
                0int
            }),
            !skipped ==> forall|k: int| 0 <= k < short_index ==> shorter@[k] == longer@[k],
            skipped ==> 0 <= gap <= short_index && gap < shorter@.len() && shorter@[gap]
                != longer@[gap] && (forall|k: int| 0 <= k < gap ==> shorter@[k] == longer@[k]) && (
            forall|k: int| gap <= k < short_index ==> shorter@[k] == longer@[k + 1]),
        decreases longer@.len() - long_index,
    {
        if shorter[short_index] == longer[long_index] {
            short_index += 1;
            long_index += 1;
        } else if skipped {
            proof {
                assert forall|k: int| 0 <= k < longer@.len() implies #[trigger] longer@.remove(k)
                    != shorter@ by {
                    if longer@.remove(k) == shorter@ {
                        if k > gap {
                            assert(longer@.remove(k)[gap] == longer@[gap]);
                        } else {
                            assert(longer@.remove(k)[short_index as int] == longer@[short_index
                                + 1]);
                        }
                    }
                }
            }
            return false;
        } else {
            skipped = true;
            proof {
                gap = short_index as int;
            }
            long_index += 1;
        }
    }
    proof {
        if skipped {
            assert(longer@.remove(gap) =~= shorter@);
        } else {
            assert(longer@.remove(shorter@.len() as int) =~= shorter@);
        }
    }
    true
}

pub fn within_one_edit(left: &[char], right: &[char]) -> (r: bool)
    ensures
        r == one_edit(left@, right@),
{
    if left.len() == right.len() {
        differ_in_one_place(left, right)
    } else if left.len() < right.len() {
        right.len() - left.len() == 1 && is_one_removed(right, left)
    } else {
        left.len() - right.len() == 1 && is_one_removed(left, right)
    }
}

/// Whether a part of the text is the fragment but for one character at most.
pub open spec fn nearly_holds(text: Seq<char>, fragment: Seq<char>) -> bool {
    exists|i: int, j: int|
        0 <= i <= j <= text.len() && one_edit(#[trigger] text.subrange(i, j), fragment)
}

/// Whether the text holds the fragment; of a fragment with eight characters or more one may be
/// wrong.
pub open spec fn fragment_found(text: Seq<char>, fragment: Seq<char>) -> bool {
    holds(text, fragment) || (fragment.len() >= 8 && nearly_holds(text, fragment))
}

fn window_found(text: &[char], fragment: &[char], length: usize) -> (r: bool)
    ensures
        r == exists|i: int|
            0 <= i && i + length <= text@.len() && one_edit(
                #[trigger] text@.subrange(i, i + length),
                fragment@,
            ),
{
    if length > text.len() {
        return false;
    }
    let total = text.len();
    let last = total - length;
    let mut i: usize = 0;
    while i <= last
        invariant
            total == text@.len(),
            last + length == total,
            i <= last + 1,
            forall|k: int|
                0 <= k < i ==> !one_edit(#[trigger] text@.subrange(k, k + length), fragment@),
        decreases last + 1 - i,
    {
        let window = slice_subrange(text, i, i + length);
        if within_one_edit(window, fragment) {
            proof {
                assert(one_edit(text@.subrange(i as int, i + length), fragment@));
            }
            return true;
        }
        if i == last {
            proof {
                assert forall|k: int|
                    0 <= k && k + length <= text@.len() implies !one_edit(
                    #[trigger] text@.subrange(k, k + length),
                    fragment@,
                ) by {}
            }
            return false;
        }
        i += 1;
    }
    false
}

fn fragment_is_found(text: &[char], needle: &[char]) -> (r: bool)
    ensures
        r == fragment_found(text@, needle@),
{
    if chars_have(text, needle) {
        return true;
    }
    if needle.len() < 8 {
        return false;
    }
    let n = needle.len();
    let shorter = window_found(text, needle, n - 1);
    let equal = window_found(text, needle, n);
    let longer = if n < text.len() {
        window_found(text, needle, n + 1)
    } else {
        false
    };
    proof {
        let t = text@;
        let f = needle@;
        if shorter {
            let i = choose|i: int|
                0 <= i && i + (n - 1) <= t.len() && one_edit(
                    #[trigger] t.subrange(i, i + (n - 1)),
                    f,
                );
            assert(one_edit(t.subrange(i, i + (n - 1)), f));
        }
        if equal {
            let i = choose|i: int|
                0 <= i && i + n <= t.len() && one_edit(#[trigger] t.subrange(i, i + n), f);
            assert(one_edit(t.subrange(i, i + n), f));
        }
        if longer {
            let i = choose|i: int|
                0 <= i && i + (n + 1) <= t.len() && one_edit(
                    #[trigger] t.subrange(i, i + (n + 1)),
                    f,
                );
            assert(one_edit(t.subrange(i, i + (n + 1)), f));
        }
        if nearly_holds(t, f) {
            let (i, j) = choose|i: int, j: int|
                0 <= i <= j <= t.len() && one_edit(#[trigger] t.subrange(i, j), f);
            let w = t.subrange(i, j);
            assert(w.len() == j - i);
            assert(j - i == n - 1 || j - i == n || j - i == n + 1);
            if j - i == n - 1 {
                assert(t.subrange(i, i + (n - 1)) == w);
            } else if j - i == n {
                assert(t.subrange(i, i + n) == w);
            } else {
                assert(t.subrange(i, i + (n + 1)) == w);
            }
        }
    }
    shorter || equal || longer
}

pub fn coverage_fragment_exists(normalized_rewrite: &str, fragment: &str) -> (r: bool)
    ensures
        r == fragment_found(normalized_rewrite@, fragment@),
{
    let text = chars_of(normalized_rewrite);
    let needle = chars_of(fragment);
    fragment_is_found(text.as_slice(), needle.as_slice())
}

pub fn normalize_coverage_evidence(text: &str) -> (r: String)
    ensures
        r@ == normalized(text@),
{
    let all = chars_of(text);
    let out = normalized_chars(all.as_slice());
    string_of(out.as_slice())
}

// ---- fragments of the evidence --------------------------------------------------------------
/// The fragments of three characters or more among some pieces, normalized.
pub open spec fn long_fragments(pieces: Seq<Seq<char>>) -> Seq<Seq<char>>
    decreases pieces.len(),
{
    if pieces.len() == 0 {
        Seq::empty()
    } else if normalized(pieces.last()).len() >= 3 {
        long_fragments(pieces.drop_last()).push(normalized(pieces.last()))
    } else {
        long_fragments(pieces.drop_last())
    }
}

fn collect_long_fragments(pieces: &[Vec<char>]) -> (r: Vec<Vec<char>>)
    ensures
        views(r@) == long_fragments(views(pieces@)),
{
    let ghost all = views(pieces@);
    let mut out: Vec<Vec<char>> = Vec::new();
    let mut i: usize = 0;
    proof {
        assert(views(out@) =~= long_fragments(all.take(0)));
    }
    while i < pieces.len()
        invariant
            i <= pieces@.len(),
            all == views(pieces@),
            views(out@) == long_fragments(all.take(i as int)),
        decreases pieces@.len() - i,
    {
        proof {
            assert(all.take(i + 1).drop_last() =~= all.take(i as int));
            assert(all.take(i + 1).last() == pieces@[i as int]@);
        }
        let fragment = normalized_chars(pieces[i].as_slice());
        if fragment.len() >= 3 {
            let ghost before = out@;
            out.push(fragment);
            proof {
                lemma_views_push(before, out@.last());
            }
        }
        i += 1;
    }
    proof {
        assert(all.take(i as int) =~= all);
    }
    out
}

/// What a scan for quotations has found in the first `n` characters: where an open quotation
/// begins, and the closed ones.
pub open spec fn quotes_in(s: Seq<char>, open: char, close: char, n: int) -> (
    Option<int>,
    Seq<Seq<char>>,
)
    decreases n,
{
    if n <= 0 {
        (None, Seq::empty())
    } else {
        let (start, found) = quotes_in(s, open, close, n - 1);
        match start {
            None => if s[n - 1] == open {
                (Some(n), found)
            } else {
                (None, found)
            },
            Some(from) => if s[n - 1] == close {
                (None, found.push(s.subrange(from, n - 1)))
            } else {
                (Some(from), found)
            },
        }
    }
}

/// The texts between a pair of quotation marks.
pub open spec fn quotations(s: Seq<char>, open: char, close: char) -> Seq<Seq<char>> {
    quotes_in(s, open, close, s.len() as int).1
}

pub fn add_quotations(out: &mut Vec<Vec<char>>, s: &[char], open: char, close: char)
    ensures
        views(final(out)@) == views(old(out)@) + quotations(s@, open, close),
{
    let ghost start_list = views(out@);
    let mut start: Option<usize> = None;
    let mut i: usize = 0;
    proof {
        assert(start_list + Seq::<Seq<char>>::empty() =~= start_list);
    }
    while i < s.len()
        invariant
            i <= s@.len(),
            start matches Some(from) ==> from <= i,
            (match start {
                Some(from) => Some(from as int),
                None => None,
            }) == quotes_in(s@, open, close, i as int).0,
            views(out@) == start_list + quotes_in(s@, open, close, i as int).1,
        decreases s@.len() - i,
    {
        let c = s[i];
        match start {
            None => {
                if c == open {
                    start = Some(i + 1);
                }
            },
            Some(from) => {
                if c == close {
                    let ghost before = out@;
                    out.push(copy_chars(slice_subrange(s, from, i)));
                    start = None;
                    proof {
                        lemma_views_push(before, out@.last());
                        assert(views(out@) =~= start_list + quotes_in(
                            s@,
                            open,
                            close,
                            i + 1,
                        ).1);
                    }
                }
            },
        }
        i += 1;
    }
}

/// The quotations of the evidence, in any of four kinds of quotation marks, as fragments.
pub open spec fn quoted_fragments(e: Seq<char>) -> Seq<Seq<char>> {
    sort_distinct(
        long_fragments(
            quotations(e, '“', '”') + quotations(e, '‘', '’') + quotations(e, '"', '"')
                + quotations(e, '\'', '\''),
        ),
        false,
    )
}

fn quoted_fragments_of(evidence: &[char]) -> (r: Vec<Vec<char>>)
    ensures
        views(r@) == quoted_fragments(evidence@),
{
    let mut pieces: Vec<Vec<char>> = Vec::new();
    add_quotations(&mut pieces, evidence, '“', '”');
    add_quotations(&mut pieces, evidence, '‘', '’');
    add_quotations(&mut pieces, evidence, '"', '"');
    add_quotations(&mut pieces, evidence, '\'', '\'');
    proof {
        assert(views(pieces@) =~= quotations(evidence@, '“', '”') + quotations(
            evidence@,
            '‘',
            '’',
        ) + quotations(evidence@, '"', '"') + quotations(evidence@, '\'', '\''));
    }
    let fragments = collect_long_fragments(pieces.as_slice());
    sort_distinct_texts(fragments.as_slice(), false)
}

pub fn extract_quoted_coverage_evidence(evidence: &str) -> (r: Vec<String>)
    ensures
        views(r@) == quoted_fragments(evidence@),
{
    let all = chars_of(evidence);
    let list = quoted_fragments_of(all.as_slice());
    strings_of(list.as_slice())
}

/// Whether a character ends a fragment of the evidence.
pub open spec fn ends_fragment(c: char) -> bool {
    white(c) || seq!['。', '！', '？', '!', '?', '；', ';', '…', '⋯', '.', '．'].contains(c)
}

/// The pieces of the evidence between the characters that end a fragment.
pub open spec fn evidence_pieces(s: Seq<char>) -> Seq<Seq<char>>
    decreases s.len(),
{
    if s.len() == 0 {
        seq![Seq::<char>::empty()]
    } else {
        let init = evidence_pieces(s.drop_last());
        if ends_fragment(s.last()) {
            init.push(Seq::<char>::empty())
        } else {
            init.drop_last().push(init.last().push(s.last()))
        }
    }
}

/// The sentences of the evidence as fragments.
pub open spec fn sentence_fragments(e: Seq<char>) -> Seq<Seq<char>> {
    sort_distinct(long_fragments(evidence_pieces(e)), false)
}

fn sentence_fragments_of(s: &[char]) -> (r: Vec<Vec<char>>)
    ensures
        views(r@) == sentence_fragments(s@),
{
    let marks: [char; 11] = ['。', '！', '？', '!', '?', '；', ';', '…', '⋯', '.', '．'];
    proof {
        assert(marks@ =~= seq!['。', '！', '？', '!', '?', '；', ';', '…', '⋯', '.', '．']);
    }
    let mut parts: Vec<Vec<char>> = Vec::new();
    let mut current: Vec<char> = Vec::new();
    let mut i: usize = 0;
    proof {
        assert(views(parts@).push(current@) =~= seq![Seq::<char>::empty()]);
    }
    while i < s.len()
        invariant
            i <= s@.len(),
            marks@ == seq!['。', '！', '？', '!', '?', '；', ';', '…', '⋯', '.', '．'],
            evidence_pieces(s@.take(i as int)) == views(parts@).push(current@),
        decreases s@.len() - i,
    {
        let c = s[i];
        let ghost before = views(parts@);
        let ghost word = current@;
        proof {
            assert(s@.take(i + 1).drop_last() =~= s@.take(i as int));
            assert(before.push(word).drop_last() =~= before);
        }
        if is_whitespace(c) || holds_char(&marks, c) {
            parts.push(current);
            current = Vec::new();
            proof {
                assert(views(parts@) =~= before.push(word));
            }
        } else {
            current.push(c);
        }
        i += 1;
    }
    proof {
        assert(s@.take(i as int) =~= s@);
        lemma_views_push(parts@, current);
    }
    parts.push(current);
    let fragments = collect_long_fragments(parts.as_slice());
    sort_distinct_texts(fragments.as_slice(), false)
}

pub fn split_coverage_evidence(evidence: &str) -> (r: Vec<String>)
    ensures
        views(r@) == sentence_fragments(evidence@),
{
    let all = chars_of(evidence);
    let list = sentence_fragments_of(all.as_slice());
    strings_of(list.as_slice())
}

// ---- evidence -------------------------------------------------------------------------------
/// How many of the fragments the text holds.
pub open spec fn count_found(fragments: Seq<Seq<char>>, text: Seq<char>) -> nat
    decreases fragments.len(),
{
    if fragments.len() == 0 {
        0
    } else {
        count_found(fragments.drop_last(), text) + (if fragment_found(text, fragments.last()) {
            1nat
        } else {
            0nat
        })
    }
}

/// Whether there are fragments and the text holds two thirds of them or more.
pub open spec fn mostly_found(fragments: Seq<Seq<char>>, text: Seq<char>) -> bool {
    fragments.len() > 0 && 3 * count_found(fragments, text) >= 2 * fragments.len()
}

fn are_mostly_found(fragments: &[Vec<char>], text: &[char]) -> (r: bool)
    ensures
        r == mostly_found(views(fragments@), text@),
{
    let ghost all = views(fragments@);
    let mut found: usize = 0;
    let mut i: usize = 0;
    while i < fragments.len()
        invariant
            i <= fragments@.len(),
            found <= i,
            all == views(fragments@),
            found == count_found(all.take(i as int), text@),
        decreases fragments@.len() - i,
    {
        proof {
            assert(all.take(i + 1).drop_last() =~= all.take(i as int));
            assert(all.take(i + 1).last() == fragments@[i as int]@);
        }
        if fragment_is_found(text, fragments[i].as_slice()) {
            found += 1;
        }
        i += 1;
    }
    proof {
        assert(all.take(i as int) =~= all);
    }
    fragments.len() > 0 && 3 * (found as u128) >= 2 * (fragments.len() as u128)
}

/// Whether evidence stands in a text: as a whole, or most of its quotations, or most of its
/// sentences.
pub open spec fn pieces_found(
    whole: Seq<char>,
    quoted: Seq<Seq<char>>,
    sentences: Seq<Seq<char>>,
    text: Seq<char>,
) -> bool {
    ||| whole.len() > 0 && holds(text, whole)
    ||| mostly_found(quoted, text)
    ||| mostly_found(sentences, text)
}

pub fn are_pieces_found(
    whole: &[char],
    quoted: &[Vec<char>],
    sentences: &[Vec<char>],
    text: &[char],
) -> (r: bool)
    ensures
        r == pieces_found(whole@, views(quoted@), views(sentences@), text@),
{
    (whole.len() > 0 && chars_have(text, whole)) || are_mostly_found(quoted, text)
        || are_mostly_found(sentences, text)
}

/// Whether the evidence stands in a normalized text.
pub open spec fn evidence_in(e: Seq<char>, text: Seq<char>) -> bool {
    pieces_found(normalized(e), quoted_fragments(e), sentence_fragments(e), text)
}

/// The text of a rewritten chapter in which evidence is looked for.
pub open spec fn searched_text(r: ParsedChapterRewriteView) -> Seq<char> {
    normalized(r.title + "\n"@ + r.text)
}

/// Whether the evidence of an item stands in one of the rewritten chapters that it names; an
/// item that names none may have it from any.
pub open spec fn evidence_found(
    item: ReviewCoverageItemView,
    rewrites: Seq<ParsedChapterRewriteView>,
) -> bool {
    !blank(item.evidence) && exists|i: int|
        0 <= i < rewrites.len() && (item.chapter_indexes.len() == 0
            || item.chapter_indexes.contains((#[trigger] rewrites[i]).index)) && evidence_in(
            trim(item.evidence),
            searched_text(rewrites[i]),
        )
}

pub fn evidence_exists_in_rewrite(item: &ReviewCoverageItem, rewrites: &[ParsedChapterRewrite]) -> (
r: bool)
    ensures
        r == evidence_found(item@, views(rewrites@)),
{
    let all = chars_of(item.evidence.as_str());
    let evidence = trim_chars(all.as_slice());
    if evidence.len() == 0 {
        return false;
    }
    let ghost list = views(rewrites@);
    let whole = normalized_chars(evidence);
    let quoted = quoted_fragments_of(evidence);
    let sentences = sentence_fragments_of(evidence);
    let mut i: usize = 0;
    while i < rewrites.len()
        invariant
            i <= rewrites@.len(),
            list == views(rewrites@),
            !blank(item.evidence@),
            evidence@ == trim(item.evidence@),
            whole@ == normalized(evidence@),
            views(quoted@) == quoted_fragments(evidence@),
            views(sentences@) == sentence_fragments(evidence@),
            forall|k: int|
                0 <= k < i ==> !((item@.chapter_indexes.len() == 0
                    || item@.chapter_indexes.contains((#[trigger] list[k]).index)) && evidence_in(
                    evidence@,
                    searched_text(list[k]),
                )),
        decreases rewrites@.len() - i,
    {
        let rewrite = &rewrites[i];
        proof {
            assert(list[i as int] == rewrite@);
        }
        if item.chapter_indexes.len() == 0 || holds_index(
            item.chapter_indexes.as_slice(),
            rewrite.index,
        ) {
            let mut joined = rewrite.title.clone();
            joined.append("\n");
            joined.append(rewrite.text.as_str());
            let chars = chars_of(joined.as_str());
            let text = normalized_chars(chars.as_slice());
            if are_pieces_found(
                whole.as_slice(),
                quoted.as_slice(),
                sentences.as_slice(),
                text.as_slice(),
            ) {
                return true;
            }
        }
        i += 1;
    }
    false
}

// ---- when coverage suffices -----------------------------------------------------------------
pub open spec fn obligation_ids(obligations: Seq<RewriteObligationView>) -> Seq<Seq<char>> {
    Seq::new(obligations.len(), |i: int| obligations[i].obligation_id)
}

/// The obligations that the coverage calls satisfied.
pub open spec fn satisfied_ids(coverage: Seq<ReviewCoverageItemView>) -> Seq<Seq<char>>
    decreases coverage.len(),
{
    if coverage.len() == 0 {
        Seq::empty()
    } else if coverage.last().status == "satisfied"@ {
        satisfied_ids(coverage.drop_last()).push(coverage.last().obligation_id)
    } else {
        satisfied_ids(coverage.drop_last())
    }
}

/// Whether a review lets the rewrite pass: it has no issue, and its items are, one for one, the
/// obligations of the plan, all satisfied.
pub open spec fn gate_open(
    plan: RewritePlanView,
    coverage: Seq<ReviewCoverageItemView>,
    issues: Seq<ReviewIssueView>,
) -> bool {
    let expected = obligation_ids(plan.obligations).to_set();
    let actual = satisfied_ids(coverage).to_set();
    &&& issues.len() == 0
    &&& coverage.len() == plan.obligations.len()
    &&& actual == expected
    &&& actual.len() == coverage.len()
}

fn distinct_texts(list: &[String]) -> (r: Vec<String>)
    ensures
        views(r@).no_duplicates(),
        views(r@).to_set() == views(list@).to_set(),
        r@.len() == views(list@).to_set().len(),
{
    let ghost all = views(list@);
    let mut out: Vec<String> = Vec::new();
    let mut i: usize = 0;
    while i < list.len()
        invariant
            i <= list@.len(),
            all == views(list@),
            views(out@).no_duplicates(),
            forall|k: int| 0 <= k < i ==> views(out@).contains(#[trigger] all[k]),
            forall|k: int| 0 <= k < out@.len() ==> all.contains(#[trigger] views(out@)[k]),
        decreases list@.len() - i,
    {
        let ghost before = views(out@);
        proof {
            assert(all[i as int] == list@[i as int]@);
        }
        if !holds_text(out.as_slice(), list[i].as_str()) {
            let ghost old_out = out@;
            out.push(list[i].clone());
            proof {
                lemma_views_push(old_out, out@.last());
                let after = views(out@);
                assert(after == before.push(all[i as int]));
                assert(after[before.len() as int] == all[i as int]);
                assert forall|k: int| 0 <= k < i + 1 implies after.contains(#[trigger] all[k]) by {
                    if k < i {
                        let m = before.index_of(all[k]);
                        assert(after[m] == all[k]);
                    }
                }
            }
        }
        i += 1;
    }
    proof {
        let ids = views(out@);
        assert forall|id: Seq<char>| ids.contains(id) <==> #[trigger] all.contains(id) by {
            if ids.contains(id) {
                let m = ids.index_of(id);
                assert(all.contains(ids[m]));
            }
            if all.contains(id) {
                let m = all.index_of(id);
                assert(ids.contains(all[m]));
            }
        }
        ids.unique_seq_to_set();
        assert(ids.to_set() =~= all.to_set());
    }
    out
}

fn all_listed(list: &[String], among: &[String]) -> (r: bool)
    ensures
        r == forall|i: int| 0 <= i < list@.len() ==> views(among@).contains(#[trigger] views(list@)[i]),
{
    let ghost all = views(list@);
    let mut i: usize = 0;
    while i < list.len()
        invariant
            i <= list@.len(),
            all == views(list@),
            forall|k: int| 0 <= k < i ==> views(among@).contains(#[trigger] all[k]),
        decreases list@.len() - i,
    {
        proof {
            assert(all[i as int] == list@[i as int]@);
        }
        if !holds_text(among, list[i].as_str()) {
            return false;
        }
        i += 1;
    }
    true
}

fn collect_satisfied(coverage: &[ReviewCoverageItem]) -> (r: Vec<String>)
    ensures
        views(r@) == satisfied_ids(views(coverage@)),
{
    let ghost all = views(coverage@);
    let mut out: Vec<String> = Vec::new();
    let mut i: usize = 0;
    proof {
        assert(views(out@) =~= satisfied_ids(all.take(0)));
    }
    while i < coverage.len()
        invariant
            i <= coverage@.len(),
            all == views(coverage@),
            views(out@) == satisfied_ids(all.take(i as int)),
        decreases coverage@.len() - i,
    {
        proof {
            assert(all.take(i + 1).drop_last() =~= all.take(i as int));
            assert(all.take(i + 1).last() == coverage@[i as int]@);
        }
        if same_text(coverage[i].status.as_str(), "satisfied") {
            let ghost before = out@;
            out.push(coverage[i].obligation_id.clone());
            proof {
                lemma_views_push(before, out@.last());
            }
        }
        i += 1;
    }
    proof {
        assert(all.take(i as int) =~= all);
    }
    out
}

fn collect_obligation_ids(obligations: &[RewriteObligation]) -> (r: Vec<String>)
    ensures
        views(r@) == obligation_ids(views(obligations@)),
{
    let ghost all = views(obligations@);
    let mut out: Vec<String> = Vec::new();
    let mut i: usize = 0;
    while i < obligations.len()
        invariant
            i <= obligations@.len(),
            all == views(obligations@),
            views(out@) == obligation_ids(all).take(i as int),
        decreases obligations@.len() - i,
    {
        let ghost before = out@;
        out.push(obligations[i].obligation_id.clone());
        proof {
            lemma_views_push(before, out@.last());
            assert(all[i as int] == obligations@[i as int]@);
            assert(views(out@) =~= obligation_ids(all).take(i + 1));
        }
        i += 1;
    }
    proof {
        assert(obligation_ids(all).take(i as int) =~= obligation_ids(all));
    }
    out
}

pub fn coverage_gate_passes(
    plan: &RewritePlan,
    coverage: &[ReviewCoverageItem],
    issues: &[ReviewIssue],
) -> (r: bool)
    ensures
        r == gate_open(plan@, views(coverage@), views(issues@)),
{
    if issues.len() > 0 || coverage.len() != plan.obligations.len() {
        return false;
    }
    let expected = collect_obligation_ids(plan.obligations.as_slice());
    let satisfied = collect_satisfied(coverage);
    let actual = distinct_texts(satisfied.as_slice());
    let same = all_listed(actual.as_slice(), expected.as_slice()) && all_listed(
        expected.as_slice(),
        actual.as_slice(),
    );
    proof {
        let a = views(actual@);
        let e = views(expected@);
        if same {
            assert forall|id: Seq<char>| a.to_set().contains(id) <==> e.to_set().contains(id) by {
                if a.contains(id) {
                    let m = a.index_of(id);
                    assert(e.contains(a[m]));
                }
                if e.contains(id) {
                    let m = e.index_of(id);
                    assert(a.contains(e[m]));
                }
            }
            assert(a.to_set() =~= e.to_set());
        } else if a.to_set() == e.to_set() {
            assert forall|i: int| 0 <= i < a.len() implies e.contains(#[trigger] a[i]) by {
                assert(a.to_set().contains(a[i]));
            }
            assert forall|i: int| 0 <= i < e.len() implies a.contains(#[trigger] e[i]) by {
                assert(e.to_set().contains(e[i]));
            }
        }
    }
    same && actual.len() == coverage.len()
}

/// What has to be done to meet an obligation.
pub open spec fn fix_summary(o: RewriteObligationView) -> Seq<char> {
    if o.required_changes.len() > 0 {
        join(o.required_changes, "；"@)
    } else if o.preserve.len() > 0 {
        "按原文恢复并保留："@ + join(o.preserve, "；"@)
    } else {
        "按原文章节恢复该节点，不新增或跨章搬运内容"@
    }
}

pub fn obligation_fix_summary(obligation: &RewriteObligation) -> (r: String)
    ensures
        r@ == fix_summary(obligation@),
{
    if obligation.required_changes.len() > 0 {
        join_texts(obligation.required_changes.as_slice(), "；")
    } else if obligation.preserve.len() > 0 {
        let list = join_texts(obligation.preserve.as_slice(), "；");
        let mut out = "按原文恢复并保留：".to_string();
        out.append(list.as_str());
        out
    } else {
        "按原文章节恢复该节点，不新增或跨章搬运内容".to_string()
    }
}

/// How many items call an obligation of the chapter satisfied.
pub open spec fn satisfied_count(
    coverage: Seq<ReviewCoverageItemView>,
    obligations: Seq<RewriteObligationView>,
    chapter_index: i64,
) -> nat
    decreases coverage.len(),
{
    if coverage.len() == 0 {
        0
    } else {
        let item = coverage.last();
        satisfied_count(coverage.drop_last(), obligations, chapter_index) + (if item.status
            == "satisfied"@ && obligation_chapter(obligations, item.obligation_id) == Some(
            chapter_index,
        ) {
            1nat
        } else {
            0nat
        })
    }
}

/// The chapter of the last obligation with that id.
pub open spec fn obligation_chapter(obligations: Seq<RewriteObligationView>, id: Seq<char>) -> Option<
    i64,
>
    decreases obligations.len(),
{
    if obligations.len() == 0 {
        None
    } else if obligations.last().obligation_id == id {
        Some(obligations.last().chapter_index)
    } else {
        obligation_chapter(obligations.drop_last(), id)
    }
}

fn find_obligation_chapter(obligations: &[RewriteObligation], id: &str) -> (r: Option<i64>)
    ensures
        r == obligation_chapter(views(obligations@), id@),
{
    let ghost all = views(obligations@);
    let mut n: usize = obligations.len();
    proof {
        assert(all.take(n as int) =~= all);
    }
    while n > 0
        invariant
            n <= obligations@.len(),
            all == views(obligations@),
            obligation_chapter(all, id@) == obligation_chapter(all.take(n as int), id@),
        decreases n,
    {
        proof {
            assert(all.take(n as int).last() == obligations@[n - 1]@);
            assert(all.take(n as int).drop_last() =~= all.take(n - 1));
        }
        if same_text(obligations[n - 1].obligation_id.as_str(), id) {
            return Some(obligations[n - 1].chapter_index);
        }
        n -= 1;
    }
    None
}

/// How many obligations of a chapter a review found satisfied.
pub fn count_satisfied_for_chapter(
    coverage: &[ReviewCoverageItem],
    plan: &RewritePlan,
    chapter_index: i64,
) -> (r: usize)
    ensures
        r == satisfied_count(views(coverage@), plan@.obligations, chapter_index),
{
    let ghost all = views(coverage@);
    let mut count: usize = 0;
    let mut i: usize = 0;
    while i < coverage.len()
        invariant
            i <= coverage@.len(),
            count <= i,
            all == views(coverage@),
            count == satisfied_count(all.take(i as int), plan@.obligations, chapter_index),
        decreases coverage@.len() - i,
    {
        proof {
            assert(all.take(i + 1).drop_last() =~= all.take(i as int));
            assert(all.take(i + 1).last() == coverage@[i as int]@);
        }
        if same_text(coverage[i].status.as_str(), "satisfied") {
            let chapter = find_obligation_chapter(
                plan.obligations.as_slice(),
                coverage[i].obligation_id.as_str(),
            );
            if let Some(c) = chapter {
                if c == chapter_index {
                    count += 1;
                }
            }
        }
        i += 1;
    }
    proof {
        assert(all.take(i as int) =~= all);
    }
    count
}

/// What is kept of a review for a chapter.
#[derive(Debug, PartialEq, Eq)]
pub struct ChapterValidation {
    pub chapter_id: String,
    pub status: String,
    pub satisfied: usize,
}

pub struct ChapterValidationView {
    pub chapter_id: Seq<char>,
    pub status: Seq<char>,
    pub satisfied: nat,
}

impl View for ChapterValidation {
    type V = ChapterValidationView;

    open spec fn view(&self) -> ChapterValidationView {
        ChapterValidationView {
            chapter_id: self.chapter_id@,
            status: self.status@,
            satisfied: self.satisfied as nat,
        }
    }
}

/// What is kept of a review for each chapter of a shard.
pub open spec fn validations(
    shard: Seq<ChapterView>,
    plan: RewritePlanView,
    approved: bool,
    coverage: Seq<ReviewCoverageItemView>,
) -> Seq<ChapterValidationView> {
    Seq::new(
        shard.len(),
        |i: int|
            ChapterValidationView {
                chapter_id: shard[i].id,
                status: if approved {
                    "passed"@
                } else {
                    "failed"@
                },
                satisfied: satisfied_count(coverage, plan.obligations, shard[i].index),
            },
    )
}

pub fn chapter_validations(
    shard: &[Chapter],
    plan: &RewritePlan,
    approved: bool,
    coverage: &[ReviewCoverageItem],
) -> (r: Vec<ChapterValidation>)
    ensures
        views(r@) == validations(views(shard@), plan@, approved, views(coverage@)),
{
    let ghost goal = validations(views(shard@), plan@, approved, views(coverage@));
    let mut out: Vec<ChapterValidation> = Vec::new();
    let mut i: usize = 0;
    while i < shard.len()
        invariant
            i <= shard@.len(),
            goal == validations(views(shard@), plan@, approved, views(coverage@)),
            views(out@) == goal.take(i as int),
        decreases shard@.len() - i,
    {
        let satisfied = count_satisfied_for_chapter(coverage, plan, shard[i].index);
        let status = if approved {
            "passed".to_string()
        } else {
            "failed".to_string()
        };
        let ghost before = out@;
        out.push(ChapterValidation { chapter_id: shard[i].id.clone(), status, satisfied });
        proof {
            lemma_views_push(before, out@.last());
            assert(views(shard@)[i as int] == shard@[i as int]@);
            assert(views(out@) =~= goal.take(i + 1));
        }
        i += 1;
    }
    proof {
        assert(goal.take(i as int) =~= goal);
    }
    out
}

// ---- states ---------------------------------------------------------------------------------
/// The order of states: by chapter, then by thread, then by kind.
pub open spec fn state_before(a: RewriteStateUpdateView, b: RewriteStateUpdateView) -> bool {
    if a.chapter_index != b.chapter_index {
        a.chapter_index < b.chapter_index
    } else if a.thread_key != b.thread_key {
        lex_less(a.thread_key, b.thread_key)
    } else {
        lex_less(a.state_type, b.state_type)
    }
}

fn is_state_before(a: &RewriteStateUpdate, b: &RewriteStateUpdate) -> (r: bool)
    ensures
        r == state_before(a@, b@),
{
    if a.chapter_index != b.chapter_index {
        return a.chapter_index < b.chapter_index;
    }
    let x = chars_of(a.thread_key.as_str());
    let y = chars_of(b.thread_key.as_str());
    if !same_chars(x.as_slice(), y.as_slice()) {
        return lex_less_chars(x.as_slice(), y.as_slice());
    }
    let x = chars_of(a.state_type.as_str());
    let y = chars_of(b.state_type.as_str());
    lex_less_chars(x.as_slice(), y.as_slice())
}

/// A sorted list with one more state, behind those of the same rank.
pub open spec fn insert_state(
    s: Seq<RewriteStateUpdateView>,
    x: RewriteStateUpdateView,
) -> Seq<RewriteStateUpdateView>
    decreases s.len(),
{
    if s.len() == 0 {
        seq![x]
    } else if state_before(x, s.last()) {
        insert_state(s.drop_last(), x).push(s.last())
    } else {
        s.push(x)
    }
}

/// The states in their order.
pub open spec fn sort_states(s: Seq<RewriteStateUpdateView>) -> Seq<RewriteStateUpdateView>
    decreases s.len(),
{
    if s.len() == 0 {
        Seq::empty()
    } else {
        insert_state(sort_states(s.drop_last()), s.last())
    }
}

fn insert_sorted_state(list: &mut Vec<RewriteStateUpdate>, x: RewriteStateUpdate)
    ensures
        views(final(list)@) == insert_state(views(old(list)@), x@),
{
    let ghost all = views(list@);
    let mut p: usize = list.len();
    proof {
        assert(all.take(p as int) =~= all);
        assert(insert_state(all, x@) =~= insert_state(all.take(p as int), x@) + all.skip(p as int));
    }
    while p > 0 && is_state_before(&x, &list[p - 1])
        invariant
            p <= list@.len(),
            list@ == old(list)@,
            all == views(old(list)@),
            insert_state(all, x@) == insert_state(all.take(p as int), x@) + all.skip(p as int),
        decreases p,
    {
        proof {
            let part = all.take(p as int);
            assert(part.last() == list@[p - 1]@);
            assert(part.drop_last() =~= all.take(p - 1));
            assert(insert_state(all.take(p - 1), x@).push(part.last()) + all.skip(p as int)
                =~= insert_state(all.take(p - 1), x@) + all.skip(p - 1));
        }
        p -= 1;
    }
    let ghost v = x@;
    proof {
        let part = all.take(p as int);
        if p > 0 {
            assert(part.last() == list@[p - 1]@);
            assert(insert_state(part, v) == part.push(v));
        } else {
            assert(part =~= Seq::empty());
            assert(insert_state(part, v) =~= part.push(v));
        }
    }
    list.insert(p, x);
    proof {
        assert(views(list@) =~= all.take(p as int).push(v) + all.skip(p as int));
    }
}

fn sort_state_list(list: &[RewriteStateUpdate]) -> (r: Vec<RewriteStateUpdate>)
    ensures
        views(r@) == sort_states(views(list@)),
{
    let ghost all = views(list@);
    let mut out: Vec<RewriteStateUpdate> = Vec::new();
    let mut i: usize = 0;
    proof {
        assert(views(out@) =~= sort_states(all.take(0)));
    }
    while i < list.len()
        invariant
            i <= list@.len(),
            all == views(list@),
            views(out@) == sort_states(all.take(i as int)),
        decreases list@.len() - i,
    {
        proof {
            assert(all.take(i + 1).drop_last() =~= all.take(i as int));
            assert(all.take(i + 1).last() == list@[i as int]@);
        }
        insert_sorted_state(&mut out, list[i].duplicate());
        i += 1;
    }
    proof {
        assert(all.take(i as int) =~= all);
    }
    out
}

/// Whether two states are about the same thread and kind, white space around the names aside.
pub open spec fn same_planned_state(a: RewriteStateUpdateView, b: RewriteStateUpdateView) -> bool {
    trim(a.thread_key) == trim(b.thread_key) && trim(a.state_type) == trim(b.state_type)
}

/// The first state from `i` on that is about the same thread and kind.
pub open spec fn planned_position(
    list: Seq<RewriteStateUpdateView>,
    x: RewriteStateUpdateView,
    i: int,
) -> Option<int>
    decreases list.len() - i,
{
    if i < 0 || i >= list.len() {
        None
    } else if same_planned_state(list[i], x) {
        Some(i)
    } else {
        planned_position(list, x, i + 1)
    }
}

/// Takes in one more planned state: of one thread and kind only the state of the latest chapter
/// stays, and of two of one chapter the first.
pub open spec fn with_planned(
    list: Seq<RewriteStateUpdateView>,
    x: RewriteStateUpdateView,
) -> Seq<RewriteStateUpdateView> {
    match planned_position(list, x, 0) {
        Some(k) => if x.chapter_index > list[k].chapter_index {
            list.update(k, x)
        } else {
            list
        },
        None => list.push(x),
    }
}

pub open spec fn all_planned(states: Seq<RewriteStateUpdateView>) -> Seq<RewriteStateUpdateView>
    decreases states.len(),
{
    if states.len() == 0 {
        Seq::empty()
    } else {
        with_planned(all_planned(states.drop_last()), states.last())
    }
}

pub open spec fn obligation_states(obligations: Seq<RewriteObligationView>) -> Seq<
    RewriteStateUpdateView,
>
    decreases obligations.len(),
{
    if obligations.len() == 0 {
        Seq::empty()
    } else {
        obligation_states(obligations.drop_last()) + obligations.last().planned_state_updates
    }
}

/// The states that a plan sets: its own ones, or else those of its obligations.
pub open spec fn canonical_states(plan: RewritePlanView) -> Seq<RewriteStateUpdateView> {
    sort_states(
        all_planned(
            if plan.planned_state_updates.len() == 0 {
                obligation_states(plan.obligations)
            } else {
                plan.planned_state_updates
            },
        ),
    )
}

fn find_planned(list: &[RewriteStateUpdate], x: &RewriteStateUpdate) -> (r: Option<usize>)
    ensures
        match r {
            Some(k) => k < list@.len() && planned_position(views(list@), x@, 0) == Some(k as int),
            None => planned_position(views(list@), x@, 0) is None,
        },
{
    let ghost all = views(list@);
    let thread = trimmed(x.thread_key.as_str());
    let kind = trimmed(x.state_type.as_str());
    let mut i: usize = 0;
    while i < list.len()
        invariant
            i <= list@.len(),
            all == views(list@),
            thread@ == trim(x.thread_key@),
            kind@ == trim(x.state_type@),
            planned_position(all, x@, 0) == planned_position(all, x@, i as int),
        decreases list@.len() - i,
    {
        proof {
            assert(all[i as int] == list@[i as int]@);
        }
        let other_thread = trimmed(list[i].thread_key.as_str());
        let other_kind = trimmed(list[i].state_type.as_str());
        if same_text(other_thread.as_str(), thread.as_str()) && same_text(
            other_kind.as_str(),
            kind.as_str(),
        ) {
            return Some(i);
        }
        i += 1;
    }
    None
}

fn add_planned(list: &mut Vec<RewriteStateUpdate>, states: &[RewriteStateUpdate], Ghost(before): Ghost<
    Seq<RewriteStateUpdateView>,
>)
    requires
        views(old(list)@) == all_planned(before),
    ensures
        views(final(list)@) == all_planned(before + views(states@)),
{
    let ghost all = views(states@);
    let mut i: usize = 0;
    proof {
        assert(before + all.take(0) =~= before);
    }
    while i < states.len()
        invariant
            i <= states@.len(),
            all == views(states@),
            views(list@) == all_planned(before + all.take(i as int)),
        decreases states@.len() - i,
    {
        let ghost so_far = views(list@);
        let ghost x = states@[i as int]@;
        proof {
            let longer = before + all.take(i + 1);
            assert(longer.drop_last() =~= before + all.take(i as int));
            assert(longer.last() == x);
        }
        match find_planned(list.as_slice(), &states[i]) {
            Some(k) => {
                proof {
                    assert(so_far[k as int] == list@[k as int]@);
                }
                if states[i].chapter_index > list[k].chapter_index {
                    list.set(k, states[i].duplicate());
                    proof {
                        assert(views(list@) =~= so_far.update(k as int, x));
                    }
                }
            },
            None => {
                list.push(states[i].duplicate());
                proof {
                    assert(views(list@) =~= so_far.push(x));
                }
            },
        }
        i += 1;
    }
    proof {
        assert(all.take(i as int) =~= all);
    }
}

pub fn canonical_planned_state_updates(plan: &RewritePlan) -> (r: Vec<RewriteStateUpdate>)
    ensures
        views(r@) == canonical_states(plan@),
{
    let mut canonical: Vec<RewriteStateUpdate> = Vec::new();
    proof {
        assert(views(canonical@) =~= all_planned(Seq::empty()));
    }
    if plan.planned_state_updates.len() == 0 {
        let ghost all = views(plan.obligations@);
        let mut i: usize = 0;
        while i < plan.obligations.len()
            invariant
                i <= plan.obligations@.len(),
                all == views(plan.obligations@),
                views(canonical@) == all_planned(obligation_states(all.take(i as int))),
            decreases plan.obligations@.len() - i,
        {
            proof {
                assert(all.take(i + 1).drop_last() =~= all.take(i as int));
                assert(all.take(i + 1).last() == plan.obligations@[i as int]@);
            }
            add_planned(
                &mut canonical,
                plan.obligations[i].planned_state_updates.as_slice(),
                Ghost(obligation_states(all.take(i as int))),
            );
            i += 1;
        }
        proof {
            assert(all.take(i as int) =~= all);
        }
    } else {
        add_planned(&mut canonical, plan.planned_state_updates.as_slice(), Ghost(Seq::empty()));
        proof {
            assert(Seq::<RewriteStateUpdateView>::empty() + plan@.planned_state_updates
                =~= plan@.planned_state_updates);
        }
    }
    sort_state_list(canonical.as_slice())
}

/// Whether two states are about the same thread and kind.
pub open spec fn same_state(a: RewriteStateUpdateView, b: RewriteStateUpdateView) -> bool {
    a.thread_key == b.thread_key && a.state_type == b.state_type
}

pub open spec fn state_position(
    list: Seq<RewriteStateUpdateView>,
    x: RewriteStateUpdateView,
    i: int,
) -> Option<int>
    decreases list.len() - i,
{
    if i < 0 || i >= list.len() {
        None
    } else if same_state(list[i], x) {
        Some(i)
    } else {
        state_position(list, x, i + 1)
    }
}

/// Takes in one more state. It replaces the one of its thread and kind, unless that is of a
/// later chapter and `keep_later` says that it stays.
pub open spec fn with_state(
    list: Seq<RewriteStateUpdateView>,
    x: RewriteStateUpdateView,
    keep_later: bool,
) -> Seq<RewriteStateUpdateView> {
    match state_position(list, x, 0) {
        Some(k) => if keep_later && x.chapter_index < list[k].chapter_index {
            list
        } else {
            list.update(k, x)
        },
        None => list.push(x),
    }
}

pub open spec fn with_states(
    list: Seq<RewriteStateUpdateView>,
    more: Seq<RewriteStateUpdateView>,
    keep_later: bool,
) -> Seq<RewriteStateUpdateView>
    decreases more.len(),
{
    if more.len() == 0 {
        list
    } else {
        with_state(with_states(list, more.drop_last(), keep_later), more.last(), keep_later)
    }
}

/// The states of a story after some updates, in their order.
pub open spec fn merged_states(
    existing: Seq<RewriteStateUpdateView>,
    updates: Seq<RewriteStateUpdateView>,
) -> Seq<RewriteStateUpdateView> {
    sort_states(with_states(with_states(Seq::empty(), existing, false), updates, true))
}

fn find_state(list: &[RewriteStateUpdate], x: &RewriteStateUpdate) -> (r: Option<usize>)
    ensures
        match r {
            Some(k) => k < list@.len() && state_position(views(list@), x@, 0) == Some(k as int),
            None => state_position(views(list@), x@, 0) is None,
        },
{
    let ghost all = views(list@);
    let mut i: usize = 0;
    while i < list.len()
        invariant
            i <= list@.len(),
            all == views(list@),
            state_position(all, x@, 0) == state_position(all, x@, i as int),
        decreases list@.len() - i,
    {
        proof {
            assert(all[i as int] == list@[i as int]@);
        }
        if same_text(list[i].thread_key.as_str(), x.thread_key.as_str()) && same_text(
            list[i].state_type.as_str(),
            x.state_type.as_str(),
        ) {
            return Some(i);
        }
        i += 1;
    }
    None
}

fn add_states(list: &mut Vec<RewriteStateUpdate>, more: &[RewriteStateUpdate], keep_later: bool)
    ensures
        views(final(list)@) == with_states(views(old(list)@), views(more@), keep_later),
{
    let ghost start = views(list@);
    let ghost all = views(more@);
    let mut i: usize = 0;
    while i < more.len()
        invariant
            i <= more@.len(),
            all == views(more@),
            views(list@) == with_states(start, all.take(i as int), keep_later),
        decreases more@.len() - i,
    {
        let ghost so_far = views(list@);
        let ghost x = more@[i as int]@;
        proof {
            assert(all.take(i + 1).drop_last() =~= all.take(i as int));
            assert(all.take(i + 1).last() == x);
        }
        match find_state(list.as_slice(), &more[i]) {
            Some(k) => {
                proof {
                    assert(so_far[k as int] == list@[k as int]@);
                }
                if !(keep_later && more[i].chapter_index < list[k].chapter_index) {
                    list.set(k, more[i].duplicate());
                    proof {
                        assert(views(list@) =~= so_far.update(k as int, x));
                    }
                }
            },
            None => {
                list.push(more[i].duplicate());
                proof {
                    assert(views(list@) =~= so_far.push(x));
                }
            },
        }
        i += 1;
    }
    proof {
        assert(all.take(i as int) =~= all);
    }
}

pub fn merge_continuity_states(
    existing: Vec<RewriteStateUpdate>,
    updates: &[RewriteStateUpdate],
) -> (r: Vec<RewriteStateUpdate>)
    ensures
        views(r@) == merged_states(views(existing@), views(updates@)),
{
    let mut merged: Vec<RewriteStateUpdate> = Vec::new();
    proof {
        assert(views(merged@) =~= Seq::<RewriteStateUpdateView>::empty());
    }
    add_states(&mut merged, existing.as_slice(), false);
    add_states(&mut merged, updates, true);
    sort_state_list(merged.as_slice())
}

// ---- laws -----------------------------------------------------------------------------------
/// Being one edit apart is a relation between equals.
pub proof fn law_one_edit_is_symmetric(a: Seq<char>, b: Seq<char>)
    ensures
        one_edit(a, b) == one_edit(b, a),
{
}

/// Every text is within one edit of itself.
pub proof fn law_one_edit_is_reflexive(a: Seq<char>)
    ensures
        one_edit(a, a),
{
}

proof fn lemma_satisfied_len(coverage: Seq<ReviewCoverageItemView>)
    ensures
        satisfied_ids(coverage).len() <= coverage.len(),
        satisfied_ids(coverage).len() == coverage.len() ==> forall|i: int|
            0 <= i < coverage.len() ==> (#[trigger] coverage[i]).status == "satisfied"@
                && satisfied_ids(coverage)[i] == coverage[i].obligation_id,
    decreases coverage.len(),
{
    if coverage.len() > 0 {
        let rest = coverage.drop_last();
        lemma_satisfied_len(rest);
        if satisfied_ids(coverage).len() == coverage.len() {
            assert forall|i: int| 0 <= i < coverage.len() implies (#[trigger] coverage[i]).status
                == "satisfied"@ && satisfied_ids(coverage)[i] == coverage[i].obligation_id by {
                if i < rest.len() {
                    assert(rest[i] == coverage[i]);
                }
            }
        }
    }
}

/// A review that passes calls every item satisfied, has no two items for one obligation, and
/// has an item for each obligation of the plan.
pub proof fn law_open_gate_means_all_satisfied(
    plan: RewritePlanView,
    coverage: Seq<ReviewCoverageItemView>,
    issues: Seq<ReviewIssueView>,
)
    requires
        gate_open(plan, coverage, issues),
    ensures
        forall|i: int| 0 <= i < coverage.len() ==> (#[trigger] coverage[i]).status == "satisfied"@,
        forall|i: int, j: int|
            0 <= i < j < coverage.len() ==> (#[trigger] coverage[i]).obligation_id != (
            #[trigger] coverage[j]).obligation_id,
        forall|k: int|
            0 <= k < plan.obligations.len() ==> satisfied_ids(coverage).contains(
                (#[trigger] plan.obligations[k]).obligation_id,
            ),
{
    let ids = satisfied_ids(coverage);
    lemma_satisfied_len(coverage);
    ids.lemma_cardinality_of_set();
    ids.lemma_no_dup_set_cardinality();
    assert forall|i: int, j: int| 0 <= i < j < coverage.len() implies (
    #[trigger] coverage[i]).obligation_id != (#[trigger] coverage[j]).obligation_id by {
        assert(ids[i] == coverage[i].obligation_id);
        assert(ids[j] == coverage[j].obligation_id);
    }
    assert forall|k: int| 0 <= k < plan.obligations.len() implies ids.contains(
        (#[trigger] plan.obligations[k]).obligation_id,
    ) by {
        let expected = obligation_ids(plan.obligations);
        assert(expected[k] == plan.obligations[k].obligation_id);
        assert(expected.to_set().contains(expected[k]));
        assert(ids.to_set().contains(expected[k]));
    }
}

proof fn lemma_state_order(
    a: RewriteStateUpdateView,
    b: RewriteStateUpdateView,
    c: RewriteStateUpdateView,
)
    ensures
        !(state_before(a, b) && state_before(b, a)),
        state_before(a, b) && !state_before(c, b) ==> state_before(a, c),
{
    lemma_lex_trichotomy(a.thread_key, b.thread_key);
    lemma_lex_trichotomy(b.thread_key, c.thread_key);
    lemma_lex_trichotomy(a.thread_key, c.thread_key);
    lemma_lex_trichotomy(a.state_type, b.state_type);
    lemma_lex_trichotomy(b.state_type, c.state_type);
    lemma_lex_trichotomy(a.state_type, c.state_type);
    if lex_less(a.thread_key, b.thread_key) && lex_less(b.thread_key, c.thread_key) {
        lemma_lex_transitive(a.thread_key, b.thread_key, c.thread_key);
    }
    if lex_less(a.state_type, b.state_type) && lex_less(b.state_type, c.state_type) {
        lemma_lex_transitive(a.state_type, b.state_type, c.state_type);
    }
}

/// Whether no state stands before one that comes first in the order.
pub open spec fn states_ordered(s: Seq<RewriteStateUpdateView>) -> bool {
    forall|i: int, j: int| 0 <= i < j < s.len() ==> !state_before(#[trigger] s[j], #[trigger] s[i])
}

proof fn lemma_insert_state(s: Seq<RewriteStateUpdateView>, x: RewriteStateUpdateView)
    requires
        states_ordered(s),
    ensures
        states_ordered(insert_state(s, x)),
        insert_state(s, x).to_multiset() == s.push(x).to_multiset(),
        insert_state(s, x).len() == s.len() + 1,
        forall|i: int|
            0 <= i < insert_state(s, x).len() ==> s.contains(#[trigger] insert_state(s, x)[i])
                || insert_state(s, x)[i] == x,
    decreases s.len(),
{
    broadcast use vstd::seq_lib::group_to_multiset_ensures;

    let r = insert_state(s, x);
    if s.len() == 0 {
        assert(r =~= s.push(x));
    } else if state_before(x, s.last()) {
        let rest = s.drop_last();
        let last = s.last();
        lemma_insert_state(rest, x);
        let inner = insert_state(rest, x);
        assert(r == inner.push(last));
        assert forall|i: int, j: int| 0 <= i < j < r.len() implies !state_before(
            #[trigger] r[j],
            #[trigger] r[i],
        ) by {
            if j == inner.len() {
                assert(rest.contains(inner[i]) || inner[i] == x);
                if inner[i] == x {
                    lemma_state_order(x, last, x);
                } else {
                    let k = rest.index_of(inner[i]);
                    assert(s[k] == inner[i]);
                    assert(!state_before(s[s.len() - 1], s[k]));
                }
            } else {
                assert(r[i] == inner[i] && r[j] == inner[j]);
            }
        }
        assert forall|i: int| 0 <= i < r.len() implies s.contains(#[trigger] r[i]) || r[i] == x by {
            if i < inner.len() {
                if rest.contains(inner[i]) {
                    assert(s[rest.index_of(inner[i])] == inner[i]);
                }
            } else {
                assert(s[s.len() - 1] == r[i]);
            }
        }
        assert(s =~= rest.push(last));
        assert(r.to_multiset() =~= s.push(x).to_multiset());
    } else {
        assert forall|i: int, j: int| 0 <= i < j < r.len() implies !state_before(
            #[trigger] r[j],
            #[trigger] r[i],
        ) by {
            if j == s.len() && i < s.len() - 1 {
                assert(!state_before(s[s.len() - 1], s[i]));
                lemma_state_order(x, s[i], s.last());
            }
        }
        assert forall|i: int| 0 <= i < r.len() implies s.contains(#[trigger] r[i]) || r[i] == x by {
            if i < s.len() {
                assert(s[i] == r[i]);
            }
        }
    }
}

/// Sorting states loses none and adds none, and puts them in order.
pub proof fn law_states_are_sorted(s: Seq<RewriteStateUpdateView>)
    ensures
        states_ordered(sort_states(s)),
        sort_states(s).to_multiset() == s.to_multiset(),
    decreases s.len(),
{
    broadcast use vstd::seq_lib::group_to_multiset_ensures;

    if s.len() > 0 {
        let rest = s.drop_last();
        law_states_are_sorted(rest);
        lemma_insert_state(sort_states(rest), s.last());
        assert(s =~= rest.push(s.last()));
    }
}

proof fn lemma_state_position(list: Seq<RewriteStateUpdateView>, x: RewriteStateUpdateView, i: int)
    requires
        0 <= i <= list.len(),
    ensures
        state_position(list, x, i) matches Some(k) ==> i <= k < list.len() && same_state(
            list[k],
            x,
        ),
        state_position(list, x, i) is None ==> forall|k: int|
            i <= k < list.len() ==> !same_state(#[trigger] list[k], x),
    decreases list.len() - i,
{
    if i < list.len() && !same_state(list[i], x) {
        lemma_state_position(list, x, i + 1);
    }
}

/// Whether no two states are about the same thread and kind.
pub open spec fn states_differ(list: Seq<RewriteStateUpdateView>) -> bool {
    forall|i: int, j: int|
        0 <= i < j < list.len() ==> !same_state(#[trigger] list[i], #[trigger] list[j])
}

/// Whether the list has a state of the same thread and kind from the same chapter or a later one.
pub open spec fn superseded(list: Seq<RewriteStateUpdateView>, u: RewriteStateUpdateView) -> bool {
    exists|k: int|
        0 <= k < list.len() && same_state(#[trigger] list[k], u) && list[k].chapter_index
            >= u.chapter_index
}

proof fn lemma_with_state(
    list: Seq<RewriteStateUpdateView>,
    x: RewriteStateUpdateView,
    keep_later: bool,
)
    requires
        states_differ(list),
    ensures
        states_differ(with_state(list, x, keep_later)),
        keep_later ==> superseded(with_state(list, x, keep_later), x),
        keep_later ==> forall|u: RewriteStateUpdateView|
            superseded(list, u) ==> #[trigger] superseded(with_state(list, x, keep_later), u),
{
    lemma_state_position(list, x, 0);
    let after = with_state(list, x, keep_later);
    match state_position(list, x, 0) {
        Some(k) => {
            assert(same_state(after[k], x));
            assert(states_differ(after)) by {
                assert forall|i: int, j: int| 0 <= i < j < after.len() implies !same_state(
                    #[trigger] after[i],
                    #[trigger] after[j],
                ) by {
                    assert(!same_state(list[i], list[j]));
                    assert(same_state(list[k], x));
                }
            }
        },
        None => {
            assert(after[list.len() as int] == x);
        },
    }
    if keep_later {
        assert forall|u: RewriteStateUpdateView| superseded(list, u) implies #[trigger] superseded(
            after,
            u,
        ) by {
            let m = choose|m: int|
                0 <= m < list.len() && same_state(#[trigger] list[m], u) && list[m].chapter_index
                    >= u.chapter_index;
            assert(same_state(after[m], u));
        }
    }
}

proof fn lemma_with_states(
    list: Seq<RewriteStateUpdateView>,
    more: Seq<RewriteStateUpdateView>,
    keep_later: bool,
)
    requires
        states_differ(list),
    ensures
        states_differ(with_states(list, more, keep_later)),
        keep_later ==> forall|i: int|
            0 <= i < more.len() ==> superseded(
                with_states(list, more, keep_later),
                #[trigger] more[i],
            ),
        keep_later ==> forall|u: RewriteStateUpdateView|
            superseded(list, u) ==> #[trigger] superseded(with_states(list, more, keep_later), u),
    decreases more.len(),
{
    if more.len() > 0 {
        let rest = more.drop_last();
        lemma_with_states(list, rest, keep_later);
        lemma_with_state(with_states(list, rest, keep_later), more.last(), keep_later);
        if keep_later {
            assert forall|i: int| 0 <= i < more.len() implies superseded(
                with_states(list, more, keep_later),
                #[trigger] more[i],
            ) by {
                if i < rest.len() {
                    assert(rest[i] == more[i]);
                    assert(superseded(with_states(list, rest, keep_later), rest[i]));
                }
            }
            assert forall|u: RewriteStateUpdateView| superseded(list, u) implies #[trigger] superseded(
                with_states(list, more, keep_later),
                u,
            ) by {
                assert(superseded(with_states(list, rest, keep_later), u));
            }
        }
    }
}

proof fn lemma_sorted_keeps(s: Seq<RewriteStateUpdateView>)
    ensures
        forall|u: RewriteStateUpdateView|
            superseded(s, u) ==> #[trigger] superseded(sort_states(s), u),
        states_differ(s) ==> states_differ(sort_states(s)),
    decreases s.len(),
{
    broadcast use vstd::seq_lib::group_to_multiset_ensures;

    let r = sort_states(s);
    law_states_are_sorted(s);
    assert forall|u: RewriteStateUpdateView| superseded(s, u) implies #[trigger] superseded(
        r,
        u,
    ) by {
        let k = choose|k: int|
            0 <= k < s.len() && same_state(#[trigger] s[k], u) && s[k].chapter_index
                >= u.chapter_index;
        assert(s.to_multiset().count(s[k]) > 0) by {
            assert(s.contains(s[k]));
        }
        assert(r.contains(s[k]));
        let m = r.index_of(s[k]);
        assert(same_state(r[m], u));
    }
    if states_differ(s) && s.len() > 0 {
        let rest = s.drop_last();
        assert(states_differ(rest)) by {
            assert forall|i: int, j: int| 0 <= i < j < rest.len() implies !same_state(
                #[trigger] rest[i],
                #[trigger] rest[j],
            ) by {
                assert(!same_state(s[i], s[j]));
            }
        }
        lemma_sorted_keeps(rest);
        law_states_are_sorted(rest);
        let x = s.last();
        let sorted = sort_states(rest);
        assert forall|i: int| 0 <= i < sorted.len() implies !same_state(
            #[trigger] sorted[i],
            x,
        ) by {
            assert(sorted.contains(sorted[i]));
            assert(sorted.to_multiset().count(sorted[i]) > 0);
            assert(rest.contains(sorted[i]));
            let k = rest.index_of(sorted[i]);
            assert(!same_state(s[k], s[s.len() - 1]));
        }
        lemma_insert_differs(sorted, x);
    }
}

proof fn lemma_insert_differs(s: Seq<RewriteStateUpdateView>, x: RewriteStateUpdateView)
    requires
        states_differ(s),
        forall|i: int| 0 <= i < s.len() ==> !same_state(#[trigger] s[i], x),
    ensures
        states_differ(insert_state(s, x)),
        forall|i: int|
            0 <= i < insert_state(s, x).len() ==> s.contains(#[trigger] insert_state(s, x)[i])
                || insert_state(s, x)[i] == x,
    decreases s.len(),
{
    let r = insert_state(s, x);
    if s.len() == 0 {
    } else if state_before(x, s.last()) {
        let rest = s.drop_last();
        lemma_insert_differs(rest, x);
        let inner = insert_state(rest, x);
        assert(r == inner.push(s.last()));
        assert forall|i: int| 0 <= i < r.len() implies s.contains(#[trigger] r[i]) || r[i] == x by {
            if i < inner.len() {
                if rest.contains(inner[i]) {
                    assert(s[rest.index_of(inner[i])] == inner[i]);
                }
            } else {
                assert(s[s.len() - 1] == r[i]);
            }
        }
        assert forall|i: int, j: int| 0 <= i < j < r.len() implies !same_state(
            #[trigger] r[i],
            #[trigger] r[j],
        ) by {
            if j == inner.len() {
                if inner[i] == x {
                    assert(!same_state(s[s.len() - 1], x));
                } else {
                    assert(rest.contains(inner[i]));
                    let k = rest.index_of(inner[i]);
                    assert(s[k] == inner[i]);
                    assert(!same_state(s[k], s[s.len() - 1]));
                }
            } else {
                assert(r[i] == inner[i] && r[j] == inner[j]);
            }
        }
    } else {
        assert forall|i: int| 0 <= i < r.len() implies s.contains(#[trigger] r[i]) || r[i] == x by {
            if i < s.len() {
                assert(s[i] == r[i]);
            }
        }
    }
}

/// After a merge no thread has two states of one kind, and no update is lost but to a state of
/// the same thread and kind that is at least as late in the story.
pub proof fn law_merge_keeps_the_latest_state(
    existing: Seq<RewriteStateUpdateView>,
    updates: Seq<RewriteStateUpdateView>,
)
    ensures
        states_differ(merged_states(existing, updates)),
        forall|i: int|
            0 <= i < updates.len() ==> superseded(
                merged_states(existing, updates),
                #[trigger] updates[i],
            ),
        states_ordered(merged_states(existing, updates)),
{
    let start = with_states(Seq::empty(), existing, false);
    let all = with_states(start, updates, true);
    lemma_with_states(Seq::empty(), existing, false);
    lemma_with_states(start, updates, true);
    lemma_sorted_keeps(all);
    law_states_are_sorted(all);
    assert forall|i: int| 0 <= i < updates.len() implies superseded(
        merged_states(existing, updates),
        #[trigger] updates[i],
    ) by {
        assert(superseded(all, updates[i]));
    }
}

proof fn lemma_normalized_of_two(a: Seq<char>, b: Seq<char>)
    ensures
        normalized(a + b) == normalized(a) + normalized(b),
    decreases b.len(),
{
    if b.len() == 0 {
        assert(a + b =~= a);
        assert(normalized(a) + normalized(b) =~= normalized(a));
    } else {
        lemma_normalized_of_two(a, b.drop_last());
        assert((a + b).drop_last() =~= a + b.drop_last());
        assert(normalized(a) + (normalized(b.drop_last()) + lowercase(b.last())) =~= (normalized(a)
            + normalized(b.drop_last())) + lowercase(b.last()));
    }
}

proof fn lemma_normalized_keeps_parts(text: Seq<char>, part: Seq<char>)
    requires
        holds(text, part),
    ensures
        holds(normalized(text), normalized(part)),
{
    let i = choose|i: int| matches_at(text, part, i);
    let a = text.take(i);
    let b = text.skip(i + part.len());
    assert(a + part + b =~= text);
    lemma_normalized_of_two(a + part, b);
    lemma_normalized_of_two(a, part);
    let k = normalized(a).len() as int;
    assert(normalized(text).subrange(k, k + normalized(part).len()) =~= normalized(part));
    assert(matches_at(normalized(text), normalized(part), k));
}

/// Evidence that is quoted word for word from a rewritten chapter, and says anything at all,
/// counts as evidence from it.
pub proof fn law_verbatim_evidence_counts(
    item: ReviewCoverageItemView,
    rewrites: Seq<ParsedChapterRewriteView>,
    i: int,
)
    requires
        0 <= i < rewrites.len(),
        item.chapter_indexes.len() == 0 || item.chapter_indexes.contains(rewrites[i].index),
        holds(rewrites[i].text, trim(item.evidence)),
        normalized(trim(item.evidence)).len() > 0,
    ensures
        evidence_found(item, rewrites),
{
    let r = rewrites[i];
    let e = trim(item.evidence);
    let k = choose|k: int| matches_at(r.text, e, k);
    let whole = r.title + "\n"@ + r.text;
    let shift = (r.title + "\n"@).len() as int;
    assert(whole.subrange(shift + k, shift + k + e.len()) =~= r.text.subrange(k, k + e.len()));
    assert(matches_at(whole, e, shift + k));
    lemma_normalized_keeps_parts(whole, e);
    assert(e.len() > 0);
    assert(evidence_in(e, searched_text(r)));
}

} // verus!
