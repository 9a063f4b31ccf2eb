//! What the reading of a review and the scans of a rewrite are for: nothing that is wrong with a
//! rewrite is passed over, and nothing is held against it that is not there.
use vstd::prelude::*;
use crate::coverage::{quotations, quotes_in};
use crate::decision::{
    asks_nothing, covered, coverage_findings, decided_issues, forgotten, integers, item_findings,
    item_issue, listed_issues, named_indexes, obligation_with_id, summary_issue,
    unmet_obligation_issue, whole_issue,
};
use crate::domain::{
    ChapterView, NovelSettingsView, ParsedChapterRewriteView, ReviewCoverageItemView,
    ReviewIssueView, RewriteObligationView,
};
use crate::json::{field, list_field, text_field, JsonView};
use crate::keywords::{compliant_words, male_reference_words, name_residue_words};
use crate::names::{with_name, with_names};
use crate::order::{law_sorted_indexes_are_distinct, law_sorted_texts_are_distinct};
use crate::residue::{
    all_name_conflicts, chapter_name_conflicts, conflicting, derived_names, ends_sentence,
    explains_by, explains_by_any, forbidden_names, left_names, legacy_parts, name_conflicts,
    name_logic_issues, name_prefixes, name_suffixes, not_among, occurring, original_body,
    part_names, points_to_protagonist, residue_issues, rewrite_with_id, sentence_scan, sentences,
    used_names, with_prefixes, with_suffixes,
};
use crate::review_filter::{
    all_quotations, claim_of, evidence_absent, gender_claim, is_note, meaningful, meaningful_pieces,
    missing_claim, missing_evidence, original_lines, present, quoted_evidence, refuted, relevant,
    repeated_notes, rewrite_at, rewrite_bodies, rewrite_body, rewrites_at, source_names,
    speaks_of_protagonist, AuthorNotesView,
};
use crate::text::{blank, ends, holds, holds_any, join, matches_at, trim};
use crate::text_laws::{
    law_holding_is_transitive, law_joined_text_holds_its_parts, law_trimmed_text_is_the_middle,
    lemma_holds_in_part, lemma_holds_inside, lemma_holds_itself, lemma_push_contains,
    lemma_sum_contains, lemma_trim_again,
};

verus! {

// ---- quotations -----------------------------------------------------------------------------
proof fn lemma_scan_before_open(s: Seq<char>, open: char, close: char, n: int)
    requires
        0 <= n <= s.len(),
        forall|i: int| 0 <= i < n ==> #[trigger] s[i] != open,
    ensures
        quotes_in(s, open, close, n) == (None::<int>, Seq::<Seq<char>>::empty()),
    decreases n,
{
    if n > 0 {
        lemma_scan_before_open(s, open, close, n - 1);
    }
}

proof fn lemma_scan_inside(s: Seq<char>, open: char, close: char, from: int, n: int)
    requires
        0 < from <= n <= s.len(),
        quotes_in(s, open, close, from).0 == Some(from),
        forall|i: int| from <= i < n ==> #[trigger] s[i] != close,
    ensures
        quotes_in(s, open, close, n) == quotes_in(s, open, close, from),
    decreases n,
{
    if n > from {
        lemma_scan_inside(s, open, close, from, n - 1);
    }
}

proof fn lemma_quotes_stay(s: Seq<char>, open: char, close: char, m: int, n: int, f: Seq<char>)
    requires
        0 <= m <= n,
        quotes_in(s, open, close, m).1.contains(f),
    ensures
        quotes_in(s, open, close, n).1.contains(f),
    decreases n,
{
    if n > m {
        lemma_quotes_stay(s, open, close, m, n - 1, f);
        let (start, found) = quotes_in(s, open, close, n - 1);
        if start is Some {
            lemma_push_contains(found, s.subrange(start->0, n - 1), f);
        }
    }
}

/// What stands between the first opening mark of a text and the next closing mark is quoted.
pub proof fn law_quotation_is_found(
    before: Seq<char>,
    quoted: Seq<char>,
    behind: Seq<char>,
    open: char,
    close: char,
)
    requires
        forall|i: int| 0 <= i < before.len() ==> #[trigger] before[i] != open,
        forall|i: int| 0 <= i < quoted.len() ==> #[trigger] quoted[i] != close,
    ensures
        quotations(before.push(open) + quoted + seq![close] + behind, open, close).contains(quoted),
{
    let s = before.push(open) + quoted + seq![close] + behind;
    let a = before.len() as int;
    let b = a + 1 + quoted.len();
    assert forall|i: int| 0 <= i < a implies #[trigger] s[i] != open by {
        assert(s[i] == before[i]);
    }
    lemma_scan_before_open(s, open, close, a);
    assert(s[a] == open);
    assert forall|i: int| a + 1 <= i < b implies #[trigger] s[i] != close by {
        assert(s[i] == quoted[i - a - 1]);
    }
    lemma_scan_inside(s, open, close, a + 1, b);
    assert(s[b] == close);
    assert(s.subrange(a + 1, b) =~= quoted);
    let found = quotes_in(s, open, close, b).1;
    lemma_push_contains(found, quoted, quoted);
    lemma_quotes_stay(s, open, close, b + 1, s.len() as int, quoted);
}

proof fn lemma_quoted_stands(s: Seq<char>, open: char, close: char, n: int)
    requires
        0 <= n <= s.len(),
    ensures
        quotes_in(s, open, close, n).0 matches Some(from) ==> 0 < from <= n && s[from - 1] == open,
        forall|k: int|
            0 <= k < quotes_in(s, open, close, n).1.len() ==> holds(
                s,
                seq![open] + #[trigger] quotes_in(s, open, close, n).1[k] + seq![close],
            ),
    decreases n,
{
    if n > 0 {
        lemma_quoted_stands(s, open, close, n - 1);
        let (start, found) = quotes_in(s, open, close, n - 1);
        if start is Some && s[n - 1] == close {
            let from = start->0;
            let whole = seq![open] + s.subrange(from, n - 1) + seq![close];
            assert(s.subrange(from - 1, n) =~= whole);
            assert(matches_at(s, whole, from - 1));
        }
    }
}

/// Whatever is quoted stands in the text between the two marks.
pub proof fn law_quotation_stands_between_marks(s: Seq<char>, open: char, close: char, k: int)
    requires
        0 <= k < quotations(s, open, close).len(),
    ensures
        holds(s, seq![open] + quotations(s, open, close)[k] + seq![close]),
{
    lemma_quoted_stands(s, open, close, s.len() as int);
}

// ---- evidence of a review -------------------------------------------------------------------
proof fn lemma_meaningful_pieces(pieces: Seq<Seq<char>>, x: Seq<char>)
    ensures
        meaningful_pieces(pieces).contains(x) <==> meaningful(x) && exists|k: int|
            0 <= k < pieces.len() && trim(#[trigger] pieces[k]) == x,
    decreases pieces.len(),
{
    if pieces.len() > 0 {
        let rest = pieces.drop_last();
        lemma_meaningful_pieces(rest, x);
        lemma_push_contains(meaningful_pieces(rest), trim(pieces.last()), x);
        if exists|k: int| 0 <= k < pieces.len() && trim(#[trigger] pieces[k]) == x {
            let k = choose|k: int| 0 <= k < pieces.len() && trim(#[trigger] pieces[k]) == x;
            if k < rest.len() {
                assert(rest[k] == pieces[k]);
            }
        }
        if exists|k: int| 0 <= k < rest.len() && trim(#[trigger] rest[k]) == x {
            let k = choose|k: int| 0 <= k < rest.len() && trim(#[trigger] rest[k]) == x;
            assert(pieces[k] == rest[k]);
        }
        assert(pieces[pieces.len() - 1] == pieces.last());
    }
}

proof fn lemma_all_quotations(text: Seq<char>, x: Seq<char>)
    ensures
        all_quotations(text).contains(x) <==> quotations(text, '‘', '’').contains(x) || quotations(
            text,
            '“',
            '”',
        ).contains(x) || quotations(text, '\'', '\'').contains(x) || quotations(
            text,
            '"',
            '"',
        ).contains(x),
{
    let a = quotations(text, '‘', '’');
    let b = quotations(text, '“', '”');
    let c = quotations(text, '\'', '\'');
    let d = quotations(text, '"', '"');
    lemma_sum_contains(a, b, x);
    lemma_sum_contains(a + b, c, x);
    lemma_sum_contains(a + b + c, d, x);
}

/// What is quoted in one of the four kinds of marks is evidence when it has two characters or
/// more and is no word of the answer's format; and nothing else is.
pub proof fn law_evidence_is_what_is_quoted(text: Seq<char>, x: Seq<char>)
    ensures
        quoted_evidence(text).contains(x) <==> meaningful(x) && exists|q: Seq<char>|
            trim(q) == x && (#[trigger] quotations(text, '‘', '’').contains(q) || quotations(
                text,
                '“',
                '”',
            ).contains(q) || quotations(text, '\'', '\'').contains(q) || quotations(
                text,
                '"',
                '"',
            ).contains(q)),
{
    let pieces = all_quotations(text);
    lemma_meaningful_pieces(pieces, x);
    law_sorted_texts_are_distinct(meaningful_pieces(pieces), false);
    if exists|k: int| 0 <= k < pieces.len() && trim(#[trigger] pieces[k]) == x {
        let k = choose|k: int| 0 <= k < pieces.len() && trim(#[trigger] pieces[k]) == x;
        assert(pieces.contains(pieces[k]));
        lemma_all_quotations(text, pieces[k]);
        assert(quotations(text, '‘', '’').contains(pieces[k]) || true);
    }
    if exists|q: Seq<char>|
        trim(q) == x && (#[trigger] quotations(text, '‘', '’').contains(q) || quotations(
            text,
            '“',
            '”',
        ).contains(q) || quotations(text, '\'', '\'').contains(q) || quotations(
            text,
            '"',
            '"',
        ).contains(q)) {
        let q = choose|q: Seq<char>|
            trim(q) == x && (#[trigger] quotations(text, '‘', '’').contains(q) || quotations(
                text,
                '“',
                '”',
            ).contains(q) || quotations(text, '\'', '\'').contains(q) || quotations(
                text,
                '"',
                '"',
            ).contains(q));
        lemma_all_quotations(text, q);
        assert(trim(pieces[pieces.index_of(q)]) == x);
    }
}

proof fn lemma_present(evidence: Seq<Seq<char>>, text: Seq<char>, x: Seq<char>)
    ensures
        present(evidence, text).contains(x) <==> evidence.contains(x) && holds(text, x),
    decreases evidence.len(),
{
    if evidence.len() > 0 {
        let rest = evidence.drop_last();
        lemma_present(rest, text, x);
        lemma_push_contains(present(rest, text), evidence.last(), x);
        lemma_push_contains(rest, evidence.last(), x);
        assert(rest.push(evidence.last()) =~= evidence);
    }
}

proof fn lemma_bodies_hold(rewrites: Seq<ParsedChapterRewriteView>, i: int, f: Seq<char>)
    requires
        0 <= i < rewrites.len(),
        holds(rewrites[i].title, f) || holds(rewrites[i].text, f),
    ensures
        holds(rewrite_bodies(rewrites), f),
{
    let bodies = Seq::new(rewrites.len(), |k: int| rewrite_body(rewrites[k]));
    law_joined_text_holds_its_parts(bodies, "\n"@, i);
    lemma_body_holds(rewrites[i], f);
    law_holding_is_transitive(rewrite_bodies(rewrites), bodies[i], f);
}

proof fn lemma_body_holds(r: ParsedChapterRewriteView, f: Seq<char>)
    requires
        holds(r.title, f) || holds(r.text, f),
    ensures
        holds(rewrite_body(r), f),
{
    if holds(r.title, f) {
        lemma_holds_in_part(Seq::empty(), r.title, "\n"@ + r.text, f);
        assert(Seq::<char>::empty() + r.title + ("\n"@ + r.text) =~= rewrite_body(r));
    } else {
        lemma_holds_in_part(r.title + "\n"@, r.text, Seq::empty(), f);
        assert(r.title + "\n"@ + r.text + Seq::<char>::empty() =~= rewrite_body(r));
    }
}

/// The rewrites that an issue is about have the indexes that it names.
pub proof fn law_relevant_rewrites_are_named(
    issue: ReviewIssueView,
    rewrites: Seq<ParsedChapterRewriteView>,
    k: int,
)
    requires
        0 <= k < relevant(issue, rewrites).len(),
    ensures
        rewrites.contains(relevant(issue, rewrites)[k]),
        issue.chapter_indexes.len() == 0 || issue.chapter_indexes.contains(
            relevant(issue, rewrites)[k].index,
        ),
{
    if issue.chapter_indexes.len() > 0 {
        lemma_rewrites_at(rewrites, issue.chapter_indexes, k);
    }
}

proof fn lemma_rewrite_at(rewrites: Seq<ParsedChapterRewriteView>, index: i64)
    ensures
        match rewrite_at(rewrites, index) {
            Some(x) => x.index == index && rewrites.contains(x),
            None => forall|i: int| 0 <= i < rewrites.len() ==> (#[trigger] rewrites[i]).index
                != index,
        },
    decreases rewrites.len(),
{
    if rewrites.len() > 0 {
        let rest = rewrites.drop_last();
        lemma_rewrite_at(rest, index);
        assert(rewrites[rewrites.len() - 1] == rewrites.last());
        if rewrite_at(rest, index) is Some {
            let x = rewrite_at(rest, index)->0;
            assert(rewrites[rest.index_of(x)] == x);
        }
        if rewrites.last().index != index && rewrite_at(rest, index) is None {
            assert forall|i: int| 0 <= i < rewrites.len() implies (#[trigger] rewrites[i]).index
                != index by {
                if i < rest.len() {
                    assert(rest[i] == rewrites[i]);
                }
            }
        }
    }
}

proof fn lemma_rewrites_at(
    rewrites: Seq<ParsedChapterRewriteView>,
    indexes: Seq<i64>,
    k: int,
)
    requires
        0 <= k < rewrites_at(rewrites, indexes).len(),
    ensures
        rewrites.contains(rewrites_at(rewrites, indexes)[k]),
        indexes.contains(rewrites_at(rewrites, indexes)[k].index),
    decreases indexes.len(),
{
    if indexes.len() > 0 {
        let rest = indexes.drop_last();
        let before = rewrites_at(rewrites, rest);
        lemma_rewrite_at(rewrites, indexes.last());
        if k < before.len() {
            lemma_rewrites_at(rewrites, rest, k);
            let n = before[k].index;
            assert(indexes[rest.index_of(n)] == n);
        } else {
            assert(indexes[indexes.len() - 1] == indexes.last());
        }
    }
}

/// Every chapter that an issue names and that was rewritten is looked at.
pub proof fn law_named_chapter_is_looked_at(
    issue: ReviewIssueView,
    rewrites: Seq<ParsedChapterRewriteView>,
    i: int,
)
    requires
        0 <= i < rewrites.len(),
        issue.chapter_indexes.len() == 0 || issue.chapter_indexes.contains(rewrites[i].index),
    ensures
        exists|k: int|
            0 <= k < relevant(issue, rewrites).len() && (#[trigger] relevant(
                issue,
                rewrites,
            )[k]).index == rewrites[i].index,
{
    if issue.chapter_indexes.len() == 0 {
        assert(relevant(issue, rewrites)[i] == rewrites[i]);
    } else {
        lemma_named_is_taken(
            rewrites,
            issue.chapter_indexes,
            issue.chapter_indexes.index_of(rewrites[i].index),
            i,
        );
        let about = rewrites_at(rewrites, issue.chapter_indexes);
        let k = choose|k: int|
            0 <= k < about.len() && (#[trigger] about[k]).index == rewrites[i].index;
        assert(relevant(issue, rewrites)[k].index == rewrites[i].index);
    }
}

proof fn lemma_named_is_taken(
    rewrites: Seq<ParsedChapterRewriteView>,
    indexes: Seq<i64>,
    n: int,
    i: int,
)
    requires
        0 <= i < rewrites.len(),
        0 <= n < indexes.len(),
        indexes[n] == rewrites[i].index,
    ensures
        exists|k: int|
            0 <= k < rewrites_at(rewrites, indexes).len() && (#[trigger] rewrites_at(
                rewrites,
                indexes,
            )[k]).index == rewrites[i].index,
    decreases indexes.len(),
{
    let rest = indexes.drop_last();
    let before = rewrites_at(rewrites, rest);
    let all = rewrites_at(rewrites, indexes);
    lemma_rewrite_at(rewrites, indexes.last());
    if n < rest.len() {
        lemma_named_is_taken(rewrites, rest, n, i);
        let k = choose|k: int|
            0 <= k < before.len() && (#[trigger] before[k]).index == rewrites[i].index;
        assert(all[k] == before[k]);
    } else {
        assert(all[before.len() as int].index == rewrites[i].index);
    }
}

/// A claim whose evidence is said to be absent quotes nothing that stands in a rewrite it is
/// about: one quotation that is found is enough for the claim to be looked at further.
pub proof fn law_absent_evidence_is_nowhere(
    issue: ReviewIssueView,
    rewrites: Seq<ParsedChapterRewriteView>,
    f: Seq<char>,
    i: int,
)
    requires
        evidence_absent(issue, rewrites),
        quoted_evidence(issue.problem).contains(f),
        0 <= i < rewrites.len(),
    ensures
        !holds(rewrites[i].title, f),
        !holds(rewrites[i].text, f),
{
    if holds(rewrites[i].title, f) || holds(rewrites[i].text, f) {
        lemma_bodies_hold(rewrites, i, f);
        lemma_present(quoted_evidence(issue.problem), rewrite_bodies(rewrites), f);
        let found = present(quoted_evidence(issue.problem), rewrite_bodies(rewrites));
        assert(found[found.index_of(f)] == f);
    }
}

/// A claim that something male was left stands when one of the words that it quotes is male and
/// stands in a rewrite it is about: it speaks of the protagonist, and neither of an old name nor
/// of missing content.
pub proof fn law_found_male_word_keeps_the_claim(
    issue: ReviewIssueView,
    chapters: Seq<ChapterView>,
    rewrites: Seq<ParsedChapterRewriteView>,
    settings: NovelSettingsView,
    notes: AuthorNotesView,
    f: Seq<char>,
    i: int,
)
    requires
        speaks_of_protagonist(claim_of(issue), settings),
        !holds_any(claim_of(issue), name_residue_words()),
        !missing_claim(issue),
        quoted_evidence(issue.problem).contains(f),
        holds_any(f, male_reference_words()),
        0 <= i < relevant(issue, rewrites).len(),
        holds(relevant(issue, rewrites)[i].title, f) || holds(relevant(issue, rewrites)[i].text, f),
    ensures
        !refuted(issue, chapters, rewrites, settings, notes),
{
    let about = relevant(issue, rewrites);
    let evidence = quoted_evidence(issue.problem);
    let text = rewrite_bodies(about);
    if evidence_absent(issue, about) {
        law_absent_evidence_is_nowhere(issue, about, f, i);
    }
    lemma_bodies_hold(about, i, f);
    lemma_present(evidence, text, f);
    let found = present(evidence, text);
    assert(holds_any(found[found.index_of(f)], male_reference_words()));
}

/// A claim that the old name was left stands when the name is in a rewrite it is about, unless
/// it is taken out for what else it claims.
pub proof fn law_found_name_keeps_the_claim(
    issue: ReviewIssueView,
    chapters: Seq<ChapterView>,
    rewrites: Seq<ParsedChapterRewriteView>,
    settings: NovelSettingsView,
    notes: AuthorNotesView,
    i: int,
)
    requires
        0 <= i < relevant(issue, rewrites).len(),
        holds(relevant(issue, rewrites)[i].title, trim(settings.protagonist_name)) || holds(
            relevant(issue, rewrites)[i].text,
            trim(settings.protagonist_name),
        ),
        !gender_claim(claim_of(issue), issue.category),
        !missing_claim(issue),
    ensures
        !refuted(issue, chapters, rewrites, settings, notes),
{
}

/// A claim that the old name was left is taken out when no rewrite it is about has the name.
pub proof fn law_absent_name_refutes_the_claim(
    issue: ReviewIssueView,
    chapters: Seq<ChapterView>,
    rewrites: Seq<ParsedChapterRewriteView>,
    settings: NovelSettingsView,
    notes: AuthorNotesView,
)
    requires
        relevant(issue, rewrites).len() > 0,
        trim(settings.protagonist_name).len() > 0,
        holds(claim_of(issue), trim(settings.protagonist_name)),
        holds_any(claim_of(issue), name_residue_words()),
        forall|i: int|
            0 <= i < rewrites.len() ==> !holds(
                (#[trigger] rewrites[i]).title,
                trim(settings.protagonist_name),
            ) && !holds(rewrites[i].text, trim(settings.protagonist_name)),
    ensures
        refuted(issue, chapters, rewrites, settings, notes),
{
    let about = relevant(issue, rewrites);
    assert forall|k: int| 0 <= k < about.len() implies !holds(
        (#[trigger] about[k]).title,
        trim(settings.protagonist_name),
    ) && !holds(about[k].text, trim(settings.protagonist_name)) by {
        law_relevant_rewrites_are_named(issue, rewrites, k);
        let i = rewrites.index_of(about[k]);
        assert(rewrites[i] == about[k]);
    }
}

/// A claim that something male was left is taken out when it quotes something and nothing that
/// it quotes stands in the rewrites it is about.
pub proof fn law_absent_evidence_refutes_the_claim(
    issue: ReviewIssueView,
    chapters: Seq<ChapterView>,
    rewrites: Seq<ParsedChapterRewriteView>,
    settings: NovelSettingsView,
    notes: AuthorNotesView,
)
    requires
        relevant(issue, rewrites).len() > 0,
        holds(issue.category, "gender"@),
        quoted_evidence(issue.problem).len() > 0,
        forall|f: Seq<char>| #[trigger]
            quoted_evidence(issue.problem).contains(f) ==> !holds(
                rewrite_bodies(relevant(issue, rewrites)),
                f,
            ),
    ensures
        refuted(issue, chapters, rewrites, settings, notes),
{
    let about = relevant(issue, rewrites);
    let evidence = quoted_evidence(issue.problem);
    let found = present(evidence, rewrite_bodies(about));
    if found.len() > 0 {
        lemma_present(evidence, rewrite_bodies(about), found[0]);
        assert(found.contains(found[0]));
    }
}

/// An issue that claims neither something male, nor an old name, nor missing content is never
/// taken out.
pub proof fn law_issue_of_another_kind_stands(
    issue: ReviewIssueView,
    chapters: Seq<ChapterView>,
    rewrites: Seq<ParsedChapterRewriteView>,
    settings: NovelSettingsView,
    notes: AuthorNotesView,
)
    requires
        !gender_claim(claim_of(issue), issue.category),
        !holds_any(claim_of(issue), name_residue_words()),
        !missing_claim(issue),
    ensures
        !refuted(issue, chapters, rewrites, settings, notes),
{
}

/// A claim that content is missing stands when it quotes something that the rewrites it is about
/// do not have and that is no author's note.
pub proof fn law_missing_text_keeps_the_claim(
    issue: ReviewIssueView,
    chapters: Seq<ChapterView>,
    rewrites: Seq<ParsedChapterRewriteView>,
    settings: NovelSettingsView,
    notes: AuthorNotesView,
    f: Seq<char>,
)
    requires
        !gender_claim(claim_of(issue), issue.category),
        !holds_any(claim_of(issue), name_residue_words()),
        quoted_evidence(issue.problem).contains(f),
        !holds(rewrite_bodies(relevant(issue, rewrites)), f),
        !notes.fragments.contains(f),
        forall|n: int| 0 <= n < notes.lines.len() ==> !holds(#[trigger] notes.lines[n], f),
    ensures
        !refuted(issue, chapters, rewrites, settings, notes),
{
    let rows = original_lines(chapters, issue.chapter_indexes);
    let evidence = missing_evidence(issue, rows, notes);
    let quoted = meaningful_pieces(all_quotations(issue.problem));
    let repeated = repeated_notes(rows, claim_of(issue), notes);
    law_sorted_texts_are_distinct(quoted, false);
    law_sorted_texts_are_distinct(quoted + repeated, false);
    lemma_sum_contains(quoted, repeated, f);
    assert(evidence.contains(f));
    let k = evidence.index_of(f);
    assert(evidence[k] == f);
    if is_note(f, rows, notes) {
        let r = choose|r: int|
            0 <= r < rows.len() && holds(#[trigger] rows[r], f) && (notes.fragments.contains(f)
                || notes.lines.contains(rows[r]));
        let n = notes.lines.index_of(rows[r]);
        assert(holds(notes.lines[n], f));
    }
}

// ---- old names ------------------------------------------------------------------------------
/// The old name itself is among the forms that are looked for.
pub proof fn law_name_is_among_its_forms(source: Seq<char>)
    requires
        trim(source).len() > 0,
    ensures
        derived_names(source).contains(trim(source)),
{
    let name = trim(source);
    if name.len() == 1 {
        assert(derived_names(source)[0] == name);
    } else {
        let forms = seq![name] + part_names(name.skip(1), seq![name.last()]) + with_suffixes(name);
        law_sorted_texts_are_distinct(forms, true);
        assert(forms[0] == name);
        assert(forms.contains(name));
    }
}

proof fn lemma_part_names(given: Seq<char>, last: Seq<char>, x: Seq<char>)
    ensures
        part_names(given, last).contains(x) <==> with_prefixes(given).contains(x) || with_suffixes(
            given,
        ).contains(x) || with_prefixes(last).contains(x) || with_suffixes(last).contains(x),
{
    let first = with_prefixes(given) + with_suffixes(given);
    lemma_sum_contains(with_prefixes(given), with_suffixes(given), x);
    lemma_sum_contains(first, with_prefixes(last), x);
    lemma_sum_contains(first + with_prefixes(last), with_suffixes(last), x);
}

proof fn lemma_derived_names(source: Seq<char>, x: Seq<char>)
    requires
        trim(source).len() > 1,
    ensures
        ({
            let name = trim(source);
            let given = name.skip(1);
            let last = seq![name.last()];
            derived_names(source).contains(x) <==> x == name || with_prefixes(given).contains(x)
                || with_suffixes(given).contains(x) || with_prefixes(last).contains(x)
                || with_suffixes(last).contains(x) || with_suffixes(name).contains(x)
        }),
{
    let name = trim(source);
    let given = name.skip(1);
    let last = seq![name.last()];
    let forms = seq![name] + part_names(given, last) + with_suffixes(name);
    law_sorted_texts_are_distinct(forms, true);
    lemma_part_names(given, last, x);
    lemma_sum_contains(seq![name], part_names(given, last), x);
    lemma_sum_contains(seq![name] + part_names(given, last), with_suffixes(name), x);
    if seq![name].contains(x) {
        assert(seq![name][seq![name].index_of(x)] == name);
    }
    if x == name {
        assert(seq![name][0] == x);
    }
}

/// The given name, or its last character, behind a familiar word is among the forms.
pub proof fn law_familiar_forms_are_looked_for(source: Seq<char>, prefix: Seq<char>)
    requires
        trim(source).len() > 1,
        prefix == "小"@ || prefix == "老"@ || prefix == "大"@ || prefix == "阿"@,
    ensures
        derived_names(source).contains(prefix + trim(source).skip(1)),
        derived_names(source).contains(prefix.push(trim(source).last())),
{
    let name = trim(source);
    let given = name.skip(1);
    let last = seq![name.last()];
    assert(prefix.push(name.last()) =~= prefix + last);
    let k: int = if prefix == "小"@ {
        0
    } else if prefix == "老"@ {
        1
    } else if prefix == "大"@ {
        2
    } else {
        3
    };
    assert(name_prefixes()[k] == prefix);
    assert(with_prefixes(given)[k] == prefix + given);
    assert(with_prefixes(last)[k] == prefix + last);
    lemma_derived_names(source, prefix + given);
    lemma_derived_names(source, prefix + last);
}

/// The name, the given name, or its last character, before a word for a man is among the forms.
pub proof fn law_male_forms_are_looked_for(source: Seq<char>, suffix: Seq<char>)
    requires
        trim(source).len() > 1,
        suffix == "哥"@ || suffix == "哥哥"@ || suffix == "兄"@ || suffix == "兄弟"@ || suffix
            == "弟"@ || suffix == "弟弟"@ || suffix == "叔"@ || suffix == "伯"@ || suffix == "爷"@
            || suffix == "少"@ || suffix == "少爷"@ || suffix == "公子"@ || suffix == "兄台"@
            || suffix == "老弟"@ || suffix == "贤弟"@ || suffix == "道兄"@ || suffix == "道友"@,
    ensures
        derived_names(source).contains(trim(source) + suffix),
        derived_names(source).contains(trim(source).skip(1) + suffix),
        derived_names(source).contains(seq![trim(source).last()] + suffix),
{
    let name = trim(source);
    let given = name.skip(1);
    let last = seq![name.last()];
    let list = name_suffixes();
    let all = seq![
        "哥"@,
        "哥哥"@,
        "兄"@,
        "兄弟"@,
        "弟"@,
        "弟弟"@,
        "叔"@,
        "伯"@,
        "爷"@,
        "少"@,
        "少爷"@,
        "公子"@,
        "兄台"@,
        "老弟"@,
        "贤弟"@,
        "道兄"@,
        "道友"@,
    ];
    assert(list =~= all);
    assert(exists|k: int| 0 <= k < list.len() && #[trigger] list[k] == suffix) by {
        assert(list[0] == "哥"@ && list[1] == "哥哥"@ && list[2] == "兄"@ && list[3] == "兄弟"@
            && list[4] == "弟"@ && list[5] == "弟弟"@ && list[6] == "叔"@ && list[7] == "伯"@
            && list[8] == "爷"@ && list[9] == "少"@ && list[10] == "少爷"@ && list[11] == "公子"@
            && list[12] == "兄台"@ && list[13] == "老弟"@ && list[14] == "贤弟"@ && list[15]
            == "道兄"@ && list[16] == "道友"@);
    }
    let k = choose|k: int| 0 <= k < list.len() && #[trigger] list[k] == suffix;
    assert(with_suffixes(name)[k] == name + suffix);
    assert(with_suffixes(given)[k] == given + suffix);
    assert(with_suffixes(last)[k] == last + suffix);
    lemma_derived_names(source, name + suffix);
    lemma_derived_names(source, given + suffix);
    lemma_derived_names(source, last + suffix);
}

/// Every form of a name holds the last character of the name: nothing is looked for that has
/// nothing to do with it.
#[verifier::rlimit(80)]
#[verifier::spinoff_prover]
pub proof fn law_forms_hold_the_last_character(source: Seq<char>, x: Seq<char>)
    requires
        derived_names(source).contains(x),
    ensures
        trim(source).len() > 0,
        holds(x, seq![trim(source).last()]),
{
    let name = trim(source);
    let last = seq![name.last()];
    if name.len() == 1 {
        assert(name =~= last);
        assert(derived_names(source)[derived_names(source).index_of(x)] == name);
        lemma_holds_itself(name);
    } else if name.len() > 1 {
        let given = name.skip(1);
        lemma_derived_names(source, x);
        lemma_holds_inside(name.drop_last(), last, Seq::empty());
        assert(name.drop_last() + last + Seq::<char>::empty() =~= name);
        lemma_holds_inside(given.drop_last(), last, Seq::empty());
        assert(given.drop_last() + last + Seq::<char>::empty() =~= given);
        lemma_holds_itself(last);
        lemma_prefixed_holds(given, last, x);
        lemma_prefixed_holds(last, last, x);
        lemma_suffixed_holds(given, last, x);
        lemma_suffixed_holds(last, last, x);
        lemma_suffixed_holds(name, last, x);
    }
}

proof fn lemma_prefixed_holds(part: Seq<char>, last: Seq<char>, x: Seq<char>)
    requires
        holds(part, last),
    ensures
        with_prefixes(part).contains(x) ==> holds(x, last),
{
    if with_prefixes(part).contains(x) {
        let k = with_prefixes(part).index_of(x);
        let p = name_prefixes()[k];
        lemma_holds_in_part(p, part, Seq::empty(), last);
        assert(p + part + Seq::<char>::empty() =~= x);
    }
}

proof fn lemma_suffixed_holds(part: Seq<char>, last: Seq<char>, x: Seq<char>)
    requires
        holds(part, last),
    ensures
        with_suffixes(part).contains(x) ==> holds(x, last),
{
    if with_suffixes(part).contains(x) {
        let k = with_suffixes(part).index_of(x);
        let p = name_suffixes()[k];
        lemma_holds_in_part(Seq::empty(), part, p, last);
        assert(Seq::<char>::empty() + part + p =~= x);
    }
}

proof fn lemma_occurring(list: Seq<Seq<char>>, text: Seq<char>, x: Seq<char>)
    ensures
        occurring(list, text).contains(x) <==> list.contains(x) && holds(text, x),
    decreases list.len(),
{
    if list.len() > 0 {
        let rest = list.drop_last();
        lemma_occurring(rest, text, x);
        lemma_push_contains(occurring(rest, text), list.last(), x);
        lemma_push_contains(rest, list.last(), x);
        assert(rest.push(list.last()) =~= list);
    }
}

proof fn lemma_not_among(list: Seq<Seq<char>>, allowed: Seq<Seq<char>>, x: Seq<char>)
    ensures
        not_among(list, allowed).contains(x) <==> list.contains(x) && !allowed.contains(x),
    decreases list.len(),
{
    if list.len() > 0 {
        let rest = list.drop_last();
        lemma_not_among(rest, allowed, x);
        lemma_push_contains(not_among(rest, allowed), list.last(), x);
        lemma_push_contains(rest, list.last(), x);
        assert(rest.push(list.last()) =~= list);
    }
}

proof fn lemma_used_names(chapter: ChapterView, source: Seq<char>, x: Seq<char>)
    ensures
        used_names(chapter, source).contains(x) <==> derived_names(source).contains(x) && holds(
            original_body(chapter),
            x,
        ),
{
    let found = occurring(derived_names(source), original_body(chapter));
    lemma_occurring(derived_names(source), original_body(chapter), x);
    law_sorted_texts_are_distinct(found, true);
}

proof fn lemma_forbidden_names(
    chapter: ChapterView,
    sources: Seq<Seq<char>>,
    allowed: Seq<Seq<char>>,
    x: Seq<char>,
)
    ensures
        forbidden_names(chapter, sources, allowed).contains(x) <==> !allowed.contains(x) && holds(
            original_body(chapter),
            x,
        ) && exists|k: int|
            0 <= k < sources.len() && derived_names(#[trigger] sources[k]).contains(x),
    decreases sources.len(),
{
    if sources.len() > 0 {
        let rest = sources.drop_last();
        let last = sources.last();
        lemma_forbidden_names(chapter, rest, allowed, x);
        lemma_used_names(chapter, last, x);
        lemma_not_among(used_names(chapter, last), allowed, x);
        lemma_sum_contains(
            forbidden_names(chapter, rest, allowed),
            not_among(used_names(chapter, last), allowed),
            x,
        );
        if exists|k: int| 0 <= k < sources.len() && derived_names(#[trigger] sources[k]).contains(x) {
            let k = choose|k: int|
                0 <= k < sources.len() && derived_names(#[trigger] sources[k]).contains(x);
            if k < rest.len() {
                assert(rest[k] == sources[k]);
            }
        }
        if exists|k: int| 0 <= k < rest.len() && derived_names(#[trigger] rest[k]).contains(x) {
            let k = choose|k: int|
                0 <= k < rest.len() && derived_names(#[trigger] rest[k]).contains(x);
            assert(sources[k] == rest[k]);
        }
        assert(sources[sources.len() - 1] == last);
    }
}

/// Whether a form of an old name stands in the original chapter and in its rewrite, and is no
/// form of the new name.
pub open spec fn form_was_left(
    chapter: ChapterView,
    rewrite: ParsedChapterRewriteView,
    settings: NovelSettingsView,
    x: Seq<char>,
) -> bool {
    &&& holds(original_body(chapter), x)
    &&& holds(rewrite_body(rewrite), x)
    &&& !derived_names(settings.rewritten_protagonist_name).contains(x)
    &&& exists|k: int|
        0 <= k < source_names(settings).len() && derived_names(
            #[trigger] source_names(settings)[k],
        ).contains(x)
}

proof fn lemma_left_names(
    chapter: ChapterView,
    rewrite: ParsedChapterRewriteView,
    settings: NovelSettingsView,
    x: Seq<char>,
)
    ensures
        left_names(chapter, rewrite, settings).contains(x) <==> form_was_left(
            chapter,
            rewrite,
            settings,
            x,
        ),
{
    let forbidden = forbidden_names(
        chapter,
        source_names(settings),
        derived_names(settings.rewritten_protagonist_name),
    );
    lemma_forbidden_names(
        chapter,
        source_names(settings),
        derived_names(settings.rewritten_protagonist_name),
        x,
    );
    lemma_occurring(forbidden, rewrite_body(rewrite), x);
    law_sorted_texts_are_distinct(occurring(forbidden, rewrite_body(rewrite)), true);
}

proof fn lemma_chapter_is_scanned(
    chapters: Seq<ChapterView>,
    rewrites: Seq<ParsedChapterRewriteView>,
    settings: NovelSettingsView,
    c: int,
) -> (k: int)
    requires
        0 <= c < chapters.len(),
        rewrite_with_id(rewrites, chapters[c].id) is Some,
        left_names(
            chapters[c],
            rewrite_with_id(rewrites, chapters[c].id)->0,
            settings,
        ).len() > 0,
    ensures
        0 <= k < residue_issues(chapters, rewrites, settings).len(),
        residue_issues(chapters, rewrites, settings)[k].chapter_indexes == seq![chapters[c].index],
        residue_issues(chapters, rewrites, settings)[k].severity == "blocking"@,
        residue_issues(chapters, rewrites, settings)[k].category == "source_name_residue"@,
        forall|x: Seq<char>| #[trigger]
            left_names(
                chapters[c],
                rewrite_with_id(rewrites, chapters[c].id)->0,
                settings,
            ).contains(x) ==> holds(residue_issues(chapters, rewrites, settings)[k].problem, x),
    decreases chapters.len(),
{
    let before = residue_issues(chapters.drop_last(), rewrites, settings);
    if c < chapters.len() - 1 {
        let k = lemma_chapter_is_scanned(chapters.drop_last(), rewrites, settings, c);
        assert(residue_issues(chapters, rewrites, settings)[k] == before[k]);
        k
    } else {
        let left = left_names(chapters[c], rewrite_with_id(rewrites, chapters[c].id)->0, settings);
        let problem = residue_issues(chapters, rewrites, settings)[before.len() as int].problem;
        assert forall|x: Seq<char>| #[trigger] left.contains(x) implies holds(problem, x) by {
            law_joined_text_holds_its_parts(left, "、"@, left.index_of(x));
            let start = "分片索引 "@ + crate::text::decimal(chapters[c].index as int)
                + " 的改写稿仍残留主角原名或派生称呼："@;
            lemma_holds_in_part(start, join(left, "、"@), "。"@, x);
            assert(start + join(left, "、"@) + "。"@ =~= problem);
        }
        before.len() as int
    }
}

/// Where a form of an old name stands in the original chapter and still in its rewrite, and is no
/// form of the new name, the scan reports a blocking issue on that chapter that names the form.
pub proof fn law_left_name_is_reported(
    chapters: Seq<ChapterView>,
    rewrites: Seq<ParsedChapterRewriteView>,
    settings: NovelSettingsView,
    c: int,
    x: Seq<char>,
) -> (k: int)
    requires
        0 <= c < chapters.len(),
        rewrite_with_id(rewrites, chapters[c].id) is Some,
        form_was_left(chapters[c], rewrite_with_id(rewrites, chapters[c].id)->0, settings, x),
    ensures
        0 <= k < residue_issues(chapters, rewrites, settings).len(),
        residue_issues(chapters, rewrites, settings)[k].chapter_indexes == seq![chapters[c].index],
        residue_issues(chapters, rewrites, settings)[k].severity == "blocking"@,
        holds(residue_issues(chapters, rewrites, settings)[k].problem, x),
{
    let rewrite = rewrite_with_id(rewrites, chapters[c].id)->0;
    lemma_left_names(chapters[c], rewrite, settings, x);
    let left = left_names(chapters[c], rewrite, settings);
    assert(left[left.index_of(x)] == x);
    lemma_chapter_is_scanned(chapters, rewrites, settings, c)
}

proof fn lemma_with_names_keeps(list: Seq<Seq<char>>, more: Seq<Seq<char>>, x: Seq<char>)
    requires
        list.contains(x),
    ensures
        with_names(list, more).contains(x),
    decreases more.len(),
{
    if more.len() > 0 {
        lemma_with_names_keeps(list, more.drop_last(), x);
        let before = with_names(list, more.drop_last());
        lemma_push_contains(before, more.last(), x);
    }
}

/// The name that is set for the protagonist is an old name.
pub proof fn law_protagonist_has_its_name(settings: NovelSettingsView)
    requires
        trim(settings.protagonist_name).len() > 0,
    ensures
        source_names(settings).contains(trim(settings.protagonist_name)),
{
    let name = trim(settings.protagonist_name);
    lemma_trim_again(settings.protagonist_name);
    let first = with_name(Seq::empty(), name);
    assert(first =~= seq![name]);
    assert(first[0] == name);
    assert(first.contains(name));
    lemma_with_names_keeps(
        first,
        crate::names::line_sources(
            crate::text::lines(crate::names::normal_form(settings.protagonist_aliases)),
        ),
        name,
    );
}

/// Where the old name itself stands in the text of a chapter and in the text of its rewrite, and
/// is no form of the new name, the scan reports it.
pub proof fn law_unchanged_name_is_reported(
    chapters: Seq<ChapterView>,
    rewrites: Seq<ParsedChapterRewriteView>,
    settings: NovelSettingsView,
    c: int,
) -> (k: int)
    requires
        0 <= c < chapters.len(),
        trim(settings.protagonist_name).len() > 0,
        holds(chapters[c].original_text, trim(settings.protagonist_name)),
        rewrite_with_id(rewrites, chapters[c].id) is Some,
        holds(
            rewrite_with_id(rewrites, chapters[c].id)->0.text,
            trim(settings.protagonist_name),
        ),
        !derived_names(settings.rewritten_protagonist_name).contains(
            trim(settings.protagonist_name),
        ),
    ensures
        0 <= k < residue_issues(chapters, rewrites, settings).len(),
        residue_issues(chapters, rewrites, settings)[k].chapter_indexes == seq![chapters[c].index],
        residue_issues(chapters, rewrites, settings)[k].severity == "blocking"@,
        holds(
            residue_issues(chapters, rewrites, settings)[k].problem,
            trim(settings.protagonist_name),
        ),
{
    let name = trim(settings.protagonist_name);
    let chapter = chapters[c];
    lemma_holds_in_part(chapter.title + "\n"@, chapter.original_text, Seq::empty(), name);
    assert(chapter.title + "\n"@ + chapter.original_text + Seq::<char>::empty() =~= original_body(
        chapter,
    ));
    lemma_body_holds(rewrite_with_id(rewrites, chapter.id)->0, name);
    law_protagonist_has_its_name(settings);
    lemma_trim_again(settings.protagonist_name);
    law_name_is_among_its_forms(name);
    let sources = source_names(settings);
    assert(derived_names(sources[sources.index_of(name)]).contains(name));
    law_left_name_is_reported(chapters, rewrites, settings, c, name)
}

/// The scan reports a chapter only where a form of an old name was left in it.
pub proof fn law_reported_name_was_left(
    chapters: Seq<ChapterView>,
    rewrites: Seq<ParsedChapterRewriteView>,
    settings: NovelSettingsView,
    k: int,
) -> (found: (int, Seq<char>))
    requires
        0 <= k < residue_issues(chapters, rewrites, settings).len(),
    ensures
        0 <= found.0 < chapters.len(),
        residue_issues(chapters, rewrites, settings)[k].chapter_indexes
            == seq![chapters[found.0].index],
        rewrite_with_id(rewrites, chapters[found.0].id) matches Some(rewrite) && form_was_left(
            chapters[found.0],
            rewrite,
            settings,
            found.1,
        ),
    decreases chapters.len(),
{
    let before = residue_issues(chapters.drop_last(), rewrites, settings);
    if k < before.len() {
        law_reported_name_was_left(chapters.drop_last(), rewrites, settings, k)
    } else {
        let c = chapters.len() - 1;
        let rewrite = rewrite_with_id(rewrites, chapters[c].id)->0;
        let left = left_names(chapters[c], rewrite, settings);
        assert(left.contains(left[0]));
        lemma_left_names(chapters[c], rewrite, settings, left[0]);
        (c, left[0])
    }
}

/// The rewrite that is compared with a chapter has its id, and is the last one that has.
pub proof fn law_rewrite_of_a_chapter(
    rewrites: Seq<ParsedChapterRewriteView>,
    id: Seq<char>,
    i: int,
)
    requires
        0 <= i < rewrites.len(),
        rewrites[i].id == id,
        forall|j: int| i < j < rewrites.len() ==> (#[trigger] rewrites[j]).id != id,
    ensures
        rewrite_with_id(rewrites, id) == Some(rewrites[i]),
    decreases rewrites.len(),
{
    if i < rewrites.len() - 1 {
        assert(rewrites[rewrites.len() - 1].id != id);
        law_rewrite_of_a_chapter(rewrites.drop_last(), id, i);
    }
}

// ---- what an answer decides -----------------------------------------------------------------
/// An answer that says it does not approve and lists no issue is never an approval.
pub proof fn law_refusal_is_no_approval(value: JsonView, settings: NovelSettingsView)
    requires
        field(value, "approved"@) == Some(JsonView::Bool(false)),
        list_field(value, "issues"@) matches Some(items) ==> forall|i: int|
            0 <= i < items.len() ==> !(#[trigger] items[i] is Text) && !(items[i] is Fields),
    ensures
        decided_issues(value, settings).len() > 0,
{
    if list_field(value, "issues"@) is Some {
        lemma_no_issue_listed(list_field(value, "issues"@)->0, settings);
    }
}

proof fn lemma_no_issue_listed(items: Seq<JsonView>, settings: NovelSettingsView)
    requires
        forall|i: int|
            0 <= i < items.len() ==> !(#[trigger] items[i] is Text) && !(items[i] is Fields),
    ensures
        listed_issues(items, settings).len() == 0,
    decreases items.len(),
{
    if items.len() > 0 {
        let rest = items.drop_last();
        assert forall|i: int| 0 <= i < rest.len() implies !(#[trigger] rest[i] is Text) && !(
        rest[i] is Fields) by {
            assert(rest[i] == items[i]);
        }
        lemma_no_issue_listed(rest, settings);
        assert(items[items.len() - 1] == items.last());
    }
}

/// Where no listed issue asks for anything and the summary does, the summary is the issue.
pub proof fn law_summary_is_an_issue(
    value: JsonView,
    settings: NovelSettingsView,
    summary: Seq<char>,
) -> (k: int)
    requires
        text_field(value, "summary"@) == Some(summary),
        trim(summary).len() > 0,
        trim(summary) != "合格"@,
        trim(summary) != "通过"@,
        !asks_nothing(trim(summary), ""@, settings),
        list_field(value, "issues"@) matches Some(items) ==> forall|i: int|
            0 <= i < items.len() ==> item_issue(#[trigger] items[i], settings) is None,
    ensures
        0 <= k < decided_issues(value, settings).len(),
        ends(decided_issues(value, settings)[k].problem, trim(summary)),
        decided_issues(value, settings)[k].severity == "blocking"@,
{
    if list_field(value, "issues"@) is Some {
        lemma_nothing_kept(list_field(value, "issues"@)->0, settings);
    }
    let s = trim(summary);
    let problem = summary_issue(s).problem;
    assert(problem.subrange(problem.len() - s.len(), problem.len() as int) =~= s);
    assert(decided_issues(value, settings)[0].problem == problem);
    0
}

proof fn lemma_nothing_kept(items: Seq<JsonView>, settings: NovelSettingsView)
    requires
        forall|i: int| 0 <= i < items.len() ==> item_issue(#[trigger] items[i], settings) is None,
    ensures
        listed_issues(items, settings).len() == 0,
    decreases items.len(),
{
    if items.len() > 0 {
        let rest = items.drop_last();
        assert forall|i: int| 0 <= i < rest.len() implies item_issue(
            #[trigger] rest[i],
            settings,
        ) is None by {
            assert(rest[i] == items[i]);
        }
        lemma_nothing_kept(rest, settings);
        assert(items[items.len() - 1] == items.last());
    }
}

proof fn lemma_listed_is_kept(items: Seq<JsonView>, settings: NovelSettingsView, i: int) -> (k: int)
    requires
        0 <= i < items.len(),
        item_issue(items[i], settings) is Some,
    ensures
        0 <= k < listed_issues(items, settings).len(),
        listed_issues(items, settings)[k] == item_issue(items[i], settings)->0,
    decreases items.len(),
{
    if i < items.len() - 1 {
        lemma_listed_is_kept(items.drop_last(), settings, i)
    } else {
        listed_issues(items.drop_last(), settings).len() as int
    }
}

/// An issue that an answer lists as an object and that asks for something is an issue of the
/// decision, with its problem and the fix it asks for, on the chapters it names; the decision is
/// then no approval.
pub proof fn law_listed_issue_is_kept(
    value: JsonView,
    settings: NovelSettingsView,
    items: Seq<JsonView>,
    i: int,
    problem: Seq<char>,
    fix: Seq<char>,
) -> (k: int)
    requires
        list_field(value, "issues"@) == Some(items),
        0 <= i < items.len(),
        items[i] is Fields,
        text_field(items[i], "problem"@) == Some(problem),
        text_field(items[i], "required_fix"@) == Some(fix),
        !blank(problem) || !blank(fix),
        !asks_nothing(problem, fix, settings),
    ensures
        0 <= k < decided_issues(value, settings).len(),
        decided_issues(value, settings)[k].problem == trim(problem),
        decided_issues(value, settings)[k].required_fix == trim(fix),
        decided_issues(value, settings)[k].chapter_indexes == named_indexes(items[i]),
{
    let k = lemma_listed_is_kept(items, settings, i);
    k
}

proof fn lemma_integers(items: Seq<JsonView>, n: i64)
    ensures
        integers(items).contains(n) <==> exists|j: int|
            0 <= j < items.len() && (#[trigger] items[j] matches JsonView::Number {
                integer: Some(m),
                ..
            } && m == n),
    decreases items.len(),
{
    if items.len() > 0 {
        let rest = items.drop_last();
        lemma_integers(rest, n);
        if items.last() is Number && items.last()->integer is Some {
            lemma_push_contains(integers(rest), items.last()->integer->0, n);
        }
        if exists|j: int|
            0 <= j < items.len() && (#[trigger] items[j] matches JsonView::Number {
                integer: Some(m),
                ..
            } && m == n) {
            let j = choose|j: int|
                0 <= j < items.len() && (#[trigger] items[j] matches JsonView::Number {
                    integer: Some(m),
                    ..
                } && m == n);
            if j < rest.len() {
                assert(rest[j] == items[j]);
            }
        }
        if exists|j: int|
            0 <= j < rest.len() && (#[trigger] rest[j] matches JsonView::Number {
                integer: Some(m),
                ..
            } && m == n) {
            let j = choose|j: int|
                0 <= j < rest.len() && (#[trigger] rest[j] matches JsonView::Number {
                    integer: Some(m),
                    ..
                } && m == n);
            assert(items[j] == rest[j]);
        }
        assert(items[items.len() - 1] == items.last());
    }
}

/// An issue is on the chapters that its two fields name, and on no others.
pub proof fn law_issue_is_on_the_chapters_it_names(item: JsonView, n: i64)
    ensures
        named_indexes(item).contains(n) <==> (field(item, "chapter_index"@) matches Some(
            JsonView::Number { integer: Some(m), .. },
        ) && m == n) || (list_field(item, "chapter_indexes"@) matches Some(list) && exists|j: int|
            0 <= j < list.len() && (#[trigger] list[j] matches JsonView::Number {
                integer: Some(m),
                ..
            } && m == n)),
{
    let listed = match list_field(item, "chapter_indexes"@) {
        Some(items) => integers(items),
        None => Seq::empty(),
    };
    if list_field(item, "chapter_indexes"@) is Some {
        lemma_integers(list_field(item, "chapter_indexes"@)->0, n);
    }
    let all = match field(item, "chapter_index"@) {
        Some(JsonView::Number { integer: Some(m), .. }) => listed.push(m),
        _ => listed,
    };
    match field(item, "chapter_index"@) {
        Some(JsonView::Number { integer: Some(m), .. }) => {
            lemma_push_contains(listed, m, n);
        },
        _ => {},
    }
    law_sorted_indexes_are_distinct(all);
}

/// An issue that an answer lists in words and that asks for something is an issue of the decision.
pub proof fn law_listed_words_are_kept(
    value: JsonView,
    settings: NovelSettingsView,
    items: Seq<JsonView>,
    i: int,
    words: Seq<char>,
) -> (k: int)
    requires
        list_field(value, "issues"@) == Some(items),
        0 <= i < items.len(),
        items[i] == JsonView::Text(words),
        !asks_nothing(words, ""@, settings),
    ensures
        0 <= k < decided_issues(value, settings).len(),
        decided_issues(value, settings)[k].problem == trim(words),
{
    lemma_listed_is_kept(items, settings, i)
}

/// A remark with something in it that speaks of no title and does not say that anything is well
/// asks for something.
pub proof fn law_plain_complaint_asks_for_something(
    problem: Seq<char>,
    fix: Seq<char>,
    settings: NovelSettingsView,
)
    requires
        !blank(problem),
        !holds(whole_issue(problem, fix), "标题"@),
        !holds_any(whole_issue(problem, fix), compliant_words()),
    ensures
        !asks_nothing(problem, fix, settings),
{
    let p = trim(problem);
    let joined = p + " "@ + trim(fix);
    law_trimmed_text_is_the_middle(problem);
    let ends = law_trimmed_text_is_the_middle(joined);
    if whole_issue(problem, fix).len() == 0 {
        assert(joined[0] == p[0]);
        if ends.0 > 0 {
            assert(crate::text::white(joined[0]));
        } else {
            assert(ends.1 == 0);
            assert(crate::text::white(joined[0]));
        }
    }
}

/// An answer without issues and without a summary that does not refuse is an approval.
pub proof fn law_silence_is_approval(value: JsonView, settings: NovelSettingsView)
    requires
        list_field(value, "issues"@) matches Some(items) ==> items.len() == 0,
        text_field(value, "summary"@) is None,
        field(value, "approved"@) == Some(JsonView::Bool(true)),
    ensures
        decided_issues(value, settings).len() == 0,
{
}

// ---- coverage of the obligations ------------------------------------------------------------
proof fn lemma_obligation_with_id(list: Seq<RewriteObligationView>, id: Seq<char>)
    ensures
        match obligation_with_id(list, id) {
            Some(o) => o.obligation_id == id && list.contains(o),
            None => forall|i: int| 0 <= i < list.len() ==> (#[trigger] list[i]).obligation_id != id,
        },
    decreases list.len(),
{
    if list.len() > 0 {
        let rest = list.drop_last();
        lemma_obligation_with_id(rest, id);
        assert(list[list.len() - 1] == list.last());
        if obligation_with_id(rest, id) is Some {
            let o = obligation_with_id(rest, id)->0;
            assert(list[rest.index_of(o)] == o);
        }
        if list.last().obligation_id != id && obligation_with_id(rest, id) is None {
            assert forall|i: int| 0 <= i < list.len() implies (#[trigger] list[i]).obligation_id
                != id by {
                if i < rest.len() {
                    assert(rest[i] == list[i]);
                }
            }
        }
    }
}

proof fn lemma_item_findings_kept(
    obligations: Seq<RewriteObligationView>,
    rewrites: Seq<ParsedChapterRewriteView>,
    preserving: Seq<Seq<char>>,
    coverage: Seq<ReviewCoverageItemView>,
    k: int,
    issue: ReviewIssueView,
)
    requires
        0 <= k < coverage.len(),
        coverage_findings(obligations, rewrites, preserving, coverage) is Ok,
        item_findings(obligations, rewrites, preserving, coverage.take(k), coverage[k]) matches Ok(
            found,
        ) && found.contains(issue),
    ensures
        coverage_findings(obligations, rewrites, preserving, coverage)->Ok_0.contains(issue),
    decreases coverage.len(),
{
    let earlier = coverage.drop_last();
    let before = coverage_findings(obligations, rewrites, preserving, earlier)->Ok_0;
    let more = item_findings(obligations, rewrites, preserving, earlier, coverage.last())->Ok_0;
    lemma_sum_contains(before, more, issue);
    if k < earlier.len() {
        assert(earlier.take(k) =~= coverage.take(k));
        lemma_item_findings_kept(obligations, rewrites, preserving, earlier, k, issue);
    } else {
        assert(coverage.take(k) =~= earlier);
    }
}

/// An item that is about an obligation of the plan and does not hold is reported on the chapter
/// of the obligation, under its name.
pub proof fn law_unmet_obligation_is_reported(
    obligations: Seq<RewriteObligationView>,
    rewrites: Seq<ParsedChapterRewriteView>,
    preserving: Seq<Seq<char>>,
    coverage: Seq<ReviewCoverageItemView>,
    k: int,
) -> (issue: ReviewIssueView)
    requires
        0 <= k < coverage.len(),
        coverage_findings(obligations, rewrites, preserving, coverage) is Ok,
        obligation_with_id(obligations, coverage[k].obligation_id) is Some,
        coverage[k].status != "satisfied"@ || !crate::coverage::evidence_found(coverage[k], rewrites),
        coverage[k].status != "satisfied"@ || obligation_with_id(
            obligations,
            coverage[k].obligation_id,
        )->0.required_changes.len() > 0 || !preserving.contains(coverage[k].obligation_id),
    ensures
        coverage_findings(obligations, rewrites, preserving, coverage)->Ok_0.contains(issue),
        issue.chapter_indexes == seq![
            obligation_with_id(obligations, coverage[k].obligation_id)->0.chapter_index,
        ],
        holds(issue.problem, coverage[k].obligation_id),
        holds(issue.required_fix, coverage[k].obligation_id),
        issue.severity == "blocking"@,
{
    let item = coverage[k];
    let o = obligation_with_id(obligations, item.obligation_id)->0;
    lemma_obligation_with_id(obligations, item.obligation_id);
    let issue = unmet_obligation_issue(item, o);
    lemma_no_error(obligations, rewrites, preserving, coverage, k);
    let found = item_findings(obligations, rewrites, preserving, coverage.take(k), item)->Ok_0;
    assert(found.last() == issue);
    assert(found[found.len() - 1] == issue);
    assert(found.contains(issue));
    lemma_item_findings_kept(obligations, rewrites, preserving, coverage, k, issue);
    if item.status == "satisfied"@ {
        lemma_holds_inside("义务 "@, item.obligation_id, " 的 satisfied 证据无法在当前改写稿中定位。"@);
    } else {
        lemma_holds_inside("义务 "@, item.obligation_id, " 状态为 "@ + item.status + "。"@);
        assert("义务 "@ + item.obligation_id + (" 状态为 "@ + item.status + "。"@) =~= "义务 "@
            + item.obligation_id + " 状态为 "@ + item.status + "。"@);
    }
    lemma_holds_inside(
        "定向完成义务 "@,
        item.obligation_id,
        "："@ + crate::coverage::fix_summary(o),
    );
    assert("定向完成义务 "@ + item.obligation_id + ("："@ + crate::coverage::fix_summary(o))
        =~= "定向完成义务 "@ + item.obligation_id + "："@ + crate::coverage::fix_summary(o));
    issue
}

proof fn lemma_no_error(
    obligations: Seq<RewriteObligationView>,
    rewrites: Seq<ParsedChapterRewriteView>,
    preserving: Seq<Seq<char>>,
    coverage: Seq<ReviewCoverageItemView>,
    k: int,
)
    requires
        0 <= k < coverage.len(),
        coverage_findings(obligations, rewrites, preserving, coverage) is Ok,
    ensures
        item_findings(obligations, rewrites, preserving, coverage.take(k), coverage[k]) is Ok,
    decreases coverage.len(),
{
    let earlier = coverage.drop_last();
    if k < earlier.len() {
        assert(earlier.take(k) =~= coverage.take(k));
        lemma_no_error(obligations, rewrites, preserving, earlier, k);
    } else {
        assert(coverage.take(k) =~= earlier);
    }
}

/// An obligation that no item is about is reported on its chapter, under its name.
pub proof fn law_forgotten_obligation_is_reported(
    obligations: Seq<RewriteObligationView>,
    coverage: Seq<ReviewCoverageItemView>,
    i: int,
) -> (issue: ReviewIssueView)
    requires
        0 <= i < obligations.len(),
        forall|k: int|
            0 <= k < coverage.len() ==> (#[trigger] coverage[k]).obligation_id
                != obligations[i].obligation_id,
    ensures
        forgotten(obligations, coverage).contains(issue),
        issue.chapter_indexes == seq![obligations[i].chapter_index],
        holds(issue.problem, obligations[i].obligation_id),
    decreases obligations.len(),
{
    let rest = obligations.drop_last();
    let before = forgotten(rest, coverage);
    if i < rest.len() {
        let issue = law_forgotten_obligation_is_reported(rest, coverage, i);
        if !covered(coverage, obligations.last().obligation_id) {
            lemma_push_contains(
                before,
                crate::decision::forgotten_obligation_issue(obligations.last()),
                issue,
            );
        }
        issue
    } else {
        let o = obligations.last();
        let issue = crate::decision::forgotten_obligation_issue(o);
        assert(!covered(coverage, o.obligation_id));
        lemma_push_contains(before, issue, issue);
        lemma_holds_inside("coverage 遗漏义务 "@, o.obligation_id, "。"@);
        issue
    }
}

/// An item on an obligation that an earlier item was about, one that names other chapters than
/// that of its obligation, and one on no obligation of the plan, are each reported.
pub proof fn law_faulty_item_is_reported(
    obligations: Seq<RewriteObligationView>,
    rewrites: Seq<ParsedChapterRewriteView>,
    preserving: Seq<Seq<char>>,
    coverage: Seq<ReviewCoverageItemView>,
    k: int,
)
    requires
        0 <= k < coverage.len(),
        coverage_findings(obligations, rewrites, preserving, coverage) is Ok,
        (forall|i: int|
            0 <= i < obligations.len() ==> (#[trigger] obligations[i]).obligation_id
                != coverage[k].obligation_id) || (exists|j: int|
            0 <= j < k && (#[trigger] coverage[j]).obligation_id == coverage[k].obligation_id)
            || coverage[k].chapter_indexes.len() != 1,
    ensures
        coverage_findings(obligations, rewrites, preserving, coverage)->Ok_0.len() > 0,
{
    let item = coverage[k];
    lemma_obligation_with_id(obligations, item.obligation_id);
    lemma_no_error(obligations, rewrites, preserving, coverage, k);
    let earlier = coverage.take(k);
    let found = item_findings(obligations, rewrites, preserving, earlier, item)->Ok_0;
    if exists|j: int| 0 <= j < k && (#[trigger] coverage[j]).obligation_id == item.obligation_id {
        let j = choose|j: int|
            0 <= j < k && (#[trigger] coverage[j]).obligation_id == item.obligation_id;
        assert(earlier[j].obligation_id == item.obligation_id);
        assert(covered(earlier, item.obligation_id));
    }
    if obligation_with_id(obligations, item.obligation_id) is Some {
        let o = obligation_with_id(obligations, item.obligation_id)->0;
        assert(obligations[obligations.index_of(o)].obligation_id == item.obligation_id);
    }
    assert(found.len() > 0);
    assert(found.contains(found[0]));
    lemma_item_findings_kept(obligations, rewrites, preserving, coverage, k, found[0]);
    let all = coverage_findings(obligations, rewrites, preserving, coverage)->Ok_0;
    assert(all[all.index_of(found[0])] == found[0]);
}

// ---- sentences and the logic of the name ----------------------------------------------------
proof fn lemma_scan_goes_on(a: Seq<char>, b: Seq<char>)
    requires
        sentence_scan(a).1.len() == 0,
    ensures
        sentence_scan(a + b).0 == sentence_scan(a).0 + sentence_scan(b).0,
        sentence_scan(a + b).1 == sentence_scan(b).1,
    decreases b.len(),
{
    if b.len() == 0 {
        assert(a + b =~= a);
        assert(sentence_scan(a).0 + sentence_scan(b).0 =~= sentence_scan(a).0);
        assert(sentence_scan(a).1 =~= sentence_scan(b).1);
    } else {
        assert((a + b).drop_last() =~= a + b.drop_last());
        lemma_scan_goes_on(a, b.drop_last());
        let longer = sentence_scan(b.drop_last()).1.push(b.last());
        if ends_sentence(b.last()) && !blank(longer) {
            assert(sentence_scan(a).0 + sentence_scan(b.drop_last()).0.push(trim(longer)) =~= (
            sentence_scan(a).0 + sentence_scan(b.drop_last()).0).push(trim(longer)));
        }
    }
}

/// A mark that ends a sentence parts the text: the sentences are those up to the mark and those
/// behind it.
pub proof fn law_sentences_part_at_a_mark(a: Seq<char>, mark: char, b: Seq<char>)
    requires
        mark == '。' || mark == '！' || mark == '？' || mark == '!' || mark == '?' || mark == '\n',
    ensures
        sentences(a.push(mark) + b) == sentences(a.push(mark)) + sentences(b),
{
    let first = a.push(mark);
    let marks = seq!['。', '！', '？', '!', '?', '\n'];
    assert(marks[0] == '。' && marks[1] == '！' && marks[2] == '？' && marks[3] == '!' && marks[4]
        == '?' && marks[5] == '\n');
    assert(marks.contains(mark));
    assert(first.drop_last() =~= a);
    assert(sentence_scan(first).1.len() == 0);
    assert(trim(Seq::<char>::empty()).len() == 0) by {
        law_trimmed_text_is_the_middle(Seq::<char>::empty());
    }
    assert(sentence_scan(first).1 =~= Seq::<char>::empty());
    lemma_scan_goes_on(first, b);
    assert(sentences(first + b) =~= sentences(first) + sentences(b));
}

proof fn lemma_scan_without_marks(s: Seq<char>)
    requires
        forall|i: int| 0 <= i < s.len() ==> !ends_sentence(#[trigger] s[i]),
    ensures
        sentence_scan(s) == (Seq::<Seq<char>>::empty(), s),
    decreases s.len(),
{
    if s.len() > 0 {
        let rest = s.drop_last();
        assert forall|i: int| 0 <= i < rest.len() implies !ends_sentence(#[trigger] rest[i]) by {
            assert(rest[i] == s[i]);
        }
        lemma_scan_without_marks(rest);
        assert(rest.push(s.last()) =~= s);
    } else {
        assert(s =~= Seq::<char>::empty());
    }
}

/// A text without such marks, or with one at its end alone, is one sentence.
pub proof fn law_text_without_marks_is_one_sentence(s: Seq<char>)
    requires
        !blank(s),
        forall|i: int|
            0 <= i < s.len() ==> {
                let c = #[trigger] s[i];
                c != '。' && c != '！' && c != '？' && c != '!' && c != '?' && c != '\n'
            },
    ensures
        sentences(s) == seq![trim(s)],
        sentences(s.push('。')) == seq![trim(s.push('。'))],
{
    let marks = seq!['。', '！', '？', '!', '?', '\n'];
    assert forall|i: int| 0 <= i < s.len() implies !ends_sentence(#[trigger] s[i]) by {
        if marks.contains(s[i]) {
            let k = marks.index_of(s[i]);
            assert(marks[k] == s[i]);
            assert(k == 0 || k == 1 || k == 2 || k == 3 || k == 4 || k == 5);
        }
    }
    lemma_scan_without_marks(s);
    assert(sentences(s) =~= seq![trim(s)]);
    let t = s.push('。');
    assert(t.drop_last() =~= s);
    assert(marks[0] == '。');
    assert(marks.contains('。'));
    assert(!blank(t)) by {
        let ends = law_trimmed_text_is_the_middle(t);
        if trim(t).len() == 0 {
            if ends.1 <= s.len() {
                assert(crate::text::white(t[s.len() as int]));
            } else {
                assert(crate::text::white(t[s.len() as int]));
            }
        }
    }
    assert(trim(Seq::<char>::empty()).len() == 0) by {
        law_trimmed_text_is_the_middle(Seq::<char>::empty());
    }
    assert(sentences(t) =~= seq![trim(t)]);
}

proof fn lemma_conflicting(
    list: Seq<Seq<char>>,
    parts: Seq<Seq<char>>,
    rewritten: Seq<char>,
    i: int,
)
    requires
        0 <= i < list.len(),
        trim(list[i]).len() > 0,
        points_to_protagonist(trim(list[i]), rewritten),
        explains_by_any(trim(list[i]), parts),
    ensures
        conflicting(list, parts, rewritten).len() > 0,
    decreases list.len(),
{
    if i < list.len() - 1 {
        lemma_conflicting(list.drop_last(), parts, rewritten, i);
    }
}

proof fn lemma_all_conflicts(
    text: Seq<char>,
    sources: Seq<Seq<char>>,
    rewritten: Seq<char>,
    k: int,
)
    requires
        0 <= k < sources.len(),
        name_conflicts(text, sources[k], rewritten).len() > 0,
    ensures
        all_name_conflicts(text, sources, rewritten).len() > 0,
    decreases sources.len(),
{
    if k < sources.len() - 1 {
        lemma_all_conflicts(text, sources.drop_last(), rewritten, k);
    }
}

proof fn lemma_name_logic_reported(
    chapters: Seq<ChapterView>,
    rewrites: Seq<ParsedChapterRewriteView>,
    settings: NovelSettingsView,
    c: int,
) -> (k: int)
    requires
        0 <= c < chapters.len(),
        !blank(settings.protagonist_name),
        !blank(settings.rewritten_protagonist_name),
        rewrite_with_id(rewrites, chapters[c].id) is Some,
        chapter_name_conflicts(rewrite_with_id(rewrites, chapters[c].id)->0, settings).len() > 0,
    ensures
        0 <= k < name_logic_issues(chapters, rewrites, settings).len(),
        name_logic_issues(chapters, rewrites, settings)[k].chapter_indexes
            == seq![chapters[c].index],
    decreases chapters.len(),
{
    let before = name_logic_issues(chapters.drop_last(), rewrites, settings);
    if c < chapters.len() - 1 {
        let k = lemma_name_logic_reported(chapters.drop_last(), rewrites, settings, c);
        assert(name_logic_issues(chapters, rewrites, settings)[k] == before[k]);
        k
    } else {
        before.len() as int
    }
}

/// Where a sentence of a rewrite points to the protagonist and explains a name by the old name or
/// a part of it, the scan reports the chapter.
pub proof fn law_old_logic_of_the_name_is_reported(
    chapters: Seq<ChapterView>,
    rewrites: Seq<ParsedChapterRewriteView>,
    settings: NovelSettingsView,
    c: int,
    i: int,
    part: Seq<char>,
) -> (k: int)
    requires
        0 <= c < chapters.len(),
        !blank(settings.protagonist_name),
        !blank(settings.rewritten_protagonist_name),
        rewrite_with_id(rewrites, chapters[c].id) is Some,
        ({
            let body = rewrite_body(rewrite_with_id(rewrites, chapters[c].id)->0);
            let name = trim(settings.protagonist_name);
            &&& 0 <= i < sentences(body).len()
            &&& trim(sentences(body)[i]).len() > 0
            &&& points_to_protagonist(
                trim(sentences(body)[i]),
                trim(settings.rewritten_protagonist_name),
            )
            &&& part == name || part == name.skip(1) || part == seq![name.last()]
            &&& explains_by(trim(sentences(body)[i]), part)
        }),
    ensures
        0 <= k < name_logic_issues(chapters, rewrites, settings).len(),
        name_logic_issues(chapters, rewrites, settings)[k].chapter_indexes
            == seq![chapters[c].index],
{
    let rewrite = rewrite_with_id(rewrites, chapters[c].id)->0;
    let body = rewrite_body(rewrite);
    let name = trim(settings.protagonist_name);
    let new = trim(settings.rewritten_protagonist_name);
    lemma_trim_again(settings.protagonist_name);
    law_protagonist_has_its_name(settings);
    let sources = source_names(settings);
    let s = sources.index_of(name);
    let parts = legacy_parts(name);
    let list: Seq<Seq<char>> = if name.len() == 1 {
        seq![name]
    } else {
        seq![name, name.skip(1), seq![name.last()]]
    };
    law_sorted_texts_are_distinct(list, true);
    assert(list.contains(part)) by {
        assert(list[0] == name);
        if name.len() == 1 {
            assert(name =~= seq![name.last()]);
            if part == name.skip(1) {
                assert(part.len() == 0);
            }
        } else {
            assert(list[1] == name.skip(1));
            assert(list[2] == seq![name.last()]);
        }
    }
    assert(parts == crate::order::sort_distinct(list, true));
    assert(parts.contains(part));
    assert(parts[parts.index_of(part)] == part);
    assert(explains_by_any(trim(sentences(body)[i]), parts));
    lemma_conflicting(sentences(body), parts, new, i);
    let found = conflicting(sentences(body), parts, new);
    law_sorted_texts_are_distinct(found, false);
    assert(found.contains(found[0]));
    let sorted = crate::order::sort_distinct(found, false);
    assert(sorted.contains(found[0]));
    assert(sorted[sorted.index_of(found[0])] == found[0]);
    assert(name_conflicts(body, sources[s], new).len() > 0);
    lemma_all_conflicts(body, sources, new, s);
    lemma_name_logic_reported(chapters, rewrites, settings, c)
}

} // verus!
