//! What is left of a review: which remarks count, which are dropped, and what an answer says.
use vstd::prelude::*;
use crate::coverage::evidence_found;
use crate::decision::{
    about_title_only, asks_nothing, captured_index, captured_indexes, coverage_findings, covered,
    decided_issues, forgotten, issue_indexes, item_findings, item_issue, known_statuses, met,
    misplaced_obligation_issue, named_indexes, obligation_with_id, review_findings, stated_approval,
    summary_issue, text_or, whole_issue, without_phrases, yes_words,
};
use crate::domain::{
    ChapterView, NovelSettingsView, ParsedChapterRewriteView, ReviewCoverageItemView,
    ReviewIssueView, RewriteObligationView, RewritePlanView,
};
use crate::json::{field, text_field, JsonView};
use crate::keywords::{
    compliant_words, defect_words, harmless_words, legacy_subject_words, male_identity_words,
    non_human_words, numbering_words, pronoun_claim_words, pronoun_words, protagonist_words,
    title_defect_words,
};
use crate::names::{line_sources, normal_form};
use crate::patterns::Captured;
use crate::review_filter::{
    ambiguous_fragment, ambiguous_non_human, claim_of, evidence_absent, format_words, gender_claim,
    is_note, meaningful, missing_evidence, nickname_only, only_notes_missing, original_lines,
    quoted_evidence, refuted, relevant, rewrite_bodies, speaks_of_protagonist, AuthorNotesView,
};
use crate::text::{ascii_lowered, blank, holds, holds_any, lines, signed_number, trim};
use crate::text_laws::{lemma_holds_end, lemma_holds_more, lemma_push_contains, lemma_sum_contains};
use crate::residue::{conflicting, explains_by_any, points_to_protagonist};

verus! {

// ---- who is spoken of -----------------------------------------------------------------------
/// A text speaks of the protagonist where it has the old name, the new one or an alias, or a word
/// for the protagonist.
pub proof fn law_protagonist_is_recognised(
    text: Seq<char>,
    settings: NovelSettingsView,
    name: Seq<char>,
)
    requires
        name.len() > 0,
        holds(text, name),
        name == trim(settings.protagonist_name) || name == trim(
            settings.rewritten_protagonist_name,
        ) || (exists|i: int|
            0 <= i < line_sources(lines(normal_form(settings.protagonist_aliases))).len() && trim(
                #[trigger] line_sources(lines(normal_form(settings.protagonist_aliases)))[i],
            ) == name) || protagonist_words().contains(name),
    ensures
        speaks_of_protagonist(text, settings),
{
    if protagonist_words().contains(name) {
        let k = protagonist_words().index_of(name);
        assert(holds(text, protagonist_words()[k]));
    }
}

/// A claim about the protagonist is never dropped as one about another being.
pub proof fn law_protagonist_is_no_other_being(
    issue: ReviewIssueView,
    settings: NovelSettingsView,
    rewrites: Seq<ParsedChapterRewriteView>,
)
    requires
        speaks_of_protagonist(issue.problem + " "@ + issue.required_fix, settings),
    ensures
        !ambiguous_non_human(issue, settings, rewrites),
{
}

/// A claim that quotes evidence is dropped as one about another being only for evidence that is
/// there, has a pronoun and nothing else that is male.
pub proof fn law_male_being_is_no_doubt(
    issue: ReviewIssueView,
    settings: NovelSettingsView,
    rewrites: Seq<ParsedChapterRewriteView>,
)
    requires
        quoted_evidence(issue.problem).len() > 0,
        forall|i: int|
            0 <= i < quoted_evidence(issue.problem).len() ==> !holds(
                rewrite_bodies(rewrites),
                #[trigger] quoted_evidence(issue.problem)[i],
            ) || !holds_any(quoted_evidence(issue.problem)[i], pronoun_words()) || holds_any(
                quoted_evidence(issue.problem)[i],
                male_identity_words(),
            ),
    ensures
        !ambiguous_non_human(issue, settings, rewrites),
{
}

/// The pronoun of another being is no leftover: such a claim is dropped where it speaks of no
/// protagonist, names the being, and quotes a place that is there and has only the pronoun.
pub proof fn law_pronoun_of_another_being_is_dropped(
    issue: ReviewIssueView,
    chapters: Seq<ChapterView>,
    rewrites: Seq<ParsedChapterRewriteView>,
    settings: NovelSettingsView,
    notes: AuthorNotesView,
    f: Seq<char>,
)
    requires
        gender_claim(claim_of(issue), issue.category),
        !speaks_of_protagonist(claim_of(issue), settings),
        holds_any(claim_of(issue), non_human_words()),
        holds_any(claim_of(issue), pronoun_claim_words()),
        relevant(issue, rewrites).len() > 0,
        quoted_evidence(issue.problem).contains(f),
        holds(rewrite_bodies(relevant(issue, rewrites)), f),
        holds_any(f, pronoun_words()),
        !holds_any(f, male_identity_words()),
    ensures
        refuted(issue, chapters, rewrites, settings, notes),
{
    let evidence = quoted_evidence(issue.problem);
    let i = evidence.index_of(f);
    assert(ambiguous_fragment(evidence[i], rewrite_bodies(relevant(issue, rewrites))));
}

/// A claim is one about gender by its category or by its words.
pub proof fn law_claim_about_gender(text: Seq<char>, category: Seq<char>)
    requires
        holds(category, "gender"@),
    ensures
        gender_claim(text, category),
{
}

/// A quotation of one character, or of a word of the format, is no evidence; any other is.
pub proof fn law_what_can_be_evidence(fragment: Seq<char>)
    ensures
        fragment.len() < 2 ==> !meaningful(fragment),
        fragment == "blocking"@ || fragment == "chapter"@ || fragment == "gender_residue"@
            || fragment == "scope"@ || fragment == "category"@ || fragment == "severity"@
            || fragment == "problem"@ || fragment == "required_fix"@ ==> !meaningful(fragment),
        fragment.len() >= 2 && fragment != "blocking"@ && fragment != "chapter"@ && fragment
            != "gender_residue"@ && fragment != "scope"@ && fragment != "category"@ && fragment
            != "severity"@ && fragment != "problem"@ && fragment != "required_fix"@ ==> meaningful(
            fragment,
        ),
{
    let list = format_words();
    assert(list.len() == 8);
    assert(list[0] == "blocking"@ && list[1] == "chapter"@ && list[2] == "gender_residue"@
        && list[3] == "scope"@ && list[4] == "category"@ && list[5] == "severity"@ && list[6]
        == "problem"@ && list[7] == "required_fix"@);
}

// ---- what is missing ------------------------------------------------------------------------
/// The lines that are looked through for a missing text are those of the chapters that an issue
/// names, their titles included, and of all chapters where it names none.
pub proof fn law_lines_of_the_named_chapters(
    chapters: Seq<ChapterView>,
    indexes: Seq<i64>,
    x: Seq<char>,
)
    ensures
        original_lines(chapters, indexes).contains(x) <==> exists|c: int|
            0 <= c < chapters.len() && (indexes.len() == 0 || indexes.contains(
                (#[trigger] chapters[c]).index,
            )) && (x == chapters[c].title || lines(chapters[c].original_text).contains(x)),
    decreases chapters.len(),
{
    if chapters.len() > 0 {
        let rest = chapters.drop_last();
        let last = chapters.last();
        let before = original_lines(rest, indexes);
        law_lines_of_the_named_chapters(rest, indexes, x);
        lemma_push_contains(before, last.title, x);
        lemma_sum_contains(before.push(last.title), lines(last.original_text), x);
        if before.contains(x) {
            let c = choose|c: int|
                0 <= c < rest.len() && (indexes.len() == 0 || indexes.contains(
                    (#[trigger] rest[c]).index,
                )) && (x == rest[c].title || lines(rest[c].original_text).contains(x));
            assert(chapters[c] == rest[c]);
        }
        if (indexes.len() == 0 || indexes.contains(last.index)) && (x == last.title || lines(
            last.original_text,
        ).contains(x)) {
            assert(chapters[chapters.len() - 1] == last);
        }
        if exists|c: int|
            0 <= c < chapters.len() && (indexes.len() == 0 || indexes.contains(
                (#[trigger] chapters[c]).index,
            )) && (x == chapters[c].title || lines(chapters[c].original_text).contains(x)) {
            let c = choose|c: int|
                0 <= c < chapters.len() && (indexes.len() == 0 || indexes.contains(
                    (#[trigger] chapters[c]).index,
                )) && (x == chapters[c].title || lines(chapters[c].original_text).contains(x));
            if c < rest.len() {
                assert(rest[c] == chapters[c]);
            }
        }
    } else {
        assert(!original_lines(chapters, indexes).contains(x));
    }
}

/// An issue about missing text is dropped only if something that it points at is missing: what is
/// all there is no reason to drop it.
pub proof fn law_nothing_missing_is_no_note(
    issue: ReviewIssueView,
    chapters: Seq<ChapterView>,
    rewrites: Seq<ParsedChapterRewriteView>,
    notes: AuthorNotesView,
)
    requires
        ({
            let rows = original_lines(chapters, issue.chapter_indexes);
            let evidence = missing_evidence(issue, rows, notes);
            forall|i: int|
                0 <= i < evidence.len() ==> holds(rewrite_bodies(rewrites), #[trigger] evidence[i])
        }),
    ensures
        !only_notes_missing(issue, chapters, rewrites, notes),
{
}

/// An issue about missing text counts where the quotation that is missing stands in no line of the
/// original chapters, or in none that is a note of the author.
pub proof fn law_missing_story_counts(
    issue: ReviewIssueView,
    chapters: Seq<ChapterView>,
    rewrites: Seq<ParsedChapterRewriteView>,
    notes: AuthorNotesView,
    f: Seq<char>,
)
    requires
        missing_evidence(
            issue,
            original_lines(chapters, issue.chapter_indexes),
            notes,
        ).contains(f),
        !holds(rewrite_bodies(rewrites), f),
        !notes.fragments.contains(f),
        forall|k: int|
            0 <= k < original_lines(chapters, issue.chapter_indexes).len() && holds(
                #[trigger] original_lines(chapters, issue.chapter_indexes)[k],
                f,
            ) ==> !notes.lines.contains(original_lines(chapters, issue.chapter_indexes)[k]),
    ensures
        !only_notes_missing(issue, chapters, rewrites, notes),
{
    let rows = original_lines(chapters, issue.chapter_indexes);
    let evidence = missing_evidence(issue, rows, notes);
    let i = evidence.index_of(f);
    assert(evidence[i] == f);
    assert(!is_note(evidence[i], rows, notes));
}

// ---- which remarks ask for something --------------------------------------------------------
/// A remark on the numbering of titles asks for nothing.
pub proof fn law_numbering_asks_nothing(
    problem: Seq<char>,
    fix: Seq<char>,
    settings: NovelSettingsView,
)
    requires
        holds(whole_issue(problem, fix), "标题"@),
        holds(whole_issue(problem, fix), "索引"@),
        holds_any(whole_issue(problem, fix), numbering_words()),
    ensures
        asks_nothing(problem, fix, settings),
{
}

/// A remark on a title counts where it speaks of the text, of the protagonist, by either name too,
/// or of a real defect.
pub proof fn law_remark_on_a_title_counts(text: Seq<char>, settings: NovelSettingsView)
    requires
        holds(text, "正文"@) || holds(text, "主角"@) || (trim(settings.protagonist_name).len() > 0
            && holds(text, trim(settings.protagonist_name))) || (trim(
            settings.rewritten_protagonist_name,
        ).len() > 0 && holds(text, trim(settings.rewritten_protagonist_name))) || holds_any(
            text,
            title_defect_words(),
        ) || !holds(text, "标题"@),
    ensures
        !about_title_only(text, settings),
{
}

/// Praise asks for nothing, unless a defect is named besides the phrases that only sound like one.
pub proof fn law_praise_asks_nothing(
    problem: Seq<char>,
    fix: Seq<char>,
    settings: NovelSettingsView,
)
    requires
        holds_any(whole_issue(problem, fix), compliant_words()),
        !holds_any(whole_issue(problem, fix), defect_words()),
        forall|i: int|
            0 <= i < harmless_words().len() ==> !holds(
                whole_issue(problem, fix),
                #[trigger] harmless_words()[i],
            ),
    ensures
        asks_nothing(problem, fix, settings),
{
    lemma_without_none(whole_issue(problem, fix), harmless_words());
}

proof fn lemma_without_none(text: Seq<char>, phrases: Seq<Seq<char>>)
    requires
        forall|i: int| 0 <= i < phrases.len() ==> !holds(text, #[trigger] phrases[i]),
    ensures
        without_phrases(text, phrases) == text,
    decreases phrases.len(),
{
    if phrases.len() > 0 {
        let rest = phrases.drop_last();
        assert forall|i: int| 0 <= i < rest.len() implies !holds(text, #[trigger] rest[i]) by {
            assert(rest[i] == phrases[i]);
        }
        lemma_without_none(text, rest);
        assert(!holds(text, phrases[phrases.len() - 1]));
        crate::text_laws::law_replacing_nothing(text, phrases.last(), Seq::empty());
    }
}

/// Praise that names a defect counts, where it is not about titles.
pub proof fn law_praise_with_a_defect_counts(
    problem: Seq<char>,
    fix: Seq<char>,
    settings: NovelSettingsView,
)
    requires
        whole_issue(problem, fix).len() > 0,
        !holds(whole_issue(problem, fix), "标题"@),
        holds_any(whole_issue(problem, fix), defect_words()),
        forall|i: int|
            0 <= i < harmless_words().len() ==> !holds(
                whole_issue(problem, fix),
                #[trigger] harmless_words()[i],
            ),
    ensures
        !asks_nothing(problem, fix, settings),
{
    lemma_without_none(whole_issue(problem, fix), harmless_words());
}

// ---- what an answer says --------------------------------------------------------------------
/// What an answer says of approval: a yes or a no, or one of the words for yes, in the field for it.
/// Other names of the field count only where that one is not there.
pub proof fn law_stated_approval(value: JsonView, said: JsonView)
    requires
        field(value, "approved"@) == Some(said) || (field(value, "approved"@) is None && (field(
            value,
            "pass"@,
        ) == Some(said) || (field(value, "pass"@) is None && field(value, "passed"@) == Some(
            said,
        )))),
    ensures
        said matches JsonView::Bool(b) ==> stated_approval(value) == Some(b),
        said matches JsonView::Text(s) ==> (stated_approval(value) == Some(true) <==> {
            let word = ascii_lowered(trim(s));
            word == "true"@ || word == "yes"@ || word == "pass"@ || word == "passed"@ || word
                == "approved"@ || word == "ok"@
        }),
        said is Text ==> stated_approval(value) is Some,
{
    let list = yes_words();
    assert(list.len() == 6);
    assert(list[0] == "true"@ && list[1] == "yes"@ && list[2] == "pass"@ && list[3] == "passed"@
        && list[4] == "approved"@ && list[5] == "ok"@);
}

/// The chapters that a remark in words names are the numbers that were found in it.
pub proof fn law_numbers_that_were_found(matches: Seq<Captured>, n: i64)
    ensures
        captured_indexes(matches).contains(n) <==> exists|i: int|
            0 <= i < matches.len() && (#[trigger] matches[i]).len() > 1 && matches[i][1] is Some
                && signed_number(matches[i][1]->0) is Some && signed_number(matches[i][1]->0)->0
                as i64 == n,
    decreases matches.len(),
{
    if matches.len() > 0 {
        let rest = matches.drop_last();
        let last = matches.last();
        law_numbers_that_were_found(rest, n);
        if let Some(m) = captured_index(last) {
            lemma_push_contains(captured_indexes(rest), m, n);
        }
        if captured_indexes(rest).contains(n) {
            let i = choose|i: int|
                0 <= i < rest.len() && (#[trigger] rest[i]).len() > 1 && rest[i][1] is Some
                    && signed_number(rest[i][1]->0) is Some && signed_number(rest[i][1]->0)->0
                    as i64 == n;
            assert(matches[i] == rest[i]);
        }
        if captured_index(last) == Some(n) {
            assert(matches[matches.len() - 1] == last);
        }
        if exists|i: int|
            0 <= i < matches.len() && (#[trigger] matches[i]).len() > 1 && matches[i][1] is Some
                && signed_number(matches[i][1]->0) is Some && signed_number(matches[i][1]->0)->0
                as i64 == n {
            let i = choose|i: int|
                0 <= i < matches.len() && (#[trigger] matches[i]).len() > 1 && matches[i][1] is Some
                    && signed_number(matches[i][1]->0) is Some && signed_number(
                    matches[i][1]->0,
                )->0 as i64 == n;
            if i < rest.len() {
                assert(rest[i] == matches[i]);
            }
        }
    } else {
        assert(!captured_indexes(matches).contains(n));
    }
}

// ---- the coverage of a plan -----------------------------------------------------------------
/// An obligation counts as met only if it is called satisfied and its evidence is there. Only one
/// that asks for no change, and is among those that preserve, needs no evidence.
pub proof fn law_met_obligation_has_evidence(
    item: ReviewCoverageItemView,
    obligation: RewriteObligationView,
    rewrites: Seq<ParsedChapterRewriteView>,
    preserving: Seq<Seq<char>>,
)
    ensures
        met(item, obligation, rewrites, preserving) ==> item.status == "satisfied"@,
        met(item, obligation, rewrites, preserving) && !evidence_found(item, rewrites)
            ==> obligation.required_changes.len() == 0 && preserving.contains(
            obligation.obligation_id,
        ),
        item.status == "satisfied"@ && evidence_found(item, rewrites) ==> met(
            item,
            obligation,
            rewrites,
            preserving,
        ),
{
}

proof fn lemma_findings_of_one(
    obligations: Seq<RewriteObligationView>,
    rewrites: Seq<ParsedChapterRewriteView>,
    preserving: Seq<Seq<char>>,
    coverage: Seq<ReviewCoverageItemView>,
    k: int,
)
    requires
        0 <= k < coverage.len(),
        coverage_findings(obligations, rewrites, preserving, coverage) is Ok,
    ensures
        item_findings(obligations, rewrites, preserving, coverage.take(k), coverage[k]) is Ok,
        forall|x: ReviewIssueView| #[trigger]
            item_findings(
                obligations,
                rewrites,
                preserving,
                coverage.take(k),
                coverage[k],
            )->Ok_0.contains(x) ==> coverage_findings(
                obligations,
                rewrites,
                preserving,
                coverage,
            )->Ok_0.contains(x),
    decreases coverage.len(),
{
    let earlier = coverage.drop_last();
    let before = coverage_findings(obligations, rewrites, preserving, earlier)->Ok_0;
    let more = item_findings(
        obligations,
        rewrites,
        preserving,
        earlier,
        coverage.last(),
    )->Ok_0;
    let all = coverage_findings(obligations, rewrites, preserving, coverage)->Ok_0;
    let mine = item_findings(
        obligations,
        rewrites,
        preserving,
        coverage.take(k),
        coverage[k],
    );
    if k < earlier.len() {
        lemma_findings_of_one(obligations, rewrites, preserving, earlier, k);
        assert(earlier.take(k) =~= coverage.take(k));
        assert(earlier[k] == coverage[k]);
    } else {
        assert(coverage.take(k) =~= earlier);
    }
    assert forall|x: ReviewIssueView| #[trigger] mine->Ok_0.contains(x) implies all.contains(x) by {
        lemma_sum_contains(before, more, x);
    }
}

/// An item that is put to another chapter than that of its obligation is reported on the chapter of
/// the obligation.
pub proof fn law_misplaced_item_is_reported(
    obligations: Seq<RewriteObligationView>,
    rewrites: Seq<ParsedChapterRewriteView>,
    preserving: Seq<Seq<char>>,
    coverage: Seq<ReviewCoverageItemView>,
    k: int,
) -> (issue: ReviewIssueView)
    requires
        0 <= k < coverage.len(),
        coverage_findings(obligations, rewrites, preserving, coverage) is Ok,
        obligation_with_id(obligations, coverage[k].obligation_id) is Some,
        coverage[k].chapter_indexes != seq![
            obligation_with_id(obligations, coverage[k].obligation_id)->0.chapter_index,
        ],
    ensures
        coverage_findings(obligations, rewrites, preserving, coverage)->Ok_0.contains(issue),
        issue.chapter_indexes == seq![
            obligation_with_id(obligations, coverage[k].obligation_id)->0.chapter_index,
        ],
        holds(issue.problem, coverage[k].obligation_id),
        issue.severity == "blocking"@,
{
    let item = coverage[k];
    let o = obligation_with_id(obligations, item.obligation_id)->0;
    lemma_findings_of_one(obligations, rewrites, preserving, coverage, k);
    let issue = misplaced_obligation_issue(item.obligation_id, o.chapter_index);
    let found = item_findings(obligations, rewrites, preserving, coverage.take(k), item)->Ok_0;
    let repeated = if covered(coverage.take(k), item.obligation_id) {
        seq![
            crate::decision::repeated_obligation_issue(item.obligation_id, o.chapter_index),
        ]
    } else {
        Seq::empty()
    };
    let unmet = if met(item, o, rewrites, preserving) {
        Seq::empty()
    } else {
        seq![crate::decision::unmet_obligation_issue(item, o)]
    };
    let misplaced = seq![issue];
    assert(misplaced[0] == issue);
    assert(found == repeated + misplaced + unmet);
    lemma_sum_contains(repeated, misplaced, issue);
    lemma_sum_contains(repeated + misplaced, unmet, issue);
    lemma_holds_end("义务 "@, item.obligation_id);
    lemma_holds_more(
        "义务 "@ + item.obligation_id,
        " 的 coverage 章节索引必须且只能是 "@,
        item.obligation_id,
    );
    lemma_holds_more(
        "义务 "@ + item.obligation_id + " 的 coverage 章节索引必须且只能是 "@,
        crate::text::decimal(o.chapter_index as int),
        item.obligation_id,
    );
    lemma_holds_more(
        "义务 "@ + item.obligation_id + " 的 coverage 章节索引必须且只能是 "@ + crate::text::decimal(
            o.chapter_index as int,
        ),
        "。"@,
        item.obligation_id,
    );
    issue
}

/// An item with a state that there is not makes the whole answer unreadable.
pub proof fn law_unknown_state_is_refused(
    obligations: Seq<RewriteObligationView>,
    rewrites: Seq<ParsedChapterRewriteView>,
    preserving: Seq<Seq<char>>,
    coverage: Seq<ReviewCoverageItemView>,
    k: int,
)
    requires
        0 <= k < coverage.len(),
        obligation_with_id(obligations, coverage[k].obligation_id) is Some,
        coverage[k].status != "satisfied"@,
        coverage[k].status != "partial"@,
        coverage[k].status != "missed"@,
        coverage[k].status != "regressed"@,
    ensures
        coverage_findings(obligations, rewrites, preserving, coverage) is Err,
{
    if coverage_findings(obligations, rewrites, preserving, coverage) is Ok {
        lemma_findings_of_one(obligations, rewrites, preserving, coverage, k);
        let list = known_statuses();
        assert(list.len() == 4);
        assert(list[0] == "satisfied"@ && list[1] == "partial"@ && list[2] == "missed"@ && list[3]
            == "regressed"@);
        assert(!list.contains(coverage[k].status));
    }
}

/// Items that are each about their own obligation, in its chapter, satisfied and with evidence,
/// have nothing reported on them.
pub proof fn law_sound_items_are_not_reported(
    obligations: Seq<RewriteObligationView>,
    rewrites: Seq<ParsedChapterRewriteView>,
    preserving: Seq<Seq<char>>,
    coverage: Seq<ReviewCoverageItemView>,
)
    requires
        forall|k: int|
            0 <= k < coverage.len() ==> {
                &&& obligation_with_id(
                    obligations,
                    (#[trigger] coverage[k]).obligation_id,
                ) matches Some(o) && coverage[k].chapter_indexes == seq![o.chapter_index]
                &&& coverage[k].status == "satisfied"@
                &&& evidence_found(coverage[k], rewrites)
            },
        forall|i: int, j: int|
            0 <= i < j < coverage.len() ==> (#[trigger] coverage[i]).obligation_id != (
            #[trigger] coverage[j]).obligation_id,
    ensures
        coverage_findings(obligations, rewrites, preserving, coverage) matches Ok(found)
            && found.len() == 0,
    decreases coverage.len(),
{
    if coverage.len() > 0 {
        let earlier = coverage.drop_last();
        assert forall|k: int| 0 <= k < earlier.len() implies {
            &&& obligation_with_id(
                obligations,
                (#[trigger] earlier[k]).obligation_id,
            ) matches Some(o) && earlier[k].chapter_indexes == seq![o.chapter_index]
            &&& earlier[k].status == "satisfied"@
            &&& evidence_found(earlier[k], rewrites)
        } by {
            assert(earlier[k] == coverage[k]);
        }
        assert forall|i: int, j: int| 0 <= i < j < earlier.len() implies (
        #[trigger] earlier[i]).obligation_id != (#[trigger] earlier[j]).obligation_id by {
            assert(earlier[i] == coverage[i] && earlier[j] == coverage[j]);
        }
        law_sound_items_are_not_reported(obligations, rewrites, preserving, earlier);
        let last = coverage[coverage.len() - 1];
        if covered(earlier, last.obligation_id) {
            let i = choose|i: int|
                0 <= i < earlier.len() && (#[trigger] earlier[i]).obligation_id
                    == last.obligation_id;
            assert(coverage[i].obligation_id != coverage[coverage.len() - 1].obligation_id);
        }
        let list = known_statuses();
        assert(list[0] == "satisfied"@);
    }
}

/// A review with coverage has every issue that the answer lists, every one about its items, and
/// every one about an obligation that was forgotten.
pub proof fn law_review_has_every_finding(
    value: JsonView,
    settings: NovelSettingsView,
    plan: RewritePlanView,
    rewrites: Seq<ParsedChapterRewriteView>,
    preserving: Seq<Seq<char>>,
    coverage: Seq<ReviewCoverageItemView>,
    x: ReviewIssueView,
)
    requires
        review_findings(value, settings, plan, rewrites, preserving, coverage) is Ok,
    ensures
        review_findings(value, settings, plan, rewrites, preserving, coverage)->Ok_0.contains(x)
            <==> decided_issues(value, settings).contains(x) || coverage_findings(
            plan.obligations,
            rewrites,
            preserving,
            coverage,
        )->Ok_0.contains(x) || forgotten(plan.obligations, coverage).contains(x),
{
    let a = decided_issues(value, settings);
    let b = coverage_findings(plan.obligations, rewrites, preserving, coverage)->Ok_0;
    let c = forgotten(plan.obligations, coverage);
    lemma_sum_contains(a, b, x);
    lemma_sum_contains(a + b, c, x);
}

// ---- what an issue says ---------------------------------------------------------------------
/// An issue that an answer gives as an object is taken over field by field. Where a field is not
/// there the issue is blocking, general, and about the chapters it names or else the shard.
pub proof fn law_issue_is_taken_over(item: JsonView, settings: NovelSettingsView)
    requires
        item is Fields,
        item_issue(item, settings) is Some,
    ensures
        ({
            let issue = item_issue(item, settings)->0;
            &&& text_field(item, "problem"@) matches Some(s) ==> issue.problem == trim(s)
            &&& text_field(item, "required_fix"@) matches Some(s) ==> issue.required_fix == trim(s)
            &&& text_field(item, "severity"@) matches Some(s) ==> issue.severity == ascii_lowered(
                trim(s),
            )
            &&& text_field(item, "severity"@) is None ==> issue.severity == ascii_lowered(
                trim("blocking"@),
            )
            &&& text_field(item, "category"@) matches Some(s) ==> issue.category == ascii_lowered(
                trim(s),
            )
            &&& text_field(item, "category"@) is None ==> issue.category == ascii_lowered(
                trim("general"@),
            )
            &&& text_field(item, "scope"@) matches Some(s) ==> issue.scope == ascii_lowered(trim(s))
            &&& text_field(item, "scope"@) is None && issue.chapter_indexes.len() > 0
                ==> issue.scope == ascii_lowered(trim("chapter"@))
            &&& text_field(item, "scope"@) is None && issue.chapter_indexes.len() == 0
                ==> issue.scope == ascii_lowered(trim("shard"@))
            &&& issue.chapter_indexes == named_indexes(item)
        }),
{
}

/// An issue that an answer gives in words is blocking, about the chapters that the words name, or
/// else the shard.
pub proof fn law_issue_in_words_is_blocking(words: Seq<char>, settings: NovelSettingsView)
    requires
        item_issue(JsonView::Text(words), settings) is Some,
    ensures
        ({
            let issue = item_issue(JsonView::Text(words), settings)->0;
            &&& issue.severity == "blocking"@
            &&& issue.problem == trim(words)
            &&& issue.chapter_indexes == issue_indexes(words)
            &&& issue.chapter_indexes.len() > 0 ==> issue.scope == "chapter"@
            &&& issue.chapter_indexes.len() == 0 ==> issue.scope == "shard"@
        }),
{
}

/// An object that says what is wrong or what has to be done, and asks for something, is an issue.
pub proof fn law_object_is_an_issue(item: JsonView, settings: NovelSettingsView)
    requires
        item is Fields,
        (text_field(item, "problem"@) matches Some(s) && !blank(s)) || (text_field(
            item,
            "required_fix"@,
        ) matches Some(s) && !blank(s)),
        !asks_nothing(
            text_or(item, "problem"@, ""@),
            text_or(item, "required_fix"@, ""@),
            settings,
        ),
    ensures
        item_issue(item, settings) is Some,
{
}

/// The summary of an answer that asks for something is an issue of the shard, word for word.
pub proof fn law_summary_is_kept_word_for_word(text: Seq<char>)
    ensures
        summary_issue(text).severity == "blocking"@,
        summary_issue(text).scope == "shard"@,
        holds(summary_issue(text).problem, text),
        summary_issue(text).chapter_indexes.len() == 0,
{
    lemma_holds_end("总体判断："@, text);
}

/// A claim that quotes nothing cannot be dropped because its evidence is missing.
pub proof fn law_claim_without_evidence_is_not_absent(
    issue: ReviewIssueView,
    rewrites: Seq<ParsedChapterRewriteView>,
)
    requires
        quoted_evidence(issue.problem).len() == 0,
    ensures
        !evidence_absent(issue, rewrites),
        !nickname_only(issue, rewrites),
{
}

// ---- the logic of a name --------------------------------------------------------------------
/// A sentence is about the protagonist where it has the new name or one of the words for it.
pub proof fn law_sentence_on_the_protagonist(sentence: Seq<char>, rewritten: Seq<char>)
    ensures
        rewritten.len() > 0 && holds(sentence, rewritten) ==> points_to_protagonist(
            sentence,
            rewritten,
        ),
        holds_any(sentence, legacy_subject_words()) ==> points_to_protagonist(sentence, rewritten),
        points_to_protagonist(sentence, rewritten) ==> (rewritten.len() > 0 && holds(
            sentence,
            rewritten,
        )) || holds_any(sentence, legacy_subject_words()),
{
}

/// Only sentences on the protagonist are reported for the logic of the name.
pub proof fn law_sentence_on_another_is_left_alone(
    list: Seq<Seq<char>>,
    parts: Seq<Seq<char>>,
    rewritten: Seq<char>,
)
    requires
        forall|i: int|
            0 <= i < list.len() ==> !points_to_protagonist(trim(#[trigger] list[i]), rewritten)
                || !explains_by_any(trim(list[i]), parts),
    ensures
        conflicting(list, parts, rewritten).len() == 0,
    decreases list.len(),
{
    if list.len() > 0 {
        let rest = list.drop_last();
        assert forall|i: int| 0 <= i < rest.len() implies !points_to_protagonist(
            trim(#[trigger] rest[i]),
            rewritten,
        ) || !explains_by_any(trim(rest[i]), parts) by {
            assert(rest[i] == list[i]);
        }
        law_sentence_on_another_is_left_alone(rest, parts, rewritten);
        let last = list[list.len() - 1];
        assert(!points_to_protagonist(trim(last), rewritten) || !explains_by_any(
            trim(last),
            parts,
        ));
    }
}

} // verus!
