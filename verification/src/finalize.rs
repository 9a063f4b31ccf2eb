//! The last word on a review: refuted issues go, and what the scans of the text find is added.
use vstd::prelude::*;
use crate::domain::{
    Chapter, ChapterView, NovelSettings, NovelSettingsView, ParsedChapterRewrite,
    ParsedChapterRewriteView, ReviewCoverageItem, ReviewDecision, ReviewIssue, ReviewIssueView,
    RewritePlan, RewritePlanView, RewriteStateUpdate,
};
use crate::coverage::canonical_states;
use crate::decision::{
    decided_issues, parse_review_decision_output, parse_rewrite_review_decision_output,
    review_findings,
};
use crate::json::jsonish;
use crate::overrewrite::{
    detect_overrewrites, overrewrites, protected_names, protected_unmapped_character_names,
};
use crate::pronouns::{
    add_new_issues, group_issues, merge_deterministic_protagonist_residue_issues, new_issues,
    scan_issues,
};
use crate::residue::{name_logic_issues, residue_issues};
use crate::review_filter::{
    filter_review_decision_against_rewrites, refuted, refutes, stands, AuthorNotes,
    AuthorNotesView,
};
use crate::scan_laws::law_approved_rewrite_is_clean;
use crate::text::views;

verus! {

/// A review after the last word on it.
pub struct FinalReview {
    pub decision: ReviewDecision,
    /// The issues that were refuted.
    pub filtered: Vec<ReviewIssue>,
    /// The issues that the scans added.
    pub deterministic: Vec<ReviewIssue>,
}

/// The issues of a review that are left after the refuted ones are gone.
pub open spec fn standing(
    issues: Seq<ReviewIssueView>,
    chapters: Seq<ChapterView>,
    rewrites: Seq<ParsedChapterRewriteView>,
    settings: NovelSettingsView,
    notes: AuthorNotesView,
) -> Seq<ReviewIssueView> {
    issues.filter(stands(chapters, rewrites, settings, notes))
}

/// What all scans add to these issues; the scans for changes that go too far are made where
/// `names` gives the names that have to stay.
pub open spec fn scanned(
    left: Seq<ReviewIssueView>,
    chapters: Seq<ChapterView>,
    rewrites: Seq<ParsedChapterRewriteView>,
    settings: NovelSettingsView,
    names: Option<Seq<Seq<char>>>,
) -> Seq<ReviewIssueView> {
    let first = new_issues(left, scan_issues(chapters, rewrites, settings));
    match names {
        Some(n) => first + new_issues(left + first, overrewrites(chapters, rewrites, n)),
        None => first,
    }
}

/// The last word on a review, with the names that have to stay given where changes that go too
/// far are looked for.
pub fn finalize_with_names(
    decision: ReviewDecision,
    shard: &[Chapter],
    rewrites: &[ParsedChapterRewrite],
    settings: &NovelSettings,
    notes: &AuthorNotes,
    names: Option<Vec<String>>,
) -> (r: FinalReview)
    ensures
        ({
            let left = standing(
                decision@.issues,
                views(shard@),
                views(rewrites@),
                settings@,
                notes@,
            );
            let added = scanned(
                left,
                views(shard@),
                views(rewrites@),
                settings@,
                match names {
                    Some(n) => Some(views(n@)),
                    None => None,
                },
            );
            &&& r.decision@.issues == left + added
            &&& r.decision.approved == ((left + added).len() == 0)
            &&& views(r.deterministic@) == added
            &&& views(r.filtered@) == decision@.issues.filter(
                refutes(views(shard@), views(rewrites@), settings@, notes@),
            )
        }),
{
    let (kept, filtered) = filter_review_decision_against_rewrites(
        decision,
        shard,
        rewrites,
        settings,
        notes,
    );
    let ghost left = kept@.issues;
    let (merged, added) = merge_deterministic_protagonist_residue_issues(
        kept,
        shard,
        rewrites,
        settings,
    );
    let ghost first = views(added@);
    let mut approved = merged.approved;
    let mut issues = merged.issues;
    let mut deterministic = added;
    if let Some(protected) = names {
        let found = detect_overrewrites(shard, rewrites, protected.as_slice());
        let mut more = add_new_issues(&mut issues, found.as_slice());
        let ghost second = views(more@);
        deterministic.append(&mut more);
        if found.len() > 0 {
            approved = issues.len() == 0;
        }
        proof {
            assert(views(deterministic@) =~= first + second);
            assert((left + first) + second =~= left + (first + second));
        }
    }
    FinalReview { decision: ReviewDecision { approved, issues }, filtered, deterministic }
}

/// The last word on a review. For a planned rewrite, changes that go too far count too.
pub fn finalize_review_decision(
    decision: ReviewDecision,
    shard: &[Chapter],
    rewrites: &[ParsedChapterRewrite],
    settings: &NovelSettings,
    notes: &AuthorNotes,
    graph_v2: bool,
) -> (r: FinalReview)
    ensures
        ({
            let left = standing(
                decision@.issues,
                views(shard@),
                views(rewrites@),
                settings@,
                notes@,
            );
            let added = scanned(
                left,
                views(shard@),
                views(rewrites@),
                settings@,
                if graph_v2 {
                    Some(protected_names(views(shard@), settings@))
                } else {
                    None
                },
            );
            &&& r.decision@.issues == left + added
            &&& r.decision.approved == ((left + added).len() == 0)
            &&& views(r.deterministic@) == added
            &&& views(r.filtered@) == decision@.issues.filter(
                refutes(views(shard@), views(rewrites@), settings@, notes@),
            )
        }),
        r.decision.approved ==> {
            &&& residue_issues(views(shard@), views(rewrites@), settings@).len() == 0
            &&& name_logic_issues(views(shard@), views(rewrites@), settings@).len() == 0
            &&& group_issues(views(shard@), views(rewrites@)).len() == 0
            &&& graph_v2 ==> overrewrites(
                views(shard@),
                views(rewrites@),
                protected_names(views(shard@), settings@),
            ).len() == 0
            &&& forall|i: int|
                0 <= i < decision@.issues.len() ==> refuted(
                    #[trigger] decision@.issues[i],
                    views(shard@),
                    views(rewrites@),
                    settings@,
                    notes@,
                )
        },
{
    let ghost issues = decision@.issues;
    let names = if graph_v2 {
        Some(protected_unmapped_character_names(shard, settings))
    } else {
        None
    };
    let review = finalize_with_names(decision, shard, rewrites, settings, notes, names);
    proof {
        if review.decision.approved {
            law_approved_rewrite_is_clean(
                issues,
                views(shard@),
                views(rewrites@),
                settings@,
                notes@,
                if graph_v2 {
                    Some(protected_names(views(shard@), settings@))
                } else {
                    None
                },
            );
        }
    }
    review
}

// ---- a review from its text -----------------------------------------------------------------
/// What is needed to hold a review against a contract: the obligations that only preserve, and
/// the coverage as it was decoded, or else the message of the decoder.
pub struct PlanEvidence {
    pub preserving: Vec<String>,
    pub coverage: Result<Vec<ReviewCoverageItem>, String>,
}

/// A review that was read, with the last word on it.
pub struct ValidatedReview {
    pub review: FinalReview,
    pub coverage: Vec<ReviewCoverageItem>,
    pub state_updates: Vec<RewriteStateUpdate>,
}

/// The issues that the text of a review gives, or why it cannot be read.
pub open spec fn read_issues(
    output: Seq<char>,
    settings: NovelSettingsView,
    rewrites: Seq<ParsedChapterRewriteView>,
    planned: Option<(RewritePlanView, PlanEvidence)>,
) -> Result<Seq<ReviewIssueView>, Seq<char>> {
    match (jsonish(output), planned) {
        (Err(e), _) => Err(e),
        (Ok(value), None) => Ok(decided_issues(value, settings)),
        (Ok(value), Some((plan, evidence))) => match evidence.coverage {
            Err(e) => Err("coverage 字段无效："@ + e@),
            Ok(items) => review_findings(
                value,
                settings,
                plan,
                rewrites,
                views(evidence.preserving@),
                views(items@),
            ),
        },
    }
}

/// Reads a review, with or without a contract, and has the last word on it.
pub fn validate_review_model_output(
    output: &str,
    shard: &[Chapter],
    rewrites: &[ParsedChapterRewrite],
    settings: &NovelSettings,
    notes: &AuthorNotes,
    planned: Option<(&RewritePlan, PlanEvidence)>,
) -> (r: Result<ValidatedReview, String>)
    ensures
        ({
            let plan_view = match planned {
                Some((plan, evidence)) => Some((plan@, evidence)),
                None => None,
            };
            match (read_issues(output@, settings@, views(rewrites@), plan_view), r) {
                (Err(e), Err(m)) => m@ == e,
                (Ok(issues), Ok(v)) => {
                    let left = standing(
                        issues,
                        views(shard@),
                        views(rewrites@),
                        settings@,
                        notes@,
                    );
                    let added = scanned(
                        left,
                        views(shard@),
                        views(rewrites@),
                        settings@,
                        if planned is Some {
                            Some(protected_names(views(shard@), settings@))
                        } else {
                            None
                        },
                    );
                    &&& v.review.decision@.issues == left + added
                    &&& v.review.decision.approved == ((left + added).len() == 0)
                    &&& views(v.review.deterministic@) == added
                    &&& views(v.review.filtered@) == issues.filter(
                        refutes(views(shard@), views(rewrites@), settings@, notes@),
                    )
                    &&& match planned {
                        Some((plan, evidence)) => views(v.coverage@) == views(
                            evidence.coverage->Ok_0@,
                        ) && views(v.state_updates@) == canonical_states(plan@),
                        None => v.coverage@.len() == 0 && v.state_updates@.len() == 0,
                    }
                },
                _ => false,
            }
        }),
        r matches Ok(v) ==> v.review.decision.approved ==> {
            &&& residue_issues(views(shard@), views(rewrites@), settings@).len() == 0
            &&& name_logic_issues(views(shard@), views(rewrites@), settings@).len() == 0
            &&& group_issues(views(shard@), views(rewrites@)).len() == 0
            &&& planned is Some ==> overrewrites(
                views(shard@),
                views(rewrites@),
                protected_names(views(shard@), settings@),
            ).len() == 0
        },
{
    match planned {
        Some((plan, evidence)) => {
            let parsed = match parse_rewrite_review_decision_output(
                output,
                settings,
                plan,
                rewrites,
                evidence.preserving.as_slice(),
                evidence.coverage,
            ) {
                Ok(parsed) => parsed,
                Err(m) => {
                    return Err(m);
                },
            };
            let review = finalize_review_decision(
                parsed.decision,
                shard,
                rewrites,
                settings,
                notes,
                true,
            );
            Ok(
                ValidatedReview {
                    review,
                    coverage: parsed.coverage,
                    state_updates: parsed.state_updates,
                },
            )
        },
        None => {
            let decision = match parse_review_decision_output(output, settings) {
                Ok(decision) => decision,
                Err(m) => {
                    return Err(m);
                },
            };
            let review = finalize_review_decision(
                decision,
                shard,
                rewrites,
                settings,
                notes,
                false,
            );
            Ok(ValidatedReview { review, coverage: Vec::new(), state_updates: Vec::new() })
        },
    }
}

} // verus!
