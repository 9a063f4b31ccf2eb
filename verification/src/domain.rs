//! The values that the library works on, each with the mathematical value that contracts speak of.
use vstd::prelude::*;
use crate::text::{lemma_views_push, views};

verus! {

/// An optional text by its characters.
pub open spec fn opt_text(o: Option<String>) -> Option<Seq<char>> {
    match o {
        Some(s) => Some(s@),
        None => None,
    }
}

pub fn copy_option(o: &Option<String>) -> (r: Option<String>)
    ensures
        opt_text(r) == opt_text(*o),
{
    match o {
        Some(s) => Some(s.clone()),
        None => None,
    }
}

pub fn copy_indexes(v: &[i64]) -> (r: Vec<i64>)
    ensures
        r@ == v@,
{
    let mut out: Vec<i64> = Vec::new();
    let mut i: usize = 0;
    while i < v.len()
        invariant
            i <= v@.len(),
            out@ == v@.take(i as int),
        decreases v@.len() - i,
    {
        out.push(v[i]);
        i += 1;
    }
    out
}

/// Values of which an equal copy can be made.
pub trait Duplicate: View + Sized {
    fn duplicate(&self) -> (r: Self)
        ensures
            r@ == self@,
    ;
}

impl Duplicate for String {
    fn duplicate(&self) -> (r: Self) {
        self.clone()
    }
}

/// A copy of a list, element by element.
pub fn duplicate_all<T: Duplicate>(v: &[T]) -> (r: Vec<T>)
    ensures
        views(r@) == views(v@),
{
    let mut out: Vec<T> = Vec::new();
    let mut i: usize = 0;
    while i < v.len()
        invariant
            i <= v@.len(),
            views(out@) == views(v@).take(i as int),
        decreases v@.len() - i,
    {
        let ghost before = out@;
        out.push(v[i].duplicate());
        proof {
            lemma_views_push(before, out@.last());
            assert(views(out@) =~= views(v@).take(i + 1));
        }
        i += 1;
    }
    proof {
        assert(views(v@).take(i as int) =~= views(v@));
    }
    out
}

/// A chapter of a novel, with its original text and the states of its processing.
#[derive(Debug, PartialEq, Eq)]
pub struct Chapter {
    pub id: String,
    pub novel_id: String,
    pub index: i64,
    pub title: String,
    pub original_text: String,
    pub analysis_json: Option<String>,
    pub rewrite_text: Option<String>,
    pub rewrite_edited: bool,
    pub single_rewrite_original_available: bool,
    pub analysis_status: String,
    pub rewrite_status: String,
    pub rewrite_validation_status: String,
    pub rewrite_obligation_total: usize,
    pub rewrite_obligation_satisfied: usize,
}

#[verifier::ext_equal]
pub struct ChapterView {
    pub id: Seq<char>,
    pub novel_id: Seq<char>,
    pub index: i64,
    pub title: Seq<char>,
    pub original_text: Seq<char>,
    pub analysis_json: Option<Seq<char>>,
    pub rewrite_text: Option<Seq<char>>,
    pub rewrite_edited: bool,
    pub single_rewrite_original_available: bool,
    pub analysis_status: Seq<char>,
    pub rewrite_status: Seq<char>,
    pub rewrite_validation_status: Seq<char>,
    pub rewrite_obligation_total: usize,
    pub rewrite_obligation_satisfied: usize,
}

impl View for Chapter {
    type V = ChapterView;

    open spec fn view(&self) -> ChapterView {
        ChapterView {
            id: self.id@,
            novel_id: self.novel_id@,
            index: self.index,
            title: self.title@,
            original_text: self.original_text@,
            analysis_json: opt_text(self.analysis_json),
            rewrite_text: opt_text(self.rewrite_text),
            rewrite_edited: self.rewrite_edited,
            single_rewrite_original_available: self.single_rewrite_original_available,
            analysis_status: self.analysis_status@,
            rewrite_status: self.rewrite_status@,
            rewrite_validation_status: self.rewrite_validation_status@,
            rewrite_obligation_total: self.rewrite_obligation_total,
            rewrite_obligation_satisfied: self.rewrite_obligation_satisfied,
        }
    }
}

impl Duplicate for Chapter {
    fn duplicate(&self) -> (r: Self) {
        Chapter {
            id: self.id.clone(),
            novel_id: self.novel_id.clone(),
            index: self.index,
            title: self.title.clone(),
            original_text: self.original_text.clone(),
            analysis_json: copy_option(&self.analysis_json),
            rewrite_text: copy_option(&self.rewrite_text),
            rewrite_edited: self.rewrite_edited,
            single_rewrite_original_available: self.single_rewrite_original_available,
            analysis_status: self.analysis_status.clone(),
            rewrite_status: self.rewrite_status.clone(),
            rewrite_validation_status: self.rewrite_validation_status.clone(),
            rewrite_obligation_total: self.rewrite_obligation_total,
            rewrite_obligation_satisfied: self.rewrite_obligation_satisfied,
        }
    }
}

impl Clone for Chapter {
    fn clone(&self) -> (r: Self)
        ensures
            r@ == self@,
    {
        self.duplicate()
    }
}

/// What the user has set for the rewriting of one novel.
#[derive(Debug, PartialEq, Eq)]
pub struct NovelSettings {
    pub novel_id: String,
    pub protagonist_name: String,
    pub protagonist_aliases: String,
    pub rewritten_protagonist_name: String,
    pub additional_feminize_names: String,
    pub bust: String,
    pub body_type: String,
    pub rewrite_mode: String,
    pub advanced_settings: String,
    pub relationship_targets: String,
    pub updated_at: String,
}

#[verifier::ext_equal]
pub struct NovelSettingsView {
    pub novel_id: Seq<char>,
    pub protagonist_name: Seq<char>,
    pub protagonist_aliases: Seq<char>,
    pub rewritten_protagonist_name: Seq<char>,
    pub additional_feminize_names: Seq<char>,
    pub bust: Seq<char>,
    pub body_type: Seq<char>,
    pub rewrite_mode: Seq<char>,
    pub advanced_settings: Seq<char>,
    pub relationship_targets: Seq<char>,
    pub updated_at: Seq<char>,
}

impl View for NovelSettings {
    type V = NovelSettingsView;

    open spec fn view(&self) -> NovelSettingsView {
        NovelSettingsView {
            novel_id: self.novel_id@,
            protagonist_name: self.protagonist_name@,
            protagonist_aliases: self.protagonist_aliases@,
            rewritten_protagonist_name: self.rewritten_protagonist_name@,
            additional_feminize_names: self.additional_feminize_names@,
            bust: self.bust@,
            body_type: self.body_type@,
            rewrite_mode: self.rewrite_mode@,
            advanced_settings: self.advanced_settings@,
            relationship_targets: self.relationship_targets@,
            updated_at: self.updated_at@,
        }
    }
}

impl Duplicate for NovelSettings {
    fn duplicate(&self) -> (r: Self) {
        NovelSettings {
            novel_id: self.novel_id.clone(),
            protagonist_name: self.protagonist_name.clone(),
            protagonist_aliases: self.protagonist_aliases.clone(),
            rewritten_protagonist_name: self.rewritten_protagonist_name.clone(),
            additional_feminize_names: self.additional_feminize_names.clone(),
            bust: self.bust.clone(),
            body_type: self.body_type.clone(),
            rewrite_mode: self.rewrite_mode.clone(),
            advanced_settings: self.advanced_settings.clone(),
            relationship_targets: self.relationship_targets.clone(),
            updated_at: self.updated_at.clone(),
        }
    }
}

impl Clone for NovelSettings {
    fn clone(&self) -> (r: Self)
        ensures
            r@ == self@,
    {
        self.duplicate()
    }
}

/// The rewritten title and text of one chapter.
#[derive(Debug, PartialEq, Eq)]
pub struct ParsedChapterRewrite {
    pub id: String,
    pub index: i64,
    pub title: String,
    pub text: String,
}

#[verifier::ext_equal]
pub struct ParsedChapterRewriteView {
    pub id: Seq<char>,
    pub index: i64,
    pub title: Seq<char>,
    pub text: Seq<char>,
}

impl View for ParsedChapterRewrite {
    type V = ParsedChapterRewriteView;

    open spec fn view(&self) -> ParsedChapterRewriteView {
        ParsedChapterRewriteView {
            id: self.id@,
            index: self.index,
            title: self.title@,
            text: self.text@,
        }
    }
}

impl Duplicate for ParsedChapterRewrite {
    fn duplicate(&self) -> (r: Self) {
        ParsedChapterRewrite {
            id: self.id.clone(),
            index: self.index,
            title: self.title.clone(),
            text: self.text.clone(),
        }
    }
}

impl Clone for ParsedChapterRewrite {
    fn clone(&self) -> (r: Self)
        ensures
            r@ == self@,
    {
        self.duplicate()
    }
}

/// A problem that a review found, and what has to be done about it.
#[derive(Debug, PartialEq, Eq)]
pub struct ReviewIssue {
    pub chapter_indexes: Vec<i64>,
    pub scope: String,
    pub category: String,
    pub severity: String,
    pub problem: String,
    pub required_fix: String,
}

#[verifier::ext_equal]
pub struct ReviewIssueView {
    pub chapter_indexes: Seq<i64>,
    pub scope: Seq<char>,
    pub category: Seq<char>,
    pub severity: Seq<char>,
    pub problem: Seq<char>,
    pub required_fix: Seq<char>,
}

impl View for ReviewIssue {
    type V = ReviewIssueView;

    open spec fn view(&self) -> ReviewIssueView {
        ReviewIssueView {
            chapter_indexes: self.chapter_indexes@,
            scope: self.scope@,
            category: self.category@,
            severity: self.severity@,
            problem: self.problem@,
            required_fix: self.required_fix@,
        }
    }
}

impl Duplicate for ReviewIssue {
    fn duplicate(&self) -> (r: Self) {
        ReviewIssue {
            chapter_indexes: copy_indexes(self.chapter_indexes.as_slice()),
            scope: self.scope.clone(),
            category: self.category.clone(),
            severity: self.severity.clone(),
            problem: self.problem.clone(),
            required_fix: self.required_fix.clone(),
        }
    }
}

impl Clone for ReviewIssue {
    fn clone(&self) -> (r: Self)
        ensures
            r@ == self@,
    {
        self.duplicate()
    }
}

/// The outcome of a review.
#[derive(Debug, PartialEq, Eq)]
pub struct ReviewDecision {
    pub approved: bool,
    pub issues: Vec<ReviewIssue>,
}

#[verifier::ext_equal]
pub struct ReviewDecisionView {
    pub approved: bool,
    pub issues: Seq<ReviewIssueView>,
}

impl View for ReviewDecision {
    type V = ReviewDecisionView;

    open spec fn view(&self) -> ReviewDecisionView {
        ReviewDecisionView {
            approved: self.approved,
            issues: views(self.issues@),
        }
    }
}

impl Duplicate for ReviewDecision {
    fn duplicate(&self) -> (r: Self) {
        ReviewDecision {
            approved: self.approved,
            issues: duplicate_all(self.issues.as_slice()),
        }
    }
}

impl Clone for ReviewDecision {
    fn clone(&self) -> (r: Self)
        ensures
            r@ == self@,
    {
        self.duplicate()
    }
}

/// What a review says of one obligation.
#[derive(Debug, PartialEq, Eq)]
pub struct ReviewCoverageItem {
    pub obligation_id: String,
    pub status: String,
    pub chapter_indexes: Vec<i64>,
    pub evidence: String,
}

#[verifier::ext_equal]
pub struct ReviewCoverageItemView {
    pub obligation_id: Seq<char>,
    pub status: Seq<char>,
    pub chapter_indexes: Seq<i64>,
    pub evidence: Seq<char>,
}

impl View for ReviewCoverageItem {
    type V = ReviewCoverageItemView;

    open spec fn view(&self) -> ReviewCoverageItemView {
        ReviewCoverageItemView {
            obligation_id: self.obligation_id@,
            status: self.status@,
            chapter_indexes: self.chapter_indexes@,
            evidence: self.evidence@,
        }
    }
}

impl Duplicate for ReviewCoverageItem {
    fn duplicate(&self) -> (r: Self) {
        ReviewCoverageItem {
            obligation_id: self.obligation_id.clone(),
            status: self.status.clone(),
            chapter_indexes: copy_indexes(self.chapter_indexes.as_slice()),
            evidence: self.evidence.clone(),
        }
    }
}

impl Clone for ReviewCoverageItem {
    fn clone(&self) -> (r: Self)
        ensures
            r@ == self@,
    {
        self.duplicate()
    }
}

/// A state that a thread of the story has after a chapter.
#[derive(Debug, PartialEq, Eq)]
pub struct RewriteStateUpdate {
    pub thread_key: String,
    pub state_type: String,
    pub value: String,
    pub chapter_index: i64,
    pub source_obligation_ids: Vec<String>,
}

#[verifier::ext_equal]
pub struct RewriteStateUpdateView {
    pub thread_key: Seq<char>,
    pub state_type: Seq<char>,
    pub value: Seq<char>,
    pub chapter_index: i64,
    pub source_obligation_ids: Seq<Seq<char>>,
}

impl View for RewriteStateUpdate {
    type V = RewriteStateUpdateView;

    open spec fn view(&self) -> RewriteStateUpdateView {
        RewriteStateUpdateView {
            thread_key: self.thread_key@,
            state_type: self.state_type@,
            value: self.value@,
            chapter_index: self.chapter_index,
            source_obligation_ids: views(self.source_obligation_ids@),
        }
    }
}

impl Duplicate for RewriteStateUpdate {
    fn duplicate(&self) -> (r: Self) {
        RewriteStateUpdate {
            thread_key: self.thread_key.clone(),
            state_type: self.state_type.clone(),
            value: self.value.clone(),
            chapter_index: self.chapter_index,
            source_obligation_ids: duplicate_all(self.source_obligation_ids.as_slice()),
        }
    }
}

impl Clone for RewriteStateUpdate {
    fn clone(&self) -> (r: Self)
        ensures
            r@ == self@,
    {
        self.duplicate()
    }
}

/// What the rewrite of one node of the story has to do.
#[derive(Debug, PartialEq, Eq)]
pub struct RewriteObligation {
    pub obligation_id: String,
    pub node_id: String,
    pub chapter_index: i64,
    pub rule_ids: Vec<String>,
    pub preserve: Vec<String>,
    pub required_changes: Vec<String>,
    pub deep_delta_categories: Vec<String>,
    pub forbidden_regressions: Vec<String>,
    pub downstream_effects: Vec<String>,
    pub planned_state_updates: Vec<RewriteStateUpdate>,
}

#[verifier::ext_equal]
pub struct RewriteObligationView {
    pub obligation_id: Seq<char>,
    pub node_id: Seq<char>,
    pub chapter_index: i64,
    pub rule_ids: Seq<Seq<char>>,
    pub preserve: Seq<Seq<char>>,
    pub required_changes: Seq<Seq<char>>,
    pub deep_delta_categories: Seq<Seq<char>>,
    pub forbidden_regressions: Seq<Seq<char>>,
    pub downstream_effects: Seq<Seq<char>>,
    pub planned_state_updates: Seq<RewriteStateUpdateView>,
}

impl View for RewriteObligation {
    type V = RewriteObligationView;

    open spec fn view(&self) -> RewriteObligationView {
        RewriteObligationView {
            obligation_id: self.obligation_id@,
            node_id: self.node_id@,
            chapter_index: self.chapter_index,
            rule_ids: views(self.rule_ids@),
            preserve: views(self.preserve@),
            required_changes: views(self.required_changes@),
            deep_delta_categories: views(self.deep_delta_categories@),
            forbidden_regressions: views(self.forbidden_regressions@),
            downstream_effects: views(self.downstream_effects@),
            planned_state_updates: views(self.planned_state_updates@),
        }
    }
}

impl Duplicate for RewriteObligation {
    fn duplicate(&self) -> (r: Self) {
        RewriteObligation {
            obligation_id: self.obligation_id.clone(),
            node_id: self.node_id.clone(),
            chapter_index: self.chapter_index,
            rule_ids: duplicate_all(self.rule_ids.as_slice()),
            preserve: duplicate_all(self.preserve.as_slice()),
            required_changes: duplicate_all(self.required_changes.as_slice()),
            deep_delta_categories: duplicate_all(self.deep_delta_categories.as_slice()),
            forbidden_regressions: duplicate_all(self.forbidden_regressions.as_slice()),
            downstream_effects: duplicate_all(self.downstream_effects.as_slice()),
            planned_state_updates: duplicate_all(self.planned_state_updates.as_slice()),
        }
    }
}

impl Clone for RewriteObligation {
    fn clone(&self) -> (r: Self)
        ensures
            r@ == self@,
    {
        self.duplicate()
    }
}

/// A link from one node of the story to another.
#[derive(Debug, PartialEq, Eq)]
pub struct SourceImpactLink {
    pub kind: String,
    pub target: String,
}

#[verifier::ext_equal]
pub struct SourceImpactLinkView {
    pub kind: Seq<char>,
    pub target: Seq<char>,
}

impl View for SourceImpactLink {
    type V = SourceImpactLinkView;

    open spec fn view(&self) -> SourceImpactLinkView {
        SourceImpactLinkView {
            kind: self.kind@,
            target: self.target@,
        }
    }
}

impl Duplicate for SourceImpactLink {
    fn duplicate(&self) -> (r: Self) {
        SourceImpactLink {
            kind: self.kind.clone(),
            target: self.target.clone(),
        }
    }
}

impl Clone for SourceImpactLink {
    fn clone(&self) -> (r: Self)
        ensures
            r@ == self@,
    {
        self.duplicate()
    }
}

/// A node of the story that the protagonist takes part in: the threads it belongs to and the nodes it leads to.
#[derive(Debug, PartialEq, Eq)]
pub struct SourceImpactNode {
    pub node_id: String,
    pub chapter_index: i64,
    pub thread_keys: Vec<String>,
    pub links: Vec<SourceImpactLink>,
}

#[verifier::ext_equal]
pub struct SourceImpactNodeView {
    pub node_id: Seq<char>,
    pub chapter_index: i64,
    pub thread_keys: Seq<Seq<char>>,
    pub links: Seq<SourceImpactLinkView>,
}

impl View for SourceImpactNode {
    type V = SourceImpactNodeView;

    open spec fn view(&self) -> SourceImpactNodeView {
        SourceImpactNodeView {
            node_id: self.node_id@,
            chapter_index: self.chapter_index,
            thread_keys: views(self.thread_keys@),
            links: views(self.links@),
        }
    }
}

impl Duplicate for SourceImpactNode {
    fn duplicate(&self) -> (r: Self) {
        SourceImpactNode {
            node_id: self.node_id.clone(),
            chapter_index: self.chapter_index,
            thread_keys: duplicate_all(self.thread_keys.as_slice()),
            links: duplicate_all(self.links.as_slice()),
        }
    }
}

impl Clone for SourceImpactNode {
    fn clone(&self) -> (r: Self)
        ensures
            r@ == self@,
    {
        self.duplicate()
    }
}

/// The contract for the rewriting of one shard.
#[derive(Debug, PartialEq, Eq)]
pub struct RewritePlan {
    pub plan_version: String,
    pub graph_additions: Vec<SourceImpactNode>,
    pub obligations: Vec<RewriteObligation>,
    pub planned_state_updates: Vec<RewriteStateUpdate>,
    pub cross_shard_dependencies: Vec<String>,
}

#[verifier::ext_equal]
pub struct RewritePlanView {
    pub plan_version: Seq<char>,
    pub graph_additions: Seq<SourceImpactNodeView>,
    pub obligations: Seq<RewriteObligationView>,
    pub planned_state_updates: Seq<RewriteStateUpdateView>,
    pub cross_shard_dependencies: Seq<Seq<char>>,
}

impl View for RewritePlan {
    type V = RewritePlanView;

    open spec fn view(&self) -> RewritePlanView {
        RewritePlanView {
            plan_version: self.plan_version@,
            graph_additions: views(self.graph_additions@),
            obligations: views(self.obligations@),
            planned_state_updates: views(self.planned_state_updates@),
            cross_shard_dependencies: views(self.cross_shard_dependencies@),
        }
    }
}

impl Duplicate for RewritePlan {
    fn duplicate(&self) -> (r: Self) {
        RewritePlan {
            plan_version: self.plan_version.clone(),
            graph_additions: duplicate_all(self.graph_additions.as_slice()),
            obligations: duplicate_all(self.obligations.as_slice()),
            planned_state_updates: duplicate_all(self.planned_state_updates.as_slice()),
            cross_shard_dependencies: duplicate_all(self.cross_shard_dependencies.as_slice()),
        }
    }
}

impl Clone for RewritePlan {
    fn clone(&self) -> (r: Self)
        ensures
            r@ == self@,
    {
        self.duplicate()
    }
}

/// A review of a planned rewrite, with the coverage of its obligations.
#[derive(Debug, PartialEq, Eq)]
pub struct RewriteReviewDecision {
    pub decision: ReviewDecision,
    pub coverage: Vec<ReviewCoverageItem>,
    pub state_updates: Vec<RewriteStateUpdate>,
}

#[verifier::ext_equal]
pub struct RewriteReviewDecisionView {
    pub decision: ReviewDecisionView,
    pub coverage: Seq<ReviewCoverageItemView>,
    pub state_updates: Seq<RewriteStateUpdateView>,
}

impl View for RewriteReviewDecision {
    type V = RewriteReviewDecisionView;

    open spec fn view(&self) -> RewriteReviewDecisionView {
        RewriteReviewDecisionView {
            decision: self.decision@,
            coverage: views(self.coverage@),
            state_updates: views(self.state_updates@),
        }
    }
}

impl Duplicate for RewriteReviewDecision {
    fn duplicate(&self) -> (r: Self) {
        RewriteReviewDecision {
            decision: self.decision.duplicate(),
            coverage: duplicate_all(self.coverage.as_slice()),
            state_updates: duplicate_all(self.state_updates.as_slice()),
        }
    }
}

impl Clone for RewriteReviewDecision {
    fn clone(&self) -> (r: Self)
        ensures
            r@ == self@,
    {
        self.duplicate()
    }
}

/// A name of the original and the name that takes its place.
#[derive(Debug, PartialEq, Eq)]
pub struct NameMappingEntry {
    pub source: String,
    pub target: String,
}

#[verifier::ext_equal]
pub struct NameMappingEntryView {
    pub source: Seq<char>,
    pub target: Seq<char>,
}

impl View for NameMappingEntry {
    type V = NameMappingEntryView;

    open spec fn view(&self) -> NameMappingEntryView {
        NameMappingEntryView {
            source: self.source@,
            target: self.target@,
        }
    }
}

impl Duplicate for NameMappingEntry {
    fn duplicate(&self) -> (r: Self) {
        NameMappingEntry {
            source: self.source.clone(),
            target: self.target.clone(),
        }
    }
}

impl Clone for NameMappingEntry {
    fn clone(&self) -> (r: Self)
        ensures
            r@ == self@,
    {
        self.duplicate()
    }
}

/// What an interrupted run has already produced for a chapter.
#[derive(Debug, PartialEq, Eq)]
pub struct StagedChapterOutput {
    pub title: Option<String>,
    pub content: Option<String>,
}

#[verifier::ext_equal]
pub struct StagedChapterOutputView {
    pub title: Option<Seq<char>>,
    pub content: Option<Seq<char>>,
}

impl View for StagedChapterOutput {
    type V = StagedChapterOutputView;

    open spec fn view(&self) -> StagedChapterOutputView {
        StagedChapterOutputView {
            title: opt_text(self.title),
            content: opt_text(self.content),
        }
    }
}

impl Duplicate for StagedChapterOutput {
    fn duplicate(&self) -> (r: Self) {
        StagedChapterOutput {
            title: copy_option(&self.title),
            content: copy_option(&self.content),
        }
    }
}

impl Clone for StagedChapterOutput {
    fn clone(&self) -> (r: Self)
        ensures
            r@ == self@,
    {
        self.duplicate()
    }
}

/// How a model is called. The sampling numbers are kept as the bits of their floating-point form.
#[derive(Debug, PartialEq, Eq)]
pub struct ModelProfile {
    pub id: String,
    pub name: String,
    pub provider: String,
    pub base_url: String,
    pub model: String,
    pub temperature_bits: u64,
    pub top_p_bits: u64,
    pub thinking_mode: String,
    pub prompt_obfuscation_enabled: bool,
    pub has_api_key: bool,
    pub api_key_storage: String,
    pub updated_at: String,
}

#[verifier::ext_equal]
pub struct ModelProfileView {
    pub id: Seq<char>,
    pub name: Seq<char>,
    pub provider: Seq<char>,
    pub base_url: Seq<char>,
    pub model: Seq<char>,
    pub temperature_bits: u64,
    pub top_p_bits: u64,
    pub thinking_mode: Seq<char>,
    pub prompt_obfuscation_enabled: bool,
    pub has_api_key: bool,
    pub api_key_storage: Seq<char>,
    pub updated_at: Seq<char>,
}

impl View for ModelProfile {
    type V = ModelProfileView;

    open spec fn view(&self) -> ModelProfileView {
        ModelProfileView {
            id: self.id@,
            name: self.name@,
            provider: self.provider@,
            base_url: self.base_url@,
            model: self.model@,
            temperature_bits: self.temperature_bits,
            top_p_bits: self.top_p_bits,
            thinking_mode: self.thinking_mode@,
            prompt_obfuscation_enabled: self.prompt_obfuscation_enabled,
            has_api_key: self.has_api_key,
            api_key_storage: self.api_key_storage@,
            updated_at: self.updated_at@,
        }
    }
}

impl Duplicate for ModelProfile {
    fn duplicate(&self) -> (r: Self) {
        ModelProfile {
            id: self.id.clone(),
            name: self.name.clone(),
            provider: self.provider.clone(),
            base_url: self.base_url.clone(),
            model: self.model.clone(),
            temperature_bits: self.temperature_bits,
            top_p_bits: self.top_p_bits,
            thinking_mode: self.thinking_mode.clone(),
            prompt_obfuscation_enabled: self.prompt_obfuscation_enabled,
            has_api_key: self.has_api_key,
            api_key_storage: self.api_key_storage.clone(),
            updated_at: self.updated_at.clone(),
        }
    }
}

impl Clone for ModelProfile {
    fn clone(&self) -> (r: Self)
        ensures
            r@ == self@,
    {
        self.duplicate()
    }
}

} // verus!
