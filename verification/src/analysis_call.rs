//! How the analysis of a shard is asked for until it can be read: by a repair of its form, and by
//! ever smaller shards where the answers are cut off.
use vstd::prelude::*;
use crate::domain::{duplicate_all, Chapter, ChapterView, Duplicate};
use crate::excerpt::{head, truncate_text};
use crate::shard_context::{first_half, split_chapters_for_rewrite_recovery};
use crate::text::{holds, text_has, trim, trimmed, views};

verus! {

/// The analysis of one chapter.
#[derive(Debug, PartialEq, Eq)]
pub struct ParsedChapterAnalysis {
    pub id: String,
    pub json: String,
}

#[verifier::ext_equal]
pub struct ParsedChapterAnalysisView {
    pub id: Seq<char>,
    pub json: Seq<char>,
}

impl View for ParsedChapterAnalysis {
    type V = ParsedChapterAnalysisView;

    open spec fn view(&self) -> ParsedChapterAnalysisView {
        ParsedChapterAnalysisView { id: self.id@, json: self.json@ }
    }
}

impl Duplicate for ParsedChapterAnalysis {
    fn duplicate(&self) -> (r: Self) {
        ParsedChapterAnalysis { id: self.id.clone(), json: self.json.clone() }
    }
}

/// An outcome by the views of its analyses or its message.
pub open spec fn analyses_outcome(r: Result<Vec<ParsedChapterAnalysis>, String>) -> Result<
    Seq<ParsedChapterAnalysisView>,
    Seq<char>,
> {
    match r {
        Ok(v) => Ok(views(v@)),
        Err(m) => Err(m@),
    }
}

/// The first fault in a list of outcomes.
pub open spec fn first_fault(faults: Seq<Option<Seq<char>>>) -> Option<Seq<char>>
    decreases faults.len(),
{
    if faults.len() == 0 {
        None
    } else {
        match first_fault(faults.drop_last()) {
            Some(e) => Some(e),
            None => faults.last(),
        }
    }
}

pub open spec fn faults_of(faults: Seq<Option<String>>) -> Seq<Option<Seq<char>>> {
    Seq::new(faults.len(), |i: int| crate::domain::opt_text(faults[i]))
}

/// The analyses that were read out of an answer. An answer that was cut off is not read, and the
/// nodes in each analysis have to be valid: `node_faults` says of each what is wrong with them.
pub fn parse_analysis_model_output(
    truncation: Option<String>,
    parsed: Result<Vec<ParsedChapterAnalysis>, String>,
    node_faults: Vec<Option<String>>,
) -> (r: Result<Vec<ParsedChapterAnalysis>, String>)
    ensures
        analyses_outcome(r) == match (truncation, parsed, first_fault(faults_of(node_faults@))) {
            (Some(e), _, _) => Err(e@),
            (None, Err(e), _) => Err(e@),
            (None, Ok(_), Some(e)) => Err(e),
            (None, Ok(list), None) => Ok(views(list@)),
        },
{
    if let Some(e) = truncation {
        return Err(e);
    }
    let list = match parsed {
        Ok(list) => list,
        Err(e) => {
            return Err(e);
        },
    };
    let ghost all = faults_of(node_faults@);
    let mut i: usize = 0;
    while i < node_faults.len()
        invariant
            i <= node_faults@.len(),
            all == faults_of(node_faults@),
            first_fault(all.take(i as int)) is None,
            truncation is None,
            parsed is Ok,
        decreases node_faults@.len() - i,
    {
        proof {
            assert(all.take(i + 1).drop_last() =~= all.take(i as int));
            assert(all.take(i + 1).last() == crate::domain::opt_text(node_faults@[i as int]));
        }
        if let Some(e) = &node_faults[i] {
            proof {
                lemma_first_fault_prefix(all, i + 1);
            }
            return Err(e.clone());
        }
        i += 1;
    }
    proof {
        assert(all.take(i as int) =~= all);
    }
    Ok(list)
}

proof fn lemma_first_fault_prefix(faults: Seq<Option<Seq<char>>>, n: int)
    requires
        0 <= n <= faults.len(),
        first_fault(faults.take(n)) is Some,
    ensures
        first_fault(faults) == first_fault(faults.take(n)),
    decreases faults.len() - n,
{
    if n < faults.len() {
        assert(faults.take(n + 1).drop_last() =~= faults.take(n));
        lemma_first_fault_prefix(faults, n + 1);
    } else {
        assert(faults.take(n) =~= faults);
    }
}

// ---- asking again ---------------------------------------------------------------------------
/// Whether an error says that an answer was cut off.
pub open spec fn says_cut_off(error: Seq<char>) -> bool {
    holds(error, "模型输出因达到长度上限被截断"@)
}

/// What is advised where analyses cannot be read.
pub const ANALYSIS_ADVICE: &'static str = "。任务可以暂停后手动继续，已完成分片会保留，仅重新尝试未完成分片；如果频繁出现，请更换 JSON 输出更稳定的模型、提高并发以缩小单个分片，或缩小处理范围。";

/// A part of a shard that is still to be analysed.
pub struct AnalysisPart {
    /// What its label begins with; the chapters are named behind it where it is a half.
    pub stem: String,
    pub context: String,
    pub chapters: Vec<Chapter>,
}

#[verifier::ext_equal]
pub struct AnalysisPartView {
    pub stem: Seq<char>,
    pub context: Seq<char>,
    pub chapters: Seq<ChapterView>,
}

impl View for AnalysisPart {
    type V = AnalysisPartView;

    open spec fn view(&self) -> AnalysisPartView {
        AnalysisPartView {
            stem: self.stem@,
            context: self.context@,
            chapters: views(self.chapters@),
        }
    }
}

/// What came of a call: no answer, an answer that cannot be read, with the label of the part, or
/// the analyses.
pub enum AnalysisReply {
    Failed(String),
    Unreadable { error: String, label: String },
    Parsed(Vec<ParsedChapterAnalysis>),
}

/// The analysis of a shard: the parts that are still to be done, in order, whether a repair is
/// awaited for the first of them, and the analyses so far.
pub struct AnalysisRun {
    pub pending: Vec<AnalysisPart>,
    pub repairing: bool,
    pub merged: Vec<ParsedChapterAnalysis>,
}

#[verifier::ext_equal]
pub struct AnalysisRunView {
    pub pending: Seq<AnalysisPartView>,
    pub repairing: bool,
    pub merged: Seq<ParsedChapterAnalysisView>,
}

impl View for AnalysisRun {
    type V = AnalysisRunView;

    open spec fn view(&self) -> AnalysisRunView {
        AnalysisRunView {
            pending: views(self.pending@),
            repairing: self.repairing,
            merged: views(self.merged@),
        }
    }
}

/// What is said of a single chapter whose analysis is cut off.
pub open spec fn cut_off_chapter(label: Seq<char>) -> Seq<char> {
    "分析输出在 64K 上限下仍被截断，且当前已是单章分片（"@ + label + "）。请缩短该章原文、关闭思考或更换输出上限更高的模型。"@
}

/// The context of a half.
pub open spec fn half_context(context: Seq<char>) -> Seq<char> {
    trim(context) + "\n\n长度恢复说明：原分片在保留思考并提高到 64K 输出上限后仍被截断；当前只分析上述范围中的这个连续子分片。"@
}

/// The halves of a part.
pub open spec fn part_halves(part: AnalysisPartView, label: Seq<char>) -> Seq<AnalysisPartView> {
    let mid = first_half(part.chapters.len() as int);
    seq![
        AnalysisPartView {
            stem: label + " · 长度恢复 1/2 · "@,
            context: half_context(part.context),
            chapters: part.chapters.take(mid),
        },
        AnalysisPartView {
            stem: label + " · 长度恢复 2/2 · "@,
            context: half_context(part.context),
            chapters: part.chapters.skip(mid),
        },
    ]
}

/// What follows from the outcome of a call for the first part that is to be done: the run goes on,
/// or fails. An answer that was cut off divides the part; another one that cannot be read is
/// repaired once.
pub open spec fn analysis_next(run: AnalysisRunView, reply: AnalysisReply) -> Result<
    AnalysisRunView,
    Seq<char>,
> {
    let part = run.pending[0];
    match reply {
        AnalysisReply::Parsed(list) => Ok(
            AnalysisRunView {
                pending: run.pending.skip(1),
                repairing: false,
                merged: run.merged + views(list@),
            },
        ),
        AnalysisReply::Failed(e) => if run.repairing {
            Err("分析输出格式修复重试调用失败："@ + e@ + ANALYSIS_ADVICE@)
        } else {
            Err(e@)
        },
        AnalysisReply::Unreadable { error, label } => if says_cut_off(error@) {
            if part.chapters.len() <= 1 {
                Err(cut_off_chapter(label@))
            } else {
                Ok(
                    AnalysisRunView {
                        pending: part_halves(part, label@) + run.pending.skip(1),
                        repairing: false,
                        merged: run.merged,
                    },
                )
            }
        } else if run.repairing {
            Err("分析输出格式多次修复后仍无法解析："@ + error@ + ANALYSIS_ADVICE@)
        } else {
            Ok(AnalysisRunView { repairing: true, ..run })
        },
    }
}

impl AnalysisRun {
    /// The analysis of a shard begins.
    pub fn start(shard: &[Chapter], context: &str, shard_label: &str) -> (r: AnalysisRun)
        ensures
            r@ == (AnalysisRunView {
                pending: seq![
                    AnalysisPartView {
                        stem: shard_label@,
                        context: context@,
                        chapters: views(shard@),
                    },
                ],
                repairing: false,
                merged: Seq::empty(),
            }),
    {
        let part = AnalysisPart {
            stem: shard_label.to_string(),
            context: context.to_string(),
            chapters: duplicate_all(shard),
        };
        let pending: Vec<AnalysisPart> = vec![part];
        let r = AnalysisRun { pending, repairing: false, merged: Vec::new() };
        proof {
            assert(r@.pending =~= seq![
                AnalysisPartView { stem: shard_label@, context: context@, chapters: views(shard@) },
            ]);
            assert(r@.merged =~= Seq::<ParsedChapterAnalysisView>::empty());
        }
        r
    }

    /// Whether everything is analysed.
    pub fn is_done(&self) -> (r: bool)
        ensures
            r == (self@.pending.len() == 0),
    {
        self.pending.len() == 0
    }

    /// Takes the outcome of a call for the first part. Where the run fails, it stays as it was.
    pub fn step(&mut self, reply: AnalysisReply) -> (r: Result<(), String>)
        requires
            old(self)@.pending.len() > 0,
        ensures
            match (analysis_next(old(self)@, reply), r) {
                (Ok(next), Ok(_)) => final(self)@ == next,
                (Err(e), Err(m)) => m@ == e && final(self)@ == old(self)@,
                _ => false,
            },
    {
        let ghost before = self@;
        let ghost parts = self.pending@;
        match reply {
            AnalysisReply::Parsed(list) => {
                let ghost done = self.merged@;
                let ghost added = list@;
                let mut list = list;
                self.pending.remove(0);
                self.repairing = false;
                self.merged.append(&mut list);
                proof {
                    assert(views(self.pending@) =~= views(parts).skip(1));
                    assert(views(self.merged@) =~= views(done) + views(added));
                }
                Ok(())
            },
            AnalysisReply::Failed(e) => {
                if self.repairing {
                    let mut m = "分析输出格式修复重试调用失败：".to_string();
                    m.append(e.as_str());
                    m.append(ANALYSIS_ADVICE);
                    return Err(m);
                }
                Err(e)
            },
            AnalysisReply::Unreadable { error, label } => {
                if text_has(error.as_str(), "模型输出因达到长度上限被截断") {
                    match split_chapters_for_rewrite_recovery(self.pending[0].chapters.as_slice()) {
                        None => {
                            let mut m = "分析输出在 64K 上限下仍被截断，且当前已是单章分片（".to_string();
                            m.append(label.as_str());
                            m.append("）。请缩短该章原文、关闭思考或更换输出上限更高的模型。");
                            Err(m)
                        },
                        Some((left, right)) => {
                            let mut context = trimmed(self.pending[0].context.as_str());
                            context.append(
                                "\n\n长度恢复说明：原分片在保留思考并提高到 64K 输出上限后仍被截断；当前只分析上述范围中的这个连续子分片。",
                            );
                            let mut first = label.clone();
                            first.append(" · 长度恢复 1/2 · ");
                            let mut second = label;
                            second.append(" · 长度恢复 2/2 · ");
                            let a = AnalysisPart {
                                stem: first,
                                context: context.clone(),
                                chapters: left,
                            };
                            let b = AnalysisPart { stem: second, context, chapters: right };
                            self.pending.remove(0);
                            self.pending.insert(0, b);
                            self.pending.insert(0, a);
                            self.repairing = false;
                            proof {
                                let goal = part_halves(parts[0]@, reply->label@);
                                assert(a@ =~= goal[0]);
                                assert(b@ =~= goal[1]);
                                assert(views(self.pending@) =~= goal + views(parts).skip(1));
                            }
                            Ok(())
                        },
                    }
                } else if self.repairing {
                    let mut m = "分析输出格式多次修复后仍无法解析：".to_string();
                    m.append(error.as_str());
                    m.append(ANALYSIS_ADVICE);
                    Err(m)
                } else {
                    self.repairing = true;
                    Ok(())
                }
            },
        }
    }
}

/// The context of a repair.
pub fn analysis_repair_context(context: &str) -> (r: String)
    ensures
        r@ == trim(
            trim(context@)
                + "\n\n只输出当前输入级一致性资产 JSON 对象；不要输出 Markdown、解释、空内容或 chapters 数组；JSON 字符串内换行必须写成 \\n。"@,
        ),
{
    let mut out = trimmed(context);
    out.append(
        "\n\n只输出当前输入级一致性资产 JSON 对象；不要输出 Markdown、解释、空内容或 chapters 数组；JSON 字符串内换行必须写成 \\n。",
    );
    trimmed(out.as_str())
}

/// What a repair of an analysis has to look to.
pub const ANALYSIS_REPAIR_RULES: &'static str = "\n\n必须针对以上原因修复。若是 source_evidence 问题，请从对应章节原文的同一处连续复制一个短片段，保留原文标点，不要拼接相邻句或自行增加引号。\n\n上一次无法解析的输出如下，仅供修复，不要原样照抄：\n";

/// The prompt of a repair: the prompt for the part, with the fault and the answer that has it.
pub fn analysis_repair_prompt(base_prompt: &str, error: &str, bad_output: &str) -> (r: String)
    ensures
        r@ == base_prompt@ + "\n\n上一次输出的具体校验失败原因：\n"@ + error@ + ANALYSIS_REPAIR_RULES@ + head(
            bad_output@,
            12_000,
        ),
{
    let shown = truncate_text(bad_output, 12_000);
    let mut out = base_prompt.to_string();
    out.append("\n\n上一次输出的具体校验失败原因：\n");
    out.append(error);
    out.append(ANALYSIS_REPAIR_RULES);
    out.append(shown.as_str());
    out
}

// ---- laws -----------------------------------------------------------------------------------
/// How much a run has left to do at the most: a part of `n` chapters takes no more than `n`
/// answers that are read and `n - 1` divisions, and each of these at most one repair.
pub open spec fn work_left(pending: Seq<AnalysisPartView>, repairing: bool) -> int
    decreases pending.len(),
{
    if pending.len() == 0 {
        0
    } else {
        work_left(pending.drop_last(), repairing) + part_work(pending.last()) - (if pending.len()
            == 1 && repairing {
            1int
        } else {
            0
        })
    }
}

/// The calls that a part takes at the most.
pub open spec fn part_work(part: AnalysisPartView) -> int {
    if part.chapters.len() == 0 {
        2
    } else {
        4 * part.chapters.len() - 2
    }
}

proof fn lemma_work_of_two(a: Seq<AnalysisPartView>, b: Seq<AnalysisPartView>, repairing: bool)
    requires
        a.len() > 0,
    ensures
        work_left(a + b, repairing) == work_left(a, repairing) + work_left(b, false),
    decreases b.len(),
{
    if b.len() == 0 {
        assert(a + b =~= a);
    } else {
        lemma_work_of_two(a, b.drop_last(), repairing);
        assert((a + b).drop_last() =~= a + b.drop_last());
    }
}

proof fn lemma_work_is_not_negative(pending: Seq<AnalysisPartView>, repairing: bool)
    ensures
        work_left(pending, repairing) >= 0,
        pending.len() > 0 ==> work_left(pending, repairing) >= 1,
    decreases pending.len(),
{
    if pending.len() > 0 {
        lemma_work_is_not_negative(pending.drop_last(), repairing);
    }
}

/// Every call brings the analysis of a shard nearer to its end: it ends after finitely many calls.
pub proof fn law_analysis_ends(run: AnalysisRunView, reply: AnalysisReply)
    requires
        run.pending.len() > 0,
        analysis_next(run, reply) is Ok,
    ensures
        0 <= work_left(
            analysis_next(run, reply)->Ok_0.pending,
            analysis_next(run, reply)->Ok_0.repairing,
        ) < work_left(run.pending, run.repairing),
{
    let next = analysis_next(run, reply)->Ok_0;
    lemma_work_is_not_negative(next.pending, next.repairing);
    let one = run.pending.take(1);
    let rest = run.pending.skip(1);
    assert(one + rest =~= run.pending);
    lemma_work_of_two(one, rest, run.repairing);
    reveal_with_fuel(work_left, 3);
    assert(one.drop_last() =~= Seq::<AnalysisPartView>::empty());
    match reply {
        AnalysisReply::Parsed(list) => {},
        AnalysisReply::Failed(e) => {},
        AnalysisReply::Unreadable { error, label } => {
            if says_cut_off(error@) {
                let parts = part_halves(run.pending[0], label@);
                lemma_work_of_two(parts, rest, false);
                assert(parts.drop_last() =~= seq![parts[0]]);
                assert(seq![parts[0]].drop_last() =~= Seq::<AnalysisPartView>::empty());
            } else {
                lemma_work_of_two(one, rest, true);
            }
        },
    }
}

} // verus!
