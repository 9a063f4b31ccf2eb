//! How the rewriting or the revision of a shard is asked for until an answer can be read: by a
//! repair of its form, by a second call, and by ever smaller shards.
use vstd::prelude::*;
use crate::domain::{
    Chapter, ChapterView, Duplicate, ParsedChapterRewrite, ParsedChapterRewriteView,
};
use crate::excerpt::{head, truncate_text};
use crate::order::{lemma_insert_by_at, sort_by};
use crate::review_rounds::rewrites_outcome;
use crate::shard_context::{
    first_half, split_chapters_for_rewrite_recovery, split_revision_for_recovery,
};
use crate::text::{decimal, trim, trimmed, usize_text, views};

verus! {

/// Whether chapters are rewritten, or revised after a review.
#[derive(Debug, Clone, Copy, PartialEq, Eq)]
pub enum WorkKind {
    Rewrite,
    Revision,
}

// ---- one shard ------------------------------------------------------------------------------
/// Which call is made for a shard.
#[derive(Debug, Clone, Copy, PartialEq, Eq)]
pub enum CallStage {
    First,
    FormatRepair,
    Retry,
}

/// What came of a call: no answer, an answer that cannot be read, or the rewritten chapters.
pub enum CallReply {
    Failed(String),
    Unreadable { error: String, output: String },
    Parsed(Vec<ParsedChapterRewrite>),
}

/// What follows.
pub enum CallNext {
    /// The shard is done, or has failed.
    Finished(Result<Vec<ParsedChapterRewrite>, String>),
    /// The same answer is asked for again in the right form.
    FormatRepair { prompt: String },
    /// The shard is asked for again, with this context and without the faults of the answer.
    Retry { context: String, output: String },
    /// The shard is divided.
    Subdivide { error: String },
}

pub enum CallNextView {
    Finished(Result<Seq<ParsedChapterRewriteView>, Seq<char>>),
    FormatRepair { prompt: Seq<char> },
    Retry { context: Seq<char>, output: Seq<char> },
    Subdivide { error: Seq<char> },
}

impl View for CallNext {
    type V = CallNextView;

    open spec fn view(&self) -> CallNextView {
        match self {
            CallNext::Finished(r) => CallNextView::Finished(rewrites_outcome(*r)),
            CallNext::FormatRepair { prompt } => CallNextView::FormatRepair { prompt: prompt@ },
            CallNext::Retry { context, output } => CallNextView::Retry {
                context: context@,
                output: output@,
            },
            CallNext::Subdivide { error } => CallNextView::Subdivide { error: error@ },
        }
    }
}

/// The prompt that asks for the right form.
pub open spec fn format_repair_prompt(
    kind: WorkKind,
    error: Seq<char>,
    prompt: Seq<char>,
) -> Seq<char> {
    match kind {
        WorkKind::Rewrite => "上次输出格式校验失败："@ + error + "\n请按原要求重新输出完整分片。不要减少或改变契约义务。\n\n"@
            + prompt,
        WorkKind::Revision => "上次修复输出的短自检包装或 marker 格式无效："@ + error
            + "\n请按原修复要求重新输出；必须且只能包含唯一 <rewrite_check> 和唯一 <output>。\n\n"@ + prompt,
    }
}

/// The context of a second call.
pub open spec fn retry_context(kind: WorkKind, shard_context: Seq<char>) -> Seq<char> {
    trim(
        trim(shard_context) + match kind {
            WorkKind::Rewrite =>
                "\n\n请完全重新输出当前分片，只输出当前分片要求的章节。每章必须包含原样章节开始标记、改写后标题、非空正文和原样章节结束标记。正文不能留空，不能输出当前分片外章节。"@,
            WorkKind::Revision => "\n\n必须重新输出当前分片的全部章节，并完整保留每章开始和结束标记。"@,
        },
    )
}

/// What is said where a second call gave no answer.
pub open spec fn retry_failed(kind: WorkKind, error: Seq<char>) -> Seq<char> {
    match kind {
        WorkKind::Rewrite => "解析失败后自动重试也失败："@ + error,
        WorkKind::Revision => "审查打回重写解析失败后自动重试也失败："@ + error,
    }
}

/// What is said where the answer to a second call cannot be read either.
pub open spec fn retry_unreadable(kind: WorkKind, error: Seq<char>) -> Seq<char> {
    match kind {
        WorkKind::Rewrite => "解析失败后已自动重试，但重试输出仍无法解析："@ + error,
        WorkKind::Revision => "审查打回重写解析失败后已自动重试，但重试输出仍无法解析："@ + error,
    }
}

/// What follows from the outcome of a call. Where the form is fixed, by a contract or by the short
/// check, an answer that cannot be read is repaired once; else the shard is asked for a second
/// time and then divided.
pub open spec fn call_next(
    kind: WorkKind,
    fixed_form: bool,
    stage: CallStage,
    reply: CallReply,
    prompt: Seq<char>,
    shard_context: Seq<char>,
) -> CallNextView {
    match (stage, reply) {
        (_, CallReply::Parsed(v)) => CallNextView::Finished(Ok(views(v@))),
        (CallStage::First, CallReply::Failed(e)) => CallNextView::Finished(
            Err(
                match kind {
                    WorkKind::Rewrite => e@,
                    WorkKind::Revision => "审查打回后重写失败："@ + e@,
                },
            ),
        ),
        (CallStage::First, CallReply::Unreadable { error, output }) => if fixed_form {
            CallNextView::FormatRepair { prompt: format_repair_prompt(kind, error@, prompt) }
        } else {
            CallNextView::Retry { context: retry_context(kind, shard_context), output: output@ }
        },
        (CallStage::FormatRepair, CallReply::Failed(e)) => CallNextView::Finished(Err(e@)),
        (CallStage::FormatRepair, CallReply::Unreadable { error, output }) =>
            CallNextView::Finished(Err(error@)),
        (CallStage::Retry, CallReply::Failed(e)) => CallNextView::Subdivide {
            error: retry_failed(kind, e@),
        },
        (CallStage::Retry, CallReply::Unreadable { error, output }) => CallNextView::Subdivide {
            error: retry_unreadable(kind, error@),
        },
    }
}

fn format_repair_prompt_of(kind: WorkKind, error: &str, prompt: &str) -> (r: String)
    ensures
        r@ == format_repair_prompt(kind, error@, prompt@),
{
    match kind {
        WorkKind::Rewrite => {
            let mut out = "上次输出格式校验失败：".to_string();
            out.append(error);
            out.append("\n请按原要求重新输出完整分片。不要减少或改变契约义务。\n\n");
            out.append(prompt);
            out
        },
        WorkKind::Revision => {
            let mut out = "上次修复输出的短自检包装或 marker 格式无效：".to_string();
            out.append(error);
            out.append("\n请按原修复要求重新输出；必须且只能包含唯一 <rewrite_check> 和唯一 <output>。\n\n");
            out.append(prompt);
            out
        },
    }
}

fn retry_context_of(kind: WorkKind, shard_context: &str) -> (r: String)
    ensures
        r@ == retry_context(kind, shard_context@),
{
    let mut out = trimmed(shard_context);
    match kind {
        WorkKind::Rewrite => {
            out.append(
                "\n\n请完全重新输出当前分片，只输出当前分片要求的章节。每章必须包含原样章节开始标记、改写后标题、非空正文和原样章节结束标记。正文不能留空，不能输出当前分片外章节。",
            );
        },
        WorkKind::Revision => {
            out.append("\n\n必须重新输出当前分片的全部章节，并完整保留每章开始和结束标记。");
        },
    }
    trimmed(out.as_str())
}

fn retry_failed_message(kind: WorkKind, error: &str) -> (r: String)
    ensures
        r@ == retry_failed(kind, error@),
{
    let mut out = match kind {
        WorkKind::Rewrite => "解析失败后自动重试也失败：".to_string(),
        WorkKind::Revision => "审查打回重写解析失败后自动重试也失败：".to_string(),
    };
    out.append(error);
    out
}

fn retry_unreadable_message(kind: WorkKind, error: &str) -> (r: String)
    ensures
        r@ == retry_unreadable(kind, error@),
{
    let mut out = match kind {
        WorkKind::Rewrite => "解析失败后已自动重试，但重试输出仍无法解析：".to_string(),
        WorkKind::Revision => "审查打回重写解析失败后已自动重试，但重试输出仍无法解析：".to_string(),
    };
    out.append(error);
    out
}

pub fn shard_call_step(
    kind: WorkKind,
    fixed_form: bool,
    stage: CallStage,
    reply: CallReply,
    prompt: &str,
    shard_context: &str,
) -> (r: CallNext)
    ensures
        r@ == call_next(kind, fixed_form, stage, reply, prompt@, shard_context@),
{
    match (stage, reply) {
        (_, CallReply::Parsed(v)) => CallNext::Finished(Ok(v)),
        (CallStage::First, CallReply::Failed(e)) => match kind {
            WorkKind::Rewrite => CallNext::Finished(Err(e)),
            WorkKind::Revision => {
                let mut m = "审查打回后重写失败：".to_string();
                m.append(e.as_str());
                CallNext::Finished(Err(m))
            },
        },
        (CallStage::First, CallReply::Unreadable { error, output }) => if fixed_form {
            CallNext::FormatRepair { prompt: format_repair_prompt_of(kind, error.as_str(), prompt) }
        } else {
            CallNext::Retry { context: retry_context_of(kind, shard_context), output }
        },
        (CallStage::FormatRepair, CallReply::Failed(e)) => CallNext::Finished(Err(e)),
        (CallStage::FormatRepair, CallReply::Unreadable { error, output }) => CallNext::Finished(
            Err(error),
        ),
        (CallStage::Retry, CallReply::Failed(e)) => CallNext::Subdivide {
            error: retry_failed_message(kind, e.as_str()),
        },
        (CallStage::Retry, CallReply::Unreadable { error, output }) => CallNext::Subdivide {
            error: retry_unreadable_message(kind, error.as_str()),
        },
    }
}

/// The prompt of a second call: the prompt for the shard with the answer that could not be read.
pub fn retry_prompt(kind: WorkKind, base_prompt: &str, bad_output: &str) -> (r: String)
    ensures
        r@ == base_prompt@ + (match kind {
            WorkKind::Rewrite => "\n\n上一次无法解析的输出如下，仅供你避开格式错误，不要照抄空正文或错误边界：\n"@,
            WorkKind::Revision => "\n\n上一次无法解析的审查打回重写输出如下，仅用于识别格式错误，不要照抄残缺正文或错误边界：\n"@,
        }) + head(bad_output@, 12_000),
{
    let shown = truncate_text(bad_output, 12_000);
    let mut out = base_prompt.to_string();
    match kind {
        WorkKind::Rewrite => {
            out.append("\n\n上一次无法解析的输出如下，仅供你避开格式错误，不要照抄空正文或错误边界：\n");
        },
        WorkKind::Revision => {
            out.append("\n\n上一次无法解析的审查打回重写输出如下，仅用于识别格式错误，不要照抄残缺正文或错误边界：\n");
        },
    }
    out.append(shown.as_str());
    out
}

/// Whether a rewriting follows a contract and carries the short check. With the strategy that
/// follows contracts there has to be one.
pub fn rewrite_form(graph_strategy: bool, has_plan: bool, tagged_mode: bool) -> (r: Result<
    bool,
    String,
>)
    ensures
        if graph_strategy && !has_plan {
            r matches Err(m) && m@ == "主角主动重构缺少分片改写契约。"@
        } else {
            r == Ok::<bool, String>(graph_strategy && tagged_mode)
        },
{
    if graph_strategy && !has_plan {
        return Err("主角主动重构缺少分片改写契约。".to_string());
    }
    Ok(graph_strategy && tagged_mode)
}

/// The chapters that were read out of an answer; an answer that was cut off is not read.
pub fn parse_rewrite_model_output(
    truncation: Option<String>,
    parsed: Result<Vec<ParsedChapterRewrite>, String>,
) -> (r: Result<Vec<ParsedChapterRewrite>, String>)
    ensures
        rewrites_outcome(r) == match truncation {
            Some(e) => Err(e@),
            None => rewrites_outcome(parsed),
        },
{
    match truncation {
        Some(e) => Err(e),
        None => parsed,
    }
}

/// The same for an answer in an envelope, which has to be opened first.
pub fn parse_rewrite_model_output_with_check(
    truncation: Option<String>,
    envelope: Result<(), String>,
    parsed: Result<Vec<ParsedChapterRewrite>, String>,
) -> (r: Result<Vec<ParsedChapterRewrite>, String>)
    ensures
        rewrites_outcome(r) == match (truncation, envelope) {
            (Some(e), _) => Err(e@),
            (None, Err(e)) => Err(e@),
            (None, Ok(_)) => rewrites_outcome(parsed),
        },
{
    match (truncation, envelope) {
        (Some(e), _) => Err(e),
        (None, Err(e)) => Err(e),
        (None, Ok(_)) => parsed,
    }
}

// ---- smaller shards -------------------------------------------------------------------------
/// A part of a shard that is still to be done. In a revision its rewrites go with it.
pub struct Piece {
    pub label: String,
    pub chapters: Vec<Chapter>,
    pub rewrites: Vec<ParsedChapterRewrite>,
}

#[verifier::ext_equal]
pub struct PieceView {
    pub label: Seq<char>,
    pub chapters: Seq<ChapterView>,
    pub rewrites: Seq<ParsedChapterRewriteView>,
}

impl View for Piece {
    type V = PieceView;

    open spec fn view(&self) -> PieceView {
        PieceView {
            label: self.label@,
            chapters: views(self.chapters@),
            rewrites: views(self.rewrites@),
        }
    }
}

/// A shard that was divided: the parts that are still to be done, in order, and the chapters that
/// were read out of the answers so far.
pub struct Subdivision {
    pub kind: WorkKind,
    pub total: usize,
    pub pending: Vec<Piece>,
    pub parsed: Vec<ParsedChapterRewrite>,
}

/// Whether a part can be divided.
pub open spec fn divisible(kind: WorkKind, piece: PieceView) -> bool {
    piece.chapters.len() > 1 && (kind is Rewrite || piece.chapters.len() == piece.rewrites.len())
}

/// The halves of a part, under a label with a word and a number.
pub open spec fn halves(kind: WorkKind, piece: PieceView, word: Seq<char>) -> Seq<PieceView> {
    let mid = first_half(piece.chapters.len() as int);
    seq![
        PieceView {
            label: piece.label + word + "1"@,
            chapters: piece.chapters.take(mid),
            rewrites: if kind is Rewrite {
                Seq::empty()
            } else {
                piece.rewrites.take(mid)
            },
        },
        PieceView {
            label: piece.label + word + "2"@,
            chapters: piece.chapters.skip(mid),
            rewrites: if kind is Rewrite {
                Seq::empty()
            } else {
                piece.rewrites.skip(mid)
            },
        },
    ]
}

/// What the parts of a shard are called at first.
pub open spec fn first_word(kind: WorkKind) -> Seq<char> {
    match kind {
        WorkKind::Rewrite => " · 自动细分 "@,
        WorkKind::Revision => " · 审查打回自动细分 "@,
    }
}

/// What is said where a single chapter cannot be read.
pub open spec fn indivisible(kind: WorkKind, error: Seq<char>) -> Seq<char> {
    match kind {
        WorkKind::Rewrite => "自动细分到单章后仍无法解析："@ + error,
        WorkKind::Revision => "审查打回重写自动细分到单章后仍无法解析："@ + error,
    }
}

/// The rewrites by the indexes of their chapters.
pub open spec fn index_key() -> spec_fn(ParsedChapterRewriteView) -> int {
    |r: ParsedChapterRewriteView| r.index as int
}

/// What the parts come to when all are done.
pub open spec fn reunited(
    kind: WorkKind,
    total: int,
    parsed: Seq<ParsedChapterRewriteView>,
) -> Result<Seq<ParsedChapterRewriteView>, Seq<char>> {
    if parsed.len() == total {
        Ok(sort_by(parsed, index_key()))
    } else {
        Err(
            (match kind {
                WorkKind::Rewrite => "自动细分后章节数量不匹配：期望 "@,
                WorkKind::Revision => "审查打回自动细分后章节数量不匹配：期望 "@,
            }) + decimal(total) + " 章，得到 "@ + decimal(parsed.len() as int) + " 章。"@,
        )
    }
}

fn split_piece(
    kind: WorkKind,
    label: &str,
    chapters: &[Chapter],
    rewrites: &[ParsedChapterRewrite],
    word: &str,
) -> (r: Option<(Piece, Piece)>)
    ensures
        ({
            let piece = PieceView {
                label: label@,
                chapters: views(chapters@),
                rewrites: views(rewrites@),
            };
            match r {
                None => !divisible(kind, piece),
                Some((a, b)) => divisible(kind, piece) && seq![a@, b@] == halves(kind, piece, word@),
            }
        }),
{
    let (left, right) = match kind {
        WorkKind::Rewrite => match split_chapters_for_rewrite_recovery(chapters) {
            Some((a, b)) => {
                let none: Vec<ParsedChapterRewrite> = Vec::new();
                let none2: Vec<ParsedChapterRewrite> = Vec::new();
                proof {
                    assert(views(none@) =~= Seq::<ParsedChapterRewriteView>::empty());
                    assert(views(none2@) =~= Seq::<ParsedChapterRewriteView>::empty());
                }
                ((a, none), (b, none2))
            },
            None => {
                return None;
            },
        },
        WorkKind::Revision => match split_revision_for_recovery(chapters, rewrites) {
            Some(s) => (s.left, s.right),
            None => {
                return None;
            },
        },
    };
    let mut first = label.to_string();
    first.append(word);
    first.append("1");
    let mut second = label.to_string();
    second.append(word);
    second.append("2");
    let a = Piece { label: first, chapters: left.0, rewrites: left.1 };
    let b = Piece { label: second, chapters: right.0, rewrites: right.1 };
    proof {
        let piece = PieceView {
            label: label@,
            chapters: views(chapters@),
            rewrites: views(rewrites@),
        };
        let goal = halves(kind, piece, word@);
        assert(a@ =~= goal[0]);
        assert(b@ =~= goal[1]);
        assert(seq![a@, b@] =~= goal);
    }
    Some((a, b))
}

fn indivisible_message(kind: WorkKind, error: &str) -> (r: String)
    ensures
        r@ == indivisible(kind, error@),
{
    let mut m = match kind {
        WorkKind::Rewrite => "自动细分到单章后仍无法解析：".to_string(),
        WorkKind::Revision => "审查打回重写自动细分到单章后仍无法解析：".to_string(),
    };
    m.append(error);
    m
}

fn sort_rewrites(parsed: Vec<ParsedChapterRewrite>) -> (r: Vec<ParsedChapterRewrite>)
    ensures
        views(r@) == sort_by(views(parsed@), index_key()),
{
    let ghost all = views(parsed@);
    let mut out: Vec<ParsedChapterRewrite> = Vec::new();
    let mut i: usize = 0;
    proof {
        assert(views(out@) =~= sort_by(all.take(0), index_key()));
    }
    while i < parsed.len()
        invariant
            i <= parsed@.len(),
            all == views(parsed@),
            views(out@) == sort_by(all.take(i as int), index_key()),
        decreases parsed@.len() - i,
    {
        let x = parsed[i].duplicate();
        let ghost sorted = views(out@);
        let ghost before = out@;
        let ghost x_view = x@;
        proof {
            assert(all.take(i + 1).drop_last() =~= all.take(i as int));
            assert(all.take(i + 1).last() == x_view);
        }
        let mut at: usize = out.len();
        while at > 0 && out[at - 1].index > x.index
            invariant
                at <= out@.len(),
                out@ == before,
                sorted == views(before),
                x@ == x_view,
                forall|k: int|
                    at <= k < sorted.len() ==> index_key()(#[trigger] sorted[k]) > index_key()(
                        x_view,
                    ),
            decreases at,
        {
            proof {
                assert(sorted[at - 1] == out@[at - 1]@);
            }
            at -= 1;
        }
        proof {
            if at > 0 {
                assert(sorted[at - 1] == out@[at - 1]@);
            }
            lemma_insert_by_at(sorted, x_view, index_key(), at as int);
            assert(views(before.insert(at as int, x)) =~= sorted.insert(at as int, x_view));
        }
        out.insert(at, x);
        i += 1;
    }
    proof {
        assert(all.take(i as int) =~= all);
    }
    out
}

impl Subdivision {
    /// Divides a shard that could not be read. A shard that cannot be divided fails with the error.
    pub fn start(
        kind: WorkKind,
        shard: &[Chapter],
        rewrites: &[ParsedChapterRewrite],
        shard_label: &str,
        error: &str,
    ) -> (r: Result<Subdivision, String>)
        ensures
            ({
                let whole = PieceView {
                    label: shard_label@,
                    chapters: views(shard@),
                    rewrites: views(rewrites@),
                };
                match r {
                    Ok(s) => divisible(kind, whole) && s.kind == kind && s.total == shard@.len()
                        && views(s.pending@) == halves(kind, whole, first_word(kind))
                        && s.parsed@.len() == 0,
                    Err(m) => !divisible(kind, whole) && m@ == match kind {
                        WorkKind::Rewrite => error@,
                        WorkKind::Revision => indivisible(kind, error@),
                    },
                }
            }),
    {
        let word = match kind {
            WorkKind::Rewrite => " · 自动细分 ",
            WorkKind::Revision => " · 审查打回自动细分 ",
        };
        match split_piece(kind, shard_label, shard, rewrites, word) {
            Some((a, b)) => {
                let pending: Vec<Piece> = vec![a, b];
                proof {
                    assert(views(pending@) =~= seq![a@, b@]);
                }
                Ok(Subdivision { kind, total: shard.len(), pending, parsed: Vec::new() })
            },
            None => match kind {
                WorkKind::Rewrite => Err(error.to_string()),
                WorkKind::Revision => Err(indivisible_message(kind, error)),
            },
        }
    }

    /// The part that is to be done next.
    pub fn next_piece(&self) -> (r: Option<&Piece>)
        ensures
            match r {
                Some(p) => self.pending@.len() > 0 && p@ == views(self.pending@)[0],
                None => self.pending@.len() == 0,
            },
    {
        if self.pending.len() > 0 {
            Some(&self.pending[0])
        } else {
            None
        }
    }

    /// The part is done: its chapters were read.
    pub fn piece_parsed(&mut self, rewrites: Vec<ParsedChapterRewrite>)
        requires
            old(self).pending@.len() > 0,
        ensures
            final(self).kind == old(self).kind,
            final(self).total == old(self).total,
            views(final(self).pending@) == views(old(self).pending@).skip(1),
            views(final(self).parsed@) == views(old(self).parsed@) + views(rewrites@),
    {
        let ghost before = self.pending@;
        let ghost done = self.parsed@;
        let ghost added = rewrites@;
        let mut rewrites = rewrites;
        self.pending.remove(0);
        self.parsed.append(&mut rewrites);
        proof {
            assert(views(self.pending@) =~= views(before).skip(1));
            assert(views(self.parsed@) =~= views(done) + views(added));
        }
    }

    /// The part could not be read, nor a second answer for it: it is divided, or the shard fails.
    pub fn piece_unreadable(&mut self, error: &str) -> (r: Result<(), String>)
        requires
            old(self).pending@.len() > 0,
        ensures
            final(self).kind == old(self).kind,
            final(self).total == old(self).total,
            final(self).parsed@ == old(self).parsed@,
            ({
                let piece = views(old(self).pending@)[0];
                match r {
                    Ok(_) => divisible(old(self).kind, piece) && views(final(self).pending@)
                        == halves(old(self).kind, piece, " · 继续细分 "@) + views(
                        old(self).pending@,
                    ).skip(1),
                    Err(m) => !divisible(old(self).kind, piece) && m@ == indivisible(
                        old(self).kind,
                        error@,
                    ),
                }
            }),
    {
        let split = split_piece(
            self.kind,
            self.pending[0].label.as_str(),
            self.pending[0].chapters.as_slice(),
            self.pending[0].rewrites.as_slice(),
            " · 继续细分 ",
        );
        let ghost before = self.pending@;
        proof {
            assert(views(before)[0] =~= before[0]@);
        }
        match split {
            Some((a, b)) => {
                self.pending.remove(0);
                self.pending.insert(0, b);
                self.pending.insert(0, a);
                proof {
                    assert(views(self.pending@) =~= seq![a@, b@] + views(before).skip(1));
                }
                Ok(())
            },
            None => Err(indivisible_message(self.kind, error)),
        }
    }

    /// What is said where a call for a part gave no answer.
    pub fn piece_failed(&self, error: &str) -> (r: String)
        ensures
            r@ == (match self.kind {
                WorkKind::Rewrite => "自动细分改写调用失败："@,
                WorkKind::Revision => "审查打回自动细分调用失败："@,
            }) + error@,
    {
        let mut m = match self.kind {
            WorkKind::Rewrite => "自动细分改写调用失败：".to_string(),
            WorkKind::Revision => "审查打回自动细分调用失败：".to_string(),
        };
        m.append(error);
        m
    }

    /// What all parts come to.
    pub fn finish(self) -> (r: Result<Vec<ParsedChapterRewrite>, String>)
        ensures
            rewrites_outcome(r) == reunited(self.kind, self.total as int, views(self.parsed@)),
    {
        if self.parsed.len() == self.total {
            return Ok(sort_rewrites(self.parsed));
        }
        let mut m = match self.kind {
            WorkKind::Rewrite => "自动细分后章节数量不匹配：期望 ".to_string(),
            WorkKind::Revision => "审查打回自动细分后章节数量不匹配：期望 ".to_string(),
        };
        let expected = usize_text(self.total);
        let got = usize_text(self.parsed.len());
        m.append(expected.as_str());
        m.append(" 章，得到 ");
        m.append(got.as_str());
        m.append(" 章。");
        Err(m)
    }
}

// ---- laws -----------------------------------------------------------------------------------
/// The chapters of parts, one part behind the other.
pub open spec fn chapters_of(pieces: Seq<PieceView>) -> Seq<ChapterView>
    decreases pieces.len(),
{
    if pieces.len() == 0 {
        Seq::empty()
    } else {
        chapters_of(pieces.drop_last()) + pieces.last().chapters
    }
}

proof fn lemma_chapters_of_two(a: Seq<PieceView>, b: Seq<PieceView>)
    ensures
        chapters_of(a + b) == chapters_of(a) + chapters_of(b),
    decreases b.len(),
{
    if b.len() == 0 {
        assert(a + b =~= a);
        assert(chapters_of(a) + chapters_of(b) =~= chapters_of(a));
    } else {
        lemma_chapters_of_two(a, b.drop_last());
        assert((a + b).drop_last() =~= a + b.drop_last());
        assert(chapters_of(a) + (chapters_of(b.drop_last()) + b.last().chapters) =~= (chapters_of(
            a,
        ) + chapters_of(b.drop_last())) + b.last().chapters);
    }
}

/// The halves of a part hold its chapters, in order, and neither is empty: dividing loses no
/// chapter and comes to an end.
pub proof fn law_halves_hold_the_chapters(kind: WorkKind, piece: PieceView, word: Seq<char>)
    requires
        divisible(kind, piece),
    ensures
        ({
            let parts = halves(kind, piece, word);
            &&& parts[0].chapters + parts[1].chapters == piece.chapters
            &&& 0 < parts[0].chapters.len() < piece.chapters.len()
            &&& 0 < parts[1].chapters.len() < piece.chapters.len()
        }),
{
    let parts = halves(kind, piece, word);
    assert(parts[0].chapters + parts[1].chapters =~= piece.chapters);
}

/// Dividing the next part leaves the chapters that are to be done as they are.
pub proof fn law_dividing_keeps_the_chapters(
    kind: WorkKind,
    pending: Seq<PieceView>,
    word: Seq<char>,
)
    requires
        pending.len() > 0,
        divisible(kind, pending[0]),
    ensures
        chapters_of(halves(kind, pending[0], word) + pending.skip(1)) == chapters_of(pending),
{
    let parts = halves(kind, pending[0], word);
    law_halves_hold_the_chapters(kind, pending[0], word);
    lemma_chapters_of_two(parts, pending.skip(1));
    lemma_chapters_of_two(pending.take(1), pending.skip(1));
    assert(pending.take(1) + pending.skip(1) =~= pending);
    reveal_with_fuel(chapters_of, 3);
    assert(parts.drop_last() =~= seq![parts[0]]);
    assert(seq![parts[0]].drop_last() =~= Seq::<PieceView>::empty());
    assert(chapters_of(parts) =~= parts[0].chapters + parts[1].chapters);
    assert(pending.take(1).drop_last() =~= Seq::<PieceView>::empty());
    assert(chapters_of(pending.take(1)) =~= pending[0].chapters);
}

/// A shard that was divided gives back as many chapters as it had, in the order of their indexes,
/// or fails.
pub proof fn law_reunited_shard_is_complete(
    kind: WorkKind,
    total: int,
    parsed: Seq<ParsedChapterRewriteView>,
)
    requires
        reunited(kind, total, parsed) is Ok,
    ensures
        reunited(kind, total, parsed)->Ok_0.len() == total,
        reunited(kind, total, parsed)->Ok_0.to_multiset() == parsed.to_multiset(),
        crate::order::sorted_by(reunited(kind, total, parsed)->Ok_0, index_key()),
{
    crate::order::law_sorting_keeps_the_elements(parsed, index_key());
}

/// A shard is asked for twice at the most before it is done, fails or is divided.
pub proof fn law_second_call_is_the_last(
    kind: WorkKind,
    fixed_form: bool,
    stage: CallStage,
    reply: CallReply,
    prompt: Seq<char>,
    shard_context: Seq<char>,
)
    requires
        !(stage is First),
    ensures
        ({
            let next = call_next(kind, fixed_form, stage, reply, prompt, shard_context);
            next is Finished || next is Subdivide
        }),
{
}

/// How many parts a part can lead to at the most, itself included.
pub open spec fn parts_at_most(piece: PieceView) -> int {
    if piece.chapters.len() == 0 {
        1
    } else {
        2 * piece.chapters.len() - 1
    }
}

pub open spec fn parts_left(pending: Seq<PieceView>) -> int
    decreases pending.len(),
{
    if pending.len() == 0 {
        0
    } else {
        parts_left(pending.drop_last()) + parts_at_most(pending.last())
    }
}

proof fn lemma_parts_of_two(a: Seq<PieceView>, b: Seq<PieceView>)
    ensures
        parts_left(a + b) == parts_left(a) + parts_left(b),
    decreases b.len(),
{
    if b.len() == 0 {
        assert(a + b =~= a);
    } else {
        lemma_parts_of_two(a, b.drop_last());
        assert((a + b).drop_last() =~= a + b.drop_last());
    }
}

proof fn lemma_parts_are_not_negative(pending: Seq<PieceView>)
    ensures
        parts_left(pending) >= 0,
    decreases pending.len(),
{
    if pending.len() > 0 {
        lemma_parts_are_not_negative(pending.drop_last());
    }
}

/// A shard is divided into finitely many parts: whether the next part is read or divided, what is
/// left becomes less.
pub proof fn law_dividing_ends(kind: WorkKind, pending: Seq<PieceView>, word: Seq<char>)
    requires
        pending.len() > 0,
    ensures
        0 <= parts_left(pending.skip(1)) < parts_left(pending),
        divisible(kind, pending[0]) ==> 0 <= parts_left(
            halves(kind, pending[0], word) + pending.skip(1),
        ) < parts_left(pending),
{
    let one = pending.take(1);
    let rest = pending.skip(1);
    assert(one + rest =~= pending);
    lemma_parts_of_two(one, rest);
    lemma_parts_are_not_negative(rest);
    reveal_with_fuel(parts_left, 3);
    assert(one.drop_last() =~= Seq::<PieceView>::empty());
    assert(one.last() == pending[0]);
    if divisible(kind, pending[0]) {
        let parts = halves(kind, pending[0], word);
        law_halves_hold_the_chapters(kind, pending[0], word);
        lemma_parts_of_two(parts, rest);
        lemma_parts_are_not_negative(parts);
        assert(parts.drop_last() =~= seq![parts[0]]);
        assert(seq![parts[0]].drop_last() =~= Seq::<PieceView>::empty());
        assert(parts[0].chapters.len() + parts[1].chapters.len() == pending[0].chapters.len());
    }
}

} // verus!
