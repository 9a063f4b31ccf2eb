//! When a run takes up the contracts, and the run, of an earlier one.
use vstd::prelude::*;
use crate::domain::opt_text;
use crate::text::{decimal, i64_text, is_blank, blank, same_text};

verus! {

/// What is kept of the contract of a chapter.
pub struct ContractRecord {
    pub contract_json: String,
    pub status: String,
    pub rule_pack_version: String,
    pub fingerprint: String,
    pub batch_index: Option<i64>,
    pub run_id: String,
}

/// Whether a kept contract can be used again: its chapter was planned or failed, under the same
/// rules, for the same inputs, in the same batch.
pub open spec fn reusable(
    status: Seq<char>,
    rule_pack_version: Seq<char>,
    fingerprint: Seq<char>,
    batch_index: Option<i64>,
    expected_fingerprint: Seq<char>,
    expected_batch_index: i64,
    current_version: Seq<char>,
) -> bool {
    (status == "planned"@ || status == "failed"@) && rule_pack_version == current_version
        && fingerprint == expected_fingerprint && batch_index == Some(expected_batch_index)
}

pub fn reusable_record_matches(
    status: &str,
    rule_pack_version: &str,
    fingerprint: &str,
    batch_index: Option<i64>,
    expected_fingerprint: &str,
    expected_batch_index: i64,
    current_version: &str,
) -> (r: bool)
    ensures
        r == reusable(
            status@,
            rule_pack_version@,
            fingerprint@,
            batch_index,
            expected_fingerprint@,
            expected_batch_index,
            current_version@,
        ),
{
    let same_batch = match batch_index {
        Some(index) => index == expected_batch_index,
        None => false,
    };
    (same_text(status, "planned") || same_text(status, "failed")) && same_text(
        rule_pack_version,
        current_version,
    ) && same_text(fingerprint, expected_fingerprint) && same_batch
}

/// What a run expects of a kept contract.
pub struct ContractWish {
    pub fingerprint: String,
    pub batch_index: i64,
    pub run_id: String,
    pub rule_pack_version: String,
}

/// Whether a kept contract is the one that a run expects.
pub open spec fn fits(record: ContractRecord, wish: ContractWish) -> bool {
    reusable(
        record.status@,
        record.rule_pack_version@,
        record.fingerprint@,
        record.batch_index,
        wish.fingerprint@,
        wish.batch_index,
        wish.rule_pack_version@,
    ) && record.run_id@ == wish.run_id@
}

/// The contract that all chapters have in common and that the run expects; none where a chapter
/// has no contract, another one or one that does not fit.
pub open spec fn common_contract(records: Seq<Option<ContractRecord>>, wish: ContractWish) -> Option<
    Seq<char>,
> {
    if records.len() > 0 && (forall|i: int|
        0 <= i < records.len() ==> fits_at(records, wish, i)) {
        Some(records[0]->0.contract_json@)
    } else {
        None
    }
}

/// Whether the contract of a chapter fits and is that of the first chapter.
pub open spec fn fits_at(
    records: Seq<Option<ContractRecord>>,
    wish: ContractWish,
    i: int,
) -> bool {
    records[i] is Some && fits(records[i]->0, wish) && records[0] is Some
        && records[i]->0.contract_json@ == records[0]->0.contract_json@
}

pub fn matching_contract(records: &[Option<ContractRecord>], wish: &ContractWish) -> (r: Option<
    String,
>)
    ensures
        opt_text(r) == common_contract(records@, *wish),
{
    let mut kept: Option<String> = None;
    let mut i: usize = 0;
    while i < records.len()
        invariant
            i <= records@.len(),
            kept is Some == (i > 0),
            forall|k: int| 0 <= k < i ==> fits_at(records@, *wish, k),
            i > 0 ==> kept->0@ == records@[0]->0.contract_json@,
        decreases records@.len() - i,
    {
        match &records[i] {
            None => {
                proof {
                    assert(!fits_at(records@, *wish, i as int));
                }
                return None;
            },
            Some(record) => {
                let known = match &kept {
                    Some(json) => same_text(json.as_str(), record.contract_json.as_str()),
                    None => true,
                };
                if !reusable_record_matches(
                    record.status.as_str(),
                    record.rule_pack_version.as_str(),
                    record.fingerprint.as_str(),
                    record.batch_index,
                    wish.fingerprint.as_str(),
                    wish.batch_index,
                    wish.rule_pack_version.as_str(),
                ) || !same_text(record.run_id.as_str(), wish.run_id.as_str()) || !known {
                    proof {
                        assert(!fits_at(records@, *wish, i as int));
                    }
                    return None;
                }
                kept = Some(record.contract_json.clone());
                proof {
                    assert(i > 0 ==> fits_at(records@, *wish, 0));
                    assert(fits_at(records@, *wish, i as int));
                }
            },
        }
        i += 1;
    }
    kept
}

// ---- the run of a batch ---------------------------------------------------------------------
/// What is kept of an interrupted run.
pub struct Checkpoint {
    pub rewrite_run_id: Option<String>,
    pub batch_index: Option<i64>,
}

/// Which run the rewriting of a batch belongs to.
pub enum RunChoice {
    /// A new one that is not kept.
    Fresh,
    /// The one that was kept.
    Resume(String),
    /// A new one that is bound to what was kept.
    Bind,
}

/// How an optional number is shown.
pub open spec fn shown_option(o: Option<i64>) -> Seq<char> {
    match o {
        Some(n) => "Some("@ + decimal(n as int) + ")"@,
        None => "None"@,
    }
}

fn show_option(o: Option<i64>) -> (r: String)
    ensures
        r@ == shown_option(o),
{
    match o {
        Some(n) => {
            let number = i64_text(n);
            let mut out = "Some(".to_string();
            out.append(number.as_str());
            out.append(")");
            out
        },
        None => "None".to_string(),
    }
}

/// Decides on the run. Outside a batch it is a fresh one; in a batch a checkpoint of that batch
/// has to be there.
pub fn choose_rewrite_run(batch_index: Option<i64>, checkpoint: Option<Checkpoint>) -> (r: Result<
    RunChoice,
    String,
>)
    ensures
        match (batch_index, checkpoint) {
            (None, _) => (r matches Ok(RunChoice::Fresh)),
            (Some(_), None) => (r matches Err(m) && m@ == "当前一键任务缺少恢复检查点。"@),
            (Some(b), Some(c)) => if c.batch_index != Some(b) {
                r matches Err(m) && m@ == "恢复检查点批次不一致：期望 "@ + decimal(b as int) + "，实际 "@ + shown_option(
                    c.batch_index,
                ) + "。"@
            } else {
                match c.rewrite_run_id {
                    Some(id) if !blank(id@) => (r matches Ok(RunChoice::Resume(x)) && x@ == id@),
                    _ => (r matches Ok(RunChoice::Bind)),
                }
            },
        },
        r matches Ok(RunChoice::Resume(x)) ==> !blank(x@) && (checkpoint matches Some(c)
            && c.batch_index == batch_index && (c.rewrite_run_id matches Some(id) && id@ == x@)),
        r matches Ok(RunChoice::Fresh) ==> batch_index is None,
        r is Err ==> batch_index is Some,
{
    let wanted = match batch_index {
        Some(index) => index,
        None => {
            return Ok(RunChoice::Fresh);
        },
    };
    let kept = match checkpoint {
        Some(c) => c,
        None => {
            return Err("当前一键任务缺少恢复检查点。".to_string());
        },
    };
    let same_batch = match kept.batch_index {
        Some(index) => index == wanted,
        None => false,
    };
    if !same_batch {
        let number = i64_text(wanted);
        let shown = show_option(kept.batch_index);
        let mut m = "恢复检查点批次不一致：期望 ".to_string();
        m.append(number.as_str());
        m.append("，实际 ");
        m.append(shown.as_str());
        m.append("。");
        return Err(m);
    }
    match kept.rewrite_run_id {
        Some(id) => if is_blank(id.as_str()) {
            Ok(RunChoice::Bind)
        } else {
            Ok(RunChoice::Resume(id))
        },
        None => Ok(RunChoice::Bind),
    }
}

/// The new run once it was to be bound to the checkpoint, by how many rows that changed.
pub fn bound_rewrite_run(run_id: String, updated: usize) -> (r: Result<String, String>)
    ensures
        if updated == 1 {
            r matches Ok(x) && x@ == run_id@
        } else {
            r matches Err(m) && m@ == "无法绑定当前改写运行与恢复检查点。"@
        },
{
    if updated != 1 {
        return Err("无法绑定当前改写运行与恢复检查点。".to_string());
    }
    Ok(run_id)
}

// ---- laws -----------------------------------------------------------------------------------
/// A contract is taken up only where every chapter has it, from the expected run, under the
/// current rules and for the same inputs and batch.
pub proof fn law_reused_contract_fits_every_chapter(
    records: Seq<Option<ContractRecord>>,
    wish: ContractWish,
    i: int,
)
    requires
        common_contract(records, wish) is Some,
        0 <= i < records.len(),
    ensures
        records[i] is Some,
        records[i]->0.contract_json@ == common_contract(records, wish)->0,
        records[i]->0.run_id@ == wish.run_id@,
        records[i]->0.fingerprint@ == wish.fingerprint@,
        records[i]->0.rule_pack_version@ == wish.rule_pack_version@,
        records[i]->0.batch_index == Some(wish.batch_index),
{
    assert(fits_at(records, wish, i));
}

} // verus!
