//! The people whose bond with the protagonist the rewriting looks after.
use vstd::prelude::*;
use crate::json::{json_quoted, quote_json};
use crate::text::{blank, is_empty_text, join, join_texts, lemma_trim, lemma_views_push, trim, trimmed, views};

verus! {

/// One such person.
#[derive(Debug, PartialEq, Eq)]
pub struct RelationshipTargetEntry {
    pub name: String,
    pub relationship: String,
    pub notes: String,
}

#[verifier::ext_equal]
pub struct RelationshipTargetEntryView {
    pub name: Seq<char>,
    pub relationship: Seq<char>,
    pub notes: Seq<char>,
}

impl View for RelationshipTargetEntry {
    type V = RelationshipTargetEntryView;

    open spec fn view(&self) -> RelationshipTargetEntryView {
        RelationshipTargetEntryView {
            name: self.name@,
            relationship: self.relationship@,
            notes: self.notes@,
        }
    }
}

pub open spec fn tidy_entry(row: RelationshipTargetEntryView) -> RelationshipTargetEntryView {
    RelationshipTargetEntryView {
        name: trim(row.name),
        relationship: trim(row.relationship),
        notes: trim(row.notes),
    }
}

/// The rows that have a name, without the space around their texts.
pub open spec fn tidy_entries(rows: Seq<RelationshipTargetEntryView>) -> Seq<
    RelationshipTargetEntryView,
>
    decreases rows.len(),
{
    if rows.len() == 0 {
        Seq::empty()
    } else {
        let before = tidy_entries(rows.drop_last());
        if blank(rows.last().name) {
            before
        } else {
            before.push(tidy_entry(rows.last()))
        }
    }
}

/// The rows where there are any.
pub open spec fn rows_view(rows: Option<Vec<RelationshipTargetEntry>>) -> Seq<
    RelationshipTargetEntryView,
> {
    match rows {
        Some(v) => views(v@),
        None => Seq::empty(),
    }
}

/// A row as a JSON object.
pub open spec fn entry_json(row: RelationshipTargetEntryView) -> Seq<char> {
    "{\"name\":"@ + json_quoted(row.name) + ",\"relationship\":"@ + json_quoted(row.relationship)
        + ",\"notes\":"@ + json_quoted(row.notes) + "}"@
}

/// Rows as a JSON array.
pub open spec fn entries_json(rows: Seq<RelationshipTargetEntryView>) -> Seq<char> {
    "["@ + join(Seq::new(rows.len(), |i: int| entry_json(rows[i])), ","@) + "]"@
}

/// A row in words.
pub open spec fn entry_words(row: RelationshipTargetEntryView) -> Seq<char> {
    let bond = if row.relationship.len() == 0 {
        "关系未指定"@
    } else {
        row.relationship
    };
    if row.notes.len() == 0 {
        row.name + "（"@ + bond + "）"@
    } else {
        row.name + "（"@ + bond + "）："@ + row.notes
    }
}

/// Rows in words, one per line.
pub open spec fn entries_words(rows: Seq<RelationshipTargetEntryView>) -> Seq<char> {
    if rows.len() == 0 {
        "无"@
    } else {
        join(Seq::new(rows.len(), |i: int| entry_words(rows[i])), "\n"@)
    }
}

/// The rows that count.
pub fn tidy_relationship_targets(rows: &Option<Vec<RelationshipTargetEntry>>) -> (r: Vec<
    RelationshipTargetEntry,
>)
    ensures
        views(r@) == tidy_entries(rows_view(*rows)),
{
    let mut out: Vec<RelationshipTargetEntry> = Vec::new();
    proof {
        assert(views(out@) =~= Seq::<RelationshipTargetEntryView>::empty());
    }
    if let Some(list) = rows {
        let ghost all = views(list@);
        let mut i: usize = 0;
        while i < list.len()
            invariant
                i <= list@.len(),
                all == views(list@),
                views(out@) == tidy_entries(all.take(i as int)),
            decreases list@.len() - i,
        {
            proof {
                assert(all.take(i + 1).drop_last() =~= all.take(i as int));
                assert(all.take(i + 1).last() == list@[i as int]@);
            }
            let name = trimmed(list[i].name.as_str());
            if !is_empty_text(name.as_str()) {
                let ghost before = out@;
                out.push(
                    RelationshipTargetEntry {
                        name,
                        relationship: trimmed(list[i].relationship.as_str()),
                        notes: trimmed(list[i].notes.as_str()),
                    },
                );
                proof {
                    lemma_views_push(before, out@.last());
                }
            }
            i += 1;
        }
        proof {
            assert(all.take(i as int) =~= all);
        }
    }
    out
}

fn entry_json_of(row: &RelationshipTargetEntry) -> (r: String)
    ensures
        r@ == entry_json(row@),
{
    let name = quote_json(row.name.as_str());
    let relationship = quote_json(row.relationship.as_str());
    let notes = quote_json(row.notes.as_str());
    let mut out = "{\"name\":".to_string();
    out.append(name.as_str());
    out.append(",\"relationship\":");
    out.append(relationship.as_str());
    out.append(",\"notes\":");
    out.append(notes.as_str());
    out.append("}");
    out
}

fn entry_words_of(row: &RelationshipTargetEntry) -> (r: String)
    ensures
        r@ == entry_words(row@),
{
    let mut out = row.name.clone();
    out.append("（");
    if is_empty_text(row.relationship.as_str()) {
        out.append("关系未指定");
    } else {
        out.append(row.relationship.as_str());
    }
    if is_empty_text(row.notes.as_str()) {
        out.append("）");
    } else {
        out.append("）：");
        out.append(row.notes.as_str());
    }
    out
}

/// How the rows that count are kept: as JSON. Rows that could not be read count as none.
pub fn normalize_relationship_targets(rows: &Option<Vec<RelationshipTargetEntry>>) -> (r: String)
    ensures
        r@ == entries_json(tidy_entries(rows_view(*rows))),
{
    let kept = tidy_relationship_targets(rows);
    let ghost all = views(kept@);
    let ghost goal = Seq::new(all.len(), |i: int| entry_json(all[i]));
    let mut parts: Vec<String> = Vec::new();
    let mut i: usize = 0;
    while i < kept.len()
        invariant
            i <= kept@.len(),
            all == views(kept@),
            goal == Seq::new(all.len(), |k: int| entry_json(all[k])),
            views(parts@) == goal.take(i as int),
        decreases kept@.len() - i,
    {
        let ghost before = parts@;
        parts.push(entry_json_of(&kept[i]));
        proof {
            lemma_views_push(before, parts@.last());
            assert(all[i as int] == kept@[i as int]@);
            assert(views(parts@) =~= goal.take(i + 1));
        }
        i += 1;
    }
    proof {
        assert(goal.take(i as int) =~= goal);
    }
    let inner = join_texts(parts.as_slice(), ",");
    let mut out = "[".to_string();
    out.append(inner.as_str());
    out.append("]");
    out
}

/// The rows that count, in words.
pub fn relationship_targets_summary(rows: &Option<Vec<RelationshipTargetEntry>>) -> (r: String)
    ensures
        r@ == entries_words(tidy_entries(rows_view(*rows))),
{
    let kept = tidy_relationship_targets(rows);
    if kept.len() == 0 {
        return "无".to_string();
    }
    let ghost all = views(kept@);
    let ghost goal = Seq::new(all.len(), |i: int| entry_words(all[i]));
    let mut parts: Vec<String> = Vec::new();
    let mut i: usize = 0;
    while i < kept.len()
        invariant
            i <= kept@.len(),
            all == views(kept@),
            goal == Seq::new(all.len(), |k: int| entry_words(all[k])),
            views(parts@) == goal.take(i as int),
        decreases kept@.len() - i,
    {
        let ghost before = parts@;
        parts.push(entry_words_of(&kept[i]));
        proof {
            lemma_views_push(before, parts@.last());
            assert(all[i as int] == kept@[i as int]@);
            assert(views(parts@) =~= goal.take(i + 1));
        }
        i += 1;
    }
    proof {
        assert(goal.take(i as int) =~= goal);
    }
    join_texts(parts.as_slice(), "\n")
}

// ---- laws -----------------------------------------------------------------------------------
proof fn lemma_kept_rows_are_tidy(rows: Seq<RelationshipTargetEntryView>)
    ensures
        forall|i: int|
            0 <= i < tidy_entries(rows).len() ==> tidy_entry(#[trigger] tidy_entries(rows)[i])
                == tidy_entries(rows)[i] && !blank(tidy_entries(rows)[i].name),
    decreases rows.len(),
{
    if rows.len() > 0 {
        lemma_kept_rows_are_tidy(rows.drop_last());
        lemma_trim(rows.last().name);
        lemma_trim(rows.last().relationship);
        lemma_trim(rows.last().notes);
        let before = tidy_entries(rows.drop_last());
        let after = tidy_entries(rows);
        assert forall|i: int| 0 <= i < after.len() implies tidy_entry(#[trigger] after[i])
            == after[i] && !blank(after[i].name) by {
            if i < before.len() {
                assert(after[i] == before[i]);
            }
        }
    }
}

proof fn lemma_tidy_rows_stay(rows: Seq<RelationshipTargetEntryView>)
    requires
        forall|i: int|
            0 <= i < rows.len() ==> tidy_entry(#[trigger] rows[i]) == rows[i] && !blank(
                rows[i].name,
            ),
    ensures
        tidy_entries(rows) == rows,
    decreases rows.len(),
{
    if rows.len() > 0 {
        let rest = rows.drop_last();
        assert forall|i: int| 0 <= i < rest.len() implies tidy_entry(#[trigger] rest[i]) == rest[i]
            && !blank(rest[i].name) by {
            assert(rest[i] == rows[i]);
        }
        lemma_tidy_rows_stay(rest);
        assert(tidy_entry(rows[rows.len() - 1]) == rows[rows.len() - 1]);
        assert(rest.push(rows.last()) =~= rows);
    } else {
        assert(tidy_entries(rows) =~= rows);
    }
}

/// Rows that were put in order once are not changed by it again.
pub proof fn law_tidying_is_stable(rows: Seq<RelationshipTargetEntryView>)
    ensures
        tidy_entries(tidy_entries(rows)) == tidy_entries(rows),
{
    lemma_kept_rows_are_tidy(rows);
    lemma_tidy_rows_stay(tidy_entries(rows));
}

} // verus!
