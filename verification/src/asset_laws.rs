//! What the assets of a novel are for: each kind holds what the analyses say in the field of that
//! kind, every entry of it, and nothing of the other fields.
use vstd::prelude::*;
use crate::analysis::{
    all_assets, asset_content, asset_kinds, asset_limit, bullets, compact_asset, distinct_rows,
    entry_key, field_sections, headed_part, is_entry, is_heading, item_texts, key_seen, limited,
    term_parts, term_section, term_sections, titled, unix_lines, value_text,
};
use crate::json::{field, json_read, JsonView};
use crate::text::{
    blank, holds, join, lines, matches_at, replace_all, split_on, starts, strip_cr, trim,
};
use crate::text_laws::{
    law_holding_is_transitive, law_joined_text_holds_its_parts, law_trimmed_text_is_the_middle,
    lemma_holds_end, lemma_holds_more, lemma_sum_contains,
};

verus! {

// ---- lines ----------------------------------------------------------------------------------
/// The pieces of a text between its line feeds.
pub open spec fn rows_of(s: Seq<char>) -> Seq<Seq<char>> {
    split_on(s, seq!['\n'])
}

proof fn lemma_rows_exist(s: Seq<char>)
    ensures
        rows_of(s).len() > 0,
    decreases s.len(),
{
    if s.len() > 0 {
        lemma_rows_exist(s.drop_last());
    }
}

/// A line feed parts a text into the rows before it and the rows behind it.
pub proof fn law_line_feed_parts_the_rows(a: Seq<char>, b: Seq<char>)
    ensures
        rows_of(a.push('\n') + b) == rows_of(a) + rows_of(b),
    decreases b.len(),
{
    let delims = seq!['\n'];
    assert(delims[0] == '\n');
    assert(delims.contains('\n'));
    if b.len() == 0 {
        assert(a.push('\n') + b =~= a.push('\n'));
        assert(a.push('\n').drop_last() =~= a);
        assert(rows_of(b) =~= seq![Seq::<char>::empty()]);
        assert(rows_of(a) + rows_of(b) =~= rows_of(a).push(Seq::<char>::empty()));
    } else {
        let whole = a.push('\n') + b;
        assert(whole.drop_last() =~= a.push('\n') + b.drop_last());
        law_line_feed_parts_the_rows(a, b.drop_last());
        lemma_rows_exist(b.drop_last());
        let init = rows_of(b.drop_last());
        let all = rows_of(a) + init;
        if delims.contains(b.last()) {
            assert(all.push(Seq::<char>::empty()) =~= rows_of(a) + init.push(Seq::<char>::empty()));
        } else {
            assert(all.last() == init.last());
            assert(all.drop_last().push(all.last().push(b.last())) =~= rows_of(a)
                + init.drop_last().push(init.last().push(b.last())));
        }
    }
}

/// Whether every row of one text is a row of another.
pub open spec fn rows_within(a: Seq<char>, b: Seq<char>) -> bool {
    forall|x: Seq<char>| #[trigger] rows_of(a).contains(x) ==> rows_of(b).contains(x)
}

proof fn lemma_rows_behind(a: Seq<char>, b: Seq<char>)
    ensures
        rows_within(b, a + "\n"@ + b),
        rows_within(a, a + "\n"@ + b),
{
    reveal_strlit("\n");
    assert(a + "\n"@ + b =~= a.push('\n') + b);
    law_line_feed_parts_the_rows(a, b);
    assert forall|x: Seq<char>| #[trigger] rows_of(b).contains(x) implies rows_of(
        a + "\n"@ + b,
    ).contains(x) by {
        lemma_sum_contains(rows_of(a), rows_of(b), x);
    }
    assert forall|x: Seq<char>| #[trigger] rows_of(a).contains(x) implies rows_of(
        a + "\n"@ + b,
    ).contains(x) by {
        lemma_sum_contains(rows_of(a), rows_of(b), x);
    }
}

proof fn lemma_rows_in_join(parts: Seq<Seq<char>>, i: int)
    requires
        0 <= i < parts.len(),
    ensures
        rows_within(parts[i], join(parts, "\n\n"@)),
    decreases parts.len(),
{
    if parts.len() > 1 {
        reveal_strlit("\n\n");
        reveal_strlit("\n");
        let before = join(parts.drop_last(), "\n\n"@);
        let whole = before + "\n\n"@ + parts.last();
        let middle = "\n"@ + parts.last();
        assert(whole =~= before + "\n"@ + middle);
        lemma_rows_behind(before, middle);
        if i < parts.len() - 1 {
            lemma_rows_in_join(parts.drop_last(), i);
        } else {
            lemma_rows_behind(Seq::empty(), parts.last());
            assert(Seq::<char>::empty() + "\n"@ + parts.last() =~= middle);
        }
    }
}

/// Whether a text has no carriage return.
pub open spec fn no_returns(s: Seq<char>) -> bool {
    forall|i: int| 0 <= i < s.len() ==> #[trigger] s[i] != '\r'
}

proof fn lemma_no_returns_in_join(parts: Seq<Seq<char>>, sep: Seq<char>)
    requires
        no_returns(sep),
        forall|i: int| 0 <= i < parts.len() ==> no_returns(#[trigger] parts[i]),
    ensures
        no_returns(join(parts, sep)),
    decreases parts.len(),
{
    if parts.len() > 1 {
        let rest = parts.drop_last();
        assert forall|i: int| 0 <= i < rest.len() implies no_returns(#[trigger] rest[i]) by {
            assert(rest[i] == parts[i]);
        }
        lemma_no_returns_in_join(rest, sep);
        assert(no_returns(parts[parts.len() - 1]));
    } else if parts.len() == 1 {
        assert(no_returns(parts[0]));
    }
}

proof fn lemma_nothing_to_replace(t: Seq<char>, p: Seq<char>, r: Seq<char>)
    requires
        no_returns(t),
        p.len() > 0,
        p[0] == '\r',
    ensures
        replace_all(t, p, r) == t,
    decreases t.len(),
{
    if t.len() >= p.len() {
        if starts(t, p) {
            assert(t.subrange(0, p.len() as int)[0] == p[0]);
            assert(t[0] == '\r');
        }
        let rest = t.subrange(1, t.len() as int);
        assert forall|i: int| 0 <= i < rest.len() implies #[trigger] rest[i] != '\r' by {
            assert(rest[i] == t[i + 1]);
        }
        lemma_nothing_to_replace(rest, p, r);
        assert(seq![t[0]] + rest =~= t);
    }
}

proof fn lemma_unix_lines_stay(s: Seq<char>)
    requires
        no_returns(s),
    ensures
        unix_lines(s) == s,
{
    reveal_strlit("\r\n");
    reveal_strlit("\r");
    lemma_nothing_to_replace(s, "\r\n"@, "\n"@);
    lemma_nothing_to_replace(s, "\r"@, "\n"@);
}

proof fn lemma_rows_have_no_returns(s: Seq<char>, k: int)
    requires
        no_returns(s),
        0 <= k < rows_of(s).len(),
    ensures
        no_returns(rows_of(s)[k]),
    decreases s.len(),
{
    if s.len() > 0 {
        let rest = s.drop_last();
        assert forall|i: int| 0 <= i < rest.len() implies #[trigger] rest[i] != '\r' by {
            assert(rest[i] == s[i]);
        }
        assert(s[s.len() - 1] != '\r');
        lemma_rows_exist(rest);
        if k < rows_of(rest).len() {
            lemma_rows_have_no_returns(rest, k);
        }
        if rows_of(rest).len() > 0 {
            lemma_rows_have_no_returns(rest, rows_of(rest).len() - 1);
        }
    }
}

/// In a text without carriage returns the lines are the rows, but for an empty last one.
proof fn lemma_rows_are_lines(s: Seq<char>, x: Seq<char>)
    requires
        no_returns(s),
    ensures
        x.len() > 0 ==> (rows_of(s).contains(x) <==> lines(s).contains(x)),
        lines(s).contains(x) ==> rows_of(s).contains(x),
{
    let parts = rows_of(s);
    let all = lines(s);
    lemma_rows_exist(s);
    if parts.contains(x) && x.len() > 0 {
        let k = parts.index_of(x);
        lemma_rows_have_no_returns(s, k);
        assert(x[x.len() - 1] != '\r');
        assert(all[k] == x);
    }
    if all.contains(x) {
        let k = all.index_of(x);
        lemma_rows_have_no_returns(s, k);
        if parts[k].len() > 0 {
            assert(parts[k][parts[k].len() - 1] != '\r');
        }
        assert(parts[k] == x);
    }
}

// ---- how long things are --------------------------------------------------------------------
spec fn weight(rows: Seq<Seq<char>>) -> int
    decreases rows.len(),
{
    if rows.len() == 0 {
        0
    } else {
        weight(rows.drop_last()) + rows.last().len() + 1
    }
}

proof fn lemma_join_weight(rows: Seq<Seq<char>>)
    ensures
        rows.len() > 0 ==> join(rows, "\n"@).len() == weight(rows) - 1,
        rows.len() == 0 ==> weight(rows) == 0,
    decreases rows.len(),
{
    reveal_strlit("\n");
    if rows.len() > 1 {
        lemma_join_weight(rows.drop_last());
    } else if rows.len() == 1 {
        reveal_with_fuel(weight, 2);
        assert(rows.drop_last().len() == 0);
    }
}

proof fn lemma_rows_weight(s: Seq<char>)
    ensures
        weight(rows_of(s)) == s.len() + 1,
    decreases s.len(),
{
    reveal_with_fuel(weight, 2);
    if s.len() == 0 {
        assert(rows_of(s) =~= seq![Seq::<char>::empty()]);
        assert(rows_of(s).drop_last().len() == 0);
    } else {
        let init = rows_of(s.drop_last());
        lemma_rows_exist(s.drop_last());
        lemma_rows_weight(s.drop_last());
        if seq!['\n'].contains(s.last()) {
            assert(rows_of(s).drop_last() =~= init);
        } else {
            assert(rows_of(s).drop_last() =~= init.drop_last());
        }
    }
}

proof fn lemma_weight_of_lines(parts: Seq<Seq<char>>)
    ensures
        weight(Seq::new(parts.len(), |i: int| strip_cr(parts[i]))) <= weight(parts),
    decreases parts.len(),
{
    let stripped = Seq::new(parts.len(), |i: int| strip_cr(parts[i]));
    if parts.len() > 0 {
        lemma_weight_of_lines(parts.drop_last());
        assert(stripped.drop_last() =~= Seq::new(
            parts.drop_last().len(),
            |i: int| strip_cr(parts.drop_last()[i]),
        ));
        assert(stripped.last() == strip_cr(parts.last()));
    }
}

proof fn lemma_lines_weight(s: Seq<char>)
    ensures
        weight(lines(s)) <= s.len() + 1,
{
    let parts = rows_of(s);
    lemma_rows_exist(s);
    lemma_rows_weight(s);
    let first = parts.drop_last();
    lemma_weight_of_lines(first);
    let body = Seq::new((parts.len() - 1) as nat, |i: int| strip_cr(parts[i]));
    assert(body =~= Seq::new(first.len(), |i: int| strip_cr(first[i])));
    if parts.last().len() != 0 {
        assert(lines(s).drop_last() =~= body);
    }
}

proof fn lemma_distinct_weight(rows: Seq<Seq<char>>)
    ensures
        weight(distinct_rows(rows)) <= weight(rows),
        weight(rows) >= 0,
    decreases rows.len(),
{
    if rows.len() > 0 {
        lemma_distinct_weight(rows.drop_last());
        law_trimmed_text_is_the_middle(rows.last());
        let before = distinct_rows(rows.drop_last());
        assert(before.push(trim(rows.last())).drop_last() =~= before);
    }
}

// ---- what is kept ---------------------------------------------------------------------------
/// A heading is kept wherever it stands, also where it was there before.
pub proof fn law_headings_are_kept(rows: Seq<Seq<char>>, i: int) -> (k: int)
    requires
        0 <= i < rows.len(),
        is_heading(rows[i]),
        trim(rows[i]).len() > 0,
    ensures
        0 <= k < distinct_rows(rows).len(),
        distinct_rows(rows)[k] == trim(rows[i]),
    decreases rows.len(),
{
    let rest = rows.drop_last();
    let before = distinct_rows(rest);
    if i < rest.len() {
        let k = law_headings_are_kept(rest, i);
        assert(distinct_rows(rows)[k] == before[k]);
        k
    } else {
        before.len() as int
    }
}

proof fn lemma_entry_is_kept(rows: Seq<Seq<char>>, i: int) -> (k: int)
    requires
        0 <= i < rows.len(),
        trim(rows[i]).len() > 0,
        !is_heading(rows[i]),
        entry_key(trim(rows[i])).len() > 0,
    ensures
        0 <= k < distinct_rows(rows).len(),
        entry_key(distinct_rows(rows)[k]) == entry_key(trim(rows[i])),
    decreases rows.len(),
{
    let earlier = rows.drop_last();
    let before = distinct_rows(earlier);
    if i < earlier.len() {
        let k = lemma_entry_is_kept(earlier, i);
        assert(distinct_rows(rows)[k] == before[k]);
        k
    } else {
        let key = entry_key(trim(rows.last()));
        if key_seen(earlier, key) {
            let j = choose|j: int| 0 <= j < earlier.len() && is_entry(#[trigger] earlier[j], key);
            lemma_entry_is_kept(earlier, j)
        } else {
            before.len() as int
        }
    }
}

/// Every line that is kept was there, the space around it aside.
pub proof fn law_kept_line_was_there(rows: Seq<Seq<char>>, k: int) -> (i: int)
    requires
        0 <= k < distinct_rows(rows).len(),
    ensures
        0 <= i < rows.len(),
        distinct_rows(rows)[k] == trim(rows[i]),
    decreases rows.len(),
{
    let before = distinct_rows(rows.drop_last());
    if k < before.len() {
        law_kept_line_was_there(rows.drop_last(), k)
    } else {
        rows.len() - 1
    }
}

/// What is kept of a text that is no longer than the limit: for every line with something in it,
/// be it no heading, an entry that says the same.
pub proof fn law_every_entry_is_kept(kind: Seq<char>, content: Seq<char>, line: Seq<char>) -> (
entry: Seq<char>)
    requires
        no_returns(content),
        content.len() <= asset_limit(kind),
        lines(content).contains(line),
        !is_heading(line),
        entry_key(trim(line)).len() > 0,
    ensures
        holds(compact_asset(kind, content), entry),
        entry_key(entry) == entry_key(trim(line)),
{
    lemma_unix_lines_stay(content);
    let rows = lines(content);
    let kept = distinct_rows(rows);
    let text = join(kept, "\n"@);
    lemma_lines_weight(content);
    lemma_distinct_weight(rows);
    lemma_join_weight(kept);
    let i = rows.index_of(line);
    let k = lemma_entry_is_kept(rows, i);
    law_joined_text_holds_its_parts(kept, "\n"@, k);
    kept[k]
}

/// Two texts that are the same but for white space and marks are one entry; the shortest way to
/// say it is in the key.
pub proof fn law_key_leaves_out_marks_alone(a: Seq<char>, c: char)
    ensures
        entry_key(a.push(c)) == if crate::text::white(c) || c == '-' || c == '，' || c == ',' || c
            == '。' || c == '.' || c == '；' || c == ';' || c == '：' || c == ':' || c == '、' {
            entry_key(a)
        } else {
            entry_key(a).push(c)
        },
{
    assert(a.push(c).drop_last() =~= a);
    let marks = crate::analysis::entry_marks();
    assert(marks[0] == '-' && marks[1] == '，' && marks[2] == ',' && marks[3] == '。' && marks[4]
        == '.' && marks[5] == '；' && marks[6] == ';' && marks[7] == '：' && marks[8] == ':'
        && marks[9] == '、');
    if marks.contains(c) {
        let k = marks.index_of(c);
        assert(marks[k] == c);
    }
}

// ---- the field of each kind -----------------------------------------------------------------
/// The field of an analysis that fills a kind of asset.
pub open spec fn fills(name: Seq<char>, kind: Seq<char>) -> bool {
    ||| kind == "人物卡"@ && name == "characters"@
    ||| kind == "人物关系"@ && name == "relationships"@
    ||| kind == "地点"@ && name == "locations"@
    ||| kind == "伏笔"@ && name == "foreshadowing"@
}

/// What an analysis says in a field; nothing where it is no JSON or has no such field.
pub open spec fn said_in(analysis: Seq<char>, name: Seq<char>) -> Option<JsonView> {
    match json_read(analysis) {
        Ok(value) => field(value, name),
        Err(_) => None,
    }
}

/// The words of it.
pub open spec fn words_in(analysis: Seq<char>, name: Seq<char>) -> Seq<char> {
    match said_in(analysis, name) {
        Some(f) => value_text(f),
        None => Seq::empty(),
    }
}

/// How many characters the chapters need for a field, with their titles.
pub open spec fn chars_in(rows: Seq<(Seq<char>, Seq<char>)>, name: Seq<char>) -> int
    decreases rows.len(),
{
    if rows.len() == 0 {
        0
    } else {
        chars_in(rows.drop_last(), name) + rows.last().0.len() + words_in(
            rows.last().1,
            name,
        ).len() + 6
    }
}

/// Whether neither the titles nor the words of a field have a carriage return.
pub open spec fn plain_in(rows: Seq<(Seq<char>, Seq<char>)>, name: Seq<char>) -> bool {
    forall|i: int|
        0 <= i < rows.len() ==> no_returns((#[trigger] rows[i]).0) && no_returns(
            words_in(rows[i].1, name),
        )
}

proof fn lemma_kinds()
    ensures
        asset_kinds().len() == 6,
        asset_kinds()[0] == "AI分析汇总"@,
        asset_kinds()[1] == "人物卡"@,
        asset_kinds()[2] == "人物关系"@,
        asset_kinds()[3] == "地点"@,
        asset_kinds()[4] == "伏笔"@,
        asset_kinds()[5] == "术语表"@,
        "AI分析汇总"@ != "人物卡"@,
        "AI分析汇总"@ != "人物关系"@,
        "AI分析汇总"@ != "地点"@,
        "AI分析汇总"@ != "伏笔"@,
        "AI分析汇总"@ != "术语表"@,
        "人物卡"@ != "人物关系"@,
        "人物卡"@ != "地点"@,
        "人物卡"@ != "伏笔"@,
        "人物卡"@ != "术语表"@,
        "人物关系"@ != "地点"@,
        "人物关系"@ != "伏笔"@,
        "人物关系"@ != "术语表"@,
        "地点"@ != "伏笔"@,
        "地点"@ != "术语表"@,
        "伏笔"@ != "术语表"@,
{
    reveal_strlit("AI分析汇总");
    reveal_strlit("人物卡");
    reveal_strlit("人物关系");
    reveal_strlit("地点");
    reveal_strlit("伏笔");
    reveal_strlit("术语表");
    assert("AI分析汇总"@.len() == 6);
    assert("人物卡"@.len() == 3);
    assert("人物关系"@.len() == 4);
    assert("地点"@.len() == 2);
    assert("伏笔"@.len() == 2);
    assert("术语表"@.len() == 3);
    assert("人物卡"@[0] != "术语表"@[0]);
    assert("地点"@[0] != "伏笔"@[0]);
}

proof fn lemma_content_of_kind(rows: Seq<(Seq<char>, Seq<char>)>, kind: Seq<char>, name: Seq<char>)
    requires
        fills(name, kind),
    ensures
        asset_content(kind, rows) == join(field_sections(rows, name), "\n\n"@),
{
    lemma_kinds();
}

proof fn lemma_section_is_there(
    rows: Seq<(Seq<char>, Seq<char>)>,
    name: Seq<char>,
    i: int,
) -> (k: int)
    requires
        0 <= i < rows.len(),
        !blank(words_in(rows[i].1, name)),
    ensures
        0 <= k < field_sections(rows, name).len(),
        field_sections(rows, name)[k] == "## "@ + rows[i].0 + "\n"@ + words_in(rows[i].1, name),
    decreases rows.len(),
{
    lemma_empty_is_blank();
    let before = field_sections(rows.drop_last(), name);
    if i < rows.len() - 1 {
        let k = lemma_section_is_there(rows.drop_last(), name, i);
        assert(field_sections(rows, name)[k] == before[k]);
        k
    } else {
        before.len() as int
    }
}

proof fn lemma_empty_is_blank()
    ensures
        blank(Seq::<char>::empty()),
{
    law_trimmed_text_is_the_middle(Seq::<char>::empty());
}

proof fn lemma_sections_are_plain(rows: Seq<(Seq<char>, Seq<char>)>, name: Seq<char>)
    requires
        plain_in(rows, name),
    ensures
        forall|k: int|
            0 <= k < field_sections(rows, name).len() ==> no_returns(
                #[trigger] field_sections(rows, name)[k],
            ),
        field_sections(rows, name).len() > 0 ==> join(field_sections(rows, name), "\n\n"@).len()
            <= chars_in(rows, name),
        field_sections(rows, name).len() == 0 ==> 0 <= chars_in(rows, name),
    decreases rows.len(),
{
    reveal_strlit("## ");
    reveal_strlit("\n");
    reveal_strlit("\n\n");
    if rows.len() > 0 {
        let rest = rows.drop_last();
        assert forall|i: int| 0 <= i < rest.len() implies no_returns((#[trigger] rest[i]).0)
            && no_returns(words_in(rest[i].1, name)) by {
            assert(rest[i] == rows[i]);
        }
        lemma_sections_are_plain(rest, name);
        let last = rows[rows.len() - 1];
        assert(no_returns(last.0) && no_returns(words_in(last.1, name)));
        let before = field_sections(rest, name);
        let all = field_sections(rows, name);
        let section = "## "@ + last.0 + "\n"@ + words_in(last.1, name);
        assert(no_returns(section));
        assert forall|k: int| 0 <= k < all.len() implies no_returns(#[trigger] all[k]) by {
            if k < before.len() {
                assert(all[k] == before[k]);
            }
        }
        if all.len() > before.len() {
            assert(all.drop_last() =~= before);
        }
    }
}

/// Where the chapters need no more characters than the limit of a kind, the asset of that kind
/// has an entry for every line that any chapter says in the field of that kind.
pub proof fn law_asset_holds_what_its_field_says(
    rows: Seq<(Seq<char>, Seq<char>)>,
    kind: Seq<char>,
    name: Seq<char>,
    i: int,
    line: Seq<char>,
) -> (r: (int, Seq<char>))
    requires
        fills(name, kind),
        0 <= i < rows.len(),
        chars_in(rows, name) <= asset_limit(kind),
        plain_in(rows, name),
        lines(words_in(rows[i].1, name)).contains(line),
        !is_heading(line),
        entry_key(trim(line)).len() > 0,
    ensures
        0 <= r.0 < all_assets(rows).len(),
        all_assets(rows)[r.0].0 == kind,
        holds(all_assets(rows)[r.0].1, r.1),
        entry_key(r.1) == entry_key(trim(line)),
{
    let words = words_in(rows[i].1, name);
    let content = asset_content(kind, rows);
    let sections = field_sections(rows, name);
    lemma_content_of_kind(rows, kind, name);
    assert(no_returns(rows[i].0) && no_returns(words));
    lemma_rows_are_lines(words, line);
    lemma_line_with_something(words, line);
    let s = lemma_section_is_there(rows, name, i);
    lemma_rows_behind("## "@ + rows[i].0, words);
    lemma_rows_in_join(sections, s);
    lemma_sections_are_plain(rows, name);
    assert(no_returns("\n\n"@)) by {
        reveal_strlit("\n\n");
    }
    lemma_no_returns_in_join(sections, "\n\n"@);
    assert(rows_of(sections[s]).contains(line));
    assert(rows_of(content).contains(line));
    lemma_rows_are_lines(content, line);
    let entry = law_every_entry_is_kept(kind, content, line);
    lemma_kinds();
    let k: int = if kind == "人物卡"@ {
        1
    } else if kind == "人物关系"@ {
        2
    } else if kind == "地点"@ {
        3
    } else {
        4
    };
    assert(all_assets(rows)[k] == (kind, compact_asset(kind, content)));
    (k, entry)
}

/// A line with something in it makes the text not blank, and is not empty.
proof fn lemma_line_with_something(s: Seq<char>, line: Seq<char>)
    requires
        rows_of(s).contains(line),
        entry_key(trim(line)).len() > 0,
    ensures
        line.len() > 0,
        !blank(s),
{
    let k = rows_of(s).index_of(line);
    law_trimmed_text_is_the_middle(line);
    let e = law_trimmed_text_is_the_middle(line);
    assert(trim(line).len() > 0);
    lemma_row_is_part(s, k);
    let at = choose|at: int| matches_at(s, line, at);
    let c = trim(line)[0];
    assert(line[e.0] == c);
    assert(s.subrange(at, at + line.len())[e.0] == line[e.0]);
    let f = law_trimmed_text_is_the_middle(s);
    if trim(s).len() == 0 {
        assert(s[at + e.0] == c);
        if at + e.0 < f.0 {
            assert(crate::text::white(s[at + e.0]));
        } else {
            assert(crate::text::white(s[at + e.0]));
        }
    }
}

proof fn lemma_row_is_part(s: Seq<char>, k: int)
    requires
        0 <= k < rows_of(s).len(),
    ensures
        holds(s, rows_of(s)[k]),
        k == rows_of(s).len() - 1 ==> matches_at(
            s,
            rows_of(s)[k],
            s.len() - rows_of(s)[k].len(),
        ),
    decreases s.len(),
{
    if s.len() == 0 {
        assert(rows_of(s) =~= seq![Seq::<char>::empty()]);
        assert(s.subrange(0, 0) =~= Seq::<char>::empty());
        assert(matches_at(s, rows_of(s)[k], 0));
    } else {
        let rest = s.drop_last();
        let init = rows_of(rest);
        lemma_rows_exist(rest);
        let all = rows_of(s);
        if k < init.len() - 1 || (k == init.len() - 1 && seq!['\n'].contains(s.last())) {
            lemma_row_is_part(rest, k);
            let at = choose|at: int| matches_at(rest, init[k], at);
            assert(s.subrange(at, at + init[k].len()) =~= rest.subrange(at, at + init[k].len()));
            assert(matches_at(s, all[k], at));
        } else if seq!['\n'].contains(s.last()) {
            assert(s.subrange(s.len() as int, s.len() as int) =~= Seq::<char>::empty());
            assert(matches_at(s, all[k], s.len() as int));
        } else {
            lemma_row_is_part(rest, init.len() - 1);
            let last = init.last();
            let at = rest.len() - last.len();
            assert(rest.subrange(at as int, rest.len() as int) =~= last);
            assert(s.subrange(at as int, s.len() as int) =~= last.push(s.last()));
            assert(matches_at(s, all[k], at as int));
        }
    }
}

proof fn lemma_same_sections(
    a: Seq<(Seq<char>, Seq<char>)>,
    b: Seq<(Seq<char>, Seq<char>)>,
    name: Seq<char>,
)
    requires
        a.len() == b.len(),
        forall|i: int|
            0 <= i < a.len() ==> (#[trigger] a[i]).0 == b[i].0 && said_in(a[i].1, name) == said_in(
                b[i].1,
                name,
            ),
    ensures
        field_sections(a, name) == field_sections(b, name),
    decreases a.len(),
{
    if a.len() > 0 {
        let x = a.drop_last();
        let y = b.drop_last();
        assert forall|i: int| 0 <= i < x.len() implies (#[trigger] x[i]).0 == y[i].0 && said_in(
            x[i].1,
            name,
        ) == said_in(y[i].1, name) by {
            assert(x[i] == a[i]);
        }
        lemma_same_sections(x, y, name);
        assert(a[a.len() - 1].0 == b[b.len() - 1].0);
    }
}

/// An asset depends on the field of its kind alone: whatever else the analyses say, analyses that
/// say the same in that field give the same asset.
pub proof fn law_asset_depends_on_its_field_alone(
    a: Seq<(Seq<char>, Seq<char>)>,
    b: Seq<(Seq<char>, Seq<char>)>,
    kind: Seq<char>,
    name: Seq<char>,
    k: int,
)
    requires
        fills(name, kind),
        a.len() == b.len(),
        forall|i: int|
            0 <= i < a.len() ==> (#[trigger] a[i]).0 == b[i].0 && said_in(a[i].1, name) == said_in(
                b[i].1,
                name,
            ),
        0 <= k < all_assets(a).len(),
        all_assets(a)[k].0 == kind,
    ensures
        all_assets(b)[k] == all_assets(a)[k],
{
    lemma_same_sections(a, b, name);
    lemma_content_of_kind(a, kind, name);
    lemma_content_of_kind(b, kind, name);
}

/// Each kind of asset is given once.
pub proof fn law_each_kind_is_given_once(rows: Seq<(Seq<char>, Seq<char>)>, kind: Seq<char>)
    requires
        kind == "AI分析汇总"@ || kind == "人物卡"@ || kind == "人物关系"@ || kind == "地点"@ || kind
            == "伏笔"@ || kind == "术语表"@,
    ensures
        exists|k: int| 0 <= k < all_assets(rows).len() && (#[trigger] all_assets(rows)[k]).0 == kind,
        forall|j: int, k: int|
            0 <= j < k < all_assets(rows).len() ==> (#[trigger] all_assets(rows)[j]).0 != (
            #[trigger] all_assets(rows)[k]).0,
{
    lemma_kinds();
    let all = all_assets(rows);
    assert(all[0].0 == "AI分析汇总"@ && all[1].0 == "人物卡"@ && all[2].0 == "人物关系"@ && all[3].0
        == "地点"@ && all[4].0 == "伏笔"@ && all[5].0 == "术语表"@);
}

// ---- the words of a value -------------------------------------------------------------------
proof fn lemma_bullets(texts: Seq<Seq<char>>, i: int) -> (k: int)
    requires
        0 <= i < texts.len(),
        !blank(texts[i]),
    ensures
        0 <= k < bullets(texts).len(),
        bullets(texts)[k] == "- "@ + texts[i],
    decreases texts.len(),
{
    let before = bullets(texts.drop_last());
    if i < texts.len() - 1 {
        let k = lemma_bullets(texts.drop_last(), i);
        assert(bullets(texts)[k] == before[k]);
        k
    } else {
        before.len() as int
    }
}

/// A list in words shows each of its items that has something in it.
pub proof fn law_list_shows_each_item(items: Seq<JsonView>, i: int)
    requires
        0 <= i < items.len(),
        !blank(value_text(items[i])),
    ensures
        holds(value_text(JsonView::List(items)), "- "@ + value_text(items[i])),
{
    let value = JsonView::List(items);
    let texts = item_texts(value);
    assert(texts[i] == value_text(items[i]));
    let k = lemma_bullets(texts, i);
    law_joined_text_holds_its_parts(bullets(texts), "\n"@, k);
}

/// A string in words is the string.
pub proof fn law_string_is_its_own_words(s: Seq<char>)
    ensures
        value_text(JsonView::Text(s)) == s,
        value_text(JsonView::Null).len() == 0,
{
}

// ---- terms and whole analyses ---------------------------------------------------------------
proof fn lemma_term_section_is_there(rows: Seq<(Seq<char>, Seq<char>)>, i: int) -> (k: int)
    requires
        0 <= i < rows.len(),
        term_section(rows[i].0, json_read(rows[i].1)) is Some,
    ensures
        0 <= k < term_sections(rows).len(),
        term_sections(rows)[k] == term_section(rows[i].0, json_read(rows[i].1))->0,
    decreases rows.len(),
{
    let rest = rows.drop_last();
    if i < rest.len() {
        let k = lemma_term_section_is_there(rest, i);
        assert(term_sections(rows)[k] == term_sections(rest)[k]);
        k
    } else {
        term_sections(rest).len() as int
    }
}

/// What a chapter says of its terms, its names, their new forms and what a rewrite has to mind is
/// taken into the asset for terms, each under its own heading, and under the title of the chapter.
pub proof fn law_terms_are_taken_up(
    rows: Seq<(Seq<char>, Seq<char>)>,
    i: int,
    name: Seq<char>,
    heading: Seq<char>,
)
    requires
        0 <= i < rows.len(),
        (name == "terms"@ && heading == "原文术语：\n"@) || (name == "names"@ && heading == "原文姓名与称谓：\n"@) || (
        name == "name_feminization_map"@ && heading == "姓名女性化映射：\n"@) || (name == "rewrite_notes"@
            && heading == "改写注意事项：\n"@),
        !blank(words_in(rows[i].1, name)),
    ensures
        holds(asset_content("术语表"@, rows), heading + words_in(rows[i].1, name)),
        holds(asset_content("术语表"@, rows), rows[i].0),
{
    law_trimmed_text_is_the_middle(Seq::<char>::empty());
    let value = json_read(rows[i].1)->Ok_0;
    let words = words_in(rows[i].1, name);
    let part = heading + words;
    assert(said_in(rows[i].1, name) is Some) by {
        if said_in(rows[i].1, name) is None {
            assert(words.len() == 0);
            assert(blank(words));
        }
    }
    let a = headed_part(value, "terms"@, "原文术语：\n"@);
    let b = headed_part(value, "names"@, "原文姓名与称谓：\n"@);
    let c = headed_part(value, "name_feminization_map"@, "姓名女性化映射：\n"@);
    let d = headed_part(value, "rewrite_notes"@, "改写注意事项：\n"@);
    let mine = headed_part(value, name, heading);
    assert(mine[0] == part);
    assert(mine.contains(part));
    lemma_sum_contains(a, b, part);
    lemma_sum_contains(a + b, c, part);
    lemma_sum_contains(a + b + c, d, part);
    let parts = term_parts(value);
    assert(parts.contains(part));
    let p = parts.index_of(part);
    law_joined_text_holds_its_parts(parts, "\n\n"@, p);
    let k = lemma_term_section_is_there(rows, i);
    let section = term_sections(rows)[k];
    let content = asset_content("术语表"@, rows);
    lemma_kinds_apart();
    assert(content == join(term_sections(rows), "\n\n"@));
    law_joined_text_holds_its_parts(term_sections(rows), "\n\n"@, k);
    let start = "## "@ + rows[i].0 + "\n"@;
    lemma_holds_end(start, join(parts, "\n\n"@));
    lemma_holds_end("## "@, rows[i].0);
    lemma_holds_more("## "@ + rows[i].0, "\n"@, rows[i].0);
    lemma_holds_more(start, join(parts, "\n\n"@), rows[i].0);
    law_holding_is_transitive(content, section, rows[i].0);
    law_holding_is_transitive(section, join(parts, "\n\n"@), part);
    law_holding_is_transitive(content, section, part);
}

proof fn lemma_kinds_apart()
    ensures
        "术语表"@ != "AI分析汇总"@,
        "术语表"@ != "人物卡"@,
        "术语表"@ != "人物关系"@,
        "术语表"@ != "地点"@,
        "术语表"@ != "伏笔"@,
{
    reveal_strlit("术语表");
    reveal_strlit("AI分析汇总");
    reveal_strlit("人物卡");
    reveal_strlit("人物关系");
    reveal_strlit("地点");
    reveal_strlit("伏笔");
    assert("术语表"@[0] == '术' && "人物卡"@[0] == '人');
    assert("术语表"@.len() == 3 && "AI分析汇总"@.len() == 6 && "人物关系"@.len() == 4 && "地点"@.len() == 2
        && "伏笔"@.len() == 2);
}

/// The summary of the analyses holds each of them as it is, under the title of its chapter.
pub proof fn law_summary_holds_every_analysis(rows: Seq<(Seq<char>, Seq<char>)>, i: int)
    requires
        0 <= i < rows.len(),
    ensures
        holds(asset_content("AI分析汇总"@, rows), "## "@ + rows[i].0 + "\n"@ + rows[i].1),
{
    law_joined_text_holds_its_parts(titled(rows), "\n\n"@, i);
}

/// How much is kept of each kind.
pub proof fn law_limits_of_the_kinds()
    ensures
        asset_limit("AI分析汇总"@) == 6_000,
        asset_limit("人物卡"@) == 7_000,
        asset_limit("人物关系"@) == 5_000,
        asset_limit("术语表"@) == 4_000,
        asset_limit("伏笔"@) == 5_000,
        asset_limit("地点"@) == 3_000,
{
    reveal_strlit("术语表");
    reveal_strlit("AI分析汇总");
    reveal_strlit("人物卡");
    reveal_strlit("人物关系");
    reveal_strlit("地点");
    reveal_strlit("伏笔");
    assert("术语表"@[0] == '术' && "人物卡"@[0] == '人' && "地点"@[0] == '地' && "伏笔"@[0] == '伏');
    assert("术语表"@.len() == 3 && "AI分析汇总"@.len() == 6 && "人物卡"@.len() == 3 && "人物关系"@.len() == 4
        && "地点"@.len() == 2 && "伏笔"@.len() == 2);
}

/// A text that is not longer than the limit of its kind is kept whole.
pub proof fn law_short_text_is_kept_whole(kind: Seq<char>, content: Seq<char>)
    requires
        content.len() <= asset_limit(kind),
    ensures
        limited(kind, content) == content,
{
}

} // verus!
