//! What is kept of the analyses of chapters: sections of their fields, without repetitions and
//! within a limit.
use vstd::prelude::*;
use crate::json::{field, json_read, outcome, read_json, Json, JsonView};
use crate::text::{
    blank, chars_of, copy_chars, is_blank, is_whitespace, holds_char, join, join_chars, join_texts,
    lemma_views_push, lines, lines_of, matches_chars, replace_all, replace_chars, same_chars,
    same_text, starts, string_of, trim, trim_chars, views, white,
};

verus! {

// ---- a field as text ------------------------------------------------------------------------
/// The texts that are not blank, each as an item of a list.
pub open spec fn bullets(texts: Seq<Seq<char>>) -> Seq<Seq<char>>
    decreases texts.len(),
{
    if texts.len() == 0 {
        Seq::empty()
    } else {
        let before = bullets(texts.drop_last());
        if blank(texts.last()) {
            before
        } else {
            before.push("- "@ + texts.last())
        }
    }
}

/// A value in words: a string as it is, a list item by item, an object printed over several
/// lines.
pub open spec fn value_text(value: JsonView) -> Seq<char>
    decreases value, 1nat,
{
    match value {
        JsonView::Null => Seq::empty(),
        JsonView::Bool(b) => if b {
            "true"@
        } else {
            "false"@
        },
        JsonView::Number { integer, text } => text,
        JsonView::Text(s) => s,
        JsonView::List(_) => join(bullets(item_texts(value)), "\n"@),
        JsonView::Fields { printed, .. } => printed,
    }
}

/// The words of each item of a list.
pub open spec fn item_texts(value: JsonView) -> Seq<Seq<char>>
    decreases value, 0nat,
{
    match value {
        JsonView::List(items) => Seq::new(
            items.len(),
            |i: int|
                if 0 <= i < items.len() {
                    value_text(items[i])
                } else {
                    Seq::empty()
                },
        ),
        _ => Seq::empty(),
    }
}

pub fn json_field_to_text(value: &Json) -> (r: String)
    ensures
        r@ == value_text(value@),
    decreases value,
{
    match value {
        Json::Null => {
            let out = String::new();
            proof {
                assert(out@ =~= Seq::<char>::empty());
            }
            out
        },
        Json::Bool(b) => if *b {
            "true".to_string()
        } else {
            "false".to_string()
        },
        Json::Number { integer, text } => text.clone(),
        Json::Text(s) => s.clone(),
        Json::List(v) => {
            let ghost items = value@->List_0;
            let ghost all = item_texts(value@);
            let mut parts: Vec<String> = Vec::new();
            let mut i: usize = 0;
            proof {
                assert(views(parts@) =~= bullets(all.take(0)));
            }
            while i < v.len()
                invariant
                    i <= v@.len(),
                    *value == Json::List(*v),
                    value@ == JsonView::List(items),
                    all == item_texts(value@),
                    all.len() == v@.len(),
                    views(parts@) == bullets(all.take(i as int)),
                decreases v@.len() - i,
            {
                proof {
                    assert(decreases_to!(*value => *v));
                    assert(decreases_to!(*v => v@[i as int]));
                    assert(items[i as int] == v@[i as int]@);
                    assert(all.take(i + 1).drop_last() =~= all.take(i as int));
                    assert(all.take(i + 1).last() == value_text(v@[i as int]@));
                }
                let text = json_field_to_text(&v[i]);
                if !is_blank(text.as_str()) {
                    let mut part = "- ".to_string();
                    part.append(text.as_str());
                    let ghost before = parts@;
                    parts.push(part);
                    proof {
                        lemma_views_push(before, parts@.last());
                    }
                }
                i += 1;
            }
            proof {
                assert(all.take(i as int) =~= all);
            }
            join_texts(parts.as_slice(), "\n")
        },
        Json::Fields { printed, .. } => printed.clone(),
    }
}

/// The section of a chapter on one field of its analysis; none where the analysis is no JSON or
/// has nothing there.
pub open spec fn field_section(
    title: Seq<char>,
    analysis: Result<JsonView, Seq<char>>,
    name: Seq<char>,
) -> Option<Seq<char>> {
    match analysis {
        Err(_) => None,
        Ok(value) => match field(value, name) {
            None => None,
            Some(f) => if blank(value_text(f)) {
                None
            } else {
                Some("## "@ + title + "\n"@ + value_text(f))
            },
        },
    }
}

pub fn field_section_of(title: &str, analysis: &Result<Json, String>, name: &str) -> (r: Option<
    String,
>)
    ensures
        match r {
            Some(s) => field_section(title@, outcome(*analysis), name@) == Some(s@),
            None => field_section(title@, outcome(*analysis), name@) is None,
        },
{
    match analysis {
        Err(_) => None,
        Ok(value) => match value.get(name) {
            None => None,
            Some(f) => {
                let text = json_field_to_text(f);
                if is_blank(text.as_str()) {
                    None
                } else {
                    let mut out = "## ".to_string();
                    out.append(title);
                    out.append("\n");
                    out.append(text.as_str());
                    Some(out)
                }
            },
        },
    }
}

/// The sections of all chapters on one field.
pub open spec fn field_sections(rows: Seq<(Seq<char>, Seq<char>)>, name: Seq<char>) -> Seq<
    Seq<char>,
>
    decreases rows.len(),
{
    if rows.len() == 0 {
        Seq::empty()
    } else {
        let before = field_sections(rows.drop_last(), name);
        match field_section(rows.last().0, json_read(rows.last().1), name) {
            Some(s) => before.push(s),
            None => before,
        }
    }
}

pub fn collect_analysis_field(rows: &[(String, String)], name: &str) -> (r: String)
    ensures
        r@ == join(field_sections(views(rows@), name@), "\n\n"@),
{
    let ghost all = views(rows@);
    let mut parts: Vec<String> = Vec::new();
    let mut i: usize = 0;
    proof {
        assert(views(parts@) =~= field_sections(all.take(0), name@));
    }
    while i < rows.len()
        invariant
            i <= rows@.len(),
            all == views(rows@),
            views(parts@) == field_sections(all.take(i as int), name@),
        decreases rows@.len() - i,
    {
        proof {
            assert(all.take(i + 1).drop_last() =~= all.take(i as int));
            assert(all.take(i + 1).last() == rows@[i as int]@);
        }
        let analysis = read_json(rows[i].1.as_str());
        if let Some(section) = field_section_of(rows[i].0.as_str(), &analysis, name) {
            let ghost before = parts@;
            parts.push(section);
            proof {
                lemma_views_push(before, parts@.last());
            }
        }
        i += 1;
    }
    proof {
        assert(all.take(i as int) =~= all);
    }
    join_texts(parts.as_slice(), "\n\n")
}

// ---- terms and names ------------------------------------------------------------------------
/// The part on one field, with a heading.
pub open spec fn headed_part(value: JsonView, name: Seq<char>, heading: Seq<char>) -> Seq<Seq<char>> {
    match field(value, name) {
        Some(f) if !blank(value_text(f)) => seq![heading + value_text(f)],
        _ => Seq::empty(),
    }
}

/// The parts on terms and names.
pub open spec fn term_parts(value: JsonView) -> Seq<Seq<char>> {
    headed_part(value, "terms"@, "原文术语：\n"@) + headed_part(value, "names"@, "原文姓名与称谓：\n"@) + headed_part(
        value,
        "name_feminization_map"@,
        "姓名女性化映射：\n"@,
    ) + headed_part(value, "rewrite_notes"@, "改写注意事项：\n"@)
}

pub open spec fn term_section(title: Seq<char>, analysis: Result<JsonView, Seq<char>>) -> Option<
    Seq<char>,
> {
    match analysis {
        Err(_) => None,
        Ok(value) => if term_parts(value).len() == 0 {
            None
        } else {
            Some("## "@ + title + "\n"@ + join(term_parts(value), "\n\n"@))
        },
    }
}

fn add_headed_part(parts: &mut Vec<String>, value: &Json, name: &str, heading: &str)
    ensures
        views(final(parts)@) == views(old(parts)@) + headed_part(value@, name@, heading@),
{
    let ghost before = parts@;
    if let Some(f) = value.get(name) {
        let text = json_field_to_text(f);
        if !is_blank(text.as_str()) {
            let mut part = heading.to_string();
            part.append(text.as_str());
            parts.push(part);
            proof {
                lemma_views_push(before, parts@.last());
                assert(views(parts@) =~= views(before) + headed_part(value@, name@, heading@));
            }
            return;
        }
    }
    proof {
        assert(views(before) + headed_part(value@, name@, heading@) =~= views(before));
    }
}

pub fn term_section_of(title: &str, analysis: &Result<Json, String>) -> (r: Option<String>)
    ensures
        match r {
            Some(s) => term_section(title@, outcome(*analysis)) == Some(s@),
            None => term_section(title@, outcome(*analysis)) is None,
        },
{
    match analysis {
        Err(_) => None,
        Ok(value) => {
            let mut parts: Vec<String> = Vec::new();
            add_headed_part(&mut parts, value, "terms", "原文术语：\n");
            add_headed_part(&mut parts, value, "names", "原文姓名与称谓：\n");
            add_headed_part(&mut parts, value, "name_feminization_map", "姓名女性化映射：\n");
            add_headed_part(&mut parts, value, "rewrite_notes", "改写注意事项：\n");
            proof {
                assert(views(parts@) =~= term_parts(value@));
            }
            if parts.len() == 0 {
                return None;
            }
            let body = join_texts(parts.as_slice(), "\n\n");
            let mut out = "## ".to_string();
            out.append(title);
            out.append("\n");
            out.append(body.as_str());
            Some(out)
        },
    }
}

/// The sections of all chapters on terms and names.
pub open spec fn term_sections(rows: Seq<(Seq<char>, Seq<char>)>) -> Seq<Seq<char>>
    decreases rows.len(),
{
    if rows.len() == 0 {
        Seq::empty()
    } else {
        let before = term_sections(rows.drop_last());
        match term_section(rows.last().0, json_read(rows.last().1)) {
            Some(s) => before.push(s),
            None => before,
        }
    }
}

pub fn collect_analysis_terms(rows: &[(String, String)]) -> (r: String)
    ensures
        r@ == join(term_sections(views(rows@)), "\n\n"@),
{
    let ghost all = views(rows@);
    let mut parts: Vec<String> = Vec::new();
    let mut i: usize = 0;
    proof {
        assert(views(parts@) =~= term_sections(all.take(0)));
    }
    while i < rows.len()
        invariant
            i <= rows@.len(),
            all == views(rows@),
            views(parts@) == term_sections(all.take(i as int)),
        decreases rows@.len() - i,
    {
        proof {
            assert(all.take(i + 1).drop_last() =~= all.take(i as int));
            assert(all.take(i + 1).last() == rows@[i as int]@);
        }
        let analysis = read_json(rows[i].1.as_str());
        if let Some(section) = term_section_of(rows[i].0.as_str(), &analysis) {
            let ghost before = parts@;
            parts.push(section);
            proof {
                lemma_views_push(before, parts@.last());
            }
        }
        i += 1;
    }
    proof {
        assert(all.take(i as int) =~= all);
    }
    join_texts(parts.as_slice(), "\n\n")
}

// ---- without repetitions --------------------------------------------------------------------
/// Marks that count for nothing where entries are compared.
pub open spec fn entry_marks() -> Seq<char> {
    seq!['-', '，', ',', '。', '.', '；', ';', '：', ':', '、']
}

/// An entry without white space and marks.
pub open spec fn entry_key(text: Seq<char>) -> Seq<char>
    decreases text.len(),
{
    if text.len() == 0 {
        Seq::empty()
    } else {
        let before = entry_key(text.drop_last());
        if white(text.last()) || entry_marks().contains(text.last()) {
            before
        } else {
            before.push(text.last())
        }
    }
}

fn entry_key_of(text: &[char]) -> (r: Vec<char>)
    ensures
        r@ == entry_key(text@),
{
    let marks: [char; 10] = ['-', '，', ',', '。', '.', '；', ';', '：', ':', '、'];
    proof {
        assert(marks@ =~= entry_marks());
    }
    let ghost all = text@;
    let mut out: Vec<char> = Vec::new();
    let mut i: usize = 0;
    while i < text.len()
        invariant
            i <= text@.len(),
            all == text@,
            marks@ == entry_marks(),
            out@ == entry_key(all.take(i as int)),
        decreases text@.len() - i,
    {
        proof {
            assert(all.take(i + 1).drop_last() =~= all.take(i as int));
        }
        let c = text[i];
        if !is_whitespace(c) && !holds_char(&marks, c) {
            out.push(c);
        }
        i += 1;
    }
    proof {
        assert(all.take(i as int) =~= all);
    }
    out
}

pub fn normalize_analysis_entry(text: &str) -> (r: String)
    ensures
        r@ == entry_key(text@),
{
    let all = chars_of(text);
    let key = entry_key_of(all.as_slice());
    string_of(key.as_slice())
}

/// Whether a line is a heading.
pub open spec fn is_heading(row: Seq<char>) -> bool {
    starts(trim(row), "## "@)
}

/// Whether a line is an entry with a key.
pub open spec fn is_entry(row: Seq<char>, key: Seq<char>) -> bool {
    trim(row).len() > 0 && !is_heading(row) && entry_key(trim(row)) == key
}

/// Whether an earlier line is an entry with the same key.
pub open spec fn key_seen(rows: Seq<Seq<char>>, key: Seq<char>) -> bool {
    exists|i: int| 0 <= i < rows.len() && is_entry(#[trigger] rows[i], key)
}

/// The lines that stay: headings, and of the entries with one key the first.
pub open spec fn distinct_rows(rows: Seq<Seq<char>>) -> Seq<Seq<char>>
    decreases rows.len(),
{
    if rows.len() == 0 {
        Seq::empty()
    } else {
        let earlier = rows.drop_last();
        let before = distinct_rows(earlier);
        let row = trim(rows.last());
        if row.len() == 0 {
            before
        } else if is_heading(rows.last()) {
            before.push(row)
        } else if entry_key(row).len() == 0 || key_seen(earlier, entry_key(row)) {
            before
        } else {
            before.push(row)
        }
    }
}

/// The text with one kind of line end.
pub open spec fn unix_lines(content: Seq<char>) -> Seq<char> {
    replace_all(replace_all(content, "\r\n"@, "\n"@), "\r"@, "\n"@)
}

/// How long what is kept of a kind may be.
pub open spec fn asset_limit(kind: Seq<char>) -> int {
    if kind == "AI分析汇总"@ {
        6_000
    } else if kind == "人物卡"@ {
        7_000
    } else if kind == "人物关系"@ {
        5_000
    } else if kind == "术语表"@ {
        4_000
    } else if kind == "伏笔"@ {
        5_000
    } else {
        3_000
    }
}

pub fn analysis_asset_char_limit(kind: &str) -> (r: usize)
    ensures
        r == asset_limit(kind@),
{
    if same_text(kind, "AI分析汇总") {
        6_000
    } else if same_text(kind, "人物卡") {
        7_000
    } else if same_text(kind, "人物关系") {
        5_000
    } else if same_text(kind, "术语表") {
        4_000
    } else if same_text(kind, "伏笔") {
        5_000
    } else {
        3_000
    }
}

/// The note that something was left out.
pub open spec fn limit_note(kind: Seq<char>) -> Seq<char> {
    "["@ + kind + "已去重并达到长度上限，后续低相关条目已省略]"@
}

/// A text with one more line.
pub open spec fn with_line(out: Seq<char>, row: Seq<char>) -> Seq<char> {
    if out.len() == 0 {
        row
    } else {
        out.push('\n') + row
    }
}

/// A text with as many of the lines behind it as leave room for a note.
pub open spec fn fitting_lines(
    out: Seq<char>,
    rows: Seq<Seq<char>>,
    note_len: int,
    limit: int,
) -> Seq<char>
    decreases rows.len(),
{
    if rows.len() == 0 || with_line(out, rows[0]).len() + 1 + note_len > limit {
        out
    } else {
        fitting_lines(with_line(out, rows[0]), rows.skip(1), note_len, limit)
    }
}

/// The text, or as many of its lines as fit with the note behind them.
pub open spec fn limited(kind: Seq<char>, content: Seq<char>) -> Seq<char> {
    let note = limit_note(kind);
    if content.len() <= asset_limit(kind) {
        content
    } else {
        with_line(
            fitting_lines(Seq::empty(), lines(content), note.len() as int, asset_limit(kind)),
            note,
        )
    }
}

fn add_line(out: &mut Vec<char>, row: &[char])
    ensures
        final(out)@ == with_line(old(out)@, row@),
{
    if out.len() > 0 {
        out.push('\n');
        crate::text::append_chars(out, row);
    } else {
        crate::text::append_chars(out, row);
        proof {
            assert(old(out)@ + row@ =~= row@);
        }
    }
}

fn limit_note_of(kind: &str) -> (r: Vec<char>)
    ensures
        r@ == limit_note(kind@),
{
    let mut note = "[".to_string();
    note.append(kind);
    note.append("已去重并达到长度上限，后续低相关条目已省略]");
    chars_of(note.as_str())
}

fn limit_chars(kind: &str, content: &[char]) -> (r: Vec<char>)
    ensures
        r@ == limited(kind@, content@),
{
    let limit = analysis_asset_char_limit(kind);
    if content.len() <= limit {
        return copy_chars(content);
    }
    let note = limit_note_of(kind);
    let rows = lines_of(content);
    let ghost all = views(rows@);
    let mut out: Vec<char> = Vec::new();
    let mut i: usize = 0;
    proof {
        assert(all.skip(0) =~= all);
        assert(out@ =~= Seq::<char>::empty());
    }
    while i < rows.len()
        invariant
            i <= rows@.len(),
            all == views(rows@),
            limit == asset_limit(kind@),
            out@.len() <= limit,
            fitting_lines(Seq::empty(), all, note@.len() as int, limit as int) == fitting_lines(
                out@,
                all.skip(i as int),
                note@.len() as int,
                limit as int,
            ),
        ensures
            fitting_lines(Seq::empty(), all, note@.len() as int, limit as int) == out@,
        decreases rows@.len() - i,
    {
        let row = &rows[i];
        proof {
            assert(all.skip(i as int)[0] == row@);
            assert(all.skip(i as int).skip(1) =~= all.skip(i + 1));
        }
        let line_end: usize = if out.len() > 0 {
            1
        } else {
            0
        };
        if row.len() > limit || note.len() > limit || out.len() + line_end + row.len() + 1
            + note.len() > limit {
            break;
        }
        add_line(&mut out, row.as_slice());
        i += 1;
    }
    add_line(&mut out, note.as_slice());
    out
}

pub fn truncate_analysis_asset_at_line(kind: &str, content: &str) -> (r: String)
    ensures
        r@ == limited(kind@, content@),
{
    let all = chars_of(content);
    let kept = limit_chars(kind, all.as_slice());
    string_of(kept.as_slice())
}

/// What is kept of a kind: the lines that stay, within the limit.
pub open spec fn compact_asset(kind: Seq<char>, content: Seq<char>) -> Seq<char> {
    limited(kind, join(distinct_rows(lines(unix_lines(content))), "\n"@))
}

fn holds_key(keys: &[Vec<char>], key: &[char]) -> (r: bool)
    ensures
        r == views(keys@).contains(key@),
{
    let mut i: usize = 0;
    while i < keys.len()
        invariant
            i <= keys@.len(),
            forall|k: int| 0 <= k < i ==> #[trigger] views(keys@)[k] != key@,
        decreases keys@.len() - i,
    {
        if same_chars(keys[i].as_slice(), key) {
            proof {
                assert(views(keys@)[i as int] == key@);
            }
            return true;
        }
        i += 1;
    }
    false
}

pub fn compact_analysis_asset(kind: &str, content: &str) -> (r: String)
    ensures
        r@ == compact_asset(kind@, content@),
{
    let text = chars_of(content);
    let crlf = chars_of("\r\n");
    let cr = chars_of("\r");
    let lf = chars_of("\n");
    let text = replace_chars(text.as_slice(), crlf.as_slice(), lf.as_slice());
    let text = replace_chars(text.as_slice(), cr.as_slice(), lf.as_slice());
    let rows = lines_of(text.as_slice());
    let mark = chars_of("## ");
    let ghost all = views(rows@);
    let mut kept: Vec<Vec<char>> = Vec::new();
    let mut keys: Vec<Vec<char>> = Vec::new();
    let mut i: usize = 0;
    proof {
        assert(views(kept@) =~= distinct_rows(all.take(0)));
    }
    while i < rows.len()
        invariant
            i <= rows@.len(),
            all == views(rows@),
            mark@ == "## "@,
            views(kept@) == distinct_rows(all.take(i as int)),
            forall|key: Seq<char>|
                key.len() > 0 ==> (#[trigger] views(keys@).contains(key) <==> key_seen(
                    all.take(i as int),
                    key,
                )),
        decreases rows@.len() - i,
    {
        let ghost earlier = all.take(i as int);
        let ghost now = all.take(i + 1);
        let ghost raw = rows@[i as int]@;
        let ghost keys_before = keys@;
        proof {
            assert(now.drop_last() =~= earlier);
            assert(now.last() == raw);
            assert forall|key: Seq<char>| key_seen(now, key) <==> (key_seen(earlier, key)
                || is_entry(raw, key)) by {
                if key_seen(earlier, key) {
                    let k = choose|k: int| 0 <= k < earlier.len() && is_entry(
                        #[trigger] earlier[k],
                        key,
                    );
                    assert(now[k] == earlier[k]);
                }
                if is_entry(raw, key) {
                    assert(now[i as int] == raw);
                }
                if key_seen(now, key) {
                    let k = choose|k: int| 0 <= k < now.len() && is_entry(#[trigger] now[k], key);
                    if k < i {
                        assert(earlier[k] == now[k]);
                    }
                }
            }
        }
        let row = trim_chars(rows[i].as_slice());
        if row.len() > 0 {
            let heading = matches_chars(row, mark.as_slice(), 0);
            let ghost kept_before = kept@;
            if heading {
                kept.push(copy_chars(row));
                proof {
                    lemma_views_push(kept_before, kept@.last());
                }
            } else {
                let key = entry_key_of(row);
                let ghost key_text = key@;
                if key.len() > 0 && !holds_key(keys.as_slice(), key.as_slice()) {
                    kept.push(copy_chars(row));
                    keys.push(key);
                    proof {
                        lemma_views_push(kept_before, kept@.last());
                        lemma_views_push(keys_before, keys@.last());
                        assert forall|x: Seq<char>| x.len() > 0 implies (#[trigger] views(
                            keys@,
                        ).contains(x) <==> key_seen(now, x)) by {
                            if views(keys_before).contains(x) {
                                let k = views(keys_before).index_of(x);
                                assert(views(keys@)[k] == x);
                            }
                            if x == key_text {
                                assert(views(keys@)[keys_before.len() as int] == x);
                            }
                            assert(views(keys@).contains(x) <==> (views(keys_before).contains(x)
                                || x == key_text));
                            assert(views(keys_before).contains(x) <==> key_seen(earlier, x));
                        }
                    }
                }
            }
        }
        i += 1;
    }
    proof {
        assert(all.take(i as int) =~= all);
    }
    let joined = join_chars(kept.as_slice(), lf.as_slice());
    let out = limit_chars(kind, joined.as_slice());
    string_of(out.as_slice())
}

/// All analyses one behind the other, each under the title of its chapter.
pub open spec fn titled(rows: Seq<(Seq<char>, Seq<char>)>) -> Seq<Seq<char>> {
    Seq::new(rows.len(), |i: int| "## "@ + rows[i].0 + "\n"@ + rows[i].1)
}

fn join_titled(rows: &[(String, String)]) -> (r: String)
    ensures
        r@ == join(titled(views(rows@)), "\n\n"@),
{
    let ghost goal = titled(views(rows@));
    let mut parts: Vec<String> = Vec::new();
    let mut i: usize = 0;
    while i < rows.len()
        invariant
            i <= rows@.len(),
            goal == titled(views(rows@)),
            views(parts@) == goal.take(i as int),
        decreases rows@.len() - i,
    {
        let mut part = "## ".to_string();
        part.append(rows[i].0.as_str());
        part.append("\n");
        part.append(rows[i].1.as_str());
        let ghost before = parts@;
        parts.push(part);
        proof {
            lemma_views_push(before, parts@.last());
            assert(views(rows@)[i as int] == rows@[i as int]@);
            assert(views(parts@) =~= goal.take(i + 1));
        }
        i += 1;
    }
    proof {
        assert(goal.take(i as int) =~= goal);
    }
    join_texts(parts.as_slice(), "\n\n")
}

/// What of the analyses fills one kind of asset.
pub open spec fn asset_content(kind: Seq<char>, rows: Seq<(Seq<char>, Seq<char>)>) -> Seq<char> {
    if kind == "AI分析汇总"@ {
        join(titled(rows), "\n\n"@)
    } else if kind == "人物卡"@ {
        join(field_sections(rows, "characters"@), "\n\n"@)
    } else if kind == "人物关系"@ {
        join(field_sections(rows, "relationships"@), "\n\n"@)
    } else if kind == "地点"@ {
        join(field_sections(rows, "locations"@), "\n\n"@)
    } else if kind == "伏笔"@ {
        join(field_sections(rows, "foreshadowing"@), "\n\n"@)
    } else {
        join(term_sections(rows), "\n\n"@)
    }
}

/// An asset and what it holds.
pub type AssetView = (Seq<char>, Seq<char>);

/// The kinds of assets that analyses fill.
pub open spec fn asset_kinds() -> Seq<Seq<char>> {
    seq!["AI分析汇总"@, "人物卡"@, "人物关系"@, "地点"@, "伏笔"@, "术语表"@]
}

/// What the analyses give for each kind of asset.
pub open spec fn all_assets(rows: Seq<(Seq<char>, Seq<char>)>) -> Seq<AssetView> {
    Seq::new(
        asset_kinds().len(),
        |i: int|
            (asset_kinds()[i], compact_asset(asset_kinds()[i], asset_content(asset_kinds()[i], rows))),
    )
}

/// The assets that hold something.
pub open spec fn with_content() -> spec_fn(AssetView) -> bool {
    |a: AssetView| !blank(a.1)
}

fn asset_content_of(kind: &str, rows: &[(String, String)]) -> (r: String)
    ensures
        r@ == asset_content(kind@, views(rows@)),
{
    if same_text(kind, "AI分析汇总") {
        join_titled(rows)
    } else if same_text(kind, "人物卡") {
        collect_analysis_field(rows, "characters")
    } else if same_text(kind, "人物关系") {
        collect_analysis_field(rows, "relationships")
    } else if same_text(kind, "地点") {
        collect_analysis_field(rows, "locations")
    } else if same_text(kind, "伏笔") {
        collect_analysis_field(rows, "foreshadowing")
    } else {
        collect_analysis_terms(rows)
    }
}

/// The assets that the analyses of a novel give.
pub fn assets_from_analyses(rows: &[(String, String)]) -> (r: Vec<(String, String)>)
    ensures
        views(r@) == all_assets(views(rows@)),
{
    let kinds: Vec<&str> = vec!["AI分析汇总", "人物卡", "人物关系", "地点", "伏笔", "术语表"];
    let ghost goal = all_assets(views(rows@));
    proof {
        assert(views(kinds@) =~= asset_kinds());
    }
    let mut out: Vec<(String, String)> = Vec::new();
    let mut i: usize = 0;
    while i < kinds.len()
        invariant
            i <= kinds@.len(),
            views(kinds@) == asset_kinds(),
            goal == all_assets(views(rows@)),
            views(out@) == goal.take(i as int),
        decreases kinds@.len() - i,
    {
        let content = asset_content_of(kinds[i], rows);
        let content = compact_analysis_asset(kinds[i], content.as_str());
        let ghost before = out@;
        out.push((kinds[i].to_string(), content));
        proof {
            lemma_views_push(before, out@.last());
            assert(asset_kinds()[i as int] == kinds@[i as int]@);
            assert(views(out@) =~= goal.take(i + 1));
        }
        i += 1;
    }
    proof {
        assert(goal.take(i as int) =~= goal);
    }
    out
}

/// The assets that analyses can fill where nothing is kept yet: those that hold something; without
/// analyses there are none.
pub fn assets_to_fill(rows: &[(String, String)]) -> (r: Vec<(String, String)>)
    ensures
        views(r@) == if rows@.len() == 0 {
            Seq::empty()
        } else {
            all_assets(views(rows@)).filter(with_content())
        },
{
    let mut out: Vec<(String, String)> = Vec::new();
    proof {
        assert(views(out@) =~= Seq::<AssetView>::empty());
    }
    if rows.len() == 0 {
        return out;
    }
    let assets = assets_from_analyses(rows);
    let ghost all = views(assets@);
    let mut i: usize = 0;
    proof {
        reveal(Seq::filter);
        assert(views(out@) =~= all.take(0).filter(with_content()));
    }
    while i < assets.len()
        invariant
            i <= assets@.len(),
            all == views(assets@),
            views(out@) == all.take(i as int).filter(with_content()),
        decreases assets@.len() - i,
    {
        proof {
            reveal(Seq::filter);
            assert(all.take(i + 1).drop_last() =~= all.take(i as int));
            assert(all.take(i + 1).last() == assets@[i as int]@);
        }
        if !is_blank(assets[i].1.as_str()) {
            let ghost before = out@;
            out.push((assets[i].0.clone(), assets[i].1.clone()));
            proof {
                lemma_views_push(before, out@.last());
            }
        }
        i += 1;
    }
    proof {
        assert(all.take(i as int) =~= all);
    }
    out
}

// ---- laws -----------------------------------------------------------------------------------
proof fn lemma_fitting_is_short(
    out: Seq<char>,
    rows: Seq<Seq<char>>,
    note_len: int,
    limit: int,
)
    requires
        0 <= note_len,
        out.len() == 0 || out.len() + 1 + note_len <= limit,
    ensures
        ({
            let kept = fitting_lines(out, rows, note_len, limit);
            kept.len() == 0 || kept.len() + 1 + note_len <= limit
        }),
    decreases rows.len(),
{
    if !(rows.len() == 0 || with_line(out, rows[0]).len() + 1 + note_len > limit) {
        lemma_fitting_is_short(with_line(out, rows[0]), rows.skip(1), note_len, limit);
    }
}

/// What is kept of a kind is never longer than the limit of that kind. The note alone has to be
/// within the limit, as it is for every kind that analyses give.
pub proof fn law_kept_text_is_limited(kind: Seq<char>, content: Seq<char>)
    requires
        limit_note(kind).len() <= asset_limit(kind),
    ensures
        limited(kind, content).len() <= asset_limit(kind),
{
    if content.len() > asset_limit(kind) {
        lemma_fitting_is_short(
            Seq::empty(),
            lines(content),
            limit_note(kind).len() as int,
            asset_limit(kind),
        );
    }
}

/// The note is within the limit for every kind that analyses give.
pub proof fn law_note_is_within_the_limit(kind: Seq<char>)
    requires
        asset_kinds().contains(kind),
    ensures
        limit_note(kind).len() <= asset_limit(kind),
{
    reveal_strlit("[");
    reveal_strlit("已去重并达到长度上限，后续低相关条目已省略]");
    reveal_strlit("AI分析汇总");
    reveal_strlit("人物卡");
    reveal_strlit("人物关系");
    reveal_strlit("地点");
    reveal_strlit("伏笔");
    reveal_strlit("术语表");
}

/// Lines one below the other.
pub open spec fn lines_together(rows: Seq<Seq<char>>) -> Seq<char>
    decreases rows.len(),
{
    if rows.len() == 0 {
        Seq::empty()
    } else {
        with_line(lines_together(rows.drop_last()), rows.last())
    }
}

proof fn lemma_fitting_are_the_first(
    all: Seq<Seq<char>>,
    n: int,
    note_len: int,
    limit: int,
) -> (kept: int)
    requires
        0 <= n <= all.len(),
    ensures
        0 <= kept <= all.len(),
        fitting_lines(lines_together(all.take(n)), all.skip(n), note_len, limit) == lines_together(
            all.take(kept),
        ),
    decreases all.len() - n,
{
    let out = lines_together(all.take(n));
    let rows = all.skip(n);
    if rows.len() == 0 || with_line(out, rows[0]).len() + 1 + note_len > limit {
        n
    } else {
        assert(all.take(n + 1).drop_last() =~= all.take(n));
        assert(rows.skip(1) =~= all.skip(n + 1));
        lemma_fitting_are_the_first(all, n + 1, note_len, limit)
    }
}

/// Of a text that is too long the first lines are kept, with the note below them.
pub proof fn law_first_lines_are_kept(kind: Seq<char>, content: Seq<char>) -> (kept: int)
    requires
        content.len() > asset_limit(kind),
    ensures
        0 <= kept <= lines(content).len(),
        limited(kind, content) == with_line(
            lines_together(lines(content).take(kept)),
            limit_note(kind),
        ),
{
    let all = lines(content);
    assert(all.skip(0) =~= all);
    assert(lines_together(all.take(0)) =~= Seq::empty());
    lemma_fitting_are_the_first(all, 0, limit_note(kind).len() as int, asset_limit(kind))
}

/// Of the entries that say the same, one is kept.
pub open spec fn entries_differ(rows: Seq<Seq<char>>) -> bool {
    forall|i: int, j: int|
        0 <= i < j < rows.len() && !starts(#[trigger] rows[i], "## "@) && !starts(
            #[trigger] rows[j],
            "## "@,
        ) ==> entry_key(rows[i]) != entry_key(rows[j])
}

proof fn lemma_kept_are_seen(rows: Seq<Seq<char>>, i: int)
    requires
        0 <= i < distinct_rows(rows).len(),
        !starts(distinct_rows(rows)[i], "## "@),
    ensures
        key_seen(rows, entry_key(distinct_rows(rows)[i])),
    decreases rows.len(),
{
    let earlier = rows.drop_last();
    let before = distinct_rows(earlier);
    if i < before.len() {
        lemma_kept_are_seen(earlier, i);
        let key = entry_key(before[i]);
        let k = choose|k: int| 0 <= k < earlier.len() && is_entry(#[trigger] earlier[k], key);
        assert(rows[k] == earlier[k]);
    } else {
        assert(is_entry(rows[rows.len() - 1], entry_key(trim(rows.last()))));
    }
}

/// No two entries that stay say the same.
pub proof fn law_kept_entries_differ(rows: Seq<Seq<char>>)
    ensures
        entries_differ(distinct_rows(rows)),
    decreases rows.len(),
{
    if rows.len() > 0 {
        let earlier = rows.drop_last();
        law_kept_entries_differ(earlier);
        let before = distinct_rows(earlier);
        let after = distinct_rows(rows);
        assert forall|i: int, j: int|
            0 <= i < j < after.len() && !starts(#[trigger] after[i], "## "@) && !starts(
                #[trigger] after[j],
                "## "@,
            ) implies entry_key(after[i]) != entry_key(after[j]) by {
            assert(after[i] == before[i]);
            if j < before.len() {
                assert(after[j] == before[j]);
            } else {
                lemma_kept_are_seen(earlier, i);
            }
        }
    }
}

} // verus!
