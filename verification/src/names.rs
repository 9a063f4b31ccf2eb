//! The names that a rewrite changes: which ones the user asks for, what they are mapped to, and
//! the mapping that is kept with the novel.
use vstd::prelude::*;
use vstd::slice::slice_subrange;
use crate::domain::{opt_text, Duplicate, NameMappingEntry, NameMappingEntryView, NovelSettings,
    NovelSettingsView};
use crate::json::{field, jsonish, list_field, parse_jsonish_value, Json, JsonView};
use crate::text::{
    blank, chars_of, find_chars, find_from, holds_text, is_blank, join, join_texts, lemma_find_from,
    lemma_lex_transitive, lemma_lex_trichotomy, lemma_not_blank, lemma_trim, lemma_views_push,
    lex_less, lex_less_chars, lines, lines_of, same_chars, same_text, split_chars, split_on,
    string_of, trim, trim_chars, trimmed, views, white,
};

verus! {

// ---- entries of the settings ----------------------------------------------------------------
/// A name and, where one is given, the name it is changed to.
pub type Wish = (Seq<char>, Option<Seq<char>>);

pub open spec fn wish(e: (String, Option<String>)) -> Wish {
    (e.0@, opt_text(e.1))
}

pub open spec fn wishes(s: Seq<(String, Option<String>)>) -> Seq<Wish> {
    Seq::new(s.len(), |i: int| wish(s[i]))
}

/// The arrows that separate a name from the name it is changed to.
pub open spec fn arrows() -> Seq<Seq<char>> {
    seq!["->"@, "=>"@, "→"@]
}

/// What the parts around an arrow say. No name on the left makes the entry void; a name on the
/// right counts only where it differs from that on the left.
pub open spec fn arrow_wish(left: Seq<char>, right: Seq<char>) -> Option<Wish> {
    let source = trim(left);
    let target = trim(right);
    if source.len() == 0 {
        None
    } else if target.len() == 0 || target == source {
        Some((source, None))
    } else {
        Some((source, Some(target)))
    }
}

/// What a trimmed entry says, where the arrows before the `k`-th do not occur in it.
pub open spec fn wish_from(value: Seq<char>, k: int) -> Option<Wish>
    decreases arrows().len() - k,
{
    if k < 0 || k >= arrows().len() {
        Some((value, None))
    } else {
        match find_from(value, arrows()[k], 0) {
            Some(at) => arrow_wish(value.take(at), value.skip(at + arrows()[k].len())),
            None => wish_from(value, k + 1),
        }
    }
}

/// What an entry of the settings says.
pub open spec fn entry_wish(input: Seq<char>) -> Option<Wish> {
    if blank(input) {
        None
    } else {
        wish_from(trim(input), 0)
    }
}

pub fn parse_additional_feminize_name_entry(input: &str) -> (r: Option<(String, Option<String>)>)
    ensures
        match r {
            Some(e) => entry_wish(input@) == Some(wish(e)),
            None => entry_wish(input@) is None,
        },
{
    let all = chars_of(input);
    parse_entry_chars(all.as_slice())
}

fn parse_entry_chars(input: &[char]) -> (r: Option<(String, Option<String>)>)
    ensures
        match r {
            Some(e) => entry_wish(input@) == Some(wish(e)),
            None => entry_wish(input@) is None,
        },
{
    let value = trim_chars(input);
    if value.len() == 0 {
        return None;
    }
    let marks: Vec<&str> = vec!["->", "=>", "→"];
    proof {
        assert(views(marks@) =~= arrows());
    }
    let mut k: usize = 0;
    while k < marks.len()
        invariant
            k <= marks@.len(),
            views(marks@) == arrows(),
            value@ == trim(input@),
            value@.len() > 0,
            entry_wish(input@) == wish_from(value@, k as int),
        decreases marks@.len() - k,
    {
        let mark = chars_of(marks[k]);
        proof {
            assert(mark@ == arrows()[k as int]);
            lemma_find_from(value@, mark@, 0);
        }
        if let Some(at) = find_chars(value, mark.as_slice(), 0) {
            proof {
                assert(value@.subrange(0, at as int) =~= value@.take(at as int));
                assert(value@.subrange(at + mark@.len(), value@.len() as int) =~= value@.skip(
                    at + mark@.len(),
                ));
                assert(at + mark@.len() <= value@.len());
            }
            let end = value.len();
            let source = trim_chars(slice_subrange(value, 0, at));
            let target = trim_chars(slice_subrange(value, at + mark.len(), end));
            if source.len() == 0 {
                return None;
            }
            if target.len() == 0 || same_chars(target, source) {
                return Some((string_of(source), None));
            }
            return Some((string_of(source), Some(string_of(target))));
        }
        k += 1;
    }
    Some((string_of(value), None))
}

/// The characters that separate the entries.
pub open spec fn entry_separators() -> Seq<char> {
    seq!['\n', '\r', ',', '，', '、', ';', '；']
}

/// The position of the entry for a name.
pub open spec fn wish_position(entries: Seq<Wish>, source: Seq<char>, i: int) -> Option<int>
    decreases entries.len() - i,
{
    if i < 0 || i >= entries.len() {
        None
    } else if entries[i].0 == source {
        Some(i)
    } else {
        wish_position(entries, source, i + 1)
    }
}

/// Takes in one more entry: a name stands once, at its first place, with the first name given
/// for it.
pub open spec fn add_wish(entries: Seq<Wish>, w: Wish) -> Seq<Wish> {
    match wish_position(entries, w.0, 0) {
        Some(k) => if entries[k].1 is None {
            entries.update(k, w)
        } else {
            entries
        },
        None => entries.push(w),
    }
}

pub open spec fn collect_wishes(parts: Seq<Seq<char>>) -> Seq<Wish>
    decreases parts.len(),
{
    if parts.len() == 0 {
        Seq::empty()
    } else {
        let before = collect_wishes(parts.drop_last());
        match entry_wish(parts.last()) {
            Some(w) => add_wish(before, w),
            None => before,
        }
    }
}

/// What the user's text asks for, each name once.
pub open spec fn wishes_of(input: Seq<char>) -> Seq<Wish> {
    collect_wishes(split_on(input, entry_separators()))
}

pub open spec fn wish_text(w: Wish) -> Seq<char> {
    match w.1 {
        Some(target) => w.0 + " -> "@ + target,
        None => w.0,
    }
}

/// The entries one per line.
pub open spec fn normal_form(input: Seq<char>) -> Seq<char> {
    let entries = wishes_of(input);
    join(Seq::new(entries.len(), |i: int| wish_text(entries[i])), "\n"@)
}

fn find_wish(entries: &[(String, Option<String>)], source: &str) -> (r: Option<usize>)
    ensures
        match r {
            Some(k) => k < entries@.len() && wish_position(wishes(entries@), source@, 0) == Some(
                k as int,
            ),
            None => wish_position(wishes(entries@), source@, 0) is None,
        },
{
    let ghost all = wishes(entries@);
    let mut i: usize = 0;
    while i < entries.len()
        invariant
            i <= entries@.len(),
            all == wishes(entries@),
            wish_position(all, source@, 0) == wish_position(all, source@, i as int),
        decreases entries@.len() - i,
    {
        proof {
            assert(all[i as int] == wish(entries@[i as int]));
        }
        if same_text(entries[i].0.as_str(), source) {
            return Some(i);
        }
        i += 1;
    }
    None
}

fn collect_entries(input: &str) -> (r: Vec<(String, Option<String>)>)
    ensures
        wishes(r@) == wishes_of(input@),
{
    let all = chars_of(input);
    let marks: [char; 7] = ['\n', '\r', ',', '，', '、', ';', '；'];
    let parts = split_chars(all.as_slice(), &marks);
    let ghost pieces = views(parts@);
    proof {
        assert(marks@ =~= entry_separators());
    }
    let mut entries: Vec<(String, Option<String>)> = Vec::new();
    let mut i: usize = 0;
    proof {
        assert(wishes(entries@) =~= collect_wishes(pieces.take(0)));
    }
    while i < parts.len()
        invariant
            i <= parts@.len(),
            pieces == views(parts@),
            wishes(entries@) == collect_wishes(pieces.take(i as int)),
        decreases parts@.len() - i,
    {
        proof {
            assert(pieces.take(i + 1).drop_last() =~= pieces.take(i as int));
            assert(pieces.take(i + 1).last() == parts@[i as int]@);
        }
        if let Some(entry) = parse_entry_chars(parts[i].as_slice()) {
            let ghost before = wishes(entries@);
            let ghost w = wish(entry);
            match find_wish(entries.as_slice(), entry.0.as_str()) {
                Some(k) => {
                    if entries[k].1.is_none() {
                        proof {
                            assert(before[k as int].1 is None);
                        }
                        let ghost old_entries = entries@;
                        entries.set(k, entry);
                        proof {
                            assert(wishes(entries@) =~= before.update(k as int, w));
                        }
                    } else {
                        proof {
                            assert(before[k as int].1 is Some);
                        }
                    }
                },
                None => {
                    entries.push(entry);
                    proof {
                        assert(wishes(entries@) =~= before.push(w));
                    }
                },
            }
        }
        i += 1;
    }
    proof {
        assert(pieces.take(i as int) =~= pieces);
    }
    entries
}

pub fn normalize_additional_feminize_names(input: &str) -> (r: String)
    ensures
        r@ == normal_form(input@),
{
    let entries = collect_entries(input);
    let ghost all = wishes(entries@);
    let mut rows: Vec<String> = Vec::new();
    let mut i: usize = 0;
    while i < entries.len()
        invariant
            i <= entries@.len(),
            all == wishes(entries@),
            views(rows@) == Seq::new(i as nat, |k: int| wish_text(all[k])),
        decreases entries@.len() - i,
    {
        let ghost before = rows@;
        let mut row = entries[i].0.clone();
        if let Some(target) = &entries[i].1 {
            row.append(" -> ");
            row.append(target.as_str());
        }
        rows.push(row);
        i += 1;
        proof {
            assert(all[i - 1] == wish(entries@[i - 1]));
            lemma_views_push(before, rows@.last());
            assert(views(rows@) =~= Seq::new(i as nat, |k: int| wish_text(all[k])));
        }
    }
    proof {
        assert(views(rows@) =~= Seq::new(all.len(), |k: int| wish_text(all[k])));
    }
    join_texts(rows.as_slice(), "\n")
}

/// The names on the lines of a normal form.
pub open spec fn line_sources(rows: Seq<Seq<char>>) -> Seq<Seq<char>>
    decreases rows.len(),
{
    if rows.len() == 0 {
        Seq::empty()
    } else {
        match entry_wish(rows.last()) {
            Some(w) => line_sources(rows.drop_last()).push(w.0),
            None => line_sources(rows.drop_last()),
        }
    }
}

/// The lines of a normal form that give both names.
pub open spec fn line_mappings(rows: Seq<Seq<char>>) -> Seq<NameMappingEntryView>
    decreases rows.len(),
{
    if rows.len() == 0 {
        Seq::empty()
    } else {
        let before = line_mappings(rows.drop_last());
        match entry_wish(rows.last()) {
            Some((source, Some(target))) => before.push(NameMappingEntryView { source, target }),
            _ => before,
        }
    }
}

pub fn additional_feminize_name_sources(input: &str) -> (r: Vec<String>)
    ensures
        views(r@) == line_sources(lines(normal_form(input@))),
{
    let text = normalize_additional_feminize_names(input);
    let all = chars_of(text.as_str());
    let rows = lines_of(all.as_slice());
    let ghost list = views(rows@);
    let mut out: Vec<String> = Vec::new();
    let mut i: usize = 0;
    proof {
        assert(views(out@) =~= line_sources(list.take(0)));
    }
    while i < rows.len()
        invariant
            i <= rows@.len(),
            list == views(rows@),
            views(out@) == line_sources(list.take(i as int)),
        decreases rows@.len() - i,
    {
        proof {
            assert(list.take(i + 1).drop_last() =~= list.take(i as int));
            assert(list.take(i + 1).last() == rows@[i as int]@);
        }
        if let Some(entry) = parse_entry_chars(rows[i].as_slice()) {
            let ghost before = out@;
            out.push(entry.0);
            proof {
                lemma_views_push(before, out@.last());
            }
        }
        i += 1;
    }
    proof {
        assert(list.take(i as int) =~= list);
    }
    out
}

pub fn additional_feminize_name_mappings(input: &str) -> (r: Vec<NameMappingEntry>)
    ensures
        views(r@) == line_mappings(lines(normal_form(input@))),
{
    let text = normalize_additional_feminize_names(input);
    let all = chars_of(text.as_str());
    let rows = lines_of(all.as_slice());
    let ghost list = views(rows@);
    let mut out: Vec<NameMappingEntry> = Vec::new();
    let mut i: usize = 0;
    proof {
        assert(views(out@) =~= line_mappings(list.take(0)));
    }
    while i < rows.len()
        invariant
            i <= rows@.len(),
            list == views(rows@),
            views(out@) == line_mappings(list.take(i as int)),
        decreases rows@.len() - i,
    {
        proof {
            assert(list.take(i + 1).drop_last() =~= list.take(i as int));
            assert(list.take(i + 1).last() == rows@[i as int]@);
        }
        if let Some(entry) = parse_entry_chars(rows[i].as_slice()) {
            let (source, target) = entry;
            if let Some(target) = target {
                let ghost before = out@;
                out.push(NameMappingEntry { source, target });
                proof {
                    lemma_views_push(before, out@.last());
                }
            }
        }
        i += 1;
    }
    proof {
        assert(list.take(i as int) =~= list);
    }
    out
}

// ---- lists of names -------------------------------------------------------------------------
/// A list of names with one more, unless that is empty or there already.
pub open spec fn with_name(names: Seq<Seq<char>>, name: Seq<char>) -> Seq<Seq<char>> {
    if name.len() > 0 && !names.contains(name) {
        names.push(name)
    } else {
        names
    }
}

pub open spec fn with_names(names: Seq<Seq<char>>, more: Seq<Seq<char>>) -> Seq<Seq<char>>
    decreases more.len(),
{
    if more.len() == 0 {
        names
    } else {
        with_name(with_names(names, more.drop_last()), more.last())
    }
}

pub fn push_unique_name(names: &mut Vec<String>, name: &str)
    ensures
        views(final(names)@) == with_name(views(old(names)@), name@),
{
    if !name.is_empty() && !holds_text(names.as_slice(), name) {
        proof {
            broadcast use lemma_views_push;

        }
        names.push(name.to_string());
    }
}

/// Adds the names of a list, one after the other.
pub fn push_unique_names(names: &mut Vec<String>, more: &[String])
    ensures
        views(final(names)@) == with_names(views(old(names)@), views(more@)),
{
    let ghost start = views(names@);
    let ghost all = views(more@);
    let mut i: usize = 0;
    while i < more.len()
        invariant
            i <= more@.len(),
            all == views(more@),
            views(names@) == with_names(start, all.take(i as int)),
        decreases more@.len() - i,
    {
        proof {
            assert(all.take(i + 1).drop_last() =~= all.take(i as int));
            assert(all.take(i + 1).last() == more@[i as int]@);
        }
        push_unique_name(names, more[i].as_str());
        i += 1;
    }
    proof {
        assert(all.take(i as int) =~= all);
    }
}

/// The names that have to be mapped: the protagonist's, the aliases and the additional names,
/// each once.
pub open spec fn required_names(settings: NovelSettingsView) -> Seq<Seq<char>> {
    let first = with_name(Seq::empty(), trim(settings.protagonist_name));
    let second = with_names(first, line_sources(lines(normal_form(settings.protagonist_aliases))));
    with_names(second, line_sources(lines(normal_form(settings.additional_feminize_names))))
}

pub fn required_feminized_name_sources(settings: &NovelSettings) -> (r: Vec<String>)
    ensures
        views(r@) == required_names(settings@),
{
    let mut names: Vec<String> = Vec::new();
    proof {
        assert(views(names@) =~= Seq::<Seq<char>>::empty());
    }
    let protagonist = trimmed(settings.protagonist_name.as_str());
    push_unique_name(&mut names, protagonist.as_str());
    let aliases = additional_feminize_name_sources(settings.protagonist_aliases.as_str());
    push_unique_names(&mut names, aliases.as_slice());
    let more = additional_feminize_name_sources(settings.additional_feminize_names.as_str());
    push_unique_names(&mut names, more.as_slice());
    names
}

// ---- the mapping ----------------------------------------------------------------------------
/// The position of the first entry for a name.
pub open spec fn mapping_position(
    entries: Seq<NameMappingEntryView>,
    source: Seq<char>,
    i: int,
) -> Option<int>
    decreases entries.len() - i,
{
    if i < 0 || i >= entries.len() {
        None
    } else if entries[i].source == source {
        Some(i)
    } else {
        mapping_position(entries, source, i + 1)
    }
}

/// The mapping with an entry set; without both names nothing changes.
pub open spec fn upserted(
    entries: Seq<NameMappingEntryView>,
    source: Seq<char>,
    target: Seq<char>,
) -> Seq<NameMappingEntryView> {
    let entry = NameMappingEntryView { source: trim(source), target: trim(target) };
    if blank(source) || blank(target) {
        entries
    } else {
        match mapping_position(entries, trim(source), 0) {
            Some(k) => entries.update(k, entry),
            None => entries.push(entry),
        }
    }
}

pub open spec fn upserted_all(
    entries: Seq<NameMappingEntryView>,
    more: Seq<NameMappingEntryView>,
) -> Seq<NameMappingEntryView>
    decreases more.len(),
{
    if more.len() == 0 {
        entries
    } else {
        upserted(upserted_all(entries, more.drop_last()), more.last().source, more.last().target)
    }
}

pub fn find_mapping(entries: &[NameMappingEntry], source: &str) -> (r: Option<usize>)
    ensures
        match r {
            Some(k) => k < entries@.len() && mapping_position(views(entries@), source@, 0) == Some(
                k as int,
            ),
            None => mapping_position(views(entries@), source@, 0) is None,
        },
{
    let ghost all = views(entries@);
    let mut i: usize = 0;
    while i < entries.len()
        invariant
            i <= entries@.len(),
            all == views(entries@),
            mapping_position(all, source@, 0) == mapping_position(all, source@, i as int),
        decreases entries@.len() - i,
    {
        proof {
            assert(all[i as int] == entries@[i as int]@);
        }
        if same_text(entries[i].source.as_str(), source) {
            return Some(i);
        }
        i += 1;
    }
    None
}

pub fn upsert_name_mapping_entry(entries: &mut Vec<NameMappingEntry>, source: &str, target: &str)
    ensures
        views(final(entries)@) == upserted(views(old(entries)@), source@, target@),
{
    let name = trimmed(source);
    let new_name = trimmed(target);
    if name.as_str().is_empty() || new_name.as_str().is_empty() {
        return ;
    }
    let ghost before = views(entries@);
    let position = find_mapping(entries.as_slice(), name.as_str());
    let entry = NameMappingEntry { source: name, target: new_name };
    let ghost e = entry@;
    match position {
        Some(k) => {
            entries.set(k, entry);
            proof {
                assert(views(entries@) =~= before.update(k as int, e));
            }
        },
        None => {
            entries.push(entry);
            proof {
                assert(views(entries@) =~= before.push(e));
            }
        },
    }
}

pub fn upsert_all(entries: &mut Vec<NameMappingEntry>, more: &[NameMappingEntry])
    ensures
        views(final(entries)@) == upserted_all(views(old(entries)@), views(more@)),
{
    let ghost start = views(entries@);
    let ghost all = views(more@);
    let mut i: usize = 0;
    while i < more.len()
        invariant
            i <= more@.len(),
            all == views(more@),
            views(entries@) == upserted_all(start, all.take(i as int)),
        decreases more@.len() - i,
    {
        proof {
            assert(all.take(i + 1).drop_last() =~= all.take(i as int));
            assert(all.take(i + 1).last() == more@[i as int]@);
        }
        upsert_name_mapping_entry(entries, more[i].source.as_str(), more[i].target.as_str());
        i += 1;
    }
    proof {
        assert(all.take(i as int) =~= all);
    }
}

/// The mapping with what the settings demand: the protagonist's new name, then the entries of
/// the aliases and of the additional names that give a new name.
pub open spec fn with_demands(
    entries: Seq<NameMappingEntryView>,
    settings: NovelSettingsView,
) -> Seq<NameMappingEntryView> {
    let first = if blank(settings.rewritten_protagonist_name) {
        entries
    } else {
        upserted(entries, settings.protagonist_name, settings.rewritten_protagonist_name)
    };
    let second = upserted_all(
        first,
        line_mappings(lines(normal_form(settings.protagonist_aliases))),
    );
    upserted_all(second, line_mappings(lines(normal_form(settings.additional_feminize_names))))
}

pub fn apply_demands(entries: &mut Vec<NameMappingEntry>, settings: &NovelSettings)
    ensures
        views(final(entries)@) == with_demands(views(old(entries)@), settings@),
{
    if !is_blank(settings.rewritten_protagonist_name.as_str()) {
        upsert_name_mapping_entry(
            entries,
            settings.protagonist_name.as_str(),
            settings.rewritten_protagonist_name.as_str(),
        );
    }
    let aliases = additional_feminize_name_mappings(settings.protagonist_aliases.as_str());
    upsert_all(entries, aliases.as_slice());
    let more = additional_feminize_name_mappings(settings.additional_feminize_names.as_str());
    upsert_all(entries, more.as_slice());
}

/// Whether some entry gives the name a new one.
pub open spec fn mapped(entries: Seq<NameMappingEntryView>, source: Seq<char>) -> bool {
    exists|i: int|
        0 <= i < entries.len() && (#[trigger] entries[i]).source == source && !blank(
            entries[i].target,
        )
}

pub fn is_mapped(entries: &[NameMappingEntry], source: &str) -> (r: bool)
    ensures
        r == mapped(views(entries@), source@),
{
    let ghost all = views(entries@);
    let mut i: usize = 0;
    while i < entries.len()
        invariant
            i <= entries@.len(),
            all == views(entries@),
            forall|k: int|
                0 <= k < i ==> !((#[trigger] all[k]).source == source@ && !blank(all[k].target)),
        decreases entries@.len() - i,
    {
        proof {
            assert(all[i as int] == entries@[i as int]@);
        }
        if same_text(entries[i].source.as_str(), source) && !is_blank(entries[i].target.as_str()) {
            return true;
        }
        i += 1;
    }
    false
}

/// The names without a new one, in their order.
pub open spec fn unmapped_names(
    names: Seq<Seq<char>>,
    entries: Seq<NameMappingEntryView>,
) -> Seq<Seq<char>> {
    names.filter(|name: Seq<char>| !mapped(entries, name))
}

/// The names for which a new one still has to be found.
pub fn missing_name_sources(names: &[String], entries: &[NameMappingEntry]) -> (r: Vec<String>)
    ensures
        views(r@) == unmapped_names(views(names@), views(entries@)),
{
    let ghost all = views(names@);
    let ghost list = views(entries@);
    let ghost wanted = |name: Seq<char>| !mapped(list, name);
    let mut out: Vec<String> = Vec::new();
    let mut i: usize = 0;
    proof {
        reveal(Seq::filter);
        assert(views(out@) =~= all.take(0).filter(wanted));
    }
    while i < names.len()
        invariant
            i <= names@.len(),
            all == views(names@),
            list == views(entries@),
            wanted == (|name: Seq<char>| !mapped(list, name)),
            views(out@) == all.take(i as int).filter(wanted),
        decreases names@.len() - i,
    {
        proof {
            reveal(Seq::filter);
            assert(all.take(i + 1).drop_last() =~= all.take(i as int));
            assert(all.take(i + 1).last() == names@[i as int]@);
        }
        if !is_mapped(entries, names[i].as_str()) {
            let ghost before = out@;
            out.push(names[i].clone());
            proof {
                lemma_views_push(before, out@.last());
            }
        }
        i += 1;
    }
    proof {
        assert(all.take(i as int) =~= all);
    }
    out
}

// ---- the local rule -------------------------------------------------------------------------
/// The character that takes the place of one that reads as male.
pub open spec fn feminized(c: char) -> Option<char> {
    if c == '炎' || c == '岩' || c == '言' || c == '焱' || c == '彦' {
        Some('妍')
    } else if c == '旺' || c == '望' || c == '王' || c == '刚' || c == '钢' {
        Some('婉')
    } else if c == '磊' || c == '雷' {
        Some('蕾')
    } else if c == '强' {
        Some('蔷')
    } else if c == '伟' || c == '威' {
        Some('薇')
    } else if c == '勇' {
        Some('咏')
    } else if c == '龙' {
        Some('珑')
    } else if c == '虎' {
        Some('琥')
    } else if c == '峰' || c == '锋' {
        Some('枫')
    } else if c == '阳' {
        Some('漾')
    } else if c == '明' {
        Some('茗')
    } else if c == '杰' {
        Some('洁')
    } else if c == '豪' || c == '昊' {
        Some('皓')
    } else if c == '宇' {
        Some('羽')
    } else if c == '轩' {
        Some('萱')
    } else if c == '飞' {
        Some('霏')
    } else if c == '凡' {
        Some('樊')
    } else if c == '尘' {
        Some('晨')
    } else if c == '三' {
        Some('姗')
    } else {
        None
    }
}

pub fn feminized_char(c: char) -> (r: Option<char>)
    ensures
        r == feminized(c),
{
    if c == '炎' || c == '岩' || c == '言' || c == '焱' || c == '彦' {
        Some('妍')
    } else if c == '旺' || c == '望' || c == '王' || c == '刚' || c == '钢' {
        Some('婉')
    } else if c == '磊' || c == '雷' {
        Some('蕾')
    } else if c == '强' {
        Some('蔷')
    } else if c == '伟' || c == '威' {
        Some('薇')
    } else if c == '勇' {
        Some('咏')
    } else if c == '龙' {
        Some('珑')
    } else if c == '虎' {
        Some('琥')
    } else if c == '峰' || c == '锋' {
        Some('枫')
    } else if c == '阳' {
        Some('漾')
    } else if c == '明' {
        Some('茗')
    } else if c == '杰' {
        Some('洁')
    } else if c == '豪' || c == '昊' {
        Some('皓')
    } else if c == '宇' {
        Some('羽')
    } else if c == '轩' {
        Some('萱')
    } else if c == '飞' {
        Some('霏')
    } else if c == '凡' {
        Some('樊')
    } else if c == '尘' {
        Some('晨')
    } else if c == '三' {
        Some('姗')
    } else {
        None
    }
}

/// The name with every character behind the first replaced where there is a replacement.
pub open spec fn feminized_given_name(name: Seq<char>) -> Seq<char> {
    Seq::new(
        name.len(),
        |i: int|
            if i > 0 && feminized(name[i]) is Some {
                feminized(name[i])->0
            } else {
                name[i]
            },
    )
}

/// The new name that the local rule gives: the family name stays, and where no character of the
/// given name can be replaced, its last one becomes a fixed one.
pub open spec fn fallback_name(name: Seq<char>) -> Seq<char> {
    if name.len() == 0 {
        "妍"@
    } else if name.len() == 1 {
        seq![
            match feminized(name[0]) {
                Some(c) => c,
                None => '妍',
            },
        ]
    } else if feminized_given_name(name) == name {
        name.update(name.len() - 1, '妍')
    } else {
        feminized_given_name(name)
    }
}

pub fn fallback_feminized_name(source: &str) -> (r: String)
    ensures
        r@ == fallback_name(source@),
{
    let mut chars = chars_of(source);
    if chars.len() == 0 {
        return "妍".to_string();
    }
    if chars.len() == 1 {
        let c = match feminized_char(chars[0]) {
            Some(c) => c,
            None => '妍',
        };
        let mut out = String::new();
        out.push(c);
        proof {
            assert(out@ =~= fallback_name(source@));
        }
        return out;
    }
    let mut changed = false;
    let mut i: usize = 1;
    while i < chars.len()
        invariant
            1 <= i <= chars@.len(),
            chars@.len() == source@.len(),
            forall|k: int| 0 <= k < i ==> chars@[k] == #[trigger] feminized_given_name(source@)[k],
            forall|k: int| i <= k < chars@.len() ==> chars@[k] == source@[k],
            changed == exists|k: int|
                0 <= k < i && #[trigger] feminized_given_name(source@)[k] != source@[k],
        decreases chars@.len() - i,
    {
        if let Some(next) = feminized_char(chars[i]) {
            chars.set(i, next);
            changed = true;
            proof {
                assert(feminized_given_name(source@)[i as int] != source@[i as int]);
            }
        }
        i += 1;
    }
    proof {
        assert(chars@ =~= feminized_given_name(source@));
    }
    if !changed {
        proof {
            assert(feminized_given_name(source@) =~= source@);
        }
        let last = chars.len() - 1;
        chars.set(last, '妍');
    }
    string_of(chars.as_slice())
}

/// The mapping after every name without a new one got the local rule's, in the order of the
/// names.
pub open spec fn with_fallbacks(
    entries: Seq<NameMappingEntryView>,
    names: Seq<Seq<char>>,
) -> Seq<NameMappingEntryView>
    decreases names.len(),
{
    if names.len() == 0 {
        entries
    } else {
        let before = with_fallbacks(entries, names.drop_last());
        if mapped(before, names.last()) {
            before
        } else {
            upserted(before, names.last(), fallback_name(names.last()))
        }
    }
}

pub fn fill_with_fallbacks(entries: &mut Vec<NameMappingEntry>, names: &[String])
    ensures
        views(final(entries)@) == with_fallbacks(views(old(entries)@), views(names@)),
{
    let ghost start = views(entries@);
    let ghost all = views(names@);
    let mut i: usize = 0;
    while i < names.len()
        invariant
            i <= names@.len(),
            all == views(names@),
            views(entries@) == with_fallbacks(start, all.take(i as int)),
        decreases names@.len() - i,
    {
        proof {
            assert(all.take(i + 1).drop_last() =~= all.take(i as int));
            assert(all.take(i + 1).last() == names@[i as int]@);
        }
        if !is_mapped(entries.as_slice(), names[i].as_str()) {
            let target = fallback_feminized_name(names[i].as_str());
            upsert_name_mapping_entry(entries, names[i].as_str(), target.as_str());
        }
        i += 1;
    }
    proof {
        assert(all.take(i as int) =~= all);
    }
}

// ---- the kept mapping -----------------------------------------------------------------------
/// The mapping as it is kept with the novel.
#[derive(Debug, PartialEq, Eq)]
pub struct NameMappingAsset {
    pub version: u32,
    pub protagonist: Option<NameMappingEntry>,
    pub names: Vec<NameMappingEntry>,
}

/// Whether no earlier entry has the same name.
pub open spec fn first_of_its_name(entries: Seq<NameMappingEntryView>, k: int) -> bool {
    forall|j: int| 0 <= j < k ==> (#[trigger] entries[j]).source != entries[k].source
}

/// Whether `sorted` holds the first entry of each name, in the order of the names.
pub open spec fn sorted_by_name(
    sorted: Seq<NameMappingEntryView>,
    entries: Seq<NameMappingEntryView>,
) -> bool {
    &&& forall|i: int, j: int|
        0 <= i < j < sorted.len() ==> lex_less(
            (#[trigger] sorted[i]).source,
            (#[trigger] sorted[j]).source,
        )
    &&& forall|i: int| 0 <= i < sorted.len() ==> #[trigger] first_entry(entries, sorted[i])
    &&& forall|k: int| 0 <= k < entries.len() ==> #[trigger] name_listed(sorted, entries[k].source)
}

/// Whether an entry is the first one of its name.
pub open spec fn first_entry(
    entries: Seq<NameMappingEntryView>,
    e: NameMappingEntryView,
) -> bool {
    exists|k: int|
        0 <= k < entries.len() && first_of_its_name(entries, k) && #[trigger] entries[k] == e
}

/// Whether some entry has the name.
pub open spec fn name_listed(sorted: Seq<NameMappingEntryView>, source: Seq<char>) -> bool {
    exists|i: int| 0 <= i < sorted.len() && (#[trigger] sorted[i]).source == source
}

proof fn lemma_first_kept(
    part: Seq<NameMappingEntryView>,
    e: NameMappingEntryView,
    k: int,
)
    requires
        0 <= k < part.len(),
        first_of_its_name(part, k),
    ensures
        first_of_its_name(part.push(e), k),
        part.push(e)[k] == part[k],
{
    let next = part.push(e);
    assert forall|j: int| 0 <= j < k implies (#[trigger] next[j]).source != next[k].source by {
        assert(part[j].source != part[k].source);
    }
}

proof fn lemma_sorted_skip(
    sorted: Seq<NameMappingEntryView>,
    part: Seq<NameMappingEntryView>,
    e: NameMappingEntryView,
    p: int,
)
    requires
        sorted_by_name(sorted, part),
        0 <= p < sorted.len(),
        sorted[p].source == e.source,
    ensures
        sorted_by_name(sorted, part.push(e)),
{
    let next = part.push(e);
    assert forall|i: int| 0 <= i < sorted.len() implies #[trigger] first_entry(
        next,
        sorted[i],
    ) by {
        assert(first_entry(part, sorted[i]));
        let k = choose|k: int|
            0 <= k < part.len() && first_of_its_name(part, k) && #[trigger] part[k] == sorted[i];
        lemma_first_kept(part, e, k);
        assert(next[k] == sorted[i]);
    }
    assert forall|k: int| 0 <= k < next.len() implies #[trigger] name_listed(
        sorted,
        next[k].source,
    ) by {
        if k < part.len() {
            assert(name_listed(sorted, part[k].source));
        } else {
            assert(sorted[p].source == next[k].source);
        }
    }
}

proof fn lemma_sorted_insert(
    sorted: Seq<NameMappingEntryView>,
    part: Seq<NameMappingEntryView>,
    e: NameMappingEntryView,
    p: int,
)
    requires
        sorted_by_name(sorted, part),
        0 <= p <= sorted.len(),
        forall|i: int| 0 <= i < p ==> lex_less((#[trigger] sorted[i]).source, e.source),
        p < sorted.len() ==> lex_less(e.source, sorted[p].source),
    ensures
        sorted_by_name(sorted.insert(p, e), part.push(e)),
{
    let next = part.push(e);
    let after = sorted.insert(p, e);
    assert forall|i: int| p <= i < sorted.len() implies lex_less(
        e.source,
        (#[trigger] sorted[i]).source,
    ) by {
        if i > p {
            lemma_lex_transitive(e.source, sorted[p].source, sorted[i].source);
        }
    }
    assert forall|i: int| 0 <= i < after.len() implies #[trigger] first_entry(
        next,
        after[i],
    ) by {
        if i == p {
            let k = part.len() as int;
            assert(next[k] == after[i]);
            assert forall|j: int| 0 <= j < k implies (#[trigger] next[j]).source
                != next[k].source by {
                assert(name_listed(sorted, part[j].source));
                let m = choose|m: int|
                    0 <= m < sorted.len() && (#[trigger] sorted[m]).source == part[j].source;
                lemma_lex_trichotomy(sorted[m].source, e.source);
                lemma_lex_trichotomy(e.source, sorted[m].source);
            }
            assert(first_of_its_name(next, k));
        } else {
            let m = if i < p {
                i
            } else {
                i - 1
            };
            assert(sorted[m] == after[i]);
            assert(first_entry(part, sorted[m]));
            let k = choose|k: int|
                0 <= k < part.len() && first_of_its_name(part, k) && #[trigger] part[k]
                    == sorted[m];
            lemma_first_kept(part, e, k);
            assert(next[k] == after[i]);
        }
    }
    assert forall|k: int| 0 <= k < next.len() implies #[trigger] name_listed(
        after,
        next[k].source,
    ) by {
        if k < part.len() {
            assert(name_listed(sorted, part[k].source));
            let m = choose|m: int|
                0 <= m < sorted.len() && (#[trigger] sorted[m]).source == part[k].source;
            let i = if m < p {
                m
            } else {
                m + 1
            };
            assert(after[i] == sorted[m]);
        } else {
            assert(after[p].source == next[k].source);
        }
    }
    assert forall|i: int, j: int| 0 <= i < j < after.len() implies lex_less(
        (#[trigger] after[i]).source,
        (#[trigger] after[j]).source,
    ) by {
        let a = if i < p {
            i
        } else {
            i - 1
        };
        let b = if j < p {
            j
        } else {
            j - 1
        };
        if i == p {
            assert(after[j] == sorted[b]);
        } else if j == p {
            assert(after[i] == sorted[a]);
        } else {
            assert(after[i] == sorted[a]);
            assert(after[j] == sorted[b]);
        }
    }
}

fn sort_by_name(entries: &[NameMappingEntry]) -> (r: Vec<NameMappingEntry>)
    ensures
        sorted_by_name(views(r@), views(entries@)),
{
    let ghost all = views(entries@);
    let mut out: Vec<NameMappingEntry> = Vec::new();
    let mut n: usize = 0;
    while n < entries.len()
        invariant
            n <= entries@.len(),
            all == views(entries@),
            sorted_by_name(views(out@), all.take(n as int)),
        decreases entries@.len() - n,
    {
        let ghost before = views(out@);
        let ghost part = all.take(n as int);
        let ghost next = all.take(n + 1);
        let source = chars_of(entries[n].source.as_str());
        let mut p: usize = 0;
        let mut found = false;
        while p < out.len() && !found
            invariant
                p <= out@.len(),
                before == views(out@),
                forall|i: int| 0 <= i < p ==> lex_less((#[trigger] before[i]).source, source@),
                found ==> p < out@.len() && !lex_less(before[p as int].source, source@),
            ensures
                p <= out@.len(),
                forall|i: int| 0 <= i < p ==> lex_less((#[trigger] before[i]).source, source@),
                p < out@.len() ==> !lex_less(before[p as int].source, source@),
            decreases out@.len() - p + (if found { 0int } else { 1int }),
        {
            let here = chars_of(out[p].source.as_str());
            if lex_less_chars(here.as_slice(), source.as_slice()) {
                p += 1;
            } else {
                found = true;
            }
        }
        proof {
            assert(all[n as int] == entries@[n as int]@);
            assert(next =~= part.push(all[n as int]));
        }
        if p < out.len() && same_text(out[p].source.as_str(), entries[n].source.as_str()) {
            proof {
                lemma_sorted_skip(before, part, all[n as int], p as int);
            }
        } else {
            proof {
                if p < before.len() {
                    lemma_lex_trichotomy(before[p as int].source, source@);
                    assert(before[p as int].source != source@);
                }
                lemma_sorted_insert(before, part, all[n as int], p as int);
            }
            out.insert(p, entries[n].duplicate());
            proof {
                assert(views(out@) =~= before.insert(p as int, all[n as int]));
            }
        }
        n += 1;
    }
    proof {
        assert(all.take(n as int) =~= all);
    }
    out
}

/// The mapping to be kept: with the demands of the settings, each name once, in the order of
/// the names, and the protagonist's entry beside them.
pub fn build_name_mapping_asset(settings: &NovelSettings, mappings: Vec<NameMappingEntry>) -> (r:
    NameMappingAsset)
    ensures
        ({
            let entries = with_demands(views(mappings@), settings@);
            &&& r.version == 1
            &&& sorted_by_name(views(r.names@), entries)
            &&& match mapping_position(entries, trim(settings.protagonist_name@), 0) {
                Some(k) => r.protagonist matches Some(e) && e@ == entries[k],
                None => r.protagonist is None,
            }
        }),
{
    let mut entries = mappings;
    apply_demands(&mut entries, settings);
    let name = trimmed(settings.protagonist_name.as_str());
    let protagonist = match find_mapping(entries.as_slice(), name.as_str()) {
        Some(k) => {
            proof {
                assert(views(entries@)[k as int] == entries@[k as int]@);
            }
            Some(entries[k].duplicate())
        },
        None => None,
    };
    let names = sort_by_name(entries.as_slice());
    NameMappingAsset { version: 1, protagonist, names }
}

// ---- keeping the mapping complete ------------------------------------------------------------
/// The work on the mapping of a novel: the names that need a new one, the mapping as far as the
/// settings and what was kept give it, and the names that are still without.
pub struct NameMappingWork {
    pub required: Vec<String>,
    pub mappings: Vec<NameMappingEntry>,
    pub missing: Vec<String>,
}

/// Begins the work on a mapping; there is none where no name needs a new one.
pub fn start_name_mapping(kept: Vec<NameMappingEntry>, settings: &NovelSettings) -> (r: Option<
    NameMappingWork,
>)
    ensures
        match r {
            None => required_names(settings@).len() == 0,
            Some(w) => {
                &&& required_names(settings@).len() > 0
                &&& views(w.required@) == required_names(settings@)
                &&& views(w.mappings@) == with_demands(views(kept@), settings@)
                &&& views(w.missing@) == unmapped_names(
                    required_names(settings@),
                    with_demands(views(kept@), settings@),
                )
            },
        },
{
    let required = required_feminized_name_sources(settings);
    if required.len() == 0 {
        return None;
    }
    let mut mappings = kept;
    apply_demands(&mut mappings, settings);
    let missing = missing_name_sources(required.as_slice(), mappings.as_slice());
    Some(NameMappingWork { required, mappings, missing })
}

/// The mapping that the work ends with: with the new names that were found, and with those of the
/// local rule where none was.
pub open spec fn completed_mapping(
    mappings: Seq<NameMappingEntryView>,
    required: Seq<Seq<char>>,
    found: Seq<NameMappingEntryView>,
) -> Seq<NameMappingEntryView> {
    with_fallbacks(upserted_all(mappings, found), required)
}

/// Ends the work on a mapping, with the new names that were found for the missing ones.
pub fn finish_name_mapping(
    work: NameMappingWork,
    found: &[NameMappingEntry],
    settings: &NovelSettings,
) -> (r: NameMappingAsset)
    ensures
        ({
            let entries = with_demands(
                completed_mapping(views(work.mappings@), views(work.required@), views(found@)),
                settings@,
            );
            &&& r.version == 1
            &&& sorted_by_name(views(r.names@), entries)
            &&& match mapping_position(entries, trim(settings.protagonist_name@), 0) {
                Some(k) => r.protagonist matches Some(e) && e@ == entries[k],
                None => r.protagonist is None,
            }
        }),
{
    let mut mappings = work.mappings;
    upsert_all(&mut mappings, found);
    fill_with_fallbacks(&mut mappings, work.required.as_slice());
    build_name_mapping_asset(settings, mappings)
}

// ---- reading mappings -----------------------------------------------------------------------
/// The first of three fields that the value has.
pub open spec fn either_field(
    j: JsonView,
    a: Seq<char>,
    b: Seq<char>,
    c: Seq<char>,
) -> Option<JsonView> {
    match field(j, a) {
        Some(v) => Some(v),
        None => match field(j, b) {
            Some(v) => Some(v),
            None => field(j, c),
        },
    }
}

/// The trimmed text of a value that is a string, else nothing but an empty text.
pub open spec fn trimmed_text(j: Option<JsonView>) -> Seq<char> {
    match j {
        Some(JsonView::Text(s)) => trim(s),
        _ => Seq::empty(),
    }
}

fn get_either<'a>(j: &'a Json, a: &str, b: &str, c: &str) -> (r: Option<&'a Json>)
    ensures
        match r {
            Some(v) => either_field(j@, a@, b@, c@) == Some(v@),
            None => either_field(j@, a@, b@, c@) is None,
        },
{
    match j.get(a) {
        Some(v) => Some(v),
        None => match j.get(b) {
            Some(v) => Some(v),
            None => j.get(c),
        },
    }
}

fn trimmed_text_of(j: Option<&Json>) -> (r: String)
    ensures
        r@ == trimmed_text(
            match j {
                Some(v) => Some(v@),
                None => None,
            },
        ),
{
    match j {
        Some(Json::Text(s)) => trimmed(s.as_str()),
        _ => String::new(),
    }
}

/// The entry that an item of a model's answer gives, where it is one that was asked for.
pub open spec fn generated_entry(item: JsonView, expected: Seq<Seq<char>>) -> Option<
    NameMappingEntryView,
> {
    let source = trimmed_text(either_field(item, "source"@, "original"@, "from"@));
    let target = trimmed_text(either_field(item, "target"@, "rewritten"@, "to"@));
    if source.len() == 0 || target.len() == 0 || source == target || !expected.contains(source) {
        None
    } else {
        Some(NameMappingEntryView { source, target })
    }
}

pub open spec fn generated_entries(items: Seq<JsonView>, expected: Seq<Seq<char>>) -> Seq<
    NameMappingEntryView,
>
    decreases items.len(),
{
    if items.len() == 0 {
        Seq::empty()
    } else {
        let before = generated_entries(items.drop_last(), expected);
        match generated_entry(items.last(), expected) {
            Some(e) => before.push(e),
            None => before,
        }
    }
}

/// The mapping that a model's answer gives for the names it was asked for.
pub open spec fn generated_mapping(value: JsonView, sources: Seq<Seq<char>>) -> Result<
    Seq<NameMappingEntryView>,
    Seq<char>,
> {
    let expected = Seq::new(sources.len(), |i: int| trim(sources[i]));
    match either_field(value, "names"@, "mappings"@, "name_mapping"@) {
        Some(JsonView::List(items)) => if generated_entries(items, expected).len() == 0 {
            Err("姓名映射 JSON 中没有可用映射。"@)
        } else {
            Ok(generated_entries(items, expected))
        },
        _ => Err("姓名映射 JSON 缺少 names 数组。"@),
    }
}

/// Reads the mapping out of a model's answer.
pub fn generated_mapping_of(value: &Json, expected_sources: &[String]) -> (r: Result<
    Vec<NameMappingEntry>,
    String,
>)
    ensures
        match r {
            Ok(v) => generated_mapping(value@, views(expected_sources@)) == Ok::<
                Seq<NameMappingEntryView>,
                Seq<char>,
            >(views(v@)),
            Err(m) => generated_mapping(value@, views(expected_sources@)) == Err::<
                Seq<NameMappingEntryView>,
                Seq<char>,
            >(m@),
        },
{
    let ghost sources = views(expected_sources@);
    let ghost wanted = Seq::new(sources.len(), |i: int| trim(sources[i]));
    let mut expected: Vec<String> = Vec::new();
    let mut i: usize = 0;
    while i < expected_sources.len()
        invariant
            i <= expected_sources@.len(),
            sources == views(expected_sources@),
            wanted == Seq::new(sources.len(), |k: int| trim(sources[k])),
            views(expected@) == wanted.take(i as int),
        decreases expected_sources@.len() - i,
    {
        let ghost before = expected@;
        expected.push(trimmed(expected_sources[i].as_str()));
        proof {
            lemma_views_push(before, expected@.last());
            assert(views(expected@) =~= wanted.take(i + 1));
        }
        i += 1;
    }
    proof {
        assert(wanted.take(i as int) =~= wanted);
    }
    let items = match get_either(value, "names", "mappings", "name_mapping") {
        Some(Json::List(items)) => items,
        _ => {
            return Err("姓名映射 JSON 缺少 names 数组。".to_string());
        },
    };
    let ghost all = views(items@);
    proof {
        assert(crate::json::json_view(Json::List(*items))->List_0 =~= all);
    }
    let mut parsed: Vec<NameMappingEntry> = Vec::new();
    let mut n: usize = 0;
    proof {
        assert(views(parsed@) =~= generated_entries(all.take(0), wanted));
    }
    while n < items.len()
        invariant
            n <= items@.len(),
            all == views(items@),
            views(expected@) == wanted,
            views(parsed@) == generated_entries(all.take(n as int), wanted),
        decreases items@.len() - n,
    {
        let item = &items[n];
        proof {
            assert(all.take(n + 1).drop_last() =~= all.take(n as int));
            assert(all.take(n + 1).last() == item@);
        }
        let source = trimmed_text_of(get_either(item, "source", "original", "from"));
        let target = trimmed_text_of(get_either(item, "target", "rewritten", "to"));
        if !source.as_str().is_empty() && !target.as_str().is_empty() && !same_text(
            source.as_str(),
            target.as_str(),
        ) && holds_text(expected.as_slice(), source.as_str()) {
            let ghost before = parsed@;
            parsed.push(NameMappingEntry { source, target });
            proof {
                lemma_views_push(before, parsed@.last());
            }
        }
        n += 1;
    }
    proof {
        assert(all.take(n as int) =~= all);
    }
    if parsed.len() == 0 {
        return Err("姓名映射 JSON 中没有可用映射。".to_string());
    }
    Ok(parsed)
}

/// Reads the mapping out of the text of a model's answer.
pub fn parse_generated_name_mapping_entries(output: &str, expected_sources: &[String]) -> (r:
    Result<Vec<NameMappingEntry>, String>)
    ensures
        match (jsonish(output@), r) {
            (Err(e), Err(m)) => m@ == e,
            (Ok(value), Ok(v)) => generated_mapping(value, views(expected_sources@)) == Ok::<
                Seq<NameMappingEntryView>,
                Seq<char>,
            >(views(v@)),
            (Ok(value), Err(m)) => generated_mapping(value, views(expected_sources@)) == Err::<
                Seq<NameMappingEntryView>,
                Seq<char>,
            >(m@),
            _ => false,
        },
{
    match parse_jsonish_value(output) {
        Ok(value) => generated_mapping_of(&value, expected_sources),
        Err(m) => Err(m),
    }
}

/// The entry of a kept item, where it gives both names.
pub open spec fn kept_entry(item: JsonView) -> Option<NameMappingEntryView> {
    let source = trimmed_text(field(item, "source"@));
    let target = trimmed_text(field(item, "target"@));
    if source.len() == 0 || target.len() == 0 {
        None
    } else {
        Some(NameMappingEntryView { source, target })
    }
}

pub open spec fn kept_entries(
    start: Seq<NameMappingEntryView>,
    items: Seq<JsonView>,
) -> Seq<NameMappingEntryView>
    decreases items.len(),
{
    if items.len() == 0 {
        start
    } else {
        let before = kept_entries(start, items.drop_last());
        match kept_entry(items.last()) {
            Some(e) => upserted(before, e.source, e.target),
            None => before,
        }
    }
}

/// The mapping in a kept value.
pub open spec fn kept_mapping(value: JsonView) -> Seq<NameMappingEntryView> {
    let start = match field(value, "protagonist"@) {
        Some(p) => match kept_entry(p) {
            Some(e) => seq![e],
            None => Seq::empty(),
        },
        None => Seq::empty(),
    };
    match list_field(value, "names"@) {
        Some(items) => kept_entries(start, items),
        None => start,
    }
}

fn read_entry(item: &Json) -> (r: Option<NameMappingEntry>)
    ensures
        match r {
            Some(e) => kept_entry(item@) == Some(e@),
            None => kept_entry(item@) is None,
        },
{
    let source = trimmed_text_of(item.get("source"));
    let target = trimmed_text_of(item.get("target"));
    if source.as_str().is_empty() || target.as_str().is_empty() {
        None
    } else {
        Some(NameMappingEntry { source, target })
    }
}

/// Reads the mapping out of a kept value.
pub fn kept_mapping_of(value: &Json) -> (r: Vec<NameMappingEntry>)
    ensures
        views(r@) == kept_mapping(value@),
{
    let mut entries: Vec<NameMappingEntry> = Vec::new();
    if let Some(protagonist) = value.get("protagonist") {
        if let Some(e) = read_entry(protagonist) {
            entries.push(e);
        }
    }
    let ghost start = views(entries@);
    proof {
        let kept = match field(value@, "protagonist"@) {
            Some(p) => match kept_entry(p) {
                Some(e) => seq![e],
                None => Seq::empty(),
            },
            None => Seq::empty(),
        };
        assert(start =~= kept);
    }
    if let Some(items) = value.get_list("names") {
        let ghost all = views(items@);
        let mut n: usize = 0;
        while n < items.len()
            invariant
                n <= items@.len(),
                all == views(items@),
                views(entries@) == kept_entries(start, all.take(n as int)),
            decreases items@.len() - n,
        {
            proof {
                assert(all.take(n + 1).drop_last() =~= all.take(n as int));
                assert(all.take(n + 1).last() == items@[n as int]@);
            }
            if let Some(e) = read_entry(&items[n]) {
                upsert_name_mapping_entry(&mut entries, e.source.as_str(), e.target.as_str());
            }
            n += 1;
        }
        proof {
            assert(all.take(n as int) =~= all);
        }
    }
    entries
}

/// Reads the mapping out of the kept text; a text that cannot be read holds none.
pub fn parse_name_mapping_entries(content: &str) -> (r: Vec<NameMappingEntry>)
    ensures
        views(r@) == match jsonish(content@) {
            Ok(value) => kept_mapping(value),
            Err(_) => Seq::empty(),
        },
{
    match parse_jsonish_value(content) {
        Ok(value) => kept_mapping_of(&value),
        Err(_) => {
            let none: Vec<NameMappingEntry> = Vec::new();
            proof {
                assert(views(none@) =~= Seq::<NameMappingEntryView>::empty());
            }
            none
        },
    }
}

// ---- asking a model -------------------------------------------------------------------------
pub open spec fn forced_mapping(settings: NovelSettingsView) -> Seq<char> {
    if blank(settings.rewritten_protagonist_name) {
        "无"@
    } else {
        trim(settings.protagonist_name) + " -> "@ + trim(settings.rewritten_protagonist_name)
    }
}

pub open spec fn name_mapping_prompt(settings: NovelSettingsView, sources: Seq<Seq<char>>) -> Seq<
    char,
> {
    "请为以下中文小说人物姓名生成固定的女性化姓名映射。\n\n输出 JSON 结构必须是：\n{\n  \"names\": [\n    { \"source\": \"原姓名\", \"target\": \"女性化姓名\" }\n  ]\n}\n\n要求：\n1. 每个输入姓名都必须输出一条映射。\n2. target 必须是中文姓名，不能为空，不能与 source 完全相同。\n3. 优先保留姓氏，名字部分使用同音或近音的女性化字。\n4. 若存在强制映射，必须逐字使用强制 target。\n5. 只输出 JSON，不要解释、不要 Markdown。\n\n强制映射：\n"@ + forced_mapping(settings) + "\n\n待生成姓名：\n"@ + join(sources, "\n"@)
}

pub fn build_name_mapping_prompt(settings: &NovelSettings, sources: &[String]) -> (r: String)
    ensures
        r@ == name_mapping_prompt(settings@, views(sources@)),
{
    let mut m = "请为以下中文小说人物姓名生成固定的女性化姓名映射。\n\n输出 JSON 结构必须是：\n{\n  \"names\": [\n    { \"source\": \"原姓名\", \"target\": \"女性化姓名\" }\n  ]\n}\n\n要求：\n1. 每个输入姓名都必须输出一条映射。\n2. target 必须是中文姓名，不能为空，不能与 source 完全相同。\n3. 优先保留姓氏，名字部分使用同音或近音的女性化字。\n4. 若存在强制映射，必须逐字使用强制 target。\n5. 只输出 JSON，不要解释、不要 Markdown。\n\n强制映射：\n".to_string();
    if is_blank(settings.rewritten_protagonist_name.as_str()) {
        m.append("无");
    } else {
        let mut forced = trimmed(settings.protagonist_name.as_str());
        let target = trimmed(settings.rewritten_protagonist_name.as_str());
        forced.append(" -> ");
        forced.append(target.as_str());
        m.append(forced.as_str());
    }
    m.append("\n\n待生成姓名：\n");
    let list = join_texts(sources, "\n");
    m.append(list.as_str());
    m
}

// ---- laws -----------------------------------------------------------------------------------
/// Whether each name stands in one entry only.
pub open spec fn names_differ(entries: Seq<Wish>) -> bool {
    forall|i: int, j: int| 0 <= i < j < entries.len() ==> (#[trigger] entries[i]).0 != (
    #[trigger] entries[j]).0
}

pub proof fn lemma_wish_position(entries: Seq<Wish>, source: Seq<char>, i: int)
    requires
        0 <= i <= entries.len(),
    ensures
        wish_position(entries, source, i) matches Some(k) ==> i <= k < entries.len()
            && entries[k].0 == source,
        wish_position(entries, source, i) is None ==> forall|k: int|
            i <= k < entries.len() ==> (#[trigger] entries[k]).0 != source,
    decreases entries.len() - i,
{
    if i < entries.len() && entries[i].0 != source {
        lemma_wish_position(entries, source, i + 1);
    }
}

/// In the normal form of the user's text no name stands twice.
pub proof fn law_wishes_have_different_names(input: Seq<char>)
    ensures
        names_differ(wishes_of(input)),
{
    lemma_collected_names_differ(split_on(input, entry_separators()));
}

proof fn lemma_collected_names_differ(parts: Seq<Seq<char>>)
    ensures
        names_differ(collect_wishes(parts)),
    decreases parts.len(),
{
    if parts.len() > 0 {
        let before = collect_wishes(parts.drop_last());
        lemma_collected_names_differ(parts.drop_last());
        if let Some(w) = entry_wish(parts.last()) {
            lemma_wish_position(before, w.0, 0);
        }
    }
}

pub proof fn lemma_mapping_position(entries: Seq<NameMappingEntryView>, source: Seq<char>, i: int)
    requires
        0 <= i <= entries.len(),
    ensures
        mapping_position(entries, source, i) matches Some(k) ==> i <= k < entries.len()
            && entries[k].source == source,
        mapping_position(entries, source, i) is None ==> forall|k: int|
            i <= k < entries.len() ==> (#[trigger] entries[k]).source != source,
    decreases entries.len() - i,
{
    if i < entries.len() && entries[i].source != source {
        lemma_mapping_position(entries, source, i + 1);
    }
}

/// Whether each name has one entry only.
pub open spec fn sources_differ(entries: Seq<NameMappingEntryView>) -> bool {
    forall|i: int, j: int|
        0 <= i < j < entries.len() ==> (#[trigger] entries[i]).source != (
        #[trigger] entries[j]).source
}

/// To set an entry keeps the names of a mapping apart, and the mapping then gives that name.
pub proof fn law_upsert_keeps_names_apart(
    entries: Seq<NameMappingEntryView>,
    source: Seq<char>,
    target: Seq<char>,
)
    requires
        sources_differ(entries),
    ensures
        sources_differ(upserted(entries, source, target)),
        !blank(source) && !blank(target) ==> upserted(entries, source, target).contains(
            NameMappingEntryView { source: trim(source), target: trim(target) },
        ),
{
    lemma_mapping_position(entries, trim(source), 0);
    let after = upserted(entries, source, target);
    if !blank(source) && !blank(target) {
        match mapping_position(entries, trim(source), 0) {
            Some(k) => {
                assert(after[k] == (NameMappingEntryView {
                    source: trim(source),
                    target: trim(target),
                }));
            },
            None => {
                assert(after[entries.len() as int] == (NameMappingEntryView {
                    source: trim(source),
                    target: trim(target),
                }));
            },
        }
    }
}

/// The local rule keeps the length of a name and, of a name with more than one character, the
/// family name.
pub proof fn law_fallback_keeps_the_family_name(name: Seq<char>)
    requires
        name.len() > 0,
    ensures
        fallback_name(name).len() == name.len(),
        name.len() > 1 ==> fallback_name(name)[0] == name[0],
{
}

/// The local rule changes every name but one: a name that ends with the fixed character and
/// holds nothing else to replace.
pub proof fn law_fallback_changes_the_name(name: Seq<char>)
    requires
        name.len() > 0,
        name.last() != '妍',
    ensures
        fallback_name(name) != name,
{
    if name.len() == 1 {
        if let Some(c) = feminized(name[0]) {
            assert(c != name[0]);
        }
        assert(fallback_name(name)[0] != name[0]);
    } else if feminized_given_name(name) == name {
        assert(fallback_name(name)[name.len() - 1] == '妍');
    }
}

/// Whether a name is not empty and has no white space around it.
pub open spec fn is_tidy(name: Seq<char>) -> bool {
    name.len() > 0 && trim(name) == name
}

proof fn lemma_wish_is_tidy(value: Seq<char>, k: int)
    requires
        is_tidy(value),
        0 <= k <= arrows().len(),
    ensures
        wish_from(value, k) matches Some(w) ==> is_tidy(w.0),
    decreases arrows().len() - k,
{
    if k < arrows().len() {
        match find_from(value, arrows()[k], 0) {
            Some(at) => {
                lemma_trim(value.take(at));
            },
            None => {
                lemma_wish_is_tidy(value, k + 1);
            },
        }
    }
}

proof fn lemma_sources_are_tidy(rows: Seq<Seq<char>>)
    ensures
        forall|i: int| 0 <= i < line_sources(rows).len() ==> is_tidy(#[trigger] line_sources(rows)[i]),
    decreases rows.len(),
{
    if rows.len() > 0 {
        lemma_sources_are_tidy(rows.drop_last());
        lemma_trim(rows.last());
        if !blank(rows.last()) {
            lemma_wish_is_tidy(trim(rows.last()), 0);
        }
        let before = line_sources(rows.drop_last());
        let after = line_sources(rows);
        assert forall|i: int| 0 <= i < after.len() implies is_tidy(#[trigger] after[i]) by {
            if i < before.len() {
                assert(after[i] == before[i]);
            }
        }
    }
}

proof fn lemma_with_names_are_tidy(names: Seq<Seq<char>>, more: Seq<Seq<char>>)
    requires
        forall|i: int| 0 <= i < names.len() ==> is_tidy(#[trigger] names[i]),
        forall|i: int| 0 <= i < more.len() ==> is_tidy(#[trigger] more[i]),
    ensures
        forall|i: int|
            0 <= i < with_names(names, more).len() ==> is_tidy(#[trigger] with_names(names, more)[i]),
    decreases more.len(),
{
    if more.len() > 0 {
        let rest = more.drop_last();
        assert forall|i: int| 0 <= i < rest.len() implies is_tidy(#[trigger] rest[i]) by {
            assert(rest[i] == more[i]);
        }
        lemma_with_names_are_tidy(names, rest);
        assert(is_tidy(more[more.len() - 1]));
        let before = with_names(names, rest);
        let after = with_names(names, more);
        assert forall|i: int| 0 <= i < after.len() implies is_tidy(#[trigger] after[i]) by {
            if i < before.len() {
                assert(after[i] == before[i]);
            }
        }
    }
}

/// The names that have to be mapped are not empty and have no white space around them.
pub proof fn law_required_names_are_tidy(settings: NovelSettingsView)
    ensures
        forall|i: int|
            0 <= i < required_names(settings).len() ==> is_tidy(
                #[trigger] required_names(settings)[i],
            ),
{
    lemma_trim(settings.protagonist_name);
    let aliases = line_sources(lines(normal_form(settings.protagonist_aliases)));
    let more = line_sources(lines(normal_form(settings.additional_feminize_names)));
    lemma_sources_are_tidy(lines(normal_form(settings.protagonist_aliases)));
    lemma_sources_are_tidy(lines(normal_form(settings.additional_feminize_names)));
    let first = with_name(Seq::empty(), trim(settings.protagonist_name));
    lemma_with_names_are_tidy(first, aliases);
    lemma_with_names_are_tidy(with_names(first, aliases), more);
}

proof fn lemma_upsert_keeps_mapped(
    entries: Seq<NameMappingEntryView>,
    source: Seq<char>,
    target: Seq<char>,
    name: Seq<char>,
)
    requires
        mapped(entries, name),
    ensures
        mapped(upserted(entries, source, target), name),
{
    let i = choose|i: int|
        0 <= i < entries.len() && (#[trigger] entries[i]).source == name && !blank(
            entries[i].target,
        );
    let after = upserted(entries, source, target);
    lemma_mapping_position(entries, trim(source), 0);
    lemma_trim(target);
    assert(after[i].source == name && !blank(after[i].target));
}

proof fn lemma_upsert_all_keeps_mapped(
    entries: Seq<NameMappingEntryView>,
    more: Seq<NameMappingEntryView>,
    name: Seq<char>,
)
    requires
        mapped(entries, name),
    ensures
        mapped(upserted_all(entries, more), name),
    decreases more.len(),
{
    if more.len() > 0 {
        lemma_upsert_all_keeps_mapped(entries, more.drop_last(), name);
        lemma_upsert_keeps_mapped(
            upserted_all(entries, more.drop_last()),
            more.last().source,
            more.last().target,
            name,
        );
    }
}

proof fn lemma_fallback_maps(entries: Seq<NameMappingEntryView>, name: Seq<char>)
    requires
        is_tidy(name),
    ensures
        mapped(upserted(entries, name, fallback_name(name)), name),
{
    lemma_trim(name);
    let target = fallback_name(name);
    assert(!white(target[0])) by {
        if name.len() == 1 {
            if let Some(c) = feminized(name[0]) {
                assert(!white(c));
            }
        }
    }
    lemma_not_blank(target);
    lemma_trim(target);
    lemma_mapping_position(entries, name, 0);
    let after = upserted(entries, name, target);
    let k = match mapping_position(entries, name, 0) {
        Some(k) => k,
        None => entries.len() as int,
    };
    assert(after[k].source == name && !blank(after[k].target));
}

proof fn lemma_fallbacks_map_all(
    entries: Seq<NameMappingEntryView>,
    names: Seq<Seq<char>>,
    i: int,
)
    requires
        forall|k: int| 0 <= k < names.len() ==> is_tidy(#[trigger] names[k]),
        0 <= i < names.len(),
    ensures
        mapped(with_fallbacks(entries, names), names[i]),
    decreases names.len(),
{
    let rest = names.drop_last();
    let before = with_fallbacks(entries, rest);
    assert(is_tidy(names[names.len() - 1]));
    if i < rest.len() {
        assert forall|k: int| 0 <= k < rest.len() implies is_tidy(#[trigger] rest[k]) by {
            assert(rest[k] == names[k]);
        }
        lemma_fallbacks_map_all(entries, rest, i);
        lemma_upsert_keeps_mapped(before, names.last(), fallback_name(names.last()), names[i]);
    } else {
        lemma_fallback_maps(before, names.last());
    }
}

/// Whatever was kept and whatever new names were found, the mapping that is kept in the end gives
/// every name that needs one a new name.
pub proof fn law_every_required_name_is_mapped(
    kept: Seq<NameMappingEntryView>,
    found: Seq<NameMappingEntryView>,
    settings: NovelSettingsView,
    i: int,
)
    requires
        0 <= i < required_names(settings).len(),
    ensures
        mapped(
            with_demands(
                completed_mapping(
                    with_demands(kept, settings),
                    required_names(settings),
                    found,
                ),
                settings,
            ),
            required_names(settings)[i],
        ),
{
    let names = required_names(settings);
    let name = names[i];
    law_required_names_are_tidy(settings);
    let complete = completed_mapping(with_demands(kept, settings), names, found);
    lemma_fallbacks_map_all(upserted_all(with_demands(kept, settings), found), names, i);
    lemma_upsert_keeps_mapped(
        complete,
        settings.protagonist_name,
        settings.rewritten_protagonist_name,
        name,
    );
    let first = if blank(settings.rewritten_protagonist_name) {
        complete
    } else {
        upserted(complete, settings.protagonist_name, settings.rewritten_protagonist_name)
    };
    let aliases = line_mappings(lines(normal_form(settings.protagonist_aliases)));
    lemma_upsert_all_keeps_mapped(first, aliases, name);
    lemma_upsert_all_keeps_mapped(
        upserted_all(first, aliases),
        line_mappings(lines(normal_form(settings.additional_feminize_names))),
        name,
    );
}

} // verus!
