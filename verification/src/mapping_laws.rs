//! What the mapping of names is for: every name that is asked for gets a new one, a new name that
//! was demanded is the one that is kept, and no other name is touched.
use vstd::prelude::*;
use crate::asset_laws::{law_line_feed_parts_the_rows, rows_of};
use crate::domain::{NameMappingEntryView, NovelSettingsView};
use crate::json::{field, list_field, JsonView};
use crate::name_laws::{
    is_plain, is_sound, lemma_entry_reads_back, lemma_pieces_are_unseparated, lemma_wishes_are_sound,
    unseparated,
};
use crate::names::{
    add_wish, arrows, collect_wishes, completed_mapping, either_field, entry_separators, entry_wish,
    fallback_name, feminized, forced_mapping, generated_entries, generated_entry, generated_mapping,
    is_tidy, kept_entries, kept_entry, kept_mapping, lemma_mapping_position, lemma_wish_position,
    line_mappings, line_sources, mapped, mapping_position, name_mapping_prompt, normal_form,
    required_names, trimmed_text, upserted, upserted_all, wish_from, wish_position, wish_text,
    wishes_of, with_demands, with_fallbacks, with_name, with_names, Wish,
};
use crate::text::{
    blank, find_from, holds, join, lemma_find_from, lines, matches_at, split_on, strip_cr, trim,
    white,
};
use crate::text_laws::{
    law_holding_is_transitive, law_joined_text_holds_its_parts, law_trimmed_text_is_the_middle,
    lemma_holds_end, lemma_holds_more, lemma_push_contains, lemma_trim_again, lemma_trimmed_already,
};

verus! {

// ---- what a mapping gives -------------------------------------------------------------------
/// The new name that a mapping gives: that of the first entry for the name.
pub open spec fn new_name(entries: Seq<NameMappingEntryView>, source: Seq<char>) -> Option<
    Seq<char>,
> {
    match mapping_position(entries, source, 0) {
        Some(k) => Some(entries[k].target),
        None => None,
    }
}

proof fn lemma_first_entry(entries: Seq<NameMappingEntryView>, source: Seq<char>, i: int, k: int)
    requires
        0 <= i <= k < entries.len(),
        entries[k].source == source,
        forall|j: int| i <= j < k ==> (#[trigger] entries[j]).source != source,
    ensures
        mapping_position(entries, source, i) == Some(k),
    decreases k - i,
{
    if i < k {
        assert(entries[i].source != source);
        lemma_first_entry(entries, source, i + 1, k);
    }
}

proof fn lemma_position_is_first(entries: Seq<NameMappingEntryView>, source: Seq<char>, i: int)
    requires
        0 <= i <= entries.len(),
    ensures
        mapping_position(entries, source, i) matches Some(k) ==> forall|j: int|
            i <= j < k ==> (#[trigger] entries[j]).source != source,
    decreases entries.len() - i,
{
    if i < entries.len() && entries[i].source != source {
        lemma_position_is_first(entries, source, i + 1);
    }
}

/// Setting an entry gives that name its new name, and leaves all other names as they were; the
/// first entry of a name is the one that counts.
pub proof fn law_setting_an_entry(
    entries: Seq<NameMappingEntryView>,
    source: Seq<char>,
    target: Seq<char>,
    other: Seq<char>,
)
    requires
        !blank(source),
        !blank(target),
    ensures
        new_name(upserted(entries, source, target), trim(source)) == Some(trim(target)),
        other != trim(source) ==> new_name(upserted(entries, source, target), other) == new_name(
            entries,
            other,
        ),
{
    let name = trim(source);
    let after = upserted(entries, source, target);
    lemma_mapping_position(entries, name, 0);
    lemma_position_is_first(entries, name, 0);
    match mapping_position(entries, name, 0) {
        Some(k) => {
            assert forall|j: int| 0 <= j < k implies (#[trigger] after[j]).source != name by {
                assert(after[j] == entries[j]);
            }
            lemma_first_entry(after, name, 0, k);
        },
        None => {
            assert forall|j: int| 0 <= j < entries.len() implies (#[trigger] after[j]).source
                != name by {
                assert(after[j] == entries[j]);
            }
            lemma_first_entry(after, name, 0, entries.len() as int);
        },
    }
    if other != name {
        lemma_same_name(entries, after, other);
    }
}

proof fn lemma_same_name(
    a: Seq<NameMappingEntryView>,
    b: Seq<NameMappingEntryView>,
    name: Seq<char>,
)
    requires
        b.len() == a.len() || b.len() == a.len() + 1,
        forall|i: int|
            0 <= i < a.len() ==> (#[trigger] a[i]).source == b[i].source && (a[i].source == name
                ==> a[i] == b[i]),
        b.len() == a.len() + 1 ==> b.last().source != name,
    ensures
        new_name(b, name) == new_name(a, name),
{
    lemma_mapping_position(a, name, 0);
    lemma_position_is_first(a, name, 0);
    lemma_mapping_position(b, name, 0);
    match mapping_position(a, name, 0) {
        Some(k) => {
            assert forall|j: int| 0 <= j < k implies (#[trigger] b[j]).source != name by {
                assert(a[j].source == b[j].source);
            }
            assert(a[k].source == b[k].source);
            lemma_first_entry(b, name, 0, k);
        },
        None => {
            if mapping_position(b, name, 0) is Some {
                let k = mapping_position(b, name, 0)->0;
                if k < a.len() {
                    assert(a[k].source == b[k].source);
                }
            }
        },
    }
}

proof fn lemma_all_others_stay(
    entries: Seq<NameMappingEntryView>,
    more: Seq<NameMappingEntryView>,
    name: Seq<char>,
)
    requires
        forall|i: int| 0 <= i < more.len() ==> trim((#[trigger] more[i]).source) != name,
    ensures
        new_name(upserted_all(entries, more), name) == new_name(entries, name),
    decreases more.len(),
{
    if more.len() > 0 {
        let rest = more.drop_last();
        assert forall|i: int| 0 <= i < rest.len() implies trim((#[trigger] rest[i]).source)
            != name by {
            assert(rest[i] == more[i]);
        }
        lemma_all_others_stay(entries, rest, name);
        let last = more[more.len() - 1];
        assert(trim(last.source) != name);
        if !blank(last.source) && !blank(last.target) {
            law_setting_an_entry(upserted_all(entries, rest), last.source, last.target, name);
        }
    }
}

/// Of several entries the last one for a name decides.
pub proof fn law_last_entry_decides(
    entries: Seq<NameMappingEntryView>,
    more: Seq<NameMappingEntryView>,
    i: int,
)
    requires
        0 <= i < more.len(),
        !blank(more[i].source),
        !blank(more[i].target),
        forall|j: int| i < j < more.len() ==> trim((#[trigger] more[j]).source) != trim(
            more[i].source,
        ),
    ensures
        new_name(upserted_all(entries, more), trim(more[i].source)) == Some(trim(more[i].target)),
    decreases more.len(),
{
    let rest = more.drop_last();
    let name = trim(more[i].source);
    let last = more[more.len() - 1];
    if i < rest.len() {
        assert forall|j: int| i < j < rest.len() implies trim((#[trigger] rest[j]).source) != trim(
            rest[i].source,
        ) by {
            assert(rest[j] == more[j]);
        }
        law_last_entry_decides(entries, rest, i);
        if !blank(last.source) && !blank(last.target) {
            law_setting_an_entry(upserted_all(entries, rest), last.source, last.target, name);
        }
    } else {
        law_setting_an_entry(upserted_all(entries, rest), last.source, last.target, name);
    }
}

/// The protagonist gets the name that is set for it, whatever was kept and whatever was found,
/// unless the lists of aliases and of further names give the same name another one.
pub proof fn law_protagonist_gets_its_new_name(
    entries: Seq<NameMappingEntryView>,
    settings: NovelSettingsView,
)
    requires
        !blank(settings.protagonist_name),
        !blank(settings.rewritten_protagonist_name),
        forall|i: int|
            0 <= i < line_mappings(lines(normal_form(settings.protagonist_aliases))).len() ==> trim(
                (#[trigger] line_mappings(
                    lines(normal_form(settings.protagonist_aliases)),
                )[i]).source,
            ) != trim(settings.protagonist_name),
        forall|i: int|
            0 <= i < line_mappings(lines(normal_form(settings.additional_feminize_names))).len()
                ==> trim(
                (#[trigger] line_mappings(
                    lines(normal_form(settings.additional_feminize_names)),
                )[i]).source,
            ) != trim(settings.protagonist_name),
    ensures
        new_name(with_demands(entries, settings), trim(settings.protagonist_name)) == Some(
            trim(settings.rewritten_protagonist_name),
        ),
{
    let name = trim(settings.protagonist_name);
    law_setting_an_entry(
        entries,
        settings.protagonist_name,
        settings.rewritten_protagonist_name,
        name,
    );
    let first = upserted(entries, settings.protagonist_name, settings.rewritten_protagonist_name);
    let aliases = line_mappings(lines(normal_form(settings.protagonist_aliases)));
    let more = line_mappings(lines(normal_form(settings.additional_feminize_names)));
    lemma_all_others_stay(first, aliases, name);
    lemma_all_others_stay(upserted_all(first, aliases), more, name);
}

/// A new name that the list of further names gives is the one that is kept.
pub proof fn law_demanded_name_is_kept(
    entries: Seq<NameMappingEntryView>,
    settings: NovelSettingsView,
    i: int,
)
    requires
        ({
            let more = line_mappings(lines(normal_form(settings.additional_feminize_names)));
            &&& 0 <= i < more.len()
            &&& !blank(more[i].source)
            &&& !blank(more[i].target)
            &&& forall|j: int|
                i < j < more.len() ==> trim((#[trigger] more[j]).source) != trim(more[i].source)
        }),
    ensures
        ({
            let more = line_mappings(lines(normal_form(settings.additional_feminize_names)));
            new_name(with_demands(entries, settings), trim(more[i].source)) == Some(
                trim(more[i].target),
            )
        }),
{
    let first = if blank(settings.rewritten_protagonist_name) {
        entries
    } else {
        upserted(entries, settings.protagonist_name, settings.rewritten_protagonist_name)
    };
    let second = upserted_all(
        first,
        line_mappings(lines(normal_form(settings.protagonist_aliases))),
    );
    law_last_entry_decides(
        second,
        line_mappings(lines(normal_form(settings.additional_feminize_names))),
        i,
    );
}

/// The local rule fills gaps only: a name that has a new one keeps it.
pub proof fn law_fallback_leaves_known_names(
    entries: Seq<NameMappingEntryView>,
    names: Seq<Seq<char>>,
    name: Seq<char>,
)
    requires
        new_name(entries, name) matches Some(t) && !blank(t),
        forall|i: int| 0 <= i < names.len() ==> is_tidy(#[trigger] names[i]),
    ensures
        new_name(with_fallbacks(entries, names), name) == new_name(entries, name),
    decreases names.len(),
{
    if names.len() > 0 {
        let rest = names.drop_last();
        assert forall|i: int| 0 <= i < rest.len() implies is_tidy(#[trigger] rest[i]) by {
            assert(rest[i] == names[i]);
        }
        law_fallback_leaves_known_names(entries, rest, name);
        let before = with_fallbacks(entries, rest);
        let last = names[names.len() - 1];
        assert(is_tidy(last));
        lemma_mapping_position(before, name, 0);
        let k = mapping_position(before, name, 0)->0;
        assert(before[k].source == name);
        if last == name {
            assert(mapped(before, name));
        } else if !mapped(before, last) && !blank(fallback_name(last)) {
            law_setting_an_entry(before, last, fallback_name(last), name);
        }
    }
}

/// A name without a new one gets that of the local rule.
pub proof fn law_fallback_fills_the_gap(entries: Seq<NameMappingEntryView>, name: Seq<char>)
    requires
        is_tidy(name),
        !mapped(entries, name),
        !blank(fallback_name(name)),
    ensures
        new_name(with_fallbacks(entries, seq![name]), name) == Some(trim(fallback_name(name))),
{
    assert(seq![name].drop_last() =~= Seq::<Seq<char>>::empty());
    assert(seq![name].last() == name);
    reveal_with_fuel(with_fallbacks, 2);
    law_setting_an_entry(entries, name, fallback_name(name), name);
}

// ---- the answer of a model ------------------------------------------------------------------
proof fn lemma_generated(items: Seq<JsonView>, expected: Seq<Seq<char>>, e: NameMappingEntryView)
    ensures
        generated_entries(items, expected).contains(e) <==> exists|i: int|
            0 <= i < items.len() && generated_entry(#[trigger] items[i], expected) == Some(e),
    decreases items.len(),
{
    if items.len() > 0 {
        let rest = items.drop_last();
        lemma_generated(rest, expected, e);
        if generated_entry(items.last(), expected) is Some {
            lemma_push_contains(
                generated_entries(rest, expected),
                generated_entry(items.last(), expected)->0,
                e,
            );
        }
        if exists|i: int|
            0 <= i < items.len() && generated_entry(#[trigger] items[i], expected) == Some(e) {
            let i = choose|i: int|
                0 <= i < items.len() && generated_entry(#[trigger] items[i], expected) == Some(e);
            if i < rest.len() {
                assert(rest[i] == items[i]);
            }
        }
        if exists|i: int|
            0 <= i < rest.len() && generated_entry(#[trigger] rest[i], expected) == Some(e) {
            let i = choose|i: int|
                0 <= i < rest.len() && generated_entry(#[trigger] rest[i], expected) == Some(e);
            assert(items[i] == rest[i]);
        }
        assert(items[items.len() - 1] == items.last());
    }
}

/// A model that gives a new name to a name it was asked for is taken at its word: the answer is
/// read, and the pair is in it.
pub proof fn law_answered_name_is_taken(
    value: JsonView,
    sources: Seq<Seq<char>>,
    items: Seq<JsonView>,
    i: int,
    source: Seq<char>,
    target: Seq<char>,
    n: int,
)
    requires
        field(value, "names"@) == Some(JsonView::List(items)),
        0 <= i < items.len(),
        field(items[i], "source"@) == Some(JsonView::Text(source)),
        field(items[i], "target"@) == Some(JsonView::Text(target)),
        trim(source).len() > 0,
        trim(target).len() > 0,
        trim(source) != trim(target),
        0 <= n < sources.len(),
        trim(sources[n]) == trim(source),
    ensures
        generated_mapping(value, sources) matches Ok(found) && found.contains(
            NameMappingEntryView { source: trim(source), target: trim(target) },
        ),
{
    let expected = Seq::new(sources.len(), |k: int| trim(sources[k]));
    let e = NameMappingEntryView { source: trim(source), target: trim(target) };
    assert(expected[n] == trim(source));
    assert(expected.contains(trim(source)));
    assert(generated_entry(items[i], expected) == Some(e));
    lemma_generated(items, expected, e);
    let found = generated_entries(items, expected);
    assert(found[found.index_of(e)] == e);
}

/// Nothing is taken from an answer but names that were asked for, each with another name.
pub proof fn law_taken_names_were_asked_for(
    value: JsonView,
    sources: Seq<Seq<char>>,
    found: Seq<NameMappingEntryView>,
    k: int,
)
    requires
        generated_mapping(value, sources) == Ok::<Seq<NameMappingEntryView>, Seq<char>>(found),
        0 <= k < found.len(),
    ensures
        exists|n: int| 0 <= n < sources.len() && trim(#[trigger] sources[n]) == found[k].source,
        found[k].target.len() > 0,
        found[k].target != found[k].source,
{
    let expected = Seq::new(sources.len(), |i: int| trim(sources[i]));
    let items = either_field(value, "names"@, "mappings"@, "name_mapping"@)->0->List_0;
    assert(found.contains(found[k]));
    lemma_generated(items, expected, found[k]);
    let i = choose|i: int|
        0 <= i < items.len() && generated_entry(#[trigger] items[i], expected) == Some(found[k]);
    let n = expected.index_of(found[k].source);
    assert(trim(sources[n]) == found[k].source);
}

// ---- what the user writes -------------------------------------------------------------------
/// An arrow between two names asks for the first to become the second.
pub proof fn law_arrow_gives_a_new_name(left: Seq<char>, arrow: Seq<char>, right: Seq<char>)
    requires
        arrow == "->"@ || arrow == "=>"@ || arrow == "→"@,
        left.len() > 0,
        right.len() > 0,
        !white(left[0]),
        !white(right.last()),
        trim(left) != trim(right),
        !blank(left),
        !blank(right),
        forall|i: int| 0 <= i < left.len() ==> {
            let c = #[trigger] left[i];
            c != '-' && c != '=' && c != '→' && c != '>'
        },
        forall|i: int| 0 <= i < right.len() ==> {
            let c = #[trigger] right[i];
            c != '-' && c != '=' && c != '→' && c != '>'
        },
    ensures
        entry_wish(left + arrow + right) == Some((trim(left), Some(trim(right)))),
{
    reveal_strlit("->");
    reveal_strlit("=>");
    reveal_strlit("→");
    let value = left + arrow + right;
    lemma_trimmed_already(value);
    let n = left.len() as int;
    assert(value.subrange(n, (n + arrow.len()) as int) =~= arrow);
    assert(matches_at(value, arrow, n));
    assert(value.take(n) =~= left);
    assert(value.skip((n + arrow.len()) as int) =~= right);
    assert(arrows()[0] == "->"@ && arrows()[1] == "=>"@ && arrows()[2] == "→"@);
    assert forall|k: int, i: int|
        0 <= k < 3 && #[trigger] matches_at(value, arrows()[k], i) implies arrows()[k] == arrow && i
        == n by {
        let p = arrows()[k];
        assert(value.subrange(i, i + p.len())[0] == p[0]);
        assert(value[i] == p[0]);
        if i < n {
            assert(left[i] == value[i]);
        } else if i >= n + arrow.len() {
            assert(right[i - n - arrow.len()] == value[i]);
        }
        if p.len() == 2 {
            assert(value.subrange(i, i + p.len())[1] == p[1]);
            assert(value[i + 1] == p[1]);
        }
    }
    lemma_find_arrow(value, arrows()[0], arrow, n);
    lemma_find_arrow(value, arrows()[1], arrow, n);
    lemma_find_arrow(value, arrows()[2], arrow, n);
    reveal_with_fuel(wish_from, 4);
}

proof fn lemma_find_arrow(value: Seq<char>, p: Seq<char>, arrow: Seq<char>, n: int)
    requires
        0 <= n,
        p.len() > 0,
        matches_at(value, arrow, n),
        forall|i: int| #[trigger] matches_at(value, p, i) ==> p == arrow && i == n,
    ensures
        find_from(value, p, 0) == if p == arrow {
            Some(n)
        } else {
            None
        },
{
    lemma_find_from(value, p, 0);
    if p == arrow {
        assert(matches_at(value, p, n));
    }
}

/// A name without an arrow is asked for as it stands.
pub proof fn law_plain_name_is_asked_for(name: Seq<char>)
    requires
        !blank(name),
        forall|i: int| 0 <= i < name.len() ==> {
            let c = #[trigger] name[i];
            c != '-' && c != '=' && c != '→'
        },
    ensures
        entry_wish(name) == Some((trim(name), None::<Seq<char>>)),
{
    reveal_strlit("->");
    reveal_strlit("=>");
    reveal_strlit("→");
    let value = trim(name);
    let ends = law_trimmed_text_is_the_middle(name);
    assert(arrows()[0] == "->"@ && arrows()[1] == "=>"@ && arrows()[2] == "→"@);
    assert forall|k: int, i: int| 0 <= k < 3 implies !#[trigger] matches_at(
        value,
        arrows()[k],
        i,
    ) by {
        if matches_at(value, arrows()[k], i) {
            let p = arrows()[k];
            assert(value.subrange(i, i + p.len())[0] == p[0]);
            assert(value[i] == name[ends.0 + i]);
        }
    }
    lemma_find_from(value, arrows()[0], 0);
    lemma_find_from(value, arrows()[1], 0);
    lemma_find_from(value, arrows()[2], 0);
    reveal_with_fuel(wish_from, 4);
}

proof fn lemma_collected(parts: Seq<Seq<char>>, name: Seq<char>)
    ensures
        (exists|k: int|
            0 <= k < collect_wishes(parts).len() && (#[trigger] collect_wishes(parts)[k]).0 == name)
            <==> (exists|i: int|
            0 <= i < parts.len() && (entry_wish(#[trigger] parts[i]) matches Some(w) && w.0
                == name)),
    decreases parts.len(),
{
    if parts.len() > 0 {
        let rest = parts.drop_last();
        let before = collect_wishes(rest);
        let all = collect_wishes(parts);
        lemma_collected(rest, name);
        assert(parts[parts.len() - 1] == parts.last());
        if let Some(w) = entry_wish(parts.last()) {
            lemma_wish_position(before, w.0, 0);
        }
        if exists|i: int|
            0 <= i < parts.len() && (entry_wish(#[trigger] parts[i]) matches Some(w) && w.0
                == name) {
            let i = choose|i: int|
                0 <= i < parts.len() && (entry_wish(#[trigger] parts[i]) matches Some(w) && w.0
                    == name);
            if i < rest.len() {
                assert(rest[i] == parts[i]);
                let k = choose|k: int| 0 <= k < before.len() && (#[trigger] before[k]).0 == name;
                assert(all[k].0 == name);
            } else {
                let w = entry_wish(parts.last())->0;
                match wish_position(before, w.0, 0) {
                    Some(k) => {
                        assert(all[k].0 == name);
                    },
                    None => {
                        assert(all[before.len() as int].0 == name);
                    },
                }
            }
        }
        if exists|k: int| 0 <= k < all.len() && (#[trigger] all[k]).0 == name {
            let k = choose|k: int| 0 <= k < all.len() && (#[trigger] all[k]).0 == name;
            if k < before.len() && before[k].0 == name {
                let i = choose|i: int|
                    0 <= i < rest.len() && (entry_wish(#[trigger] rest[i]) matches Some(w) && w.0
                        == name);
                assert(parts[i] == rest[i]);
            }
        }
    }
}

proof fn lemma_one_row(s: Seq<char>)
    requires
        forall|i: int| 0 <= i < s.len() ==> #[trigger] s[i] != '\n',
    ensures
        rows_of(s) == seq![s],
    decreases s.len(),
{
    if s.len() > 0 {
        let rest = s.drop_last();
        assert forall|i: int| 0 <= i < rest.len() implies #[trigger] rest[i] != '\n' by {
            assert(rest[i] == s[i]);
        }
        lemma_one_row(rest);
        assert(s[s.len() - 1] != '\n');
        assert(rest.push(s.last()) =~= s);
        assert(rows_of(s) =~= seq![s]);
    } else {
        assert(s =~= Seq::<char>::empty());
    }
}

proof fn lemma_lines_of_join(texts: Seq<Seq<char>>)
    requires
        forall|i: int| 0 <= i < texts.len() ==> (#[trigger] texts[i]).len() > 0 && unseparated(
            texts[i],
        ),
    ensures
        texts.len() > 0 ==> rows_of(join(texts, "\n"@)) == texts,
        lines(join(texts, "\n"@)) == texts,
    decreases texts.len(),
{
    reveal_strlit("\n");
    let seps = entry_separators();
    assert(seps[0] == '\n' && seps[1] == '\r');
    assert(seps.contains('\n') && seps.contains('\r'));
    if texts.len() == 0 {
        let none = rows_of(Seq::<char>::empty());
        assert(none =~= seq![Seq::<char>::empty()]);
        assert(lines(join(texts, "\n"@)) =~= texts);
    } else {
        let rest = texts.drop_last();
        let last = texts[texts.len() - 1];
        assert(last.len() > 0 && unseparated(last));
        assert forall|i: int| 0 <= i < last.len() implies #[trigger] last[i] != '\n' by {
            assert(!seps.contains(last[i]));
        }
        lemma_one_row(last);
        if rest.len() > 0 {
            assert forall|i: int| 0 <= i < rest.len() implies (#[trigger] rest[i]).len() > 0
                && unseparated(rest[i]) by {
                assert(rest[i] == texts[i]);
            }
            lemma_lines_of_join(rest);
            let before = join(rest, "\n"@);
            law_line_feed_parts_the_rows(before, last);
            assert(join(texts, "\n"@) =~= before.push('\n') + last);
            assert(rest + seq![last] =~= texts);
        } else {
            assert(texts =~= seq![last]);
        }
        let parts = rows_of(join(texts, "\n"@));
        assert(parts == texts);
        assert forall|i: int| 0 <= i < texts.len() implies strip_cr(#[trigger] texts[i])
            == texts[i] by {
            let t = texts[i];
            assert(unseparated(t));
            assert(!seps.contains(t[t.len() - 1]));
        }
        assert(lines(join(texts, "\n"@)) =~= texts);
    }
}

proof fn lemma_sources_of_rows(rows: Seq<Seq<char>>, name: Seq<char>)
    ensures
        line_sources(rows).contains(name) <==> exists|i: int|
            0 <= i < rows.len() && (entry_wish(#[trigger] rows[i]) matches Some(w) && w.0 == name),
    decreases rows.len(),
{
    if rows.len() > 0 {
        let rest = rows.drop_last();
        lemma_sources_of_rows(rest, name);
        if let Some(w) = entry_wish(rows.last()) {
            lemma_push_contains(line_sources(rest), w.0, name);
        }
        if exists|i: int|
            0 <= i < rows.len() && (entry_wish(#[trigger] rows[i]) matches Some(w) && w.0 == name) {
            let i = choose|i: int|
                0 <= i < rows.len() && (entry_wish(#[trigger] rows[i]) matches Some(w) && w.0
                    == name);
            if i < rest.len() {
                assert(rest[i] == rows[i]);
            }
        }
        if exists|i: int|
            0 <= i < rest.len() && (entry_wish(#[trigger] rest[i]) matches Some(w) && w.0 == name) {
            let i = choose|i: int|
                0 <= i < rest.len() && (entry_wish(#[trigger] rest[i]) matches Some(w) && w.0
                    == name);
            assert(rows[i] == rest[i]);
        }
        assert(rows[rows.len() - 1] == rows.last());
    }
}

/// The names that are read from the user's text are the names of its entries, all of them and no
/// others. It is left open where a name without a new one holds an arrow.
pub proof fn law_names_read_are_the_names_written(input: Seq<char>, name: Seq<char>)
    requires
        forall|i: int| 0 <= i < wishes_of(input).len() ==> is_plain(#[trigger] wishes_of(input)[i]),
    ensures
        line_sources(lines(normal_form(input))).contains(name) <==> exists|i: int|
            0 <= i < split_on(input, entry_separators()).len() && (entry_wish(
                #[trigger] split_on(input, entry_separators())[i],
            ) matches Some(w) && w.0 == name),
{
    let parts = split_on(input, entry_separators());
    let wishes = wishes_of(input);
    let texts = Seq::new(wishes.len(), |i: int| wish_text(wishes[i]));
    lemma_pieces_are_unseparated(input);
    lemma_wishes_are_sound(parts);
    assert forall|i: int| 0 <= i < texts.len() implies (#[trigger] texts[i]).len() > 0
        && unseparated(texts[i]) && entry_wish(texts[i]) == Some(wishes[i]) by {
        assert(is_sound(wishes[i]));
        lemma_entry_reads_back(wishes[i]);
    }
    lemma_lines_of_join(texts);
    lemma_sources_of_rows(texts, name);
    lemma_collected(parts, name);
    if exists|i: int|
        0 <= i < texts.len() && (entry_wish(#[trigger] texts[i]) matches Some(w) && w.0 == name) {
        let i = choose|i: int|
            0 <= i < texts.len() && (entry_wish(#[trigger] texts[i]) matches Some(w) && w.0
                == name);
        assert(wishes[i].0 == name);
    }
    if exists|k: int| 0 <= k < wishes.len() && (#[trigger] wishes[k]).0 == name {
        let k = choose|k: int| 0 <= k < wishes.len() && (#[trigger] wishes[k]).0 == name;
        assert(entry_wish(texts[k]) == Some(wishes[k]));
    }
}

proof fn lemma_with_names(names: Seq<Seq<char>>, more: Seq<Seq<char>>, x: Seq<char>)
    ensures
        with_names(names, more).contains(x) <==> names.contains(x) || (x.len() > 0
            && more.contains(x)),
    decreases more.len(),
{
    if more.len() > 0 {
        let rest = more.drop_last();
        lemma_with_names(names, rest, x);
        let before = with_names(names, rest);
        lemma_push_contains(before, more.last(), x);
        lemma_push_contains(rest, more.last(), x);
        assert(rest.push(more.last()) =~= more);
    }
}

/// A new name is needed for the protagonist, for each alias and for each further name, and for no
/// one else.
pub proof fn law_names_that_need_a_new_one(settings: NovelSettingsView, name: Seq<char>)
    requires
        name.len() > 0,
    ensures
        required_names(settings).contains(name) <==> name == trim(settings.protagonist_name)
            || line_sources(lines(normal_form(settings.protagonist_aliases))).contains(name)
            || line_sources(lines(normal_form(settings.additional_feminize_names))).contains(name),
{
    let own = trim(settings.protagonist_name);
    let first = with_name(Seq::empty(), own);
    lemma_push_contains(Seq::<Seq<char>>::empty(), own, name);
    let aliases = line_sources(lines(normal_form(settings.protagonist_aliases)));
    let more = line_sources(lines(normal_form(settings.additional_feminize_names)));
    lemma_with_names(first, aliases, name);
    lemma_with_names(with_names(first, aliases), more, name);
}

/// The old names of the protagonist are its name and its aliases.
pub proof fn law_old_names_of_the_protagonist(settings: NovelSettingsView, name: Seq<char>)
    requires
        name.len() > 0,
    ensures
        crate::review_filter::source_names(settings).contains(name) <==> name == trim(
            settings.protagonist_name,
        ) || line_sources(lines(normal_form(settings.protagonist_aliases))).contains(name),
{
    let own = trim(settings.protagonist_name);
    let first = with_name(Seq::empty(), own);
    lemma_push_contains(Seq::<Seq<char>>::empty(), own, name);
    lemma_with_names(
        first,
        line_sources(lines(normal_form(settings.protagonist_aliases))),
        name,
    );
}

/// A name that was kept for a novel is there again when it is read.
pub proof fn law_kept_name_is_read(
    value: JsonView,
    items: Seq<JsonView>,
    i: int,
    source: Seq<char>,
    target: Seq<char>,
)
    requires
        list_field(value, "names"@) == Some(items),
        0 <= i < items.len(),
        field(items[i], "source"@) == Some(JsonView::Text(source)),
        field(items[i], "target"@) == Some(JsonView::Text(target)),
        trim(source).len() > 0,
        trim(target).len() > 0,
        forall|j: int|
            i < j < items.len() ==> trimmed_text(field(#[trigger] items[j], "source"@)) != trim(
                source,
            ),
    ensures
        new_name(kept_mapping(value), trim(source)) == Some(trim(target)),
{
    let start = match field(value, "protagonist"@) {
        Some(p) => match kept_entry(p) {
            Some(e) => seq![e],
            None => Seq::empty(),
        },
        None => Seq::empty(),
    };
    lemma_kept_entries(start, items, i, source, target);
}

proof fn lemma_kept_entries(
    start: Seq<NameMappingEntryView>,
    items: Seq<JsonView>,
    i: int,
    source: Seq<char>,
    target: Seq<char>,
)
    requires
        0 <= i < items.len(),
        field(items[i], "source"@) == Some(JsonView::Text(source)),
        field(items[i], "target"@) == Some(JsonView::Text(target)),
        trim(source).len() > 0,
        trim(target).len() > 0,
        forall|j: int|
            i < j < items.len() ==> trimmed_text(field(#[trigger] items[j], "source"@)) != trim(
                source,
            ),
    ensures
        new_name(kept_entries(start, items), trim(source)) == Some(trim(target)),
    decreases items.len(),
{
    let rest = items.drop_last();
    let before = kept_entries(start, rest);
    lemma_trim_again(source);
    lemma_trim_again(target);
    if i < rest.len() {
        assert forall|j: int| i < j < rest.len() implies trimmed_text(
            field(#[trigger] rest[j], "source"@),
        ) != trim(source) by {
            assert(rest[j] == items[j]);
        }
        lemma_kept_entries(start, rest, i, source, target);
        let last = items[items.len() - 1];
        assert(trimmed_text(field(last, "source"@)) != trim(source));
        if kept_entry(last) is Some {
            let e = kept_entry(last)->0;
            match field(last, "source"@) {
                Some(JsonView::Text(s)) => {
                    lemma_trim_again(s);
                },
                _ => {},
            }
            match field(last, "target"@) {
                Some(JsonView::Text(s)) => {
                    lemma_trim_again(s);
                },
                _ => {},
            }
            law_setting_an_entry(before, e.source, e.target, trim(source));
        }
    } else {
        law_setting_an_entry(before, trim(source), trim(target), trim(source));
    }
}

/// A new name that was found is taken, and the local rule leaves it as it is.
pub proof fn law_found_name_is_used(
    mappings: Seq<NameMappingEntryView>,
    required: Seq<Seq<char>>,
    found: Seq<NameMappingEntryView>,
    i: int,
)
    requires
        0 <= i < found.len(),
        !blank(found[i].source),
        !blank(found[i].target),
        forall|j: int| i < j < found.len() ==> trim((#[trigger] found[j]).source) != trim(
            found[i].source,
        ),
        forall|n: int| 0 <= n < required.len() ==> is_tidy(#[trigger] required[n]),
    ensures
        new_name(completed_mapping(mappings, required, found), trim(found[i].source)) == Some(
            trim(found[i].target),
        ),
{
    law_last_entry_decides(mappings, found, i);
    lemma_trim_again(found[i].target);
    assert(!blank(trim(found[i].target)));
    law_fallback_leaves_known_names(
        upserted_all(mappings, found),
        required,
        trim(found[i].source),
    );
}

/// An alias for which the settings give a new name gets that one, unless the additional names say
/// otherwise.
pub proof fn law_demanded_alias_is_kept(
    entries: Seq<NameMappingEntryView>,
    settings: NovelSettingsView,
    i: int,
)
    requires
        ({
            let aliases = line_mappings(lines(normal_form(settings.protagonist_aliases)));
            let more = line_mappings(lines(normal_form(settings.additional_feminize_names)));
            &&& 0 <= i < aliases.len()
            &&& !blank(aliases[i].source)
            &&& !blank(aliases[i].target)
            &&& forall|j: int|
                i < j < aliases.len() ==> trim((#[trigger] aliases[j]).source) != trim(
                    aliases[i].source,
                )
            &&& forall|j: int|
                0 <= j < more.len() ==> trim((#[trigger] more[j]).source) != trim(aliases[i].source)
        }),
    ensures
        ({
            let aliases = line_mappings(lines(normal_form(settings.protagonist_aliases)));
            new_name(with_demands(entries, settings), trim(aliases[i].source)) == Some(
                trim(aliases[i].target),
            )
        }),
{
    let aliases = line_mappings(lines(normal_form(settings.protagonist_aliases)));
    let more = line_mappings(lines(normal_form(settings.additional_feminize_names)));
    let first = if blank(settings.rewritten_protagonist_name) {
        entries
    } else {
        upserted(entries, settings.protagonist_name, settings.rewritten_protagonist_name)
    };
    law_last_entry_decides(first, aliases, i);
    lemma_others_stay(upserted_all(first, aliases), more, trim(aliases[i].source));
}

proof fn lemma_others_stay(
    entries: Seq<NameMappingEntryView>,
    more: Seq<NameMappingEntryView>,
    name: Seq<char>,
)
    requires
        forall|j: int| 0 <= j < more.len() ==> trim((#[trigger] more[j]).source) != name,
    ensures
        new_name(upserted_all(entries, more), name) == new_name(entries, name),
    decreases more.len(),
{
    if more.len() > 0 {
        let rest = more.drop_last();
        assert forall|j: int| 0 <= j < rest.len() implies trim((#[trigger] rest[j]).source)
            != name by {
            assert(rest[j] == more[j]);
        }
        lemma_others_stay(entries, rest, name);
        let last = more[more.len() - 1];
        assert(trim(last.source) != name);
        if !blank(last.source) && !blank(last.target) {
            law_setting_an_entry(upserted_all(entries, rest), last.source, last.target, name);
        }
    }
}

/// Where a name is asked for twice the first new name counts; a later one only fills a gap.
pub proof fn law_first_new_name_counts(entries: Seq<Wish>, w: Wish, k: int)
    requires
        0 <= k < entries.len(),
        entries[k].0 == w.0,
        forall|j: int| 0 <= j < k ==> (#[trigger] entries[j]).0 != w.0,
    ensures
        add_wish(entries, w).len() == entries.len(),
        add_wish(entries, w)[k].0 == w.0,
        entries[k].1 is Some ==> add_wish(entries, w)[k].1 == entries[k].1,
        entries[k].1 is None ==> add_wish(entries, w)[k].1 == w.1,
        forall|j: int|
            0 <= j < entries.len() && j != k ==> #[trigger] add_wish(entries, w)[j] == entries[j],
{
    lemma_wish_at(entries, w.0, 0, k);
}

proof fn lemma_wish_at(entries: Seq<Wish>, source: Seq<char>, from: int, k: int)
    requires
        0 <= from <= k < entries.len(),
        entries[k].0 == source,
        forall|j: int| 0 <= j < k ==> (#[trigger] entries[j]).0 != source,
    ensures
        wish_position(entries, source, from) == Some(k),
    decreases k - from,
{
    if from < k {
        assert(entries[from].0 != source);
        lemma_wish_at(entries, source, from + 1, k);
    }
}

/// What stands between two names: a line break, a comma, an enumeration comma or a semicolon.
pub proof fn law_what_parts_names(c: char)
    ensures
        entry_separators().contains(c) <==> c == '\n' || c == '\r' || c == ',' || c == '，' || c == '、'
            || c == ';' || c == '；',
{
    let s = entry_separators();
    assert(s.len() == 7);
    assert(s[0] == '\n' && s[1] == '\r' && s[2] == ',' && s[3] == '，' && s[4] == '、' && s[5] == ';'
        && s[6] == '；');
}

/// The protagonist of a kept mapping is read like any other name.
pub proof fn law_kept_protagonist_is_read(
    value: JsonView,
    item: JsonView,
    source: Seq<char>,
    target: Seq<char>,
)
    requires
        field(value, "protagonist"@) == Some(item),
        field(item, "source"@) == Some(JsonView::Text(source)),
        field(item, "target"@) == Some(JsonView::Text(target)),
        trim(source).len() > 0,
        trim(target).len() > 0,
        list_field(value, "names"@) is None,
    ensures
        kept_mapping(value) == seq![
            NameMappingEntryView { source: trim(source), target: trim(target) },
        ],
{
}

/// An answer may call its fields by other names; the first of them that is there counts.
pub proof fn law_other_names_of_the_fields(j: JsonView, a: Seq<char>, b: Seq<char>, c: Seq<char>)
    ensures
        field(j, a) is Some ==> either_field(j, a, b, c) == field(j, a),
        field(j, a) is None && field(j, b) is Some ==> either_field(j, a, b, c) == field(j, b),
        field(j, a) is None && field(j, b) is None ==> either_field(j, a, b, c) == field(j, c),
{
}

/// Under any of its names the list of an answer is read, and so are the two names of an item.
pub proof fn law_answer_under_other_names_is_taken(
    value: JsonView,
    sources: Seq<Seq<char>>,
    items: Seq<JsonView>,
    i: int,
    source: Seq<char>,
    target: Seq<char>,
    n: int,
)
    requires
        field(value, "names"@) is None,
        field(value, "mappings"@) == Some(JsonView::List(items)) || (field(value, "mappings"@)
            is None && field(value, "name_mapping"@) == Some(JsonView::List(items))),
        0 <= i < items.len(),
        field(items[i], "source"@) is None,
        field(items[i], "target"@) is None,
        field(items[i], "original"@) == Some(JsonView::Text(source)) || (field(
            items[i],
            "original"@,
        ) is None && field(items[i], "from"@) == Some(JsonView::Text(source))),
        field(items[i], "rewritten"@) == Some(JsonView::Text(target)) || (field(
            items[i],
            "rewritten"@,
        ) is None && field(items[i], "to"@) == Some(JsonView::Text(target))),
        trim(source).len() > 0,
        trim(target).len() > 0,
        trim(source) != trim(target),
        0 <= n < sources.len(),
        trim(sources[n]) == trim(source),
    ensures
        generated_mapping(value, sources) matches Ok(found) && found.contains(
            NameMappingEntryView { source: trim(source), target: trim(target) },
        ),
{
    let expected = Seq::new(sources.len(), |i: int| trim(sources[i]));
    assert(expected[n] == trim(source));
    lemma_entry_is_generated(items, expected, i);
}

proof fn lemma_entry_is_generated(items: Seq<JsonView>, expected: Seq<Seq<char>>, i: int)
    requires
        0 <= i < items.len(),
        generated_entry(items[i], expected) is Some,
    ensures
        generated_entries(items, expected).contains(generated_entry(items[i], expected)->0),
    decreases items.len(),
{
    let rest = items.drop_last();
    let e = generated_entry(items[i], expected)->0;
    if i < rest.len() {
        lemma_entry_is_generated(rest, expected, i);
    }
    if let Some(last) = generated_entry(items.last(), expected) {
        crate::text_laws::lemma_push_contains(generated_entries(rest, expected), last, e);
    }
}

/// The characters of the local rule.
pub proof fn law_characters_of_the_local_rule()
    ensures
        feminized('炎') == Some('妍'),
        feminized('岩') == Some('妍'),
        feminized('言') == Some('妍'),
        feminized('焱') == Some('妍'),
        feminized('彦') == Some('妍'),
        feminized('旺') == Some('婉'),
        feminized('望') == Some('婉'),
        feminized('王') == Some('婉'),
        feminized('刚') == Some('婉'),
        feminized('钢') == Some('婉'),
        feminized('磊') == Some('蕾'),
        feminized('雷') == Some('蕾'),
        feminized('强') == Some('蔷'),
        feminized('伟') == Some('薇'),
        feminized('威') == Some('薇'),
        feminized('勇') == Some('咏'),
        feminized('龙') == Some('珑'),
        feminized('虎') == Some('琥'),
        feminized('峰') == Some('枫'),
        feminized('锋') == Some('枫'),
        feminized('阳') == Some('漾'),
        feminized('明') == Some('茗'),
        feminized('杰') == Some('洁'),
        feminized('豪') == Some('皓'),
        feminized('昊') == Some('皓'),
        feminized('宇') == Some('羽'),
        feminized('轩') == Some('萱'),
        feminized('飞') == Some('霏'),
        feminized('凡') == Some('樊'),
        feminized('尘') == Some('晨'),
        feminized('三') == Some('姗'),
{
}

/// What the local rule puts in has no need to be replaced.
pub proof fn law_replaced_character_stays(c: char)
    requires
        feminized(c) is Some,
    ensures
        feminized(c)->0 != c,
        feminized(feminized(c)->0) is None,
{
}

/// The request for new names holds each name, and the names that are fixed.
pub proof fn law_request_holds_every_name(
    settings: NovelSettingsView,
    sources: Seq<Seq<char>>,
    i: int,
)
    requires
        0 <= i < sources.len(),
    ensures
        holds(name_mapping_prompt(settings, sources), sources[i]),
        holds(name_mapping_prompt(settings, sources), forced_mapping(settings)),
        !blank(settings.rewritten_protagonist_name) ==> forced_mapping(settings) == trim(
            settings.protagonist_name,
        ) + " -> "@ + trim(settings.rewritten_protagonist_name),
{
    let task =
        "请为以下中文小说人物姓名生成固定的女性化姓名映射。\n\n输出 JSON 结构必须是：\n{\n  \"names\": [\n    { \"source\": \"原姓名\", \"target\": \"女性化姓名\" }\n  ]\n}\n\n要求：\n1. 每个输入姓名都必须输出一条映射。\n2. target 必须是中文姓名，不能为空，不能与 source 完全相同。\n3. 优先保留姓氏，名字部分使用同音或近音的女性化字。\n4. 若存在强制映射，必须逐字使用强制 target。\n5. 只输出 JSON，不要解释、不要 Markdown。\n\n强制映射：\n"@;
    let forced = forced_mapping(settings);
    let list = join(sources, "\n"@);
    let whole = name_mapping_prompt(settings, sources);
    assert(whole == task + forced + "\n\n待生成姓名：\n"@ + list);
    lemma_holds_end(task, forced);
    lemma_holds_more(task + forced, "\n\n待生成姓名：\n"@, forced);
    lemma_holds_more(task + forced + "\n\n待生成姓名：\n"@, list, forced);
    lemma_holds_end(task + forced + "\n\n待生成姓名：\n"@, list);
    law_joined_text_holds_its_parts(sources, "\n"@, i);
    law_holding_is_transitive(whole, list, sources[i]);
}

} // verus!
