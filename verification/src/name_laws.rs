//! The text in which the user asks for names keeps its meaning when it is put into its normal
//! form.
use vstd::prelude::*;
use crate::names::{
    arrows, collect_wishes, entry_separators, entry_wish, is_tidy, law_wishes_have_different_names,
    lemma_wish_position, names_differ, normal_form, wish_from, wish_text, wishes_of, Wish,
};
use crate::text::{
    blank, find_from, holds, join, lemma_find_from, lemma_holds_find, lemma_trim, matches_at,
    split_on, lemma_split_on_nonempty, trim, trim_end, trim_start, white,
};

verus! {

/// Whether a text holds none of the characters that separate entries.
pub open spec fn unseparated(s: Seq<char>) -> bool {
    forall|i: int| 0 <= i < s.len() ==> !entry_separators().contains(#[trigger] s[i])
}

/// What holds of every entry that is read.
pub open spec fn is_sound(w: Wish) -> bool {
    &&& is_tidy(w.0)
    &&& unseparated(w.0)
    &&& w.1 matches Some(target) ==> is_tidy(target) && unseparated(target) && target != w.0
        && !holds(w.0, "->"@)
}

/// Whether a text holds no arrow.
pub open spec fn has_no_arrow(s: Seq<char>) -> bool {
    forall|k: int| 0 <= k < arrows().len() ==> !holds(s, #[trigger] arrows()[k])
}

/// Whether an entry that gives one name only has no arrow in it.
pub open spec fn is_plain(w: Wish) -> bool {
    w.1 is None ==> has_no_arrow(w.0)
}

proof fn lemma_trim_start_part(s: Seq<char>) -> (a: int)
    ensures
        0 <= a <= s.len(),
        trim_start(s) == s.skip(a),
    decreases s.len(),
{
    if s.len() > 0 && white(s[0]) {
        let rest = s.subrange(1, s.len() as int);
        let b = lemma_trim_start_part(rest);
        assert(rest.skip(b) =~= s.skip(b + 1));
        b + 1
    } else {
        assert(s.skip(0) =~= s);
        0
    }
}

proof fn lemma_trim_end_part(s: Seq<char>) -> (b: int)
    ensures
        0 <= b <= s.len(),
        trim_end(s) == s.take(b),
    decreases s.len(),
{
    if s.len() > 0 && white(s.last()) {
        let b = lemma_trim_end_part(s.drop_last());
        assert(s.drop_last().take(b) =~= s.take(b));
        b
    } else {
        assert(s.take(s.len() as int) =~= s);
        s.len() as int
    }
}

proof fn lemma_trim_part(s: Seq<char>) -> (r: (int, int))
    ensures
        0 <= r.0 <= r.1 <= s.len(),
        trim(s) == s.subrange(r.0, r.1),
{
    let a = lemma_trim_start_part(s);
    let b = lemma_trim_end_part(s.skip(a));
    assert(s.skip(a).take(b) =~= s.subrange(a, a + b));
    (a, a + b)
}

proof fn lemma_trimmed_is_unseparated(s: Seq<char>)
    requires
        unseparated(s),
    ensures
        unseparated(trim(s)),
{
    let (a, b) = lemma_trim_part(s);
    let t = trim(s);
    assert forall|i: int| 0 <= i < t.len() implies !entry_separators().contains(
        #[trigger] t[i],
    ) by {
        assert(t[i] == s[a + i]);
    }
}

proof fn lemma_part_holds(s: Seq<char>, a: int, b: int, p: Seq<char>)
    requires
        0 <= a <= b <= s.len(),
        holds(s.subrange(a, b), p),
    ensures
        exists|j: int| a <= j && j + p.len() <= b && #[trigger] matches_at(s, p, j),
{
    let part = s.subrange(a, b);
    let i = choose|i: int| matches_at(part, p, i);
    assert(part.subrange(i, i + p.len()) =~= s.subrange(a + i, a + i + p.len()));
    assert(matches_at(s, p, a + i));
}

proof fn lemma_wish_is_sound(value: Seq<char>, k: int)
    requires
        is_tidy(value),
        unseparated(value),
        0 <= k <= arrows().len(),
        forall|j: int| 0 <= j < k ==> !holds(value, #[trigger] arrows()[j]),
    ensures
        wish_from(value, k) matches Some(w) ==> is_sound(w),
    decreases arrows().len() - k,
{
    if k < arrows().len() {
        lemma_find_from(value, arrows()[k], 0);
        lemma_holds_find(value, arrows()[k]);
        match find_from(value, arrows()[k], 0) {
            Some(at) => {
                let left = value.take(at);
                let right = value.skip(at + arrows()[k].len());
                assert forall|i: int| 0 <= i < left.len() implies !entry_separators().contains(
                    #[trigger] left[i],
                ) by {
                    assert(left[i] == value[i]);
                }
                assert forall|i: int| 0 <= i < right.len() implies !entry_separators().contains(
                    #[trigger] right[i],
                ) by {
                    assert(right[i] == value[at + arrows()[k].len() + i]);
                }
                lemma_trim(left);
                lemma_trim(right);
                lemma_trimmed_is_unseparated(left);
                lemma_trimmed_is_unseparated(right);
                let (a, b) = lemma_trim_part(left);
                assert(trim(left) =~= value.subrange(a, b));
                if holds(trim(left), "->"@) {
                    lemma_part_holds(value, a, b, "->"@);
                    let j = choose|j: int|
                        a <= j && j + "->"@.len() <= b && #[trigger] matches_at(value, "->"@, j);
                    assert(matches_at(value, "->"@, j));
                    reveal_strlit("->");
                    assert(arrows()[0] == "->"@);
                    if k == 0 {
                        assert(j < at);
                    } else {
                        assert(holds(value, arrows()[0]));
                    }
                }
            },
            None => {
                assert forall|j: int| 0 <= j < k + 1 implies !holds(
                    value,
                    #[trigger] arrows()[j],
                ) by {}
                lemma_wish_is_sound(value, k + 1);
            },
        }
    }
}

proof fn lemma_entry_is_sound(part: Seq<char>)
    requires
        unseparated(part),
    ensures
        entry_wish(part) matches Some(w) ==> is_sound(w),
{
    if !blank(part) {
        lemma_trim(part);
        lemma_trimmed_is_unseparated(part);
        lemma_wish_is_sound(trim(part), 0);
    }
}

pub proof fn lemma_pieces_are_unseparated(s: Seq<char>)
    ensures
        forall|i: int|
            0 <= i < split_on(s, entry_separators()).len() ==> unseparated(
                #[trigger] split_on(s, entry_separators())[i],
            ),
    decreases s.len(),
{
    let seps = entry_separators();
    let after = split_on(s, seps);
    if s.len() > 0 {
        let before = split_on(s.drop_last(), seps);
        lemma_pieces_are_unseparated(s.drop_last());
        lemma_split_on_nonempty(s.drop_last(), seps);
        assert forall|i: int| 0 <= i < after.len() implies unseparated(#[trigger] after[i]) by {
            if i < before.len() - 1 {
                assert(after[i] == before[i]);
            } else if !seps.contains(s.last()) {
                let piece = before[before.len() - 1];
                assert(unseparated(piece));
                assert(after[i] == piece.push(s.last()));
            } else if i < before.len() {
                assert(after[i] == before[i]);
            }
        }
    } else {
        assert(after =~= seq![Seq::<char>::empty()]);
    }
}

pub proof fn lemma_wishes_are_sound(parts: Seq<Seq<char>>)
    requires
        forall|i: int| 0 <= i < parts.len() ==> unseparated(#[trigger] parts[i]),
    ensures
        forall|i: int|
            0 <= i < collect_wishes(parts).len() ==> is_sound(#[trigger] collect_wishes(parts)[i]),
    decreases parts.len(),
{
    if parts.len() > 0 {
        let rest = parts.drop_last();
        assert forall|i: int| 0 <= i < rest.len() implies unseparated(#[trigger] rest[i]) by {
            assert(rest[i] == parts[i]);
        }
        lemma_wishes_are_sound(rest);
        let before = collect_wishes(rest);
        let after = collect_wishes(parts);
        assert(unseparated(parts[parts.len() - 1]));
        lemma_entry_is_sound(parts.last());
        if let Some(w) = entry_wish(parts.last()) {
            lemma_wish_position(before, w.0, 0);
            assert forall|i: int| 0 <= i < after.len() implies is_sound(#[trigger] after[i]) by {
                if i < before.len() {
                    assert(is_sound(before[i]));
                }
            }
        }
    }
}

// ---- reading a normal form ------------------------------------------------------------------
proof fn lemma_trim_around(name: Seq<char>)
    requires
        is_tidy(name),
    ensures
        trim(name.push(' ')) == name,
        trim(seq![' '] + name) == name,
{
    lemma_trim(name);
    let right = name.push(' ');
    assert(white(' '));
    assert(trim_start(right) == right) by {
        assert(right[0] == name[0]);
    }
    assert(right.drop_last() =~= name);
    assert(trim_end(name) == name) by {
        assert(name.last() == trim(name).last());
    }
    let left = seq![' '] + name;
    assert(left.subrange(1, left.len() as int) =~= name);
    assert(trim_start(name) == name);
    assert(trim_start(left) == name);
}

pub proof fn lemma_entry_reads_back(w: Wish)
    requires
        is_sound(w),
        is_plain(w),
    ensures
        entry_wish(wish_text(w)) == Some(w),
        unseparated(wish_text(w)),
{
    let text = wish_text(w);
    lemma_trim(w.0);
    match w.1 {
        None => {
            assert forall|k: int| 0 <= k < arrows().len() implies find_from(
                text,
                #[trigger] arrows()[k],
                0,
            ) is None by {
                lemma_holds_find(text, arrows()[k]);
            }
            reveal_with_fuel(wish_from, 4);
            assert(find_from(text, arrows()[0], 0) is None);
            assert(find_from(text, arrows()[1], 0) is None);
            assert(find_from(text, arrows()[2], 0) is None);
            assert(!blank(text));
        },
        Some(target) => {
            reveal_strlit(" -> ");
            reveal_strlit("->");
            lemma_trim(target);
            let n = w.0.len() as int;
            assert(text.len() == n + 4 + target.len());
            assert(text[0] == w.0[0]);
            assert(text.last() == target.last());
            assert(trim_start(text) == text);
            assert(trim_end(text) == text);
            assert(trim(text) == text);
            assert(text[n] == ' ' && text[n + 1] == '-' && text[n + 2] == '>' && text[n + 3]
                == ' ');
            let arrow = arrows()[0];
            assert(arrow == "->"@);
            assert(text.subrange(n + 1, n + 3) =~= arrow);
            assert(matches_at(text, arrow, n + 1));
            assert forall|j: int| 0 <= j < n + 1 implies !matches_at(text, arrow, j) by {
                if matches_at(text, arrow, j) {
                    assert(text.subrange(j, j + 2)[0] == '-');
                    assert(text.subrange(j, j + 2)[1] == '>');
                    assert(text[j] == '-' && text[j + 1] == '>');
                    if j + 1 < n {
                        assert(w.0.subrange(j, j + 2) =~= arrow);
                        assert(matches_at(w.0, arrow, j));
                    }
                }
            }
            lemma_find_from(text, arrow, 0);
            assert(find_from(text, arrow, 0) == Some(n + 1));
            assert(text.take(n + 1) =~= w.0.push(' '));
            assert(text.skip(n + 3) =~= seq![' '] + target);
            lemma_trim_around(w.0);
            lemma_trim_around(target);
            assert forall|i: int| 0 <= i < text.len() implies !entry_separators().contains(
                #[trigger] text[i],
            ) by {
                if i < n {
                    assert(text[i] == w.0[i]);
                } else if i >= n + 4 {
                    assert(text[i] == target[i - n - 4]);
                }
            }
        },
    }
}

proof fn lemma_split_behind(s: Seq<char>, t: Seq<char>)
    requires
        unseparated(t),
    ensures
        ({
            let before = split_on(s, entry_separators());
            split_on(s + t, entry_separators()) == before.drop_last().push(before.last() + t)
        }),
    decreases t.len(),
{
    let seps = entry_separators();
    let before = split_on(s, seps);
    lemma_split_on_nonempty(s, seps);
    if t.len() == 0 {
        assert(s + t =~= s);
        assert(before.last() + t =~= before.last());
        assert(before.drop_last().push(before.last()) =~= before);
    } else {
        let rest = t.drop_last();
        assert forall|i: int| 0 <= i < rest.len() implies !seps.contains(#[trigger] rest[i]) by {
            assert(rest[i] == t[i]);
        }
        lemma_split_behind(s, rest);
        assert((s + t).drop_last() =~= s + rest);
        assert((s + t).last() == t[t.len() - 1]);
        let middle = before.drop_last().push(before.last() + rest);
        assert(middle.drop_last() =~= before.drop_last());
        assert((before.last() + rest).push(t.last()) =~= before.last() + t);
    }
}

proof fn lemma_split_of_join(texts: Seq<Seq<char>>)
    requires
        texts.len() > 0,
        forall|i: int| 0 <= i < texts.len() ==> unseparated(#[trigger] texts[i]),
    ensures
        split_on(join(texts, "\n"@), entry_separators()) == texts,
    decreases texts.len(),
{
    let seps = entry_separators();
    reveal_strlit("\n");
    assert("\n"@ =~= seq!['\n']);
    let last = texts.last();
    assert(unseparated(texts[texts.len() - 1]));
    if texts.len() == 1 {
        lemma_split_behind(Seq::empty(), last);
        assert(Seq::<char>::empty() + last =~= last);
        let none = split_on(Seq::<char>::empty(), seps);
        assert(none =~= seq![Seq::<char>::empty()]);
        assert(none.drop_last().push(none.last() + last) =~= texts);
    } else {
        let rest = texts.drop_last();
        assert forall|i: int| 0 <= i < rest.len() implies unseparated(#[trigger] rest[i]) by {
            assert(rest[i] == texts[i]);
        }
        lemma_split_of_join(rest);
        let start = join(rest, "\n"@).push('\n');
        assert(start.drop_last() =~= join(rest, "\n"@));
        assert(seps[0] == '\n');
        assert(seps.contains('\n'));
        let pieces = split_on(start, seps);
        assert(pieces == rest.push(Seq::<char>::empty()));
        lemma_split_behind(start, last);
        assert(join(texts, "\n"@) =~= start + last);
        assert(pieces.drop_last() =~= rest);
        assert(Seq::<char>::empty() + last =~= last);
        assert(rest.push(last) =~= texts);
    }
}

proof fn lemma_wishes_read_back(wishes: Seq<Wish>)
    requires
        names_differ(wishes),
        forall|i: int|
            0 <= i < wishes.len() ==> entry_wish(wish_text(#[trigger] wishes[i])) == Some(wishes[i]),
    ensures
        collect_wishes(Seq::new(wishes.len(), |i: int| wish_text(wishes[i]))) == wishes,
    decreases wishes.len(),
{
    let texts = Seq::new(wishes.len(), |i: int| wish_text(wishes[i]));
    if wishes.len() > 0 {
        let rest = wishes.drop_last();
        assert forall|i: int| 0 <= i < rest.len() implies entry_wish(
            wish_text(#[trigger] rest[i]),
        ) == Some(rest[i]) by {
            assert(rest[i] == wishes[i]);
        }
        assert forall|i: int, j: int| 0 <= i < j < rest.len() implies (#[trigger] rest[i]).0 != (
        #[trigger] rest[j]).0 by {
            assert(wishes[i].0 != wishes[j].0);
        }
        lemma_wishes_read_back(rest);
        assert(texts.drop_last() =~= Seq::new(rest.len(), |i: int| wish_text(rest[i])));
        let w = wishes[wishes.len() - 1];
        assert(entry_wish(texts.last()) == Some(w));
        lemma_wish_position(rest, w.0, 0);
        assert forall|k: int| 0 <= k < rest.len() implies (#[trigger] rest[k]).0 != w.0 by {
            assert(wishes[k].0 != wishes[wishes.len() - 1].0);
        }
        assert(rest.push(w) =~= wishes);
    } else {
        assert(collect_wishes(texts) =~= wishes);
    }
}

/// The normal form of the user's text asks for the same names as the text, and is its own normal
/// form. It is left open where a name without a new one holds an arrow.
pub proof fn law_normal_form_is_stable(input: Seq<char>)
    requires
        forall|i: int| 0 <= i < wishes_of(input).len() ==> is_plain(#[trigger] wishes_of(input)[i]),
    ensures
        wishes_of(normal_form(input)) == wishes_of(input),
        normal_form(normal_form(input)) == normal_form(input),
{
    let wishes = wishes_of(input);
    let texts = Seq::new(wishes.len(), |i: int| wish_text(wishes[i]));
    law_wishes_have_different_names(input);
    lemma_pieces_are_unseparated(input);
    lemma_wishes_are_sound(split_on(input, entry_separators()));
    assert forall|i: int| 0 <= i < wishes.len() implies entry_wish(wish_text(#[trigger] wishes[i]))
        == Some(wishes[i]) && unseparated(wish_text(wishes[i])) by {
        lemma_entry_reads_back(wishes[i]);
    }
    lemma_wishes_read_back(wishes);
    if wishes.len() > 0 {
        assert forall|i: int| 0 <= i < texts.len() implies unseparated(#[trigger] texts[i]) by {
            assert(unseparated(wish_text(wishes[i])));
        }
        lemma_split_of_join(texts);
    } else {
        let none = split_on(Seq::<char>::empty(), entry_separators());
        assert(none =~= seq![Seq::<char>::empty()]);
        assert(none.drop_last() =~= Seq::<Seq<char>>::empty());
        assert(normal_form(input) =~= Seq::<char>::empty());
        assert(blank(none.last()));
        reveal_with_fuel(collect_wishes, 2);
        assert(wishes_of(normal_form(input)) =~= wishes);
    }
}

} // verus!
