//! Sorted lists: of different texts, of different numbers, and of anything by a key.
use vstd::prelude::*;
use crate::text::{
    copy_chars, lemma_lex_transitive, lemma_lex_trichotomy, lemma_views_push, lex_less,
    lex_less_chars, same_chars, string_of, views,
};

verus! {

/// Whether one text stands before another: by the order of strings or, where `by_length` is set,
/// the shorter one first.
pub open spec fn before(a: Seq<char>, b: Seq<char>, by_length: bool) -> bool {
    if by_length && a.len() != b.len() {
        a.len() < b.len()
    } else {
        lex_less(a, b)
    }
}

fn is_before(a: &[char], b: &[char], by_length: bool) -> (r: bool)
    ensures
        r == before(a@, b@, by_length),
{
    if by_length && a.len() != b.len() {
        a.len() < b.len()
    } else {
        lex_less_chars(a, b)
    }
}

/// A sorted list of different texts with one more.
pub open spec fn insert_text(s: Seq<Seq<char>>, x: Seq<char>, by_length: bool) -> Seq<Seq<char>>
    decreases s.len(),
{
    if s.len() == 0 {
        seq![x]
    } else if s.last() == x {
        s
    } else if before(s.last(), x, by_length) {
        s.push(x)
    } else {
        insert_text(s.drop_last(), x, by_length).push(s.last())
    }
}

/// The different texts of a list in their order.
pub open spec fn sort_distinct(s: Seq<Seq<char>>, by_length: bool) -> Seq<Seq<char>>
    decreases s.len(),
{
    if s.len() == 0 {
        Seq::empty()
    } else {
        insert_text(sort_distinct(s.drop_last(), by_length), s.last(), by_length)
    }
}

fn insert_sorted(list: &mut Vec<Vec<char>>, x: Vec<char>, by_length: bool)
    ensures
        views(final(list)@) == insert_text(views(old(list)@), x@, by_length),
{
    let ghost all = views(list@);
    let ghost whole = insert_text(all, x@, by_length);
    let mut p: usize = list.len();
    proof {
        assert(all.take(p as int) =~= all);
        assert(whole =~= insert_text(all.take(p as int), x@, by_length) + all.skip(p as int));
    }
    while p > 0
        invariant
            p <= list@.len(),
            list@ == old(list)@,
            all == views(old(list)@),
            whole == insert_text(all, x@, by_length),
            whole == insert_text(all.take(p as int), x@, by_length) + all.skip(p as int),
        decreases p,
    {
        let ghost part = all.take(p as int);
        proof {
            assert(part.last() == list@[p - 1]@);
            assert(part.drop_last() =~= all.take(p - 1));
        }
        if same_chars(list[p - 1].as_slice(), x.as_slice()) {
            proof {
                assert(part + all.skip(p as int) =~= all);
            }
            return ;
        }
        if is_before(list[p - 1].as_slice(), x.as_slice(), by_length) {
            let ghost word = x@;
            list.insert(p, x);
            proof {
                assert(views(list@) =~= part.push(word) + all.skip(p as int));
            }
            return ;
        }
        proof {
            assert(insert_text(all.take(p - 1), x@, by_length).push(part.last()) + all.skip(
                p as int,
            ) =~= insert_text(all.take(p - 1), x@, by_length) + all.skip(p - 1));
        }
        p -= 1;
    }
    let ghost word = x@;
    list.insert(0, x);
    proof {
        assert(all.take(0) =~= Seq::empty());
        assert(views(list@) =~= seq![word] + all.skip(0));
    }
}

pub fn sort_distinct_texts(list: &[Vec<char>], by_length: bool) -> (r: Vec<Vec<char>>)
    ensures
        views(r@) == sort_distinct(views(list@), by_length),
{
    let ghost all = views(list@);
    let mut out: Vec<Vec<char>> = Vec::new();
    let mut i: usize = 0;
    proof {
        assert(views(out@) =~= sort_distinct(all.take(0), by_length));
    }
    while i < list.len()
        invariant
            i <= list@.len(),
            all == views(list@),
            views(out@) == sort_distinct(all.take(i as int), by_length),
        decreases list@.len() - i,
    {
        proof {
            assert(all.take(i + 1).drop_last() =~= all.take(i as int));
            assert(all.take(i + 1).last() == list@[i as int]@);
        }
        insert_sorted(&mut out, copy_chars(list[i].as_slice()), by_length);
        i += 1;
    }
    proof {
        assert(all.take(i as int) =~= all);
    }
    out
}

/// The texts as strings.
pub fn strings_of(list: &[Vec<char>]) -> (r: Vec<String>)
    ensures
        views(r@) == views(list@),
{
    let mut out: Vec<String> = Vec::new();
    let mut i: usize = 0;
    while i < list.len()
        invariant
            i <= list@.len(),
            views(out@) == views(list@).take(i as int),
        decreases list@.len() - i,
    {
        let ghost earlier = out@;
        out.push(string_of(list[i].as_slice()));
        proof {
            lemma_views_push(earlier, out@.last());
            assert(views(out@) =~= views(list@).take(i + 1));
        }
        i += 1;
    }
    proof {
        assert(views(list@).take(i as int) =~= views(list@));
    }
    out
}

// ---- numbers --------------------------------------------------------------------------------
/// A sorted list of different numbers with one more.
pub open spec fn insert_index(s: Seq<i64>, x: i64) -> Seq<i64>
    decreases s.len(),
{
    if s.len() == 0 {
        seq![x]
    } else if s.last() == x {
        s
    } else if s.last() < x {
        s.push(x)
    } else {
        insert_index(s.drop_last(), x).push(s.last())
    }
}

/// The different numbers of a list in ascending order.
pub open spec fn sort_indexes(s: Seq<i64>) -> Seq<i64>
    decreases s.len(),
{
    if s.len() == 0 {
        Seq::empty()
    } else {
        insert_index(sort_indexes(s.drop_last()), s.last())
    }
}

fn insert_sorted_index(list: &mut Vec<i64>, x: i64)
    ensures
        final(list)@ == insert_index(old(list)@, x),
{
    let ghost all = list@;
    let ghost whole = insert_index(all, x);
    let mut p: usize = list.len();
    proof {
        assert(all.take(p as int) =~= all);
        assert(whole =~= insert_index(all.take(p as int), x) + all.skip(p as int));
    }
    while p > 0
        invariant
            p <= list@.len(),
            list@ == old(list)@,
            all == old(list)@,
            whole == insert_index(all, x),
            whole == insert_index(all.take(p as int), x) + all.skip(p as int),
        decreases p,
    {
        let ghost part = all.take(p as int);
        proof {
            assert(part.drop_last() =~= all.take(p - 1));
        }
        if list[p - 1] == x {
            proof {
                assert(part + all.skip(p as int) =~= all);
            }
            return ;
        }
        if list[p - 1] < x {
            list.insert(p, x);
            proof {
                assert(list@ =~= part.push(x) + all.skip(p as int));
            }
            return ;
        }
        proof {
            assert(insert_index(all.take(p - 1), x).push(part.last()) + all.skip(p as int)
                =~= insert_index(all.take(p - 1), x) + all.skip(p - 1));
        }
        p -= 1;
    }
    list.insert(0, x);
    proof {
        assert(all.take(0) =~= Seq::empty());
        assert(list@ =~= seq![x] + all.skip(0));
    }
}

pub fn sort_index_list(list: &[i64]) -> (r: Vec<i64>)
    ensures
        r@ == sort_indexes(list@),
{
    let ghost all = list@;
    let mut out: Vec<i64> = Vec::new();
    let mut i: usize = 0;
    while i < list.len()
        invariant
            i <= list@.len(),
            all == list@,
            out@ == sort_indexes(all.take(i as int)),
        decreases list@.len() - i,
    {
        proof {
            assert(all.take(i + 1).drop_last() =~= all.take(i as int));
        }
        insert_sorted_index(&mut out, list[i]);
        i += 1;
    }
    proof {
        assert(all.take(i as int) =~= all);
    }
    out
}

// ---- laws -----------------------------------------------------------------------------------
/// Whether the texts stand in ascending order, none twice.
pub open spec fn ascending(s: Seq<Seq<char>>, by_length: bool) -> bool {
    forall|i: int, j: int|
        0 <= i < j < s.len() ==> before(#[trigger] s[i], #[trigger] s[j], by_length)
}

proof fn lemma_before_trichotomy(a: Seq<char>, b: Seq<char>, by_length: bool)
    ensures
        a == b || before(a, b, by_length) || before(b, a, by_length),
        !(before(a, b, by_length) && before(b, a, by_length)),
        a == b ==> !before(a, b, by_length),
{
    lemma_lex_trichotomy(a, b);
}

proof fn lemma_before_transitive(a: Seq<char>, b: Seq<char>, c: Seq<char>, by_length: bool)
    requires
        before(a, b, by_length),
        before(b, c, by_length),
    ensures
        before(a, c, by_length),
{
    if lex_less(a, b) && lex_less(b, c) {
        lemma_lex_transitive(a, b, c);
    }
}

proof fn lemma_insert_text(s: Seq<Seq<char>>, x: Seq<char>, by_length: bool)
    requires
        ascending(s, by_length),
    ensures
        ascending(insert_text(s, x, by_length), by_length),
        forall|y: Seq<char>|
            #[trigger] insert_text(s, x, by_length).contains(y) <==> s.contains(y) || y == x,
    decreases s.len(),
{
    let r = insert_text(s, x, by_length);
    if s.len() == 0 {
        assert(r[0] == x);
    } else {
        let last = s.last();
        let rest = s.drop_last();
        lemma_before_trichotomy(last, x, by_length);
        assert(s =~= rest.push(last));
        if last == x {
            assert(s[s.len() - 1] == x);
        } else if before(last, x, by_length) {
            assert forall|i: int, j: int| 0 <= i < j < r.len() implies before(
                #[trigger] r[i],
                #[trigger] r[j],
                by_length,
            ) by {
                if j == s.len() && i < s.len() - 1 {
                    assert(before(s[i], s[s.len() - 1], by_length));
                    lemma_before_transitive(s[i], last, x, by_length);
                }
            }
            assert(r[s.len() as int] == x);
            assert forall|y: Seq<char>| #[trigger] r.contains(y) <==> s.contains(y) || y == x by {
                if s.contains(y) {
                    assert(r[s.index_of(y)] == y);
                }
            }
        } else {
            lemma_insert_text(rest, x, by_length);
            let inner = insert_text(rest, x, by_length);
            assert forall|i: int| 0 <= i < inner.len() implies before(
                #[trigger] inner[i],
                last,
                by_length,
            ) by {
                assert(inner.contains(inner[i]));
                if inner[i] != x {
                    let k = rest.index_of(inner[i]);
                    assert(before(s[k], s[s.len() - 1], by_length));
                }
            }
            assert(r == inner.push(last));
            assert forall|y: Seq<char>| #[trigger] r.contains(y) <==> s.contains(y) || y == x by {
                if r.contains(y) {
                    let k = r.index_of(y);
                    if k < inner.len() {
                        assert(inner[k] == y);
                        assert(inner.contains(y));
                        if rest.contains(y) {
                            assert(s[rest.index_of(y)] == y);
                        }
                    } else {
                        assert(s[s.len() - 1] == y);
                    }
                }
                if s.contains(y) {
                    let k = s.index_of(y);
                    if k < rest.len() {
                        assert(rest[k] == y);
                        assert(inner.contains(y));
                        assert(r[inner.index_of(y)] == y);
                    } else {
                        assert(r[inner.len() as int] == y);
                    }
                }
                if y == x {
                    assert(inner.contains(y));
                    assert(r[inner.index_of(y)] == y);
                }
            }
        }
    }
}

/// A sorted list stands in ascending order, none of its texts twice, and holds the texts that
/// were given.
pub proof fn law_sorted_texts_are_distinct(s: Seq<Seq<char>>, by_length: bool)
    ensures
        ascending(sort_distinct(s, by_length), by_length),
        forall|y: Seq<char>| #[trigger] sort_distinct(s, by_length).contains(y) <==> s.contains(y),
    decreases s.len(),
{
    let r = sort_distinct(s, by_length);
    if s.len() > 0 {
        let rest = s.drop_last();
        law_sorted_texts_are_distinct(rest, by_length);
        lemma_insert_text(sort_distinct(rest, by_length), s.last(), by_length);
        assert forall|y: Seq<char>| #[trigger] r.contains(y) <==> s.contains(y) by {
            if s.contains(y) {
                let k = s.index_of(y);
                if k < rest.len() {
                    assert(rest[k] == y);
                    assert(rest.contains(y));
                }
            }
            if rest.contains(y) {
                assert(s[rest.index_of(y)] == y);
            }
            if y == s.last() {
                assert(s[s.len() - 1] == y);
            }
            assert(sort_distinct(rest, by_length).contains(y) <==> rest.contains(y));
        }
    }
}

proof fn lemma_insert_index(s: Seq<i64>, x: i64)
    requires
        forall|i: int, j: int| 0 <= i < j < s.len() ==> s[i] < s[j],
    ensures
        forall|i: int, j: int|
            0 <= i < j < insert_index(s, x).len() ==> insert_index(s, x)[i] < insert_index(s, x)[j],
        forall|y: i64| #[trigger] insert_index(s, x).contains(y) <==> s.contains(y) || y == x,
    decreases s.len(),
{
    let r = insert_index(s, x);
    if s.len() == 0 {
        assert(r[0] == x);
    } else {
        let last = s.last();
        let rest = s.drop_last();
        assert(s =~= rest.push(last));
        if last == x {
            assert(s[s.len() - 1] == x);
        } else if last < x {
            assert(r[s.len() as int] == x);
            assert forall|y: i64| #[trigger] r.contains(y) <==> s.contains(y) || y == x by {
                if s.contains(y) {
                    assert(r[s.index_of(y)] == y);
                }
            }
        } else {
            lemma_insert_index(rest, x);
            let inner = insert_index(rest, x);
            assert forall|i: int| 0 <= i < inner.len() implies #[trigger] inner[i] < last by {
                assert(inner.contains(inner[i]));
                if inner[i] != x {
                    let k = rest.index_of(inner[i]);
                    assert(s[k] < s[s.len() - 1]);
                }
            }
            assert(r == inner.push(last));
            assert forall|y: i64| #[trigger] r.contains(y) <==> s.contains(y) || y == x by {
                if r.contains(y) {
                    let k = r.index_of(y);
                    if k < inner.len() {
                        assert(inner[k] == y);
                        assert(inner.contains(y));
                        if rest.contains(y) {
                            assert(s[rest.index_of(y)] == y);
                        }
                    } else {
                        assert(s[s.len() - 1] == y);
                    }
                }
                if s.contains(y) {
                    let k = s.index_of(y);
                    if k < rest.len() {
                        assert(rest[k] == y);
                        assert(inner.contains(y));
                        assert(r[inner.index_of(y)] == y);
                    } else {
                        assert(r[inner.len() as int] == y);
                    }
                }
                if y == x {
                    assert(inner.contains(y));
                    assert(r[inner.index_of(y)] == y);
                }
            }
        }
    }
}

/// A sorted list of numbers ascends, none of them twice, and holds the numbers that were given.
pub proof fn law_sorted_indexes_are_distinct(s: Seq<i64>)
    ensures
        forall|i: int, j: int|
            0 <= i < j < sort_indexes(s).len() ==> sort_indexes(s)[i] < sort_indexes(s)[j],
        forall|y: i64| #[trigger] sort_indexes(s).contains(y) <==> s.contains(y),
    decreases s.len(),
{
    if s.len() > 0 {
        let rest = s.drop_last();
        law_sorted_indexes_are_distinct(rest);
        lemma_insert_index(sort_indexes(rest), s.last());
        assert forall|y: i64| #[trigger] sort_indexes(s).contains(y) <==> s.contains(y) by {
            if s.contains(y) {
                let k = s.index_of(y);
                if k < rest.len() {
                    assert(rest[k] == y);
                    assert(rest.contains(y));
                }
            }
            if rest.contains(y) {
                assert(s[rest.index_of(y)] == y);
            }
            if y == s.last() {
                assert(s[s.len() - 1] == y);
            }
            assert(sort_indexes(rest).contains(y) <==> rest.contains(y));
        }
    }
}

// ---- sorting that keeps the order of equals -------------------------------------------------
/// A list sorted by a key, with one more element behind those whose key is no greater.
pub open spec fn insert_by<T>(list: Seq<T>, x: T, key: spec_fn(T) -> int) -> Seq<T>
    decreases list.len(),
{
    if list.len() == 0 || key(list.last()) <= key(x) {
        list.push(x)
    } else {
        insert_by(list.drop_last(), x, key).push(list.last())
    }
}

/// The elements sorted by a key; those of one key stay in their order.
pub open spec fn sort_by<T>(s: Seq<T>, key: spec_fn(T) -> int) -> Seq<T>
    decreases s.len(),
{
    if s.len() == 0 {
        s
    } else {
        insert_by(sort_by(s.drop_last(), key), s.last(), key)
    }
}

/// Where the new element goes: behind the last one whose key is no greater.
pub proof fn lemma_insert_by_at<T>(list: Seq<T>, x: T, key: spec_fn(T) -> int, at: int)
    requires
        0 <= at <= list.len(),
        at == 0 || key(list[at - 1]) <= key(x),
        forall|k: int| at <= k < list.len() ==> key(#[trigger] list[k]) > key(x),
    ensures
        insert_by(list, x, key) == list.insert(at, x),
    decreases list.len(),
{
    if list.len() == at {
        assert(list.insert(at, x) =~= list.push(x));
    } else {
        lemma_insert_by_at(list.drop_last(), x, key, at);
        assert(list.drop_last().insert(at, x).push(list.last()) =~= list.insert(at, x));
    }
}

/// Whether the keys of a list never fall.
pub open spec fn sorted_by<T>(s: Seq<T>, key: spec_fn(T) -> int) -> bool {
    forall|i: int, j: int| 0 <= i < j < s.len() ==> key(#[trigger] s[i]) <= key(#[trigger] s[j])
}

proof fn lemma_insert_by<T>(list: Seq<T>, x: T, key: spec_fn(T) -> int)
    requires
        sorted_by(list, key),
    ensures
        sorted_by(insert_by(list, x, key), key),
        insert_by(list, x, key).to_multiset() == list.to_multiset().insert(x),
        insert_by(list, x, key).len() == list.len() + 1,
        forall|i: int|
            0 <= i < list.len() + 1 ==> list.contains(#[trigger] insert_by(list, x, key)[i])
                || insert_by(list, x, key)[i] == x,
    decreases list.len(),
{
    broadcast use vstd::seq_lib::group_to_multiset_ensures;

    if list.len() == 0 || key(list.last()) <= key(x) {
        let r = list.push(x);
        assert forall|i: int, j: int| 0 <= i < j < r.len() implies key(#[trigger] r[i]) <= key(
            #[trigger] r[j],
        ) by {
            if j == list.len() && i < list.len() - 1 {
                assert(key(list[i]) <= key(list[list.len() - 1]));
            }
        }
        assert forall|i: int| 0 <= i < list.len() + 1 implies list.contains(#[trigger] r[i])
            || r[i] == x by {
            if i < list.len() {
                assert(r[i] == list[i]);
            }
        }
    } else {
        let rest = list.drop_last();
        lemma_insert_by(rest, x, key);
        let inner = insert_by(rest, x, key);
        let r = inner.push(list.last());
        assert(rest.push(list.last()) =~= list);
        assert(r.to_multiset() =~= list.to_multiset().insert(x));
        assert forall|i: int| 0 <= i < inner.len() implies list.contains(#[trigger] inner[i])
            || inner[i] == x by {
            if rest.contains(inner[i]) {
                let k = rest.index_of(inner[i]);
                assert(list[k] == inner[i]);
            }
        }
        assert forall|i: int, j: int| 0 <= i < j < r.len() implies key(#[trigger] r[i]) <= key(
            #[trigger] r[j],
        ) by {
            if j == inner.len() {
                if inner[i] != x {
                    assert(rest.contains(inner[i]) || inner[i] == x);
                    let k = rest.index_of(inner[i]);
                    assert(key(list[k]) <= key(list[list.len() - 1]));
                }
            } else {
                assert(key(inner[i]) <= key(inner[j]));
            }
        }
        assert forall|i: int| 0 <= i < list.len() + 1 implies list.contains(#[trigger] r[i])
            || r[i] == x by {
            if i < inner.len() {
                assert(r[i] == inner[i]);
            } else {
                assert(list[list.len() - 1] == r[i]);
            }
        }
    }
}

/// Sorting puts the same elements into the order of their keys.
pub proof fn law_sorting_keeps_the_elements<T>(s: Seq<T>, key: spec_fn(T) -> int)
    ensures
        sorted_by(sort_by(s, key), key),
        sort_by(s, key).to_multiset() == s.to_multiset(),
        sort_by(s, key).len() == s.len(),
    decreases s.len(),
{
    broadcast use vstd::seq_lib::group_to_multiset_ensures;

    if s.len() > 0 {
        law_sorting_keeps_the_elements(s.drop_last(), key);
        lemma_insert_by(sort_by(s.drop_last(), key), s.last(), key);
        assert(s.drop_last().push(s.last()) =~= s);
    }
}

} // verus!
