//! What holds of texts in general: what a text holds, what a joined text holds, what is trimmed.
use vstd::prelude::*;
use crate::text::{
    all_digits, ascii_digit, ascii_lowered, count_matches, decimal, decimal_nat, digits_value,
    holds, join, matches_at, replace_all, signed_number, split_on, starts, trim, trim_end,
    trim_start, white,
};

verus! {

pub proof fn lemma_holds_inside(a: Seq<char>, p: Seq<char>, b: Seq<char>)
    ensures
        holds(a + p + b, p),
{
    assert((a + p + b).subrange(a.len() as int, (a.len() + p.len()) as int) =~= p);
    assert(matches_at(a + p + b, p, a.len() as int));
}

/// A text that holds one that holds a third holds the third.
pub proof fn law_holding_is_transitive(a: Seq<char>, b: Seq<char>, c: Seq<char>)
    requires
        holds(a, b),
        holds(b, c),
    ensures
        holds(a, c),
{
    let i = choose|i: int| matches_at(a, b, i);
    let j = choose|j: int| matches_at(b, c, j);
    assert(a.subrange(i + j, i + j + c.len()) =~= b.subrange(j, j + c.len())) by {
        assert forall|k: int| 0 <= k < c.len() implies #[trigger] a[i + j + k] == b[j + k] by {
            assert(a.subrange(i, i + b.len())[j + k] == b[j + k]);
        }
    }
    assert(matches_at(a, c, i + j));
}

pub proof fn lemma_holds_itself(a: Seq<char>)
    ensures
        holds(a, a),
{
    assert(a.subrange(0, a.len() as int) =~= a);
    assert(matches_at(a, a, 0));
}

/// What stands in a part of a text stands in the text.
pub proof fn lemma_holds_in_part(a: Seq<char>, b: Seq<char>, c: Seq<char>, p: Seq<char>)
    requires
        holds(b, p),
    ensures
        holds(a + b + c, p),
{
    lemma_holds_inside(a, b, c);
    law_holding_is_transitive(a + b + c, b, p);
}

#[verifier::spinoff_prover]
pub proof fn lemma_regroup(a: Seq<char>, b: Seq<char>, c: Seq<char>)
    ensures
        a + (b + c) == a + b + c,
{
    assert(a + (b + c) =~= a + b + c);
}

pub proof fn lemma_holds_end(a: Seq<char>, p: Seq<char>)
    ensures
        holds(a + p, p),
{
    lemma_holds_inside(a, p, Seq::empty());
    assert(a + p + Seq::empty() =~= a + p);
}

pub proof fn lemma_holds_start(p: Seq<char>, b: Seq<char>)
    ensures
        holds(p + b, p),
{
    lemma_holds_inside(Seq::empty(), p, b);
    assert(Seq::empty() + p + b =~= p + b);
}

pub proof fn lemma_holds_more(t: Seq<char>, x: Seq<char>, p: Seq<char>)
    requires
        holds(t, p),
    ensures
        holds(t + x, p),
        holds(x + t, p),
{
    lemma_holds_start(t, x);
    law_holding_is_transitive(t + x, t, p);
    lemma_holds_end(x, t);
    law_holding_is_transitive(x + t, t, p);
}

/// A text with others behind it.
pub open spec fn glued(first: Seq<char>, parts: Seq<Seq<char>>) -> Seq<char>
    decreases parts.len(),
{
    if parts.len() == 0 {
        first
    } else {
        glued(first, parts.drop_last()) + parts.last()
    }
}

pub proof fn lemma_glue(first: Seq<char>, parts: Seq<Seq<char>>, x: Seq<char>)
    ensures
        glued(first, parts.push(x)) == glued(first, parts) + x,
{
    assert(parts.push(x).drop_last() =~= parts);
}

pub proof fn lemma_glued_holds(first: Seq<char>, parts: Seq<Seq<char>>)
    ensures
        holds(glued(first, parts), first),
        forall|i: int| 0 <= i < parts.len() ==> holds(glued(first, parts), #[trigger] parts[i]),
    decreases parts.len(),
{
    if parts.len() == 0 {
        lemma_holds_itself(first);
    } else {
        let rest = parts.drop_last();
        let before = glued(first, rest);
        lemma_glued_holds(first, rest);
        lemma_holds_more(before, parts.last(), first);
        assert forall|i: int| 0 <= i < parts.len() implies holds(
            glued(first, parts),
            #[trigger] parts[i],
        ) by {
            if i < rest.len() {
                assert(rest[i] == parts[i]);
                lemma_holds_more(before, parts.last(), rest[i]);
            } else {
                lemma_holds_end(before, parts.last());
            }
        }
    }
}

/// A joined text holds each of its parts.
pub proof fn law_joined_text_holds_its_parts(parts: Seq<Seq<char>>, sep: Seq<char>, i: int)
    requires
        0 <= i < parts.len(),
    ensures
        holds(join(parts, sep), parts[i]),
    decreases parts.len(),
{
    if parts.len() == 1 {
        lemma_holds_itself(parts[0]);
    } else {
        let before = join(parts.drop_last(), sep);
        if i < parts.len() - 1 {
            law_joined_text_holds_its_parts(parts.drop_last(), sep, i);
            lemma_holds_in_part(Seq::empty(), before, sep + parts.last(), parts[i]);
            assert(Seq::<char>::empty() + before + (sep + parts.last()) =~= before + sep
                + parts.last());
        } else {
            lemma_holds_inside(before + sep, parts.last(), Seq::empty());
            assert(before + sep + parts.last() + Seq::<char>::empty() =~= before + sep
                + parts.last());
        }
    }
}

pub proof fn lemma_trim_start_is_part(s: Seq<char>) -> (n: int)
    ensures
        0 <= n <= s.len(),
        trim_start(s) == s.subrange(n, s.len() as int),
        forall|i: int| 0 <= i < n ==> white(#[trigger] s[i]),
        n < s.len() ==> !white(s[n]),
    decreases s.len(),
{
    if s.len() > 0 && white(s[0]) {
        let rest = s.subrange(1, s.len() as int);
        let m = lemma_trim_start_is_part(rest);
        assert(rest.subrange(m, rest.len() as int) =~= s.subrange(m + 1, s.len() as int));
        assert forall|i: int| 0 <= i < m + 1 implies white(#[trigger] s[i]) by {
            if i > 0 {
                assert(rest[i - 1] == s[i]);
            }
        }
        if m + 1 < s.len() {
            assert(rest[m] == s[m + 1]);
        }
        m + 1
    } else {
        assert(s.subrange(0, s.len() as int) =~= s);
        0
    }
}

pub proof fn lemma_trim_end_is_part(s: Seq<char>) -> (n: int)
    ensures
        0 <= n <= s.len(),
        trim_end(s) == s.subrange(0, n),
        forall|i: int| n <= i < s.len() ==> white(#[trigger] s[i]),
        n > 0 ==> !white(s[n - 1]),
    decreases s.len(),
{
    if s.len() > 0 && white(s.last()) {
        let rest = s.drop_last();
        let m = lemma_trim_end_is_part(rest);
        assert(rest.subrange(0, m) =~= s.subrange(0, m));
        assert forall|i: int| m <= i < s.len() implies white(#[trigger] s[i]) by {
            if i < rest.len() {
                assert(rest[i] == s[i]);
            }
        }
        if m > 0 {
            assert(rest[m - 1] == s[m - 1]);
        }
        m
    } else {
        assert(s.subrange(0, s.len() as int) =~= s);
        s.len() as int
    }
}

/// Trimming takes white space off both ends and nothing else.
pub proof fn law_trimmed_text_is_the_middle(s: Seq<char>) -> (ends: (int, int))
    ensures
        0 <= ends.0 <= ends.1 <= s.len(),
        trim(s) == s.subrange(ends.0, ends.1),
        forall|i: int| 0 <= i < ends.0 ==> white(#[trigger] s[i]),
        forall|i: int| ends.1 <= i < s.len() ==> white(#[trigger] s[i]),
        trim(s).len() > 0 ==> !white(trim(s)[0]) && !white(trim(s).last()),
{
    let n = lemma_trim_start_is_part(s);
    let rest = trim_start(s);
    let m = lemma_trim_end_is_part(rest);
    assert(rest.subrange(0, m) =~= s.subrange(n, n + m));
    assert forall|i: int| n + m <= i < s.len() implies white(#[trigger] s[i]) by {
        assert(rest[i - n] == s[i]);
    }
    (n, n + m)
}

/// A text that neither begins nor ends with white space stays as it is.
pub proof fn lemma_trimmed_already(s: Seq<char>)
    requires
        s.len() > 0,
        !white(s[0]),
        !white(s.last()),
    ensures
        trim(s) == s,
{
}

/// Trimming keeps every text that begins and ends with a character that is not white.
pub proof fn law_trimming_keeps_the_rest(s: Seq<char>, p: Seq<char>)
    requires
        holds(s, p),
        p.len() > 0,
        !white(p[0]),
        !white(p.last()),
    ensures
        holds(trim(s), p),
{
    let ends = law_trimmed_text_is_the_middle(s);
    let i = choose|i: int| matches_at(s, p, i);
    let n = p.len() as int;
    assert(s.subrange(i, i + n)[0] == p[0]);
    assert(s.subrange(i, i + n)[n - 1] == p[n - 1]);
    assert(s[i] == p[0] && s[i + n - 1] == p.last());
    assert(ends.0 <= i && i + n <= ends.1);
    let t = trim(s);
    assert(t.subrange(i - ends.0, i - ends.0 + n) =~= p) by {
        assert(s.subrange(i, i + n) == p);
    }
    assert(matches_at(t, p, i - ends.0));
}

pub proof fn lemma_trim_again(s: Seq<char>)
    ensures
        trim(trim(s)) == trim(s),
{
    let ends = law_trimmed_text_is_the_middle(s);
    if trim(s).len() > 0 {
        lemma_trimmed_already(trim(s));
    }
}

pub proof fn lemma_push_contains<T>(list: Seq<T>, x: T, y: T)
    ensures
        list.push(x).contains(y) <==> list.contains(y) || y == x,
{
    let after = list.push(x);
    if list.contains(y) {
        assert(after[list.index_of(y)] == y);
    }
    if y == x {
        assert(after[list.len() as int] == y);
    }
    if after.contains(y) {
        let i = after.index_of(y);
        if i < list.len() {
            assert(list[i] == y);
        }
    }
}

pub proof fn lemma_sum_contains<T>(a: Seq<T>, b: Seq<T>, y: T)
    ensures
        (a + b).contains(y) <==> a.contains(y) || b.contains(y),
{
    let all = a + b;
    if a.contains(y) {
        assert(all[a.index_of(y)] == y);
    }
    if b.contains(y) {
        assert(all[a.len() + b.index_of(y)] == y);
    }
    if all.contains(y) {
        let i = all.index_of(y);
        if i < a.len() {
            assert(a[i] == y);
        } else {
            assert(b[i - a.len()] == y);
        }
    }
}

/// Where a text does not stand there is nothing to replace.
pub proof fn law_replacing_nothing(t: Seq<char>, p: Seq<char>, r: Seq<char>)
    requires
        !holds(t, p),
    ensures
        replace_all(t, p, r) == t,
    decreases t.len(),
{
    if p.len() > 0 && t.len() >= p.len() {
        if starts(t, p) {
            assert(matches_at(t, p, 0));
        }
        let rest = t.subrange(1, t.len() as int);
        if holds(rest, p) {
            let i = choose|i: int| matches_at(rest, p, i);
            assert(t.subrange(i + 1, i + 1 + p.len()) =~= rest.subrange(i, i + p.len()));
            assert(matches_at(t, p, i + 1));
        }
        law_replacing_nothing(rest, p, r);
        assert(seq![t[0]] + rest =~= t);
    }
}

/// The first match is replaced, what stands before it stays, and what stands behind it is treated
/// in the same way.
pub proof fn law_replacing_the_first_match(
    a: Seq<char>,
    p: Seq<char>,
    b: Seq<char>,
    r: Seq<char>,
)
    requires
        p.len() > 0,
        forall|j: int| 0 <= j < a.len() ==> !#[trigger] matches_at(a + p + b, p, j),
    ensures
        replace_all(a + p + b, p, r) == a + r + replace_all(b, p, r),
    decreases a.len(),
{
    let t = a + p + b;
    if a.len() == 0 {
        assert(t.subrange(0, p.len() as int) =~= p);
        assert(starts(t, p));
        assert(t.subrange(p.len() as int, t.len() as int) =~= b);
        assert(a + r =~= r);
    } else {
        assert(!matches_at(t, p, 0));
        assert(!starts(t, p));
        let rest = a.subrange(1, a.len() as int);
        assert(t.subrange(1, t.len() as int) =~= rest + p + b);
        assert forall|j: int| 0 <= j < rest.len() implies !#[trigger] matches_at(
            rest + p + b,
            p,
            j,
        ) by {
            assert(!matches_at(t, p, j + 1));
            if matches_at(rest + p + b, p, j) {
                assert(t.subrange(j + 1, j + 1 + p.len()) =~= (rest + p + b).subrange(
                    j,
                    j + p.len(),
                ));
            }
        }
        law_replacing_the_first_match(rest, p, b, r);
        assert(seq![a[0]] + (rest + r + replace_all(b, p, r)) =~= a + r + replace_all(b, p, r));
    }
}

proof fn lemma_split_grows(s: Seq<char>, delims: Seq<char>)
    ensures
        split_on(s, delims).len() > 0,
    decreases s.len(),
{
    if s.len() > 0 {
        lemma_split_grows(s.drop_last(), delims);
    }
}

/// A text is split at every separator: the pieces are those before it and those behind it.
pub proof fn law_separator_splits_the_text(
    a: Seq<char>,
    c: char,
    b: Seq<char>,
    delims: Seq<char>,
)
    requires
        delims.contains(c),
    ensures
        split_on(a.push(c) + b, delims) == split_on(a, delims) + split_on(b, delims),
    decreases b.len(),
{
    lemma_split_grows(b, delims);
    if b.len() == 0 {
        assert(a.push(c) + b =~= a.push(c));
        assert(a.push(c).drop_last() =~= a);
        assert(split_on(a, delims).push(Seq::<char>::empty()) =~= split_on(a, delims) + seq![
            Seq::<char>::empty(),
        ]);
    } else {
        let rest = b.drop_last();
        lemma_split_grows(rest, delims);
        law_separator_splits_the_text(a, c, rest, delims);
        assert((a.push(c) + b).drop_last() =~= a.push(c) + rest);
        let x = split_on(a, delims);
        let y = split_on(rest, delims);
        assert((x + y).push(Seq::<char>::empty()) =~= x + y.push(Seq::<char>::empty()));
        assert((x + y).drop_last() =~= x + y.drop_last());
        let z = y.last().push(b.last());
        assert((x + y.drop_last()).push(z) =~= x + y.drop_last().push(z));
    }
}

/// A text without a separator is one piece.
pub proof fn law_text_without_separators_is_one_piece(s: Seq<char>, delims: Seq<char>)
    requires
        forall|i: int| 0 <= i < s.len() ==> !delims.contains(#[trigger] s[i]),
    ensures
        split_on(s, delims) == seq![s],
    decreases s.len(),
{
    if s.len() > 0 {
        let rest = s.drop_last();
        assert forall|i: int| 0 <= i < rest.len() implies !delims.contains(#[trigger] rest[i]) by {
            assert(rest[i] == s[i]);
        }
        law_text_without_separators_is_one_piece(rest, delims);
        assert(!delims.contains(s[s.len() - 1]));
        assert(seq![rest].drop_last().push(rest.push(s.last())) =~= seq![s]) by {
            assert(rest.push(s.last()) =~= s);
        }
    } else {
        assert(s =~= Seq::<char>::empty());
    }
}

/// Where a text does not stand nothing is counted.
pub proof fn law_counting_nothing(t: Seq<char>, p: Seq<char>)
    requires
        !holds(t, p),
    ensures
        count_matches(t, p) == 0,
    decreases t.len(),
{
    if p.len() > 0 && t.len() >= p.len() {
        if starts(t, p) {
            assert(matches_at(t, p, 0));
        }
        let rest = t.subrange(1, t.len() as int);
        if holds(rest, p) {
            let i = choose|i: int| matches_at(rest, p, i);
            assert(t.subrange(i + 1, i + 1 + p.len()) =~= rest.subrange(i, i + p.len()));
            assert(matches_at(t, p, i + 1));
        }
        law_counting_nothing(rest, p);
    }
}

/// The first match counts one, and what stands behind it is counted in the same way.
pub proof fn law_counting_the_first_match(a: Seq<char>, p: Seq<char>, b: Seq<char>)
    requires
        p.len() > 0,
        forall|j: int| 0 <= j < a.len() ==> !#[trigger] matches_at(a + p + b, p, j),
    ensures
        count_matches(a + p + b, p) == 1 + count_matches(b, p),
    decreases a.len(),
{
    let t = a + p + b;
    if a.len() == 0 {
        assert(t.subrange(0, p.len() as int) =~= p);
        assert(starts(t, p));
        assert(t.subrange(p.len() as int, t.len() as int) =~= b);
    } else {
        assert(!matches_at(t, p, 0));
        assert(!starts(t, p));
        let rest = a.subrange(1, a.len() as int);
        assert(t.subrange(1, t.len() as int) =~= rest + p + b);
        assert forall|j: int| 0 <= j < rest.len() implies !#[trigger] matches_at(
            rest + p + b,
            p,
            j,
        ) by {
            assert(!matches_at(t, p, j + 1));
            if matches_at(rest + p + b, p, j) {
                assert(t.subrange(j + 1, j + 1 + p.len()) =~= (rest + p + b).subrange(
                    j,
                    j + p.len(),
                ));
            }
        }
        law_counting_the_first_match(rest, p, b);
    }
}

proof fn lemma_digits_read_back(n: nat)
    ensures
        all_digits(decimal_nat(n)),
        digits_value(decimal_nat(n)) == n,
    decreases n,
{
    reveal_with_fuel(digits_value, 2);
    if n < 10 {
        let s = decimal_nat(n);
        assert(s.drop_last() =~= Seq::<char>::empty());
        assert(s.last() as int == 0x30 + n);
    } else {
        lemma_digits_read_back(n / 10);
        let s = decimal_nat(n);
        let rest = decimal_nat(n / 10);
        assert(s.drop_last() =~= rest);
        assert(s.last() as int == 0x30 + n % 10);
        assert forall|i: int| 0 <= i < s.len() implies ascii_digit(#[trigger] s[i]) by {
            if i < rest.len() {
                assert(s[i] == rest[i]);
            }
        }
    }
}

/// A number that is written down reads back as the same number.
pub proof fn law_number_reads_back(n: int)
    requires
        i64::MIN <= n <= i64::MAX,
    ensures
        signed_number(decimal(n)) == Some(n),
{
    if n < 0 {
        let s = decimal(n);
        lemma_digits_read_back((-n) as nat);
        assert(s[0] == '-');
        assert(s.skip(1) =~= decimal_nat((-n) as nat));
    } else {
        lemma_digits_read_back(n as nat);
        let s = decimal(n);
        assert(ascii_digit(s[0]));
    }
}

/// Different numbers are written differently.
pub proof fn law_numbers_are_written_apart(m: int, n: int)
    requires
        i64::MIN <= m <= i64::MAX,
        i64::MIN <= n <= i64::MAX,
        m != n,
    ensures
        decimal(m) != decimal(n),
{
    law_number_reads_back(m);
    law_number_reads_back(n);
}

/// A list with one more part is joined by the separator and the part.
pub proof fn law_joined_text_grows(parts: Seq<Seq<char>>, sep: Seq<char>, x: Seq<char>)
    ensures
        join(Seq::<Seq<char>>::empty(), sep).len() == 0,
        parts.len() == 0 ==> join(parts.push(x), sep) == x,
        parts.len() > 0 ==> join(parts.push(x), sep) == join(parts, sep) + sep + x,
{
    assert(parts.push(x).drop_last() =~= parts);
}

/// Lower case keeps the length, changes the capitals of ASCII alone, and changes nothing twice.
pub proof fn law_lower_case(s: Seq<char>, i: int)
    requires
        0 <= i < s.len(),
    ensures
        ascii_lowered(s).len() == s.len(),
        !('A' <= s[i] && s[i] <= 'Z') ==> ascii_lowered(s)[i] == s[i],
        'A' <= s[i] && s[i] <= 'Z' ==> ascii_lowered(s)[i] as int == s[i] as int + 32,
        ascii_lowered(ascii_lowered(s)) == ascii_lowered(s),
{
    assert(ascii_lowered(ascii_lowered(s)) =~= ascii_lowered(s));
}

} // verus!
