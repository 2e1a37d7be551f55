//! Canonical ordering of class members and alternation branches.
//!
//! The compiler emits character-class members and alternation branches in a
//! deterministic order, independent of the order and multiplicity in which
//! the pattern lists them.  This module defines that canonical form — an
//! insertion sort that drops duplicates — and proves that the result is
//! strictly sorted and depends only on the set of elements inserted.

use vstd::prelude::*;
use vstd::relations::total_ordering;

verus! {

broadcast use vstd::seq_lib::group_seq_properties;

/// `x` placed at its position in `s`; a duplicate of an existing element
/// leaves `s` unchanged.
pub open spec fn insert_sorted<A>(le: spec_fn(A, A) -> bool, x: A, s: Seq<A>) -> Seq<A>
    decreases s.len(),
{
    if s.len() == 0 {
        seq![x]
    } else if x == s[0] {
        s
    } else if le(x, s[0]) {
        seq![x] + s
    } else {
        seq![s[0]] + insert_sorted(le, x, s.drop_first())
    }
}

/// The elements of `s`, in ascending order, each kept once.
pub open spec fn sort_dedup<A>(le: spec_fn(A, A) -> bool, s: Seq<A>) -> Seq<A>
    decreases s.len(),
{
    if s.len() == 0 {
        Seq::empty()
    } else {
        insert_sorted(le, s.last(), sort_dedup(le, s.drop_last()))
    }
}

/// Strictly ascending: any two positions hold ordered, distinct elements.
pub open spec fn strictly_sorted_by<A>(le: spec_fn(A, A) -> bool, s: Seq<A>) -> bool {
    forall|i: int, j: int|
        #![trigger s[i], s[j]]
        0 <= i < j < s.len() ==> le(s[i], s[j]) && s[i] != s[j]
}

/// A one-element sequence holds exactly that element.
pub proof fn lemma_singleton_contains<A>(x: A, y: A)
    ensures
        seq![x].contains(y) <==> x == y,
{
    assert(seq![x][0] == x);
    if seq![x].contains(y) {
        let i = choose|i: int| 0 <= i < seq![x].len() && seq![x][i] == y;
        assert(i == 0);
    }
}

/// A non-empty sequence holds an element exactly when its first element is
/// that element or the rest of the sequence holds it.
pub proof fn lemma_contains_split_first<A>(s: Seq<A>, y: A)
    requires
        s.len() > 0,
    ensures
        s.contains(y) <==> y == s[0] || s.drop_first().contains(y),
{
    if s.contains(y) {
        let i = choose|i: int| 0 <= i < s.len() && s[i] == y;
        if i > 0 {
            assert(s.drop_first()[i - 1] == y);
        }
    }
    if s.drop_first().contains(y) {
        let i = choose|i: int| 0 <= i < s.drop_first().len() && s.drop_first()[i] == y;
        assert(s[i + 1] == y);
    }
    assert(s[0] == s[0]);
}

/// A non-empty sequence holds an element exactly when its last element is
/// that element or the sequence without it holds it.
pub proof fn lemma_contains_split_last<A>(s: Seq<A>, y: A)
    requires
        s.len() > 0,
    ensures
        s.contains(y) <==> y == s.last() || s.drop_last().contains(y),
{
    if s.contains(y) {
        let i = choose|i: int| 0 <= i < s.len() && s[i] == y;
        if i < s.len() - 1 {
            assert(s.drop_last()[i] == y);
        }
    }
    if s.drop_last().contains(y) {
        let i = choose|i: int| 0 <= i < s.drop_last().len() && s.drop_last()[i] == y;
        assert(s[i] == y);
    }
    assert(s[s.len() - 1] == s.last());
}

/// Inserting `x` adds `x` to the elements of `s` and nothing else.
pub proof fn lemma_insert_sorted_contains<A>(le: spec_fn(A, A) -> bool, x: A, s: Seq<A>, y: A)
    ensures
        insert_sorted(le, x, s).contains(y) <==> y == x || s.contains(y),
    decreases s.len(),
{
    if s.len() == 0 {
        assert(insert_sorted(le, x, s) == seq![x]);
        assert(seq![x][0] == x);
        if insert_sorted(le, x, s).contains(y) {
            let i = choose|i: int| 0 <= i < seq![x].len() && seq![x][i] == y;
            assert(y == x);
        }
    } else if x == s[0] {
        assert(s[0] == x);
    } else if le(x, s[0]) {
        assert(seq![x][0] == x);
        assert((seq![x] + s).contains(y) <==> seq![x].contains(y) || s.contains(y));
        if seq![x].contains(y) {
            let i = choose|i: int| 0 <= i < seq![x].len() && seq![x][i] == y;
            assert(y == x);
        }
    } else {
        lemma_insert_sorted_contains(le, x, s.drop_first(), y);
        lemma_contains_split_first(s, y);
        let t = insert_sorted(le, x, s.drop_first());
        assert((seq![s[0]] + t).contains(y) <==> seq![s[0]].contains(y) || t.contains(y));
        assert(seq![s[0]][0] == s[0]);
        if seq![s[0]].contains(y) {
            let i = choose|i: int| 0 <= i < seq![s[0]].len() && seq![s[0]][i] == y;
            assert(y == s[0]);
        }
    }
}

/// Inserting into a strictly sorted sequence keeps it strictly sorted.
pub proof fn lemma_insert_sorted_sorted<A>(le: spec_fn(A, A) -> bool, x: A, s: Seq<A>)
    requires
        total_ordering(le),
        strictly_sorted_by(le, s),
    ensures
        strictly_sorted_by(le, insert_sorted(le, x, s)),
    decreases s.len(),
{
    let r = insert_sorted(le, x, s);
    if s.len() == 0 {
        assert(strictly_sorted_by(le, r));
    } else if x == s[0] {
        assert(r == s);
    } else if le(x, s[0]) {
        assert forall|i: int, j: int| 0 <= i < j < r.len() implies #[trigger] le(r[i], r[j])
            && r[i] != r[j] by {
            if i == 0 {
                assert(r[0] == x);
                assert(r[j] == s[j - 1]);
                if j == 1 {
                    assert(le(x, s[0]) && x != s[0]);
                } else {
                    assert(le(s[0], s[j - 1]) && s[0] != s[j - 1]);
                    assert(le(x, s[j - 1]));
                    if x == s[j - 1] {
                        assert(le(s[0], x));
                        assert(x == s[0]);
                        assert(false);
                    }
                }
            } else {
                assert(r[i] == s[i - 1] && r[j] == s[j - 1]);
                assert(le(s[i - 1], s[j - 1]) && s[i - 1] != s[j - 1]);
            }
        }
    } else {
        assert(le(x, s[0]) || le(s[0], x));
        let tail = s.drop_first();
        assert forall|i: int, j: int| 0 <= i < j < tail.len() implies #[trigger] le(
            tail[i],
            tail[j],
        ) && tail[i] != tail[j] by {
            assert(tail[i] == s[i + 1] && tail[j] == s[j + 1]);
            assert(le(s[i + 1], s[j + 1]) && s[i + 1] != s[j + 1]);
        }
        lemma_insert_sorted_sorted(le, x, tail);
        let t = insert_sorted(le, x, tail);
        assert forall|i: int, j: int| 0 <= i < j < r.len() implies #[trigger] le(r[i], r[j])
            && r[i] != r[j] by {
            if i == 0 {
                assert(r[0] == s[0]);
                assert(r[j] == t[j - 1]);
                assert(t.contains(t[j - 1]));
                lemma_insert_sorted_contains(le, x, tail, t[j - 1]);
                if t[j - 1] == x {
                    assert(le(s[0], x) && s[0] != x);
                } else {
                    let k = choose|k: int| 0 <= k < tail.len() && tail[k] == t[j - 1];
                    assert(tail[k] == s[k + 1]);
                    assert(le(s[0], s[k + 1]) && s[0] != s[k + 1]);
                }
            } else {
                assert(r[i] == t[i - 1] && r[j] == t[j - 1]);
                assert(le(t[i - 1], t[j - 1]) && t[i - 1] != t[j - 1]);
            }
        }
    }
}

/// Sorting with deduplication yields a strictly sorted sequence with
/// exactly the elements of the input.
pub proof fn lemma_sort_dedup_props<A>(le: spec_fn(A, A) -> bool, s: Seq<A>)
    requires
        total_ordering(le),
    ensures
        strictly_sorted_by(le, sort_dedup(le, s)),
        forall|y: A| #[trigger] sort_dedup(le, s).contains(y) <==> s.contains(y),
    decreases s.len(),
{
    if s.len() == 0 {
        assert forall|y: A| !(#[trigger] sort_dedup(le, s).contains(y)) && !s.contains(y) by {
            assert(sort_dedup(le, s) == Seq::<A>::empty());
        }
    } else {
        lemma_sort_dedup_props(le, s.drop_last());
        lemma_insert_sorted_sorted(le, s.last(), sort_dedup(le, s.drop_last()));
        assert forall|y: A| #[trigger] sort_dedup(le, s).contains(y) <==> s.contains(y) by {
            lemma_insert_sorted_contains(le, s.last(), sort_dedup(le, s.drop_last()), y);
            lemma_contains_split_last(s, y);
        }
    }
}

/// Two strictly sorted sequences with the same elements are equal.
pub proof fn lemma_strictly_sorted_equal<A>(le: spec_fn(A, A) -> bool, s1: Seq<A>, s2: Seq<A>)
    requires
        total_ordering(le),
        strictly_sorted_by(le, s1),
        strictly_sorted_by(le, s2),
        forall|y: A| #![trigger s1.contains(y)] #![trigger s2.contains(y)]
            s1.contains(y) <==> s2.contains(y),
    ensures
        s1 == s2,
    decreases s1.len(),
{
    if s1.len() == 0 {
        if s2.len() > 0 {
            assert(s2[0] == s2[0]);
            assert(s2.contains(s2[0]));
            assert(s1.contains(s2[0]));
            assert(false);
        }
        assert(s1 =~= s2);
    } else if s2.len() == 0 {
        assert(s1[0] == s1[0]);
        assert(s1.contains(s1[0]));
        assert(s2.contains(s1[0]));
        assert(false);
    } else {
        assert(s1.contains(s1[0]));
        assert(s2.contains(s2[0]));
        assert(s2.contains(s1[0]));
        assert(s1.contains(s2[0]));
        let j = choose|j: int| 0 <= j < s2.len() && s2[j] == s1[0];
        let k = choose|k: int| 0 <= k < s1.len() && s1[k] == s2[0];
        if j > 0 {
            assert(le(s2[0], s2[j]) && s2[0] != s2[j]);
            if k > 0 {
                assert(le(s1[0], s1[k]) && s1[0] != s1[k]);
                assert(le(s2[j], s2[0]));
                assert(s2[j] == s2[0]);
                assert(false);
            } else {
                assert(s1[0] == s2[0]);
                assert(false);
            }
        }
        assert(s1[0] == s2[0]);
        let t1 = s1.drop_first();
        let t2 = s2.drop_first();
        assert forall|i: int, j2: int| 0 <= i < j2 < t1.len() implies #[trigger] le(t1[i], t1[j2])
            && t1[i] != t1[j2] by {
            assert(t1[i] == s1[i + 1] && t1[j2] == s1[j2 + 1]);
            assert(le(s1[i + 1], s1[j2 + 1]) && s1[i + 1] != s1[j2 + 1]);
        }
        assert forall|i: int, j2: int| 0 <= i < j2 < t2.len() implies #[trigger] le(t2[i], t2[j2])
            && t2[i] != t2[j2] by {
            assert(t2[i] == s2[i + 1] && t2[j2] == s2[j2 + 1]);
            assert(le(s2[i + 1], s2[j2 + 1]) && s2[i + 1] != s2[j2 + 1]);
        }
        assert forall|y: A| #![trigger t1.contains(y)] #![trigger t2.contains(y)]
            t1.contains(y) <==> t2.contains(y) by {
            lemma_contains_split_first(s1, y);
            lemma_contains_split_first(s2, y);
            if t1.contains(y) {
                let i = choose|i: int| 0 <= i < t1.len() && t1[i] == y;
                assert(t1[i] == s1[i + 1]);
                assert(le(s1[0], s1[i + 1]) && s1[0] != s1[i + 1]);
                assert(y != s1[0]);
                assert(s2.contains(y));
                let m = choose|m: int| 0 <= m < s2.len() && s2[m] == y;
                assert(m > 0);
                assert(t2[m - 1] == y);
            }
            if t2.contains(y) {
                let i = choose|i: int| 0 <= i < t2.len() && t2[i] == y;
                assert(t2[i] == s2[i + 1]);
                assert(le(s2[0], s2[i + 1]) && s2[0] != s2[i + 1]);
                assert(y != s2[0]);
                assert(s1.contains(y));
                let m = choose|m: int| 0 <= m < s1.len() && s1[m] == y;
                assert(m > 0);
                assert(t1[m - 1] == y);
            }
        }
        lemma_strictly_sorted_equal(le, t1, t2);
        assert forall|i: int| 0 <= i < s1.len() implies s1[i] == s2[i] by {
            if i > 0 {
                assert(s1[i] == t1[i - 1] && s2[i] == t2[i - 1]);
            }
        }
        assert(s1 =~= s2);
    }
}

/// The canonical form of a sequence is determined by its set of elements
/// alone: order and multiplicity in the input do not matter.
pub proof fn lemma_sort_dedup_canonical<A>(le: spec_fn(A, A) -> bool, s1: Seq<A>, s2: Seq<A>)
    requires
        total_ordering(le),
        forall|y: A| #![trigger s1.contains(y)] #![trigger s2.contains(y)]
            s1.contains(y) <==> s2.contains(y),
    ensures
        sort_dedup(le, s1) == sort_dedup(le, s2),
{
    lemma_sort_dedup_props(le, s1);
    lemma_sort_dedup_props(le, s2);
    assert forall|y: A|
        #![trigger sort_dedup(le, s1).contains(y)]
        #![trigger sort_dedup(le, s2).contains(y)]
        sort_dedup(le, s1).contains(y) <==> sort_dedup(le, s2).contains(y) by {
        assert(sort_dedup(le, s1).contains(y) <==> s1.contains(y));
        assert(sort_dedup(le, s2).contains(y) <==> s2.contains(y));
    }
    lemma_strictly_sorted_equal(le, sort_dedup(le, s1), sort_dedup(le, s2));
}

/// Where the insertion lands: before the first element not strictly below
/// `x`, or nowhere when that element already is `x`.
pub proof fn lemma_insert_sorted_position<A>(le: spec_fn(A, A) -> bool, x: A, s: Seq<A>, i: int)
    requires
        total_ordering(le),
        0 <= i <= s.len(),
        forall|j: int| 0 <= j < i ==> #[trigger] le(s[j], x) && s[j] != x,
        i < s.len() ==> le(x, s[i]),
    ensures
        insert_sorted(le, x, s) == (if i < s.len() && x == s[i] {
            s
        } else {
            s.take(i) + seq![x] + s.skip(i)
        }),
    decreases s.len(),
{
    if s.len() == 0 {
        assert(insert_sorted(le, x, s) == seq![x]);
        assert(seq![x] =~= s.take(0) + seq![x] + s.skip(0));
    } else if i == 0 {
        if x == s[0] {
        } else {
            assert(le(x, s[0]));
            assert(seq![x] + s =~= s.take(0) + seq![x] + s.skip(0));
        }
    } else {
        assert(le(s[0], x) && s[0] != x);
        if le(x, s[0]) {
            assert(x == s[0]);
            assert(false);
        }
        let tail = s.drop_first();
        assert forall|j: int| 0 <= j < i - 1 implies #[trigger] le(tail[j], x) && tail[j] != x by {
            assert(tail[j] == s[j + 1]);
            assert(le(s[j + 1], x) && s[j + 1] != x);
        }
        if i - 1 < tail.len() {
            assert(tail[i - 1] == s[i]);
        }
        lemma_insert_sorted_position(le, x, tail, i - 1);
        if i < s.len() && x == s[i] {
            assert(insert_sorted(le, x, tail) == tail);
            assert(seq![s[0]] + tail =~= s);
        } else {
            assert(insert_sorted(le, x, tail) == tail.take(i - 1) + seq![x] + tail.skip(i - 1));
            assert(seq![s[0]] + (tail.take(i - 1) + seq![x] + tail.skip(i - 1)) =~= s.take(i)
                + seq![x] + s.skip(i));
        }
    }
}

/// Extending the input by one element inserts that element into the
/// canonical form.
pub proof fn lemma_sort_dedup_step<A>(le: spec_fn(A, A) -> bool, s: Seq<A>, i: int)
    requires
        0 <= i < s.len(),
    ensures
        sort_dedup(le, s.take(i + 1)) == insert_sorted(le, s[i], sort_dedup(le, s.take(i))),
{
    assert(s.take(i + 1).drop_last() =~= s.take(i));
    assert(s.take(i + 1).last() == s[i]);
}

/// Two characters with the same scalar value are the same character.
pub proof fn lemma_char_cast_injective(a: char, b: char)
    requires
        a as u32 == b as u32,
    ensures
        a == b,
{
    vstd::utf8::char_u32_cast(a, a as u32);
    vstd::utf8::char_u32_cast(b, b as u32);
}

/// The order in which single characters are listed inside a class.
pub open spec fn char_le() -> spec_fn(char, char) -> bool {
    |a: char, b: char| (a as u32) <= (b as u32)
}

pub proof fn lemma_char_le_total_ordering()
    ensures
        total_ordering(char_le()),
{
    let le = char_le();
    assert forall|a: char| #[trigger] le(a, a) by {}
    assert forall|a: char, b: char| #[trigger] le(a, b) && #[trigger] le(b, a) implies a == b by {
        lemma_char_cast_injective(a, b);
    }
    assert forall|a: char, b: char, c: char|
        #[trigger] le(a, b) && #[trigger] le(b, c) implies le(a, c) by {}
    assert forall|a: char, b: char| #[trigger] le(a, b) || #[trigger] le(b, a) by {}
}

/// The order in which ranges are listed inside a class: by start, then end.
pub open spec fn range_le() -> spec_fn((char, char), (char, char)) -> bool {
    |a: (char, char), b: (char, char)|
        (a.0 as u32) < (b.0 as u32) || (a.0 == b.0 && (a.1 as u32) <= (b.1 as u32))
}

pub proof fn lemma_range_le_total_ordering()
    ensures
        total_ordering(range_le()),
{
    let le = range_le();
    assert forall|a: (char, char)| #[trigger] le(a, a) by {}
    assert forall|a: (char, char), b: (char, char)|
        #[trigger] le(a, b) && #[trigger] le(b, a) implies a == b by {
        if a.0 as u32 == b.0 as u32 {
            lemma_char_cast_injective(a.0, b.0);
        }
        lemma_char_cast_injective(a.1, b.1);
    }
    assert forall|a: (char, char), b: (char, char), c: (char, char)|
        #[trigger] le(a, b) && #[trigger] le(b, c) implies le(a, c) by {}
    assert forall|a: (char, char), b: (char, char)|
        #[trigger] le(a, b) || #[trigger] le(b, a) by {
        if a.0 as u32 == b.0 as u32 {
            lemma_char_cast_injective(a.0, b.0);
        }
    }
}

/// Lexicographic order on character sequences, by scalar value.
pub open spec fn lex_le(a: Seq<char>, b: Seq<char>) -> bool
    decreases a.len(),
{
    if a.len() == 0 {
        true
    } else if b.len() == 0 {
        false
    } else if (a[0] as u32) < (b[0] as u32) {
        true
    } else if a[0] == b[0] {
        lex_le(a.drop_first(), b.drop_first())
    } else {
        false
    }
}

/// The order in which escaped branches are listed in an alternation group.
pub open spec fn branch_le() -> spec_fn(Seq<char>, Seq<char>) -> bool {
    |a: Seq<char>, b: Seq<char>| lex_le(a, b)
}

pub proof fn lemma_lex_le_refl(a: Seq<char>)
    ensures
        lex_le(a, a),
    decreases a.len(),
{
    if a.len() > 0 {
        lemma_lex_le_refl(a.drop_first());
    }
}

pub proof fn lemma_lex_le_connected(a: Seq<char>, b: Seq<char>)
    ensures
        lex_le(a, b) || lex_le(b, a),
    decreases a.len(),
{
    if a.len() > 0 && b.len() > 0 {
        if !((a[0] as u32) < (b[0] as u32)) && !((b[0] as u32) < (a[0] as u32)) {
            lemma_char_cast_injective(a[0], b[0]);
            lemma_lex_le_connected(a.drop_first(), b.drop_first());
        }
    }
}

pub proof fn lemma_lex_le_antisym(a: Seq<char>, b: Seq<char>)
    requires
        lex_le(a, b),
        lex_le(b, a),
    ensures
        a == b,
    decreases a.len(),
{
    if a.len() == 0 {
        assert(b.len() == 0);
        assert(a =~= b);
    } else {
        assert(b.len() > 0);
        if (a[0] as u32) < (b[0] as u32) {
            assert(!lex_le(b, a));
            assert(false);
        }
        assert(a[0] == b[0]);
        lemma_lex_le_antisym(a.drop_first(), b.drop_first());
        assert forall|i: int| 0 <= i < a.len() implies a[i] == b[i] by {
            if i > 0 {
                assert(a[i] == a.drop_first()[i - 1]);
                assert(b[i] == b.drop_first()[i - 1]);
            }
        }
        assert(a =~= b);
    }
}

pub proof fn lemma_lex_le_trans(a: Seq<char>, b: Seq<char>, c: Seq<char>)
    requires
        lex_le(a, b),
        lex_le(b, c),
    ensures
        lex_le(a, c),
    decreases a.len(),
{
    if a.len() > 0 {
        assert(b.len() > 0);
        assert(c.len() > 0);
        if a[0] == b[0] && b[0] == c[0] {
            lemma_lex_le_trans(a.drop_first(), b.drop_first(), c.drop_first());
        }
    }
}

pub proof fn lemma_branch_le_total_ordering()
    ensures
        total_ordering(branch_le()),
{
    let le = branch_le();
    assert forall|a: Seq<char>| #[trigger] le(a, a) by {
        lemma_lex_le_refl(a);
    }
    assert forall|a: Seq<char>, b: Seq<char>|
        #[trigger] le(a, b) && #[trigger] le(b, a) implies a == b by {
        lemma_lex_le_antisym(a, b);
    }
    assert forall|a: Seq<char>, b: Seq<char>, c: Seq<char>|
        #[trigger] le(a, b) && #[trigger] le(b, c) implies le(a, c) by {
        lemma_lex_le_trans(a, b, c);
    }
    assert forall|a: Seq<char>, b: Seq<char>| #[trigger] le(a, b) || #[trigger] le(b, a) by {
        lemma_lex_le_connected(a, b);
    }
}

/// A shared prefix of equal characters does not affect the order.
pub proof fn lemma_lex_le_skip(a: Seq<char>, b: Seq<char>, k: int)
    requires
        0 <= k <= a.len(),
        k <= b.len(),
        forall|j: int| 0 <= j < k ==> a[j] == b[j],
    ensures
        lex_le(a, b) == lex_le(a.skip(k), b.skip(k)),
    decreases k,
{
    if k == 0 {
        assert(a.skip(0) =~= a);
        assert(b.skip(0) =~= b);
    } else {
        assert(a[0] == b[0]);
        let ta = a.drop_first();
        let tb = b.drop_first();
        assert forall|j: int| 0 <= j < k - 1 implies ta[j] == tb[j] by {
            assert(ta[j] == a[j + 1]);
            assert(tb[j] == b[j + 1]);
            assert(a[j + 1] == b[j + 1]);
        }
        lemma_lex_le_skip(ta, tb, k - 1);
        assert(ta.skip(k - 1) =~= a.skip(k));
        assert(tb.skip(k - 1) =~= b.skip(k));
    }
}

/// Place one character into a strictly sorted vector, dropping duplicates.
pub fn insert_char_sorted(v: &mut Vec<char>, x: char)
    ensures
        final(v)@ == insert_sorted(char_le(), x, old(v)@),
{
    let mut i: usize = 0;
    while i < v.len() && (v[i] as u32) < (x as u32)
        invariant
            i <= v@.len(),
            v@ == old(v)@,
            forall|j: int| 0 <= j < i ==> ((#[trigger] v@[j] as u32) < (x as u32)),
        decreases v@.len() - i,
    {
        i += 1;
    }
    let ghost s = v@;
    let ghost gi = i as int;
    proof {
        lemma_char_le_total_ordering();
        let le = char_le();
        assert forall|j: int| 0 <= j < gi implies #[trigger] le(s[j], x) && s[j] != x by {
            assert((s[j] as u32) < (x as u32));
        }
        if gi < s.len() {
            assert(le(x, s[gi]));
        }
        lemma_insert_sorted_position(le, x, s, gi);
    }
    if i < v.len() && v[i] == x {
    } else {
        v.insert(i, x);
        proof {
            assert(s.insert(gi, x) =~= s.take(gi) + seq![x] + s.skip(gi));
        }
    }
}

/// Place one range into a strictly sorted vector, dropping duplicates.
pub fn insert_range_sorted(v: &mut Vec<(char, char)>, x: (char, char))
    ensures
        final(v)@ == insert_sorted(range_le(), x, old(v)@),
{
    let mut i: usize = 0;
    while i < v.len() && ((v[i].0 as u32) < (x.0 as u32) || (v[i].0 == x.0 && (v[i].1 as u32)
        < (x.1 as u32)))
        invariant
            i <= v@.len(),
            v@ == old(v)@,
            forall|j: int|
                0 <= j < i ==> (((#[trigger] v@[j]).0 as u32) < (x.0 as u32) || (v@[j].0 == x.0
                    && (v@[j].1 as u32) < (x.1 as u32))),
        decreases v@.len() - i,
    {
        i += 1;
    }
    let ghost s = v@;
    let ghost gi = i as int;
    proof {
        lemma_range_le_total_ordering();
        let le = range_le();
        assert forall|j: int| 0 <= j < gi implies #[trigger] le(s[j], x) && s[j] != x by {
            if s[j].0 == x.0 {
                assert((s[j].1 as u32) < (x.1 as u32));
            }
        }
        if gi < s.len() {
            if !(s[gi].0 as u32 == x.0 as u32) {
                assert((x.0 as u32) < (s[gi].0 as u32));
            } else {
                lemma_char_cast_injective(s[gi].0, x.0);
            }
            assert(le(x, s[gi]));
        }
        lemma_insert_sorted_position(le, x, s, gi);
    }
    if i < v.len() && v[i].0 == x.0 && v[i].1 == x.1 {
    } else {
        v.insert(i, x);
        proof {
            if gi < s.len() {
                assert(s[gi] != x || (s[gi].0 == x.0 && s[gi].1 == x.1));
            }
            assert(s.insert(gi, x) =~= s.take(gi) + seq![x] + s.skip(gi));
        }
    }
}

/// The views of a sequence of character vectors.
pub open spec fn seq_views(s: Seq<Vec<char>>) -> Seq<Seq<char>> {
    s.map_values(|b: Vec<char>| b@)
}

/// Whether `a` sorts strictly before `b` in the branch order.
pub fn branch_lt(a: &Vec<char>, b: &Vec<char>) -> (r: bool)
    ensures
        r == (lex_le(a@, b@) && a@ != b@),
{
    let mut k: usize = 0;
    while k < a.len() && k < b.len()
        invariant
            k <= a@.len(),
            k <= b@.len(),
            forall|j: int| 0 <= j < k ==> #[trigger] a@[j] == b@[j],
        decreases a@.len() - k,
    {
        if (a[k] as u32) < (b[k] as u32) {
            proof {
                lemma_lex_le_skip(a@, b@, k as int);
                assert(a@.skip(k as int)[0] == a@[k as int]);
                assert(b@.skip(k as int)[0] == b@[k as int]);
                assert(lex_le(a@.skip(k as int), b@.skip(k as int)));
                assert(a@[k as int] != b@[k as int]);
            }
            return true;
        }
        if !(a[k] == b[k]) {
            proof {
                lemma_lex_le_skip(a@, b@, k as int);
                assert(a@.skip(k as int)[0] == a@[k as int]);
                assert(b@.skip(k as int)[0] == b@[k as int]);
                if (a@[k as int] as u32) == (b@[k as int] as u32) {
                    lemma_char_cast_injective(a@[k as int], b@[k as int]);
                }
                assert(!lex_le(a@.skip(k as int), b@.skip(k as int)));
            }
            return false;
        }
        k += 1;
    }
    proof {
        lemma_lex_le_skip(a@, b@, k as int);
    }
    if a.len() < b.len() {
        proof {
            assert(a@.skip(k as int).len() == 0);
            assert(lex_le(a@.skip(k as int), b@.skip(k as int)));
            assert(a@.len() != b@.len());
        }
        true
    } else if a.len() == b.len() {
        proof {
            assert(a@ =~= b@);
        }
        false
    } else {
        proof {
            assert(b@.skip(k as int).len() == 0);
            assert(a@.skip(k as int).len() > 0);
            assert(!lex_le(a@.skip(k as int), b@.skip(k as int)));
        }
        false
    }
}

/// The position before the first branch not strictly below `x`.
fn branch_insert_pos(v: &Vec<Vec<char>>, x: &Vec<char>) -> (k: usize)
    ensures
        k <= v@.len(),
        forall|j: int|
            0 <= j < k ==> (lex_le(#[trigger] seq_views(v@)[j], x@) && seq_views(v@)[j] != x@),
        k < v@.len() ==> !(lex_le(seq_views(v@)[k as int], x@) && seq_views(v@)[k as int] != x@),
{
    let mut k: usize = 0;
    while k < v.len()
        invariant
            k <= v@.len(),
            forall|j: int|
                0 <= j < k ==> (lex_le(#[trigger] seq_views(v@)[j], x@) && seq_views(v@)[j]
                    != x@),
        decreases v@.len() - k,
    {
        let lt = branch_lt(&v[k], x);
        proof {
            assert(seq_views(v@)[k as int] == v@[k as int]@);
        }
        if !lt {
            return k;
        }
        k += 1;
    }
    k
}

/// Place one branch into a strictly sorted vector, dropping duplicates.
pub fn insert_branch_sorted(v: &mut Vec<Vec<char>>, x: Vec<char>)
    ensures
        seq_views(final(v)@) == insert_sorted(branch_le(), x@, seq_views(old(v)@)),
{
    let ghost xv = x@;
    let k = branch_insert_pos(v, &x);
    let ghost s = seq_views(v@);
    let ghost gk = k as int;
    proof {
        lemma_branch_le_total_ordering();
        let le = branch_le();
        assert forall|j: int| 0 <= j < gk implies #[trigger] le(s[j], xv) && s[j] != xv by {}
        if gk < s.len() {
            assert(s[gk] == v@[gk]@);
            lemma_lex_le_connected(s[gk], xv);
        }
    }
    if k < v.len() && !branch_lt(&x, &v[k]) {
        proof {
            let le = branch_le();
            if s[gk] != xv {
                assert(lex_le(xv, s[gk]) || lex_le(s[gk], xv));
                lemma_lex_le_antisym(s[gk], xv);
                assert(false);
            }
            lemma_insert_sorted_position(le, xv, s, gk);
        }
    } else {
        proof {
            let le = branch_le();
            if gk < s.len() {
                assert(le(xv, s[gk]));
            }
            lemma_insert_sorted_position(le, xv, s, gk);
        }
        v.insert(k, x);
        proof {
            assert(seq_views(old(v)@.insert(gk, x)) =~= s.take(gk) + seq![xv] + s.skip(gk));
        }
    }
}

} // verus!
