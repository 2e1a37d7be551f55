//! Character classes: the `[...]` accumulator, the rule that keeps the
//! path separator out of every class, and the canonical serialization.

use vstd::prelude::*;
use crate::escape::escaped_in_class;
use crate::escape::push_escaped_in_class;
use crate::sorting::char_le;
use crate::sorting::insert_char_sorted;
use crate::sorting::insert_sorted;
use crate::sorting::insert_range_sorted;
use crate::sorting::lemma_char_le_total_ordering;
use crate::sorting::lemma_range_le_total_ordering;
use crate::sorting::lemma_sort_dedup_canonical;
use crate::sorting::lemma_sort_dedup_step;
use crate::sorting::range_le;
use crate::sorting::sort_dedup;

verus! {

broadcast use vstd::seq_lib::group_seq_properties;

/// Something that may appear in a character class.
#[derive(Clone, Copy, Debug)]
pub enum ClassItem {
    /// A single character.
    Char(char),
    /// An inclusive range of characters.
    Range(char, char),
}

/// An accumulator for building the representation of a character class.
#[derive(Debug)]
pub struct ClassAccumulator {
    /// Is the class negated (i.e. was `!` the first character).
    pub negated: bool,
    /// The characters or ranges in the class, in order of appearance.
    pub items: Vec<ClassItem>,
}

/// Whether one class item covers a character.
pub open spec fn item_covers(item: ClassItem, c: char) -> bool {
    match item {
        ClassItem::Char(x) => x == c,
        ClassItem::Range(lo, hi) => (lo as u32) <= (c as u32) && (c as u32) <= (hi as u32),
    }
}

/// Whether any item of a class body covers a character.
pub open spec fn items_cover(items: Seq<ClassItem>, c: char) -> bool {
    exists|i: int| 0 <= i < items.len() && item_covers(#[trigger] items[i], c)
}

/// What a class accepts: the covered characters, or exactly the uncovered
/// ones when the class is negated.
pub open spec fn class_accepts(negated: bool, items: Seq<ClassItem>, c: char) -> bool {
    if negated {
        !items_cover(items, c)
    } else {
        items_cover(items, c)
    }
}

/// One item with the path separator forced out: a standalone separator is
/// dropped, a range around it is split just below and just above it.
pub open spec fn exclude_slash_item(item: ClassItem) -> Seq<ClassItem> {
    match item {
        ClassItem::Char(c) => if c == '/' {
            Seq::empty()
        } else {
            seq![ClassItem::Char(c)]
        },
        ClassItem::Range(lo, hi) => if lo == '.' && hi == '/' {
            seq![ClassItem::Char('.')]
        } else if hi == '/' {
            seq![ClassItem::Range(lo, '.')]
        } else if lo == '/' && hi == '0' {
            seq![ClassItem::Char('0')]
        } else if lo == '/' {
            seq![ClassItem::Range('0', hi)]
        } else if (lo as u32) > ('/' as u32) || (hi as u32) < ('/' as u32) {
            seq![ClassItem::Range(lo, hi)]
        } else {
            (if lo == '.' {
                seq![ClassItem::Char('.')]
            } else {
                seq![ClassItem::Range(lo, '.')]
            }) + (if hi == '0' {
                seq![ClassItem::Char('0')]
            } else {
                seq![ClassItem::Range('0', hi)]
            })
        },
    }
}

/// A class body with the path separator forced out of every item.
pub open spec fn slash_excluded(items: Seq<ClassItem>) -> Seq<ClassItem>
    decreases items.len(),
{
    if items.len() == 0 {
        Seq::empty()
    } else {
        slash_excluded(items.drop_last()) + exclude_slash_item(items.last())
    }
}

/// A class body guaranteed to cover the path separator, so that the
/// negated class excludes it.
pub open spec fn slash_included(items: Seq<ClassItem>) -> Seq<ClassItem> {
    if items_cover(items, '/') {
        items
    } else {
        items + seq![ClassItem::Char('/')]
    }
}

/// The separator rule for a closing class: force the separator out of a
/// plain class, and into the covered set of a negated one.
pub open spec fn slash_handled(negated: bool, items: Seq<ClassItem>) -> Seq<ClassItem> {
    if negated {
        slash_included(items)
    } else {
        slash_excluded(items)
    }
}

/// Extending a class body by one item extends what it covers by what that
/// item covers.
proof fn lemma_items_cover_take_step(items: Seq<ClassItem>, c: char, i: int)
    requires
        0 <= i < items.len(),
    ensures
        items_cover(items.take(i + 1), c) == (items_cover(items.take(i), c) || item_covers(
            items[i],
            c,
        )),
{
    if items_cover(items.take(i + 1), c) {
        let j = choose|j: int|
            0 <= j < items.take(i + 1).len() && item_covers(#[trigger] items.take(i + 1)[j], c);
        if j < i {
            assert(items.take(i)[j] == items.take(i + 1)[j]);
            assert(item_covers(items.take(i)[j], c));
        } else {
            assert(items.take(i + 1)[j] == items[i]);
        }
    }
    if items_cover(items.take(i), c) {
        let j = choose|j: int|
            0 <= j < items.take(i).len() && item_covers(#[trigger] items.take(i)[j], c);
        assert(item_covers(items.take(i + 1)[j], c));
    }
    if item_covers(items[i], c) {
        assert(item_covers(items.take(i + 1)[i], c));
    }
}

/// Coverage distributes over concatenation of class bodies.
proof fn lemma_items_cover_concat(a: Seq<ClassItem>, b: Seq<ClassItem>, c: char)
    ensures
        items_cover(a + b, c) == (items_cover(a, c) || items_cover(b, c)),
{
    if items_cover(a + b, c) {
        let j = choose|j: int| 0 <= j < (a + b).len() && item_covers(#[trigger] (a + b)[j], c);
        if j < a.len() {
            assert(item_covers(a[j], c));
        } else {
            assert(item_covers(b[j - a.len()], c));
        }
    }
    if items_cover(a, c) {
        let j = choose|j: int| 0 <= j < a.len() && item_covers(#[trigger] a[j], c);
        assert(item_covers((a + b)[j], c));
    }
    if items_cover(b, c) {
        let j = choose|j: int| 0 <= j < b.len() && item_covers(#[trigger] b[j], c);
        assert(item_covers((a + b)[j + a.len()], c));
    }
}

/// Excluding the separator from one item keeps exactly its other covered
/// characters.
proof fn lemma_exclude_slash_item_covers(item: ClassItem, c: char)
    ensures
        items_cover(exclude_slash_item(item), c) == (item_covers(item, c) && c != '/'),
{
    vstd::utf8::char_u32_cast(c, c as u32);
    vstd::utf8::char_u32_cast('/', '/' as u32);
    let r = exclude_slash_item(item);
    match item {
        ClassItem::Char(x) => {
            if x == '/' {
                assert(!items_cover(r, c));
            } else {
                assert(r[0] == ClassItem::Char(x));
                if item_covers(item, c) {
                    assert(item_covers(r[0], c));
                }
                if items_cover(r, c) {
                    let j = choose|j: int| 0 <= j < r.len() && item_covers(#[trigger] r[j], c);
                    assert(j == 0);
                }
            }
        },
        ClassItem::Range(lo, hi) => {
            if items_cover(r, c) {
                let j = choose|j: int| 0 <= j < r.len() && item_covers(#[trigger] r[j], c);
                assert(item_covers(item, c) && c != '/');
            }
            if item_covers(item, c) && c != '/' {
                assert((c as u32) != ('/' as u32));
                if (lo as u32) > ('/' as u32) || (hi as u32) < ('/' as u32) {
                    assert(item_covers(r[0], c));
                } else if (c as u32) < ('/' as u32) {
                    assert(item_covers(r[0], c));
                } else {
                    assert(item_covers(r[r.len() - 1], c));
                }
            }
        },
    }
}

/// Excluding the separator from a class body keeps exactly its other
/// covered characters.
pub proof fn lemma_slash_excluded_covers(items: Seq<ClassItem>, c: char)
    ensures
        items_cover(slash_excluded(items), c) == (items_cover(items, c) && c != '/'),
    decreases items.len(),
{
    if items.len() == 0 {
        assert(!items_cover(slash_excluded(items), c));
        assert(!items_cover(items, c));
    } else {
        lemma_slash_excluded_covers(items.drop_last(), c);
        lemma_exclude_slash_item_covers(items.last(), c);
        lemma_items_cover_concat(slash_excluded(items.drop_last()), exclude_slash_item(
            items.last(),
        ), c);
        lemma_items_cover_take_step(items, c, items.len() - 1);
        assert(items.take(items.len() as int) =~= items);
        assert(items.take(items.len() - 1) =~= items.drop_last());
    }
}

/// A body passed through the inclusion rule covers its own characters and
/// the separator.
pub proof fn lemma_slash_included_covers(items: Seq<ClassItem>, c: char)
    ensures
        items_cover(slash_included(items), c) == (items_cover(items, c) || c == '/'),
{
    if items_cover(items, '/') {
        if c == '/' {
            assert(items_cover(items, c));
        }
    } else {
        lemma_items_cover_concat(items, seq![ClassItem::Char('/')], c);
        if c == '/' {
            assert(item_covers(seq![ClassItem::Char('/')][0], c));
        }
        if items_cover(seq![ClassItem::Char('/')], c) {
            let j = choose|j: int|
                0 <= j < 1 && item_covers(#[trigger] seq![ClassItem::Char('/')][j], c);
            assert(c == '/');
        }
    }
}

/// The separator rule never lets a class accept the path separator, and
/// leaves every other character exactly as the written class had it.
pub proof fn lemma_class_never_accepts_separator(negated: bool, items: Seq<ClassItem>, c: char)
    ensures
        c == '/' ==> !class_accepts(negated, slash_handled(negated, items), c),
        c != '/' ==> class_accepts(negated, slash_handled(negated, items), c) == class_accepts(
            negated,
            items,
            c,
        ),
{
    if negated {
        lemma_slash_included_covers(items, c);
    } else {
        lemma_slash_excluded_covers(items, c);
    }
}

/// Exclude the slash character from classes that would include it.
fn handle_slash_exclude(acc: ClassAccumulator) -> (r: ClassAccumulator)
    requires
        !acc.negated,
    ensures
        r.negated == acc.negated,
        r.items@ == slash_excluded(acc.items@),
{
    let ghost orig = acc.items@;
    let mut res: Vec<ClassItem> = Vec::new();
    let n = acc.items.len();
    let mut i: usize = 0;
    while i < n
        invariant
            i <= n,
            n == orig.len(),
            acc.items@ == orig,
            res@ == slash_excluded(orig.take(i as int)),
        decreases n - i,
    {
        let ghost pre = res@;
        let item = acc.items[i];
        match item {
            ClassItem::Char(c) => {
                if c == '/' {
                } else {
                    res.push(item);
                }
            },
            ClassItem::Range(lo, hi) => {
                if lo == '.' && hi == '/' {
                    res.push(ClassItem::Char('.'));
                } else if hi == '/' {
                    res.push(ClassItem::Range(lo, '.'));
                } else if lo == '/' && hi == '0' {
                    res.push(ClassItem::Char('0'));
                } else if lo == '/' {
                    res.push(ClassItem::Range('0', hi));
                } else if (lo as u32) > ('/' as u32) || (hi as u32) < ('/' as u32) {
                    res.push(item);
                } else {
                    if lo == '.' {
                        res.push(ClassItem::Char('.'));
                    } else {
                        res.push(ClassItem::Range(lo, '.'));
                    }
                    if hi == '0' {
                        res.push(ClassItem::Char('0'));
                    } else {
                        res.push(ClassItem::Range('0', hi));
                    }
                }
            },
        }
        proof {
            assert(orig.take(i + 1).drop_last() =~= orig.take(i as int));
            assert(orig.take(i + 1).last() == orig[i as int]);
            assert(res@ =~= pre + exclude_slash_item(orig[i as int]));
        }
        i += 1;
    }
    proof {
        assert(orig.take(n as int) =~= orig);
    }
    ClassAccumulator { negated: acc.negated, items: res }
}

/// Make sure a character class will match a slash.
fn handle_slash_include(acc: ClassAccumulator) -> (r: ClassAccumulator)
    requires
        acc.negated,
    ensures
        r.negated == acc.negated,
        r.items@ == slash_included(acc.items@),
{
    let ghost orig = acc.items@;
    let n = acc.items.len();
    let mut slash_found = false;
    let mut i: usize = 0;
    while i < n
        invariant
            i <= n,
            n == orig.len(),
            acc.items@ == orig,
            slash_found == items_cover(orig.take(i as int), '/'),
        decreases n - i,
    {
        let covers = match acc.items[i] {
            ClassItem::Char(c) => c == '/',
            ClassItem::Range(lo, hi) => (lo as u32) <= ('/' as u32) && ('/' as u32) <= (
            hi as u32),
        };
        if covers {
            slash_found = true;
        }
        proof {
            lemma_items_cover_take_step(orig, '/', i as int);
        }
        i += 1;
    }
    proof {
        assert(orig.take(n as int) =~= orig);
    }
    if slash_found {
        acc
    } else {
        let mut items = acc.items;
        items.push(ClassItem::Char('/'));
        proof {
            assert(items@ =~= orig + seq![ClassItem::Char('/')]);
        }
        ClassAccumulator { negated: acc.negated, items }
    }
}

/// Character classes should never match a slash when used in filenames.
/// Thus, make sure that a negated character class will include the slash
/// character and that a non-negated one will not include it.
pub fn handle_slash(acc: ClassAccumulator) -> (r: ClassAccumulator)
    ensures
        r.negated == acc.negated,
        r.items@ == slash_handled(acc.negated, acc.items@),
{
    if acc.negated {
        handle_slash_include(acc)
    } else {
        handle_slash_exclude(acc)
    }
}

/// The single characters among the items, in order of appearance.
pub open spec fn chars_of(items: Seq<ClassItem>) -> Seq<char>
    decreases items.len(),
{
    if items.len() == 0 {
        Seq::empty()
    } else {
        chars_of(items.drop_last()) + (match items.last() {
            ClassItem::Char(c) => seq![c],
            ClassItem::Range(_, _) => Seq::empty(),
        })
    }
}

/// The ranges among the items, in order of appearance.
pub open spec fn ranges_of(items: Seq<ClassItem>) -> Seq<(char, char)>
    decreases items.len(),
{
    if items.len() == 0 {
        Seq::empty()
    } else {
        ranges_of(items.drop_last()) + (match items.last() {
            ClassItem::Char(_) => Seq::empty(),
            ClassItem::Range(lo, hi) => seq![(lo, hi)],
        })
    }
}

/// The characters other than the literal dash, which is serialized last.
pub open spec fn without_dash(cs: Seq<char>) -> Seq<char>
    decreases cs.len(),
{
    if cs.len() == 0 {
        Seq::empty()
    } else {
        without_dash(cs.drop_last()) + (if cs.last() == '-' {
            Seq::empty()
        } else {
            seq![cs.last()]
        })
    }
}

/// Characters serialized one after the other through the class escaper.
pub open spec fn escaped_chars(cs: Seq<char>) -> Seq<char>
    decreases cs.len(),
{
    if cs.len() == 0 {
        Seq::empty()
    } else {
        escaped_chars(cs.drop_last()) + escaped_in_class(cs.last())
    }
}

/// Ranges serialized one after the other as `start-end`, both ends through
/// the class escaper.
pub open spec fn escaped_ranges(rs: Seq<(char, char)>) -> Seq<char>
    decreases rs.len(),
{
    if rs.len() == 0 {
        Seq::empty()
    } else {
        escaped_ranges(rs.drop_last()) + escaped_in_class(rs.last().0) + seq!['-']
            + escaped_in_class(rs.last().1)
    }
}

/// The canonical serialization of a closing character class: separator
/// rule applied, characters and ranges deduplicated and sorted, a literal
/// dash placed last.
pub open spec fn class_canonical(negated: bool, items: Seq<ClassItem>) -> Seq<char> {
    let handled = slash_handled(negated, items);
    let cs = chars_of(handled);
    seq!['['] + (if negated {
        seq!['^']
    } else {
        Seq::empty()
    }) + escaped_chars(sort_dedup(char_le(), without_dash(cs))) + escaped_ranges(
        sort_dedup(range_le(), ranges_of(handled)),
    ) + (if cs.contains('-') {
        seq!['-']
    } else {
        Seq::empty()
    }) + seq![']']
}

/// Convert a glob character class to a regular expression one.
/// Make sure none of the classes will allow a slash to be matched in
/// a filename, make sure the dash is at the end of the class pattern
/// (e.g. `[A-Za-z0-9-]`), sort the characters and the ranges.
#[verifier::rlimit(50)]
#[verifier::spinoff_prover]
pub fn close_class(glob_acc: ClassAccumulator, res: &mut Vec<char>)
    ensures
        final(res)@ == old(res)@ + class_canonical(glob_acc.negated, glob_acc.items@),
{
    let ghost start = res@;
    let negated = glob_acc.negated;
    let acc = handle_slash(glob_acc);
    let ghost handled = acc.items@;
    let n = acc.items.len();
    let mut chars: Vec<char> = Vec::new();
    let mut ranges: Vec<(char, char)> = Vec::new();
    let mut has_dash = false;
    let mut i: usize = 0;
    while i < n
        invariant
            i <= n,
            n == handled.len(),
            acc.items@ == handled,
            chars@ == without_dash(chars_of(handled.take(i as int))),
            has_dash == chars_of(handled.take(i as int)).contains('-'),
            ranges@ == ranges_of(handled.take(i as int)),
        decreases n - i,
    {
        let ghost pre_cs = chars_of(handled.take(i as int));
        let ghost pre_rs = ranges_of(handled.take(i as int));
        match acc.items[i] {
            ClassItem::Char(c) => {
                if c == '-' {
                    has_dash = true;
                } else {
                    chars.push(c);
                }
            },
            ClassItem::Range(lo, hi) => {
                ranges.push((lo, hi));
            },
        }
        proof {
            assert(handled.take(i + 1).drop_last() =~= handled.take(i as int));
            assert(handled.take(i + 1).last() == handled[i as int]);
            match handled[i as int] {
                ClassItem::Char(c) => {
                    let cs1 = chars_of(handled.take(i + 1));
                    assert(cs1 == pre_cs + seq![c]);
                    assert(cs1.drop_last() =~= pre_cs);
                    assert(cs1.last() == c);
                    assert(without_dash(cs1) == without_dash(pre_cs) + (if c == '-' {
                        Seq::<char>::empty()
                    } else {
                        seq![c]
                    }));
                    assert(chars@ =~= without_dash(cs1));
                    crate::sorting::lemma_contains_split_last(cs1, '-');
                    assert(ranges_of(handled.take(i + 1)) =~= pre_rs);
                },
                ClassItem::Range(lo, hi) => {
                    assert(chars_of(handled.take(i + 1)) =~= pre_cs);
                    assert(ranges_of(handled.take(i + 1)) =~= pre_rs + seq![(lo, hi)]);
                    assert(ranges@ =~= pre_rs + seq![(lo, hi)]);
                },
            }
        }
        i += 1;
    }
    proof {
        assert(handled.take(n as int) =~= handled);
    }
    let ghost all_chars = chars@;
    let ghost all_ranges = ranges@;
    let mut sorted_chars: Vec<char> = Vec::new();
    let m = chars.len();
    let mut j: usize = 0;
    while j < m
        invariant
            j <= m,
            m == all_chars.len(),
            chars@ == all_chars,
            sorted_chars@ == sort_dedup(char_le(), all_chars.take(j as int)),
        decreases m - j,
    {
        insert_char_sorted(&mut sorted_chars, chars[j]);
        proof {
            lemma_sort_dedup_step(char_le(), all_chars, j as int);
        }
        j += 1;
    }
    let mut sorted_ranges: Vec<(char, char)> = Vec::new();
    let mr = ranges.len();
    let mut jr: usize = 0;
    while jr < mr
        invariant
            jr <= mr,
            mr == all_ranges.len(),
            ranges@ == all_ranges,
            sorted_ranges@ == sort_dedup(range_le(), all_ranges.take(jr as int)),
        decreases mr - jr,
    {
        insert_range_sorted(&mut sorted_ranges, ranges[jr]);
        proof {
            lemma_sort_dedup_step(range_le(), all_ranges, jr as int);
        }
        jr += 1;
    }
    proof {
        assert(all_chars.take(m as int) =~= all_chars);
        assert(all_ranges.take(mr as int) =~= all_ranges);
    }
    let ghost sc = sorted_chars@;
    let ghost sr = sorted_ranges@;
    res.push('[');
    if negated {
        res.push('^');
    }
    let ghost head = start + seq!['['] + (if negated {
        seq!['^']
    } else {
        Seq::<char>::empty()
    });
    proof {
        assert(res@ =~= head);
    }
    let ms = sorted_chars.len();
    let mut k: usize = 0;
    while k < ms
        invariant
            k <= ms,
            ms == sc.len(),
            sorted_chars@ == sc,
            res@ == head + escaped_chars(sc.take(k as int)),
        decreases ms - k,
    {
        push_escaped_in_class(res, sorted_chars[k]);
        proof {
            assert(sc.take(k + 1).drop_last() =~= sc.take(k as int));
            assert(sc.take(k + 1).last() == sc[k as int]);
            assert(res@ =~= head + escaped_chars(sc.take(k + 1)));
        }
        k += 1;
    }
    let ghost head2 = head + escaped_chars(sc);
    proof {
        assert(sc.take(ms as int) =~= sc);
        assert(res@ == head2);
    }
    let mrr = sorted_ranges.len();
    let mut kr: usize = 0;
    while kr < mrr
        invariant
            kr <= mrr,
            mrr == sr.len(),
            sorted_ranges@ == sr,
            res@ == head2 + escaped_ranges(sr.take(kr as int)),
        decreases mrr - kr,
    {
        let rg = sorted_ranges[kr];
        push_escaped_in_class(res, rg.0);
        res.push('-');
        push_escaped_in_class(res, rg.1);
        proof {
            assert(sr.take(kr + 1).drop_last() =~= sr.take(kr as int));
            assert(sr.take(kr + 1).last() == sr[kr as int]);
            assert(res@ =~= head2 + escaped_ranges(sr.take(kr + 1)));
        }
        kr += 1;
    }
    proof {
        assert(sr.take(mrr as int) =~= sr);
    }
    if has_dash {
        res.push('-');
    }
    res.push(']');
    proof {
        assert(res@ =~= start + class_canonical(glob_acc.negated, glob_acc.items@));
    }
}

/// The class the wildcard fragments print: a negated class holding
/// exactly the path separator.  It serializes to `[^/]`, and by the
/// class semantics above it accepts every character except the
/// separator — so a `?`, and each step of a `*`, can never take in a
/// separator.
pub proof fn lemma_separator_class_fragment()
    ensures
        class_canonical(true, seq![ClassItem::Char('/')]) == seq!['[', '^', '/', ']'],
        forall|c: char|
            class_accepts(true, slash_handled(true, seq![ClassItem::Char('/')]), c) == (c
                != '/'),
{
    let items = seq![ClassItem::Char('/')];
    assert(items[0] == ClassItem::Char('/'));
    assert(item_covers(items[0], '/'));
    assert(items_cover(items, '/'));
    assert(slash_included(items) == items);
    let handled = slash_handled(true, items);
    assert(handled == items);
    assert forall|c: char| class_accepts(true, handled, c) == (c != '/') by {
        if c == '/' {
            assert(items_cover(items, c));
        }
        if items_cover(items, c) {
            let j = choose|j: int| 0 <= j < items.len() && item_covers(#[trigger] items[j], c);
            assert(j == 0);
            assert(c == '/');
        }
    }
    let e: Seq<ClassItem> = Seq::empty();
    assert(items.drop_last() =~= e);
    let cs = chars_of(items);
    assert(chars_of(e) == Seq::<char>::empty());
    assert(cs == chars_of(e) + seq!['/']);
    assert(cs =~= seq!['/']);
    crate::sorting::lemma_singleton_contains('/', '-');
    assert(!cs.contains('-'));
    let wd = without_dash(cs);
    assert(cs.drop_last() =~= Seq::<char>::empty());
    assert(without_dash(Seq::<char>::empty()) == Seq::<char>::empty());
    assert(wd == without_dash(cs.drop_last()) + seq![cs.last()]);
    assert(wd =~= seq!['/']);
    let sd = sort_dedup(char_le(), wd);
    assert(wd.drop_last() =~= Seq::<char>::empty());
    assert(sort_dedup(char_le(), Seq::<char>::empty()) == Seq::<char>::empty());
    assert(sd == insert_sorted(char_le(), '/', Seq::<char>::empty()));
    assert(sd == seq!['/']);
    let ec = escaped_chars(sd);
    assert(sd.drop_last() =~= Seq::<char>::empty());
    assert(escaped_chars(Seq::<char>::empty()) == Seq::<char>::empty());
    assert(ec == escaped_chars(sd.drop_last()) + escaped_in_class('/'));
    assert(ec =~= seq!['/']);
    let rs = ranges_of(items);
    assert(ranges_of(e) == Seq::<(char, char)>::empty());
    assert(rs == ranges_of(items.drop_last()) + Seq::<(char, char)>::empty());
    assert(rs =~= Seq::<(char, char)>::empty());
    assert(sort_dedup(range_le(), rs) == Seq::<(char, char)>::empty());
    assert(escaped_ranges(Seq::<(char, char)>::empty()) == Seq::<char>::empty());
    assert(class_canonical(true, items) =~= seq!['[', '^', '/', ']']);
}

/// The gathered single characters are exactly the `Char` items.
proof fn lemma_chars_of_contains(items: Seq<ClassItem>, c: char)
    ensures
        chars_of(items).contains(c) <==> items.contains(ClassItem::Char(c)),
    decreases items.len(),
{
    if items.len() == 0 {
    } else {
        lemma_chars_of_contains(items.drop_last(), c);
        crate::sorting::lemma_contains_split_last(items, ClassItem::Char(c));
        match items.last() {
            ClassItem::Char(x) => {
                let delta = seq![x];
                assert(chars_of(items) == chars_of(items.drop_last()) + delta);
                assert((chars_of(items.drop_last()) + delta).contains(c)
                    <==> chars_of(items.drop_last()).contains(c) || delta.contains(c));
                crate::sorting::lemma_singleton_contains(x, c);
            },
            ClassItem::Range(_, _) => {
                let delta = Seq::<char>::empty();
                assert(chars_of(items) == chars_of(items.drop_last()) + delta);
                assert((chars_of(items.drop_last()) + delta).contains(c)
                    <==> chars_of(items.drop_last()).contains(c) || delta.contains(c));
                assert(!delta.contains(c));
            },
        }
    }
}

/// The gathered ranges are exactly the `Range` items.
proof fn lemma_ranges_of_contains(items: Seq<ClassItem>, p: (char, char))
    ensures
        ranges_of(items).contains(p) <==> items.contains(ClassItem::Range(p.0, p.1)),
    decreases items.len(),
{
    if items.len() == 0 {
    } else {
        lemma_ranges_of_contains(items.drop_last(), p);
        crate::sorting::lemma_contains_split_last(items, ClassItem::Range(p.0, p.1));
        match items.last() {
            ClassItem::Char(_) => {
                let delta = Seq::<(char, char)>::empty();
                assert(ranges_of(items) == ranges_of(items.drop_last()) + delta);
                assert((ranges_of(items.drop_last()) + delta).contains(p)
                    <==> ranges_of(items.drop_last()).contains(p) || delta.contains(p));
                assert(!delta.contains(p));
            },
            ClassItem::Range(lo, hi) => {
                let delta = seq![(lo, hi)];
                assert(ranges_of(items) == ranges_of(items.drop_last()) + delta);
                assert((ranges_of(items.drop_last()) + delta).contains(p)
                    <==> ranges_of(items.drop_last()).contains(p) || delta.contains(p));
                crate::sorting::lemma_singleton_contains((lo, hi), p);
            },
        }
    }
}

/// Dropping the dash keeps exactly the other characters.
proof fn lemma_without_dash_contains(cs: Seq<char>, c: char)
    ensures
        without_dash(cs).contains(c) <==> (cs.contains(c) && c != '-'),
    decreases cs.len(),
{
    if cs.len() == 0 {
    } else {
        lemma_without_dash_contains(cs.drop_last(), c);
        crate::sorting::lemma_contains_split_last(cs, c);
        let delta = if cs.last() == '-' {
            Seq::<char>::empty()
        } else {
            seq![cs.last()]
        };
        assert(without_dash(cs) == without_dash(cs.drop_last()) + delta);
        assert((without_dash(cs.drop_last()) + delta).contains(c)
            <==> without_dash(cs.drop_last()).contains(c) || delta.contains(c));
        if cs.last() == '-' {
            assert(!delta.contains(c));
        } else {
            crate::sorting::lemma_singleton_contains(cs.last(), c);
        }
    }
}

/// What the separator exclusion of a body holds: anything produced by the
/// exclusion of one of its items.
proof fn lemma_slash_excluded_contains(items: Seq<ClassItem>, x: ClassItem)
    ensures
        slash_excluded(items).contains(x) <==> exists|i: int|
            0 <= i < items.len() && exclude_slash_item(#[trigger] items[i]).contains(x),
    decreases items.len(),
{
    if items.len() == 0 {
    } else {
        lemma_slash_excluded_contains(items.drop_last(), x);
        let pre = slash_excluded(items.drop_last());
        let delta = exclude_slash_item(items.last());
        assert(slash_excluded(items) == pre + delta);
        assert((pre + delta).contains(x) <==> pre.contains(x) || delta.contains(x));
        if pre.contains(x) {
            let i = choose|i: int|
                0 <= i < items.drop_last().len() && exclude_slash_item(
                    #[trigger] items.drop_last()[i],
                ).contains(x);
            assert(items.drop_last()[i] == items[i]);
            assert(exclude_slash_item(items[i]).contains(x));
        }
        if delta.contains(x) {
            assert(items.last() == items[items.len() - 1]);
            assert(exclude_slash_item(items[items.len() - 1]).contains(x));
        }
        if exists|i: int| 0 <= i < items.len() && exclude_slash_item(#[trigger] items[i]).contains(
            x,
        ) {
            let i = choose|i: int|
                0 <= i < items.len() && exclude_slash_item(#[trigger] items[i]).contains(x);
            if i < items.len() - 1 {
                assert(items.drop_last()[i] == items[i]);
                assert(exclude_slash_item(items.drop_last()[i]).contains(x));
                assert(pre.contains(x));
            } else {
                assert(items.last() == items[i]);
                assert(delta.contains(x));
            }
        }
    }
}

/// Coverage depends only on which items a body holds.
proof fn lemma_items_cover_equiv(items1: Seq<ClassItem>, items2: Seq<ClassItem>, c: char)
    requires
        forall|it: ClassItem|
            #![trigger items1.contains(it)]
            #![trigger items2.contains(it)]
            items1.contains(it) <==> items2.contains(it),
    ensures
        items_cover(items1, c) == items_cover(items2, c),
{
    if items_cover(items1, c) {
        let i = choose|i: int| 0 <= i < items1.len() && item_covers(#[trigger] items1[i], c);
        assert(items1.contains(items1[i]));
        assert(items2.contains(items1[i]));
        let j = choose|j: int| 0 <= j < items2.len() && items2[j] == items1[i];
        assert(item_covers(items2[j], c));
    }
    if items_cover(items2, c) {
        let i = choose|i: int| 0 <= i < items2.len() && item_covers(#[trigger] items2[i], c);
        assert(items2.contains(items2[i]));
        assert(items1.contains(items2[i]));
        let j = choose|j: int| 0 <= j < items1.len() && items1[j] == items2[i];
        assert(item_covers(items1[j], c));
    }
}

/// After the separator rule, what a body holds depends only on which
/// items the written class held.
proof fn lemma_slash_handled_contains_equiv(
    negated: bool,
    items1: Seq<ClassItem>,
    items2: Seq<ClassItem>,
    x: ClassItem,
)
    requires
        forall|it: ClassItem|
            #![trigger items1.contains(it)]
            #![trigger items2.contains(it)]
            items1.contains(it) <==> items2.contains(it),
    ensures
        slash_handled(negated, items1).contains(x) <==> slash_handled(negated, items2).contains(
            x,
        ),
{
    if negated {
        lemma_items_cover_equiv(items1, items2, '/');
        if !items_cover(items1, '/') {
            assert((items1 + seq![ClassItem::Char('/')]).contains(x) <==> items1.contains(x)
                || seq![ClassItem::Char('/')].contains(x));
            assert((items2 + seq![ClassItem::Char('/')]).contains(x) <==> items2.contains(x)
                || seq![ClassItem::Char('/')].contains(x));
        }
    } else {
        lemma_slash_excluded_contains(items1, x);
        lemma_slash_excluded_contains(items2, x);
        if exists|i: int|
            0 <= i < items1.len() && exclude_slash_item(#[trigger] items1[i]).contains(x) {
            let i = choose|i: int|
                0 <= i < items1.len() && exclude_slash_item(#[trigger] items1[i]).contains(x);
            assert(items1.contains(items1[i]));
            assert(items2.contains(items1[i]));
            let j = choose|j: int| 0 <= j < items2.len() && items2[j] == items1[i];
            assert(exclude_slash_item(items2[j]).contains(x));
        }
        if exists|i: int|
            0 <= i < items2.len() && exclude_slash_item(#[trigger] items2[i]).contains(x) {
            let i = choose|i: int|
                0 <= i < items2.len() && exclude_slash_item(#[trigger] items2[i]).contains(x);
            assert(items2.contains(items2[i]));
            assert(items1.contains(items2[i]));
            let j = choose|j: int| 0 <= j < items1.len() && items1[j] == items2[i];
            assert(exclude_slash_item(items1[j]).contains(x));
        }
    }
}

/// Closing a class ignores the order and repetition of its items: two
/// accumulators that gathered the same set of characters and ranges, with
/// the same negation flag, serialize to the same class.
pub proof fn lemma_class_canonical_order_insensitive(
    negated: bool,
    items1: Seq<ClassItem>,
    items2: Seq<ClassItem>,
)
    requires
        forall|it: ClassItem|
            #![trigger items1.contains(it)]
            #![trigger items2.contains(it)]
            items1.contains(it) <==> items2.contains(it),
    ensures
        class_canonical(negated, items1) == class_canonical(negated, items2),
{
    let h1 = slash_handled(negated, items1);
    let h2 = slash_handled(negated, items2);
    assert forall|x: ClassItem|
        #![trigger h1.contains(x)]
        #![trigger h2.contains(x)]
        h1.contains(x) <==> h2.contains(x) by {
        lemma_slash_handled_contains_equiv(negated, items1, items2, x);
    }
    let cs1 = chars_of(h1);
    let cs2 = chars_of(h2);
    assert forall|c: char|
        #![trigger cs1.contains(c)]
        #![trigger cs2.contains(c)]
        cs1.contains(c) <==> cs2.contains(c) by {
        lemma_chars_of_contains(h1, c);
        lemma_chars_of_contains(h2, c);
    }
    assert(cs1.contains('-') == cs2.contains('-'));
    let w1 = without_dash(cs1);
    let w2 = without_dash(cs2);
    assert forall|c: char|
        #![trigger w1.contains(c)]
        #![trigger w2.contains(c)]
        w1.contains(c) <==> w2.contains(c) by {
        lemma_without_dash_contains(cs1, c);
        lemma_without_dash_contains(cs2, c);
    }
    lemma_char_le_total_ordering();
    lemma_sort_dedup_canonical(char_le(), w1, w2);
    let r1 = ranges_of(h1);
    let r2 = ranges_of(h2);
    assert forall|p: (char, char)|
        #![trigger r1.contains(p)]
        #![trigger r2.contains(p)]
        r1.contains(p) <==> r2.contains(p) by {
        lemma_ranges_of_contains(h1, p);
        lemma_ranges_of_contains(h2, p);
    }
    lemma_range_le_total_ordering();
    lemma_sort_dedup_canonical(range_le(), r1, r2);
}

} // verus!
