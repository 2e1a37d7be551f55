//! Alternation groups: gathered `{...}` branches and their canonical
//! serialization as a parenthesized, bar-separated group.

use vstd::prelude::*;
use crate::escape::escaped;
use crate::escape::push_escaped;
use crate::sorting::branch_le;
use crate::sorting::insert_branch_sorted;
use crate::sorting::lemma_branch_le_total_ordering;
use crate::sorting::lemma_sort_dedup_canonical;
use crate::sorting::seq_views;
use crate::sorting::sort_dedup;
use crate::sorting::insert_sorted;

verus! {

broadcast use vstd::seq_lib::group_seq_properties;

/// A branch with each of its characters escaped for the target syntax.
pub open spec fn escaped_branch(b: Seq<char>) -> Seq<char>
    decreases b.len(),
{
    if b.len() == 0 {
        Seq::empty()
    } else {
        escaped_branch(b.drop_last()) + escaped(b.last())
    }
}

/// Each branch escaped, in order of appearance.
pub open spec fn escaped_branches(bs: Seq<Seq<char>>) -> Seq<Seq<char>>
    decreases bs.len(),
{
    if bs.len() == 0 {
        Seq::empty()
    } else {
        escaped_branches(bs.drop_last()) + seq![escaped_branch(bs.last())]
    }
}

/// Branches joined with the alternation bar.
pub open spec fn joined(bs: Seq<Seq<char>>) -> Seq<char>
    decreases bs.len(),
{
    if bs.len() == 0 {
        Seq::empty()
    } else if bs.len() == 1 {
        bs[0]
    } else {
        joined(bs.drop_last()) + seq!['|'] + bs.last()
    }
}

/// The canonical serialization of a closing alternation group: branches
/// escaped, deduplicated, sorted, joined with bars, parenthesized.
pub open spec fn alternate_canonical(gathered: Seq<Seq<char>>) -> Seq<char> {
    seq!['('] + joined(sort_dedup(branch_le(), escaped_branches(gathered))) + seq![')']
}

/// Convert a glob alternatives list to a regular expression pattern.
pub fn close_alternate(gathered: Vec<Vec<char>>, res: &mut Vec<char>)
    ensures
        final(res)@ == old(res)@ + alternate_canonical(seq_views(gathered@)),
{
    let ghost start = res@;
    let ghost gv = seq_views(gathered@);
    let n = gathered.len();
    let mut sorted: Vec<Vec<char>> = Vec::new();
    let mut i: usize = 0;
    while i < n
        invariant
            i <= n,
            n == gv.len(),
            seq_views(gathered@) == gv,
            gathered@.len() == n,
            seq_views(sorted@) == sort_dedup(branch_le(), escaped_branches(gv.take(i as int))),
        decreases n - i,
    {
        let b = &gathered[i];
        let ghost bv = b@;
        proof {
            assert(gv[i as int] == gathered@[i as int]@);
        }
        let m = b.len();
        let mut nb: Vec<char> = Vec::new();
        let mut k: usize = 0;
        while k < m
            invariant
                k <= m,
                m == bv.len(),
                b@ == bv,
                nb@ == escaped_branch(bv.take(k as int)),
            decreases m - k,
        {
            push_escaped(&mut nb, b[k]);
            proof {
                assert(bv.take(k + 1).drop_last() =~= bv.take(k as int));
                assert(bv.take(k + 1).last() == bv[k as int]);
            }
            k += 1;
        }
        proof {
            assert(bv.take(m as int) =~= bv);
        }
        insert_branch_sorted(&mut sorted, nb);
        proof {
            let pre = escaped_branches(gv.take(i as int));
            let cur = escaped_branches(gv.take(i + 1));
            assert(gv.take(i + 1).drop_last() =~= gv.take(i as int));
            assert(gv.take(i + 1).last() == gv[i as int]);
            assert(cur == pre + seq![escaped_branch(bv)]);
            assert(cur.drop_last() =~= pre);
            assert(cur.last() == escaped_branch(bv));
            assert(sort_dedup(branch_le(), cur) == insert_sorted(
                branch_le(),
                escaped_branch(bv),
                sort_dedup(branch_le(), pre),
            ));
        }
        i += 1;
    }
    proof {
        assert(gv.take(n as int) =~= gv);
    }
    let ghost sv = seq_views(sorted@);
    res.push('(');
    let ghost head = start + seq!['('];
    proof {
        assert(res@ =~= head);
    }
    let ns = sorted.len();
    let mut j: usize = 0;
    while j < ns
        invariant
            j <= ns,
            ns == sv.len(),
            seq_views(sorted@) == sv,
            sorted@.len() == ns,
            res@ == head + joined(sv.take(j as int)),
        decreases ns - j,
    {
        if j > 0 {
            res.push('|');
        }
        let ghost before = res@;
        let sb = &sorted[j];
        let ghost sbv = sb@;
        proof {
            assert(sv[j as int] == sorted@[j as int]@);
        }
        let ms = sb.len();
        let mut k: usize = 0;
        while k < ms
            invariant
                k <= ms,
                ms == sbv.len(),
                sb@ == sbv,
                res@ == before + sbv.take(k as int),
            decreases ms - k,
        {
            res.push(sb[k]);
            proof {
                assert(res@ =~= before + sbv.take(k + 1));
            }
            k += 1;
        }
        proof {
            assert(sbv.take(ms as int) =~= sbv);
            assert(sv.take(j + 1).drop_last() =~= sv.take(j as int));
            assert(sv.take(j + 1).last() == sv[j as int]);
            if j == 0 {
                assert(joined(sv.take(1)) == sv.take(1)[0]);
                assert(res@ =~= head + joined(sv.take(j + 1)));
            } else {
                assert(res@ =~= head + joined(sv.take(j + 1)));
            }
        }
        j += 1;
    }
    res.push(')');
    proof {
        assert(sv.take(ns as int) =~= sv);
        assert(res@ =~= start + alternate_canonical(gv));
    }
}

/// What the escaping of a branch list holds: exactly the escapings of its
/// branches.
proof fn lemma_escaped_branches_contains(bs: Seq<Seq<char>>, x: Seq<char>)
    ensures
        escaped_branches(bs).contains(x) <==> exists|i: int|
            0 <= i < bs.len() && escaped_branch(#[trigger] bs[i]) == x,
    decreases bs.len(),
{
    if bs.len() == 0 {
    } else {
        lemma_escaped_branches_contains(bs.drop_last(), x);
        let pre = escaped_branches(bs.drop_last());
        let delta = seq![escaped_branch(bs.last())];
        assert(escaped_branches(bs) == pre + delta);
        assert((pre + delta).contains(x) <==> pre.contains(x) || delta.contains(x));
        crate::sorting::lemma_singleton_contains(escaped_branch(bs.last()), x);
        if pre.contains(x) {
            let i = choose|i: int|
                0 <= i < bs.drop_last().len() && escaped_branch(#[trigger] bs.drop_last()[i])
                    == x;
            assert(bs.drop_last()[i] == bs[i]);
            assert(escaped_branch(bs[i]) == x);
        }
        if delta.contains(x) {
            assert(bs.last() == bs[bs.len() - 1]);
            assert(escaped_branch(bs[bs.len() - 1]) == x);
        }
        if exists|i: int| 0 <= i < bs.len() && escaped_branch(#[trigger] bs[i]) == x {
            let i = choose|i: int| 0 <= i < bs.len() && escaped_branch(#[trigger] bs[i]) == x;
            if i < bs.len() - 1 {
                assert(bs.drop_last()[i] == bs[i]);
                assert(escaped_branch(bs.drop_last()[i]) == x);
                assert(pre.contains(x));
            } else {
                assert(bs.last() == bs[i]);
                assert(delta.contains(x));
            }
        }
    }
}

/// Closing an alternation ignores the order and repetition of its
/// gathered branches: two lists with the same set of branches serialize
/// to the same group.
pub proof fn lemma_alternate_canonical_dedup(g1: Seq<Seq<char>>, g2: Seq<Seq<char>>)
    requires
        forall|b: Seq<char>|
            #![trigger g1.contains(b)]
            #![trigger g2.contains(b)]
            g1.contains(b) <==> g2.contains(b),
    ensures
        alternate_canonical(g1) == alternate_canonical(g2),
{
    let e1 = escaped_branches(g1);
    let e2 = escaped_branches(g2);
    assert forall|x: Seq<char>|
        #![trigger e1.contains(x)]
        #![trigger e2.contains(x)]
        e1.contains(x) <==> e2.contains(x) by {
        lemma_escaped_branches_contains(g1, x);
        lemma_escaped_branches_contains(g2, x);
        if exists|i: int| 0 <= i < g1.len() && escaped_branch(#[trigger] g1[i]) == x {
            let i = choose|i: int| 0 <= i < g1.len() && escaped_branch(#[trigger] g1[i]) == x;
            assert(g1.contains(g1[i]));
            assert(g2.contains(g1[i]));
            let j = choose|j: int| 0 <= j < g2.len() && g2[j] == g1[i];
            assert(escaped_branch(g2[j]) == x);
        }
        if exists|i: int| 0 <= i < g2.len() && escaped_branch(#[trigger] g2[i]) == x {
            let i = choose|i: int| 0 <= i < g2.len() && escaped_branch(#[trigger] g2[i]) == x;
            assert(g2.contains(g2[i]));
            assert(g1.contains(g2[i]));
            let j = choose|j: int| 0 <= j < g1.len() && g1[j] == g2[i];
            assert(escaped_branch(g1[j]) == x);
        }
    }
    lemma_branch_le_total_ordering();
    lemma_sort_dedup_canonical(branch_le(), e1, e2);
}

} // verus!
