//! Turning the visited-page ledger into report rows: filtering and
//! sorting by visit count.  Rendering itself stays outside.

use crate::ledger::Ledger;
use vstd::prelude::*;

verus! {

/// The direction a report is sorted in, by visit count.
pub enum SortOrder {
    Ascending,
    Descending,
}

/// Whether a row counting `a` may stand before one counting `b`.
pub open spec fn count_ordered(order: SortOrder, a: usize, b: usize) -> bool {
    match order {
        SortOrder::Ascending => a <= b,
        SortOrder::Descending => a >= b,
    }
}

/// The ledger's pages that pass `filter`, as rows sorted by visit count
/// in the given order.  Every row is a recorded page with its exact
/// count, no page appears twice, and a recorded page is missing only
/// where `filter` returned `false` for it.
pub fn sort_pages<F: Fn(&String, &usize) -> bool>(
    pages: &Ledger,
    order: SortOrder,
    filter: F,
) -> (r: Vec<(String, usize)>)
    requires
        pages.wf(),
        forall|k: &String, v: &usize| #[trigger] call_requires(filter, (k, v)),
    ensures
        forall|i: int|
            0 <= i < r@.len() ==> pages@.contains_pair((#[trigger] r@[i]).0@, r@[i].1 as nat),
        forall|i: int| 0 <= i < r@.len() ==> call_ensures(filter, (&(#[trigger] r@[i]).0, &r@[i].1), true),
        forall|i: int, j: int| 0 <= i < j < r@.len() ==> r@[i].0@ != r@[j].0@,
        forall|i: int, j: int| 0 <= i < j < r@.len() ==> count_ordered(order, r@[i].1, r@[j].1),
        forall|k: Seq<char>|
            pages@.dom().contains(k) ==> (exists|i: int|
                0 <= i < r@.len() && (#[trigger] r@[i]).0@ == k) || (exists|s: String, c: usize|
                s@ == k && c as nat == pages@[k] && call_ensures(filter, (&s, &c), false)),
{
    let all = pages.pairs();
    let mut kept: Vec<(String, usize)> = Vec::new();
    let n = all.len();
    let mut i: usize = 0;
    while i < n
        invariant
            n == all@.len(),
            i <= n,
            forall|v: &String, w: &usize| #[trigger] call_requires(filter, (v, w)),
            forall|j: int|
                0 <= j < all@.len() ==> pages@.contains_pair((#[trigger] all@[j]).0@, all@[j].1 as nat),
            forall|j: int, j2: int| 0 <= j < j2 < all@.len() ==> all@[j].0@ != all@[j2].0@,
            forall|k: Seq<char>|
                pages@.dom().contains(k) ==> exists|j: int|
                    0 <= j < all@.len() && (#[trigger] all@[j]).0@ == k,
            forall|j: int|
                0 <= j < kept@.len() ==> pages@.contains_pair(
                    (#[trigger] kept@[j]).0@,
                    kept@[j].1 as nat,
                ),
            forall|j: int|
                0 <= j < kept@.len() ==> call_ensures(
                    filter,
                    (&(#[trigger] kept@[j]).0, &kept@[j].1),
                    true,
                ),
            forall|j: int, j2: int| 0 <= j < j2 < kept@.len() ==> kept@[j].0@ != kept@[j2].0@,
            forall|j2: int|
                0 <= j2 < kept@.len() ==> exists|j: int|
                    0 <= j < i && (#[trigger] kept@[j2]).0@ == (#[trigger] all@[j]).0@,
            forall|j: int|
                0 <= j < i ==> (exists|j2: int|
                    0 <= j2 < kept@.len() && (#[trigger] kept@[j2]).0@ == (#[trigger] all@[j]).0@)
                    || call_ensures(filter, (&(#[trigger] all@[j]).0, &all@[j].1), false),
        decreases n - i,
    {
        let ghost kept0 = kept@;
        let keep = filter(&all[i].0, &all[i].1);
        if keep {
            let row = (all[i].0.clone(), all[i].1);
            kept.push(row);
            proof {
                assert(kept@ =~= kept0.push((all@[i as int].0, all@[i as int].1)));
                assert(kept@[kept@.len() - 1].0@ == all@[i as int].0@);
                assert forall|j: int, j2: int|
                    0 <= j < j2 < kept@.len() implies kept@[j].0@ != kept@[j2].0@ by {
                    if j2 == kept@.len() - 1 {
                        let jw = choose|jw: int|
                            0 <= jw < i && (#[trigger] kept0[j]).0@ == all@[jw].0@;
                        assert(all@[jw].0@ != all@[i as int].0@);
                    }
                }
            }
        }
        i = i + 1;
        proof {
            assert forall|j: int|
                0 <= j < i implies (exists|j2: int|
                0 <= j2 < kept@.len() && (#[trigger] kept@[j2]).0@ == (#[trigger] all@[j]).0@)
                || call_ensures(filter, (&(#[trigger] all@[j]).0, &all@[j].1), false) by {
                if j == i - 1 {
                    if keep {
                        assert(kept@[kept@.len() - 1].0@ == all@[j].0@);
                    }
                } else {
                    if exists|j2: int|
                        0 <= j2 < kept0.len() && (#[trigger] kept0[j2]).0@ == all@[j].0@ {
                        let j2 = choose|j2: int|
                            0 <= j2 < kept0.len() && (#[trigger] kept0[j2]).0@ == all@[j].0@;
                        assert(kept@[j2].0@ == all@[j].0@);
                    }
                }
            }
        }
    }
    let mut rest = kept;
    let mut out: Vec<(String, usize)> = Vec::new();
    while rest.len() != 0
        invariant
            forall|j: int|
                0 <= j < rest@.len() ==> pages@.contains_pair(
                    (#[trigger] rest@[j]).0@,
                    rest@[j].1 as nat,
                ),
            forall|j: int|
                0 <= j < rest@.len() ==> call_ensures(
                    filter,
                    (&(#[trigger] rest@[j]).0, &rest@[j].1),
                    true,
                ),
            forall|j: int|
                0 <= j < out@.len() ==> pages@.contains_pair(
                    (#[trigger] out@[j]).0@,
                    out@[j].1 as nat,
                ),
            forall|j: int|
                0 <= j < out@.len() ==> call_ensures(
                    filter,
                    (&(#[trigger] out@[j]).0, &out@[j].1),
                    true,
                ),
            forall|j: int, j2: int| 0 <= j < j2 < rest@.len() ==> rest@[j].0@ != rest@[j2].0@,
            forall|j: int, j2: int| 0 <= j < j2 < out@.len() ==> out@[j].0@ != out@[j2].0@,
            forall|j: int, j2: int|
                0 <= j < out@.len() && 0 <= j2 < rest@.len() ==> (#[trigger] out@[j]).0@ != (
                #[trigger] rest@[j2]).0@,
            forall|j: int, j2: int|
                0 <= j < j2 < out@.len() ==> count_ordered(order, out@[j].1, out@[j2].1),
            forall|j: int, j2: int|
                0 <= j < out@.len() && 0 <= j2 < rest@.len() ==> count_ordered(
                    order,
                    (#[trigger] out@[j]).1,
                    (#[trigger] rest@[j2]).1,
                ),
            forall|k: Seq<char>|
                pages@.dom().contains(k) ==> (exists|j: int|
                    0 <= j < out@.len() && (#[trigger] out@[j]).0@ == k) || (exists|j: int|
                    0 <= j < rest@.len() && (#[trigger] rest@[j]).0@ == k) || (exists|
                    s: String,
                    c: usize,
                |
                    s@ == k && c as nat == pages@[k] && call_ensures(filter, (&s, &c), false)),
        decreases rest@.len(),
    {
        let asc = matches!(order, SortOrder::Ascending);
        let mut m: usize = 0;
        let mut j: usize = 1;
        while j < rest.len()
            invariant
                rest@.len() > 0,
                m < j,
                j <= rest@.len(),
                asc == (order is Ascending),
                forall|k2: int| 0 <= k2 < j ==> count_ordered(order, rest@[m as int].1, (#[trigger] rest@[k2]).1),
            decreases rest@.len() - j,
        {
            let better = if asc {
                rest[j].1 < rest[m].1
            } else {
                rest[j].1 > rest[m].1
            };
            if better {
                m = j;
            }
            j = j + 1;
        }
        let ghost rest0 = rest@;
        let item = rest.remove(m);
        proof {
            assert(item == rest0[m as int]);
            assert(rest@ =~= rest0.remove(m as int));
            assert forall|j2: int| 0 <= j2 < rest@.len() implies (#[trigger] rest@[j2])
                == if j2 < m as int {
                rest0[j2]
            } else {
                rest0[j2 + 1]
            } by {
                rest0.remove_ensures(m as int);
            }
        }
        let ghost out0 = out@;
        out.push(item);
        proof {
            assert forall|k: Seq<char>| pages@.dom().contains(k) implies (exists|j2: int|
                0 <= j2 < out@.len() && (#[trigger] out@[j2]).0@ == k) || (exists|j2: int|
                0 <= j2 < rest@.len() && (#[trigger] rest@[j2]).0@ == k) || (exists|
                s: String,
                c: usize,
            |
                s@ == k && c as nat == pages@[k] && call_ensures(filter, (&s, &c), false)) by {
                if exists|j2: int| 0 <= j2 < rest0.len() && (#[trigger] rest0[j2]).0@ == k {
                    let j2 = choose|j2: int|
                        0 <= j2 < rest0.len() && (#[trigger] rest0[j2]).0@ == k;
                    if j2 == m as int {
                        assert(out@[out@.len() - 1].0@ == k);
                    } else if j2 < m as int {
                        assert(rest@[j2].0@ == k);
                    } else {
                        assert(rest@[j2 - 1].0@ == k);
                    }
                } else if exists|j2: int| 0 <= j2 < out0.len() && (#[trigger] out0[j2]).0@ == k {
                    let j2 = choose|j2: int|
                        0 <= j2 < out0.len() && (#[trigger] out0[j2]).0@ == k;
                    assert(out@[j2].0@ == k);
                }
            }
        }
    }
    out
}

} // verus!
