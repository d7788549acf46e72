//! The numeric order of primary identifiers, in both directions.

use std::cmp::Ordering;
use std::collections::HashSet;
use vstd::prelude::*;
use vstd::std_specs::iter::IteratorSpec;

use crate::primary::decreasing;
use crate::primary::increasing;
use crate::types::OrderKind;
use crate::types::Primary;
use crate::view::is_primary_order;

verus! {

/// How `a` stands to `b` in numeric order.
pub open spec fn primary_ordering(a: Primary, b: Primary) -> Ordering {
    if a < b {
        Ordering::Less
    } else if a == b {
        Ordering::Equal
    } else {
        Ordering::Greater
    }
}

/// Compares two identifiers for an ascending sort.
pub fn order_primary_asc(a: &Primary, b: &Primary) -> (r: Ordering)
    ensures
        r == primary_ordering(*a, *b),
{
    if *a < *b {
        Ordering::Less
    } else if *a == *b {
        Ordering::Equal
    } else {
        Ordering::Greater
    }
}

/// Compares two identifiers for a descending sort.
pub fn order_primary_desc(a: &Primary, b: &Primary) -> (r: Ordering)
    ensures
        r == primary_ordering(*b, *a),
{
    order_primary_asc(b, a)
}

/// Whether `a` comes strictly before `b` in the direction `order`.
pub open spec fn comes_before(a: Primary, b: Primary, order: OrderKind) -> bool {
    match order {
        OrderKind::Asc => a < b,
        OrderKind::Desc => a > b,
    }
}

/// Whether `a` comes strictly before `b` in the direction `order`.
pub fn precedes(a: Primary, b: Primary, order: OrderKind) -> (r: bool)
    ensures
        r == comes_before(a, b, order),
{
    let found = match order {
        OrderKind::Asc => order_primary_asc(&a, &b),
        OrderKind::Desc => order_primary_desc(&a, &b),
    };
    match found {
        Ordering::Less => true,
        Ordering::Equal => false,
        Ordering::Greater => false,
    }
}

/// Whether each identifier of `s` comes strictly before those behind it.
pub open spec fn in_order(s: Seq<Primary>, order: OrderKind) -> bool {
    forall|i: int, j: int|
        #![trigger s[i], s[j]]
        0 <= i < j < s.len() ==> comes_before(s[i], s[j], order)
}

/// The number of identifiers of `sorted` that come before `id`.
fn slot(sorted: &Vec<Primary>, id: Primary, order: OrderKind) -> (r: usize)
    requires
        in_order(sorted@, order),
    ensures
        r <= sorted@.len(),
        forall|j: int| 0 <= j < r ==> comes_before(#[trigger] sorted@[j], id, order),
        forall|j: int| r <= j < sorted@.len() ==> !comes_before(#[trigger] sorted@[j], id, order),
{
    let mut lo: usize = 0;
    let mut hi: usize = sorted.len();
    while lo < hi
        invariant
            lo <= hi <= sorted@.len(),
            in_order(sorted@, order),
            forall|j: int| 0 <= j < lo ==> comes_before(#[trigger] sorted@[j], id, order),
            forall|j: int| hi <= j < sorted@.len() ==> !comes_before(#[trigger] sorted@[j], id, order),
        decreases hi - lo,
    {
        let mid: usize = lo + (hi - lo) / 2;
        if precedes(sorted[mid], id, order) {
            lo = mid + 1;
        } else {
            hi = mid;
        }
    }
    lo
}

/// The identifiers of `set`, sorted numerically in the direction `order`.
pub fn sorted_ids(set: &HashSet<Primary>, order: OrderKind) -> (r: Vec<Primary>)
    ensures
        is_primary_order(r@, set@, order),
{
    let mut out: Vec<Primary> = Vec::new();
    for id in it: set.iter()
        invariant
            it.seq() == set.iter().remaining(),
            in_order(out@, order),
            out@.to_set() == it.seq().take(it.index() as int).unref().to_set(),
    {
        let ghost all = it.seq();
        let ghost n = it.index() as int;
        let ghost seen = all.take(n).unref();
        let ghost next = all.take(n + 1).unref();
        let ghost before = out@;
        let pos = slot(&out, *id, order);
        proof {
            assert(all[n] == id);
            assert(all.no_duplicates());
            assert(next == seen.push(*id));
            if before.contains(*id) {
                assert(before.to_set().contains(*id));
                assert(seen.contains(*id));
                let j = choose|j: int| 0 <= j < seen.len() && seen[j] == *id;
                assert(all[j] == all[n]);
                assert(false);
            }
        }
        out.insert(pos, *id);
        proof {
            let now = out@;
            assert(now == before.insert(pos as int, *id));
            assert forall|i: int, j: int|
                #![trigger now[i], now[j]]
                0 <= i < j < now.len() implies comes_before(now[i], now[j], order) by {
                let oi = if i < pos { i } else { i - 1 };
                let oj = if j < pos { j } else { j - 1 };
                if i != pos && j != pos {
                    assert(comes_before(before[oi], before[oj], order));
                } else if i == pos {
                    assert(before.contains(before[oj]));
                    assert(!comes_before(before[oj], *id, order));
                } else {
                    assert(comes_before(before[oi], *id, order));
                }
            }
            assert forall|k: Primary| now.to_set().contains(k) == next.to_set().contains(k) by {
                if now.contains(k) {
                    let i = choose|i: int| 0 <= i < now.len() && now[i] == k;
                    if i == pos {
                        assert(next[n] == k);
                    } else {
                        let oi = if i < pos { i } else { i - 1 };
                        assert(before[oi] == k);
                        assert(before.to_set().contains(k));
                        assert(seen.contains(k));
                        let j = choose|j: int| 0 <= j < seen.len() && seen[j] == k;
                        assert(next[j] == k);
                    }
                }
                if next.contains(k) {
                    let j = choose|j: int| 0 <= j < next.len() && next[j] == k;
                    if j == n {
                        assert(now[pos as int] == k);
                    } else {
                        assert(seen[j] == k);
                        assert(seen.to_set().contains(k));
                        assert(before.contains(k));
                        let i = choose|i: int| 0 <= i < before.len() && before[i] == k;
                        let ni = if i < pos { i } else { i + 1 };
                        assert(now[ni] == k);
                    }
                }
            }
            assert(now.to_set() =~= next.to_set());
        }
    }
    proof {
        let all = set.iter().remaining();
        assert(all.take(all.len() as int) == all);
        match order {
            OrderKind::Asc => {
                assert(increasing(out@));
            },
            OrderKind::Desc => {
                assert(decreasing(out@));
            },
        }
    }
    out
}

} // verus!
