use std::cmp::Ordering;
use std::collections::HashSet;

use ledb::filter::Selection;
use ledb::order::{order_primary_asc, order_primary_desc, precedes, sorted_ids};
use ledb::types::OrderKind;

#[test]
fn ascending_comparison_is_numeric() {
    assert_eq!(order_primary_asc(&1, &2), Ordering::Less);
    assert_eq!(order_primary_asc(&2, &2), Ordering::Equal);
    assert_eq!(order_primary_asc(&3, &2), Ordering::Greater);
    assert_eq!(order_primary_asc(&0, &u64::MAX), Ordering::Less);
}

#[test]
fn descending_comparison_is_the_reverse() {
    assert_eq!(order_primary_desc(&1, &2), Ordering::Greater);
    assert_eq!(order_primary_desc(&2, &2), Ordering::Equal);
    assert_eq!(order_primary_desc(&3, &2), Ordering::Less);
}

#[test]
fn comparators_sort_a_slice() {
    let mut ids: Vec<u64> = vec![5, 1, 4, 2, 3];
    ids.sort_unstable_by(order_primary_asc);
    assert_eq!(ids, vec![1, 2, 3, 4, 5]);
    ids.sort_unstable_by(order_primary_desc);
    assert_eq!(ids, vec![5, 4, 3, 2, 1]);
}

#[test]
fn precedes_is_strict() {
    assert!(precedes(1, 2, OrderKind::Asc));
    assert!(!precedes(2, 2, OrderKind::Asc));
    assert!(!precedes(3, 2, OrderKind::Asc));
    assert!(precedes(3, 2, OrderKind::Desc));
    assert!(!precedes(2, 2, OrderKind::Desc));
    assert!(!precedes(1, 2, OrderKind::Desc));
}

#[test]
fn sorted_ids_sorts_a_set_both_ways() {
    let set: HashSet<u64> = [9, 3, 7, 1, 100, 42].into_iter().collect();
    assert_eq!(sorted_ids(&set, OrderKind::Asc), vec![1, 3, 7, 9, 42, 100]);
    assert_eq!(sorted_ids(&set, OrderKind::Desc), vec![100, 42, 9, 7, 3, 1]);
    assert!(sorted_ids(&HashSet::new(), OrderKind::Asc).is_empty());
}

#[test]
fn selection_lets_members_through() {
    let sel = Selection { ids: [2, 4].into_iter().collect(), inv: false };
    assert!(sel.has(2));
    assert!(!sel.has(3));
    assert_eq!(sel.filter(vec![5, 4, 3, 2, 1]), vec![4, 2]);
}

#[test]
fn inverted_selection_holds_members_back() {
    let sel = Selection { ids: [2, 4].into_iter().collect(), inv: true };
    assert!(!sel.has(2));
    assert!(sel.has(3));
    assert_eq!(sel.filter(vec![5, 4, 3, 2, 1]), vec![5, 3, 1]);
    assert_eq!(sel.filter(vec![4, 4, 7, 7]), vec![7, 7]);
}

#[test]
fn negate_turns_a_selection_round() {
    let sel = Selection { ids: [2].into_iter().collect(), inv: false }.negate();
    assert!(sel.inv);
    assert!(!sel.has(2));
    assert!(sel.has(1));
    let back = sel.negate();
    assert!(!back.inv);
    assert!(back.has(2));
}
