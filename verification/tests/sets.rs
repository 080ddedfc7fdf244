use bit_set::BitSet;
use concept_explorer::attribute_set::{fits, full_set, is_full, pattern_of, restricted};
use concept_explorer::lectic::precedes;

fn set(members: &[usize]) -> BitSet {
    members.iter().copied().collect()
}

#[test]
fn full_set_holds_every_index_below_n() {
    assert_eq!(full_set(0), set(&[]));
    assert_eq!(full_set(1), set(&[0]));
    assert_eq!(full_set(5), set(&[0, 1, 2, 3, 4]));
    assert_eq!(full_set(70).len(), 70);
}

#[test]
fn is_full_compares_members_not_capacity() {
    assert!(is_full(&set(&[]), 0));
    assert!(is_full(&set(&[0, 1, 2]), 3));
    assert!(!is_full(&set(&[0, 2]), 3));
    assert!(!is_full(&set(&[0, 1, 2, 3]), 3));
    let mut roomy = BitSet::with_capacity(500);
    roomy.insert(0);
    roomy.insert(1);
    assert!(is_full(&roomy, 2));
    let mut emptied = set(&[0, 1, 90]);
    emptied.remove(90);
    assert!(is_full(&emptied, 2));
}

#[test]
fn restricted_keeps_the_members_below_n() {
    assert_eq!(restricted(&set(&[0, 3, 5, 9]), 5), set(&[0, 3]));
    assert_eq!(restricted(&set(&[0, 3, 5, 9]), 0), set(&[]));
    assert_eq!(restricted(&set(&[0, 3, 5, 9]), 10), set(&[0, 3, 5, 9]));
}

#[test]
fn fits_tells_whether_all_members_are_below_n() {
    assert!(fits(&set(&[]), 0));
    assert!(fits(&set(&[0, 1, 4]), 5));
    assert!(!fits(&set(&[0, 1, 5]), 5));
    assert!(!fits(&set(&[0]), 0));
}

#[test]
fn pattern_of_marks_the_members() {
    assert_eq!(pattern_of(&set(&[0, 2]), 4), vec![true, false, true, false]);
    assert_eq!(pattern_of(&set(&[0, 2]), 2), vec![true, false]);
    assert_eq!(pattern_of(&set(&[]), 0), Vec::<bool>::new());
}

#[test]
fn the_smallest_differing_index_decides_the_lectic_order() {
    assert!(precedes(&set(&[]), &set(&[2]), 3));
    assert!(precedes(&set(&[2]), &set(&[1]), 3));
    assert!(precedes(&set(&[1]), &set(&[1, 2]), 3));
    assert!(precedes(&set(&[1, 2]), &set(&[0]), 3));
    assert!(precedes(&set(&[0, 1]), &set(&[0, 1, 2]), 3));
    assert!(!precedes(&set(&[2]), &set(&[]), 3));
    assert!(!precedes(&set(&[1]), &set(&[2]), 3));
    assert!(!precedes(&set(&[0]), &set(&[1, 2]), 3));
    assert!(!precedes(&set(&[1]), &set(&[1]), 3));
}

#[test]
fn the_lectic_order_looks_at_indices_below_n_only() {
    assert!(!precedes(&set(&[]), &set(&[5]), 3));
    assert!(precedes(&set(&[]), &set(&[5]), 6));
    assert!(!precedes(&set(&[7]), &set(&[8]), 3));
    assert!(!precedes(&set(&[]), &set(&[0]), 0));
}
