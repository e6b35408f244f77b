use edit_days::names::NameIndex;
use edit_days::set_index::SetIndex;
use edit_days::sorted_set::{lower_bound, SortedSet};

fn set_of(members: &[i64]) -> SortedSet {
    let mut set = SortedSet::new();
    for m in members {
        set.insert(*m);
    }
    set
}

fn rows_of(index: &SetIndex) -> Vec<(i64, Vec<i64>)> {
    (0..index.len()).map(|i| (index.key_at(i), index.set_at(i).to_vec())).collect()
}

#[test]
fn lower_bound_finds_the_first_element_not_below() {
    let keys: Vec<i64> = vec![2, 4, 6, 9];
    assert_eq!(lower_bound(&keys, 1), 0);
    assert_eq!(lower_bound(&keys, 2), 0);
    assert_eq!(lower_bound(&keys, 3), 1);
    assert_eq!(lower_bound(&keys, 9), 3);
    assert_eq!(lower_bound(&keys, 10), 4);
    assert_eq!(lower_bound(&Vec::new(), 10), 0);
}

#[test]
fn sorted_set_keeps_members_once_and_in_order() {
    let mut set = SortedSet::new();
    assert_eq!(set.len(), 0);
    assert!(set.insert(5));
    assert!(set.insert(-3));
    assert!(set.insert(9));
    assert!(!set.insert(5));
    assert!(set.insert(i64::MIN));
    assert!(set.insert(i64::MAX));
    assert_eq!(set.to_vec(), vec![i64::MIN, -3, 5, 9, i64::MAX]);
    assert_eq!(set.len(), 5);
    assert_eq!(set.get(2), 5);
    assert!(set.contains(9));
    assert!(!set.contains(8));
    assert_eq!(SortedSet::singleton(7).to_vec(), vec![7]);
    assert_eq!(set.duplicate().to_vec(), set.to_vec());
}

#[test]
fn sorted_set_union_holds_the_members_of_both() {
    let mut left = set_of(&[1, 3, 5, 7]);
    left.union_with(&set_of(&[0, 3, 4, 7, 8, 9]));
    assert_eq!(left.to_vec(), vec![0, 1, 3, 4, 5, 7, 8, 9]);
    let mut empty = SortedSet::new();
    empty.union_with(&set_of(&[2, 1]));
    assert_eq!(empty.to_vec(), vec![1, 2]);
    let mut same = set_of(&[1, 2]);
    same.union_with(&SortedSet::new());
    assert_eq!(same.to_vec(), vec![1, 2]);
}

#[test]
fn set_index_files_members_under_keys() {
    let mut index = SetIndex::new();
    assert_eq!(index.len(), 0);
    assert!(index.insert(7, 100));
    assert!(index.insert(3, 200));
    assert!(index.insert(7, 50));
    assert!(!index.insert(7, 100));
    assert_eq!(rows_of(&index), vec![(3, vec![200]), (7, vec![50, 100])]);
    assert_eq!(index.position(7), Some(1));
    assert_eq!(index.position(4), None);
    assert_eq!(index.first_at_least(4), 1);
    assert_eq!(index.first_at_least(8), 2);
    assert_eq!(index.get(3).map(|s| s.to_vec()), Some(vec![200]));
    assert!(index.get(5).is_none());
}

#[test]
fn set_index_merge_unites_entry_by_entry() {
    let mut left = SetIndex::new();
    left.insert(1, 10);
    left.insert(3, 30);
    left.insert(5, 50);
    let mut right = SetIndex::new();
    right.insert(0, 1);
    right.insert(3, 31);
    right.insert(3, 30);
    right.insert(9, 90);
    left.merge(&right);
    assert_eq!(
        rows_of(&left),
        vec![(0, vec![1]), (1, vec![10]), (3, vec![30, 31]), (5, vec![50]), (9, vec![90])]
    );
    let mut other_way = SetIndex::new();
    other_way.insert(0, 1);
    other_way.insert(3, 31);
    other_way.insert(3, 30);
    other_way.insert(9, 90);
    let mut first = SetIndex::new();
    first.insert(1, 10);
    first.insert(3, 30);
    first.insert(5, 50);
    other_way.merge(&first);
    assert_eq!(rows_of(&other_way), rows_of(&left));
}

#[test]
fn set_index_files_one_member_under_many_keys() {
    let mut index = SetIndex::new();
    index.insert(2, 1);
    index.file_under_each(&set_of(&[1, 2, 3]), 5);
    assert_eq!(rows_of(&index), vec![(1, vec![5]), (2, vec![1, 5]), (3, vec![5])]);
    index.file_under_each(&SortedSet::new(), 6);
    assert_eq!(rows_of(&index), vec![(1, vec![5]), (2, vec![1, 5]), (3, vec![5])]);
}

#[test]
fn name_index_keeps_the_later_sighting_of_another_name() {
    let mut names = NameIndex::new();
    names.record(5, 100, &"Alice".to_string());
    assert_eq!(names.get(5).map(|(t, n)| (t, n.clone())), Some((100, "Alice".to_string())));
    names.record(5, 99, &"Bob".to_string());
    assert_eq!(names.get(5).map(|(t, n)| (t, n.clone())), Some((100, "Alice".to_string())));
    names.record(5, 101, &"Alice".to_string());
    assert_eq!(names.get(5).map(|(t, n)| (t, n.clone())), Some((100, "Alice".to_string())));
    names.record(5, 101, &"Carol".to_string());
    assert_eq!(names.get(5).map(|(t, n)| (t, n.clone())), Some((101, "Carol".to_string())));
    names.record(5, 101, &"Dave".to_string());
    assert_eq!(names.get(5).map(|(t, n)| (t, n.clone())), Some((101, "Dave".to_string())));
    assert!(names.get(4).is_none());
    assert_eq!(names.len(), 1);
}

#[test]
fn name_index_merge_files_the_other_entries_after_its_own() {
    let mut left = NameIndex::new();
    left.record(1, 10, &"one".to_string());
    left.record(2, 20, &"two".to_string());
    left.record(4, 40, &"four".to_string());
    let mut right = NameIndex::new();
    right.record(2, 20, &"deux".to_string());
    right.record(3, 30, &"trois".to_string());
    right.record(4, 39, &"quatre".to_string());
    left.merge(&right);
    assert_eq!(left.len(), 4);
    assert_eq!(left.get(1).map(|(t, n)| (t, n.clone())), Some((10, "one".to_string())));
    assert_eq!(left.get(2).map(|(t, n)| (t, n.clone())), Some((20, "deux".to_string())));
    assert_eq!(left.get(3).map(|(t, n)| (t, n.clone())), Some((30, "trois".to_string())));
    assert_eq!(left.get(4).map(|(t, n)| (t, n.clone())), Some((40, "four".to_string())));
}
