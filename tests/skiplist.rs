use skip_rs::skiplist::{level_from_flips, settle_level};
use skip_rs::{KeyNotFound, OutOfBounds, SkipList};

fn keys_of(list: &SkipList<isize, isize>) -> Vec<isize> {
    let mut out = Vec::new();
    for i in 0..list.length() {
        out.push(list.peek_at_index(i).unwrap().0);
    }
    out
}

#[test]
fn three_entries_scenario() {
    let mut list: SkipList<isize, &str> = SkipList::new();
    list.insert(1, "a");
    list.insert(3, "c");
    list.insert(2, "b");
    assert_eq!(list.peek_at_index(0), Ok((1, "a")));
    assert_eq!(list.peek_at_index(1), Ok((2, "b")));
    assert_eq!(list.peek_at_index(2), Ok((3, "c")));
    assert_eq!(list.pop(2), Ok((2, "b")));
    assert_eq!(list.peek_at_index(0), Ok((1, "a")));
    assert_eq!(list.peek_at_index(1), Ok((3, "c")));
    assert_eq!(list.length(), 2);
}

#[test]
fn peeks_come_in_key_order() {
    let mut list = SkipList::new();
    let keys: Vec<isize> = vec![42, -7, 19, 0, 88, 3, -50, 61, 27, 11, 5, 99, -1];
    for &k in &keys {
        list.insert(k, k * 2);
    }
    let mut sorted = keys.clone();
    sorted.sort();
    assert_eq!(keys_of(&list), sorted);
    for i in 0..list.length() {
        let (k, v) = list.peek_at_index(i).unwrap();
        assert_eq!(v, k * 2);
    }
}

#[test]
fn length_matches_entries_after_mixed_operations() {
    let mut list = SkipList::new();
    for k in 0..50isize {
        list.insert((k * 37) % 101, k);
    }
    assert_eq!(list.length(), 50);
    for k in 0..20isize {
        let _ = list.pop((k * 37) % 101);
    }
    assert_eq!(list.length(), 30);
    assert_eq!(keys_of(&list).len(), 30);
    assert!(list.peek_at_index(30).is_err());
    let ks = keys_of(&list);
    for w in ks.windows(2) {
        assert!(w[0] < w[1]);
    }
}

#[test]
fn insert_edit_pop_round_trip() {
    let mut list = SkipList::new();
    for k in [10isize, 30, 20, 40] {
        list.insert(k, k + 1);
    }
    list.insert(25, 7);
    assert_eq!(list.edit(25, |v| v * 10), Ok(()));
    // 25 is the third smallest key
    assert_eq!(list.pop_at_index(2), Ok((25, 70)));
    assert_eq!(list.length(), 4);
}

#[test]
fn insert_then_pop_restores_length() {
    let mut list = SkipList::new();
    for k in [5isize, 1, 9] {
        list.insert(k, 0);
    }
    let before = list.length();
    list.insert(4, 44);
    assert_eq!(list.pop(4), Ok((4, 44)));
    assert_eq!(list.length(), before);
    assert_eq!(keys_of(&list), vec![1, 5, 9]);
}

#[test]
fn index_past_the_end_is_out_of_bounds() {
    let mut list = SkipList::new();
    list.insert(1isize, 1isize);
    list.insert(2, 2);
    let n = list.length();
    assert_eq!(list.peek_at_index(n), Err(OutOfBounds));
    assert_eq!(list.pop_at_index(n), Err(OutOfBounds));
    assert_eq!(list.edit_at_index(n, |v| v + 1), Err(OutOfBounds));
    assert_eq!(list.remove_at_index(n), Err(OutOfBounds));
    assert_eq!(list.height_at(n), Err(OutOfBounds));
    assert_eq!(list.length(), 2);
}

#[test]
fn key_operations_on_empty_list_fail() {
    let mut list: SkipList<isize, isize> = SkipList::new();
    assert_eq!(list.pop(3), Err(KeyNotFound));
    assert_eq!(list.remove(3), Err(KeyNotFound));
    assert_eq!(list.edit(3, |v| v + 1), Err(KeyNotFound));
    assert_eq!(list.peek_at_index(0), Err(OutOfBounds));
    assert_eq!(list.pop_at_index(0), Err(OutOfBounds));
    assert_eq!(list.pop_front(), None);
    assert_eq!(list.pop_back(), None);
}

#[test]
fn missing_key_is_not_found() {
    let mut list = SkipList::new();
    for k in [2isize, 4, 6] {
        list.insert(k, k);
    }
    assert_eq!(list.pop(5), Err(KeyNotFound));
    assert_eq!(list.edit(7, |v| v), Err(KeyNotFound));
    assert_eq!(list.remove(1), Err(KeyNotFound));
    assert_eq!(list.length(), 3);
}

#[test]
fn popping_everything_shrinks_to_one_level() {
    let mut list = SkipList::new();
    let n: isize = 200;
    for k in 0..n {
        list.insert((k * 73) % n, k);
    }
    assert_eq!(list.length(), n as usize);
    for k in 0..n {
        assert!(list.pop((k * 31) % n).is_ok());
    }
    assert_eq!(list.length(), 0);
    assert_eq!(list.max_level(), 1);
    assert!(list.is_empty());
}

#[test]
fn popping_by_index_shrinks_to_one_level() {
    let mut list = SkipList::new();
    for k in 0..64isize {
        list.insert(k, k);
    }
    while list.length() > 0 {
        let mid = list.length() / 2;
        assert!(list.pop_at_index(mid).is_ok());
    }
    assert_eq!(list.max_level(), 1);
}

#[test]
fn duplicate_insert_replaces_value() {
    let mut list = SkipList::new();
    list.insert(1isize, 10isize);
    list.insert(2, 20);
    list.insert(1, 11);
    assert_eq!(list.length(), 2);
    assert_eq!(list.peek_at_index(0), Ok((1, 11)));
    assert_eq!(list.peek_at_index(1), Ok((2, 20)));
}

#[test]
fn front_and_back() {
    let mut list = SkipList::new();
    for k in [3isize, 1, 2] {
        list.insert(k, -k);
    }
    assert_eq!(list.pop_front(), Some((1, -1)));
    assert_eq!(list.pop_back(), Some((3, -3)));
    assert_eq!(list.pop_back(), Some((2, -2)));
    assert_eq!(list.pop_front(), None);
    assert_eq!(list.max_level(), 1);
}

#[test]
fn edit_at_index_changes_one_value() {
    let mut list = SkipList::new();
    for k in [8isize, 6, 7] {
        list.insert(k, 0isize);
    }
    assert_eq!(list.edit_at_index(1, |v| v + 5), Ok(()));
    assert_eq!(list.peek_at_index(0), Ok((6, 0)));
    assert_eq!(list.peek_at_index(1), Ok((7, 5)));
    assert_eq!(list.peek_at_index(2), Ok((8, 0)));
}

#[test]
fn remove_and_remove_at_index() {
    let mut list = SkipList::new();
    for k in 1..=5isize {
        list.insert(k, k);
    }
    assert_eq!(list.remove(3), Ok(()));
    assert_eq!(list.remove_at_index(0), Ok(()));
    assert_eq!(keys_of(&list), vec![2, 4, 5]);
}

#[test]
fn clear_empties_and_keeps_settings() {
    let mut list = SkipList::new_with_p(1, 1);
    for k in 0..10isize {
        list.insert(k, k);
    }
    list.fix_level();
    list.clear();
    assert_eq!(list.length(), 0);
    assert_eq!(list.max_level(), 1);
    assert!(list.is_fixed());
    assert_eq!(list.p(), (1, 1));
    list.insert(5, 5);
    assert_eq!(list.peek_at_index(0), Ok((5, 5)));
}

#[test]
fn certain_flips_grow_one_level_per_insert() {
    let mut list = SkipList::new_with_p(1, 1);
    for k in 0..5isize {
        list.insert(k, k);
    }
    assert_eq!(list.max_level(), 6);
    assert_eq!(list.height_at(4), Ok(6));
    assert_eq!(list.height_at(0), Ok(2));
}

#[test]
fn impossible_flips_keep_one_level() {
    let mut list = SkipList::new_with_p(0, 1);
    for k in 0..20isize {
        list.insert(k, k);
    }
    assert_eq!(list.max_level(), 1);
    assert_eq!(list.height_at(7), Ok(1));
}

#[test]
fn fixed_level_caps_heights() {
    let mut list = SkipList::new_with_p(1, 1);
    list.insert(0isize, 0isize);
    list.insert(1, 1);
    assert_eq!(list.max_level(), 3);
    list.fix_level();
    for k in 2..10isize {
        list.insert(k, k);
    }
    assert_eq!(list.max_level(), 3);
    list.unfix_level();
    list.insert(10, 10);
    assert_eq!(list.max_level(), 4);
    assert_eq!(keys_of(&list), (0..11).collect::<Vec<isize>>());
}

#[test]
fn probability_is_clamped() {
    let mut list: SkipList<isize, isize> = SkipList::new();
    assert_eq!(list.p(), (1, 2));
    list.set_p(5, 2);
    assert_eq!(list.p(), (2, 2));
    list.set_p(1, 3);
    assert_eq!(list.p(), (1, 3));
    let other: SkipList<isize, isize> = SkipList::new_with_p(9, 4);
    assert_eq!(other.p(), (4, 4));
    list.set_fixed(true);
    assert!(list.is_fixed());
    list.set_fixed(false);
    assert!(!list.is_fixed());
}

#[test]
fn clone_is_independent() {
    let mut list = SkipList::new();
    for k in [4isize, 2, 6] {
        list.insert(k, k);
    }
    let copy = list.clone();
    assert_eq!(list.pop(4), Ok((4, 4)));
    assert_eq!(copy.length(), 3);
    assert_eq!(copy.peek_at_index(1), Ok((4, 4)));
    assert_eq!(list.length(), 2);
}

#[test]
fn clear_chains() {
    let mut list = SkipList::new();
    list.insert(1isize, 1isize);
    list.clear().insert(9, 90);
    assert_eq!(list.length(), 1);
    assert_eq!(list.peek_at_index(0), Ok((9, 90)));
}

#[test]
fn level_counts_the_leading_successful_flips() {
    assert_eq!(level_from_flips(&vec![], 3), 1);
    assert_eq!(level_from_flips(&vec![false], 3), 1);
    assert_eq!(level_from_flips(&vec![true, false], 3), 2);
    assert_eq!(level_from_flips(&vec![true, true, false, true], 3), 3);
    assert_eq!(level_from_flips(&vec![true, true, true], 3), 4);
    assert_eq!(level_from_flips(&vec![true, true, true, true, true], 3), 4);
    assert_eq!(level_from_flips(&vec![true], 0), 1);
}

#[test]
fn equal_seeds_give_equal_heights() {
    let mut a = SkipList::new_seeded(1, 2, 42);
    let mut b = SkipList::new_seeded(1, 2, 42);
    for k in 0..200isize {
        a.insert(k, k);
        b.insert(k, k);
    }
    assert_eq!(a.max_level(), b.max_level());
    for i in 0..200usize {
        assert_eq!(a.height_at(i), b.height_at(i));
    }
    assert!(a.max_level() > 1);
}

#[test]
fn drawn_level_is_settled_against_the_header() {
    assert_eq!(settle_level(2, 3, false), (2, false));
    assert_eq!(settle_level(3, 3, true), (3, false));
    assert_eq!(settle_level(4, 3, false), (4, true));
    assert_eq!(settle_level(4, 3, true), (3, false));
}

#[test]
fn edits_keep_the_level_count() {
    let mut list = SkipList::new_with_p(1, 1);
    for k in 0..4isize {
        list.insert(k, k);
    }
    let levels = list.max_level();
    assert_eq!(list.edit(2, |v| v + 100), Ok(()));
    assert_eq!(list.edit_at_index(0, |v| v - 1), Ok(()));
    assert_eq!(list.max_level(), levels);
    assert_eq!(list.peek_at_index(2), Ok((2, 102)));
    assert_eq!(list.peek_at_index(0), Ok((0, -1)));
}

#[test]
fn popping_the_tallest_node_trims_the_header() {
    let mut list = SkipList::new_with_p(1, 1);
    for k in 0..4isize {
        list.insert(k, k);
    }
    // each insert grew the header, so the last key reaches the top level alone
    assert_eq!(list.max_level(), 5);
    assert_eq!(list.pop(3), Ok((3, 3)));
    assert_eq!(list.max_level(), 4);
    assert_eq!(list.height_at(2), Ok(4));
    assert_eq!(list.pop_at_index(0), Ok((0, 0)));
    assert_eq!(list.max_level(), 4);
}
