use colony::arena::FreeList;

#[test]
fn insert_returns_consecutive_indices() {
    let mut list = FreeList::new();
    assert_eq!(list.insert("a"), 0);
    assert_eq!(list.insert("b"), 1);
    assert_eq!(list.insert("c"), 2);
    assert_eq!(list.count(), 3);
    assert_eq!(list.capacity(), 3);
}

#[test]
fn occupied_index_returns_its_value() {
    let mut list = FreeList::new();
    let a = list.insert(10);
    let b = list.insert(20);
    let c = list.insert(30);
    assert_eq!(list.remove(b), Some(20));
    assert_eq!(list.get(a), Some(&10));
    assert_eq!(list.get(c), Some(&30));
    assert_eq!(*list.at(c), 30);
}

#[test]
fn removed_index_is_absent() {
    let mut list = FreeList::new();
    let a = list.insert(10);
    assert_eq!(list.remove(a), Some(10));
    assert_eq!(list.get(a), None);
    assert!(!list.contains(a));
    assert_eq!(list.remove(a), None);
    assert_eq!(list.count(), 0);
    assert_eq!(list.capacity(), 1);
}

#[test]
fn index_past_the_end_is_absent() {
    let mut list: FreeList<u8> = FreeList::new();
    assert_eq!(list.get(0), None);
    assert_eq!(list.remove(7), None);
    assert!(list.get_mut(3).is_none());
}

#[test]
fn freed_slot_is_reused_last_freed_first() {
    let mut list = FreeList::new();
    for v in 0..5 {
        list.insert(v);
    }
    list.remove(1);
    list.remove(3);
    assert_eq!(list.insert(50), 3);
    assert_eq!(list.insert(60), 1);
    assert_eq!(list.insert(70), 5);
    assert_eq!(list.get(3), Some(&50));
    assert_eq!(list.get(1), Some(&60));
}

#[test]
fn sorted_frees_reuse_the_lowest_slot() {
    let mut list = FreeList::new();
    for v in 0..8 {
        list.insert(v);
    }
    list.remove(2);
    list.remove(6);
    list.remove(4);
    list.remove(0);
    list.remove(5);
    list.sort_frees();
    assert_eq!(list.insert(100), 0);
    assert_eq!(list.insert(101), 2);
    assert_eq!(list.insert(102), 4);
    assert_eq!(list.insert(103), 5);
    assert_eq!(list.insert(104), 6);
    assert_eq!(list.insert(105), 8);
}

#[test]
fn sort_frees_changes_no_slot() {
    let mut list = FreeList::new();
    for v in 0..4 {
        list.insert(v * 2);
    }
    list.remove(3);
    list.remove(1);
    list.sort_frees();
    assert_eq!(list.get(0), Some(&0));
    assert_eq!(list.get(1), None);
    assert_eq!(list.get(2), Some(&4));
    assert_eq!(list.get(3), None);
    assert_eq!(list.count(), 2);
}

#[test]
fn iteration_is_in_slot_order_and_skips_free_slots() {
    let mut list = FreeList::new();
    for v in ["a", "b", "c", "d"] {
        list.insert(v);
    }
    list.remove(1);
    assert_eq!(list.indices(), vec![0, 2, 3]);
    assert_eq!(list.iter(), vec![&"a", &"c", &"d"]);
    list.insert("e");
    assert_eq!(list.iter(), vec![&"a", &"e", &"c", &"d"]);
}

#[test]
fn get_mut_changes_one_slot() {
    let mut list = FreeList::new();
    let a = list.insert(1);
    let b = list.insert(2);
    *list.get_mut(a).unwrap() = 9;
    assert_eq!(list.get(a), Some(&9));
    assert_eq!(list.get(b), Some(&2));
    assert_eq!(list.count(), 2);
}

#[test]
fn round_trip_against_a_plain_table() {
    let mut list = FreeList::new();
    let mut table: Vec<Option<u32>> = Vec::new();
    let mut x: u32 = 12345;
    for step in 0..400u32 {
        x = x.wrapping_mul(1664525).wrapping_add(1013904223);
        if x % 3 != 0 || table.is_empty() {
            let i = list.insert(step);
            if i == table.len() {
                table.push(Some(step));
            } else {
                assert_eq!(table[i], None);
                table[i] = Some(step);
            }
        } else {
            let i = (x / 7) as usize % table.len();
            assert_eq!(list.remove(i), table[i]);
            table[i] = None;
        }
        for (i, want) in table.iter().enumerate() {
            assert_eq!(list.get(i).copied(), *want);
        }
        assert_eq!(list.count(), table.iter().filter(|s| s.is_some()).count());
    }
}
