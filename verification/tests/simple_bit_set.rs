use wfc::SimpleBitSet;

#[test]
fn returns_correct_word_num_with_no_remainder() {
    let num_bits = 64;
    let result = SimpleBitSet::calculate_words_from_bits(num_bits);

    assert_eq!(result, 1);
}

#[test]
fn returns_correct_word_num_with_remainder() {
    let num_bits_1 = 65;
    let result_1 = SimpleBitSet::calculate_words_from_bits(num_bits_1);

    assert_eq!(result_1, 2);

    let num_bits_2 = 1;
    let result_2 = SimpleBitSet::calculate_words_from_bits(num_bits_2);

    assert_eq!(result_2, 1);
}

#[test]
fn initializes_new_bit_set_with_empty_words() {
    let num_bits = 128;
    let result = SimpleBitSet::new(num_bits);

    assert_eq!(result.words().len(), 2);
    for word in result.words() {
        assert_eq!(*word, 0u64);
    }
}

#[test]
fn initializes_new_bit_set_with_all_words_full() {
    let num_bits = 128;
    let result = SimpleBitSet::full(num_bits);

    assert_eq!(result.words().len(), 2);
    for word in result.words() {
        assert_eq!(*word, u64::MAX);
    }
}

#[test]
fn initializes_new_bit_set_with_remainder_word() {
    let num_bits = 129;
    let result = SimpleBitSet::full(num_bits);

    assert_eq!(result.words().len(), 3);
    for i in 0..result.words().len() {
        if i == result.words().len() - 1 {
            assert_eq!(result.words()[i], 1);
        } else {
            assert_eq!(result.words()[i], u64::MAX);
        }
    }
}

#[test]
fn a_set_member_is_contained_and_a_cleared_one_is_not() {
    let mut set = SimpleBitSet::new(130);
    set.set(0);
    set.set(64);
    set.set(129);

    assert!(set.contains(0));
    assert!(set.contains(64));
    assert!(set.contains(129));
    assert!(!set.contains(1));
    assert_eq!(set.count(), 3);

    set.clear(64);
    assert!(!set.contains(64));
    assert_eq!(set.count(), 2);
    assert_eq!(set.members(), vec![0, 129]);
}

#[test]
fn full_holds_exactly_the_first_bits() {
    let set = SimpleBitSet::full(70);

    assert_eq!(set.count(), 70);
    assert!(set.contains(69));
    assert!(!set.contains(70));
    assert_eq!(set.members(), (0..70).collect::<Vec<usize>>());
}

#[test]
fn clear_all_empties_the_set() {
    let mut set = SimpleBitSet::full(100);
    set.clear_all();

    assert_eq!(set.count(), 0);
    assert!(set.members().is_empty());
}

#[test]
fn intersect_keeps_the_common_members() {
    let mut a = SimpleBitSet::new(10);
    let mut b = SimpleBitSet::new(10);
    for i in [1, 3, 5, 7] {
        a.set(i);
    }
    for i in [3, 4, 5] {
        b.set(i);
    }
    a.intersect_with(&b);

    assert_eq!(a.members(), vec![3, 5]);
}

#[test]
fn union_adds_the_members_of_the_other_set() {
    let mut a = SimpleBitSet::new(10);
    let mut b = SimpleBitSet::new(10);
    a.set(1);
    b.set(2);
    b.set(9);
    a.union_with(&b);

    assert_eq!(a.members(), vec![1, 2, 9]);
}

#[test]
fn intersect_with_stats_reports_change_and_count() {
    let mut a = SimpleBitSet::full(8);
    let mut b = SimpleBitSet::new(8);
    b.set(2);
    b.set(6);

    assert_eq!(a.intersect_with_stats(&b), (true, 2));
    assert_eq!(a.intersect_with_stats(&b), (false, 2));
    assert_eq!(a.members(), vec![2, 6]);
}

#[test]
fn the_iterator_lists_members_in_increasing_order() {
    let mut set = SimpleBitSet::new(200);
    for i in [150, 3, 64, 63] {
        set.set(i);
    }
    let mut it = set.iter();
    let mut seen = Vec::new();
    while let Some(m) = it.next() {
        seen.push(m);
    }

    assert_eq!(seen, vec![3, 63, 64, 150]);
}

#[test]
fn a_clone_holds_the_same_members() {
    let mut set = SimpleBitSet::new(5);
    set.set(4);
    let copy = set.clone();

    assert_eq!(copy.members(), vec![4]);
}

#[test]
fn count_sees_every_bit_of_a_word() {
    let mut set = SimpleBitSet::new(64);
    for i in [0, 1, 31, 32, 62, 63] {
        set.set(i);
    }

    assert_eq!(set.count(), 6);
    assert_eq!(SimpleBitSet::full(64).count(), 64);
}

#[test]
fn an_exhausted_iterator_keeps_returning_none() {
    let mut set = SimpleBitSet::new(70);
    set.set(65);
    let mut it = set.iter();

    assert_eq!(it.next(), Some(65));
    assert_eq!(it.next(), None);
    assert_eq!(it.next(), None);
}
