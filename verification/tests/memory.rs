use aoc::memory::Memory;

#[test]
fn balancing_hands_out_the_fullest_bank() {
    let mut mem = Memory::from_iter(&[0, 2, 7, 0]);
    assert_eq!(mem.banks(), &vec![0, 2, 7, 0]);
    mem.balance();
    assert_eq!(mem.banks(), &vec![2, 4, 1, 2]);
    mem.balance();
    assert_eq!(mem.banks(), &vec![3, 1, 2, 3]);
    mem.balance();
    assert_eq!(mem.banks(), &vec![0, 2, 3, 4]);
    mem.balance();
    assert_eq!(mem.banks(), &vec![1, 3, 4, 1]);
    mem.balance();
    assert_eq!(mem.banks(), &vec![2, 4, 1, 2]);
    assert_eq!(mem.balanced(), 5);
}

#[test]
fn a_distribution_comes_back_after_five_balancings() {
    let mut mem = Memory::from_iter(&[0, 2, 7, 0]);
    let mut count = 0;
    while !mem.is_known() {
        mem.balance();
        count += 1;
    }
    assert_eq!(count, 5);
    assert_eq!(mem.known_from(), Some(4));
}

#[test]
fn a_fresh_memory_knows_nothing() {
    let mut mem = Memory::from_iter(&[3, 1]);
    assert!(!mem.is_known());
    assert_eq!(mem.known_from(), None);
    assert_eq!(mem.balanced(), 0);
    mem.register();
    assert!(mem.is_known());
    assert_eq!(mem.known_from(), Some(0));
}

#[test]
fn the_first_of_equal_banks_is_handed_out() {
    let mut mem = Memory::from_iter(&[3, 3, 0]);
    mem.balance();
    assert_eq!(mem.banks(), &vec![1, 4, 1]);
    let mut mem = Memory::from_iter(&[0, 0]);
    mem.balance();
    assert_eq!(mem.banks(), &vec![0, 0]);
    assert!(mem.is_known());
    let mut mem = Memory::from_iter(&[5]);
    mem.balance();
    assert_eq!(mem.banks(), &vec![5]);
    assert_eq!(mem.known_from(), Some(1));
}

#[test]
fn registering_again_moves_the_mark() {
    let mut mem = Memory::from_iter(&[1]);
    mem.balance();
    mem.balance();
    assert_eq!(mem.known_from(), Some(1));
    mem.register();
    assert_eq!(mem.known_from(), Some(0));
}

#[test]
fn banks_that_cannot_be_balanced_are_left_alone() {
    let mut none = Memory::from_iter(&[]);
    assert!(!none.is_balanceable());
    assert!(!none.checked_balance());
    assert_eq!(none.balanced(), 0);
    assert!(!none.is_known());
    let mut mem = Memory::from_iter(&[0, 2, 7, 0]);
    assert!(mem.checked_balance());
    assert_eq!(mem.banks(), &vec![2, 4, 1, 2]);
    assert_eq!(mem.balanced(), 1);
}
