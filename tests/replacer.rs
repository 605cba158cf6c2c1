use buffer_pool::config::ReplacePolicy;
use buffer_pool::replacer::clock_replacer::ClockEntry;
use buffer_pool::replacer::{ClockReplacer, LruReplacer, PolicyReplacer, Replacer};

#[test]
fn clock_replacer_test1() {
    let mut replacer = ClockReplacer::new(4);
    // 2 5 10 1
    replacer.insert(2);
    replacer.insert(5);
    replacer.insert(10);
    replacer.insert(1);
    // 5(false) 10(false) 1(false)
    assert_eq!(replacer.victim(), Some(2));
    assert_eq!(replacer.size(), 3);
    // 5(true) 10(false) 1(false)
    replacer.insert(5);
    assert_eq!(replacer.victim(), Some(10));
    replacer.remove(5);
    assert_eq!(replacer.size(), 1);
}

#[test]
fn clock_replacer_test2() {
    let mut replacer = ClockReplacer::new(4);
    replacer.insert(1);
    replacer.insert(2);
    replacer.insert(3);
    replacer.insert(4);
    assert_eq!(replacer.victim(), Some(1));
    assert_eq!(replacer.victim(), Some(2));
    replacer.remove(4);
    assert_eq!(replacer.size(), 1);
    replacer.insert(5);
    replacer.insert(6);
    assert_eq!(replacer.size(), 3);
    replacer.remove(6);
    replacer.remove(5);
    replacer.remove(3);
    assert_eq!(replacer.size(), 0);
}

#[test]
fn lru_replacer_test() {
    let mut replacer = LruReplacer::new(5);
    // 1 2 3 4 5
    for i in 1..=5 {
        replacer.insert(i);
        assert_eq!(replacer.size(), i);
    }
    replacer.insert(1);
    // 2 3 4 5 1
    assert_eq!(replacer.size(), 5);
    // 3 4 5 1
    assert_eq!(replacer.victim().unwrap(), 2);
    assert_eq!(replacer.size(), 4);
    // 3 5 1
    replacer.remove(4);
    assert_eq!(replacer.size(), 3);
    // 5 1 7 8 9
    for i in 7..=9 {
        replacer.insert(i);
    }
    // 7 8 9 5 1
    replacer.insert(5);
    replacer.insert(1);
    assert_eq!(replacer.victim().unwrap(), 7);
    assert_eq!(replacer.victim().unwrap(), 8);
    assert_eq!(replacer.victim().unwrap(), 9);
    assert_eq!(replacer.victim().unwrap(), 5);
    assert_eq!(replacer.victim().unwrap(), 1);
    assert_eq!(replacer.size(), 0);
    for i in 10..15 {
        replacer.insert(i);
    }
    assert_eq!(replacer.size(), 5);
}

#[test]
fn lru_victim_on_empty_is_none() {
    let mut replacer = LruReplacer::new(3);
    assert_eq!(replacer.victim(), None);
    replacer.remove(7);
    assert_eq!(replacer.size(), 0);
}

#[test]
fn lru_insert_existing_moves_to_back() {
    let mut replacer = LruReplacer::new(4);
    replacer.insert(3);
    replacer.insert(1);
    replacer.insert(2);
    replacer.insert(3);
    assert_eq!(replacer.frames(), vec![1, 2, 3]);
}

#[test]
fn lru_overflow_drops_least_recent() {
    let mut replacer = LruReplacer::new(2);
    replacer.insert(1);
    replacer.insert(2);
    replacer.insert(3);
    assert_eq!(replacer.frames(), vec![2, 3]);
}

#[test]
fn lru_zero_capacity_tracks_nothing() {
    let mut replacer = LruReplacer::new(0);
    replacer.insert(1);
    assert_eq!(replacer.size(), 0);
}

#[test]
fn clock_second_chance_spares_refreshed_frame() {
    let mut replacer = ClockReplacer::new(4);
    for f in [2, 5, 10, 1] {
        replacer.insert(f);
    }
    assert_eq!(replacer.victim(), Some(2));
    replacer.insert(5);
    assert_eq!(replacer.victim(), Some(10));
}

#[test]
fn clock_new_entry_goes_behind_hand() {
    let mut replacer = ClockReplacer::new(4);
    replacer.insert(1);
    replacer.insert(2);
    replacer.insert(3);
    assert_eq!(
        replacer.entries(),
        vec![
            ClockEntry { frame_id: 1, referenced: true },
            ClockEntry { frame_id: 2, referenced: true },
            ClockEntry { frame_id: 3, referenced: true },
        ]
    );
    assert_eq!(replacer.victim(), Some(1));
    replacer.insert(4);
    assert_eq!(
        replacer.entries(),
        vec![
            ClockEntry { frame_id: 2, referenced: false },
            ClockEntry { frame_id: 3, referenced: false },
            ClockEntry { frame_id: 4, referenced: true },
        ]
    );
}

#[test]
fn clock_full_insert_reuses_victim_slot() {
    let mut replacer = ClockReplacer::new(2);
    replacer.insert(1);
    replacer.insert(2);
    replacer.insert(3);
    assert_eq!(replacer.size(), 2);
    assert_eq!(
        replacer.entries(),
        vec![
            ClockEntry { frame_id: 2, referenced: false },
            ClockEntry { frame_id: 3, referenced: true },
        ]
    );
    assert_eq!(replacer.victim(), Some(2));
    assert_eq!(replacer.victim(), Some(3));
    assert_eq!(replacer.victim(), None);
}

#[test]
fn clock_zero_capacity_tracks_nothing() {
    let mut replacer = ClockReplacer::new(0);
    replacer.insert(1);
    assert_eq!(replacer.size(), 0);
    assert_eq!(replacer.victim(), None);
}

#[test]
fn policy_replacer_dispatches() {
    let mut lru = PolicyReplacer::new(ReplacePolicy::Lru, 3);
    let mut clock = PolicyReplacer::new(ReplacePolicy::Clock, 3);
    for f in [4, 5, 6] {
        Replacer::insert(&mut lru, f);
        Replacer::insert(&mut clock, f);
    }
    Replacer::insert(&mut lru, 4);
    Replacer::insert(&mut clock, 4);
    assert_eq!(Replacer::victim(&mut lru), Some(5));
    assert_eq!(Replacer::victim(&mut clock), Some(4));
    Replacer::remove(&mut lru, 6);
    assert_eq!(Replacer::size(&lru), 1);
    assert_eq!(Replacer::size(&clock), 2);
}
