use buffer_pool::config::{Config, ReplacePolicy, PAGE_SIZE, USAGE};
use buffer_pool::page::Page;

fn args(words: &[&str]) -> Vec<String> {
    words.iter().map(|w| w.to_string()).collect()
}

#[test]
fn build_accepts_lru_and_clock() {
    let c = Config::build(&args(&["prog", "lru", "trace.txt"])).unwrap();
    assert_eq!(c.policy, ReplacePolicy::Lru);
    assert_eq!(c.file_path, "trace.txt");
    let c = Config::build(&args(&["prog", "clock", "t"])).unwrap();
    assert_eq!(c.policy, ReplacePolicy::Clock);
    assert_eq!(c.file_path, "t");
}

#[test]
fn build_rejects_bad_arguments() {
    assert_eq!(Config::build(&args(&["prog", "lru"])).err(), Some(USAGE));
    assert_eq!(Config::build(&args(&["prog", "fifo", "t"])).err(), Some(USAGE));
    assert_eq!(Config::build(&args(&["prog", "lru", "t", "x"])).err(), Some(USAGE));
}

#[test]
fn new_page_is_clean_zeroed_and_unpinned() {
    let p = Page::new(Some(3));
    assert_eq!(p.get_page_id(), Some(3));
    assert_eq!(p.get_data().len(), PAGE_SIZE);
    assert!(p.get_data().iter().all(|b| *b == 0));
    assert!(!p.is_dirty());
    assert_eq!(p.get_pin_count(), 0);
}

#[test]
fn page_setters_and_pins() {
    let mut p = Page::new(None);
    p.set_page_id(9);
    p.set_dirty(true);
    p.increment_pin_count();
    p.increment_pin_count();
    p.decrement_pin_count();
    let mut data = vec![0u8; PAGE_SIZE];
    data[0] = 7;
    p.set_data(data);
    assert_eq!(p.get_page_id(), Some(9));
    assert!(p.is_dirty());
    assert_eq!(p.get_pin_count(), 1);
    assert_eq!(p.get_data()[0], 7);
}
