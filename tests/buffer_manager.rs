use buffer_pool::buffer_manager::{BMgr, FixOutcome, Victim};
use buffer_pool::config::{FrameId, PageId, ReplacePolicy, PAGE_SIZE};

/// A backing store held in memory, standing in for the page file.
struct MemDisk {
    pages: Vec<Vec<u8>>,
    reads: usize,
    writes: usize,
}

impl MemDisk {
    fn new() -> MemDisk {
        MemDisk { pages: Vec::new(), reads: 0, writes: 0 }
    }

    fn new_page(&mut self) -> PageId {
        self.pages.push(vec![0u8; PAGE_SIZE]);
        self.pages.len() - 1
    }

    fn read_page(&mut self, page_id: PageId) -> Vec<u8> {
        self.reads += 1;
        self.pages[page_id].clone()
    }

    fn write_back(&mut self, v: &Victim) {
        if let Some(e) = &v.evicted {
            self.writes += 1;
            self.pages[e.page_id] = e.data.clone();
        }
    }
}

fn fix_page(bm: &mut BMgr, disk: &mut MemDisk, page_id: PageId, is_dirty: bool) -> Option<FrameId> {
    match bm.fix_page(page_id, is_dirty) {
        FixOutcome::Hit(f) => Some(f),
        FixOutcome::Exhausted => None,
        FixOutcome::Miss(v) => {
            disk.write_back(&v);
            let data = disk.read_page(page_id);
            bm.load_page(v.frame_id, page_id, data, is_dirty)
        }
    }
}

fn fix_new_page(bm: &mut BMgr, disk: &mut MemDisk, page_id: &mut PageId) -> Option<FrameId> {
    let v = bm.select_victim()?;
    disk.write_back(&v);
    *page_id = disk.new_page();
    bm.fix_new_page(v.frame_id, *page_id)
}

fn select_victim(bm: &mut BMgr, disk: &mut MemDisk) -> Option<FrameId> {
    let v = bm.select_victim()?;
    disk.write_back(&v);
    Some(v.frame_id)
}

#[test]
fn test_buffer_manager1() {
    let mut disk = MemDisk::new();
    let mut buffer_manager = BMgr::new(ReplacePolicy::Lru, 5);
    let mut page_id = 0;
    for i in 0..5 {
        let _ = fix_new_page(&mut buffer_manager, &mut disk, &mut page_id).unwrap();
        buffer_manager.unfix_page(page_id);
        assert_eq!(page_id, i)
    }
    // 0 1 2 3 4
    for i in 5..10 {
        assert_eq!(fix_new_page(&mut buffer_manager, &mut disk, &mut page_id).unwrap(), i - 5);
        assert_eq!(page_id, i);
        buffer_manager.unfix_page(page_id);
    }

    fix_page(&mut buffer_manager, &mut disk, 8, false);
    buffer_manager.unfix_page(8);
    fix_page(&mut buffer_manager, &mut disk, 7, false);
    buffer_manager.unfix_page(7);
    fix_page(&mut buffer_manager, &mut disk, 5, false);
    buffer_manager.unfix_page(5);

    let expect = vec![1, 4, 3, 2, 0];
    for i in 0..5 {
        assert_eq!(expect[i], select_victim(&mut buffer_manager, &mut disk).unwrap());
    }
}

#[test]
fn test_buffer_manager2() {
    let mut disk = MemDisk::new();
    let mut buffer_manager = BMgr::new(ReplacePolicy::Lru, 5);

    // new 30 pages == 120k
    let mut page_id = 0;
    for i in 0..30 {
        let _ = fix_new_page(&mut buffer_manager, &mut disk, &mut page_id).unwrap();
        buffer_manager.unfix_page(page_id);
        assert_eq!(page_id, i)
    }

    for i in 0..5 {
        assert_eq!(fix_page(&mut buffer_manager, &mut disk, i, false).unwrap(), i);
        buffer_manager.unfix_page(i);
    }

    assert_eq!(buffer_manager.get_read_io_num(), 5);
    assert_eq!(buffer_manager.get_hit_num(), 0);

    for i in (0..5).rev() {
        assert_eq!(fix_page(&mut buffer_manager, &mut disk, i, false).unwrap(), i);
        buffer_manager.unfix_page(i);
    }

    let last_write_io = buffer_manager.get_write_io_num();

    // replacer frame: 4 3 2 1 0
    assert_eq!(buffer_manager.get_read_io_num(), 5);
    assert_eq!(buffer_manager.get_hit_num(), 5);
    buffer_manager.set_dirty(4);
    buffer_manager.set_dirty(3);
    assert_eq!(fix_page(&mut buffer_manager, &mut disk, 5, false).unwrap(), 4);
    buffer_manager.unfix_page(5);
    assert_eq!(fix_page(&mut buffer_manager, &mut disk, 6, false).unwrap(), 3);
    buffer_manager.unfix_page(6);
    assert_eq!(buffer_manager.get_read_io_num(), 7);
    assert_eq!(buffer_manager.get_write_io_num() - last_write_io, 2);
}

#[test]
fn fill_and_evict_counters() {
    let mut disk = MemDisk::new();
    let mut bm = BMgr::new(ReplacePolicy::Lru, 5);
    let mut page_id = 0;
    for _ in 0..10 {
        fix_new_page(&mut bm, &mut disk, &mut page_id).unwrap();
        bm.unfix_page(page_id);
    }
    for f in 0..5 {
        assert_eq!(bm.frame(f).get_page_id(), Some(f + 5));
    }
    assert_eq!(bm.get_read_io_num(), 0);
    assert_eq!(bm.get_write_io_num(), 5);
    assert_eq!(bm.get_io_num(), 5);
    assert_eq!(bm.get_hit_num(), 0);
    assert_eq!(disk.writes, 5);
}

#[test]
fn filling_empty_pool_never_evicts() {
    let mut disk = MemDisk::new();
    let mut bm = BMgr::new(ReplacePolicy::Clock, 4);
    assert_eq!(bm.num_free_frames(), 4);
    let mut page_id = 0;
    for i in 0..4 {
        let v = bm.select_victim().unwrap();
        assert!(v.evicted.is_none());
        page_id = disk.new_page();
        bm.fix_new_page(v.frame_id, page_id).unwrap();
        bm.unfix_page(page_id);
        assert_eq!(bm.num_free_frames(), 3 - i);
    }
    assert_eq!(page_id, 3);
    assert_eq!(bm.get_write_io_num(), 0);
    assert_eq!(disk.writes, 0);
}

#[test]
fn next_access_after_fill_writes_only_dirty() {
    // clean pages: no write
    let mut disk = MemDisk::new();
    for _ in 0..4 {
        disk.new_page();
    }
    let mut bm = BMgr::new(ReplacePolicy::Lru, 3);
    for p in 0..3 {
        fix_page(&mut bm, &mut disk, p, false).unwrap();
        bm.unfix_page(p);
    }
    fix_page(&mut bm, &mut disk, 3, false).unwrap();
    assert_eq!(bm.get_write_io_num(), 0);

    // one dirty page: exactly one write
    let mut bm = BMgr::new(ReplacePolicy::Lru, 3);
    for p in 0..3 {
        fix_page(&mut bm, &mut disk, p, p == 0).unwrap();
        bm.unfix_page(p);
    }
    fix_page(&mut bm, &mut disk, 3, false).unwrap();
    assert_eq!(bm.get_write_io_num(), 1);
}

#[test]
fn all_pinned_gives_exhausted() {
    let mut disk = MemDisk::new();
    for _ in 0..3 {
        disk.new_page();
    }
    let mut bm = BMgr::new(ReplacePolicy::Clock, 2);
    fix_page(&mut bm, &mut disk, 0, false).unwrap();
    fix_page(&mut bm, &mut disk, 1, false).unwrap();
    assert!(matches!(bm.fix_page(2, false), FixOutcome::Exhausted));
    assert!(bm.select_victim().is_none());
    bm.unfix_page(1);
    assert!(matches!(bm.fix_page(2, false), FixOutcome::Miss(_)));
}

#[test]
fn fix_then_unfix_then_refix_is_hit() {
    let mut disk = MemDisk::new();
    for _ in 0..2 {
        disk.new_page();
    }
    let mut bm = BMgr::new(ReplacePolicy::Lru, 2);
    let f = fix_page(&mut bm, &mut disk, 1, true).unwrap();
    assert_eq!(bm.unfix_page(1), Some(f));
    assert!(matches!(bm.fix_page(1, false), FixOutcome::Hit(g) if g == f));
    assert_eq!(bm.get_hit_num(), 1);
    assert!(bm.frame(f).is_dirty());
}

#[test]
fn replacer_size_counts_unpinned_resident() {
    let mut disk = MemDisk::new();
    for _ in 0..3 {
        disk.new_page();
    }
    let mut bm = BMgr::new(ReplacePolicy::Lru, 3);
    for p in 0..3 {
        fix_page(&mut bm, &mut disk, p, false).unwrap();
    }
    assert_eq!(bm.replacer_size(), 0);
    bm.unfix_page(0);
    bm.unfix_page(2);
    assert_eq!(bm.replacer_size(), 2);
    fix_page(&mut bm, &mut disk, 0, false).unwrap();
    assert_eq!(bm.replacer_size(), 1);
}

#[test]
fn loaded_bytes_are_kept_and_written_back() {
    let mut disk = MemDisk::new();
    for _ in 0..2 {
        disk.new_page();
    }
    disk.pages[0][0] = 42;
    let mut bm = BMgr::new(ReplacePolicy::Lru, 1);
    let f = fix_page(&mut bm, &mut disk, 0, true).unwrap();
    assert_eq!(bm.frame(f).get_data()[0], 42);
    bm.unfix_page(0);
    match bm.fix_page(1, false) {
        FixOutcome::Miss(v) => {
            let e = v.evicted.as_ref().unwrap();
            assert_eq!(e.page_id, 0);
            assert_eq!(e.data[0], 42);
            assert_eq!(e.data.len(), PAGE_SIZE);
        }
        _ => panic!("expected a miss"),
    }
    assert_eq!(bm.get_write_io_num(), 1);
}

#[test]
fn load_page_refusals() {
    let mut bm = BMgr::new(ReplacePolicy::Lru, 2);
    // a free frame was never handed out
    assert_eq!(bm.load_page(1, 0, vec![0u8; PAGE_SIZE], false), None);
    let v = bm.select_victim().unwrap();
    // wrong length
    assert_eq!(bm.load_page(v.frame_id, 0, vec![0u8; 3], false), None);
    // out of range
    assert_eq!(bm.load_page(9, 0, vec![0u8; PAGE_SIZE], false), None);
    assert_eq!(bm.load_page(v.frame_id, 0, vec![1u8; PAGE_SIZE], false), Some(v.frame_id));
    // page already resident, frame already in use
    let w = bm.select_victim().unwrap();
    assert_eq!(bm.load_page(w.frame_id, 0, vec![0u8; PAGE_SIZE], false), None);
    assert_eq!(bm.fix_new_page(v.frame_id, 5), None);
    assert_eq!(bm.get_read_io_num(), 1);
    assert_eq!(bm.lookup(0), Some(v.frame_id));
    assert_eq!(bm.lookup(1), None);
}

#[test]
fn unfix_non_resident_is_none() {
    let mut bm = BMgr::new(ReplacePolicy::Lru, 2);
    assert_eq!(bm.unfix_page(3), None);
}

#[test]
fn write_dirtys_flushes_each_dirty_frame_once() {
    let mut disk = MemDisk::new();
    for _ in 0..3 {
        disk.new_page();
    }
    let mut bm = BMgr::new(ReplacePolicy::Clock, 3);
    fix_page(&mut bm, &mut disk, 0, true).unwrap();
    fix_page(&mut bm, &mut disk, 1, false).unwrap();
    fix_page(&mut bm, &mut disk, 2, true).unwrap();
    let out = bm.write_dirtys();
    let ids: Vec<PageId> = out.iter().map(|e| e.page_id).collect();
    assert_eq!(ids, vec![0, 2]);
    assert_eq!(bm.get_write_io_num(), 2);
    assert!(bm.write_dirtys().is_empty());
    assert_eq!(bm.get_write_io_num(), 2);
}

#[test]
fn resident_pages_lists_table() {
    let mut disk = MemDisk::new();
    for _ in 0..3 {
        disk.new_page();
    }
    let mut bm = BMgr::new(ReplacePolicy::Lru, 2);
    fix_page(&mut bm, &mut disk, 2, false).unwrap();
    fix_page(&mut bm, &mut disk, 0, false).unwrap();
    let mut r = bm.resident_pages();
    r.sort();
    assert_eq!(r, vec![(0, 1), (2, 0)]);
    assert!(bm.has_counter_room());
    assert_eq!(bm.frame_count(), 2);
}
