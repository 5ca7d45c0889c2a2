use bimap::BiMap;
use srdb::bm::{BufManager, CustomHashMap};
use srdb::constants::{BUF_PAGE_CAPACITY, PAGE_SIZE};

#[test]
fn str_test() {
    assert_eq!("asdasd", "asdasd");
    let a = "abcde";
    let bb = String::from("abcde");
    let b = &bb;
    assert_eq!(a, b);
}

#[test]
fn bimap_test() {
    let mut hash: BiMap<usize, (usize, usize)> = BiMap::new();
    hash.insert(0, (0, 1));
    assert_eq!(hash.get_by_left(&0), Some(&(0, 1)));
    assert_ne!(hash.get_by_left(&0), Some(&(1, 1)));

    assert_eq!(hash.get_by_right(&(0, 1)), Some(&0));
    assert_eq!(hash.get_by_right(&(0, 0)), None);
    assert_ne!(hash.get_by_right(&(0, 1)), Some(&1));

    hash.insert(0, (1, 1));
    println!("{:?}", hash);
}

#[test]
fn custom_hash_map_update_and_find() {
    let mut m = CustomHashMap::new();
    assert!(m.find_page(3).is_none());
    m.update(3, "t", 7);
    assert_eq!(m.find_page(3), Some(&("t".to_string(), 7)));
    assert_eq!(m.find_idx("t", 7), Some(&3));
    assert_eq!(m.find_idx("t", 8), None);
    // a new page for slot 3 drops the old pair
    m.update(3, "u", 1);
    assert_eq!(m.find_idx("t", 7), None);
    assert_eq!(m.find_idx("u", 1), Some(&3));
    // the same page for another slot drops slot 3
    m.update(5, "u", 1);
    assert!(m.find_page(3).is_none());
    assert_eq!(m.find_idx("u", 1), Some(&5));
    m.erase(5);
    assert!(m.find_page(5).is_none());
    assert_eq!(m.find_idx("u", 1), None);
}

#[test]
fn bm_alloc_then_lookup_gives_same_slot() {
    let mut bm = BufManager::new();
    let f = bm.alloc_page(0, 0, true);
    assert_eq!(f.idx, 0);
    assert!(f.read);
    assert!(f.evicted.is_none());
    let g = bm.get_buf_id(0, 0);
    assert_eq!(g.idx, f.idx);
    assert!(!g.read);
    assert_eq!(bm.get_physical_page_pos(f.idx), (0, 0));
    let h = bm.get_buf_id(0, 1);
    assert!(h.read);
    assert_eq!(h.idx, 1);
    assert_eq!(bm.page_of_slot(1), Some((0, 1)));
}

#[test]
fn bm_slots_are_taken_in_order_and_reused_lru() {
    let mut bm = BufManager::new();
    for i in 0..BUF_PAGE_CAPACITY {
        let f = bm.alloc_page(1, i, false);
        assert_eq!(f.idx, i);
    }
    // every slot used once; the least recently used is slot 0 again
    let f = bm.alloc_page(2, 0, false);
    assert_eq!(f.idx, 0);
    // slot 1 is now the oldest; touching it makes slot 2 the victim
    bm.access(1);
    let f = bm.alloc_page(2, 1, false);
    assert_eq!(f.idx, 2);
}

#[test]
fn bm_dirty_slot_is_written_back_on_eviction() {
    let mut bm = BufManager::new();
    let f = bm.alloc_page(4, 9, false);
    bm.mark_dirty(f.idx);
    assert!(bm.is_dirty(f.idx));
    for i in 1..BUF_PAGE_CAPACITY {
        bm.alloc_page(5, i, false);
    }
    let g = bm.alloc_page(6, 0, false);
    assert_eq!(g.idx, f.idx);
    assert_eq!(g.evicted, Some((4, 9)));
    assert!(!bm.is_dirty(g.idx));
}

#[test]
fn bm_write_then_read() {
    let mut bm = BufManager::new();
    let f = bm.alloc_page(0, 0, false);
    let data = [b'a'; 10];
    bm.write(f.idx, &data, 5);
    assert!(bm.is_dirty(f.idx));
    assert_eq!(bm.read(f.idx, 5), &[0u8; 5]);
    assert_eq!(&bm.read(f.idx, 15)[5..15], &data);
    let page = vec![b'z'; PAGE_SIZE];
    bm.load_page(f.idx, &page);
    assert_eq!(bm.read(f.idx, PAGE_SIZE), &page[..]);
}

#[test]
fn bm_write_back_and_release() {
    let mut bm = BufManager::new();
    let f = bm.alloc_page(3, 2, false);
    assert_eq!(bm.write_back(f.idx), None);
    let f = bm.alloc_page(3, 2, false);
    bm.write(f.idx, &[1, 2, 3], 0);
    assert_eq!(bm.write_back(f.idx), Some((3, 2)));
    assert_eq!(bm.page_of_slot(f.idx), None);
    // a released slot is the next victim
    bm.alloc_page(7, 7, false);
    bm.release(5);
    let g = bm.alloc_page(8, 8, false);
    assert_eq!(g.idx, 5);
}

#[test]
fn bm_write_back_all_lists_dirty_slots() {
    let mut bm = BufManager::new();
    let a = bm.alloc_page(1, 10, false);
    let b = bm.alloc_page(1, 11, false);
    let c = bm.alloc_page(2, 12, false);
    bm.mark_dirty(c.idx);
    bm.mark_dirty(a.idx);
    let writes = bm.write_back_all();
    assert_eq!(writes, vec![(a.idx, (1, 10)), (c.idx, (2, 12))]);
    assert_eq!(bm.page_of_slot(b.idx), None);
    for i in 0..BUF_PAGE_CAPACITY {
        assert!(!bm.is_dirty(i));
    }
    // after freeing in increasing order the highest slot is first in line
    let f = bm.alloc_page(0, 0, false);
    assert_eq!(f.idx, BUF_PAGE_CAPACITY - 1);
}

#[test]
fn bm_write_back_by_file_id_frees_only_that_file() {
    let mut bm = BufManager::new();
    for i in 0..BUF_PAGE_CAPACITY {
        bm.alloc_page(i % 2, i, false);
    }
    bm.mark_dirty(2);
    bm.mark_dirty(3);
    let writes = bm.write_back_by_file_id(0);
    assert_eq!(writes, vec![(2, (0, 2))]);
    assert_eq!(bm.page_of_slot(0), None);
    assert_eq!(bm.page_of_slot(1), Some((1, 1)));
    assert!(bm.is_dirty(3));
}

#[test]
fn bm_access_after_moves_makes_slot_most_recent() {
    let mut bm = BufManager::new();
    bm.access(5);
    let f = bm.alloc_page(0, 0, false);
    assert_eq!(f.idx, 0);
    bm.access(5);
    for _ in 0..BUF_PAGE_CAPACITY - 2 {
        let g = bm.alloc_page(1, 1, false);
        assert!(g.idx != 0 && g.idx != 5);
    }
    assert_eq!(bm.alloc_page(2, 2, false).idx, 0);
    assert_eq!(bm.alloc_page(2, 3, false).idx, 5);
}

#[test]
fn bm_write_fills_last_slot_to_its_end() {
    let mut bm = BufManager::new();
    let last = BUF_PAGE_CAPACITY - 1;
    let page = vec![7u8; PAGE_SIZE];
    bm.write(last, &page, 0);
    assert_eq!(bm.read(last, PAGE_SIZE), &page[..]);
    assert!(bm.is_dirty(last));
    bm.write(last, &[], 0);
    assert_eq!(bm.read(last, 1), &[7u8]);
}
