use srdb::file_ids::{parse_file_ids, render_file_ids};
use srdb::fm::FileManager;
use srdb::page::FileInfoPage;
use srdb::rm::RecordManager;
use srdb::constants::{BUF_PAGE_CAPACITY, PAGE_SIZE};

#[test]
fn fm_create_and_lookup() {
    let mut fm = FileManager::new();
    assert_eq!(fm.file_path("t"), None);
    fm.use_db("db", &Vec::new());
    let a = fm.create_file("a.table");
    let b = fm.create_file("b.table");
    assert_eq!(a, 0);
    assert_eq!(b, 1);
    assert_eq!(fm.get_file_id("a.table".to_string()), 0);
    assert_eq!(fm.get_file_id("b.table".to_string()), 1);
    assert_eq!(fm.file_name(1), Some(&"b.table".to_string()));
    assert_eq!(fm.file_name(2), None);
}

#[test]
fn fm_remove_file() {
    let mut fm = FileManager::new();
    fm.use_db("db", &Vec::new());
    fm.create_file("a");
    assert_eq!(fm.remove_file("a"), Ok(()));
    assert_eq!(fm.remove_file("a"), Err("file not exist"));
    assert_eq!(fm.file_name(0), None);
    // ids are not reused
    assert_eq!(fm.create_file("a"), 1);
}

#[test]
fn fm_use_db_loads_entries() {
    let mut fm = FileManager::new();
    let entries = parse_file_ids("x 3\ny 1\n").unwrap();
    fm.use_db("db", &entries);
    assert_eq!(fm.get_file_id("x".to_string()), 3);
    assert_eq!(fm.get_file_id("y".to_string()), 1);
    assert_eq!(fm.create_file("z"), 4);
    assert_eq!(fm.file_path("z"), Some("db/z".to_string()));
}

#[test]
fn fm_page_offset() {
    assert_eq!(FileManager::page_offset(0), 0);
    assert_eq!(FileManager::page_offset(3), 3 * 8192);
}

#[test]
fn file_ids_parse_cases() {
    assert_eq!(parse_file_ids(""), Some(vec![]));
    assert_eq!(
        parse_file_ids("a 1\nb +22\n"),
        Some(vec![("a".to_string(), 1), ("b".to_string(), 22)])
    );
    assert_eq!(parse_file_ids("  \t a\t 7  \n"), Some(vec![("a".to_string(), 7)]));
    assert_eq!(parse_file_ids("   "), None);
    assert_eq!(parse_file_ids("a"), None);
    assert_eq!(parse_file_ids("a 1 2"), None);
    assert_eq!(parse_file_ids("a x"), None);
    assert_eq!(parse_file_ids("a -1"), None);
    assert_eq!(parse_file_ids("a +"), None);
    assert_eq!(parse_file_ids("a 1\n\nb 2"), None);
    assert_eq!(parse_file_ids("a 99999999999999999999999"), None);
}

#[test]
fn file_ids_render_then_parse() {
    let entries = vec![("t1".to_string(), 0), ("t2".to_string(), 10), ("z".to_string(), 305)];
    let text = render_file_ids(&entries);
    assert_eq!(text, "t1 0\nt2 10\nz 305\n");
    assert_eq!(parse_file_ids(&text), Some(entries));
}

#[test]
fn fm_entries_then_render() {
    let mut fm = FileManager::new();
    fm.use_db("db", &Vec::new());
    fm.create_file("only");
    let text = render_file_ids(&fm.file_entries());
    assert_eq!(text, "only 0\n");
}

#[test]
fn info_page_bytes_round_trip() {
    let mut info = FileInfoPage::test_new();
    assert_eq!(info.column_num, 0);
    info.column_num = 10;
    info.page_num = 0;
    info.record_len = 5;
    info.record_num = 0x01020304;
    let bytes = info.to_bytes();
    assert_eq!(bytes.len(), 16);
    assert_eq!(&bytes[4..8], &[4, 3, 2, 1]);
    let back = FileInfoPage::from_bytes(&bytes);
    assert_eq!(back.column_num, 10);
    assert_eq!(back.page_num, 0);
    assert_eq!(back.record_len, 5);
    assert_eq!(back.record_num, 0x01020304);
}

#[test]
fn rm_info_page_through_buffer() {
    let mut rm = RecordManager::new();
    rm.bm.fm.use_db("tmp_db", &Vec::new());
    let file_id = rm.bm.fm.create_file("tmp.table");
    assert_eq!(rm.get_file_id("tmp.table"), file_id);
    let page_zero = rm.bm.alloc_page(file_id, 0, false).idx;
    let mut info = FileInfoPage::test_new();
    info.column_num = 10;
    info.record_len = 5;
    rm.bm.write(page_zero, &info.to_bytes(), 0);
    let back = FileInfoPage::from_bytes(rm.bm.read(page_zero, 16));
    assert_eq!(back.column_num, 10);
    assert_eq!(back.record_len, 5);
    assert_eq!(rm.remove_file("tmp.table"), Ok(()));
    assert_eq!(rm.remove_file("tmp.table"), Err("file not exist"));
}

#[test]
fn fm_create_same_name_moves_it_to_a_new_id() {
    let mut fm = FileManager::new();
    fm.use_db("db", &Vec::new());
    assert_eq!(fm.create_file("a"), 0);
    assert_eq!(fm.create_file("b"), 1);
    assert_eq!(fm.create_file("a"), 2);
    assert_eq!(fm.find_file_id("a"), Some(2));
    assert_eq!(fm.find_file_id("b"), Some(1));
    assert_eq!(fm.file_name(0), None);
    assert_eq!(fm.next_id(), 3);
}

#[test]
fn rm_create_file_writes_info_and_zero_pages() {
    let mut rm = RecordManager::new();
    rm.bm.fm.use_db("tmp_db", &Vec::new());
    assert!(rm.can_create_file());
    let mut info = FileInfoPage::test_new();
    info.column_num = 10;
    info.record_len = 5;
    let (file_id, writes) = rm.create_file("tmp.table", &info);
    assert_eq!(file_id, 0);
    assert_eq!(rm.get_file_id("tmp.table"), 0);
    assert_eq!(writes.len(), 2);
    assert_eq!(writes[0].0, (0, 0));
    assert_eq!(writes[0].1.len(), PAGE_SIZE);
    let back = FileInfoPage::from_bytes(&writes[0].1);
    assert_eq!(back.column_num, 10);
    assert_eq!(back.record_len, 5);
    assert_eq!(writes[1].0, (0, 1));
    assert_eq!(writes[1].1, vec![0u8; PAGE_SIZE]);
    assert_eq!(rm.bm.page_of_slot(0), None);
    assert_eq!(rm.bm.page_of_slot(1), None);
    // the two freed slots are taken next, the later one first
    assert_eq!(rm.bm.alloc_page(0, 0, true).idx, 1);
}

#[test]
fn rm_create_file_reports_evicted_pages() {
    let mut rm = RecordManager::new();
    rm.bm.fm.use_db("tmp_db", &Vec::new());
    for i in 0..BUF_PAGE_CAPACITY {
        let f = rm.bm.alloc_page(7, i, false);
        rm.bm.write(f.idx, &[i as u8], 0);
    }
    let (_, writes) = rm.create_file("t", &FileInfoPage::test_new());
    assert_eq!(writes.len(), 4);
    assert_eq!(writes[0].0, (7, 0));
    assert_eq!(writes[0].1[0], 0);
    assert_eq!(writes[1].0, (7, 1));
    assert_eq!(writes[1].1[0], 1);
    assert_eq!(writes[2].0, (0, 0));
    assert_eq!(writes[3].0, (0, 1));
}
