use srdb::list::MultiList;

#[test]
fn list_test() {
    let mut li = MultiList::new(10, 1);
    li.insert_as_first(0, 1);
    assert_eq!(1, li.get_first(0));
    li.insert(0, 2);
    assert_eq!(1, li.get_first(0));
    li.insert_as_first(0, 2);
    assert_eq!(2, li.get_first(0));

    let f = li.get_first(0);
    assert_eq!(f, 2);
    let f = li.next(f);
    assert_eq!(f, 1);
    let f = li.next(f);
    assert!(li.is_head(f));
}

#[test]
fn list_empty_lists_point_to_their_heads() {
    let li = MultiList::new(4, 3);
    for l in 0..3 {
        assert_eq!(li.get_first(l), 4 + l);
        assert!(li.is_alone(4 + l));
        assert!(li.is_head(4 + l));
    }
    for e in 0..4 {
        assert!(li.is_alone(e));
        assert!(!li.is_head(e));
        assert_eq!(li.next(e), e);
    }
}

#[test]
fn list_insert_appends_at_tail() {
    let mut li = MultiList::new(5, 1);
    li.insert(0, 3);
    li.insert(0, 1);
    li.insert(0, 4);
    assert_eq!(li.get_first(0), 3);
    assert_eq!(li.next(3), 1);
    assert_eq!(li.next(1), 4);
    assert_eq!(li.next(4), 5);
    assert_eq!(li.next(5), 3);
    assert!(!li.is_alone(3));
}

#[test]
fn list_erase_unlinks_and_is_idempotent() {
    let mut li = MultiList::new(5, 1);
    li.insert(0, 0);
    li.insert(0, 1);
    li.insert(0, 2);
    li.erase(1);
    assert!(li.is_alone(1));
    assert_eq!(li.next(0), 2);
    li.erase(1);
    assert_eq!(li.next(0), 2);
    li.erase(0);
    li.erase(2);
    assert!(li.is_alone(5));
    assert_eq!(li.get_first(0), 5);
}

#[test]
fn list_insert_moves_between_lists() {
    let mut li = MultiList::new(3, 2);
    li.insert(0, 1);
    li.insert(0, 2);
    li.insert(1, 1);
    assert_eq!(li.get_first(0), 2);
    assert_eq!(li.next(2), 3);
    assert_eq!(li.get_first(1), 1);
    assert_eq!(li.next(1), 4);
    li.insert_as_first(1, 2);
    assert!(li.is_alone(3));
    assert_eq!(li.get_first(1), 2);
    assert_eq!(li.next(2), 1);
}

#[test]
fn list_reinsert_same_element_moves_it() {
    let mut li = MultiList::new(3, 1);
    li.insert(0, 0);
    li.insert(0, 1);
    li.insert(0, 0);
    assert_eq!(li.get_first(0), 1);
    assert_eq!(li.next(1), 0);
    assert_eq!(li.next(0), 3);
}
