use nimble::freelist::FreeList;

#[test]
fn lib_it_works() {
    let mut free_list = FreeList::new(4);
    assert_eq!(free_list.allocate(), Some(0));
    assert_eq!(free_list.allocate(), Some(1));
    assert_eq!(free_list.free(1), Ok(()));
    assert_eq!(free_list.free(1), Err("ID 1 is already freed".to_string()));
    assert_eq!(free_list.allocate(), Some(2));
    assert_eq!(free_list.allocate(), Some(3));
    assert_eq!(free_list.allocate(), Some(1));
    assert_eq!(free_list.allocate(), None);
}

#[test]
fn freed_ids_come_back_in_the_order_they_were_freed() {
    let mut free_list = FreeList::new(3);
    assert_eq!(free_list.allocate(), Some(0));
    assert_eq!(free_list.allocate(), Some(1));
    assert_eq!(free_list.free(1), Ok(()));
    assert_eq!(free_list.free(0), Ok(()));
    assert_eq!(free_list.allocate(), Some(2));
    assert_eq!(free_list.allocate(), Some(1));
    assert_eq!(free_list.allocate(), Some(0));
    assert_eq!(free_list.allocate(), None);
}

#[test]
fn freeing_a_free_id_is_refused() {
    let mut free_list = FreeList::new(2);
    assert_eq!(free_list.free(0), Err("ID 0 is already freed".to_string()));
    assert_eq!(free_list.allocate(), Some(0));
}
