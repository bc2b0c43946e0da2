use heapstore::heapfile::HeapFile;
use heapstore::ids::{CrustyError, Permissions, TransactionId, ValueId};
use heapstore::page::Page;
use heapstore::storage_manager::{parse_cmap, StorageManager};
use rand::Rng;

fn get_random_byte_vec(n: usize) -> Vec<u8> {
    let mut rng = rand::thread_rng();
    (0..n).map(|_| rng.gen()).collect()
}

fn get_random_vec_of_byte_vec(n: usize, min: usize, max: usize) -> Vec<Vec<u8>> {
    let mut rng = rand::thread_rng();
    (0..n)
        .map(|_| get_random_byte_vec(rng.gen_range(min..max)))
        .collect()
}

#[test]
fn hs_sm_basic_read_write() {
    let mut sm = StorageManager::new_test_sm();
    let cid = 1;
    sm.create_table(cid).unwrap();
    let tid = TransactionId::new();
    let page_id = 0;

    let bytes = get_random_byte_vec(40);

    let mut page = Page::new(page_id);
    page.add_value(&bytes);

    // write a page with the storage manager into the only container
    sm.write_page(cid, page, tid).unwrap();

    // check that the page we get from the heap file matches the original page
    let page2 = sm
        .get_page(cid, 0, tid, Permissions::ReadOnly, false)
        .expect("Unable to get page from heapfile");
    assert_eq!(bytes, page2.get_value(0).unwrap());
}

#[test]
fn hs_sm_a_insert() {
    let mut sm = StorageManager::new_test_sm();
    let cid = 1;
    sm.create_table(cid).unwrap();

    let bytes = get_random_byte_vec(40);
    let tid = TransactionId::new();

    let val1 = sm.insert_value(cid, bytes.clone(), tid);
    assert_eq!(1, sm.get_num_pages(cid));
    assert_eq!(0, val1.page_id.unwrap());
    assert_eq!(0, val1.slot_id.unwrap());

    let p1 = sm
        .get_page(cid, 0, tid, Permissions::ReadOnly, false)
        .unwrap();

    let val2 = sm.insert_value(cid, vec![1], tid);
    assert_eq!(1, sm.get_num_pages(cid));
    assert_eq!(0, val2.page_id.unwrap());
    assert_eq!(1, val2.slot_id.unwrap());

    let p2 = sm
        .get_page(cid, 0, tid, Permissions::ReadOnly, false)
        .unwrap();

    // the page must have changed between the inserts
    assert_ne!(p1.to_bytes()[..], p2.to_bytes()[..]);
}

#[test]
fn hs_sm_b_iter_small() {
    let mut sm = StorageManager::new_test_sm();
    let cid = 1;
    sm.create_table(cid).unwrap();
    let tid = TransactionId::new();

    // Test one page
    let mut byte_vec: Vec<Vec<u8>> = vec![
        get_random_byte_vec(400),
        get_random_byte_vec(400),
        get_random_byte_vec(400),
    ];
    for val in &byte_vec {
        sm.insert_value(cid, val.clone(), tid);
    }
    let mut iter = sm.get_iterator(cid, tid, Permissions::ReadOnly);
    let mut i = 0;
    while let Some(x) = iter.next() {
        assert_eq!(byte_vec[i], x.0);
        i += 1;
    }

    // Should be on two pages
    let mut byte_vec2: Vec<Vec<u8>> = vec![
        get_random_byte_vec(400),
        get_random_byte_vec(400),
        get_random_byte_vec(400),
        get_random_byte_vec(400),
    ];

    for val in &byte_vec2 {
        sm.insert_value(cid, val.clone(), tid);
    }
    byte_vec.append(&mut byte_vec2);

    let mut iter = sm.get_iterator(cid, tid, Permissions::ReadOnly);
    let mut i = 0;
    while let Some(x) = iter.next() {
        assert_eq!(byte_vec[i], x.0);
        i += 1;
    }

    // Should be on 3 pages
    let mut byte_vec2: Vec<Vec<u8>> = vec![
        get_random_byte_vec(300),
        get_random_byte_vec(500),
        get_random_byte_vec(400),
    ];

    for val in &byte_vec2 {
        sm.insert_value(cid, val.clone(), tid);
    }
    byte_vec.append(&mut byte_vec2);

    let mut iter = sm.get_iterator(cid, tid, Permissions::ReadOnly);
    let mut i = 0;
    while let Some(x) = iter.next() {
        assert_eq!(byte_vec[i], x.0);
        i += 1;
    }
}

#[test]
fn sm_insert_delete_update() {
    let mut sm = StorageManager::new_test_sm();
    let cid = 3;
    sm.create_table(cid).unwrap();
    let tid = TransactionId::new();

    let a = get_random_byte_vec(100);
    let b = get_random_byte_vec(200);
    let va = sm.insert_value(cid, a.clone(), tid);
    let vb = sm.insert_value(cid, b.clone(), tid);
    assert_eq!(a, sm.get_value(va, tid, Permissions::ReadOnly).unwrap());
    assert_eq!(b, sm.get_value(vb, tid, Permissions::ReadOnly).unwrap());

    // delete is total: deleting twice still succeeds
    sm.delete_value(va, tid).unwrap();
    assert!(sm.get_value(va, tid, Permissions::ReadOnly).is_err());
    sm.delete_value(va, tid).unwrap();
    assert_eq!(b, sm.get_value(vb, tid, Permissions::ReadOnly).unwrap());

    let c = get_random_byte_vec(150);
    let vc = sm.update_value(c.clone(), vb, tid).unwrap();
    assert_eq!(c, sm.get_value(vc, tid, Permissions::ReadOnly).unwrap());
}

#[test]
fn sm_insert_values_order() {
    let mut sm = StorageManager::new_test_sm();
    let cid = 2;
    sm.create_table(cid).unwrap();
    let tid = TransactionId::new();
    let vals = get_random_vec_of_byte_vec(100, 40, 400);
    let ids = sm.insert_values(cid, vals.clone(), tid);
    assert_eq!(vals.len(), ids.len());
    for (v, id) in vals.iter().zip(ids.iter()) {
        assert_eq!(
            *v,
            sm.get_value(*id, tid, Permissions::ReadOnly).unwrap()
        );
    }
    let mut iter = sm.get_iterator(cid, tid, Permissions::ReadOnly);
    let mut count = 0;
    while iter.next().is_some() {
        count += 1;
    }
    assert_eq!(100, count);
}

#[test]
fn sm_shutdown_restart() {
    // Build a manager, spread values over several containers, persist its
    // sidecar bytes and container images, and rebuild a fresh manager from
    // them: every value id resolves to the same bytes and the page counts
    // match.
    let mut sm = StorageManager::new_test_sm();
    let tid = TransactionId::new();
    let cids = vec![1u16, 5, 9];
    for cid in &cids {
        sm.create_table(*cid).unwrap();
    }
    let mut stored: Vec<(heapstore::ids::ValueId, Vec<u8>)> = Vec::new();
    let mut rng = rand::thread_rng();
    for i in 0..300 {
        let cid = cids[i % 3];
        let v = get_random_byte_vec(rng.gen_range(40..400));
        let id = sm.insert_value(cid, v.clone(), tid);
        stored.push((id, v));
    }

    // the shutdown sidecar and the per-container file images
    let cmap_bytes = sm.shutdown_bytes();
    let mut files: Vec<(u16, Vec<u8>)> = Vec::new();
    for (cid, hf) in &sm.containers {
        files.push((*cid, hf.image_bytes().clone()));
    }
    let pages_before: Vec<u16> = cids.iter().map(|c| sm.get_num_pages(*c)).collect();

    // restart
    let restored_ids = parse_cmap(&cmap_bytes).expect("sidecar bytes must decode");
    assert_eq!(cids, restored_ids);
    let mut sm2 = StorageManager::new();
    for cid in &restored_ids {
        let image = files.iter().find(|(c, _)| c == cid).unwrap().1.clone();
        let hf = HeapFile::from_image(*cid, image).expect("persisted image must be well-formed");
        sm2.attach_container(hf).unwrap();
    }

    for (id, v) in &stored {
        assert_eq!(
            *v,
            sm2.get_value(*id, tid, Permissions::ReadOnly).unwrap()
        );
    }
    let pages_after: Vec<u16> = cids.iter().map(|c| sm2.get_num_pages(*c)).collect();
    assert_eq!(pages_before, pages_after);
}

#[test]
fn sm_remove_container() {
    let mut sm = StorageManager::new_test_sm();
    sm.create_table(1).unwrap();
    sm.create_table(2).unwrap();
    assert!(sm.remove_container(1).is_ok());
    assert!(sm.remove_container(1).is_err());
    let tid = TransactionId::new();
    let v = sm.insert_value(2, vec![1, 2, 3], tid);
    assert_eq!(
        vec![1, 2, 3],
        sm.get_value(v, tid, Permissions::ReadOnly).unwrap()
    );
}

#[test]
fn sm_missing_targets() {
    let mut sm = StorageManager::new_test_sm();
    sm.create_table(1).unwrap();
    let tid = TransactionId::new();
    let v = sm.insert_value(1, vec![9u8; 16], tid);

    // absent container
    let ghost_id = ValueId { container_id: 7, page_id: Some(0), slot_id: Some(0) };
    assert_eq!(
        Err(CrustyError::ContainerNotFound),
        sm.get_value(ghost_id, tid, Permissions::ReadOnly)
    );
    assert_eq!(Ok(()), sm.delete_value(ghost_id, tid));
    assert_eq!(
        Err(CrustyError::ContainerNotFound),
        sm.update_value(vec![1, 2], ghost_id, tid)
    );

    // absent page
    let no_page = ValueId { container_id: 1, page_id: Some(9), slot_id: Some(0) };
    assert_eq!(
        Err(CrustyError::PageNotFound),
        sm.get_value(no_page, tid, Permissions::ReadOnly)
    );
    assert_eq!(Ok(()), sm.delete_value(no_page, tid));
    assert_eq!(
        Err(CrustyError::PageNotFound),
        sm.update_value(vec![1, 2], no_page, tid)
    );

    // dead slot
    let no_slot = ValueId { container_id: 1, page_id: Some(0), slot_id: Some(5) };
    assert_eq!(
        Err(CrustyError::ValueNotFound),
        sm.get_value(no_slot, tid, Permissions::ReadOnly)
    );
    assert_eq!(Ok(()), sm.delete_value(no_slot, tid));

    // id fields left out
    let bare = ValueId { container_id: 1, page_id: None, slot_id: None };
    assert_eq!(
        Err(CrustyError::PageNotFound),
        sm.get_value(bare, tid, Permissions::ReadOnly)
    );
    assert_eq!(Ok(()), sm.delete_value(bare, tid));

    // the stored value is untouched by all of the misses
    assert_eq!(
        vec![9u8; 16],
        sm.get_value(v, tid, Permissions::ReadOnly).unwrap()
    );
}

#[test]
fn sm_page_debug_hex() {
    let mut sm = StorageManager::new_test_sm();
    sm.create_table(1).unwrap();
    let tid = TransactionId::new();
    sm.insert_value(1, vec![7u8; 10], tid);
    let s = sm.get_page_debug(1, 0);
    assert_eq!(2 * 4096, s.len());
    // page id 0 little-endian, then the open-slot flag byte 1
    assert!(s.starts_with("000001"));
    let raw = sm.get_page_bytes(1, 0);
    assert_eq!(4096, raw.len());
    // absent page: empty dump
    assert_eq!("", sm.get_page_debug(1, 5));
}
