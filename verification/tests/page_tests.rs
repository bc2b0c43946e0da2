use heapstore::page::Page;
use heapstore::PAGE_SIZE;
use rand::Rng;
use std::collections::VecDeque;

pub const FIXED_HEADER_SIZE: usize = 8;
pub const HEADER_PER_VAL_SIZE: usize = 6;

fn get_random_byte_vec(n: usize) -> Vec<u8> {
    let mut rng = rand::thread_rng();
    (0..n).map(|_| rng.gen()).collect()
}

fn get_ascending_vec_of_byte_vec_02x(n: usize, min: usize, max: usize) -> Vec<Vec<u8>> {
    let mut rng = rand::thread_rng();
    let mut res = Vec::new();
    for i in 0..n {
        let size = if min >= max { min } else { rng.gen_range(min..max) };
        let mut v = vec![(i % 256) as u8; size];
        if size > 1 {
            v[1] = (i / 256) as u8;
        }
        res.push(v);
    }
    res
}

fn compare_unordered_byte_vecs(a: &[Vec<u8>], mut b: Vec<Vec<u8>>) -> bool {
    let mut a2: Vec<Vec<u8>> = a.to_vec();
    a2.sort();
    b.sort();
    a2 == b
}

fn int_tuple_bytes(vals: Vec<i64>) -> Vec<u8> {
    serde_cbor::to_vec(&vals).unwrap()
}

#[test]
fn hs_page_create() {
    let p = Page::new(0);
    assert_eq!(0, p.get_page_id());
    assert_eq!(PAGE_SIZE - p.get_header_size(), p.get_free_space());
}

#[test]
fn debug_page_insert() {
    let mut p = Page::new(0);
    let n = 20;
    let size = 20;
    let vals = get_ascending_vec_of_byte_vec_02x(n, size, size);
    for x in &vals {
        p.add_value(x);
    }
    assert_eq!(
        p.get_free_space(),
        PAGE_SIZE - p.get_header_size() - n * size
    );
}

#[test]
fn hs_page_simple_insert() {
    let mut p = Page::new(0);
    let tuple_bytes = int_tuple_bytes(vec![0, 1, 2]);
    let byte_len = tuple_bytes.len();
    assert_eq!(Some(0), p.add_value(&tuple_bytes));
    assert_eq!(
        PAGE_SIZE - byte_len - p.get_header_size(),
        p.get_free_space()
    );
    let tuple_bytes2 = int_tuple_bytes(vec![0, 1, 2]);
    assert_eq!(Some(1), p.add_value(&tuple_bytes2));
    assert_eq!(
        PAGE_SIZE - p.get_header_size() - byte_len - byte_len,
        p.get_free_space()
    );
}

#[test]
fn hs_page_space() {
    let mut p = Page::new(0);
    let size = 10;
    let bytes = get_random_byte_vec(size);
    assert_eq!(10, bytes.len());
    assert_eq!(Some(0), p.add_value(&bytes));
    assert_eq!(PAGE_SIZE - p.get_header_size() - size, p.get_free_space());
    assert_eq!(Some(1), p.add_value(&bytes));
    assert_eq!(
        PAGE_SIZE - p.get_header_size() - size * 2,
        p.get_free_space()
    );
    assert_eq!(Some(2), p.add_value(&bytes));
    assert_eq!(
        PAGE_SIZE - p.get_header_size() - size * 3,
        p.get_free_space()
    );
}

#[test]
fn hs_page_get_value() {
    let mut p = Page::new(0);
    let tuple_bytes = int_tuple_bytes(vec![0, 1, 2]);
    assert_eq!(Some(0), p.add_value(&tuple_bytes));
    let check_bytes = p.get_value(0).unwrap();
    let check_tuple: Vec<i64> = serde_cbor::from_slice(&check_bytes).unwrap();
    assert_eq!(tuple_bytes, check_bytes);
    assert_eq!(vec![0, 1, 2], check_tuple);

    let tuple_bytes2 = int_tuple_bytes(vec![3, 3, 3]);
    assert_eq!(Some(1), p.add_value(&tuple_bytes2));
    let check_bytes2 = p.get_value(1).unwrap();
    let check_tuple2: Vec<i64> = serde_cbor::from_slice(&check_bytes2).unwrap();
    assert_eq!(tuple_bytes2, check_bytes2);
    assert_eq!(vec![3, 3, 3], check_tuple2);

    // Recheck
    let check_bytes2 = p.get_value(1).unwrap();
    let check_tuple2: Vec<i64> = serde_cbor::from_slice(&check_bytes2).unwrap();
    assert_eq!(tuple_bytes2, check_bytes2);
    assert_eq!(vec![3, 3, 3], check_tuple2);
    let check_bytes = p.get_value(0).unwrap();
    let check_tuple: Vec<i64> = serde_cbor::from_slice(&check_bytes).unwrap();
    assert_eq!(tuple_bytes, check_bytes);
    assert_eq!(vec![0, 1, 2], check_tuple);

    // Check that invalid slot gets None
    assert_eq!(None, p.get_value(2));
}

#[test]
fn hs_page_header_size_small() {
    // Testing that the header is no more than 8 bytes for the header, and 6 bytes per value inserted
    let mut p = Page::new(0);
    assert!(p.get_header_size() <= FIXED_HEADER_SIZE);
    let bytes = get_random_byte_vec(10);
    assert_eq!(Some(0), p.add_value(&bytes));
    assert!(p.get_header_size() <= FIXED_HEADER_SIZE + HEADER_PER_VAL_SIZE);
    assert_eq!(Some(1), p.add_value(&bytes));
    assert_eq!(Some(2), p.add_value(&bytes));
    assert_eq!(Some(3), p.add_value(&bytes));
    assert!(p.get_header_size() <= FIXED_HEADER_SIZE + HEADER_PER_VAL_SIZE * 4);
}

#[test]
fn hs_page_header_size_full() {
    let mut p = Page::new(0);
    assert!(p.get_header_size() <= FIXED_HEADER_SIZE);
    let byte_size = 10;
    let bytes = get_random_byte_vec(byte_size);
    // how many vals can we hold with 8 bytes
    let num_vals: usize = (PAGE_SIZE - FIXED_HEADER_SIZE) / (byte_size + HEADER_PER_VAL_SIZE);
    if PAGE_SIZE == 4096 && FIXED_HEADER_SIZE == 8 && HEADER_PER_VAL_SIZE == 6 {
        assert_eq!(255, num_vals);
    }
    for _ in 0..num_vals {
        p.add_value(&bytes);
    }
    assert!(p.get_header_size() <= FIXED_HEADER_SIZE + (num_vals * HEADER_PER_VAL_SIZE));
    assert!(
        p.get_free_space()
            >= PAGE_SIZE
                - (byte_size * num_vals)
                - FIXED_HEADER_SIZE
                - (num_vals * HEADER_PER_VAL_SIZE)
    );
}

#[test]
fn hs_page_no_space() {
    let mut p = Page::new(0);
    let size = PAGE_SIZE / 4;
    let bytes = get_random_byte_vec(size);
    assert_eq!(Some(0), p.add_value(&bytes));
    assert_eq!(PAGE_SIZE - p.get_header_size() - size, p.get_free_space());
    assert_eq!(Some(1), p.add_value(&bytes));
    assert_eq!(
        PAGE_SIZE - p.get_header_size() - size * 2,
        p.get_free_space()
    );
    assert_eq!(Some(2), p.add_value(&bytes));
    assert_eq!(
        PAGE_SIZE - p.get_header_size() - size * 3,
        p.get_free_space()
    );
    // Should reject here
    assert_eq!(None, p.add_value(&bytes));
    assert_eq!(
        PAGE_SIZE - p.get_header_size() - size * 3,
        p.get_free_space()
    );
    // Take small amount of data
    let small_bytes = get_random_byte_vec(size / 4);
    assert_eq!(Some(3), p.add_value(&small_bytes));
    assert_eq!(
        PAGE_SIZE - p.get_header_size() - size * 3 - small_bytes.len(),
        p.get_free_space()
    );
}

#[test]
pub fn hs_page_get_first_free_space() {
    let mut p = Page::new(0);
    let tuple_bytes = int_tuple_bytes(vec![0, 1, 2]);
    assert_eq!(Some(0), p.add_value(&tuple_bytes));
    let check_bytes = p.get_value(0).unwrap();
    let check_tuple: Vec<i64> = serde_cbor::from_slice(&check_bytes).unwrap();
    assert_eq!(tuple_bytes, check_bytes);
    assert_eq!(vec![0, 1, 2], check_tuple);
    // delete tuple
    p.delete_value(0);

    // check that after an arbitrary number of adds and deletes, the index
    // of free space matches our prediction
    assert_eq!(4095, p.helper_first_space());
    assert_eq!(Some(0), p.add_value(&vec![1, 1, 1]));
    assert_eq!(Some(1), p.add_value(&vec![1, 1]));
    assert_eq!(Some(2), p.add_value(&vec![1, 1, 1]));
    p.delete_value(1);
    assert_eq!(Some(1), p.add_value(&vec![1, 1, 1]));

    assert_eq!(4086, p.helper_first_space());
}

#[test]
fn hs_page_simple_delete() {
    let mut p = Page::new(0);
    let tuple_bytes = int_tuple_bytes(vec![0, 1, 2]);
    assert_eq!(Some(0), p.add_value(&tuple_bytes));
    let check_bytes = p.get_value(0).unwrap();
    assert_eq!(tuple_bytes, check_bytes);

    let tuple_bytes2 = int_tuple_bytes(vec![3, 3, 3]);
    assert_eq!(Some(1), p.add_value(&tuple_bytes2));
    let check_bytes2 = p.get_value(1).unwrap();
    assert_eq!(tuple_bytes2, check_bytes2);

    // Delete slot 0
    assert_eq!(Some(()), p.delete_value(0));

    // Recheck slot 1
    let check_bytes2 = p.get_value(1).unwrap();
    assert_eq!(tuple_bytes2, check_bytes2);

    // Verify slot 0 is gone
    assert_eq!(None, p.get_value(0));

    // Check that invalid slot gets None
    assert_eq!(None, p.get_value(2));

    // Delete slot 1
    assert_eq!(Some(()), p.delete_value(1));

    // Verify slot 1 is gone
    assert_eq!(None, p.get_value(1));
}

#[test]
fn hs_page_delete_insert() {
    let mut p = Page::new(0);
    let tuple_bytes = get_random_byte_vec(20);
    let tuple_bytes2 = get_random_byte_vec(20);
    let tuple_bytes3 = get_random_byte_vec(20);
    let tuple_bytes4 = get_random_byte_vec(20);
    let tuple_bytes_big = get_random_byte_vec(40);
    let tuple_bytes_small1 = get_random_byte_vec(5);
    let tuple_bytes_small2 = get_random_byte_vec(5);

    // Add 3 values
    assert_eq!(Some(0), p.add_value(&tuple_bytes));
    let check_bytes = p.get_value(0).unwrap();
    assert_eq!(tuple_bytes, check_bytes);
    assert_eq!(Some(1), p.add_value(&tuple_bytes2));

    let check_bytes = p.get_value(1).unwrap();
    assert_eq!(tuple_bytes2, check_bytes);
    assert_eq!(Some(2), p.add_value(&tuple_bytes3));

    let check_bytes = p.get_value(2).unwrap();
    assert_eq!(tuple_bytes3, check_bytes);

    // Delete slot 1
    assert_eq!(Some(()), p.delete_value(1));
    // Verify slot 1 is gone
    assert_eq!(None, p.get_value(1));

    let check_bytes = p.get_value(0).unwrap();
    assert_eq!(tuple_bytes, check_bytes);
    let check_bytes = p.get_value(2).unwrap();
    assert_eq!(tuple_bytes3, check_bytes);

    // Insert same bytes, should go to slot 1
    assert_eq!(Some(1), p.add_value(&tuple_bytes4));

    let check_bytes = p.get_value(1).unwrap();
    assert_eq!(tuple_bytes4, check_bytes);

    // Delete 0
    assert_eq!(Some(()), p.delete_value(0));

    // Insert big, should go to slot 0 with space later in free block
    assert_eq!(Some(0), p.add_value(&tuple_bytes_big));

    // Insert small, should go to 3
    assert_eq!(Some(3), p.add_value(&tuple_bytes_small1));

    // Insert small, should go to new
    assert_eq!(Some(4), p.add_value(&tuple_bytes_small2));
}

#[test]
fn hs_page_size() {
    let mut p = Page::new(2);
    let tuple_bytes = int_tuple_bytes(vec![0, 1, 2]);
    assert_eq!(Some(0), p.add_value(&tuple_bytes));

    let page_bytes = p.to_bytes();
    assert_eq!(PAGE_SIZE, page_bytes.len());
}

#[test]
fn hs_page_simple_byte_serialize() {
    let mut p = Page::new(0);
    let tuple_bytes = int_tuple_bytes(vec![0, 1, 2]);
    assert_eq!(Some(0), p.add_value(&tuple_bytes));
    let tuple_bytes2 = int_tuple_bytes(vec![3, 3, 3]);
    assert_eq!(Some(1), p.add_value(&tuple_bytes2));

    // Get bytes and create from bytes
    let bytes = p.to_bytes();
    let mut p2 = Page::from_bytes(&bytes);
    assert_eq!(0, p2.get_page_id());

    // Check reads
    let check_bytes2 = p2.get_value(1).unwrap();
    let check_tuple2: Vec<i64> = serde_cbor::from_slice(&check_bytes2).unwrap();
    assert_eq!(tuple_bytes2, check_bytes2);
    assert_eq!(vec![3, 3, 3], check_tuple2);
    let check_bytes = p2.get_value(0).unwrap();
    let check_tuple: Vec<i64> = serde_cbor::from_slice(&check_bytes).unwrap();
    assert_eq!(tuple_bytes, check_bytes);
    assert_eq!(vec![0, 1, 2], check_tuple);

    // Add a new tuple to the new page
    let tuple_bytes3 = int_tuple_bytes(vec![4, 3, 2]);
    assert_eq!(Some(2), p2.add_value(&tuple_bytes3));
    assert_eq!(tuple_bytes3, p2.get_value(2).unwrap());
    assert_eq!(tuple_bytes2, p2.get_value(1).unwrap());
    assert_eq!(tuple_bytes, p2.get_value(0).unwrap());
}

#[test]
fn hs_page_iter() {
    let mut p = Page::new(0);
    let tuple_bytes = int_tuple_bytes(vec![0, 0, 1]);
    assert_eq!(Some(0), p.add_value(&tuple_bytes));

    let tuple_bytes2 = int_tuple_bytes(vec![0, 0, 2]);
    assert_eq!(Some(1), p.add_value(&tuple_bytes2));

    let tuple_bytes3 = int_tuple_bytes(vec![0, 0, 3]);
    assert_eq!(Some(2), p.add_value(&tuple_bytes3));

    let tuple_bytes4 = int_tuple_bytes(vec![0, 0, 4]);
    assert_eq!(Some(3), p.add_value(&tuple_bytes4));

    let tup_vec = vec![
        tuple_bytes.clone(),
        tuple_bytes2.clone(),
        tuple_bytes3.clone(),
        tuple_bytes4.clone(),
    ];
    let page_bytes = p.to_bytes();

    // Test iteration 1
    let mut iter = p.into_iter();
    assert_eq!(Some((tuple_bytes.clone(), 0)), iter.next());
    assert_eq!(Some((tuple_bytes2.clone(), 1)), iter.next());
    assert_eq!(Some((tuple_bytes3.clone(), 2)), iter.next());
    assert_eq!(Some((tuple_bytes4.clone(), 3)), iter.next());
    assert_eq!(None, iter.next());

    // Check another way
    let p = Page::from_bytes(&page_bytes);
    assert_eq!(Some(tuple_bytes.clone()), p.get_value(0));

    let mut iter = p.into_iter();
    let mut i = 0;
    while let Some(x) = iter.next() {
        assert_eq!(tup_vec[i], x.0);
        i += 1;
    }

    let p = Page::from_bytes(&page_bytes);
    let mut count = 0;
    let mut iter = p.into_iter();
    while iter.next().is_some() {
        count += 1;
    }
    assert_eq!(count, 4);

    // Add a value and check
    let mut p = Page::from_bytes(&page_bytes);
    assert_eq!(Some(4), p.add_value(&tuple_bytes));
    // get the updated bytes
    let page_bytes = p.to_bytes();
    count = 0;
    let mut iter = p.into_iter();
    while iter.next().is_some() {
        count += 1;
    }
    assert_eq!(count, 5);

    // Delete
    let mut p = Page::from_bytes(&page_bytes);
    p.delete_value(2);
    let mut iter = p.into_iter();
    assert_eq!(Some((tuple_bytes.clone(), 0)), iter.next());
    assert_eq!(Some((tuple_bytes2.clone(), 1)), iter.next());
    assert_eq!(Some((tuple_bytes4.clone(), 3)), iter.next());
    assert_eq!(Some((tuple_bytes.clone(), 4)), iter.next());
    assert_eq!(None, iter.next());
}

#[test]
pub fn hs_page_test_delete_reclaim_same_size() {
    let size = 800;
    let values = get_ascending_vec_of_byte_vec_02x(6, size, size);
    let mut p = Page::new(0);
    assert_eq!(Some(0), p.add_value(&values[0]));
    assert_eq!(Some(1), p.add_value(&values[1]));
    assert_eq!(Some(2), p.add_value(&values[2]));
    assert_eq!(Some(3), p.add_value(&values[3]));
    assert_eq!(Some(4), p.add_value(&values[4]));
    assert_eq!(values[0], p.get_value(0).unwrap());
    assert_eq!(None, p.add_value(&values[0]));
    assert_eq!(Some(()), p.delete_value(1));
    assert_eq!(None, p.get_value(1));
    assert_eq!(Some(1), p.add_value(&values[5]));
    assert_eq!(values[5], p.get_value(1).unwrap());
}

#[test]
pub fn hs_page_test_delete_reclaim_larger_size() {
    let size = 500;
    let values = get_ascending_vec_of_byte_vec_02x(8, size, size);
    let larger_val = get_random_byte_vec(size * 2 - 20);
    let mut p = Page::new(0);
    assert_eq!(Some(0), p.add_value(&values[0]));
    assert_eq!(Some(1), p.add_value(&values[1]));
    assert_eq!(Some(2), p.add_value(&values[2]));
    assert_eq!(Some(3), p.add_value(&values[3]));
    assert_eq!(Some(4), p.add_value(&values[4]));
    assert_eq!(Some(5), p.add_value(&values[5]));
    assert_eq!(Some(6), p.add_value(&values[6]));
    assert_eq!(Some(7), p.add_value(&values[7]));
    assert_eq!(values[5], p.get_value(5).unwrap());
    assert_eq!(None, p.add_value(&values[0]));
    assert_eq!(Some(()), p.delete_value(1));
    assert_eq!(None, p.get_value(1));
    assert_eq!(Some(()), p.delete_value(6));
    assert_eq!(None, p.get_value(6));
    assert_eq!(Some(1), p.add_value(&larger_val));
    assert_eq!(larger_val, p.get_value(1).unwrap());
}

#[test]
pub fn hs_page_test_delete_reclaim_smaller_size() {
    let size = 800;
    let values = vec![
        get_random_byte_vec(size),
        get_random_byte_vec(size),
        get_random_byte_vec(size),
        get_random_byte_vec(size),
        get_random_byte_vec(size),
        get_random_byte_vec(size / 4),
    ];
    let mut p = Page::new(0);
    assert_eq!(Some(0), p.add_value(&values[0]));
    assert_eq!(Some(1), p.add_value(&values[1]));
    assert_eq!(Some(2), p.add_value(&values[2]));
    assert_eq!(Some(3), p.add_value(&values[3]));
    assert_eq!(Some(4), p.add_value(&values[4]));
    assert_eq!(values[0], p.get_value(0).unwrap());
    assert_eq!(None, p.add_value(&values[0]));
    assert_eq!(Some(()), p.delete_value(1));
    assert_eq!(None, p.get_value(1));
    assert_eq!(Some(1), p.add_value(&values[5]));
    assert_eq!(values[5], p.get_value(1).unwrap());
}

#[test]
pub fn hs_page_test_multi_ser() {
    let size = 500;
    let values = vec![
        get_random_byte_vec(size),
        get_random_byte_vec(size),
        get_random_byte_vec(size),
        get_random_byte_vec(size),
        get_random_byte_vec(size),
        get_random_byte_vec(size),
        get_random_byte_vec(size),
        get_random_byte_vec(size),
    ];
    let mut p = Page::new(0);
    assert_eq!(Some(0), p.add_value(&values[0]));
    assert_eq!(Some(1), p.add_value(&values[1]));
    assert_eq!(Some(2), p.add_value(&values[2]));
    let bytes = p.to_bytes();
    let mut p2 = Page::from_bytes(&bytes);
    assert_eq!(values[0], p2.get_value(0).unwrap());
    assert_eq!(values[1], p2.get_value(1).unwrap());
    assert_eq!(values[2], p2.get_value(2).unwrap());
    assert_eq!(Some(3), p2.add_value(&values[3]));
    assert_eq!(Some(4), p2.add_value(&values[4]));

    let bytes2 = p2.to_bytes();
    let mut p3 = Page::from_bytes(&bytes2);
    assert_eq!(values[0], p3.get_value(0).unwrap());
    assert_eq!(values[1], p3.get_value(1).unwrap());
    assert_eq!(values[2], p3.get_value(2).unwrap());
    assert_eq!(values[3], p3.get_value(3).unwrap());
    assert_eq!(values[4], p3.get_value(4).unwrap());
    assert_eq!(Some(5), p3.add_value(&values[5]));
    assert_eq!(Some(6), p3.add_value(&values[6]));
    assert_eq!(Some(7), p3.add_value(&values[7]));
    assert_eq!(None, p3.add_value(&values[0]));

    let bytes3 = p3.to_bytes();
    let p4 = Page::from_bytes(&bytes3);
    assert_eq!(values[0], p4.get_value(0).unwrap());
    assert_eq!(values[1], p4.get_value(1).unwrap());
    assert_eq!(values[2], p4.get_value(2).unwrap());
    assert_eq!(values[7], p4.get_value(7).unwrap());
}

#[test]
pub fn hs_page_stress_test() {
    let mut p = Page::new(23);
    let mut original_vals: VecDeque<Vec<u8>> =
        VecDeque::from_iter(get_ascending_vec_of_byte_vec_02x(300, 20, 100));
    let mut stored_vals: Vec<Vec<u8>> = Vec::new();
    let mut stored_slots: Vec<u16> = Vec::new();
    let mut has_space = true;
    let mut rng = rand::thread_rng();

    // Load up page until full
    while has_space {
        let bytes = original_vals
            .pop_front()
            .expect("ran out of data -- shouldn't happen");
        let slot = p.add_value(&bytes);
        match slot {
            Some(slot_id) => {
                stored_vals.push(bytes);
                stored_slots.push(slot_id);
            }
            None => {
                original_vals.push_front(bytes);
                has_space = false;
            }
        };
    }
    let bytes = p.to_bytes();
    let p_clone = Page::from_bytes(&bytes);
    let mut check_vals: Vec<Vec<u8>> = Vec::new();
    let mut iter = p_clone.into_iter();
    while let Some((v, _)) = iter.next() {
        check_vals.push(v);
    }
    assert!(compare_unordered_byte_vecs(&stored_vals, check_vals));

    // Delete and add remaining values until goes through all.
    while !original_vals.is_empty() {
        let bytes = original_vals.pop_front().unwrap();
        let mut added = false;
        while !added {
            let try_slot = p.add_value(&bytes);
            match try_slot {
                Some(new_slot) => {
                    stored_slots.push(new_slot);
                    stored_vals.push(bytes.clone());
                    let bytes = p.to_bytes();
                    let p_clone = Page::from_bytes(&bytes);
                    let mut check_vals: Vec<Vec<u8>> = Vec::new();
                    let mut iter = p_clone.into_iter();
                    while let Some((v, _)) = iter.next() {
                        check_vals.push(v);
                    }
                    assert!(compare_unordered_byte_vecs(&stored_vals, check_vals));
                    added = true;
                }
                None => {
                    let random_idx = rng.gen_range(0..stored_slots.len());
                    let value_id_to_del = stored_slots.remove(random_idx);
                    stored_vals.remove(random_idx);
                    p.delete_value(value_id_to_del)
                        .expect("Error deleting slot_id");
                }
            }
        }
    }
}

#[test]
fn page_compare_page_diff_runs() {
    let mut p = Page::new(7);
    let bytes = get_random_byte_vec(64);
    assert_eq!(Some(0), p.add_value(&bytes));
    let same = p.to_bytes();
    assert_eq!(0, p.compare_page(same).len());

    let mut other = p.to_bytes();
    other[100] ^= 0xff;
    other[101] ^= 0xff;
    let diffs = p.compare_page(other);
    assert_eq!(1, diffs.len());
    assert_eq!(100, diffs[0].0);
    assert_eq!(2, diffs[0].1.len());
}

#[test]
fn page_try_from_bytes_rejects_garbage() {
    // wrong length
    assert!(Page::try_from_bytes(&vec![0u8; 10]).is_none());
    // open-slot flag out of range
    let mut buf = vec![0u8; PAGE_SIZE];
    buf[2] = 7;
    assert!(Page::try_from_bytes(&buf).is_none());
    // a serialized page decodes
    let mut p = Page::new(3);
    p.add_value(&vec![9u8; 33]);
    let good = p.to_bytes();
    let p2 = Page::try_from_bytes(&good).unwrap();
    assert_eq!(vec![9u8; 33], p2.get_value(0).unwrap());
}
