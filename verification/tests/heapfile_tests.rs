use heapstore::heapfile::HeapFile;
use heapstore::heapfileiter::HeapFileIterator;
use heapstore::ids::TransactionId;
use heapstore::page::Page;
use rand::Rng;

fn get_random_byte_vec(n: usize) -> Vec<u8> {
    let mut rng = rand::thread_rng();
    (0..n).map(|_| rng.gen()).collect()
}

#[test]
fn hs_hf_insert() {
    let mut hf = HeapFile::new(0);

    // Make a page and write
    let mut p0 = Page::new(0);
    let bytes = get_random_byte_vec(100);
    p0.add_value(&bytes);
    let bytes = get_random_byte_vec(100);
    p0.add_value(&bytes);
    let bytes = get_random_byte_vec(100);
    p0.add_value(&bytes);
    let p0_bytes = p0.to_bytes();

    hf.write_page_to_file(p0).unwrap();
    // check the page
    assert_eq!(1, hf.num_pages());
    let checkp0 = hf.read_page_from_file(0).unwrap();
    assert_eq!(p0_bytes, checkp0.to_bytes());

    // Add another page
    let mut p1 = Page::new(1);
    let bytes = get_random_byte_vec(100);
    p1.add_value(&bytes);
    let bytes = get_random_byte_vec(100);
    p1.add_value(&bytes);
    let bytes = get_random_byte_vec(100);
    p1.add_value(&bytes);
    let p1_bytes = p1.to_bytes();

    hf.write_page_to_file(p1).unwrap();

    assert_eq!(2, hf.num_pages());
    // Recheck page0
    let checkp0 = hf.read_page_from_file(0).unwrap();
    assert_eq!(p0_bytes, checkp0.to_bytes());

    // check page 1
    let checkp1 = hf.read_page_from_file(1).unwrap();
    assert_eq!(p1_bytes, checkp1.to_bytes());
}

#[test]
fn hs_hf_iter() {
    let mut hf = HeapFile::new(0);

    // Make a page and write
    let mut p0 = Page::new(0);
    let bytes1 = get_random_byte_vec(100);
    p0.add_value(&bytes1);
    let bytes2 = get_random_byte_vec(100);
    p0.add_value(&bytes2);
    let bytes3 = get_random_byte_vec(100);
    p0.add_value(&bytes3);
    let p0_bytes = p0.to_bytes();

    hf.write_page_to_file(p0).unwrap();
    // check the page
    assert_eq!(1, hf.num_pages());
    let checkp0 = hf.read_page_from_file(0).unwrap();
    assert_eq!(p0_bytes, checkp0.to_bytes());

    // Add another page
    let mut p1 = Page::new(1);
    let bytes11 = get_random_byte_vec(100);
    p1.add_value(&bytes11);
    let bytes12 = get_random_byte_vec(100);
    p1.add_value(&bytes12);
    let bytes = get_random_byte_vec(100);
    p1.add_value(&bytes);

    hf.write_page_to_file(p1).unwrap();

    // create iterator
    let mut iter = HeapFileIterator::new(TransactionId::new(), hf);

    // check that each value matches the corresponding value in the page
    assert_eq!(iter.next().unwrap().0, bytes1);
    assert_eq!(iter.next().unwrap().0, bytes2);
    assert_eq!(iter.next().unwrap().0, bytes3);
    assert_eq!(iter.next().unwrap().0, bytes11);
    assert_eq!(iter.next().unwrap().0, bytes12);
}

#[test]
fn hf_locate_by_logical_id() {
    // Pages written out of order are still found by their logical id, and
    // the page read back always carries the id asked for.
    let mut hf = HeapFile::new(9);
    let mut p2 = Page::new(2);
    p2.add_value(&vec![2u8; 10]);
    let mut p0 = Page::new(0);
    p0.add_value(&vec![0u8; 10]);
    let mut p1 = Page::new(1);
    p1.add_value(&vec![1u8; 10]);
    hf.write_page_to_file(p2).unwrap();
    hf.write_page_to_file(p0).unwrap();
    hf.write_page_to_file(p1).unwrap();
    assert_eq!(3, hf.num_pages());
    for pid in 0..3u16 {
        let p = hf.read_page_from_file(pid).unwrap();
        assert_eq!(pid, p.get_page_id());
        assert_eq!(vec![pid as u8; 10], p.get_value(0).unwrap());
    }
    assert!(hf.read_page_from_file(3).is_err());
}

#[test]
fn hf_image_round_trip() {
    let mut hf = HeapFile::new(4);
    let mut p0 = Page::new(0);
    p0.add_value(&vec![5u8; 50]);
    hf.write_page_to_file(p0).unwrap();
    let image = hf.image_bytes().clone();
    let hf2 = HeapFile::from_image(4, image).unwrap();
    let p = hf2.read_page_from_file(0).unwrap();
    assert_eq!(vec![5u8; 50], p.get_value(0).unwrap());
    // A truncated image is rejected.
    let mut bad = hf.image_bytes().clone();
    bad.pop();
    assert!(HeapFile::from_image(4, bad).is_none());
}

#[test]
fn hf_from_image_requires_dense_ids() {
    // An image whose single page carries logical id 5 has a gap below its
    // page count and is refused on restore.
    let mut hf = HeapFile::new(2);
    let mut p = Page::new(5);
    p.add_value(&vec![1u8; 8]);
    hf.write_page_to_file(p).unwrap();
    let image = hf.image_bytes().clone();
    assert!(HeapFile::from_image(2, image).is_none());

    // Ids exactly 0..count restore, whatever their file order.
    let mut hf2 = HeapFile::new(2);
    let mut p1 = Page::new(1);
    p1.add_value(&vec![1u8; 8]);
    let mut p0 = Page::new(0);
    p0.add_value(&vec![0u8; 8]);
    hf2.write_page_to_file(p1).unwrap();
    hf2.write_page_to_file(p0).unwrap();
    let image2 = hf2.image_bytes().clone();
    assert!(HeapFile::from_image(2, image2).is_some());
}
