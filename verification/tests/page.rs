use venom_db::storage::disk_manager::DiskManager;
use venom_db::storage::error::StorageError;
use venom_db::storage::page::{Page, PageHeader, Slot, PAGE_SIZE};

#[test]
fn a_new_page_is_empty() {
    let page = Page::new(7);
    assert_eq!(page.num_slots(), 0);
    assert_eq!(page.free_space(), PAGE_SIZE - PageHeader::SIZE);
    assert!(page.get_tuple(0).is_none());
    assert_eq!(PageHeader::from_bytes(&page.data).page_id, 7);
}

#[test]
fn tuples_are_read_back() {
    let mut page = Page::new(0);
    assert_eq!(page.insert_tuple(b"first"), Some(0));
    assert_eq!(page.insert_tuple(b""), Some(1));
    assert_eq!(page.insert_tuple(b"third"), Some(2));
    assert_eq!(page.get_tuple(0), Some(&b"first"[..]));
    assert_eq!(page.get_tuple(1), Some(&b""[..]));
    assert_eq!(page.get_tuple(2), Some(&b"third"[..]));
    assert_eq!(page.get_tuple(3), None);
    assert_eq!(page.free_space(), PAGE_SIZE - PageHeader::SIZE - 10 - 3 * Slot::SIZE);
}

#[test]
fn a_full_page_takes_no_more() {
    let mut page = Page::new(0);
    let most = PAGE_SIZE - PageHeader::SIZE - Slot::SIZE;
    assert_eq!(page.insert_tuple(&vec![1; most + 1]), None);
    assert_eq!(page.insert_tuple(&vec![1; most]), Some(0));
    assert_eq!(page.free_space(), 0);
    assert_eq!(page.insert_tuple(b""), None);
}

#[test]
fn a_deleted_tuple_is_gone_and_its_space_is_not_reclaimed() {
    let mut page = Page::new(0);
    page.insert_tuple(b"a");
    page.insert_tuple(b"b");
    let free = page.free_space();
    assert!(page.delete_tuple(0));
    assert!(!page.delete_tuple(0));
    assert!(!page.delete_tuple(5));
    assert_eq!(page.get_tuple(0), None);
    assert_eq!(page.get_tuple(1), Some(&b"b"[..]));
    assert_eq!(page.num_slots(), 2);
    assert_eq!(page.free_space(), free);
}

#[test]
fn a_slot_may_point_into_the_header() {
    let mut page = Page::new(0x0403_0201);
    page.insert_tuple(b"abcdef");
    page.data[12..14].copy_from_slice(&2u16.to_le_bytes());
    let mut page = Page::from_bytes(0x0403_0201, page.data);
    assert_eq!(page.get_tuple(0), Some(&[3, 4, 1, 0, 250, 15][..]));
    assert!(page.update_tuple(0, &[9, 9]));
    assert_eq!(page.data[2..4], [9, 9]);
    page.finalize_checksum();
    page.data[12..14].copy_from_slice(&6u16.to_le_bytes());
    let sum = page.data[8..12].to_vec();
    assert_eq!(page.get_tuple(0).unwrap()[2..], sum[..]);
    assert_eq!(page.copy_tuple(0), Some(vec![250, 15, 0, 0, 0, 0]));
    assert!(page.delete_tuple(0));
    assert_eq!(page.get_tuple(0), None);
    assert_eq!(page.copy_tuple(0), None);
}

#[test]
fn a_slot_may_be_longer_than_the_page() {
    let mut page = Page::new(0);
    page.insert_tuple(b"abcdef");
    page.data[14..16].copy_from_slice(&100u16.to_le_bytes());
    assert!(page.update_tuple(0, b"XYZ"));
    assert_eq!(page.data[4090..4093], *b"XYZ");
    assert!(page.delete_tuple(0));
}

#[test]
fn an_update_in_place_keeps_what_lies_behind_it() {
    let mut page = Page::new(0);
    page.insert_tuple(b"abcdef");
    page.insert_tuple(b"other");
    assert!(page.update_tuple(0, b"XYZ"));
    assert_eq!(page.get_tuple(0), Some(&b"XYZdef"[..]));
    assert!(!page.update_tuple(0, b"too long for it"));
    assert!(!page.update_tuple(9, b"x"));
    assert_eq!(page.get_tuple(0), Some(&b"XYZdef"[..]));
    assert_eq!(page.get_tuple(1), Some(&b"other"[..]));
}

#[test]
fn the_checksum_is_that_of_the_page_without_it() {
    let mut page = Page::new(3);
    page.insert_tuple(b"data");
    let mut body = page.data;
    body[8..12].fill(0);
    page.finalize_checksum();
    assert_eq!(PageHeader::from_bytes(&page.data).checksum, crc32fast::hash(&body));
    assert!(page.verify_checksum());
    page.data[2000] ^= 1;
    assert!(!page.verify_checksum());
}

#[test]
fn headers_and_slots_have_their_bytes() {
    let header = PageHeader { page_id: 1, num_slots: 2, free_space_offset: 0x0304, checksum: 5 };
    assert_eq!(header.to_bytes(), [1, 0, 0, 0, 2, 0, 4, 3, 5, 0, 0, 0]);
    assert_eq!(PageHeader::from_bytes(&header.to_bytes()), header);
    let slot = Slot { offset: 0x0102, length: 3, active: true };
    assert_eq!(slot.to_bytes(), [2, 1, 3, 0, 1]);
    assert_eq!(Slot::from_bytes(&slot.to_bytes()), slot);
}

#[test]
fn a_written_page_is_read_back() {
    let mut disk = DiskManager::new(vec![]);
    let a = disk.allocate_page();
    let b = disk.allocate_page();
    assert_eq!((a, b), (0, 1));
    assert!(matches!(disk.read_page(0), Err(StorageError::PastEnd)));
    let mut page = Page::new(b);
    page.insert_tuple(b"on disk");
    disk.write_page(&mut page);
    assert_eq!(disk.read_page(b).unwrap().get_tuple(0), Some(&b"on disk"[..]));
    // What lies before it in the file is zero and has no valid checksum.
    assert!(matches!(disk.read_page(a), Err(StorageError::Checksum(0))));
    assert_eq!(disk.take_written(), vec![1]);
    assert_eq!(disk.take_written(), Vec::<u32>::new());
}

#[test]
fn storage_errors_have_messages() {
    assert_eq!(StorageError::PastEnd.message(), "failed to fill whole buffer");
    assert_eq!(StorageError::Checksum(4).message(), "Checksum mismatch on page 4");
    assert_eq!(StorageError::PoolFull.message(), "Buffer pool full: all pages are pinned");
    assert_eq!(StorageError::PageFull.message(), "page full");
}
