use rustydb::buffer_pool::BufferPoolManager;
use rustydb::codec::{u16_from_le, u16_le_byte, u32_from_le, u32_le_byte};
use rustydb::disk::DiskManager;
use rustydb::error::Error;
use rustydb::replacer::{AccessType, LRUKReplacer};
use rustydb::row::RecordId;
use rustydb::table_page::{TablePage, PAGE_SIZE};
use rustydb::tuple::{Tuple, TupleMetadata};

fn fresh_page(pid: u32) -> TablePage {
    TablePage::builder().page_id(pid).build()
}

fn put(page: &mut TablePage, bytes: &[u8]) -> u16 {
    let t = Tuple::new(bytes.to_vec());
    page.insert_tuple(TupleMetadata::new(false), t)
        .expect("tuple fits")
}

#[test]
fn codec_round_trips() {
    let x: u32 = 0xDEAD_BEEF;
    let b = [
        u32_le_byte(x, 0),
        u32_le_byte(x, 1),
        u32_le_byte(x, 2),
        u32_le_byte(x, 3),
    ];
    assert_eq!(b, [0xEF, 0xBE, 0xAD, 0xDE]);
    assert_eq!(u32_from_le(b[0], b[1], b[2], b[3]), x);
    let y: u16 = 0x1234;
    let c = [u16_le_byte(y, 0), u16_le_byte(y, 1)];
    assert_eq!(c, [0x34, 0x12]);
    assert_eq!(u16_from_le(c[0], c[1]), y);
}

#[test]
fn slotted_insert_read_delete() {
    let mut page = fresh_page(7);
    let s0 = put(&mut page, b"AB");
    let s1 = put(&mut page, b"CDE");
    let s2 = put(&mut page, b"F");
    assert_eq!((s0, s1, s2), (0, 1, 2));

    let got = page.get_tuple(&RecordId::new(7, 1)).expect("live tuple");
    assert_eq!(got.data, b"CDE".to_vec());

    // tombstone slot 1
    page.update_tuple_metadata(&TupleMetadata::new(true), &RecordId::new(7, 1))
        .expect("valid slot");
    assert_eq!(page.tuple_count(), 2);
    assert_eq!(page.deleted_tuple_count(), 1);

    // iteration skips the tombstone
    let mut it = page.iter();
    let mut slots = Vec::new();
    while let Some((rid, _)) = it.next(&page) {
        slots.push(rid.slot_id);
    }
    assert_eq!(slots, vec![0, 2]);

    // reading the tombstone is an error
    assert_eq!(
        page.get_tuple(&RecordId::new(7, 1)).unwrap_err(),
        Error::InvalidInput
    );
    // wrong page id is an error
    assert_eq!(
        page.get_tuple(&RecordId::new(8, 0)).unwrap_err(),
        Error::InvalidInput
    );
    // counts always cover the directory
    assert_eq!(
        page.tuple_count() + page.deleted_tuple_count(),
        page.total_tuple_count()
    );
}

#[test]
fn page_serialize_deserialize_round_trip() {
    let mut page = fresh_page(42);
    page.set_next_page_id(43);
    put(&mut page, b"hello");
    put(&mut page, b"world");
    put(&mut page, b"!");
    page.update_tuple_metadata(&TupleMetadata::new(true), &RecordId::new(42, 1))
        .expect("valid slot");

    let bytes = page.serialize();
    assert_eq!(bytes.len(), PAGE_SIZE);
    let back = TablePage::deserialize(&bytes);

    assert_eq!(back.page_id(), 42);
    assert_eq!(back.get_next_page_id(), 43);
    assert_eq!(back.tuple_count(), 2);
    assert_eq!(back.deleted_tuple_count(), 1);
    assert_eq!(
        back.get_tuple(&RecordId::new(42, 0)).unwrap().data,
        b"hello".to_vec()
    );
    assert_eq!(
        back.get_tuple(&RecordId::new(42, 2)).unwrap().data,
        b"!".to_vec()
    );
    assert!(back.get_tuple(&RecordId::new(42, 1)).is_err());
}

#[test]
fn page_rejects_oversized_tuple() {
    let mut page = fresh_page(1);
    let huge = Tuple::new(vec![0u8; PAGE_SIZE]);
    assert!(page.insert_tuple(TupleMetadata::new(false), huge).is_none());
    let offset = page.get_next_tuple_offset(&Tuple::new(vec![0u8; 4]));
    assert_eq!(offset, Some((PAGE_SIZE - 4) as u16));
}

#[test]
fn replacer_k_distance() {
    let mut replacer = LRUKReplacer::builder().max_size(4).k(2).build();
    for f in [1usize, 2, 3, 1, 2] {
        replacer.record_access(&f, AccessType::Lookup);
    }
    for f in [1usize, 2, 3] {
        replacer.set_evictable(&f, true);
    }
    assert_eq!(replacer.size(), 3);
    // frame 3 has a single access: infinite distance, least recent among those
    assert_eq!(replacer.evict(), Some(3));
    // of 1 and 2, frame 1's second access is older
    assert_eq!(replacer.evict(), Some(1));
    assert_eq!(replacer.evict(), Some(2));
    assert_eq!(replacer.evict(), None);
    assert_eq!(replacer.size(), 0);
}

#[test]
fn replacer_remove_and_idempotent_evictable() {
    let mut replacer = LRUKReplacer::new(3, 2);
    replacer.record_access(&0, AccessType::Scan);
    replacer.set_evictable(&0, true);
    replacer.set_evictable(&0, true); // idempotent
    assert_eq!(replacer.size(), 1);
    replacer.remove(&0);
    assert_eq!(replacer.size(), 0);
    replacer.remove(&2); // absent: no-op
    assert_eq!(replacer.size(), 0);
}

#[test]
fn buffer_pool_eviction_flushes_dirty() {
    let pool_size = 2;
    let mut pool = BufferPoolManager::builder()
        .pool_size(pool_size)
        .replacer_k(2)
        .disk_manager(DiskManager::new())
        .build();

    let p1 = pool.new_page().expect("free frame");
    // modify the page through the pool (it is still pinned) and unpin dirty
    let page = TablePage::builder().page_id(p1).next_page_id(777).build();
    assert!(pool.update_page(page));
    assert!(pool.unpin_page(&p1, true));
    assert!(pool.get_is_dirty(&p1));

    let p2 = pool.new_page().expect("free frame");
    assert!(pool.unpin_page(&p2, false));

    // this one must evict the least-recently-used page, p1, and flush it
    let p3 = pool.new_page().expect("evictable frame");
    assert!(pool.get_pin_count(&p1).is_none());

    // the write was observed by the page store before p1 left memory
    let stored = pool.disk_manager.read_page(&p1);
    assert_eq!(stored.get_next_page_id(), 777);

    // free frames and page-table frames partition the pool
    assert_eq!(
        pool.free_list.len() + pool.page_table.len(),
        pool.pool_size
    );

    // fetching p1 again brings the stored content back
    let back = pool.fetch_page(&p1).expect("fetched from the page store");
    assert_eq!(back.get_next_page_id(), 777);
    assert!(pool.unpin_page(&p1, false));
    assert!(pool.unpin_page(&p3, false));
    assert_eq!(pool.size(), pool_size);
}

#[test]
fn unpin_to_zero_makes_frame_evictable() {
    let mut pool = BufferPoolManager::new(1, 2, DiskManager::new());
    let p1 = pool.new_page().expect("free frame");
    assert_eq!(pool.get_pin_count(&p1), Some(1));
    assert_eq!(pool.replacer.size(), 0);
    assert!(pool.unpin_page(&p1, false));
    // pin reached zero: the replacer now counts the frame as evictable
    assert_eq!(pool.replacer.size(), 1);
    assert_eq!(pool.get_pin_count(&p1), Some(0));
    // a second unpin reports failure
    assert!(!pool.unpin_page(&p1, false));
}

#[test]
fn delete_page_frees_frame_and_disk_slot() {
    let mut pool = BufferPoolManager::new(2, 2, DiskManager::new());
    let p1 = pool.new_page().expect("free frame");
    // pinned pages cannot be deleted
    assert!(!pool.delete_page(p1));
    assert!(pool.unpin_page(&p1, false));
    assert!(pool.delete_page(p1));
    assert!(pool.get_pin_count(&p1).is_none());
    assert_eq!(pool.free_list.len(), 2);
}

#[test]
fn flush_all_pages_cleans_everything() {
    let mut pool = BufferPoolManager::new(2, 2, DiskManager::new());
    let p1 = pool.new_page().unwrap();
    let p2 = pool.new_page().unwrap();
    pool.set_is_dirty(&p1, true);
    pool.set_is_dirty(&p2, true);
    pool.flush_all_pages();
    assert!(!pool.get_is_dirty(&p1));
    assert!(!pool.get_is_dirty(&p2));
    assert!(pool.unpin_page(&p1, false));
    assert!(pool.unpin_page(&p2, false));
}
