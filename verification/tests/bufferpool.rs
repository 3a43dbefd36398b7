use kzdb::storage::bufferpool::{BufferPool, BUFFER_POOL_SIZE};
use kzdb::storage::page::{Page, Tuple};
use kzdb::storage::{FrameId, PageId, RecordId, SlotId, Storage, StorageError};

struct Fresh;

impl Storage for Fresh {
    fn get_page(pgid: PageId) -> Result<Page, StorageError> {
        Ok(Page::new(pgid, None))
    }

    fn flush_page(_page: Page) -> Result<(), StorageError> {
        Ok(())
    }
}

struct Unreadable;

impl Storage for Unreadable {
    fn get_page(_pgid: PageId) -> Result<Page, StorageError> {
        Err(StorageError::Io)
    }

    fn flush_page(_page: Page) -> Result<(), StorageError> {
        Ok(())
    }
}

struct Unwritable;

impl Storage for Unwritable {
    fn get_page(pgid: PageId) -> Result<Page, StorageError> {
        Ok(Page::new(pgid, None))
    }

    fn flush_page(_page: Page) -> Result<(), StorageError> {
        Err(StorageError::Io)
    }
}

fn pin_count(pool: &BufferPool, pgid: PageId) -> u32 {
    let frame = pool.lookup(pgid).unwrap();
    pool.frames[frame.0 as usize].as_ref().unwrap().pin_count
}

fn full_pool() -> BufferPool {
    let mut pool = BufferPool::new();
    for id in 1..=BUFFER_POOL_SIZE as u32 {
        assert_eq!(pool.fetch_page::<Fresh>(PageId(id)), Ok(FrameId(id - 1)));
    }
    pool
}

#[test]
fn new_pool_has_only_free_frames() {
    let pool = BufferPool::new();
    assert_eq!(BUFFER_POOL_SIZE, 2000);
    assert_eq!(pool.frames.len(), 2000);
    assert!(pool.frames.iter().all(|frame| frame.is_none()));
    assert_eq!(pool.free_frames.len(), 2000);
    assert_eq!(pool.free_frames[0], FrameId(0));
    assert_eq!(pool.free_frames[1999], FrameId(1999));
    assert!(pool.page_table.is_empty());
    assert!(pool.lru.is_empty());
    assert_eq!(pool.victim(), None);
    assert_eq!(pool.lookup(PageId(1)), None);
    assert!(pool.page(FrameId(0)).is_none());
    assert!(pool.page(FrameId(2000)).is_none());
}

#[test]
fn missing_page_is_read_into_the_first_free_frame() {
    let mut pool = BufferPool::new();
    assert_eq!(pool.fetch_page::<Fresh>(PageId(7)), Ok(FrameId(0)));
    assert_eq!(pool.lookup(PageId(7)), Some(FrameId(0)));
    assert_eq!(pool.page(FrameId(0)).unwrap().header.pgid, PageId(7));
    assert_eq!(pin_count(&pool, PageId(7)), 1);
    assert!(!pool.frames[0].as_ref().unwrap().dirty);
    assert_eq!(pool.fetch_page::<Fresh>(PageId(8)), Ok(FrameId(1)));
    assert_eq!(pool.free_frames.len(), 1998);
    assert_eq!(pool.lru, vec![FrameId(0), FrameId(1)]);
}

#[test]
fn resident_page_is_pinned_once_more() {
    let mut pool = BufferPool::new();
    pool.fetch_page::<Fresh>(PageId(7)).unwrap();
    pool.fetch_page::<Fresh>(PageId(8)).unwrap();
    assert_eq!(pool.fetch_page::<Unreadable>(PageId(7)), Ok(FrameId(0)));
    assert_eq!(pin_count(&pool, PageId(7)), 2);
    assert_eq!(pool.lru, vec![FrameId(1), FrameId(0)]);
    assert_eq!(pool.pin(PageId(8)), Some(FrameId(1)));
    assert_eq!(pin_count(&pool, PageId(8)), 2);
    assert_eq!(pool.pin(PageId(9)), None);
}

#[test]
fn unpinning_lowers_the_pin_count_and_marks_dirty() {
    let mut pool = BufferPool::new();
    pool.fetch_page::<Fresh>(PageId(7)).unwrap();
    pool.fetch_page::<Fresh>(PageId(7)).unwrap();
    assert!(pool.unpin_page(PageId(7), false));
    assert_eq!(pin_count(&pool, PageId(7)), 1);
    assert!(!pool.frames[0].as_ref().unwrap().dirty);
    assert!(pool.unpin_page(PageId(7), true));
    assert_eq!(pin_count(&pool, PageId(7)), 0);
    assert!(pool.frames[0].as_ref().unwrap().dirty);
    assert!(!pool.unpin_page(PageId(7), false));
    assert!(pool.frames[0].as_ref().unwrap().dirty);
    assert!(!pool.unpin_page(PageId(8), true));
}

#[test]
fn storage_failure_leaves_the_pool_as_it_is() {
    let mut pool = BufferPool::new();
    assert_eq!(pool.fetch_page::<Unreadable>(PageId(7)), Err(StorageError::Io));
    assert_eq!(pool.lookup(PageId(7)), None);
    assert_eq!(pool.free_frames.len(), 2000);
    assert!(pool.lru.is_empty());
}

#[test]
fn full_pool_of_held_pages_has_no_free_frame() {
    let mut pool = full_pool();
    assert_eq!(pool.victim(), None);
    assert_eq!(pool.fetch_page::<Fresh>(PageId(5000)), Err(StorageError::NoFreeFrame));
    assert_eq!(pool.lookup(PageId(5000)), None);
    assert!(pool.evict(FrameId(3)).is_none());
    assert_eq!(pool.lookup(PageId(4)), Some(FrameId(3)));
    assert_eq!(pool.fetch_page::<Fresh>(PageId(4)), Ok(FrameId(3)));
}

#[test]
fn held_page_is_never_evicted() {
    let mut pool = full_pool();
    assert!(pool.unpin_page(PageId(10), false));
    assert!(pool.unpin_page(PageId(3), false));
    assert!(!pool.unpin_page(PageId(3), false));
    // page 3 was fetched before page 10 and is the one to leave
    assert_eq!(pool.victim(), Some(FrameId(2)));
    assert_eq!(pool.fetch_page::<Fresh>(PageId(5000)), Ok(FrameId(2)));
    assert_eq!(pool.lookup(PageId(3)), None);
    assert_eq!(pool.lookup(PageId(10)), Some(FrameId(9)));
    assert_eq!(pool.victim(), Some(FrameId(9)));
    assert_eq!(pool.fetch_page::<Fresh>(PageId(5001)), Ok(FrameId(9)));
    assert_eq!(pool.lookup(PageId(10)), None);
    assert_eq!(pool.fetch_page::<Fresh>(PageId(5002)), Err(StorageError::NoFreeFrame));
    for id in 1..=2000u32 {
        if id != 10 && id != 3 {
            assert_eq!(pool.lookup(PageId(id)), Some(FrameId(id - 1)));
            assert_eq!(pin_count(&pool, PageId(id)), 1);
        }
    }
}

#[test]
fn least_recently_used_page_leaves_first() {
    let mut pool = full_pool();
    for id in [5u32, 6, 7] {
        assert!(pool.unpin_page(PageId(id), false));
    }
    // using page 5 again makes page 6 the least recently used
    assert_eq!(pool.fetch_page::<Fresh>(PageId(5)), Ok(FrameId(4)));
    assert!(pool.unpin_page(PageId(5), false));
    assert_eq!(pool.victim(), Some(FrameId(5)));
    assert_eq!(pool.fetch_page::<Fresh>(PageId(9000)), Ok(FrameId(5)));
    assert_eq!(pool.victim(), Some(FrameId(6)));
    assert_eq!(pool.fetch_page::<Fresh>(PageId(9001)), Ok(FrameId(6)));
    assert_eq!(pool.victim(), Some(FrameId(4)));
}

#[test]
fn dirty_page_that_cannot_be_written_stays() {
    let mut pool = full_pool();
    assert!(pool.unpin_page(PageId(10), true));
    assert_eq!(pool.fetch_page::<Unwritable>(PageId(5000)), Err(StorageError::Io));
    assert_eq!(pool.lookup(PageId(10)), Some(FrameId(9)));
    assert!(pool.frames[9].as_ref().unwrap().dirty);
    assert_eq!(pool.lookup(PageId(5000)), None);
    assert_eq!(pool.fetch_page::<Fresh>(PageId(5000)), Ok(FrameId(9)));
    assert_eq!(pool.lookup(PageId(10)), None);
    assert!(!pool.frames[9].as_ref().unwrap().dirty);
}

#[test]
fn clean_page_leaves_without_being_written() {
    let mut pool = full_pool();
    assert!(pool.unpin_page(PageId(10), false));
    assert_eq!(pool.fetch_page::<Unwritable>(PageId(5000)), Ok(FrameId(9)));
}

#[test]
fn evicted_frame_is_free_again() {
    let mut pool = BufferPool::new();
    let tuple = Tuple { rid: RecordId(PageId(7), SlotId(0)), data: vec![1, 2, 3] };
    let mut page = Page::new(PageId(7), None);
    page.insert_tuple(&tuple).unwrap();
    assert_eq!(pool.install(PageId(7), page), FrameId(0));
    assert!(pool.evict(FrameId(0)).is_none());
    assert!(pool.unpin_page(PageId(7), true));
    let held = pool.evict(FrameId(0)).unwrap();
    assert_eq!(held.pgid, PageId(7));
    assert_eq!(held.pin_count, 0);
    assert!(held.dirty);
    assert_eq!(held.page.header.num_tuples, 1);
    assert_eq!(pool.lookup(PageId(7)), None);
    assert_eq!(pool.free_frames.len(), 2000);
    assert_eq!(pool.free_frames[1999], FrameId(0));
    assert!(pool.lru.is_empty());
    assert!(pool.evict(FrameId(0)).is_none());
    assert!(pool.evict(FrameId(2000)).is_none());
}

#[test]
fn held_page_can_be_replaced() {
    let mut pool = BufferPool::new();
    pool.fetch_page::<Fresh>(PageId(7)).unwrap();
    let tuple = Tuple { rid: RecordId(PageId(7), SlotId(0)), data: vec![9; 4] };
    let mut page = pool.page(FrameId(0)).unwrap().duplicate();
    page.insert_tuple(&tuple).unwrap();
    let previous = pool.put_page(PageId(7), page);
    assert_eq!(previous.ok().unwrap().header.num_tuples, 0);
    assert_eq!(pool.page(FrameId(0)).unwrap().header.num_tuples, 1);
    assert_eq!(pin_count(&pool, PageId(7)), 1);
    assert!(pool.unpin_page(PageId(7), true));
    let back = pool.put_page(PageId(7), Page::new(PageId(7), None));
    assert_eq!(back.err().unwrap().header.pgid, PageId(7));
    assert_eq!(pool.page(FrameId(0)).unwrap().header.num_tuples, 1);
    assert!(pool.put_page(PageId(8), Page::new(PageId(8), None)).is_err());
}
