use vstd::prelude::*;

pub mod bufferpool;
pub mod bytes;
pub mod page;

use page::Page;

verus! {

/// The size of a page, and of the block that holds it on disk, in bytes.
pub const PAGE_SIZE: u32 = 8192;

/// The address of a page.  Zero stands for "no page".
#[derive(Copy, Clone, Debug, PartialEq, Eq, PartialOrd, Ord, Hash, Structural)]
pub struct PageId(pub u32);

/// The position of a frame among the frames of the page cache.
#[derive(Copy, Clone, Debug, PartialEq, Eq, PartialOrd, Ord, Hash, Structural)]
pub struct FrameId(pub u32);

/// The position of a slot among the slots of a page.
#[derive(Copy, Clone, Debug, PartialEq, Eq, PartialOrd, Ord, Hash, Structural)]
pub struct SlotId(pub u32);

/// The identity of a tuple: its page and its slot in that page.
#[derive(Copy, Clone, Debug, PartialEq, Eq, PartialOrd, Ord, Hash, Structural)]
pub struct RecordId(pub PageId, pub SlotId);

/// Why an operation on pages failed.
#[derive(Copy, Clone, Debug, PartialEq, Eq, Structural)]
pub enum StorageError {
    /// Reading, writing or flushing a block failed.
    Io,
    /// The page has too little free space for the tuple.
    PageFull,
    /// Every frame of the cache holds a page that is in use.
    NoFreeFrame,
}

/// Where pages come from and go to.
pub trait Storage {
    /// Reads the page with the given id.
    fn get_page(pgid: PageId) -> Result<Page, StorageError>;

    /// Writes the page to where it is kept.
    fn flush_page(page: Page) -> Result<(), StorageError>;
}

/// The position in the backing file at which the block of a page starts.
pub fn page_offset(pgid: PageId) -> (offset: u64)
    ensures
        offset == pgid.0 * PAGE_SIZE,
{
    pgid.0 as u64 * PAGE_SIZE as u64
}

} // verus!
