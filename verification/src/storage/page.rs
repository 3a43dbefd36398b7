use vstd::prelude::*;

use super::bytes::{be_bytes, be_value, lemma_be_bytes_of_value, lemma_be_value_of_bytes, read_u32_be, write_u32_be};
use super::{PageId, RecordId, StorageError, PAGE_SIZE};

verus! {

/// The number of bytes that a page's header takes at the start of the page.
pub const HEADER_SIZE: usize = 20;

/// The number of bytes that one slot takes in the slot array of a page.
pub const SLOT_SIZE: usize = 8;

/// The number of bytes of a page's buffer: the header, the slot array that
/// grows upward behind it, and the tuples that grow downward from the end.
pub const PAGE_DATA_SIZE: usize = 8192 - HEADER_SIZE;

/// The header of a page: its own id, its neighbours in the chain of leaves,
/// where its free space ends, and how many tuples it holds.
#[derive(Copy, Clone, Debug, PartialEq, Eq, Structural)]
pub struct PageHeader {
    pub pgid: PageId,
    pub prev_page: Option<PageId>,
    pub next_page: Option<PageId>,
    pub free_offset: u32,
    pub num_tuples: u32,
}

/// The word that stands for a link to a neighbour: the neighbour's id, or zero
/// where there is none.
pub open spec fn link_word(link: Option<PageId>) -> u32 {
    match link {
        Some(id) => id.0,
        None => 0,
    }
}

/// The link that a word stands for: none for zero, else the page of that id.
pub open spec fn word_link(word: u32) -> Option<PageId> {
    if word == 0 {
        None
    } else {
        Some(PageId(word))
    }
}

impl PageHeader {
    /// The twenty bytes of the header: the five fields in order, each as four
    /// bytes with the most significant first.
    #[verifier::opaque]
    pub open spec fn bytes(self) -> Seq<u8> {
        be_bytes(self.pgid.0) + be_bytes(link_word(self.prev_page)) + be_bytes(
            link_word(self.next_page),
        ) + be_bytes(self.free_offset) + be_bytes(self.num_tuples)
    }

    /// The header whose bytes start `bytes`.
    pub open spec fn parse(bytes: Seq<u8>) -> PageHeader {
        PageHeader {
            pgid: PageId(be_value(bytes.subrange(0, 4))),
            prev_page: word_link(be_value(bytes.subrange(4, 8))),
            next_page: word_link(be_value(bytes.subrange(8, 12))),
            free_offset: be_value(bytes.subrange(12, 16)),
            num_tuples: be_value(bytes.subrange(16, 20)),
        }
    }

    /// Neither link names page zero, which stands for "no page".
    pub open spec fn links_valid(self) -> bool {
        &&& self.prev_page != Some(PageId(0))
        &&& self.next_page != Some(PageId(0))
    }

    /// Writes the header over the first bytes of `buffer`.
    pub fn write_to(&self, buffer: &mut Vec<u8>)
        requires
            old(buffer).len() >= HEADER_SIZE,
        ensures
            final(buffer)@ == self.bytes() + old(buffer)@.skip(HEADER_SIZE as int),
    {
        let prev_page = match self.prev_page {
            Some(id) => id.0,
            None => 0,
        };
        let next_page = match self.next_page {
            Some(id) => id.0,
            None => 0,
        };
        proof {
            reveal(PageHeader::bytes);
        }
        write_u32_be(buffer, 0, self.pgid.0);
        write_u32_be(buffer, 4, prev_page);
        write_u32_be(buffer, 8, next_page);
        write_u32_be(buffer, 12, self.free_offset);
        write_u32_be(buffer, 16, self.num_tuples);
        assert(buffer@ =~= self.bytes() + old(buffer)@.skip(HEADER_SIZE as int));
    }

    /// Reads the header that the first bytes of `buffer` hold; `None` when
    /// the buffer is shorter than a header.
    pub fn read_from(buffer: &Vec<u8>) -> (r: Option<PageHeader>)
        ensures
            match r {
                Some(header) => buffer.len() >= HEADER_SIZE && header == PageHeader::parse(buffer@),
                None => buffer.len() < HEADER_SIZE,
            },
    {
        if buffer.len() < HEADER_SIZE {
            return None;
        }
        let prev_page = read_u32_be(buffer, 4);
        let next_page = read_u32_be(buffer, 8);
        Some(
            PageHeader {
                pgid: PageId(read_u32_be(buffer, 0)),
                prev_page: if prev_page == 0 {
                    None
                } else {
                    Some(PageId(prev_page))
                },
                next_page: if next_page == 0 {
                    None
                } else {
                    Some(PageId(next_page))
                },
                free_offset: read_u32_be(buffer, 12),
                num_tuples: read_u32_be(buffer, 16),
            },
        )
    }
}

/// A header takes `HEADER_SIZE` bytes, and bytes that start with the bytes of
/// a header with valid links read back as that header.
pub proof fn lemma_header_reads_back(header: PageHeader, bytes: Seq<u8>)
    requires
        header.links_valid(),
        bytes.len() >= HEADER_SIZE,
        bytes.subrange(0, HEADER_SIZE as int) == header.bytes(),
    ensures
        header.bytes().len() == HEADER_SIZE,
        PageHeader::parse(bytes) == header,
{
    reveal(PageHeader::bytes);
    lemma_be_value_of_bytes(header.pgid.0);
    lemma_be_value_of_bytes(link_word(header.prev_page));
    lemma_be_value_of_bytes(link_word(header.next_page));
    lemma_be_value_of_bytes(header.free_offset);
    lemma_be_value_of_bytes(header.num_tuples);
    let image = header.bytes();
    assert(bytes.subrange(0, 4) =~= image.subrange(0, 4));
    assert(bytes.subrange(4, 8) =~= image.subrange(4, 8));
    assert(bytes.subrange(8, 12) =~= image.subrange(8, 12));
    assert(bytes.subrange(12, 16) =~= image.subrange(12, 16));
    assert(bytes.subrange(16, 20) =~= image.subrange(16, 20));
    assert(image.subrange(0, 4) =~= be_bytes(header.pgid.0));
    assert(image.subrange(4, 8) =~= be_bytes(link_word(header.prev_page)));
    assert(image.subrange(8, 12) =~= be_bytes(link_word(header.next_page)));
    assert(image.subrange(12, 16) =~= be_bytes(header.free_offset));
    assert(image.subrange(16, 20) =~= be_bytes(header.num_tuples));
}

/// The header read from bytes has valid links and is written as the very
/// bytes that it was read from.
pub proof fn lemma_header_writes_back(bytes: Seq<u8>)
    requires
        bytes.len() >= HEADER_SIZE,
    ensures
        PageHeader::parse(bytes).links_valid(),
        PageHeader::parse(bytes).bytes() == bytes.subrange(0, HEADER_SIZE as int),
{
    reveal(PageHeader::bytes);
    let header = PageHeader::parse(bytes);
    lemma_be_bytes_of_value(bytes.subrange(0, 4));
    lemma_be_bytes_of_value(bytes.subrange(4, 8));
    lemma_be_bytes_of_value(bytes.subrange(8, 12));
    lemma_be_bytes_of_value(bytes.subrange(12, 16));
    lemma_be_bytes_of_value(bytes.subrange(16, 20));
    assert(link_word(header.prev_page) == be_value(bytes.subrange(4, 8)));
    assert(link_word(header.next_page) == be_value(bytes.subrange(8, 12)));
    assert(header.bytes() =~= bytes.subrange(0, HEADER_SIZE as int));
}

/// Where a tuple lies in its page: the position of its first byte in the
/// page's buffer, and its length.
#[derive(Copy, Clone, Debug, PartialEq, Eq, Structural)]
pub struct Slot {
    pub offset: u32,
    pub length: u32,
}

/// A record: its identity and its bytes.
pub struct Tuple {
    pub rid: RecordId,
    pub data: Vec<u8>,
}

/// A page in memory: its header, the slots of its tuples in the order in
/// which they were inserted, and its buffer.  The first tuple ends where the
/// buffer ends, each later one where the one before it starts, and the free
/// space lies between the slot array and the last tuple.
pub struct Page {
    pub header: PageHeader,
    pub slots: Vec<Slot>,
    pub data: Vec<u8>,
}

impl Page {
    /// The position behind the last byte of tuple `i`: the end of the buffer
    /// for the first tuple, else the start of the tuple before it.
    pub open spec fn tuple_end(self, i: int) -> int {
        if i == 0 {
            PAGE_DATA_SIZE as int
        } else {
            self.slots@[i - 1].offset as int
        }
    }

    /// The bytes of tuple `i`.
    pub open spec fn tuple_bytes(self, i: int) -> Seq<u8> {
        self.data@.subrange(
            self.slots@[i].offset as int,
            self.slots@[i].offset + self.slots@[i].length,
        )
    }

    /// The buffer has its size, the header counts the slots, the tuples lie
    /// one below the other from the end of the buffer down to the free
    /// offset, and the slot array, with the header before it, ends at or
    /// before the free offset.
    pub open spec fn wf(self) -> bool {
        &&& self.data.len() == PAGE_DATA_SIZE
        &&& self.slots.len() == self.header.num_tuples
        &&& HEADER_SIZE + self.slots.len() * SLOT_SIZE <= self.header.free_offset <= PAGE_DATA_SIZE
        &&& forall|i: int|
            0 <= i < self.slots.len() ==> (#[trigger] self.slots@[i]).offset + self.slots@[i].length
                == self.tuple_end(i)
        &&& self.header.free_offset == self.tuple_end(self.slots.len() as int)
    }

    /// Whether the page is well formed.
    pub fn is_well_formed(&self) -> (r: bool)
        ensures
            r == self.wf(),
    {
        let count = self.slots.len();
        let free = self.header.free_offset as usize;
        if self.data.len() != PAGE_DATA_SIZE || count != self.header.num_tuples as usize || free
            > PAGE_DATA_SIZE || count > (PAGE_DATA_SIZE - HEADER_SIZE) / SLOT_SIZE || HEADER_SIZE + count
            * SLOT_SIZE > free {
            return false;
        }
        let mut end: usize = PAGE_DATA_SIZE;
        let mut i: usize = 0;
        while i < count
            invariant
                i <= count,
                count == self.slots.len(),
                end <= PAGE_DATA_SIZE,
                end == self.tuple_end(i as int),
                forall|j: int|
                    0 <= j < i ==> (#[trigger] self.slots@[j]).offset + self.slots@[j].length
                        == self.tuple_end(j),
            decreases count - i,
        {
            let slot = self.slots[i];
            if slot.offset as u64 + slot.length as u64 != end as u64 {
                assert(self.slots@[i as int].offset + self.slots@[i as int].length != self.tuple_end(
                    i as int,
                ));
                return false;
            }
            end = slot.offset as usize;
            i += 1;
        }
        free == end
    }

    /// A tuple of `len` bytes fits: below it, the free space still holds the
    /// header and the slot array with one slot more.
    pub open spec fn fits(self, len: nat) -> bool {
        HEADER_SIZE + (self.header.num_tuples + 1) * SLOT_SIZE <= self.header.free_offset - len
    }

    /// An empty page: no tuples, all free space, a buffer of zeros.  The
    /// header is written into the buffer by `update_header`.
    pub fn new(pgid: PageId, prev_page: Option<PageId>) -> (page: Self)
        ensures
            page.wf(),
            page.header == (PageHeader {
                pgid,
                prev_page,
                next_page: None,
                free_offset: PAGE_DATA_SIZE as u32,
                num_tuples: 0,
            }),
            page.slots@.len() == 0,
            page.data@ == Seq::new(PAGE_DATA_SIZE as nat, |i: int| 0u8),
    {
        let data = vec![0u8; PAGE_DATA_SIZE];
        assert(data@ =~= Seq::new(PAGE_DATA_SIZE as nat, |i: int| 0u8));
        Self {
            header: PageHeader {
                pgid,
                prev_page,
                next_page: None,
                free_offset: PAGE_DATA_SIZE as u32,
                num_tuples: 0,
            },
            slots: Vec::new(),
            data,
        }
    }

    /// Puts the tuple's bytes below the tuples that the page holds, records
    /// where in a new slot, and writes the new header into the buffer.  A
    /// tuple that does not fit leaves the page as it is.
    pub fn insert_tuple(&mut self, tuple: &Tuple) -> (r: Result<(), StorageError>)
        requires
            old(self).wf(),
        ensures
            final(self).wf(),
            r is Ok <==> old(self).fits(tuple.data@.len()),
            match r {
                Ok(()) => {
                    let len = tuple.data@.len();
                    let at = old(self).header.free_offset - len;
                    let count = old(self).header.num_tuples as int;
                    &&& final(self).header == (PageHeader {
                        free_offset: at as u32,
                        num_tuples: (count + 1) as u32,
                        ..old(self).header
                    })
                    &&& final(self).slots@ == old(self).slots@.push(
                        Slot { offset: at as u32, length: len as u32 },
                    )
                    &&& final(self).data@ == final(self).header.bytes() + old(self).data@.subrange(
                        HEADER_SIZE as int,
                        at,
                    ) + tuple.data@ + old(self).data@.subrange(
                        old(self).header.free_offset as int,
                        PAGE_DATA_SIZE as int,
                    )
                    &&& final(self).tuple_bytes(count) == tuple.data@
                    &&& forall|i: int|
                        0 <= i < count ==> #[trigger] final(self).tuple_bytes(i) == old(
                            self,
                        ).tuple_bytes(i)
                },
                Err(e) => e == StorageError::PageFull && *final(self) == *old(self),
            },
    {
        let size = tuple.data.len();
        let free = self.header.free_offset as usize;
        let reserved = HEADER_SIZE + (self.header.num_tuples as usize + 1) * SLOT_SIZE;
        if size > free || free - size < reserved {
            return Err(StorageError::PageFull);
        }
        let offset = free - size;
        copy_into(&mut self.data, offset, &tuple.data);
        self.slots.push(Slot { offset: offset as u32, length: size as u32 });
        self.header.free_offset = offset as u32;
        self.header.num_tuples += 1;
        self.update_header();
        proof {
            lemma_tuple_inserted(*old(self), *self, tuple.data@);
        }
        Ok(())
    }

    /// The block of the page: the header, the slot array, the free space and
    /// the tuples as the buffer holds them, and zeros up to the size of a
    /// block.
    pub open spec fn image(self) -> Seq<u8> {
        self.header.bytes() + slots_bytes(self.slots@) + self.data@.subrange(
            HEADER_SIZE + self.slots@.len() * SLOT_SIZE,
            PAGE_DATA_SIZE as int,
        ) + Seq::new(HEADER_SIZE as nat, |i: int| 0u8)
    }

    /// The block of the page, to be written to disk.
    pub fn to_bytes(&self) -> (bytes: Vec<u8>)
        requires
            self.wf(),
        ensures
            bytes@ == self.image(),
    {
        let mut bytes = vec![0u8; PAGE_SIZE as usize];
        let ghost zeros = Seq::new(HEADER_SIZE as nat, |i: int| 0u8);
        let ghost head = self.header.bytes();
        copy_into(&mut bytes, 0, &self.data);
        self.header.write_to(&mut bytes);
        proof {
            lemma_header_size(self.header);
            assert(self.slots@.take(0) =~= Seq::<Slot>::empty());
            assert(bytes@ =~= head + slots_bytes(self.slots@.take(0)) + self.data@.subrange(
                HEADER_SIZE as int,
                PAGE_DATA_SIZE as int,
            ) + zeros);
        }
        let mut i: usize = 0;
        while i < self.slots.len()
            invariant
                i <= self.slots.len(),
                self.data.len() == PAGE_DATA_SIZE,
                HEADER_SIZE + self.slots.len() * SLOT_SIZE <= PAGE_DATA_SIZE,
                zeros.len() == HEADER_SIZE,
                head.len() == HEADER_SIZE,
                bytes@ == head + slots_bytes(self.slots@.take(i as int)) + self.data@.subrange(
                    HEADER_SIZE + i * SLOT_SIZE,
                    PAGE_DATA_SIZE as int,
                ) + zeros,
            decreases self.slots.len() - i,
        {
            let ghost done = slots_bytes(self.slots@.take(i as int));
            let ghost rest = self.data@.subrange(HEADER_SIZE + i * SLOT_SIZE, PAGE_DATA_SIZE as int);
            proof {
                lemma_slots_bytes_len(self.slots@.take(i as int));
                lemma_slot_size(self.slots@[i as int]);
            }
            write_slot(&mut bytes, HEADER_SIZE + i * SLOT_SIZE, self.slots[i]);
            proof {
                lemma_slot_written(head, done, slot_bytes(self.slots@[i as int]), rest, zeros);
                assert(self.slots@.take(i + 1).drop_last() =~= self.slots@.take(i as int));
                assert(self.slots@.take(i + 1).last() == self.slots@[i as int]);
                assert(rest.skip(SLOT_SIZE as int) =~= self.data@.subrange(
                    HEADER_SIZE + (i + 1) * SLOT_SIZE,
                    PAGE_DATA_SIZE as int,
                ));
            }
            i += 1;
        }
        assert(self.slots@.take(i as int) =~= self.slots@);
        bytes
    }

    /// The page that a block holds; `None` when the block does not hold a
    /// well-formed page.
    pub fn from_bytes(bytes: &Vec<u8>) -> (r: Option<Page>)
        ensures
            r is Some <==> holds_page(bytes@),
            r matches Some(page) ==> {
                &&& page.wf()
                &&& page.header == PageHeader::parse(bytes@)
                &&& page.slots@ == decoded_slots(bytes@, page.header.num_tuples as nat)
                &&& page.data@ == bytes@.subrange(0, PAGE_DATA_SIZE as int)
            },
    {
        if bytes.len() != PAGE_SIZE as usize {
            return None;
        }
        let header = match PageHeader::read_from(bytes) {
            Some(header) => header,
            None => {
                return None;
            },
        };
        let count = header.num_tuples as usize;
        let free = header.free_offset as usize;
        if free > PAGE_DATA_SIZE || count > (PAGE_DATA_SIZE - HEADER_SIZE) / SLOT_SIZE || HEADER_SIZE
            + count * SLOT_SIZE > free {
            return None;
        }
        let mut slots: Vec<Slot> = Vec::new();
        let mut end: usize = PAGE_DATA_SIZE;
        let mut i: usize = 0;
        while i < count
            invariant
                i <= count,
                count == header.num_tuples,
                header == PageHeader::parse(bytes@),
                bytes.len() == PAGE_SIZE,
                HEADER_SIZE + count * SLOT_SIZE <= PAGE_DATA_SIZE,
                end <= PAGE_DATA_SIZE,
                slots@ == decoded_slots(bytes@, i as nat),
                end == if i == 0 {
                    PAGE_DATA_SIZE as int
                } else {
                    slots@[i - 1].offset as int
                },
                forall|j: int|
                    0 <= j < i ==> (#[trigger] slots@[j]).offset + slots@[j].length == if j == 0 {
                        PAGE_DATA_SIZE as int
                    } else {
                        slots@[j - 1].offset as int
                    },
            decreases count - i,
        {
            let at = HEADER_SIZE + i * SLOT_SIZE;
            let offset = read_u32_be(bytes, at);
            let length = read_u32_be(bytes, at + 4);
            let ghost all = decoded_slots(bytes@, count as nat);
            assert(all[i as int] == Slot { offset, length });
            assert(forall|j: int| 0 <= j < i ==> all[j] == slots@[j]);
            if offset as u64 + length as u64 != end as u64 {
                assert(all[i as int].offset + all[i as int].length != if i == 0 {
                    PAGE_DATA_SIZE as int
                } else {
                    all[i - 1].offset as int
                });
                return None;
            }
            slots.push(Slot { offset, length });
            end = offset as usize;
            i += 1;
            assert(slots@ =~= decoded_slots(bytes@, i as nat));
        }
        if free != end {
            return None;
        }
        let mut data = bytes.clone();
        data.truncate(PAGE_DATA_SIZE);
        assert(data@ =~= bytes@.subrange(0, PAGE_DATA_SIZE as int));
        Some(Page { header, slots, data })
    }

    /// A page with the same header, slots and bytes.
    pub fn duplicate(&self) -> (copy: Page)
        ensures
            copy.header == self.header,
            copy.slots@ == self.slots@,
            copy.data@ == self.data@,
    {
        let slots = self.slots.clone();
        let data = self.data.clone();
        assert(slots@ =~= self.slots@);
        assert(data@ =~= self.data@);
        Page { header: self.header, slots, data }
    }

    /// Writes the header over the first bytes of the buffer.
    pub fn update_header(&mut self)
        requires
            old(self).data.len() >= HEADER_SIZE,
        ensures
            final(self).header == old(self).header,
            final(self).slots == old(self).slots,
            final(self).data@ == old(self).header.bytes() + old(self).data@.skip(HEADER_SIZE as int),
    {
        self.header.write_to(&mut self.data);
    }

    /// In a well-formed page every tuple lies between the free offset and the
    /// end of the buffer.
    pub proof fn lemma_tuples_above_free(self, i: int)
        requires
            self.wf(),
            0 <= i < self.slots.len(),
        ensures
            self.header.free_offset <= self.slots@[i].offset,
            self.slots@[i].offset + self.slots@[i].length <= PAGE_DATA_SIZE,
        decreases self.slots.len() - i,
    {
        let n = self.slots.len() as int;
        assert(self.slots@[i].offset + self.slots@[i].length == self.tuple_end(i));
        if i + 1 < n {
            self.lemma_tuples_above_free(i + 1);
            assert(self.slots@[i + 1].offset + self.slots@[i + 1].length == self.tuple_end(i + 1));
        }
        if i > 0 {
            self.lemma_tuples_below_end(i - 1);
        }
    }

    /// In a well-formed page every tuple starts at or before the end of the
    /// buffer.
    pub proof fn lemma_tuples_below_end(self, i: int)
        requires
            self.wf(),
            0 <= i < self.slots.len(),
        ensures
            self.slots@[i].offset <= PAGE_DATA_SIZE,
        decreases i,
    {
        assert(self.slots@[i].offset + self.slots@[i].length == self.tuple_end(i));
        if i > 0 {
            self.lemma_tuples_below_end(i - 1);
        }
    }
}

/// Writes `bytes` over the bytes of `buffer` from position `at` on.
fn copy_into(buffer: &mut Vec<u8>, at: usize, bytes: &Vec<u8>)
    requires
        at + bytes.len() <= old(buffer).len(),
    ensures
        final(buffer)@ == old(buffer)@.subrange(0, at as int) + bytes@ + old(buffer)@.subrange(
            at + bytes.len(),
            old(buffer).len() as int,
        ),
{
    let size = bytes.len();
    let ghost len = buffer.len() as int;
    let mut i: usize = 0;
    while i < size
        invariant
            i <= size,
            size == bytes.len(),
            at + size <= len,
            len == buffer.len(),
            len == old(buffer).len(),
            buffer@ == old(buffer)@.subrange(0, at as int) + bytes@.subrange(0, i as int) + old(
                buffer,
            )@.subrange(at + i, len),
        decreases size - i,
    {
        buffer.set(at + i, bytes[i]);
        i += 1;
        assert(buffer@ =~= old(buffer)@.subrange(0, at as int) + bytes@.subrange(0, i as int) + old(
            buffer,
        )@.subrange(at + i, len));
    }
    assert(bytes@.subrange(0, size as int) =~= bytes@);
}

/// The header takes `HEADER_SIZE` bytes.
pub proof fn lemma_header_size(header: PageHeader)
    ensures
        header.bytes().len() == HEADER_SIZE,
{
    reveal(PageHeader::bytes);
    lemma_be_value_of_bytes(header.pgid.0);
    lemma_be_value_of_bytes(link_word(header.prev_page));
    lemma_be_value_of_bytes(link_word(header.next_page));
    lemma_be_value_of_bytes(header.free_offset);
    lemma_be_value_of_bytes(header.num_tuples);
}

/// A page that has taken a tuple below its tuples, with a slot for it and the
/// new header over the start of its buffer, is well formed, holds the new
/// tuple's bytes at the new slot and the old tuples' bytes where they were.
proof fn lemma_tuple_inserted(before: Page, after: Page, tuple: Seq<u8>)
    requires
        before.wf(),
        before.fits(tuple.len()),
        after.header == (PageHeader {
            free_offset: (before.header.free_offset - tuple.len()) as u32,
            num_tuples: (before.header.num_tuples + 1) as u32,
            ..before.header
        }),
        after.slots@ == before.slots@.push(
            Slot {
                offset: (before.header.free_offset - tuple.len()) as u32,
                length: tuple.len() as u32,
            },
        ),
        after.data@ == after.header.bytes() + (before.data@.subrange(
            0,
            before.header.free_offset - tuple.len(),
        ) + tuple + before.data@.subrange(
            before.header.free_offset as int,
            PAGE_DATA_SIZE as int,
        )).skip(HEADER_SIZE as int),
    ensures
        after.wf(),
        after.data@ == after.header.bytes() + before.data@.subrange(
            HEADER_SIZE as int,
            before.header.free_offset - tuple.len(),
        ) + tuple + before.data@.subrange(before.header.free_offset as int, PAGE_DATA_SIZE as int),
        after.tuple_bytes(before.header.num_tuples as int) == tuple,
        forall|i: int|
            0 <= i < before.header.num_tuples ==> #[trigger] after.tuple_bytes(i) == before.tuple_bytes(
                i,
            ),
{
    let count = before.header.num_tuples as int;
    let free = before.header.free_offset as int;
    let at = free - tuple.len();
    let image = after.header.bytes();
    lemma_header_size(after.header);
    assert(after.data@ =~= image + before.data@.subrange(HEADER_SIZE as int, at) + tuple
        + before.data@.subrange(free, PAGE_DATA_SIZE as int));
    assert(after.tuple_bytes(count) =~= tuple);
    assert forall|j: int| 0 <= j < count implies #[trigger] after.tuple_bytes(j) == before.tuple_bytes(
        j,
    ) by {
        before.lemma_tuples_above_free(j);
        assert(after.slots@[j] == before.slots@[j]);
        assert(after.tuple_bytes(j) =~= before.tuple_bytes(j));
    }
    assert forall|j: int| 0 <= j < after.slots.len() implies (#[trigger] after.slots@[j]).offset
        + after.slots@[j].length == after.tuple_end(j) by {
        if j < count {
            assert(after.slots@[j] == before.slots@[j]);
            assert(before.slots@[j].offset + before.slots@[j].length == before.tuple_end(j));
        }
    }
}

/// The eight bytes of a slot: its offset and its length, each as four bytes
/// with the most significant first.
pub open spec fn slot_bytes(slot: Slot) -> Seq<u8> {
    be_bytes(slot.offset) + be_bytes(slot.length)
}

/// The bytes of a slot array: the bytes of its slots in order.
pub open spec fn slots_bytes(slots: Seq<Slot>) -> Seq<u8>
    decreases slots.len(),
{
    if slots.len() == 0 {
        Seq::empty()
    } else {
        slots_bytes(slots.drop_last()) + slot_bytes(slots.last())
    }
}

/// The slot that stands at position `i` of the slot array of a block.
pub open spec fn slot_at(bytes: Seq<u8>, i: int) -> Slot {
    Slot {
        offset: be_value(bytes.subrange(HEADER_SIZE + i * SLOT_SIZE, HEADER_SIZE + i * SLOT_SIZE + 4)),
        length: be_value(
            bytes.subrange(HEADER_SIZE + i * SLOT_SIZE + 4, HEADER_SIZE + i * SLOT_SIZE + 8),
        ),
    }
}

/// The first `n` slots of the slot array of a block.
pub open spec fn decoded_slots(bytes: Seq<u8>, n: nat) -> Seq<Slot> {
    Seq::new(n, |i: int| slot_at(bytes, i))
}

/// The block holds a well-formed page: it has the size of a block, its slot
/// array ends at or before the free offset, and its tuples lie one below the
/// other from the end of the buffer down to the free offset.
pub open spec fn holds_page(bytes: Seq<u8>) -> bool {
    let header = PageHeader::parse(bytes);
    let slots = decoded_slots(bytes, header.num_tuples as nat);
    &&& bytes.len() == PAGE_SIZE
    &&& HEADER_SIZE + header.num_tuples * SLOT_SIZE <= header.free_offset <= PAGE_DATA_SIZE
    &&& forall|i: int|
        0 <= i < slots.len() ==> (#[trigger] slots[i]).offset + slots[i].length == if i == 0 {
            PAGE_DATA_SIZE as int
        } else {
            slots[i - 1].offset as int
        }
    &&& header.free_offset == if slots.len() == 0 {
        PAGE_DATA_SIZE as int
    } else {
        slots[slots.len() - 1].offset as int
    }
}

/// A slot array takes `SLOT_SIZE` bytes for each slot.
pub proof fn lemma_slots_bytes_len(slots: Seq<Slot>)
    ensures
        slots_bytes(slots).len() == slots.len() * SLOT_SIZE,
    decreases slots.len(),
{
    if slots.len() > 0 {
        lemma_slots_bytes_len(slots.drop_last());
        lemma_slot_size(slots.last());
    }
}

/// The bytes of slot `i` stand at position `i` of the bytes of a slot array.
pub proof fn lemma_slots_bytes_at(slots: Seq<Slot>, i: int)
    requires
        0 <= i < slots.len(),
    ensures
        slots_bytes(slots).len() == slots.len() * SLOT_SIZE,
        slots_bytes(slots).subrange(i * SLOT_SIZE, i * SLOT_SIZE + SLOT_SIZE) == slot_bytes(slots[i]),
    decreases slots.len(),
{
    lemma_slots_bytes_len(slots);
    lemma_slots_bytes_len(slots.drop_last());
    if i == slots.len() - 1 {
        assert(slots_bytes(slots).subrange(i * SLOT_SIZE, i * SLOT_SIZE + SLOT_SIZE) =~= slot_bytes(
            slots[i],
        ));
    } else {
        lemma_slots_bytes_at(slots.drop_last(), i);
        assert(slots_bytes(slots).subrange(i * SLOT_SIZE, i * SLOT_SIZE + SLOT_SIZE)
            =~= slots_bytes(slots.drop_last()).subrange(i * SLOT_SIZE, i * SLOT_SIZE + SLOT_SIZE));
    }
}

/// A slot takes `SLOT_SIZE` bytes.
pub proof fn lemma_slot_size(slot: Slot)
    ensures
        slot_bytes(slot).len() == SLOT_SIZE,
        slot_bytes(slot).subrange(0, 4) == be_bytes(slot.offset),
        slot_bytes(slot).subrange(4, 8) == be_bytes(slot.length),
{
    lemma_be_value_of_bytes(slot.offset);
    lemma_be_value_of_bytes(slot.length);
    assert(slot_bytes(slot).subrange(0, 4) =~= be_bytes(slot.offset));
    assert(slot_bytes(slot).subrange(4, 8) =~= be_bytes(slot.length));
}

/// Writes the bytes of `slot` over the bytes of `bytes` from position `at` on.
fn write_slot(bytes: &mut Vec<u8>, at: usize, slot: Slot)
    requires
        at + SLOT_SIZE <= old(bytes).len(),
    ensures
        final(bytes)@ == old(bytes)@.subrange(0, at as int) + slot_bytes(slot) + old(bytes)@.subrange(
            at + SLOT_SIZE,
            old(bytes).len() as int,
        ),
{
    write_u32_be(bytes, at, slot.offset);
    write_u32_be(bytes, at + 4, slot.length);
    proof {
        lemma_be_value_of_bytes(slot.offset);
        lemma_be_value_of_bytes(slot.length);
        assert(bytes@ =~= old(bytes)@.subrange(0, at as int) + slot_bytes(slot) + old(bytes)@.subrange(
            at + SLOT_SIZE,
            old(bytes).len() as int,
        ));
    }
}

/// Writing a slot's bytes over the start of what follows the slots written so
/// far lengthens the written slots by that slot and shortens the rest.
proof fn lemma_slot_written(head: Seq<u8>, done: Seq<u8>, slot: Seq<u8>, rest: Seq<u8>, tail: Seq<u8>)
    requires
        slot.len() <= rest.len(),
    ensures
        (head + done + rest + tail).subrange(0, (head.len() + done.len()) as int) + slot + (head + done
            + rest + tail).subrange(
            (head.len() + done.len() + slot.len()) as int,
            (head + done + rest + tail).len() as int,
        ) == head + (done + slot) + rest.skip(slot.len() as int) + tail,
{
    let whole = head + done + rest + tail;
    let at = (head.len() + done.len()) as int;
    assert(whole.subrange(0, at) + slot + whole.subrange(at + slot.len(), whole.len() as int) =~= head
        + (done + slot) + rest.skip(slot.len() as int) + tail);
}

/// In a block, the bytes of a slot stand behind the header and the slots
/// before it.
proof fn lemma_slot_in_image(head: Seq<u8>, array: Seq<u8>, rest: Seq<u8>, from: int, to: int)
    requires
        0 <= from <= to <= array.len(),
    ensures
        (head + array + rest).subrange(head.len() + from, head.len() + to) == array.subrange(from, to),
{
    assert((head + array + rest).subrange(head.len() + from, head.len() + to) =~= array.subrange(
        from,
        to,
    ));
}

/// The block of a well-formed page holds, at each position of its slot array,
/// the slot of the page.
proof fn lemma_image_slot(page: Page, i: int)
    requires
        page.wf(),
        0 <= i < page.slots@.len(),
    ensures
        slot_at(page.image(), i) == page.slots@[i],
{
    let image = page.image();
    let head = page.header.bytes();
    let array = slots_bytes(page.slots@);
    let rest = page.data@.subrange(
        HEADER_SIZE + page.slots@.len() * SLOT_SIZE,
        PAGE_DATA_SIZE as int,
    ) + Seq::new(HEADER_SIZE as nat, |i: int| 0u8);
    let slot = page.slots@[i];
    lemma_header_size(page.header);
    lemma_slots_bytes_at(page.slots@, i);
    lemma_slot_size(slot);
    assert(image =~= head + array + rest);
    let eight = array.subrange(i * SLOT_SIZE, i * SLOT_SIZE + SLOT_SIZE);
    lemma_slot_in_image(head, array, rest, i * SLOT_SIZE, i * SLOT_SIZE + 4);
    lemma_slot_in_image(head, array, rest, i * SLOT_SIZE + 4, i * SLOT_SIZE + 8);
    assert(array.subrange(i * SLOT_SIZE, i * SLOT_SIZE + 4) =~= eight.subrange(0, 4));
    assert(array.subrange(i * SLOT_SIZE + 4, i * SLOT_SIZE + 8) =~= eight.subrange(4, 8));
    lemma_be_value_of_bytes(slot.offset);
    lemma_be_value_of_bytes(slot.length);
}

/// The block of a well-formed page whose links are valid holds a page, and
/// that page has the header, the slots, and, from the end of the slot array
/// on, the bytes of the page that the block was made from.
pub proof fn lemma_image_reads_back(page: Page)
    requires
        page.wf(),
        page.header.links_valid(),
    ensures
        holds_page(page.image()),
        PageHeader::parse(page.image()) == page.header,
        decoded_slots(page.image(), page.slots@.len()) == page.slots@,
        page.image().subrange(
            HEADER_SIZE + page.slots@.len() * SLOT_SIZE,
            PAGE_DATA_SIZE as int,
        ) == page.data@.subrange(HEADER_SIZE + page.slots@.len() * SLOT_SIZE, PAGE_DATA_SIZE as int),
{
    let image = page.image();
    let n = page.slots@.len();
    let head = page.header.bytes();
    lemma_header_size(page.header);
    lemma_slots_bytes_len(page.slots@);
    assert(image.len() == PAGE_SIZE);
    assert(image.subrange(0, HEADER_SIZE as int) =~= head);
    lemma_header_reads_back(page.header, image);
    assert forall|i: int| 0 <= i < n implies slot_at(image, i) == page.slots@[i] by {
        lemma_image_slot(page, i);
    }
    assert(decoded_slots(image, n) =~= page.slots@);
    assert(image.subrange(HEADER_SIZE + n * SLOT_SIZE, PAGE_DATA_SIZE as int)
        =~= page.data@.subrange(HEADER_SIZE + n * SLOT_SIZE, PAGE_DATA_SIZE as int));
    let slots = decoded_slots(image, n);
    assert forall|i: int| 0 <= i < slots.len() implies (#[trigger] slots[i]).offset + slots[i].length
        == if i == 0 {
        PAGE_DATA_SIZE as int
    } else {
        slots[i - 1].offset as int
    } by {
        assert(page.slots@[i].offset + page.slots@[i].length == page.tuple_end(i));
    }
}

} // verus!
