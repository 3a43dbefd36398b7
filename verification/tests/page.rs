use kzdb::storage::bytes::{read_u32_be, write_u32_be};
use kzdb::storage::page::{Page, PageHeader, Slot, Tuple, HEADER_SIZE, PAGE_DATA_SIZE, SLOT_SIZE};
use kzdb::storage::{page_offset, PageId, RecordId, SlotId, StorageError, PAGE_SIZE};

fn tuple_of(byte: u8, len: usize) -> Tuple {
    Tuple { rid: RecordId(PageId(0), SlotId(0)), data: vec![byte; len] }
}

#[test]
fn insert_tuple() {
    let mut page = Page::new(PageId(0), None);
    let tuple_size = 50;
    let tuple = Tuple {
        rid: RecordId(PageId(0), SlotId(0)),
        data: vec![1; tuple_size],
    };

    page.insert_tuple(&tuple).unwrap();

    let page_data_size = PAGE_SIZE as usize - HEADER_SIZE;
    assert_eq!(
        page.header.free_offset as usize,
        page_data_size - tuple_size
    );
    assert_eq!(page.header.num_tuples, 1);

    let tuple2 = Tuple {
        rid: RecordId(PageId(0), SlotId(1)),
        data: vec![2; tuple_size],
    };
    page.insert_tuple(&tuple2).unwrap();
    assert_eq!(
        page.header.free_offset as usize,
        page_data_size - (tuple_size * 2)
    );
    assert_eq!(page.header.num_tuples, 2);

    assert_eq!(
        page.data[page.header.free_offset as usize..(page_data_size - tuple_size)],
        tuple2.data
    );
    assert_eq!(page.data[(page_data_size - tuple_size)..], tuple.data)
}

#[test]
fn update_header() {
    let mut page = Page::new(PageId(42), None);
    page.update_header();

    let mut expected = vec![0; HEADER_SIZE];
    expected[..4].copy_from_slice(&42u32.to_be_bytes());
    expected[12..16].copy_from_slice(&(page.data.len() as u32).to_be_bytes());

    let actual = &page.data[..HEADER_SIZE];
    assert_eq!(actual, expected)
}

#[test]
fn sizes_of_the_page() {
    assert_eq!(PAGE_SIZE, 8192);
    assert_eq!(HEADER_SIZE, 20);
    assert_eq!(SLOT_SIZE, 8);
    assert_eq!(PAGE_DATA_SIZE, 8172);
}

#[test]
fn block_of_a_page_starts_at_its_id_times_the_page_size() {
    assert_eq!(page_offset(PageId(0)), 0);
    assert_eq!(page_offset(PageId(1)), 8192);
    assert_eq!(page_offset(PageId(2)), 16384);
    assert_eq!(page_offset(PageId(4294967295)), 35184372080640);
}

#[test]
fn numbers_are_written_most_significant_byte_first() {
    let mut buffer = vec![9u8; 6];
    write_u32_be(&mut buffer, 1, 0x01020304);
    assert_eq!(buffer, vec![9, 1, 2, 3, 4, 9]);
    assert_eq!(read_u32_be(&buffer, 1), 0x01020304);
    write_u32_be(&mut buffer, 0, 4294967295);
    assert_eq!(buffer, vec![255, 255, 255, 255, 4, 9]);
    assert_eq!(read_u32_be(&buffer, 0), 4294967295);
    assert_eq!(read_u32_be(&buffer, 2), 0xffff0409);
}

#[test]
fn new_page_is_empty() {
    let page = Page::new(PageId(3), Some(PageId(2)));
    assert_eq!(
        page.header,
        PageHeader {
            pgid: PageId(3),
            prev_page: Some(PageId(2)),
            next_page: None,
            free_offset: 8172,
            num_tuples: 0,
        }
    );
    assert!(page.slots.is_empty());
    assert_eq!(page.data, vec![0u8; 8172]);
}

#[test]
fn header_is_written_field_by_field() {
    let header = PageHeader {
        pgid: PageId(0x0a0b0c0d),
        prev_page: Some(PageId(1)),
        next_page: None,
        free_offset: 8172,
        num_tuples: 258,
    };
    let mut buffer = vec![7u8; 22];
    header.write_to(&mut buffer);
    assert_eq!(
        buffer,
        vec![0x0a, 0x0b, 0x0c, 0x0d, 0, 0, 0, 1, 0, 0, 0, 0, 0, 0, 0x1f, 0xec, 0, 0, 1, 2, 7, 7]
    );
}

#[test]
fn written_header_reads_back() {
    let headers = [
        PageHeader { pgid: PageId(0), prev_page: None, next_page: None, free_offset: 0, num_tuples: 0 },
        PageHeader {
            pgid: PageId(4294967295),
            prev_page: Some(PageId(4294967295)),
            next_page: Some(PageId(1)),
            free_offset: 4294967295,
            num_tuples: 4294967295,
        },
        PageHeader {
            pgid: PageId(77),
            prev_page: None,
            next_page: Some(PageId(78)),
            free_offset: 8000,
            num_tuples: 3,
        },
    ];
    for header in headers {
        let mut buffer = vec![0u8; HEADER_SIZE];
        header.write_to(&mut buffer);
        assert_eq!(PageHeader::read_from(&buffer), Some(header));
        let mut again = vec![1u8; HEADER_SIZE];
        PageHeader::read_from(&buffer).unwrap().write_to(&mut again);
        assert_eq!(again, buffer);
    }
}

#[test]
fn link_to_page_zero_reads_back_as_no_link() {
    let header = PageHeader {
        pgid: PageId(1),
        prev_page: Some(PageId(0)),
        next_page: None,
        free_offset: 8172,
        num_tuples: 0,
    };
    let mut buffer = vec![0u8; HEADER_SIZE];
    header.write_to(&mut buffer);
    assert_eq!(PageHeader::read_from(&buffer).unwrap().prev_page, None);
}

#[test]
fn short_buffer_holds_no_header() {
    assert_eq!(PageHeader::read_from(&vec![0u8; 19]), None);
    assert!(PageHeader::read_from(&vec![0u8; 20]).is_some());
}

#[test]
fn tuples_lie_below_each_other_with_their_slots() {
    let mut page = Page::new(PageId(5), None);
    page.insert_tuple(&tuple_of(1, 50)).unwrap();
    page.insert_tuple(&tuple_of(2, 50)).unwrap();
    assert_eq!(page.header.free_offset, 8172 - 100);
    assert_eq!(page.header.num_tuples, 2);
    assert_eq!(page.slots, vec![Slot { offset: 8122, length: 50 }, Slot { offset: 8072, length: 50 }]);
    for (i, byte) in [1u8, 2u8].iter().enumerate() {
        let slot = page.slots[i];
        let from = slot.offset as usize;
        assert_eq!(page.data[from..from + slot.length as usize], vec![*byte; 50]);
    }
    assert!(page.slots[1].offset < page.slots[0].offset);
    let mut expected = vec![0u8; HEADER_SIZE];
    page.header.write_to(&mut expected);
    assert_eq!(page.data[..HEADER_SIZE], expected);
    assert_eq!(expected[12..16], [0, 0, 0x1f, 0x88]);
    assert_eq!(expected[16..20], [0, 0, 0, 2]);
}

#[test]
fn tuple_that_does_not_fit_is_rejected() {
    let mut page = Page::new(PageId(5), None);
    // 8172 - len >= 20 + 8: the largest tuple of an empty page has 8144 bytes
    assert_eq!(page.insert_tuple(&tuple_of(1, 8145)), Err(StorageError::PageFull));
    assert_eq!(page.header.num_tuples, 0);
    assert_eq!(page.header.free_offset, 8172);
    assert_eq!(page.data, vec![0u8; 8172]);
    assert_eq!(page.insert_tuple(&tuple_of(1, 100000)), Err(StorageError::PageFull));
    assert_eq!(page.insert_tuple(&tuple_of(1, 8144)), Ok(()));
    assert_eq!(page.header.free_offset, 28);
    assert_eq!(page.insert_tuple(&tuple_of(2, 0)), Err(StorageError::PageFull));
    assert_eq!(page.insert_tuple(&tuple_of(2, 1)), Err(StorageError::PageFull));
    assert_eq!(page.header.num_tuples, 1);
}

#[test]
fn empty_tuple_takes_a_slot() {
    let mut page = Page::new(PageId(5), None);
    assert_eq!(page.insert_tuple(&tuple_of(0, 0)), Ok(()));
    assert_eq!(page.header.free_offset, 8172);
    assert_eq!(page.header.num_tuples, 1);
    assert_eq!(page.slots, vec![Slot { offset: 8172, length: 0 }]);
}

#[test]
fn page_fills_up_with_its_slots() {
    let mut page = Page::new(PageId(5), None);
    let mut count = 0;
    while page.insert_tuple(&tuple_of(3, 92)).is_ok() {
        count += 1;
    }
    // each tuple takes 92 bytes and a slot of 8: 81 of them fit into 8152 bytes
    assert_eq!(count, 81);
    assert_eq!(page.header.num_tuples, 81);
    assert_eq!(page.header.free_offset as usize, 8172 - 81 * 92);
    assert!(page.header.free_offset as usize >= HEADER_SIZE + 81 * SLOT_SIZE);
}

#[test]
fn block_of_a_page_reads_back() {
    let mut page = Page::new(PageId(9), Some(PageId(8)));
    page.header.next_page = Some(PageId(10));
    page.insert_tuple(&tuple_of(0xaa, 3)).unwrap();
    page.insert_tuple(&tuple_of(0xbb, 2)).unwrap();
    let block = page.to_bytes();
    assert_eq!(block.len(), 8192);
    assert_eq!(block[..20], [0, 0, 0, 9, 0, 0, 0, 8, 0, 0, 0, 10, 0, 0, 0x1f, 0xe7, 0, 0, 0, 2]);
    assert_eq!(block[20..28], [0, 0, 0x1f, 0xe9, 0, 0, 0, 3]);
    assert_eq!(block[28..36], [0, 0, 0x1f, 0xe7, 0, 0, 0, 2]);
    assert_eq!(block[8167..8172], [0xbb, 0xbb, 0xaa, 0xaa, 0xaa]);
    assert_eq!(block[8172..], [0u8; 20]);
    let back = Page::from_bytes(&block).unwrap();
    assert_eq!(back.header, page.header);
    assert_eq!(back.slots, page.slots);
    assert_eq!(back.data[36..], page.data[36..]);
    assert_eq!(back.to_bytes(), block);
}

#[test]
fn block_that_holds_no_page_is_rejected() {
    let page = Page::new(PageId(9), None);
    let block = page.to_bytes();
    assert!(Page::from_bytes(&block).is_some());
    assert!(Page::from_bytes(&block[..8191].to_vec()).is_none());
    assert!(Page::from_bytes(&vec![0u8; 8192]).is_none());
    let mut free_beyond_end = block.clone();
    write_u32_be(&mut free_beyond_end, 12, 8173);
    assert!(Page::from_bytes(&free_beyond_end).is_none());
    let mut tuple_without_slot = block.clone();
    write_u32_be(&mut tuple_without_slot, 12, 8000);
    assert!(Page::from_bytes(&tuple_without_slot).is_none());
    let mut slot_out_of_place = block.clone();
    write_u32_be(&mut slot_out_of_place, 12, 8100);
    write_u32_be(&mut slot_out_of_place, 16, 1);
    write_u32_be(&mut slot_out_of_place, 20, 8100);
    write_u32_be(&mut slot_out_of_place, 24, 70);
    assert!(Page::from_bytes(&slot_out_of_place).is_none());
    write_u32_be(&mut slot_out_of_place, 24, 72);
    assert!(Page::from_bytes(&slot_out_of_place).is_some());
}

#[test]
fn copy_of_a_page_is_equal() {
    let mut page = Page::new(PageId(9), None);
    page.insert_tuple(&tuple_of(4, 10)).unwrap();
    let copy = page.duplicate();
    assert_eq!(copy.header, page.header);
    assert_eq!(copy.slots, page.slots);
    assert_eq!(copy.data, page.data);
}

#[test]
fn well_formed_pages_are_told_from_others() {
    let mut page = Page::new(PageId(9), None);
    assert!(page.is_well_formed());
    page.insert_tuple(&tuple_of(4, 10)).unwrap();
    page.insert_tuple(&tuple_of(5, 0)).unwrap();
    assert!(page.is_well_formed());
    let mut short = page.duplicate();
    short.data.pop();
    assert!(!short.is_well_formed());
    let mut miscounted = page.duplicate();
    miscounted.header.num_tuples = 3;
    assert!(!miscounted.is_well_formed());
    let mut gap = page.duplicate();
    gap.slots[1].offset = 8100;
    gap.header.free_offset = 8100;
    assert!(!gap.is_well_formed());
    let mut free_too_low = page.duplicate();
    free_too_low.header.free_offset = 30;
    assert!(!free_too_low.is_well_formed());
    let mut overlong = page.duplicate();
    overlong.slots[0].length = 4294967295;
    assert!(!overlong.is_well_formed());
}
