use sqlite_btree::cell::{
    local_payload_size, IndexInteriorCell, IndexLeafCell, TableInteriorCell, TableLeafCell,
};
use sqlite_btree::error::Error;
use sqlite_btree::overflow::ReadableRecord;
use sqlite_btree::page::{BtreePage, PageHeader, PageType};
use sqlite_btree::serial::SerialData;
use sqlite_btree::varint::encode_varint;

#[test]
fn page_type_tags() {
    assert_eq!(PageType::from_u8(2), Some(PageType::InteriorIndex));
    assert_eq!(PageType::from_u8(5), Some(PageType::InteriorTable));
    assert_eq!(PageType::from_u8(10), Some(PageType::LeafIndex));
    assert_eq!(PageType::from_u8(13), Some(PageType::LeafTable));
    assert_eq!(PageType::from_u8(7), None);
}

#[test]
fn page_with_unknown_type_fails() {
    let mut page = vec![0u8; 512];
    page[0] = 7;
    assert_eq!(BtreePage::new(page, 0, 0).unwrap_err(), Error::InvalidPageType);
    let mut page = vec![0u8; 512];
    page[100] = 7;
    assert_eq!(BtreePage::new(page, 100, 0).unwrap_err(), Error::InvalidPageType);
}

#[test]
fn short_page_is_out_of_bounds() {
    assert_eq!(BtreePage::new(vec![13, 0, 0], 0, 0).unwrap_err(), Error::OutOfBounds);
    assert_eq!(BtreePage::new(vec![5, 0, 0, 0, 0, 0, 0, 0, 0], 0, 0).unwrap_err(), Error::OutOfBounds);
    assert_eq!(BtreePage::new(vec![], 0, 0).unwrap_err(), Error::OutOfBounds);
}

#[test]
fn leaf_and_interior_headers() {
    let mut page = vec![0u8; 512];
    page[..8].copy_from_slice(&[13, 0x01, 0x02, 0x00, 0x03, 0x01, 0xf0, 4]);
    let p = BtreePage::new(page.clone(), 0, 0).unwrap();
    assert_eq!(p.page_type, PageType::LeafTable);
    match p.page_header {
        PageHeader::Leaf(h) => {
            assert_eq!(h.common_header.start_of_first_free_block, 0x0102);
            assert_eq!(h.common_header.num_cells, 3);
            assert_eq!(h.common_header.start_of_cell_content_area, 0x01f0);
            assert_eq!(h.common_header.num_fragmented_free_bytes, 4);
        }
        PageHeader::Interior(_) => panic!("leaf page read as interior"),
    }
    assert_eq!(p.get_raw_bytes_buffer(), &page);

    let mut page = vec![0u8; 512];
    page[..12].copy_from_slice(&[5, 0, 0, 0, 2, 0, 0, 0, 0, 0, 0x01, 0x07]);
    let p = BtreePage::new(page, 0, 0).unwrap();
    match p.page_header {
        PageHeader::Interior(h) => {
            assert_eq!(h.common_header.num_cells, 2);
            assert_eq!(h.right_most_pointer, 0x107);
        }
        PageHeader::Leaf(_) => panic!("interior page read as leaf"),
    }
}

#[test]
fn cell_pointers() {
    let mut page = vec![0u8; 512];
    page[0] = 13;
    page[4] = 2;
    page[8..12].copy_from_slice(&[0x01, 0xfe, 0x01, 0xf0]);
    let p = BtreePage::new(page, 0, 0).unwrap();
    assert_eq!(p.cell_pointer(0), Ok(0x1fe));
    assert_eq!(p.cell_pointer(1), Ok(0x1f0));
}

#[test]
fn spill_threshold_for_table_leaf() {
    // U = 4096, X = 4061, M = 489.
    assert_eq!(local_payload_size(4061, 4096, 4061), 4061);
    assert_eq!(local_payload_size(4062, 4096, 4061), 489);
    assert_eq!(local_payload_size(4100, 4096, 4061), 489);
    // K = M + (P - M) mod (U - 4) is kept where it is at most X.
    assert_eq!(local_payload_size(489 + 4092 + 100, 4096, 4061), 589);
    for p in [4062i64, 5000, 8000, 100000, 1 << 40] {
        let local = local_payload_size(p, 4096, 4061);
        assert!(local >= 489 && local <= 4061);
    }
}

/// The bytes of a record with text columns of the given lengths.
fn text_record(lens: &[usize]) -> Vec<u8> {
    let mut codes = Vec::new();
    for len in lens {
        codes.extend(encode_varint((len * 2 + 13) as i64));
    }
    let mut out = encode_varint(codes.len() as i64 + 1);
    out.extend(codes);
    for (i, len) in lens.iter().enumerate() {
        out.extend(std::iter::repeat(b'a' + i as u8).take(*len));
    }
    out
}

#[test]
fn table_leaf_cell_at_threshold_is_resident() {
    let payload = text_record(&[4061 - 3]);
    assert_eq!(payload.len(), 4061);
    let mut cell = encode_varint(payload.len() as i64);
    cell.extend(encode_varint(42));
    cell.extend(payload.iter().copied());
    let (c, used) = TableLeafCell::from_be_bytes(&cell, 4096, 0).unwrap();
    assert_eq!(used as usize, cell.len());
    assert_eq!(c.integer_key.0, 42);
    match c.payload {
        ReadableRecord::Fit(r) => assert_eq!(r.values().len(), 1),
        ReadableRecord::Lazy(_) => panic!("payload of X bytes spilled"),
    }
}

#[test]
fn table_leaf_cell_over_threshold_spills() {
    // Ten columns and 4100 bytes in all: more than X = 4061.
    let payload = text_record(&[408, 408, 408, 408, 408, 408, 408, 408, 408, 407]);
    assert_eq!(payload.len(), 4100);
    let mut cell = encode_varint(payload.len() as i64);
    cell.extend(encode_varint(7));
    cell.extend(payload[..489].iter().copied());
    cell.extend([0, 0, 0, 9]);
    let (c, used) = TableLeafCell::from_be_bytes(&cell, 4096, 0).unwrap();
    assert_eq!(used as usize, cell.len());
    match c.payload {
        ReadableRecord::Lazy(o) => {
            assert_eq!(o.record_header_size, 21);
            assert_eq!(o.header_size_len, 1);
            assert_eq!(o.raw_record_payload.len(), 488);
            assert_eq!(o.overflow_page, 9);
            assert_eq!(o.page_size, 4096);
        }
        ReadableRecord::Fit(_) => panic!("payload over X bytes kept whole"),
    }
}

#[test]
fn cell_with_bad_page_geometry() {
    let cell = vec![1, 1, 2, 1, 5];
    assert_eq!(TableLeafCell::from_be_bytes(&cell, 512, 40).unwrap_err(), Error::InvalidPageSize);
    assert_eq!(IndexLeafCell::from_be_bytes(&cell, 70000, 0).unwrap_err(), Error::InvalidPageSize);
}

#[test]
fn small_cells_of_each_layout() {
    // A table leaf cell: payload of 3 bytes, row key 5, record [I8 = 9].
    let (c, used) = TableLeafCell::from_be_bytes(&[3, 5, 2, 1, 9, 0xee], 512, 0).unwrap();
    assert_eq!(used, 5);
    assert_eq!(c.integer_key.0, 5);
    match c.payload {
        ReadableRecord::Fit(r) => assert_eq!(r.values(), &vec![SerialData::I8(9)]),
        ReadableRecord::Lazy(_) => panic!("small payload spilled"),
    }

    let (c, used) = TableInteriorCell::from_be_bytes(&[0, 0, 1, 2, 0x81, 0x00]).unwrap();
    assert_eq!(used, 6);
    assert_eq!(c.left_child_page_number, 0x102);
    assert_eq!(c.integer_key.0, 128);
    assert_eq!(TableInteriorCell::from_be_bytes(&[0, 0, 1]).unwrap_err(), Error::OutOfBounds);

    let (c, used) = IndexLeafCell::from_be_bytes(&[3, 2, 1, 9], 512, 0).unwrap();
    assert_eq!(used, 4);
    match c.payload {
        ReadableRecord::Fit(r) => assert_eq!(r.values(), &vec![SerialData::I8(9)]),
        ReadableRecord::Lazy(_) => panic!("small payload spilled"),
    }

    let (c, used) = IndexInteriorCell::from_be_bytes(&[0, 0, 0, 3, 3, 2, 1, 9], 512, 0).unwrap();
    assert_eq!(used, 8);
    assert_eq!(c.left_child_page_number, 3);
    match c.payload {
        ReadableRecord::Fit(r) => assert_eq!(r.values(), &vec![SerialData::I8(9)]),
        ReadableRecord::Lazy(_) => panic!("small payload spilled"),
    }
}

#[test]
fn resident_payload_past_the_page_end() {
    assert_eq!(TableLeafCell::from_be_bytes(&[9, 1, 2, 1], 512, 0).unwrap_err(), Error::OutOfBounds);
}
