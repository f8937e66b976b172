use sqlite_btree::btree::{Btree, DataCell};
use sqlite_btree::database::{DataBaseMetadata, Database, TableInfo};
use sqlite_btree::error::Error;
use sqlite_btree::overflow::ReadableRecord;
use sqlite_btree::serial::SerialData;
use sqlite_btree::varint::encode_varint;

/// A record with the given serial type codes and body bytes.
fn record(columns: &[(i64, Vec<u8>)]) -> Vec<u8> {
    let mut codes = Vec::new();
    for (code, _) in columns {
        codes.extend(encode_varint(*code));
    }
    let mut header_len = codes.len() as i64 + 1;
    if encode_varint(header_len).len() > 1 {
        header_len += 1;
    }
    let mut out = encode_varint(header_len);
    out.extend(codes);
    for (_, body) in columns {
        out.extend(body.iter().copied());
    }
    out
}

fn text(s: &str) -> (i64, Vec<u8>) {
    (s.len() as i64 * 2 + 13, s.as_bytes().to_vec())
}

fn int8(v: i8) -> (i64, Vec<u8>) {
    (1, vec![v as u8])
}

/// A table leaf cell whose payload is all on the page.
fn table_leaf_cell(key: i64, payload: &[u8]) -> Vec<u8> {
    let mut cell = encode_varint(payload.len() as i64);
    cell.extend(encode_varint(key));
    cell.extend(payload.iter().copied());
    cell
}

/// A page of type `kind` with its header at `hoff`, the given cells packed at its end,
/// and, on an interior page, the right-most pointer `right`.
fn page(size: usize, hoff: usize, kind: u8, cells: &[Vec<u8>], right: u32) -> Vec<u8> {
    let mut p = vec![0u8; size];
    p[hoff] = kind;
    p[hoff + 3..hoff + 5].copy_from_slice(&(cells.len() as u16).to_be_bytes());
    let header_len = if kind == 2 || kind == 5 { 12 } else { 8 };
    if header_len == 12 {
        p[hoff + 8..hoff + 12].copy_from_slice(&right.to_be_bytes());
    }
    let mut end = size;
    for (i, cell) in cells.iter().enumerate() {
        end -= cell.len();
        p[end..end + cell.len()].copy_from_slice(cell);
        let at = hoff + header_len + 2 * i;
        p[at..at + 2].copy_from_slice(&(end as u16).to_be_bytes());
    }
    p[hoff + 5..hoff + 7].copy_from_slice(&(end as u16).to_be_bytes());
    p
}

fn interior_cell(child: u32, key: i64) -> Vec<u8> {
    let mut cell = child.to_be_bytes().to_vec();
    cell.extend(encode_varint(key));
    cell
}

fn leaf_of_keys(keys: &[i64]) -> Vec<u8> {
    let cells: Vec<Vec<u8>> = keys
        .iter()
        .map(|k| table_leaf_cell(*k, &record(&[int8(*k as i8)])))
        .collect();
    page(512, 0, 13, &cells, 0)
}

fn keys_of(cells: &[DataCell]) -> Vec<i64> {
    cells
        .iter()
        .map(|c| match c {
            DataCell::Table(t) => t.integer_key.0,
            _ => panic!("index cell in a table b-tree"),
        })
        .collect()
}

/// Pages 1 to 6 of a 512-byte-page file: page 2 is an interior root over page 6 (an
/// interior page over leaves 3 and 4) and, as its right-most child, leaf 5.
fn two_level_file() -> Vec<u8> {
    let mut file = vec![0u8; 512];
    file.extend(page(512, 0, 5, &[interior_cell(6, 5)], 5));
    file.extend(leaf_of_keys(&[1, 2]));
    file.extend(leaf_of_keys(&[3, 4, 5]));
    file.extend(leaf_of_keys(&[6, 7]));
    file.extend(page(512, 0, 5, &[interior_cell(3, 2)], 4));
    file
}

#[test]
fn traversal_visits_every_leaf_in_order() {
    let file = two_level_file();
    let tree = Btree::read_table(&file, 512, 512, 0).unwrap();
    let cells = tree.get_cells(&file).unwrap();
    assert_eq!(cells.len(), 7);
    let keys = keys_of(&cells);
    assert_eq!(keys, vec![1, 2, 3, 4, 5, 6, 7]);
    assert!(keys.windows(2).all(|w| w[0] < w[1]));
    let rows = tree.get_rows(&file).unwrap();
    assert_eq!(rows.len(), 7);
    match &rows[6] {
        ReadableRecord::Fit(r) => assert_eq!(r.values(), &vec![SerialData::I8(7)]),
        ReadableRecord::Lazy(_) => panic!("small row spilled"),
    }
}

#[test]
fn traversal_of_a_single_leaf() {
    let mut file = vec![0u8; 512];
    file.extend(leaf_of_keys(&[10, 20, 30]));
    let tree = Btree::read_table(&file, 512, 512, 0).unwrap();
    assert_eq!(keys_of(&tree.get_cells(&file).unwrap()), vec![10, 20, 30]);
}

#[test]
fn traversal_with_missing_child_page() {
    let mut file = vec![0u8; 512];
    file.extend(page(512, 0, 5, &[interior_cell(3, 2)], 9));
    file.extend(leaf_of_keys(&[1, 2]));
    let tree = Btree::read_table(&file, 512, 512, 0).unwrap();
    assert_eq!(tree.get_cells(&file).unwrap_err(), Error::ShortRead);
}

#[test]
fn traversal_with_looping_child_pointer() {
    let mut file = vec![0u8; 512];
    file.extend(page(512, 0, 5, &[], 2));
    let tree = Btree::read_table(&file, 512, 512, 0).unwrap();
    assert_eq!(tree.get_cells(&file).unwrap_err(), Error::TreeTooDeep);
}

#[test]
fn corrupt_child_page_type() {
    let mut file = vec![0u8; 512];
    file.extend(page(512, 0, 5, &[], 3));
    let mut bad = vec![0u8; 512];
    bad[0] = 7;
    file.extend(bad);
    let tree = Btree::read_table(&file, 512, 512, 0).unwrap();
    assert_eq!(tree.get_cells(&file).unwrap_err(), Error::InvalidPageType);
}

#[test]
fn root_page_past_the_file_end() {
    let file = vec![0u8; 700];
    assert_eq!(Btree::read_table(&file, 512, 512, 0).unwrap_err(), Error::ShortRead);
}

/// Lays out `payload` as a spilled table leaf cell on page 2 of a file of `page_size`
/// pages, keeping `local` bytes on the page and the rest on overflow pages 3, 4, ...
fn spilled_file(page_size: usize, payload: &[u8], local: usize) -> Vec<u8> {
    let rest = &payload[local..];
    let chunk = page_size - 4;
    let n_overflow = (rest.len() + chunk - 1) / chunk;
    let mut cell = encode_varint(payload.len() as i64);
    cell.extend(encode_varint(1));
    cell.extend(payload[..local].iter().copied());
    cell.extend(3u32.to_be_bytes());
    let mut file = vec![0u8; page_size];
    file.extend(page(page_size, 0, 13, &[cell], 0));
    for i in 0..n_overflow {
        let mut p = vec![0u8; page_size];
        let next = if i + 1 < n_overflow { 4 + i as u32 } else { 0 };
        p[..4].copy_from_slice(&next.to_be_bytes());
        let part = &rest[i * chunk..((i + 1) * chunk).min(rest.len())];
        p[4..4 + part.len()].copy_from_slice(part);
        file.extend(p);
    }
    file
}

fn read_single_row(file: &[u8], page_size: u32) -> Vec<SerialData> {
    let tree = Btree::read_table(file, page_size, page_size as usize, 0).unwrap();
    let rows = tree.get_rows(file).unwrap();
    assert_eq!(rows.len(), 1);
    rows[0].read_record(file).unwrap()
}

#[test]
fn spilled_record_of_ten_columns() {
    let columns: Vec<(i64, Vec<u8>)> = (0..10)
        .map(|i| {
            let len = if i == 9 { 407 } else { 408 };
            let body = vec![b'a' + i as u8; len];
            (len as i64 * 2 + 13, body)
        })
        .collect();
    let payload = record(&columns);
    assert_eq!(payload.len(), 4100);
    let file = spilled_file(4096, &payload, 489);
    let tree = Btree::read_table(&file, 4096, 4096, 0).unwrap();
    let rows = tree.get_rows(&file).unwrap();
    match &rows[0] {
        ReadableRecord::Lazy(o) => {
            assert_eq!(o.overflow_page, 3);
            assert_eq!(o.raw_record_payload.len(), 488);
        }
        ReadableRecord::Fit(_) => panic!("4100-byte payload kept whole"),
    }
    let values = read_single_row(&file, 4096);
    assert_eq!(values.len(), 10);
    for (i, v) in values.iter().enumerate() {
        let expected = String::from_utf8(columns[i].1.clone()).unwrap();
        assert_eq!(v, &SerialData::Text(expected));
    }
}

#[test]
fn spilled_record_with_type_varint_across_pages() {
    // One I8 column, then thirty texts of 65 bytes whose type codes take two bytes:
    // the code of the nineteenth text takes the last resident byte and the first byte
    // of the first overflow page. U = 512 keeps M = 39 bytes on the page.
    let mut columns = vec![int8(-5)];
    for i in 0..30 {
        columns.push((65 * 2 + 13, vec![b'A' + (i % 26) as u8; 65]));
    }
    let payload = record(&columns);
    assert_eq!(payload.len(), 2013);
    assert!(payload[38] >= 0x80);
    let file = spilled_file(512, &payload, 39);
    assert_eq!(file.len(), 512 * 6);
    let values = read_single_row(&file, 512);
    assert_eq!(values.len(), 31);
    assert_eq!(values[0], SerialData::I8(-5));
    for i in 0..30 {
        let expected = String::from_utf8(vec![b'A' + (i % 26) as u8; 65]).unwrap();
        assert_eq!(values[i + 1], SerialData::Text(expected));
    }
}

#[test]
fn spilled_record_with_chain_cut_short() {
    let mut columns = vec![int8(1)];
    for _ in 0..30 {
        columns.push((65 * 2 + 13, vec![b'x'; 65]));
    }
    let payload = record(&columns);
    let mut file = spilled_file(512, &payload, 39);
    // The third overflow page says it is the last.
    let third = 512 * 4;
    file[third..third + 4].copy_from_slice(&[0, 0, 0, 0]);
    let tree = Btree::read_table(&file, 512, 512, 0).unwrap();
    let rows = tree.get_rows(&file).unwrap();
    assert_eq!(rows[0].read_record(&file).unwrap_err(), Error::MissingOverflowPage);
    // A chain that points past the end of the file.
    file[third..third + 4].copy_from_slice(&[0, 0, 0, 40]);
    assert_eq!(rows[0].read_record(&file).unwrap_err(), Error::ShortRead);
}

/// A 512-byte-page database: page 1 holds the file header and a schema of one table
/// `t` at page 2 and one index `i_t` on it at page 3.
fn database_file() -> Vec<u8> {
    let mut header = vec![0u8; 100];
    header[..16].copy_from_slice(b"SQLite format 3\0");
    header[16..18].copy_from_slice(&512u16.to_be_bytes());
    header[18] = 1;
    header[19] = 1;
    header[21] = 64;
    header[22] = 32;
    header[23] = 32;
    header[28..32].copy_from_slice(&3u32.to_be_bytes());
    header[44..48].copy_from_slice(&4u32.to_be_bytes());
    header[56..60].copy_from_slice(&1u32.to_be_bytes());
    let table = record(&[text("table"), text("t"), text("t"), int8(2), text("CREATE TABLE t(a)")]);
    let index = record(&[text("index"), text("i_t"), text("t"), int8(3), text("CREATE INDEX i_t ON t(a)")]);
    let mut page1 = page(512, 100, 13, &[table_leaf_cell(1, &table), table_leaf_cell(2, &index)], 0);
    page1[..100].copy_from_slice(&header);
    let mut file = page1;
    file.extend(leaf_of_keys(&[1, 2]));
    let index_cell = {
        let key = record(&[int8(1), int8(1)]);
        let mut c = encode_varint(key.len() as i64);
        c.extend(key);
        c
    };
    file.extend(page(512, 0, 10, &[index_cell], 0));
    file
}

#[test]
fn file_header_fields() {
    let file = database_file();
    let m = DataBaseMetadata::from_bytes(&file).unwrap();
    assert_eq!(m.page_size, 512);
    assert_eq!(m.page_size_bytes(), 512);
    assert_eq!(m.db_size_in_pages, 3);
    assert_eq!(m.header_str, b"SQLite format 3\0".to_vec());
    assert_eq!(DataBaseMetadata::from_bytes(&file[..99]).unwrap_err(), Error::InvalidFileHeader);
    let mut bad = file.clone();
    bad[56..60].copy_from_slice(&9u32.to_be_bytes());
    assert_eq!(DataBaseMetadata::from_bytes(&bad).unwrap_err(), Error::InvalidFileHeader);
}

#[test]
fn schema_table_and_lookups() {
    let db = Database::from_bytes(database_file()).unwrap();
    let infos = db.get_master_table().unwrap();
    assert_eq!(infos.len(), 2);
    assert_eq!(infos[0].obj_type, "table");
    assert_eq!(infos[0].name, "t");
    assert_eq!(infos[0].root_page_num, 2);
    assert_eq!(infos[0].sql, "CREATE TABLE t(a)");
    assert_eq!(infos[1].obj_type, "index");
    assert_eq!(infos[1].sql, "CREATE INDEX i_t ON t(a)");

    let t = db.get_table("t").unwrap();
    assert_eq!(keys_of(&t.get_cells(&db.file).unwrap()), vec![1, 2]);
    let i = db.get_index("i_t").unwrap();
    let rows = i.get_rows(&db.file).unwrap();
    assert_eq!(rows.len(), 1);
    assert_eq!(rows[0].read_record(&db.file).unwrap(), vec![SerialData::I8(1), SerialData::I8(1)]);
    assert_eq!(db.get_indices_for_table("t").unwrap().len(), 1);
    assert_eq!(db.get_table("missing").unwrap_err(), Error::ObjectNotFound);
    assert_eq!(db.get_index("t").unwrap_err(), Error::ObjectNotFound);
}

#[test]
fn root_page_lookup_errors() {
    let db = Database::from_bytes(database_file()).unwrap();
    assert_eq!(db.btree_at(0).unwrap_err(), Error::InvalidSchemaRecord);
    assert_eq!(db.btree_at(99).unwrap_err(), Error::ShortRead);
    let t = db.btree_at(2).unwrap();
    assert_eq!(t.root_page_offset, 512);
}

#[test]
fn spilled_record_reads_the_same_twice() {
    let mut columns = vec![int8(3)];
    for i in 0..30 {
        columns.push((65 * 2 + 13, vec![b'a' + (i % 26) as u8; 65]));
    }
    let payload = record(&columns);
    let file = spilled_file(512, &payload, 39);
    let tree = Btree::read_table(&file, 512, 512, 0).unwrap();
    let rows = tree.get_rows(&file).unwrap();
    let first = rows[0].read_record(&file).unwrap();
    let second = rows[0].read_record(&file).unwrap();
    assert_eq!(first, second);
    assert_eq!(first.len(), 31);
}

#[test]
fn schema_row_of_another_shape_is_rejected() {
    let row = |sql: SerialData, root: SerialData| {
        vec![
            SerialData::Text("index".to_string()),
            SerialData::Text("i".to_string()),
            SerialData::Text("t".to_string()),
            root,
            sql,
        ]
    };
    let ok = TableInfo::from_values(&row(SerialData::Text("x".to_string()), SerialData::I8(3))).unwrap();
    assert_eq!(ok.root_page_num, 3);
    assert_eq!(
        TableInfo::from_values(&row(SerialData::Null, SerialData::I8(3))).unwrap_err(),
        Error::InvalidSchemaRecord
    );
    assert_eq!(
        TableInfo::from_values(&row(SerialData::Text("x".to_string()), SerialData::One)).unwrap_err(),
        Error::InvalidSchemaRecord
    );
    assert_eq!(
        TableInfo::from_values(&row(SerialData::Text("x".to_string()), SerialData::I32(9))).unwrap_err(),
        Error::InvalidSchemaRecord
    );
    assert_eq!(TableInfo::from_values(&vec![SerialData::Null]).unwrap_err(), Error::InvalidSchemaRecord);
}
