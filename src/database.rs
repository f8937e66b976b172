//! The 100-byte file header and the schema table that names every table and index.
use crate::btree::{bytes_at, tree_rows, Btree, RowView};
use crate::page::parse_page_type;
use crate::cell::MAX_PAGE_SIZE;
use crate::error::Error;
use crate::overflow::ReadableRecord;
use crate::page::{be_u16_at, be_u32_at, read_u16, read_u32};
use crate::record::values_view;
use crate::serial::{SerialData, SerialValue};
use vstd::prelude::*;
use vstd::slice::{slice_subrange, slice_to_vec};
use vstd::string::StringExecFns;

verus! {

#[derive(Debug, Clone, Copy, PartialEq, Eq, Structural)]
pub enum FileFormatVersion {
    LEGACY,
    WAL,
}

impl FileFormatVersion {
    pub fn from_u8(val: u8) -> (r: Option<FileFormatVersion>)
        ensures
            r == (if val == 1 {
                Some(FileFormatVersion::LEGACY)
            } else if val == 2 {
                Some(FileFormatVersion::WAL)
            } else {
                None
            }),
    {
        match val {
            1 => Some(Self::LEGACY),
            2 => Some(Self::WAL),
            _ => None,
        }
    }
}

#[derive(Debug, Clone, Copy, PartialEq, Eq, Structural)]
pub enum SchemaFormatNumber {
    Fmt1,
    Fmt2,
    Fmt3,
    Fmt4,
}

impl SchemaFormatNumber {
    pub fn from_u32(val: u32) -> (r: Option<SchemaFormatNumber>)
        ensures
            r == (if val == 1 {
                Some(SchemaFormatNumber::Fmt1)
            } else if val == 2 {
                Some(SchemaFormatNumber::Fmt2)
            } else if val == 3 {
                Some(SchemaFormatNumber::Fmt3)
            } else if val == 4 {
                Some(SchemaFormatNumber::Fmt4)
            } else {
                None
            }),
    {
        match val {
            1 => Some(Self::Fmt1),
            2 => Some(Self::Fmt2),
            3 => Some(Self::Fmt3),
            4 => Some(Self::Fmt4),
            _ => None,
        }
    }
}

#[derive(Debug, Clone, Copy, PartialEq, Eq, Structural)]
pub enum DatabaseTextEncoding {
    Utf8,
    Utf16le,
    Utf16be,
}

impl DatabaseTextEncoding {
    pub fn from_u32(val: u32) -> (r: Option<DatabaseTextEncoding>)
        ensures
            r == (if val == 1 {
                Some(DatabaseTextEncoding::Utf8)
            } else if val == 2 {
                Some(DatabaseTextEncoding::Utf16le)
            } else if val == 3 {
                Some(DatabaseTextEncoding::Utf16be)
            } else {
                None
            }),
    {
        match val {
            1 => Some(Self::Utf8),
            2 => Some(Self::Utf16le),
            3 => Some(Self::Utf16be),
            _ => None,
        }
    }
}

#[derive(Debug, Clone, Copy, PartialEq, Eq, Structural)]
pub enum IsIncrementalVacuumMode {
    True,
    False,
}

impl IsIncrementalVacuumMode {
    pub fn from_u32(val: u32) -> (r: IsIncrementalVacuumMode)
        ensures
            r == (if val == 0 {
                IsIncrementalVacuumMode::False
            } else {
                IsIncrementalVacuumMode::True
            }),
    {
        match val {
            0 => Self::False,
            _ => Self::True,
        }
    }
}

/// The fields of the 100-byte header at the start of the file.
#[derive(Debug)]
pub struct DataBaseMetadata {
    pub header_str: Vec<u8>,
    pub page_size: u16,
    pub file_format_write_version: FileFormatVersion,
    pub file_format_read_version: FileFormatVersion,
    pub bytes_unused_reserved_space_at_page_end: u8,
    pub max_embedded_payload_fraction: u8,
    pub min_embedded_payload_fraction: u8,
    pub leaf_payload_fraction: u8,
    pub file_change_counter: u32,
    pub db_size_in_pages: u32,
    pub first_freelist_trunk_page_num: u32,
    pub total_freelist_pages: u32,
    pub schema_cookie: u32,
    pub schema_format_number: SchemaFormatNumber,
    pub default_page_cache_size: u32,
    pub page_num_largest_root_btee_in_vacccum: u32,
    pub database_text_encoding: DatabaseTextEncoding,
    pub user_version: u32,
    pub incremental_vacuum_mode: IsIncrementalVacuumMode,
    pub application_id: u32,
    pub expansion_reserved: Vec<u8>,
    pub version_valid_for: u32,
    pub sqlite_vesion_number: u32,
}

/// The length of the file header.
pub const FILE_HEADER_SIZE: usize = 100;

/// The file header `h` holds a version, schema format and text encoding that name
/// something.
pub open spec fn header_fields_valid(h: Seq<u8>) -> bool {
    &&& 1 <= h[18] <= 2
    &&& 1 <= h[19] <= 2
    &&& 1 <= be_u32_at(h, 44) <= 4
    &&& 1 <= be_u32_at(h, 56) <= 3
}

/// The page size that the file header `h` gives: the value 1 stands for 65536.
pub open spec fn file_page_size(h: Seq<u8>) -> u32 {
    if be_u16_at(h, 16) == 1 {
        MAX_PAGE_SIZE
    } else {
        be_u16_at(h, 16) as u32
    }
}

impl DataBaseMetadata {
    /// Reads the file header from the first 100 bytes of `bytes`.
    pub fn from_bytes(bytes: &[u8]) -> (r: Result<DataBaseMetadata, Error>)
        ensures
            bytes@.len() < 100 ==> r == Err::<DataBaseMetadata, Error>(Error::InvalidFileHeader),
            bytes@.len() >= 100 ==> (r is Ok <==> header_fields_valid(bytes@)),
            r matches Ok(m) ==> {
                &&& m.header_str@ == bytes@.subrange(0, 16)
                &&& (m.file_format_write_version == FileFormatVersion::LEGACY <==> bytes@[18] == 1)
                &&& (m.file_format_read_version == FileFormatVersion::LEGACY <==> bytes@[19] == 1)
                &&& m.schema_format_number == (if be_u32_at(bytes@, 44) == 1 {
                    SchemaFormatNumber::Fmt1
                } else if be_u32_at(bytes@, 44) == 2 {
                    SchemaFormatNumber::Fmt2
                } else if be_u32_at(bytes@, 44) == 3 {
                    SchemaFormatNumber::Fmt3
                } else {
                    SchemaFormatNumber::Fmt4
                })
                &&& m.database_text_encoding == (if be_u32_at(bytes@, 56) == 1 {
                    DatabaseTextEncoding::Utf8
                } else if be_u32_at(bytes@, 56) == 2 {
                    DatabaseTextEncoding::Utf16le
                } else {
                    DatabaseTextEncoding::Utf16be
                })
                &&& m.page_size == be_u16_at(bytes@, 16)
                &&& m.bytes_unused_reserved_space_at_page_end == bytes@[20]
                &&& m.max_embedded_payload_fraction == bytes@[21]
                &&& m.min_embedded_payload_fraction == bytes@[22]
                &&& m.leaf_payload_fraction == bytes@[23]
                &&& m.file_change_counter == be_u32_at(bytes@, 24)
                &&& m.db_size_in_pages == be_u32_at(bytes@, 28)
                &&& m.first_freelist_trunk_page_num == be_u32_at(bytes@, 32)
                &&& m.total_freelist_pages == be_u32_at(bytes@, 36)
                &&& m.schema_cookie == be_u32_at(bytes@, 40)
                &&& m.default_page_cache_size == be_u32_at(bytes@, 48)
                &&& m.page_num_largest_root_btee_in_vacccum == be_u32_at(bytes@, 52)
                &&& m.user_version == be_u32_at(bytes@, 60)
                &&& (m.incremental_vacuum_mode == IsIncrementalVacuumMode::True <==> be_u32_at(
                    bytes@,
                    64,
                ) != 0)
                &&& m.application_id == be_u32_at(bytes@, 68)
                &&& m.expansion_reserved@ == bytes@.subrange(72, 92)
                &&& m.version_valid_for == be_u32_at(bytes@, 92)
                &&& m.sqlite_vesion_number == be_u32_at(bytes@, 96)
            },
    {
        if bytes.len() < FILE_HEADER_SIZE {
            return Err(Error::InvalidFileHeader);
        }
        let file_format_write_version = match FileFormatVersion::from_u8(bytes[18]) {
            Some(v) => v,
            None => return Err(Error::InvalidFileHeader),
        };
        let file_format_read_version = match FileFormatVersion::from_u8(bytes[19]) {
            Some(v) => v,
            None => return Err(Error::InvalidFileHeader),
        };
        let schema_format_number = match SchemaFormatNumber::from_u32(read_u32(bytes, 44)) {
            Some(v) => v,
            None => return Err(Error::InvalidFileHeader),
        };
        let database_text_encoding = match DatabaseTextEncoding::from_u32(read_u32(bytes, 56)) {
            Some(v) => v,
            None => return Err(Error::InvalidFileHeader),
        };
        Ok(DataBaseMetadata {
            header_str: slice_to_vec(slice_subrange(bytes, 0, 16)),
            page_size: read_u16(bytes, 16),
            file_format_write_version,
            file_format_read_version,
            bytes_unused_reserved_space_at_page_end: bytes[20],
            max_embedded_payload_fraction: bytes[21],
            min_embedded_payload_fraction: bytes[22],
            leaf_payload_fraction: bytes[23],
            file_change_counter: read_u32(bytes, 24),
            db_size_in_pages: read_u32(bytes, 28),
            first_freelist_trunk_page_num: read_u32(bytes, 32),
            total_freelist_pages: read_u32(bytes, 36),
            schema_cookie: read_u32(bytes, 40),
            schema_format_number,
            default_page_cache_size: read_u32(bytes, 48),
            page_num_largest_root_btee_in_vacccum: read_u32(bytes, 52),
            database_text_encoding,
            user_version: read_u32(bytes, 60),
            incremental_vacuum_mode: IsIncrementalVacuumMode::from_u32(read_u32(bytes, 64)),
            application_id: read_u32(bytes, 68),
            expansion_reserved: slice_to_vec(slice_subrange(bytes, 72, 92)),
            version_valid_for: read_u32(bytes, 92),
            sqlite_vesion_number: read_u32(bytes, 96),
        })
    }

    pub open spec fn spec_page_size_bytes(&self) -> u32 {
        if self.page_size == 1 {
            MAX_PAGE_SIZE
        } else {
            self.page_size as u32
        }
    }

    /// The page size in bytes: the header's value 1 stands for 65536.
    pub fn page_size_bytes(&self) -> (r: u32)
        ensures
            r == self.spec_page_size_bytes(),
    {
        if self.page_size == 1 {
            MAX_PAGE_SIZE
        } else {
            self.page_size as u32
        }
    }
}


/// A row of the schema table: a table or an index, where its b-tree starts, and the SQL
/// that made it.
#[derive(Debug, Clone)]
pub struct TableInfo {
    pub obj_type: String,
    pub name: String,
    pub table_name: String,
    pub root_page_num: i64,
    pub sql: String,
}

/// The characters of a text value.
pub open spec fn text_of(v: SerialValue) -> Option<Seq<char>> {
    match v {
        SerialValue::Text(t) => Some(t),
        _ => None,
    }
}

/// The value of a root page number: an integer of one, two, three, six or eight bytes.
pub open spec fn int_of(v: SerialValue) -> Option<i64> {
    match v {
        SerialValue::I8(x) => Some(x as i64),
        SerialValue::I16(x) => Some(x as i64),
        SerialValue::I24(x) => Some(x as i64),
        SerialValue::I48(x) => Some(x),
        SerialValue::I64(x) => Some(x),
        _ => None,
    }
}

/// The SQL of a schema row: a text.
pub open spec fn sql_of(v: SerialValue) -> Option<Seq<char>> {
    match v {
        SerialValue::Text(t) => Some(t),
        _ => None,
    }
}

/// The schema row that the values `vs` make: five columns, of which type, name and
/// table name and SQL are texts and the root page an integer.
pub open spec fn table_info_spec(vs: Seq<SerialValue>) -> Option<
    (Seq<char>, Seq<char>, Seq<char>, i64, Seq<char>),
> {
    if vs.len() != 5 {
        None
    } else if text_of(vs[0]) is Some && text_of(vs[1]) is Some && text_of(vs[2]) is Some && int_of(
        vs[3],
    ) is Some && sql_of(vs[4]) is Some {
        Some(
            (
                text_of(vs[0])->Some_0,
                text_of(vs[1])->Some_0,
                text_of(vs[2])->Some_0,
                int_of(vs[3])->Some_0,
                sql_of(vs[4])->Some_0,
            ),
        )
    } else {
        None
    }
}

impl TableInfo {
    pub open spec fn view_tuple(&self) -> (Seq<char>, Seq<char>, Seq<char>, i64, Seq<char>) {
        (self.obj_type@, self.name@, self.table_name@, self.root_page_num, self.sql@)
    }

    /// The schema row that a record's values make.
    pub fn from_values(values: &Vec<SerialData>) -> (r: Result<TableInfo, Error>)
        ensures
            match table_info_spec(values_view(values@)) {
                Some(t) => r matches Ok(info) && info.view_tuple() == t,
                None => r == Err::<TableInfo, Error>(Error::InvalidSchemaRecord),
            },
    {
        if values.len() != 5 {
            return Err(Error::InvalidSchemaRecord);
        }
        let obj_type = match &values[0] {
            SerialData::Text(t) => t.clone(),
            _ => return Err(Error::InvalidSchemaRecord),
        };
        let name = match &values[1] {
            SerialData::Text(t) => t.clone(),
            _ => return Err(Error::InvalidSchemaRecord),
        };
        let table_name = match &values[2] {
            SerialData::Text(t) => t.clone(),
            _ => return Err(Error::InvalidSchemaRecord),
        };
        let root_page_num: i64 = match &values[3] {
            SerialData::I8(x) => *x as i64,
            SerialData::I16(x) => *x as i64,
            SerialData::I24(x) => *x as i64,
            SerialData::I48(x) => *x,
            SerialData::I64(x) => *x,
            _ => return Err(Error::InvalidSchemaRecord),
        };
        let sql = match &values[4] {
            SerialData::Text(t) => t.clone(),
            _ => return Err(Error::InvalidSchemaRecord),
        };
        Ok(TableInfo { obj_type, name, table_name, root_page_num, sql })
    }
}

/// The schema row `info` is what reading the record of `row` from `file` makes.
#[verifier::opaque]
pub open spec fn info_from_row(file: Seq<u8>, row: RowView, info: TableInfo) -> bool {
    exists|rec: ReadableRecord, vals: Vec<SerialData>|
        rec@ == crate::btree::row_record(row) && rec.read_ok(file, Ok(vals)) && table_info_spec(
            values_view(vals@),
        ) == Some(info.view_tuple())
}

proof fn lemma_info_from_row(
    file: Seq<u8>,
    row: RowView,
    rec: ReadableRecord,
    vals: Vec<SerialData>,
    info: TableInfo,
)
    requires
        rec@ == crate::btree::row_record(row),
        rec.read_ok(file, Ok(vals)),
        table_info_spec(values_view(vals@)) == Some(info.view_tuple()),
    ensures
        info_from_row(file, row, info),
{
    reveal(info_from_row);
}

/// Where reading the record of `row` fails, or gives values that make no schema row, no
/// schema row comes from `row`.
proof fn lemma_no_info(file: Seq<u8>, row: RowView, rec: ReadableRecord, r: Result<Vec<SerialData>, Error>)
    requires
        rec@ == crate::btree::row_record(row),
        rec.read_ok(file, r),
        r matches Ok(v) ==> table_info_spec(values_view(v@)) is None,
    ensures
        forall|info: TableInfo| !info_from_row(file, row, info),
{
    reveal(info_from_row);
    assert forall|info: TableInfo| !info_from_row(file, row, info) by {
        if info_from_row(file, row, info) {
            let (rec2, vals2) = choose|rec2: ReadableRecord, vals2: Vec<SerialData>|
                rec2@ == crate::btree::row_record(row) && rec2.read_ok(file, Ok(vals2))
                    && table_info_spec(values_view(vals2@)) == Some(info.view_tuple());
            ReadableRecord::lemma_read_deterministic(rec2, rec, file, Ok(vals2), r);
        }
    }
}

/// Two schema rows from the same row of the schema table are the same.
pub proof fn lemma_info_unique(file: Seq<u8>, row: RowView, a: TableInfo, b: TableInfo)
    requires
        info_from_row(file, row, a),
        info_from_row(file, row, b),
    ensures
        a.view_tuple() == b.view_tuple(),
{
    reveal(info_from_row);
    let (ra, va) = choose|ra: ReadableRecord, va: Vec<SerialData>|
        ra@ == crate::btree::row_record(row) && ra.read_ok(file, Ok(va))
            && table_info_spec(values_view(va@)) == Some(a.view_tuple());
    let (rb, vb) = choose|rb: ReadableRecord, vb: Vec<SerialData>|
        rb@ == crate::btree::row_record(row) && rb.read_ok(file, Ok(vb))
            && table_info_spec(values_view(vb@)) == Some(b.view_tuple());
    ReadableRecord::lemma_read_deterministic(ra, rb, file, Ok(va), Ok(vb));
}

/// The schema row that the record `rec` of `row` makes.
fn read_info(rec: &ReadableRecord, file: &[u8], row: Ghost<RowView>) -> (r: Result<TableInfo, Error>)
    requires
        rec@ == crate::btree::row_record(row@),
    ensures
        r matches Ok(info) ==> info_from_row(file@, row@, info),
        r is Err ==> forall|info: TableInfo| !info_from_row(file@, row@, info),
{
    let values = match rec.read_record(file) {
        Ok(v) => v,
        Err(e) => {
            proof {
                lemma_no_info(file@, row@, *rec, Err(e));
            }
            return Err(e);
        },
    };
    let info = match TableInfo::from_values(&values) {
        Ok(info) => info,
        Err(e) => {
            proof {
                lemma_no_info(file@, row@, *rec, Ok(values));
            }
            return Err(e);
        },
    };
    proof {
        lemma_info_from_row(file@, row@, *rec, values, info);
    }
    Ok(info)
}

/// No schema row from the rows before index `n` has type `obj_type` and name `name`.
pub open spec fn no_match_before(
    file: Seq<u8>,
    rows: Seq<RowView>,
    n: int,
    obj_type: Seq<char>,
    name: Seq<char>,
    by_table_name: bool,
) -> bool {
    forall|j: int, info: TableInfo|
        #![trigger info_from_row(file, rows[j], info)]
        0 <= j < n && info_from_row(file, rows[j], info) ==> !info_matches(info, obj_type, name, by_table_name)
}

/// `infos` holds the schema row of each row of the schema table, in order.
pub open spec fn infos_of_rows(file: Seq<u8>, rows: Seq<RowView>, infos: Seq<TableInfo>) -> bool {
    infos.len() == rows.len() && forall|i: int| 0 <= i < rows.len() ==> info_from_row(file, rows[i], #[trigger] infos[i])
}

/// The root pages of the index rows of table `table` among `infos`, in order.
pub open spec fn index_roots(infos: Seq<TableInfo>, table: Seq<char>) -> Seq<i64>
    decreases infos.len(),
{
    if infos.len() == 0 {
        seq![]
    } else {
        let rest = index_roots(infos.drop_last(), table);
        if infos.last().obj_type@ == "index"@ && infos.last().table_name@ == table {
            rest.push(infos.last().root_page_num)
        } else {
            rest
        }
    }
}

/// The index roots among the first `n` schema rows are the first of all of them.
proof fn lemma_index_roots_prefix(infos: Seq<TableInfo>, table: Seq<char>, n: int)
    requires
        0 <= n <= infos.len(),
    ensures
        index_roots(infos.subrange(0, n), table).len() <= index_roots(infos, table).len(),
        forall|j: int| 0 <= j < index_roots(infos.subrange(0, n), table).len() ==> #[trigger] index_roots(infos, table)[j]
            == index_roots(infos.subrange(0, n), table)[j],
    decreases infos.len() - n,
{
    if n < infos.len() {
        lemma_index_roots_prefix(infos, table, n + 1);
        assert(infos.subrange(0, n + 1).drop_last() =~= infos.subrange(0, n));
    } else {
        assert(infos.subrange(0, n) =~= infos);
    }
}

/// Two readings of the schema rows give the same index roots.
proof fn lemma_infos_same_roots(file: Seq<u8>, rows: Seq<RowView>, a: Seq<TableInfo>, b: Seq<TableInfo>, table: Seq<char>)
    requires
        infos_of_rows(file, rows, a),
        infos_of_rows(file, rows, b),
    ensures
        index_roots(a, table) == index_roots(b, table),
    decreases a.len(),
{
    if a.len() > 0 {
        let n = a.len() - 1;
        lemma_info_unique(file, rows[n], a[n], b[n]);
        assert(infos_of_rows(file, rows.drop_last(), a.drop_last()));
        assert(infos_of_rows(file, rows.drop_last(), b.drop_last()));
        lemma_infos_same_roots(file, rows.drop_last(), a.drop_last(), b.drop_last(), table);
    }
}

/// Every row of the schema table reads into a schema row.
pub open spec fn rows_readable(file: Seq<u8>, rows: Seq<RowView>) -> bool {
    forall|i: int| 0 <= i < rows.len() ==> row_has_info(file, #[trigger] rows[i])
}

/// The row of the schema table reads into a schema row.
pub open spec fn row_has_info(file: Seq<u8>, row: RowView) -> bool {
    exists|info: TableInfo| info_from_row(file, row, info)
}

/// An open database file: its bytes, its header and its schema b-tree.
pub struct Database {
    pub file: Vec<u8>,
    pub metadata: DataBaseMetadata,
    pub schema_table_btree: Btree,
}

impl Database {
    pub open spec fn wf(&self) -> bool {
        &&& self.schema_table_btree.wf(self.file@)
        &&& self.schema_table_btree.page_size == self.metadata.spec_page_size_bytes()
        &&& self.schema_table_btree.reserved_bytes_per_page
            == self.metadata.bytes_unused_reserved_space_at_page_end
    }

    /// Opens the database whose file holds the bytes `file`: reads the file header and
    /// the root page of the schema b-tree, whose header follows the file header.
    pub fn from_bytes(file: Vec<u8>) -> (r: Result<Database, Error>)
        ensures
            r matches Ok(db) ==> db.wf() && db.file@ == file@
                && db.schema_table_btree.root_page_offset == 0
                && db.schema_table_btree.root_page.spec_header_offset() == 100,
            r is Ok <==> file@.len() >= 100 && header_fields_valid(file@) && (bytes_at(
                file@,
                0,
                file_page_size(file@),
            ) matches Ok(b) && parse_page_type(b, 100) is Ok),
    {
        let metadata = match DataBaseMetadata::from_bytes(file.as_slice()) {
            Ok(m) => m,
            Err(e) => return Err(e),
        };
        let page_size = metadata.page_size_bytes();
        let schema_table_btree = match Btree::read_schema_table(
            file.as_slice(),
            page_size,
            metadata.bytes_unused_reserved_space_at_page_end,
        ) {
            Ok(b) => b,
            Err(e) => return Err(e),
        };
        Ok(Database { file, metadata, schema_table_btree })
    }

    /// Every row of the schema table, in order.
    pub fn get_master_table(&self) -> (r: Result<Vec<TableInfo>, Error>)
        requires
            self.wf(),
        ensures
            match tree_rows(
                self.file@,
                self.schema_table_btree.page_size,
                self.schema_table_btree.reserved_bytes_per_page,
                self.schema_table_btree.root_page_offset as int,
                self.schema_table_btree.root_page.spec_header_offset() as int,
            ) {
                Err(e) => r == Err::<Vec<TableInfo>, Error>(e),
                Ok(rows) => (r matches Ok(infos) ==> infos@.len() == rows.len() && forall|i: int|
                    0 <= i < rows.len() ==> info_from_row(self.file@, rows[i], #[trigger] infos@[i]))
                    && (r is Ok <==> rows_readable(self.file@, rows)),
            },
    {
        let records = match self.schema_table_btree.get_rows(self.file.as_slice()) {
            Ok(r) => r,
            Err(e) => return Err(e),
        };
        let ghost rows = tree_rows(
            self.file@,
            self.schema_table_btree.page_size,
            self.schema_table_btree.reserved_bytes_per_page,
            self.schema_table_btree.root_page_offset as int,
            self.schema_table_btree.root_page.spec_header_offset() as int,
        )->Ok_0;
        assert(tree_rows(
            self.file@,
            self.schema_table_btree.page_size,
            self.schema_table_btree.reserved_bytes_per_page,
            self.schema_table_btree.root_page_offset as int,
            self.schema_table_btree.root_page.spec_header_offset() as int,
        ) == Ok::<Seq<RowView>, Error>(rows));
        let mut results: Vec<TableInfo> = Vec::new();
        let mut i: usize = 0;
        while i < records.len()
            invariant
                tree_rows(
                    self.file@,
                    self.schema_table_btree.page_size,
                    self.schema_table_btree.reserved_bytes_per_page,
                    self.schema_table_btree.root_page_offset as int,
                    self.schema_table_btree.root_page.spec_header_offset() as int,
                ) == Ok::<Seq<RowView>, Error>(rows),
                i <= records@.len(),
                records@.len() == rows.len(),
                forall|j: int| 0 <= j < rows.len() ==> #[trigger] records@[j]@ == crate::btree::row_record(rows[j]),
                results@.len() == i,
                forall|j: int| 0 <= j < i ==> info_from_row(self.file@, rows[j], #[trigger] results@[j]),
            decreases records@.len() - i,
        {
            let info = match read_info(&records[i], self.file.as_slice(), Ghost(rows[i as int])) {
                Ok(info) => info,
                Err(e) => {
                    proof {
                        assert(!row_has_info(self.file@, rows[i as int]));
                    }
                    return Err(e);
                },
            };
            let ghost prev = results@;
            results.push(info);
            proof {
                assert forall|j: int| 0 <= j < i + 1 implies info_from_row(self.file@, rows[j], #[trigger] results@[j]) by {
                    if j < i {
                        assert(results@[j] == prev[j]);
                    }
                }
            }
            i = i + 1;
        }
        assert(results@.len() == rows.len());
        proof {
            assert forall|j: int| 0 <= j < rows.len() implies row_has_info(self.file@, #[trigger] rows[j]) by {
                assert(info_from_row(self.file@, rows[j], results@[j]));
            }
        }
        Ok(results)
    }

    /// The b-tree whose root page is page `root_page_num` of the file.
    pub fn btree_at(&self, root_page_num: i64) -> (r: Result<Btree, Error>)
        requires
            self.wf(),
        ensures
            self.btree_at_ok(root_page_num, r),
            r matches Ok(t) ==> t.wf(self.file@) && t.page_size == self.schema_table_btree.page_size
                && t.reserved_bytes_per_page == self.schema_table_btree.reserved_bytes_per_page
                && t.root_page_offset == (root_page_num - 1) * t.page_size
                && t.root_page.spec_header_offset() == 0,
    {
        if root_page_num < 1 {
            return Err(Error::InvalidSchemaRecord);
        }
        let page_size = self.schema_table_btree.page_size;
        let len = self.file.len();
        let n = (root_page_num - 1) as u64;
        if page_size != 0 && n > (len / page_size as usize) as u64 {
            proof {
                assert(n * page_size > len) by (nonlinear_arith)
                    requires
                        n > (len as int) / (page_size as int),
                        page_size > 0,
                ;
            }
            return Err(Error::ShortRead);
        }
        proof {
            if page_size > 0 {
                assert(n * page_size <= len) by (nonlinear_arith)
                    requires
                        n <= (len as int) / (page_size as int),
                        page_size > 0,
                ;
            }
        }
        let offset = n as usize * page_size as usize;
        Btree::read_table(
            self.file.as_slice(),
            page_size,
            offset,
            self.schema_table_btree.reserved_bytes_per_page,
        )
    }

    /// The b-tree of the first schema row of type `obj_type` whose name (or, with
    /// `by_table_name`, table name) is `name`.
    fn btree_from_info(&self, obj_type: &str, name: &str, by_table_name: bool) -> (r: Result<
        Btree,
        Error,
    >)
        requires
            self.wf(),
        ensures
            r matches Ok(t) ==> t.wf(self.file@) && t.page_size == self.schema_table_btree.page_size
                && t.reserved_bytes_per_page == self.schema_table_btree.reserved_bytes_per_page,
            self.found(obj_type@, name@, by_table_name, r),
    {
        let infos = match self.get_master_table() {
            Ok(v) => v,
            Err(e) => return Err(e),
        };
        let ghost rows = self.schema_rows()->Ok_0;
        let i = match find_info(&infos, obj_type, name, by_table_name) {
            Some(i) => i,
            None => {
                proof {
                    let file = self.file@;
                    assert forall|j: int, info: TableInfo|
                        #![trigger info_from_row(file, rows[j], info)]
                        0 <= j < rows.len() && info_from_row(file, rows[j], info) implies !info_matches(info, obj_type@, name@, by_table_name) by {
                        lemma_info_unique(file, rows[j], info, infos@[j]);
                    }
                }
                return Err(Error::ObjectNotFound);
            },
        };
        let r = self.btree_at(infos[i].root_page_num);
        proof {
            let rows = self.schema_rows()->Ok_0;
            let file = self.file@;
            assert(info_from_row(file, rows[i as int], infos@[i as int]));
            assert forall|j: int, info: TableInfo|
                #![trigger info_from_row(file, rows[j], info)]
                0 <= j < i && info_from_row(file, rows[j], info) implies !info_matches(info, obj_type@, name@, by_table_name) by {
                lemma_info_unique(file, rows[j], info, infos@[j]);
            }
            assert forall|j: int, info: TableInfo|
                #![trigger info_from_row(file, rows[j], info)]
                0 <= j < rows.len() && info_from_row(file, rows[j], info) && info_matches(info, obj_type@, name@, by_table_name)
                    && no_match_before(file, rows, j, obj_type@, name@, by_table_name) implies self.btree_at_ok(info.root_page_num, r) by {
                lemma_info_unique(file, rows[j], info, infos@[j]);
                if j > i {
                    assert(info_from_row(file, rows[i as int], infos@[i as int]));
                }
            }
            assert(!no_match_before(file, rows, rows.len() as int, obj_type@, name@, by_table_name));
        }
        r
    }

    /// What reading the b-tree whose root is page `root_page_num` owes: the root page at
    /// byte offset (root_page_num - 1) * page size, where that is in the file.
    pub open spec fn btree_at_ok(&self, root_page_num: i64, r: Result<Btree, Error>) -> bool {
        let page_size = self.schema_table_btree.page_size;
        if root_page_num < 1 {
            r == Err::<Btree, Error>(Error::InvalidSchemaRecord)
        } else if (root_page_num - 1) * page_size > self.file@.len() {
            r == Err::<Btree, Error>(Error::ShortRead)
        } else {
            Btree::read_ok(
                self.file@,
                page_size,
                ((root_page_num - 1) * page_size) as usize,
                0,
                self.schema_table_btree.reserved_bytes_per_page,
                r,
            )
        }
    }

    /// The schema rows, as traversing the schema b-tree gives them.
    pub open spec fn schema_rows(&self) -> Result<Seq<RowView>, Error> {
        tree_rows(
            self.file@,
            self.schema_table_btree.page_size,
            self.schema_table_btree.reserved_bytes_per_page,
            self.schema_table_btree.root_page_offset as int,
            self.schema_table_btree.root_page.spec_header_offset() as int,
        )
    }

    /// Whether `r` is what looking up the object of type `obj_type` named `name` owes:
    /// the traversal's error where the schema cannot be traversed, and an error where a
    /// row of it does not read into a schema row. Where every row does: `ObjectNotFound`
    /// exactly when no schema row has that type and name, and otherwise the b-tree whose
    /// root page the first such row gives.
    pub open spec fn found(&self, obj_type: Seq<char>, name: Seq<char>, by_table_name: bool, r: Result<Btree, Error>) -> bool {
        match self.schema_rows() {
            Err(e) => r == Err::<Btree, Error>(e),
            Ok(rows) => {
                &&& !rows_readable(self.file@, rows) ==> r is Err
                &&& rows_readable(self.file@, rows) ==> (r == Err::<Btree, Error>(Error::ObjectNotFound)
                    <==> no_match_before(self.file@, rows, rows.len() as int, obj_type, name, by_table_name))
                &&& rows_readable(self.file@, rows) ==> forall|i: int, info: TableInfo|
                    #![trigger info_from_row(self.file@, rows[i], info)]
                    0 <= i < rows.len() && info_from_row(self.file@, rows[i], info) && info_matches(
                        info,
                        obj_type,
                        name,
                        by_table_name,
                    ) && no_match_before(self.file@, rows, i, obj_type, name, by_table_name)
                        ==> self.btree_at_ok(info.root_page_num, r)
            },
        }
    }

    /// The b-tree of the table named `table_name`.
    pub fn get_table(&self, table_name: &str) -> (r: Result<Btree, Error>)
        requires
            self.wf(),
        ensures
            r matches Ok(t) ==> t.wf(self.file@),
            self.found("table"@, table_name@, true, r),
    {
        self.btree_from_info("table", table_name, true)
    }

    /// The b-tree of the index named `index_name`.
    pub fn get_index(&self, index_name: &str) -> (r: Result<Btree, Error>)
        requires
            self.wf(),
        ensures
            r matches Ok(t) ==> t.wf(self.file@),
            self.found("index"@, index_name@, false, r),
    {
        self.btree_from_info("index", index_name, false)
    }

    /// Whether `r` is what reading the index b-trees whose root pages are `roots` owes:
    /// one b-tree at each, in order, and success wherever every root page parses.
    pub open spec fn indices_ok(&self, roots: Seq<i64>, r: Result<Vec<Btree>, Error>) -> bool {
        &&& r matches Ok(v) ==> v@.len() == roots.len() && forall|j: int|
            0 <= j < v@.len() ==> (#[trigger] v@[j]).wf(self.file@) && v@[j].root_page_offset == (
            roots[j] - 1) * self.schema_table_btree.page_size
        &&& (forall|j: int| 0 <= j < roots.len() ==> self.root_parses(#[trigger] roots[j])) ==> r is Ok
    }

    /// Whether the page `root_page_num` is in the file and parses as a b-tree page.
    pub open spec fn root_parses(&self, root_page_num: i64) -> bool {
        let page_size = self.schema_table_btree.page_size;
        &&& root_page_num >= 1
        &&& (root_page_num - 1) * page_size <= self.file@.len()
        &&& bytes_at(self.file@, (root_page_num - 1) * page_size, page_size) matches Ok(b)
            && parse_page_type(b, 0) is Ok
    }

    /// The b-trees of every index on the table named `table_name`, in schema order: one
    /// for each index row of that table, at the root page that the row gives. The result
    /// is these wherever every row of the schema reads and every such root page parses.
    pub fn get_indices_for_table(&self, table_name: &str) -> (r: Result<Vec<Btree>, Error>)
        requires
            self.wf(),
        ensures
            match self.schema_rows() {
                Err(e) => r == Err::<Vec<Btree>, Error>(e),
                Ok(rows) => {
                    &&& !rows_readable(self.file@, rows) ==> r is Err
                    &&& forall|infos: Seq<TableInfo>|
                        #![trigger index_roots(infos, table_name@)]
                        infos_of_rows(self.file@, rows, infos) ==> self.indices_ok(
                            index_roots(infos, table_name@),
                            r,
                        )
                },
            },
    {
        let infos = match self.get_master_table() {
            Ok(v) => v,
            Err(e) => {
                proof {
                    if let Ok(rows) = self.schema_rows() {
                        assert forall|infos2: Seq<TableInfo>|
                            #![trigger index_roots(infos2, table_name@)]
                            !infos_of_rows(self.file@, rows, infos2) by {
                            if infos_of_rows(self.file@, rows, infos2) {
                                assert forall|j: int| 0 <= j < rows.len() implies row_has_info(self.file@, #[trigger] rows[j]) by {
                                    assert(info_from_row(self.file@, rows[j], infos2[j]));
                                }
                                assert(rows_readable(self.file@, rows));
                                assert(false);
                            }
                        }
                    }
                }
                return Err(e);
            },
        };
        let ghost rows = self.schema_rows()->Ok_0;
        assert(infos_of_rows(self.file@, rows, infos@));
        assert(self.file@.len() == self.file.len());
        let ghost all = index_roots(infos@, table_name@);
        proof {
            lemma_index_roots_prefix(infos@, table_name@, infos@.len() as int);
        }
        let index = String::from_str("index");
        let table = String::from_str(table_name);
        let mut results: Vec<Btree> = Vec::new();
        let mut i: usize = 0;
        while i < infos.len()
            invariant
                self.wf(),
                i <= infos@.len(),
                index@ == "index"@,
                table@ == table_name@,
                all == index_roots(infos@, table_name@),
                self.schema_rows() == Ok::<Seq<RowView>, Error>(rows),
                infos_of_rows(self.file@, rows, infos@),
                self.file@.len() <= usize::MAX,
                results@.len() == index_roots(infos@.subrange(0, i as int), table_name@).len(),
                results@.len() <= all.len(),
                forall|j: int| 0 <= j < results@.len() ==> all[j] == index_roots(infos@.subrange(0, i as int), table_name@)[j],
                forall|j: int| 0 <= j < results@.len() ==> (#[trigger] results@[j]).wf(self.file@)
                    && results@[j].root_page_offset == (all[j] - 1) * self.schema_table_btree.page_size,
            decreases infos@.len() - i,
        {
            proof {
                lemma_index_roots_prefix(infos@, table_name@, i as int + 1);
                assert(infos@.subrange(0, i as int + 1).drop_last() =~= infos@.subrange(0, i as int));
            }
            if infos[i].obj_type == index && infos[i].table_name == table {
                let t = match self.btree_at(infos[i].root_page_num) {
                    Ok(t) => t,
                    Err(e) => {
                        proof {
                            assert(index_roots(infos@.subrange(0, i as int + 1), table_name@)
                                == index_roots(infos@.subrange(0, i as int), table_name@).push(infos@[i as int].root_page_num));
                            assert(all[results@.len() as int] == infos@[i as int].root_page_num);
                            assert(!self.root_parses(all[results@.len() as int]));
                            assert forall|infos2: Seq<TableInfo>|
                                #![trigger index_roots(infos2, table_name@)]
                                infos_of_rows(self.file@, rows, infos2) implies !(forall|j: int|
                                    0 <= j < index_roots(infos2, table_name@).len() ==> self.root_parses(
                                    #[trigger] index_roots(infos2, table_name@)[j],
                                )) by {
                                lemma_infos_same_roots(self.file@, rows, infos@, infos2, table_name@);
                                assert(!self.root_parses(index_roots(infos2, table_name@)[results@.len() as int]));
                            }
                        }
                        return Err(e);
                    },
                };
                results.push(t);
            }
            i = i + 1;
        }
        proof {
            assert(infos@.subrange(0, infos@.len() as int) =~= infos@);
            assert forall|infos2: Seq<TableInfo>|
                #![trigger index_roots(infos2, table_name@)]
                infos_of_rows(self.file@, rows, infos2) implies index_roots(infos2, table_name@) == all by {
                lemma_infos_same_roots(self.file@, rows, infos@, infos2, table_name@);
            }
        }
        Ok(results)
    }
}


/// The schema row `info` is of type `obj_type` and named `name`, by its own name or,
/// with `by_table_name`, by its table's.
pub open spec fn info_matches(info: TableInfo, obj_type: Seq<char>, name: Seq<char>, by_table_name: bool) -> bool {
    info.obj_type@ == obj_type && (if by_table_name {
        info.table_name@
    } else {
        info.name@
    }) == name
}

/// The index of the first schema row that `info_matches`.
fn find_info(infos: &Vec<TableInfo>, obj_type: &str, name: &str, by_table_name: bool) -> (r: Option<usize>)
    ensures
        r matches Some(i) ==> i < infos@.len() && info_matches(infos@[i as int], obj_type@, name@, by_table_name)
            && forall|j: int| 0 <= j < i ==> !info_matches(#[trigger] infos@[j], obj_type@, name@, by_table_name),
        r is None ==> forall|j: int| 0 <= j < infos@.len() ==> !info_matches(#[trigger] infos@[j], obj_type@, name@, by_table_name),
{
    let t = String::from_str(obj_type);
    let n = String::from_str(name);
    let mut i: usize = 0;
    while i < infos.len()
        invariant
            i <= infos@.len(),
            t@ == obj_type@,
            n@ == name@,
            forall|j: int| 0 <= j < i ==> !info_matches(#[trigger] infos@[j], obj_type@, name@, by_table_name),
        decreases infos@.len() - i,
    {
        let key = if by_table_name {
            &infos[i].table_name
        } else {
            &infos[i].name
        };
        if infos[i].obj_type == t && *key == n {
            return Some(i);
        }
        i = i + 1;
    }
    None
}

} // verus!
