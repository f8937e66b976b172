//! Traversal of a b-tree: every cell of every leaf, left to right, and the key records
//! of index interior pages in their place among them.
use crate::cell::{
    index_interior_spec, index_payload_spec, table_interior_spec, table_leaf_spec, IndexInteriorCell,
    IndexLeafCell, TableInteriorCell, TableLeafCell,
};
use crate::error::Error;
use crate::overflow::{ReadableRecord, RecordView};
use crate::page::{be_u16_at, be_u32_at, header_len, parse_page_type, BtreePage, PageHeader, PageType};
use vstd::prelude::*;
use vstd::slice::{slice_subrange, slice_to_vec};

verus! {

/// Whether a b-tree holds table rows or index keys.
#[derive(Debug, Clone, Copy, PartialEq, Eq, Structural)]
pub enum BtreeType {
    Table,
    Index,
}

/// A cell that a traversal yields.
#[derive(Debug, Clone)]
pub enum DataCell {
    Table(TableLeafCell),
    IndexLeaf(IndexLeafCell),
    IndexInterior(IndexInteriorCell),
}

/// What a traversal yields for one cell: a table row with its key, or an index key
/// record.
pub enum RowView {
    Table(i64, RecordView),
    Index(RecordView),
}

impl View for DataCell {
    type V = RowView;

    open spec fn view(&self) -> RowView {
        match self {
            DataCell::Table(c) => RowView::Table(c.integer_key.0, c.payload@),
            DataCell::IndexLeaf(c) => RowView::Index(c.payload@),
            DataCell::IndexInterior(c) => RowView::Index(c.payload@),
        }
    }
}

pub open spec fn rows_view(v: Seq<DataCell>) -> Seq<RowView> {
    v.map_values(|c: DataCell| c@)
}

/// The `page_size` bytes at byte offset `off` of the file; `ShortRead` where they are not
/// all there.
pub open spec fn bytes_at(file: Seq<u8>, off: int, page_size: u32) -> Result<Seq<u8>, Error> {
    if off + page_size > file.len() {
        Err(Error::ShortRead)
    } else {
        Ok(file.subrange(off, off + page_size))
    }
}

/// Page `n` of the file, numbered from 1.
pub open spec fn page_at(file: Seq<u8>, page_size: u32, n: u32) -> Result<Seq<u8>, Error> {
    if n == 0 {
        Err(Error::ShortRead)
    } else {
        bytes_at(file, (n - 1) * page_size, page_size)
    }
}

/// The number of pages of the file.
pub open spec fn page_count(file: Seq<u8>, page_size: u32) -> nat {
    if page_size == 0 {
        0
    } else {
        file.len() / (page_size as nat)
    }
}

/// The bytes from the `i`-th cell of page `b` (header at `hoff`, type `t`) to the page
/// end.
pub open spec fn cell_at(b: Seq<u8>, hoff: int, t: PageType, i: int) -> Result<Seq<u8>, Error> {
    let pos = hoff + header_len(t) + 2 * i;
    if pos + 2 > b.len() {
        Err(Error::OutOfBounds)
    } else if be_u16_at(b, pos) > b.len() {
        Err(Error::OutOfBounds)
    } else {
        Ok(b.subrange(be_u16_at(b, pos) as int, b.len() as int))
    }
}

pub open spec fn num_cells_at(b: Seq<u8>, hoff: int) -> nat {
    be_u16_at(b, hoff + 3) as nat
}

/// What a leaf cell yields.
pub open spec fn leaf_row(content: Seq<u8>, t: PageType, page_size: u32, reserved: u8) -> Result<
    RowView,
    Error,
> {
    if t == PageType::LeafTable {
        match table_leaf_spec(content, page_size, reserved) {
            Ok((_, key, rec, _)) => Ok(RowView::Table(key.0, rec)),
            Err(e) => Err(e),
        }
    } else {
        match index_payload_spec(content, page_size, reserved) {
            Ok((_, rec, _)) => Ok(RowView::Index(rec)),
            Err(e) => Err(e),
        }
    }
}

/// What the cells of a leaf page from the `i`-th on yield.
pub open spec fn leaf_rows(
    b: Seq<u8>,
    hoff: int,
    t: PageType,
    page_size: u32,
    reserved: u8,
    i: nat,
) -> Result<Seq<RowView>, Error>
    decreases num_cells_at(b, hoff) - i,
{
    if i >= num_cells_at(b, hoff) {
        Ok(seq![])
    } else {
        match cell_at(b, hoff, t, i as int) {
            Err(e) => Err(e),
            Ok(content) => match leaf_row(content, t, page_size, reserved) {
                Err(e) => Err(e),
                Ok(row) => match leaf_rows(b, hoff, t, page_size, reserved, i + 1) {
                    Ok(rest) => Ok(seq![row] + rest),
                    Err(e) => Err(e),
                },
            },
        }
    }
}

/// What an interior cell gives: the child page, and for an index the key record.
pub open spec fn interior_cell(content: Seq<u8>, t: PageType, page_size: u32, reserved: u8) -> Result<
    (u32, Seq<RowView>),
    Error,
> {
    if t == PageType::InteriorTable {
        match table_interior_spec(content) {
            Ok((child, _, _)) => Ok((child, seq![])),
            Err(e) => Err(e),
        }
    } else {
        match index_interior_spec(content, page_size, reserved) {
            Ok((child, _, rec, _)) => Ok((child, seq![RowView::Index(rec)])),
            Err(e) => Err(e),
        }
    }
}

/// What the subtree rooted at page `n` yields, with at most `fuel` interior levels.
pub open spec fn subtree_rows(file: Seq<u8>, page_size: u32, reserved: u8, n: u32, fuel: nat) -> Result<
    Seq<RowView>,
    Error,
>
    decreases fuel, 2nat, 0nat,
{
    match page_at(file, page_size, n) {
        Err(e) => Err(e),
        Ok(b) => page_rows(file, page_size, reserved, b, 0, fuel),
    }
}

/// What the page `b`, whose header starts at `hoff`, and the pages below it yield.
pub open spec fn page_rows(
    file: Seq<u8>,
    page_size: u32,
    reserved: u8,
    b: Seq<u8>,
    hoff: int,
    fuel: nat,
) -> Result<Seq<RowView>, Error>
    decreases fuel, 1nat, 0nat,
{
    match parse_page_type(b, hoff) {
        Err(e) => Err(e),
        Ok(t) => if t.spec_is_interior() {
            interior_rows(file, page_size, reserved, b, hoff, t, 0, fuel)
        } else {
            leaf_rows(b, hoff, t, page_size, reserved, 0)
        },
    }
}

/// What the children of an interior page from the `i`-th cell on yield, the right-most
/// child last.
pub open spec fn interior_rows(
    file: Seq<u8>,
    page_size: u32,
    reserved: u8,
    b: Seq<u8>,
    hoff: int,
    t: PageType,
    i: nat,
    fuel: nat,
) -> Result<Seq<RowView>, Error>
    decreases fuel, 0nat, num_cells_at(b, hoff) - i,
{
    if fuel == 0 {
        Err(Error::TreeTooDeep)
    } else if i >= num_cells_at(b, hoff) {
        subtree_rows(file, page_size, reserved, be_u32_at(b, hoff + 8), (fuel - 1) as nat)
    } else {
        match cell_at(b, hoff, t, i as int) {
            Err(e) => Err(e),
            Ok(content) => match interior_cell(content, t, page_size, reserved) {
                Err(e) => Err(e),
                Ok((child, own)) => match subtree_rows(file, page_size, reserved, child, (fuel - 1) as nat) {
                    Err(e) => Err(e),
                    Ok(left) => match interior_rows(file, page_size, reserved, b, hoff, t, i + 1, fuel) {
                        Err(e) => Err(e),
                        Ok(rest) => Ok(left + own + rest),
                    },
                },
            },
        }
    }
}


pub open spec fn prepend_rows(p: Seq<RowView>, r: Result<Seq<RowView>, Error>) -> Result<
    Seq<RowView>,
    Error,
> {
    match r {
        Ok(rest) => Ok(p + rest),
        Err(e) => Err(e),
    }
}

/// Whether a traversal step that appended to `out` met `spec`: on success it appended
/// exactly the rows of `spec`, and it failed exactly with `spec`'s error.
pub open spec fn rows_appended(
    spec: Result<Seq<RowView>, Error>,
    before: Seq<DataCell>,
    after: Seq<DataCell>,
    r: Result<(), Error>,
) -> bool {
    match spec {
        Ok(rows) => r is Ok && before.len() <= after.len() && after.subrange(0, before.len() as int)
            == before && rows_view(after.subrange(before.len() as int, after.len() as int)) == rows,
        Err(e) => r == Err::<(), Error>(e),
    }
}

/// Reads the `page_size` bytes at byte offset `off` of the file.
fn read_bytes_at(file: &[u8], off: u64, page_size: u32) -> (r: Result<Vec<u8>, Error>)
    ensures
        match bytes_at(file@, off as int, page_size) {
            Ok(b) => r matches Ok(v) && v@ == b,
            Err(e) => r == Err::<Vec<u8>, Error>(e),
        },
{
    let len = file.len();
    if off > len as u64 || page_size as u64 > len as u64 - off {
        return Err(Error::ShortRead);
    }
    Ok(slice_to_vec(slice_subrange(file, off as usize, off as usize + page_size as usize)))
}

/// Reads page `n` of the file.
fn read_page(file: &[u8], page_size: u32, n: u32) -> (r: Result<Vec<u8>, Error>)
    ensures
        match page_at(file@, page_size, n) {
            Ok(b) => r matches Ok(v) && v@ == b,
            Err(e) => r == Err::<Vec<u8>, Error>(e),
        },
{
    if n == 0 {
        return Err(Error::ShortRead);
    }
    proof {
        assert((n - 1) as u64 * page_size as u64 <= 0xffff_ffff * 0xffff_ffff) by (nonlinear_arith)
            requires
                n >= 1,
        ;
    }
    read_bytes_at(file, (n - 1) as u64 * page_size as u64, page_size)
}

/// Appends to `out` what the subtree rooted at page `n` yields.
fn traverse_subtree(
    file: &[u8],
    page_size: u32,
    reserved: u8,
    n: u32,
    fuel: usize,
    out: &mut Vec<DataCell>,
) -> (r: Result<(), Error>)
    ensures
        rows_appended(
            subtree_rows(file@, page_size, reserved, n, fuel as nat),
            old(out)@,
            final(out)@,
            r,
        ),
    decreases fuel, 2int,
{
    let b = match read_page(file, page_size, n) {
        Ok(b) => b,
        Err(e) => return Err(e),
    };
    let page = match BtreePage::new(b, 0, reserved) {
        Ok(p) => p,
        Err(e) => return Err(e),
    };
    traverse_page(file, page_size, reserved, &page, fuel, out)
}

/// One step of a traversal loop: rows `added` were appended after `before`, and they
/// are the front of what was still owed.
proof fn lemma_append_step(
    start: Seq<DataCell>,
    before: Seq<DataCell>,
    after: Seq<DataCell>,
    added: Seq<RowView>,
    total: Result<Seq<RowView>, Error>,
    owed: Result<Seq<RowView>, Error>,
    owed_next: Result<Seq<RowView>, Error>,
)
    requires
        start.len() <= before.len() <= after.len(),
        before.subrange(0, start.len() as int) == start,
        after.subrange(0, before.len() as int) == before,
        rows_view(after.subrange(before.len() as int, after.len() as int)) == added,
        total == prepend_rows(rows_view(before.subrange(start.len() as int, before.len() as int)), owed),
        owed == prepend_rows(added, owed_next),
    ensures
        after.subrange(0, start.len() as int) == start,
        total == prepend_rows(rows_view(after.subrange(start.len() as int, after.len() as int)), owed_next),
{
    let mid = before.subrange(start.len() as int, before.len() as int);
    assert(after.subrange(0, start.len() as int) =~= before.subrange(0, start.len() as int));
    assert(after.subrange(start.len() as int, after.len() as int) =~= mid + after.subrange(
        before.len() as int,
        after.len() as int,
    ));
    assert(rows_view(mid + after.subrange(before.len() as int, after.len() as int)) =~= rows_view(mid)
        + rows_view(after.subrange(before.len() as int, after.len() as int)));
    if let Ok(rest) = owed_next {
        assert(rows_view(mid) + (added + rest) =~= (rows_view(mid) + added) + rest);
    }
}

/// The bytes from the `i`-th cell of `page` to the page end.
fn cell_content(page: &BtreePage, i: u16) -> (r: Result<&[u8], Error>)
    requires
        page.wf(),
    ensures
        match cell_at(page.raw(), page.spec_header_offset() as int, page.page_type, i as int) {
            Ok(c) => r matches Ok(s) && s@ == c,
            Err(e) => r == Err::<&[u8], Error>(e),
        },
{
    let ptr = match page.cell_pointer(i) {
        Ok(p) => p,
        Err(e) => return Err(e),
    };
    let raw = page.get_raw_bytes_buffer().as_slice();
    if ptr as usize > raw.len() {
        return Err(Error::OutOfBounds);
    }
    Ok(slice_subrange(raw, ptr as usize, raw.len()))
}

/// Appends to `out` what the cells of the leaf `page` yield.
fn traverse_leaf(page: &BtreePage, page_size: u32, reserved: u8, out: &mut Vec<DataCell>) -> (r:
    Result<(), Error>)
    requires
        page.wf(),
        !page.page_type.spec_is_interior(),
    ensures
        rows_appended(
            leaf_rows(page.raw(), page.spec_header_offset() as int, page.page_type, page_size, reserved, 0),
            old(out)@,
            final(out)@,
            r,
        ),
{
    let ghost b = page.raw();
    let ghost hoff = page.spec_header_offset() as int;
    let ghost t = page.page_type;
    let ghost start = out@;
    let num_cells = page.num_cells();
    let mut i: u16 = 0;
    while i < num_cells
        invariant
            page.wf(),
            b == page.raw(),
            hoff == page.spec_header_offset(),
            t == page.page_type,
            !t.spec_is_interior(),
            num_cells == num_cells_at(b, hoff),
            i <= num_cells,
            start.len() <= out@.len(),
            out@.subrange(0, start.len() as int) == start,
            leaf_rows(b, hoff, t, page_size, reserved, 0) == prepend_rows(
                rows_view(out@.subrange(start.len() as int, out@.len() as int)),
                leaf_rows(b, hoff, t, page_size, reserved, i as nat),
            ),
        decreases num_cells - i,
    {
        let content = match cell_content(page, i) {
            Ok(c) => c,
            Err(e) => return Err(e),
        };
        let cell = if page.page_type == PageType::LeafTable {
            match TableLeafCell::from_be_bytes(content, page_size, reserved) {
                Ok((c, _)) => DataCell::Table(c),
                Err(e) => return Err(e),
            }
        } else {
            match IndexLeafCell::from_be_bytes(content, page_size, reserved) {
                Ok((c, _)) => DataCell::IndexLeaf(c),
                Err(e) => return Err(e),
            }
        };
        let ghost before = out@;
        out.push(cell);
        proof {
            assert(out@.subrange(0, before.len() as int) =~= before);
            assert(rows_view(out@.subrange(before.len() as int, out@.len() as int)) =~= seq![cell@]);
            lemma_append_step(
                start,
                before,
                out@,
                seq![cell@],
                leaf_rows(b, hoff, t, page_size, reserved, 0),
                leaf_rows(b, hoff, t, page_size, reserved, i as nat),
                leaf_rows(b, hoff, t, page_size, reserved, i as nat + 1),
            );
        }
        i = i + 1;
    }
    proof {
        assert(rows_view(out@.subrange(start.len() as int, out@.len() as int)) + seq![] =~= rows_view(out@.subrange(start.len() as int, out@.len() as int)));
    }
    Ok(())
}

/// Appends to `out` what `page` and the pages below it yield.
fn traverse_page(
    file: &[u8],
    page_size: u32,
    reserved: u8,
    page: &BtreePage,
    fuel: usize,
    out: &mut Vec<DataCell>,
) -> (r: Result<(), Error>)
    requires
        page.wf(),
    ensures
        rows_appended(
            page_rows(file@, page_size, reserved, page.raw(), page.spec_header_offset() as int, fuel as nat),
            old(out)@,
            final(out)@,
            r,
        ),
    decreases fuel, 1int,
{
    if page.page_type.is_interior() {
        traverse_interior(file, page_size, reserved, page, fuel, out)
    } else {
        traverse_leaf(page, page_size, reserved, out)
    }
}

pub open spec fn own_rows_of(own: Option<IndexInteriorCell>) -> Seq<RowView> {
    match own {
        Some(c) => seq![DataCell::IndexInterior(c)@],
        None => seq![],
    }
}

/// The child page of the `i`-th cell of the interior `page`, and for an index its key
/// record.
fn interior_child(page: &BtreePage, i: u16, page_size: u32, reserved: u8) -> (r: Result<
    (u32, Option<IndexInteriorCell>),
    Error,
>)
    requires
        page.wf(),
        page.page_type.spec_is_interior(),
    ensures
        match cell_at(page.raw(), page.spec_header_offset() as int, page.page_type, i as int) {
            Err(e) => r == Err::<(u32, Option<IndexInteriorCell>), Error>(e),
            Ok(content) => match interior_cell(content, page.page_type, page_size, reserved) {
                Ok((child, own)) => r matches Ok((c, o)) && c == child && own_rows_of(o) == own,
                Err(e) => r == Err::<(u32, Option<IndexInteriorCell>), Error>(e),
            },
        },
{
    let content = match cell_content(page, i) {
        Ok(c) => c,
        Err(e) => return Err(e),
    };
    if page.page_type == PageType::InteriorTable {
        match TableInteriorCell::from_be_bytes(content) {
            Ok((c, _)) => Ok((c.left_child_page_number, None)),
            Err(e) => Err(e),
        }
    } else {
        match IndexInteriorCell::from_be_bytes(content, page_size, reserved) {
            Ok((c, _)) => Ok((c.left_child_page_number, Some(c))),
            Err(e) => Err(e),
        }
    }
}

/// One cell of an interior page: its child's rows, its own, then what the cells after
/// it owe.
#[verifier::rlimit(40)]
proof fn lemma_interior_unfold(
    file: Seq<u8>,
    page_size: u32,
    reserved: u8,
    b: Seq<u8>,
    hoff: int,
    t: PageType,
    i: nat,
    fuel: nat,
    child: u32,
    own: Seq<RowView>,
)
    requires
        fuel > 0,
        i < num_cells_at(b, hoff),
        cell_at(b, hoff, t, i as int) matches Ok(content) && interior_cell(content, t, page_size, reserved)
            == Ok::<(u32, Seq<RowView>), Error>((child, own)),
    ensures
        interior_rows(file, page_size, reserved, b, hoff, t, i, fuel) == prepend_rows(
            subtree_rows(file, page_size, reserved, child, (fuel - 1) as nat)->Ok_0,
            prepend_rows(own, interior_rows(file, page_size, reserved, b, hoff, t, i + 1, fuel)),
        ) || (subtree_rows(file, page_size, reserved, child, (fuel - 1) as nat) is Err
            && interior_rows(file, page_size, reserved, b, hoff, t, i, fuel) == subtree_rows(
            file,
            page_size,
            reserved,
            child,
            (fuel - 1) as nat,
        )),
{
    let left = subtree_rows(file, page_size, reserved, child, (fuel - 1) as nat);
    if let Ok(l) = left {
        if let Ok(rest) = interior_rows(file, page_size, reserved, b, hoff, t, i + 1, fuel) {
            assert(l + own + rest =~= l + (own + rest));
        }
    }
}

/// Appends to `out` what the children of the interior `page` yield, the right-most
/// child last.
fn traverse_interior(
    file: &[u8],
    page_size: u32,
    reserved: u8,
    page: &BtreePage,
    fuel: usize,
    out: &mut Vec<DataCell>,
) -> (r: Result<(), Error>)
    requires
        page.wf(),
        page.page_type.spec_is_interior(),
    ensures
        rows_appended(
            interior_rows(file@, page_size, reserved, page.raw(), page.spec_header_offset() as int, page.page_type, 0, fuel as nat),
            old(out)@,
            final(out)@,
            r,
        ),
    decreases fuel, 0int,
{
    let ghost b = page.raw();
    let ghost hoff = page.spec_header_offset() as int;
    let ghost t = page.page_type;
    let ghost start = out@;
    if fuel == 0 {
        return Err(Error::TreeTooDeep);
    }
    let num_cells = page.num_cells();
    let right_most = match page.page_header {
        PageHeader::Interior(h) => h.right_most_pointer,
        PageHeader::Leaf(_) => 0,
    };
    let mut i: u16 = 0;
    while i < num_cells
        invariant
            page.wf(),
            b == page.raw(),
            hoff == page.spec_header_offset(),
            t == page.page_type,
            t.spec_is_interior(),
            fuel > 0,
            num_cells == num_cells_at(b, hoff),
            i <= num_cells,
            start.len() <= out@.len(),
            out@.subrange(0, start.len() as int) == start,
            interior_rows(file@, page_size, reserved, b, hoff, t, 0, fuel as nat) == prepend_rows(
                rows_view(out@.subrange(start.len() as int, out@.len() as int)),
                interior_rows(file@, page_size, reserved, b, hoff, t, i as nat, fuel as nat),
            ),
        decreases num_cells - i,
    {
        let ghost before = out@;
        let (child, own) = match interior_child(page, i, page_size, reserved) {
            Ok(x) => x,
            Err(e) => return Err(e),
        };
        let ghost own_rows: Seq<RowView> = own_rows_of(own);
        match traverse_subtree(file, page_size, reserved, child, fuel - 1, out) {
            Ok(()) => {},
            Err(e) => return Err(e),
        }
        let ghost after_left = out@;
        let ghost left = subtree_rows(file@, page_size, reserved, child, (fuel - 1) as nat)->Ok_0;
        proof {
            lemma_interior_unfold(file@, page_size, reserved, b, hoff, t, i as nat, fuel as nat, child, own_rows);
            lemma_append_step(
                start,
                before,
                after_left,
                left,
                interior_rows(file@, page_size, reserved, b, hoff, t, 0, fuel as nat),
                interior_rows(file@, page_size, reserved, b, hoff, t, i as nat, fuel as nat),
                prepend_rows(own_rows, interior_rows(file@, page_size, reserved, b, hoff, t, i as nat + 1, fuel as nat)),
            );
        }
        match own {
            Some(c) => {
                out.push(DataCell::IndexInterior(c));
                proof {
                    assert(out@.subrange(0, after_left.len() as int) =~= after_left);
                    assert(rows_view(out@.subrange(after_left.len() as int, out@.len() as int)) =~= own_rows);
                }
            },
            None => {
                proof {
                    assert(out@.subrange(0, after_left.len() as int) =~= after_left);
                    assert(rows_view(out@.subrange(after_left.len() as int, out@.len() as int)) =~= own_rows);
                }
            },
        }
        proof {
            lemma_append_step(
                start,
                after_left,
                out@,
                own_rows,
                interior_rows(file@, page_size, reserved, b, hoff, t, 0, fuel as nat),
                prepend_rows(own_rows, interior_rows(file@, page_size, reserved, b, hoff, t, i as nat + 1, fuel as nat)),
                interior_rows(file@, page_size, reserved, b, hoff, t, i as nat + 1, fuel as nat),
            );
        }
        i = i + 1;
    }
    let ghost before = out@;
    match traverse_subtree(file, page_size, reserved, right_most, fuel - 1, out) {
        Ok(()) => {},
        Err(e) => return Err(e),
    }
    proof {
        let right = subtree_rows(file@, page_size, reserved, right_most, (fuel - 1) as nat)->Ok_0;
        lemma_append_step(
            start,
            before,
            out@,
            right,
            interior_rows(file@, page_size, reserved, b, hoff, t, 0, fuel as nat),
            interior_rows(file@, page_size, reserved, b, hoff, t, i as nat, fuel as nat),
            Ok(seq![]),
        );
        assert(rows_view(out@.subrange(start.len() as int, out@.len() as int)) + seq![] =~= rows_view(out@.subrange(start.len() as int, out@.len() as int)));
    }
    Ok(())
}


/// What the b-tree whose root page is the `page_size` bytes at byte offset `page_offset`,
/// its header at `header_offset` in that page, yields: every row, left to right.
#[verifier::opaque]
pub open spec fn tree_rows(
    file: Seq<u8>,
    page_size: u32,
    reserved: u8,
    page_offset: int,
    header_offset: int,
) -> Result<Seq<RowView>, Error> {
    match bytes_at(file, page_offset, page_size) {
        Err(e) => Err(e),
        Ok(b) => page_rows(file, page_size, reserved, b, header_offset, page_count(file, page_size)),
    }
}

/// A b-tree of the file, by its root page.
#[derive(Debug, Clone)]
pub struct Btree {
    pub btree_type: BtreeType,
    pub page_size: u32,
    pub reserved_bytes_per_page: u8,
    pub root_page: BtreePage,
    pub root_page_offset: usize,
}

impl Btree {
    /// The b-tree reads what `read_page_to_tree` made of the file's bytes.
    pub open spec fn wf(&self, file: Seq<u8>) -> bool {
        &&& self.root_page.wf()
        &&& bytes_at(file, self.root_page_offset as int, self.page_size) == Ok::<Seq<u8>, Error>(
            self.root_page.raw(),
        )
        &&& self.reserved_bytes_per_page == self.root_page.reserved_bytes_per_page
        &&& self.btree_type == (if self.root_page.page_type == PageType::LeafTable
            || self.root_page.page_type == PageType::InteriorTable {
            BtreeType::Table
        } else {
            BtreeType::Index
        })
    }

    /// The schema b-tree: page 1, whose b-tree header follows the 100-byte file header.
    pub fn read_schema_table(file: &[u8], page_size: u32, reserved_bytes_per_page: u8) -> (r:
        Result<Btree, Error>)
        ensures
            Self::read_ok(file@, page_size, 0, 100, reserved_bytes_per_page, r),
    {
        Btree::read_page_to_tree(file, page_size, 0, 100, reserved_bytes_per_page)
    }

    /// The b-tree whose root page starts at byte `page_offset` of the file.
    pub fn read_table(file: &[u8], page_size: u32, page_offset: usize, reserved_bytes_per_page: u8) -> (r:
        Result<Btree, Error>)
        ensures
            Self::read_ok(file@, page_size, page_offset, 0, reserved_bytes_per_page, r),
    {
        Btree::read_page_to_tree(file, page_size, page_offset, 0, reserved_bytes_per_page)
    }

    /// Whether `r` is what reading the root page at `page_offset` owes.
    pub open spec fn read_ok(
        file: Seq<u8>,
        page_size: u32,
        page_offset: usize,
        header_offset: usize,
        reserved: u8,
        r: Result<Btree, Error>,
    ) -> bool {
        match bytes_at(file, page_offset as int, page_size) {
            Err(e) => r == Err::<Btree, Error>(e),
            Ok(b) => match parse_page_type(b, header_offset as int) {
                Err(e) => r == Err::<Btree, Error>(e),
                Ok(t) => r matches Ok(tree) && tree.wf(file) && tree.page_size == page_size
                    && tree.root_page_offset == page_offset && tree.reserved_bytes_per_page
                    == reserved && tree.root_page.spec_header_offset() == header_offset,
            },
        }
    }

    fn read_page_to_tree(
        file: &[u8],
        page_size: u32,
        page_offset: usize,
        header_offset: usize,
        reserved_bytes_per_page: u8,
    ) -> (r: Result<Btree, Error>)
        ensures
            Self::read_ok(file@, page_size, page_offset, header_offset, reserved_bytes_per_page, r),
    {
        let buffer = match read_bytes_at(file, page_offset as u64, page_size) {
            Ok(b) => b,
            Err(e) => return Err(e),
        };
        let root_page = match BtreePage::new(buffer, header_offset, reserved_bytes_per_page) {
            Ok(p) => p,
            Err(e) => return Err(e),
        };
        let btree_type = match root_page.page_type {
            PageType::LeafTable | PageType::InteriorTable => BtreeType::Table,
            PageType::LeafIndex | PageType::InteriorIndex => BtreeType::Index,
        };
        Ok(Btree { btree_type, page_size, reserved_bytes_per_page, root_page, root_page_offset: page_offset })
    }

    /// Every cell that the b-tree yields, left to right: the rows of a table b-tree in
    /// ascending key order, or the key records of an index b-tree.
    pub fn get_cells(&self, file: &[u8]) -> (r: Result<Vec<DataCell>, Error>)
        requires
            self.wf(file@),
        ensures
            match tree_rows(
                file@,
                self.page_size,
                self.reserved_bytes_per_page,
                self.root_page_offset as int,
                self.root_page.spec_header_offset() as int,
            ) {
                Ok(rows) => r matches Ok(v) && rows_view(v@) == rows,
                Err(e) => r == Err::<Vec<DataCell>, Error>(e),
            },
    {
        reveal(tree_rows);
        let mut out: Vec<DataCell> = Vec::new();
        let fuel: usize = if self.page_size == 0 {
            0
        } else {
            file.len() / self.page_size as usize
        };
        match traverse_page(file, self.page_size, self.reserved_bytes_per_page, &self.root_page, fuel, &mut out) {
            Ok(()) => {},
            Err(e) => return Err(e),
        }
        proof {
            assert(out@.subrange(0, 0) =~= Seq::<DataCell>::empty());
            assert(out@.subrange(0, out@.len() as int) =~= out@);
        }
        Ok(out)
    }

    /// The records of every cell that the b-tree yields, left to right.
    pub fn get_rows(&self, file: &[u8]) -> (r: Result<Vec<ReadableRecord>, Error>)
        requires
            self.wf(file@),
        ensures
            match tree_rows(
                file@,
                self.page_size,
                self.reserved_bytes_per_page,
                self.root_page_offset as int,
                self.root_page.spec_header_offset() as int,
            ) {
                Ok(rows) => r matches Ok(v) && v@.len() == rows.len() && forall|i: int|
                    0 <= i < rows.len() ==> #[trigger] v@[i]@ == row_record(rows[i]),
                Err(e) => r == Err::<Vec<ReadableRecord>, Error>(e),
            },
    {
        let cells = match self.get_cells(file) {
            Ok(c) => c,
            Err(e) => return Err(e),
        };
        let mut out: Vec<ReadableRecord> = Vec::new();
        let mut i: usize = 0;
        while i < cells.len()
            invariant
                i <= cells@.len(),
                out@.len() == i,
                forall|j: int| 0 <= j < i ==> #[trigger] out@[j]@ == row_record(cells@[j]@),
            decreases cells@.len() - i,
        {
            let rec = match &cells[i] {
                DataCell::Table(c) => c.payload.copy_record(),
                DataCell::IndexLeaf(c) => c.payload.copy_record(),
                DataCell::IndexInterior(c) => c.payload.copy_record(),
            };
            out.push(rec);
            i = i + 1;
        }
        Ok(out)
    }
}

/// The record of a row.
pub open spec fn row_record(r: RowView) -> RecordView {
    match r {
        RowView::Table(_, rec) => rec,
        RowView::Index(rec) => rec,
    }
}


/// A position in a b-tree: a page and a cell on it.
#[derive(Debug)]
pub struct BtreeIterator {
    pub btree: Btree,
    pub curr_page: BtreePage,
    pub curr_cell: usize,
}

impl BtreeIterator {
    /// A position at the first cell of the b-tree's root page.
    pub fn new(btree: Btree) -> (r: BtreeIterator)
        ensures
            r.btree == btree,
            r.curr_page.raw() == btree.root_page.raw(),
            r.curr_page.page_type == btree.root_page.page_type,
            r.curr_page.page_header == btree.root_page.page_header,
            r.curr_page.header_offset == btree.root_page.header_offset,
            r.curr_cell == 0,
    {
        let curr_page = BtreePage {
            page_type: btree.root_page.page_type,
            page_header: btree.root_page.page_header,
            raw_byte_buffer: slice_to_vec(btree.root_page.raw_byte_buffer.as_slice()),
            header_offset: btree.root_page.header_offset,
            reserved_bytes_per_page: btree.root_page.reserved_bytes_per_page,
        };
        BtreeIterator { btree, curr_page, curr_cell: 0 }
    }
}

/// The key of a table row.
pub open spec fn row_key(r: RowView) -> int {
    match r {
        RowView::Table(k, _) => k as int,
        RowView::Index(_) => 0,
    }
}

/// All of `rows` are table rows with keys above `lo` and at most `hi`, in strictly
/// ascending order.
pub open spec fn sorted_within(rows: Seq<RowView>, lo: int, hi: int) -> bool {
    &&& forall|i: int| 0 <= i < rows.len() ==> (#[trigger] rows[i]) is Table && lo < row_key(rows[i]) <= hi
    &&& forall|i: int, j: int|
        0 <= i < j < rows.len() ==> row_key(#[trigger] rows[i]) < row_key(#[trigger] rows[j])
}

/// The cells of a table leaf page from the `i`-th on have keys above `lo`, at most
/// `hi`, in strictly ascending order.
pub open spec fn leaf_keys_ordered(
    b: Seq<u8>,
    hoff: int,
    t: PageType,
    page_size: u32,
    reserved: u8,
    i: nat,
    lo: int,
    hi: int,
) -> bool
    decreases num_cells_at(b, hoff) - i,
{
    if i >= num_cells_at(b, hoff) {
        true
    } else {
        match cell_at(b, hoff, t, i as int) {
            Err(_) => true,
            Ok(content) => match leaf_row(content, t, page_size, reserved) {
                Err(_) => true,
                Ok(row) => row is Table && lo < row_key(row) <= hi && leaf_keys_ordered(
                    b,
                    hoff,
                    t,
                    page_size,
                    reserved,
                    i + 1,
                    row_key(row),
                    hi,
                ),
            },
        }
    }
}

/// The subtree rooted at page `n` is a table b-tree whose keys are ordered as the format
/// requires, all above `lo` and at most `hi`: each leaf's keys ascend, and each
/// interior key is at least every key to its left and below every key to its right.
pub open spec fn subtree_keys_ordered(
    file: Seq<u8>,
    page_size: u32,
    reserved: u8,
    n: u32,
    fuel: nat,
    lo: int,
    hi: int,
) -> bool
    decreases fuel, 2nat, 0nat,
{
    match page_at(file, page_size, n) {
        Err(_) => true,
        Ok(b) => page_keys_ordered(file, page_size, reserved, b, 0, fuel, lo, hi),
    }
}

pub open spec fn page_keys_ordered(
    file: Seq<u8>,
    page_size: u32,
    reserved: u8,
    b: Seq<u8>,
    hoff: int,
    fuel: nat,
    lo: int,
    hi: int,
) -> bool
    decreases fuel, 1nat, 0nat,
{
    match parse_page_type(b, hoff) {
        Err(_) => true,
        Ok(t) => if t.spec_is_interior() {
            interior_keys_ordered(file, page_size, reserved, b, hoff, t, 0, fuel, lo, hi)
        } else {
            leaf_keys_ordered(b, hoff, t, page_size, reserved, 0, lo, hi)
        },
    }
}

pub open spec fn interior_keys_ordered(
    file: Seq<u8>,
    page_size: u32,
    reserved: u8,
    b: Seq<u8>,
    hoff: int,
    t: PageType,
    i: nat,
    fuel: nat,
    lo: int,
    hi: int,
) -> bool
    decreases fuel, 0nat, num_cells_at(b, hoff) - i,
{
    if fuel == 0 {
        true
    } else if i >= num_cells_at(b, hoff) {
        subtree_keys_ordered(file, page_size, reserved, be_u32_at(b, hoff + 8), (fuel - 1) as nat, lo, hi)
    } else {
        match cell_at(b, hoff, t, i as int) {
            Err(_) => true,
            Ok(content) => t == PageType::InteriorTable && match table_interior_spec(content) {
                Err(_) => true,
                Ok((child, key, _)) => lo <= key.0 <= hi && subtree_keys_ordered(
                    file,
                    page_size,
                    reserved,
                    child,
                    (fuel - 1) as nat,
                    lo,
                    key.0 as int,
                ) && interior_keys_ordered(
                    file,
                    page_size,
                    reserved,
                    b,
                    hoff,
                    t,
                    i + 1,
                    fuel,
                    key.0 as int,
                    hi,
                ),
            },
        }
    }
}

/// The number of cells that the leaf pages of the subtree rooted at page `n` hold, and
/// for an index the interior cells too.
pub open spec fn subtree_cells(file: Seq<u8>, page_size: u32, reserved: u8, n: u32, fuel: nat) -> nat
    decreases fuel, 2nat, 0nat,
{
    match page_at(file, page_size, n) {
        Err(_) => 0,
        Ok(b) => page_cells(file, page_size, reserved, b, 0, fuel),
    }
}

pub open spec fn page_cells(
    file: Seq<u8>,
    page_size: u32,
    reserved: u8,
    b: Seq<u8>,
    hoff: int,
    fuel: nat,
) -> nat
    decreases fuel, 1nat, 0nat,
{
    match parse_page_type(b, hoff) {
        Err(_) => 0,
        Ok(t) => if t.spec_is_interior() {
            interior_cells(file, page_size, reserved, b, hoff, t, 0, fuel)
        } else {
            num_cells_at(b, hoff)
        },
    }
}

pub open spec fn interior_cells(
    file: Seq<u8>,
    page_size: u32,
    reserved: u8,
    b: Seq<u8>,
    hoff: int,
    t: PageType,
    i: nat,
    fuel: nat,
) -> nat
    decreases fuel, 0nat, num_cells_at(b, hoff) - i,
{
    if fuel == 0 {
        0
    } else if i >= num_cells_at(b, hoff) {
        subtree_cells(file, page_size, reserved, be_u32_at(b, hoff + 8), (fuel - 1) as nat)
    } else {
        match cell_at(b, hoff, t, i as int) {
            Err(_) => 0,
            Ok(content) => match interior_cell(content, t, page_size, reserved) {
                Err(_) => 0,
                Ok((child, own)) => subtree_cells(file, page_size, reserved, child, (fuel - 1) as nat)
                    + own.len() + interior_cells(file, page_size, reserved, b, hoff, t, i + 1, fuel),
            },
        }
    }
}

proof fn lemma_sorted_concat(a: Seq<RowView>, b: Seq<RowView>, lo: int, mid: int, hi: int)
    requires
        sorted_within(a, lo, mid),
        sorted_within(b, mid, hi),
        lo <= mid <= hi,
    ensures
        sorted_within(a + b, lo, hi),
{
    let c = a + b;
    assert forall|i: int| 0 <= i < c.len() implies (#[trigger] c[i]) is Table && lo < row_key(c[i]) <= hi by {
        if i < a.len() {
            assert(c[i] == a[i]);
        } else {
            assert(c[i] == b[i - a.len()]);
        }
    }
    assert forall|i: int, j: int| 0 <= i < j < c.len() implies row_key(#[trigger] c[i]) < row_key(#[trigger] c[j]) by {
        if j < a.len() {
            assert(c[i] == a[i] && c[j] == a[j]);
        } else if i >= a.len() {
            assert(c[i] == b[i - a.len()] && c[j] == b[j - a.len()]);
        } else {
            assert(c[i] == a[i] && c[j] == b[j - a.len()]);
        }
    }
}

proof fn lemma_leaf_ordered(
    b: Seq<u8>,
    hoff: int,
    t: PageType,
    page_size: u32,
    reserved: u8,
    i: nat,
    lo: int,
    hi: int,
)
    requires
        leaf_keys_ordered(b, hoff, t, page_size, reserved, i, lo, hi),
        i <= num_cells_at(b, hoff),
    ensures
        leaf_rows(b, hoff, t, page_size, reserved, i) matches Ok(rows) ==> sorted_within(rows, lo, hi)
            && rows.len() == num_cells_at(b, hoff) - i,
    decreases num_cells_at(b, hoff) - i,
{
    if i < num_cells_at(b, hoff) {
        if let Ok(content) = cell_at(b, hoff, t, i as int) {
            if let Ok(row) = leaf_row(content, t, page_size, reserved) {
                lemma_leaf_ordered(b, hoff, t, page_size, reserved, i + 1, row_key(row), hi);
                if let Ok(rest) = leaf_rows(b, hoff, t, page_size, reserved, i + 1) {
                    assert(sorted_within(seq![row], lo, row_key(row)));
                    lemma_sorted_concat(seq![row], rest, lo, row_key(row), hi);
                }
            }
        }
    } else {
        assert(sorted_within(Seq::<RowView>::empty(), lo, hi));
    }
}

proof fn lemma_leaf_count(b: Seq<u8>, hoff: int, t: PageType, page_size: u32, reserved: u8, i: nat)
    ensures
        leaf_rows(b, hoff, t, page_size, reserved, i) matches Ok(rows) ==> rows.len() == num_cells_at(b, hoff) - i
            || (i > num_cells_at(b, hoff) && rows.len() == 0),
    decreases num_cells_at(b, hoff) - i,
{
    if i < num_cells_at(b, hoff) {
        lemma_leaf_count(b, hoff, t, page_size, reserved, i + 1);
    }
}

proof fn lemma_subtree_ordered(
    file: Seq<u8>,
    page_size: u32,
    reserved: u8,
    n: u32,
    fuel: nat,
    lo: int,
    hi: int,
)
    ensures
        subtree_rows(file, page_size, reserved, n, fuel) matches Ok(rows) ==> rows.len()
            == subtree_cells(file, page_size, reserved, n, fuel) && (subtree_keys_ordered(
            file,
            page_size,
            reserved,
            n,
            fuel,
            lo,
            hi,
        ) ==> sorted_within(rows, lo, hi)),
    decreases fuel, 2nat, 0nat,
{
    if let Ok(b) = page_at(file, page_size, n) {
        lemma_page_ordered(file, page_size, reserved, b, 0, fuel, lo, hi);
    }
}

proof fn lemma_page_ordered(
    file: Seq<u8>,
    page_size: u32,
    reserved: u8,
    b: Seq<u8>,
    hoff: int,
    fuel: nat,
    lo: int,
    hi: int,
)
    ensures
        page_rows(file, page_size, reserved, b, hoff, fuel) matches Ok(rows) ==> rows.len()
            == page_cells(file, page_size, reserved, b, hoff, fuel) && (page_keys_ordered(
            file,
            page_size,
            reserved,
            b,
            hoff,
            fuel,
            lo,
            hi,
        ) ==> sorted_within(rows, lo, hi)),
    decreases fuel, 1nat, 0nat,
{
    if let Ok(t) = parse_page_type(b, hoff) {
        if t.spec_is_interior() {
            lemma_interior_ordered(file, page_size, reserved, b, hoff, t, 0, fuel, lo, hi);
        } else {
            lemma_leaf_count(b, hoff, t, page_size, reserved, 0);
            if leaf_keys_ordered(b, hoff, t, page_size, reserved, 0, lo, hi) {
                lemma_leaf_ordered(b, hoff, t, page_size, reserved, 0, lo, hi);
            }
        }
    }
}

proof fn lemma_interior_ordered(
    file: Seq<u8>,
    page_size: u32,
    reserved: u8,
    b: Seq<u8>,
    hoff: int,
    t: PageType,
    i: nat,
    fuel: nat,
    lo: int,
    hi: int,
)
    ensures
        interior_rows(file, page_size, reserved, b, hoff, t, i, fuel) matches Ok(rows) ==> rows.len()
            == interior_cells(file, page_size, reserved, b, hoff, t, i, fuel) && (interior_keys_ordered(
            file,
            page_size,
            reserved,
            b,
            hoff,
            t,
            i,
            fuel,
            lo,
            hi,
        ) ==> sorted_within(rows, lo, hi)),
    decreases fuel, 0nat, num_cells_at(b, hoff) - i,
{
    if fuel == 0 {
    } else if i >= num_cells_at(b, hoff) {
        lemma_subtree_ordered(file, page_size, reserved, be_u32_at(b, hoff + 8), (fuel - 1) as nat, lo, hi);
    } else {
        if let Ok(content) = cell_at(b, hoff, t, i as int) {
            if let Ok((child, own)) = interior_cell(content, t, page_size, reserved) {
                let key: int = if table_interior_spec(content) is Ok {
                    table_interior_spec(content)->Ok_0.1.0 as int
                } else {
                    lo
                };
                lemma_subtree_ordered(file, page_size, reserved, child, (fuel - 1) as nat, lo, key);
                lemma_interior_ordered(file, page_size, reserved, b, hoff, t, i + 1, fuel, key, hi);
                if let Ok(left) = subtree_rows(file, page_size, reserved, child, (fuel - 1) as nat) {
                    if let Ok(rest) = interior_rows(file, page_size, reserved, b, hoff, t, i + 1, fuel) {
                        assert(interior_rows(file, page_size, reserved, b, hoff, t, i, fuel) == Ok::<Seq<RowView>, Error>(left + own + rest));
                        if interior_keys_ordered(file, page_size, reserved, b, hoff, t, i, fuel, lo, hi) {
                            assert(own =~= Seq::<RowView>::empty());
                            assert(left + own =~= left);
                            lemma_sorted_concat(left, rest, lo, key, hi);
                        }
                    }
                }
            }
        }
    }
}

/// A table b-tree whose keys are ordered as the format requires yields, when traversed,
/// exactly one row for each cell of its leaf pages, the right-most children's
/// included, and the rows in strictly ascending key order.
pub proof fn lemma_traversal_complete_and_ascending(
    file: Seq<u8>,
    page_size: u32,
    reserved: u8,
    page_offset: int,
    header_offset: int,
)
    requires
        tree_rows(file, page_size, reserved, page_offset, header_offset) is Ok,
        bytes_at(file, page_offset, page_size) is Ok,
        page_keys_ordered(
            file,
            page_size,
            reserved,
            bytes_at(file, page_offset, page_size)->Ok_0,
            header_offset,
            page_count(file, page_size),
            i64::MIN - 1,
            i64::MAX as int,
        ),
    ensures
        tree_rows(file, page_size, reserved, page_offset, header_offset)->Ok_0.len() == page_cells(
            file,
            page_size,
            reserved,
            bytes_at(file, page_offset, page_size)->Ok_0,
            header_offset,
            page_count(file, page_size),
        ),
        sorted_within(
            tree_rows(file, page_size, reserved, page_offset, header_offset)->Ok_0,
            i64::MIN - 1,
            i64::MAX as int,
        ),
{
    reveal(tree_rows);
    lemma_page_ordered(
        file,
        page_size,
        reserved,
        bytes_at(file, page_offset, page_size)->Ok_0,
        header_offset,
        page_count(file, page_size),
        i64::MIN - 1,
        i64::MAX as int,
    );
}


/// Every b-tree that a traversal reads whole yields exactly one row for each cell of its
/// leaf pages, the right-most children's included, and for an index one for each
/// interior cell too.
pub proof fn lemma_traversal_count(
    file: Seq<u8>,
    page_size: u32,
    reserved: u8,
    page_offset: int,
    header_offset: int,
)
    requires
        tree_rows(file, page_size, reserved, page_offset, header_offset) is Ok,
    ensures
        bytes_at(file, page_offset, page_size) is Ok,
        tree_rows(file, page_size, reserved, page_offset, header_offset)->Ok_0.len() == page_cells(
            file,
            page_size,
            reserved,
            bytes_at(file, page_offset, page_size)->Ok_0,
            header_offset,
            page_count(file, page_size),
        ),
{
    reveal(tree_rows);
    lemma_page_ordered(
        file,
        page_size,
        reserved,
        bytes_at(file, page_offset, page_size)->Ok_0,
        header_offset,
        page_count(file, page_size),
        0,
        0,
    );
}

} // verus!
