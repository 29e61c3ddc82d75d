//! What is written in the binary format is read back as it was.
use vstd::prelude::*;
use vstd::bytes::{
    lemma_auto_spec_u16_to_from_le_bytes, lemma_auto_spec_u64_to_from_le_bytes,
    spec_u16_to_le_bytes, spec_u64_to_le_bytes,
};
use vstd::utf8::{encode_utf8, encode_utf8_decode_utf8, encode_utf8_valid_utf8};
use crate::codec::{text_at, text_bytes, text_fits, u16_at, u64_at};
use crate::error::Error;
use crate::expr::same_texts;
use crate::format::{
    applied, blank, built_cells, entry_applied, align_at, align_bytes, cell_bytes, cell_data_at,
    cells_bytes, color_at, color_bytes, color_index, entries_at, field, head_bytes, indexed_color,
    reserved_at, sheet_bytes, sheet_data_at, storable, tail_bytes, texts_fit, width_entries_at,
    widths_bytes, widths_map, CellData, CellEntry, SheetData, END_OF_CELLS,
};
use crate::ops::key_of;
use crate::number::Table;
use crate::parse::{MAX_COLS, MAX_ROWS};
use crate::recalc::{key_end, lemma_recalc_keeps, lemma_recalc_stops, recalculated};
use crate::text::trimmed;
use crate::sheet::{
    grid, key_on_grid, lemma_entered_trimmed, lemma_with_text_frame, texts_trimmed, Align,
    CellView, Color, Sheet,
};

verus! {

/// Whether the bytes `e` stand in `b` at `pos`.
pub open spec fn holds(b: Seq<u8>, pos: int, e: Seq<u8>) -> bool {
    0 <= pos && pos + e.len() <= b.len() && b.subrange(pos, pos + e.len()) == e
}

/// Where two runs of bytes stand one behind the other, each of them stands
/// in its place.
pub proof fn lemma_holds_split(b: Seq<u8>, pos: int, x: Seq<u8>, y: Seq<u8>)
    requires
        holds(b, pos, x + y),
    ensures
        holds(b, pos, x),
        holds(b, pos + x.len(), y),
{
    let all = x + y;
    assert(b.subrange(pos, pos + x.len()) =~= x) by {
        assert forall|i: int| 0 <= i < x.len() implies b.subrange(pos, pos + x.len())[i] == x[i] by {
            assert(b.subrange(pos, pos + all.len())[i] == all[i]);
        }
    }
    assert(b.subrange(pos + x.len(), pos + x.len() + y.len()) =~= y) by {
        assert forall|i: int| 0 <= i < y.len() implies b.subrange(
            pos + x.len(),
            pos + x.len() + y.len(),
        )[i] == y[i] by {
            assert(b.subrange(pos, pos + all.len())[x.len() + i] == all[x.len() + i]);
        }
    }
}

/// A 64-bit number that was written is read back.
pub proof fn lemma_u64_here(b: Seq<u8>, pos: int, v: u64)
    requires
        holds(b, pos, spec_u64_to_le_bytes(v)),
    ensures
        u64_at(b, pos) == Some((v, pos + 8)),
        spec_u64_to_le_bytes(v).len() == 8,
{
    lemma_auto_spec_u64_to_from_le_bytes();
}

/// A 16-bit number that was written is read back.
pub proof fn lemma_u16_here(b: Seq<u8>, pos: int, v: u16)
    requires
        holds(b, pos, spec_u16_to_le_bytes(v)),
    ensures
        u16_at(b, pos) == Some((v, pos + 2)),
        spec_u16_to_le_bytes(v).len() == 2,
{
    lemma_auto_spec_u16_to_from_le_bytes();
}

/// A text that was written is read back.
pub proof fn lemma_text_here(b: Seq<u8>, pos: int, s: Seq<char>)
    requires
        holds(b, pos, text_bytes(s)),
        text_fits(s),
    ensures
        text_at(b, pos) == Some((s, pos + text_bytes(s).len())),
{
    let body = encode_utf8(s);
    let head = spec_u64_to_le_bytes(body.len() as u64);
    lemma_holds_split(b, pos, head, body);
    lemma_u64_here(b, pos, body.len() as u64);
    encode_utf8_valid_utf8(s);
    encode_utf8_decode_utf8(s);
}

/// An alignment that was written is read back.
pub proof fn lemma_align_here(b: Seq<u8>, pos: int, a: Option<Align>)
    requires
        holds(b, pos, align_bytes(a)),
    ensures
        align_at(b, pos) == Ok::<_, Error>((a, pos + 1)),
        align_bytes(a).len() == 1,
{
    assert(b.subrange(pos, pos + 1)[0] == b[pos]);
}

/// The index of a named colour is the index of that colour.
pub proof fn lemma_color_index(c: Color)
    ensures
        color_index(c) matches Some(i) ==> indexed_color(i) == Some(c),
{
}

/// A colour that was written is read back.
pub proof fn lemma_color_here(b: Seq<u8>, pos: int, c: Option<Color>)
    requires
        color_bytes(c) is Ok,
        holds(b, pos, color_bytes(c)->Ok_0),
    ensures
        color_at(b, pos) == Ok::<_, Error>((c, pos + color_bytes(c)->Ok_0.len())),
{
    let e = color_bytes(c)->Ok_0;
    assert forall|i: int| 0 <= i < e.len() implies b[pos + i] == e[i] by {
        assert(b.subrange(pos, pos + e.len())[i] == b[pos + i]);
    }
    match c {
        None => {
            assert(b[pos + 0] == e[0]);
        },
        Some(Color::AnsiValue(v)) => {
            assert(b[pos + 0] == e[0]);
            assert(b[pos + 1] == e[1]);
        },
        Some(Color::Rgb { r, g, b: bl }) => {
            assert(b[pos + 0] == e[0]);
            assert(b[pos + 1] == e[1]);
            assert(b[pos + 2] == e[2]);
            assert(b[pos + 3] == e[3]);
        },
        Some(named) => {
            lemma_color_index(named);
            assert(b[pos + 0] == e[0]);
            assert(b[pos + 1] == e[1]);
        },
    }
}

/// A cell record that is written is read back as it was.
pub proof fn lemma_cell_here(b: Seq<u8>, pos: int, c: CellView)
    requires
        cell_bytes(c) is Ok,
        holds(b, pos, cell_bytes(c)->Ok_0),
        text_fits(c.val),
    ensures
        cell_data_at(b, pos) == Ok::<_, Error>(
            (CellData { text: c.val, attr: c.attr }, pos + cell_bytes(c)->Ok_0.len()),
        ),
{
    let text = text_bytes(c.val);
    let align = align_bytes(c.attr.align);
    let fg = color_bytes(c.attr.fg)->Ok_0;
    let bg = color_bytes(c.attr.bg)->Ok_0;
    assert(cell_bytes(c)->Ok_0 =~= text + (align + (fg + bg)));
    lemma_holds_split(b, pos, text, align + (fg + bg));
    lemma_text_here(b, pos, c.val);
    let p1 = pos + text.len();
    lemma_holds_split(b, p1, align, fg + bg);
    lemma_align_here(b, p1, c.attr.align);
    let p2 = p1 + 1;
    lemma_holds_split(b, p2, fg, bg);
    lemma_color_here(b, p2, c.attr.fg);
    lemma_color_here(b, p2 + fg.len(), c.attr.bg);
}

/// The cells with keys from `k` up to, but not with, `limit` as the format
/// holds them, in the order of the keys.
pub open spec fn entry_list(cells: Map<u64, CellView>, k: int, limit: int) -> Seq<CellEntry>
    decreases limit - k,
{
    if k >= limit {
        Seq::empty()
    } else if 0 <= k <= u64::MAX && cells.contains_key(k as u64) {
        seq![
            CellEntry {
                col: (k % 100000) as usize,
                row: (k / 100000) as usize,
                data: CellData { text: cells[k as u64].val, attr: cells[k as u64].attr },
            },
        ] + entry_list(cells, k + 1, limit)
    } else {
        entry_list(cells, k + 1, limit)
    }
}

/// The column widths with keys from `k` up to, but not with, `limit`, in
/// the order of the columns.
pub open spec fn width_list(widths: Map<u64, u16>, k: int, limit: int) -> Seq<(u64, u16)>
    decreases limit - k,
{
    if k >= limit {
        Seq::empty()
    } else if 0 <= k <= u64::MAX && widths.contains_key(k as u64) {
        seq![(k as u64, widths[k as u64])] + width_list(widths, k + 1, limit)
    } else {
        width_list(widths, k + 1, limit)
    }
}

/// The cells that are written, and the sentinel behind them, are read back
/// as they were.
pub proof fn lemma_cells_here(b: Seq<u8>, pos: int, cells: Map<u64, CellView>, k: int, limit: int)
    requires
        0 <= k,
        forall|x: u64| #[trigger] cells.contains_key(x) ==> key_on_grid(x),
        texts_fit(cells),
        cells_bytes(cells, k, limit) is Ok,
        holds(b, pos, cells_bytes(cells, k, limit)->Ok_0 + tail_bytes()),
    ensures
        entries_at(b, pos) == Ok::<_, Error>(
            (entry_list(cells, k, limit), pos + cells_bytes(cells, k, limit)->Ok_0.len() + 16),
        ),
    decreases limit - k,
{
    let all = cells_bytes(cells, k, limit)->Ok_0;
    lemma_auto_spec_u64_to_from_le_bytes();
    if k >= limit {
        let end = spec_u64_to_le_bytes(END_OF_CELLS);
        assert(all + tail_bytes() =~= end + end);
        lemma_holds_split(b, pos, end, end);
        lemma_u64_here(b, pos, END_OF_CELLS);
        lemma_u64_here(b, pos + 8, END_OF_CELLS);
    } else if k <= u64::MAX && cells.contains_key(k as u64) {
        let key = k as u64;
        let col = spec_u64_to_le_bytes((k % 100000) as u64);
        let row = spec_u64_to_le_bytes((k / 100000) as u64);
        let record = cell_bytes(cells[key])->Ok_0;
        let rest = cells_bytes(cells, k + 1, limit)->Ok_0;
        assert(all + tail_bytes() =~= col + (row + (record + (rest + tail_bytes()))));
        lemma_holds_split(b, pos, col, row + (record + (rest + tail_bytes())));
        lemma_u64_here(b, pos, (k % 100000) as u64);
        lemma_holds_split(b, pos + 8, row, record + (rest + tail_bytes()));
        lemma_u64_here(b, pos + 8, (k / 100000) as u64);
        lemma_holds_split(b, pos + 16, record, rest + tail_bytes());
        lemma_cell_here(b, pos + 16, cells[key]);
        lemma_cells_here(b, pos + 16 + record.len(), cells, k + 1, limit);
        assert(key_on_grid(key));
    } else {
        lemma_cells_here(b, pos, cells, k + 1, limit);
    }
}

/// The widths that are written are read back as they were.
pub proof fn lemma_widths_here(b: Seq<u8>, pos: int, widths: Map<u64, u16>, k: int, limit: int)
    requires
        0 <= k,
        holds(b, pos, widths_bytes(widths, k, limit)),
    ensures
        width_entries_at(b, pos, width_list(widths, k, limit).len()) == Ok::<_, Error>(
            (width_list(widths, k, limit), pos + widths_bytes(widths, k, limit).len()),
        ),
    decreases limit - k,
{
    lemma_auto_spec_u64_to_from_le_bytes();
    lemma_auto_spec_u16_to_from_le_bytes();
    if k >= limit {
    } else if k <= u64::MAX && widths.contains_key(k as u64) {
        let key = k as u64;
        let col = spec_u64_to_le_bytes(key);
        let w = spec_u16_to_le_bytes(widths[key]);
        let rest = widths_bytes(widths, k + 1, limit);
        assert(widths_bytes(widths, k, limit) =~= col + (w + rest));
        lemma_holds_split(b, pos, col, w + rest);
        lemma_u64_here(b, pos, key);
        lemma_holds_split(b, pos + 8, w, rest);
        lemma_u16_here(b, pos + 8, widths[key]);
        lemma_widths_here(b, pos + 10, widths, k + 1, limit);
        let list = width_list(widths, k + 1, limit);
        assert((seq![(key, widths[key])] + list).len() == list.len() + 1);
    } else {
        lemma_widths_here(b, pos, widths, k + 1, limit);
    }
}

/// The keys of a map from `k` on.
pub open spec fn keys_from(widths: Map<u64, u16>, k: int) -> Set<u64> {
    widths.dom().filter(|x: u64| x >= k)
}

/// The list of the widths is as long as there are widths.
pub proof fn lemma_width_list_len(widths: Map<u64, u16>, k: int)
    requires
        0 <= k <= key_end(),
        widths.dom().finite(),
    ensures
        width_list(widths, k, key_end()).len() == keys_from(widths, k).len(),
    decreases key_end() - k,
{
    if k >= key_end() {
        assert(keys_from(widths, k) =~= Set::<u64>::empty());
    } else {
        lemma_width_list_len(widths, k + 1);
        let here = keys_from(widths, k);
        let next = keys_from(widths, k + 1);
        widths.dom().lemma_len_filter(|x: u64| x >= k);
        widths.dom().lemma_len_filter(|x: u64| x >= k + 1);
        if widths.contains_key(k as u64) {
            assert(here =~= next.insert(k as u64));
            assert(!next.contains(k as u64));
        } else {
            assert(here =~= next);
        }
    }
}

/// A sheet as the format holds it.
pub open spec fn data_of(s: Sheet) -> SheetData {
    SheetData {
        name: s.name@,
        first_col: s.first_col,
        first_row: s.first_row,
        cursor_col: s.cursor.col,
        cursor_row: s.cursor.row,
        fixed_cols: s.fixed_cols,
        fixed_rows: s.fixed_rows,
        widths: width_list(s.widths@, 0, key_end()),
        cells: entry_list(grid(s.cells@), 0, key_end()),
    }
}

/// An index or count that was written is read back.
pub proof fn lemma_usize_here(b: Seq<u8>, pos: int, v: usize)
    requires
        holds(b, pos, spec_u64_to_le_bytes(v as u64)),
    ensures
        field(b, pos) == Ok::<_, Error>((v, pos + 8)),
{
    lemma_u64_here(b, pos, v as u64);
}

/// A reserved zero that was written is read back.
pub proof fn lemma_zero_here(b: Seq<u8>, pos: int)
    requires
        holds(b, pos, spec_u64_to_le_bytes(0)),
    ensures
        reserved_at(b, pos) == Ok::<_, Error>(pos + 8),
{
    lemma_u64_here(b, pos, 0);
}

/// The bytes of a sheet without its name, in pieces.
pub open spec fn fields_bytes(s: Sheet) -> Seq<u8> {
    spec_u64_to_le_bytes(s.first_col as u64) + (spec_u64_to_le_bytes(s.first_row as u64) + (
    spec_u64_to_le_bytes(s.cursor.col as u64) + (spec_u64_to_le_bytes(s.cursor.row as u64) + (
    spec_u64_to_le_bytes(s.fixed_cols as u64) + (spec_u64_to_le_bytes(s.fixed_rows as u64) + (
    spec_u64_to_le_bytes(s.widths@.len() as u64) + (widths_bytes(s.widths@, 0, key_end()) + (
    spec_u64_to_le_bytes(0) + (spec_u64_to_le_bytes(0) + (spec_u64_to_le_bytes(0) + (cells_bytes(
        grid(s.cells@),
        0,
        key_end(),
    )->Ok_0 + tail_bytes())))))))))))
}

/// Runs of bytes can be joined in any grouping.
pub proof fn lemma_assoc(a: Seq<u8>, b: Seq<u8>, c: Seq<u8>)
    ensures
        (a + b) + c == a + (b + c),
{
    assert((a + b) + c =~= a + (b + c));
}

/// The bytes of a sheet are its name and, behind it, its fields.
pub proof fn lemma_sheet_bytes_pieces(s: Sheet)
    requires
        sheet_bytes(s) is Ok,
    ensures
        sheet_bytes(s)->Ok_0 == text_bytes(s.name@) + fields_bytes(s),
{
    let name = text_bytes(s.name@);
    let f1 = spec_u64_to_le_bytes(s.first_col as u64);
    let f2 = spec_u64_to_le_bytes(s.first_row as u64);
    let f3 = spec_u64_to_le_bytes(s.cursor.col as u64);
    let f4 = spec_u64_to_le_bytes(s.cursor.row as u64);
    let f5 = spec_u64_to_le_bytes(s.fixed_cols as u64);
    let f6 = spec_u64_to_le_bytes(s.fixed_rows as u64);
    let f7 = spec_u64_to_le_bytes(s.widths@.len() as u64);
    let ws = widths_bytes(s.widths@, 0, key_end());
    let z = spec_u64_to_le_bytes(0);
    let cells = cells_bytes(grid(s.cells@), 0, key_end())->Ok_0;
    let t = tail_bytes();
    let h1 = name + f1;
    let h2 = h1 + f2;
    let h3 = h2 + f3;
    let h4 = h3 + f4;
    let h5 = h4 + f5;
    let h6 = h5 + f6;
    let h7 = h6 + f7;
    let h8 = h7 + ws;
    let h9 = h8 + z;
    let h10 = h9 + z;
    let h11 = h10 + z;
    assert(head_bytes(s) == h11);
    assert(sheet_bytes(s)->Ok_0 == (h11 + cells) + t);
    let r11 = cells + t;
    lemma_assoc(h11, cells, t);
    let r10 = z + r11;
    lemma_assoc(h10, z, r11);
    let r9 = z + r10;
    lemma_assoc(h9, z, r10);
    let r8 = z + r9;
    lemma_assoc(h8, z, r9);
    let r7 = ws + r8;
    lemma_assoc(h7, ws, r8);
    let r6 = f7 + r7;
    lemma_assoc(h6, f7, r7);
    let r5 = f6 + r6;
    lemma_assoc(h5, f6, r6);
    let r4 = f5 + r5;
    lemma_assoc(h4, f5, r5);
    let r3 = f4 + r4;
    lemma_assoc(h3, f4, r4);
    let r2 = f3 + r3;
    lemma_assoc(h2, f3, r3);
    let r1 = f2 + r2;
    lemma_assoc(h1, f2, r2);
    lemma_assoc(name, f1, r1);
    assert(fields_bytes(s) == f1 + r1);
}

/// Where the fields of a written sheet begin: behind its name.
pub open spec fn fields_pos(s: Sheet, pos: int) -> int {
    pos + text_bytes(s.name@).len()
}

/// Where the reserved counts of a written sheet begin: behind its widths.
pub open spec fn reserved_pos(s: Sheet, pos: int) -> int {
    fields_pos(s, pos) + 56 + widths_bytes(s.widths@, 0, key_end()).len()
}

/// Each part of a sheet that is written is read back in its place.
pub proof fn lemma_sheet_parts(b: Seq<u8>, pos: int, s: Sheet)
    requires
        s.wf(),
        storable(s),
        holds(b, pos, sheet_bytes(s)->Ok_0),
    ensures
        text_at(b, pos) == Some((s.name@, fields_pos(s, pos))),
        field(b, fields_pos(s, pos)) == Ok::<_, Error>((s.first_col, fields_pos(s, pos) + 8)),
        field(b, fields_pos(s, pos) + 8) == Ok::<_, Error>((s.first_row, fields_pos(s, pos) + 16)),
        field(b, fields_pos(s, pos) + 16) == Ok::<_, Error>((s.cursor.col, fields_pos(s, pos) + 24)),
        field(b, fields_pos(s, pos) + 24) == Ok::<_, Error>((s.cursor.row, fields_pos(s, pos) + 32)),
        field(b, fields_pos(s, pos) + 32) == Ok::<_, Error>((s.fixed_cols, fields_pos(s, pos) + 40)),
        field(b, fields_pos(s, pos) + 40) == Ok::<_, Error>((s.fixed_rows, fields_pos(s, pos) + 48)),
        field(b, fields_pos(s, pos) + 48) == Ok::<_, Error>(
            (s.widths@.len() as usize, fields_pos(s, pos) + 56),
        ),
        width_entries_at(b, fields_pos(s, pos) + 56, s.widths@.len()) == Ok::<_, Error>(
            (width_list(s.widths@, 0, key_end()), reserved_pos(s, pos)),
        ),
        reserved_at(b, reserved_pos(s, pos)) == Ok::<_, Error>(reserved_pos(s, pos) + 8),
        reserved_at(b, reserved_pos(s, pos) + 8) == Ok::<_, Error>(reserved_pos(s, pos) + 16),
        reserved_at(b, reserved_pos(s, pos) + 16) == Ok::<_, Error>(reserved_pos(s, pos) + 24),
        entries_at(b, reserved_pos(s, pos) + 24) == Ok::<_, Error>(
            (entry_list(grid(s.cells@), 0, key_end()), pos + sheet_bytes(s)->Ok_0.len()),
        ),
{
    lemma_auto_spec_u64_to_from_le_bytes();
    lemma_sheet_bytes_pieces(s);
    let name = text_bytes(s.name@);
    let f1 = spec_u64_to_le_bytes(s.first_col as u64);
    let f2 = spec_u64_to_le_bytes(s.first_row as u64);
    let f3 = spec_u64_to_le_bytes(s.cursor.col as u64);
    let f4 = spec_u64_to_le_bytes(s.cursor.row as u64);
    let f5 = spec_u64_to_le_bytes(s.fixed_cols as u64);
    let f6 = spec_u64_to_le_bytes(s.fixed_rows as u64);
    let f7 = spec_u64_to_le_bytes(s.widths@.len() as u64);
    let ws = widths_bytes(s.widths@, 0, key_end());
    let z = spec_u64_to_le_bytes(0);
    let cs = cells_bytes(grid(s.cells@), 0, key_end())->Ok_0 + tail_bytes();
    let r11 = cs;
    let r10 = z + r11;
    let r9 = z + r10;
    let r8 = z + r9;
    let r7 = ws + r8;
    let r6 = f7 + r7;
    let r5 = f6 + r6;
    let r4 = f5 + r5;
    let r3 = f4 + r4;
    let r2 = f3 + r3;
    let r1 = f2 + r2;
    assert(fields_bytes(s) == f1 + r1);
    lemma_holds_split(b, pos, name, f1 + r1);
    lemma_text_here(b, pos, s.name@);
    let p1 = pos + name.len();
    lemma_holds_split(b, p1, f1, r1);
    lemma_usize_here(b, p1, s.first_col);
    lemma_holds_split(b, p1 + 8, f2, r2);
    lemma_usize_here(b, p1 + 8, s.first_row);
    lemma_holds_split(b, p1 + 16, f3, r3);
    lemma_usize_here(b, p1 + 16, s.cursor.col);
    lemma_holds_split(b, p1 + 24, f4, r4);
    lemma_usize_here(b, p1 + 24, s.cursor.row);
    lemma_holds_split(b, p1 + 32, f5, r5);
    lemma_usize_here(b, p1 + 32, s.fixed_cols);
    lemma_holds_split(b, p1 + 40, f6, r6);
    lemma_usize_here(b, p1 + 40, s.fixed_rows);
    lemma_holds_split(b, p1 + 48, f7, r7);
    lemma_usize_here(b, p1 + 48, s.widths@.len() as usize);
    lemma_holds_split(b, p1 + 56, ws, r8);
    lemma_widths_here(b, p1 + 56, s.widths@, 0, key_end());
    lemma_width_list_len(s.widths@, 0);
    assert(keys_from(s.widths@, 0) =~= s.widths@.dom());
    let p9 = p1 + 56 + ws.len();
    lemma_holds_split(b, p9, z, r9);
    lemma_zero_here(b, p9);
    lemma_holds_split(b, p9 + 8, z, r10);
    lemma_zero_here(b, p9 + 8);
    lemma_holds_split(b, p9 + 16, z, r11);
    lemma_zero_here(b, p9 + 16);
    assert(grid(s.cells@).dom() =~= s.cells@.dom());
    lemma_cells_here(b, p9 + 24, grid(s.cells@), 0, key_end());
    assert(sheet_bytes(s)->Ok_0.len() == name.len() + 56 + ws.len() + 24 + cs.len());
    assert(tail_bytes().len() == 16);
}

/// A sheet that is written is read back as it was, whatever stands behind
/// it: its name, its window, its cursor, its fixed bands, its column widths
/// and its cells with their texts and the words on how they are drawn.
pub proof fn lemma_sheet_here(b: Seq<u8>, pos: int, s: Sheet)
    requires
        s.wf(),
        storable(s),
        holds(b, pos, sheet_bytes(s)->Ok_0),
    ensures
        sheet_data_at(b, pos) == Ok::<_, Error>((data_of(s), pos + sheet_bytes(s)->Ok_0.len())),
{
    lemma_sheet_parts(b, pos, s);
}

/// The key of the place of an entry.
pub open spec fn entry_key(e: CellEntry) -> u64 {
    key_of(e.col as int, e.row as int) as u64
}

/// What the list of the widths holds: the widths of the map from `k` on, each
/// once, in the order of the columns.
pub proof fn lemma_width_list(widths: Map<u64, u16>, k: int, limit: int)
    requires
        0 <= k,
    ensures
        forall|j: int|
            0 <= j < width_list(widths, k, limit).len() ==> {
                let item = #[trigger] width_list(widths, k, limit)[j];
                k <= item.0 < limit && widths.contains_key(item.0) && item.1 == widths[item.0]
            },
        forall|i: int, j: int|
            0 <= i < j < width_list(widths, k, limit).len() ==> width_list(widths, k, limit)[i].0
                < width_list(widths, k, limit)[j].0,
        forall|x: u64|
            k <= x < limit && widths.contains_key(x) ==> exists|j: int|
                0 <= j < width_list(widths, k, limit).len() && (#[trigger] width_list(
                    widths,
                    k,
                    limit,
                )[j]).0 == x,
    decreases limit - k,
{
    let list = width_list(widths, k, limit);
    if k >= limit {
    } else {
        lemma_width_list(widths, k + 1, limit);
        let rest = width_list(widths, k + 1, limit);
        if k <= u64::MAX && widths.contains_key(k as u64) {
            assert(list =~= seq![(k as u64, widths[k as u64])] + rest);
            assert forall|j: int| 0 <= j < list.len() implies {
                let item = #[trigger] list[j];
                k <= item.0 < limit && widths.contains_key(item.0) && item.1 == widths[item.0]
            } by {
                if j > 0 {
                    assert(list[j] == rest[j - 1]);
                }
            }
            assert forall|i: int, j: int| 0 <= i < j < list.len() implies list[i].0 < list[j].0 by {
                assert(list[j] == rest[j - 1]);
                if i > 0 {
                    assert(list[i] == rest[i - 1]);
                }
            }
            assert forall|x: u64| k <= x < limit && widths.contains_key(x) implies exists|j: int|
                0 <= j < list.len() && (#[trigger] list[j]).0 == x by {
                if x == k {
                    assert(list[0].0 == x);
                } else {
                    let j = choose|j: int| 0 <= j < rest.len() && (#[trigger] rest[j]).0 == x;
                    assert(list[j + 1] == rest[j]);
                }
            }
        } else {
            assert(list == rest);
            assert forall|x: u64| k <= x < limit && widths.contains_key(x) implies exists|j: int|
                0 <= j < list.len() && (#[trigger] list[j]).0 == x by {
                assert(k + 1 <= x);
            }
        }
    }
}

/// Whether a key stands in a list of widths.
pub open spec fn listed(w: Seq<(u64, u16)>, x: u64) -> bool {
    exists|j: int| 0 <= j < w.len() && (#[trigger] w[j]).0 == x
}

/// The map of a list of widths holds the columns of the list.
pub proof fn lemma_widths_keys(w: Seq<(u64, u16)>, x: u64)
    ensures
        widths_map(w).contains_key(x) <==> listed(w, x),
    decreases w.len(),
{
    if w.len() > 0 {
        let front = w.drop_last();
        lemma_widths_keys(front, x);
        if listed(w, x) {
            let j = choose|j: int| 0 <= j < w.len() && (#[trigger] w[j]).0 == x;
            if j < w.len() - 1 {
                assert(front[j] == w[j]);
                assert(listed(front, x));
            }
        }
        if widths_map(w).contains_key(x) {
            if x == w.last().0 {
                assert(w[w.len() - 1].0 == x);
            } else {
                assert(listed(front, x));
                let j = choose|j: int| 0 <= j < front.len() && (#[trigger] front[j]).0 == x;
                assert(w[j] == front[j]);
            }
        }
    }
}

/// The map of a list of widths gives a column the width that stands last
/// for it.
pub proof fn lemma_widths_last(w: Seq<(u64, u16)>, j: int)
    requires
        0 <= j < w.len(),
        forall|i: int| j < i < w.len() ==> w[i].0 != w[j].0,
    ensures
        widths_map(w).contains_key(w[j].0),
        widths_map(w)[w[j].0] == w[j].1,
    decreases w.len(),
{
    let front = w.drop_last();
    if j < w.len() - 1 {
        assert(front[j] == w[j]);
        assert(w[w.len() - 1].0 != w[j].0);
        assert forall|i: int| j < i < front.len() implies front[i].0 != front[j].0 by {
            assert(front[i] == w[i]);
        }
        lemma_widths_last(front, j);
    }
}

/// The widths that are read back are the widths of the sheet.
pub proof fn lemma_widths_back(widths: Map<u64, u16>)
    ensures
        widths_map(width_list(widths, 0, key_end())) == widths,
{
    let list = width_list(widths, 0, key_end());
    lemma_width_list(widths, 0, key_end());
    let back = widths_map(list);
    assert forall|x: u64| back.contains_key(x) <==> widths.contains_key(x) by {
        lemma_widths_keys(list, x);
        if back.contains_key(x) {
            assert(listed(list, x));
        }
        if widths.contains_key(x) {
            assert(listed(list, x));
        }
    }
    assert forall|x: u64| back.contains_key(x) implies back[x] == widths[x] by {
        lemma_widths_keys(list, x);
        assert(listed(list, x));
        let j = choose|j: int| 0 <= j < list.len() && (#[trigger] list[j]).0 == x;
        assert forall|i: int| j < i < list.len() implies list[i].0 != list[j].0 by {
            assert(list[j].0 < list[i].0);
        }
        lemma_widths_last(list, j);
    }
    assert(back =~= widths);
}

/// What the list of the cells holds: the cells of the grid from `k` on, each
/// once, in the order of the keys.
pub proof fn lemma_entry_list(cells: Map<u64, CellView>, k: int, limit: int)
    requires
        0 <= k,
        forall|x: u64| #[trigger] cells.contains_key(x) ==> key_on_grid(x),
    ensures
        forall|j: int|
            0 <= j < entry_list(cells, k, limit).len() ==> {
                let e = #[trigger] entry_list(cells, k, limit)[j];
                k <= entry_key(e) < limit && cells.contains_key(entry_key(e)) && e.data.text
                    == cells[entry_key(e)].val && e.data.attr == cells[entry_key(e)].attr
                    && e.col < MAX_COLS && e.row < MAX_ROWS
            },
        forall|i: int, j: int|
            0 <= i < j < entry_list(cells, k, limit).len() ==> entry_key(
                entry_list(cells, k, limit)[i],
            ) < entry_key(entry_list(cells, k, limit)[j]),
        forall|x: u64|
            k <= x < limit && cells.contains_key(x) ==> exists|j: int|
                0 <= j < entry_list(cells, k, limit).len() && entry_key(
                    #[trigger] entry_list(cells, k, limit)[j],
                ) == x,
    decreases limit - k,
{
    let list = entry_list(cells, k, limit);
    if k >= limit {
    } else {
        lemma_entry_list(cells, k + 1, limit);
        let rest = entry_list(cells, k + 1, limit);
        if k <= u64::MAX && cells.contains_key(k as u64) {
            let first = CellEntry {
                col: (k % 100000) as usize,
                row: (k / 100000) as usize,
                data: CellData { text: cells[k as u64].val, attr: cells[k as u64].attr },
            };
            assert(key_on_grid(k as u64));
            crate::ops::lemma_key_of_parts(k);
            assert(entry_key(first) == k);
            assert(list =~= seq![first] + rest);
            assert forall|j: int| 0 <= j < list.len() implies {
                let e = #[trigger] list[j];
                k <= entry_key(e) < limit && cells.contains_key(entry_key(e)) && e.data.text
                    == cells[entry_key(e)].val && e.data.attr == cells[entry_key(e)].attr
                    && e.col < MAX_COLS && e.row < MAX_ROWS
            } by {
                if j > 0 {
                    assert(list[j] == rest[j - 1]);
                }
            }
            assert forall|i: int, j: int| 0 <= i < j < list.len() implies entry_key(list[i])
                < entry_key(list[j]) by {
                assert(list[j] == rest[j - 1]);
                if i > 0 {
                    assert(list[i] == rest[i - 1]);
                }
            }
            assert forall|x: u64| k <= x < limit && cells.contains_key(x) implies exists|j: int|
                0 <= j < list.len() && entry_key(#[trigger] list[j]) == x by {
                if x == k {
                    assert(entry_key(list[0]) == x);
                } else {
                    let j = choose|j: int|
                        0 <= j < rest.len() && entry_key(#[trigger] rest[j]) == x;
                    assert(list[j + 1] == rest[j]);
                }
            }
        } else {
            assert(list == rest);
            assert forall|x: u64| k <= x < limit && cells.contains_key(x) implies exists|j: int|
                0 <= j < list.len() && entry_key(#[trigger] list[j]) == x by {
                assert(k + 1 <= x);
            }
        }
    }
}

/// Whether the cells are those of the first `i` entries of a list: each with
/// its text, trimmed, and its words on how it is drawn.
pub open spec fn holds_entries(cells: Map<u64, CellView>, list: Seq<CellEntry>, i: int) -> bool {
    &&& forall|x: u64| #[trigger]
        cells.contains_key(x) <==> exists|j: int| 0 <= j < i && entry_key(#[trigger] list[j]) == x
    &&& forall|j: int|
        0 <= j < i ==> cells[entry_key(#[trigger] list[j])].val == trimmed(list[j].data.text)
            && cells[entry_key(list[j])].attr == list[j].data.attr
}

/// Entries with different places, put on a sheet one after the other, give
/// the cells of the entries.
pub proof fn lemma_applied(cells: Map<u64, CellView>, list: Seq<CellEntry>, i: int, t: Table)
    requires
        0 <= i <= list.len(),
        holds_entries(cells, list, i),
        forall|a: int, b: int| 0 <= a < b < list.len() ==> entry_key(list[a]) < entry_key(list[b]),
    ensures
        applied(cells, list, i, t) matches Ok(fin) ==> holds_entries(fin, list, list.len() as int),
        applied(cells, list, i, t) matches Err(h) ==> h is Unanswered,
    decreases list.len() - i,
{
    if i < list.len() {
        let e = list[i];
        let key = entry_key(e);
        let made = cells.insert(key, blank(e.data.attr));
        let text = trimmed(e.data.text);
        lemma_with_text_frame(made, key, text, t);
        match entry_applied(cells, e, t) {
            Err(_) => {},
            Ok(next) => {
                assert(!cells.contains_key(key)) by {
                    if cells.contains_key(key) {
                        let j = choose|j: int| 0 <= j < i && entry_key(#[trigger] list[j]) == key;
                        assert(entry_key(list[j]) < entry_key(list[i]));
                    }
                }
                assert(next.dom() =~= cells.dom().insert(key));
                assert(holds_entries(next, list, i + 1)) by {
                    assert forall|x: u64| #[trigger]
                        next.contains_key(x) <==> exists|j: int|
                            0 <= j < i + 1 && entry_key(#[trigger] list[j]) == x by {
                        if next.contains_key(x) {
                            if x == key {
                                assert(entry_key(list[i]) == x);
                            } else {
                                assert(cells.contains_key(x));
                                let j = choose|j: int|
                                    0 <= j < i && entry_key(#[trigger] list[j]) == x;
                                assert(0 <= j < i + 1 && entry_key(list[j]) == x);
                            }
                        }
                        if exists|j: int| 0 <= j < i + 1 && entry_key(#[trigger] list[j]) == x {
                            let j = choose|j: int|
                                0 <= j < i + 1 && entry_key(#[trigger] list[j]) == x;
                            if j < i {
                                assert(cells.contains_key(x));
                            }
                        }
                    }
                    assert forall|j: int| 0 <= j < i + 1 implies next[entry_key(
                        #[trigger] list[j],
                    )].val == trimmed(list[j].data.text) && next[entry_key(list[j])].attr
                        == list[j].data.attr by {
                        if j < i {
                            let x = entry_key(list[j]);
                            assert(entry_key(list[j]) < entry_key(list[i]));
                            assert(cells.contains_key(x));
                            assert(made.contains_key(x) && x != key);
                            if text.len() == 0 {
                            } else {
                                assert(next[x].val == made[x].val);
                            }
                        } else {
                            if text.len() == 0 {
                                assert(next[key].val =~= text);
                            }
                        }
                    }
                }
                lemma_applied(next, list, i + 1, t);
            },
        }
    }
}

/// Whether the format has a place for the colour, if there is one: for every
/// colour but `Reset`.
pub open spec fn colour_fits(c: Option<Color>) -> bool {
    c != Some(Color::Reset)
}

/// Whether the format has a place for every colour of the cells.
pub open spec fn colours_fit(cells: Map<u64, CellView>) -> bool {
    forall|k: u64| #[trigger]
        cells.contains_key(k) ==> colour_fits(cells[k].attr.fg) && colour_fits(cells[k].attr.bg)
}

/// The cells from `k` on can be written where the format has a place for
/// each of their colours, and only there; no other error than that of a
/// colour without a place comes of it.
pub proof fn lemma_cells_writable(cells: Map<u64, CellView>, k: int, limit: int)
    requires
        0 <= k,
    ensures
        cells_bytes(cells, k, limit) is Ok <==> (forall|x: u64|
            k <= x < limit && #[trigger] cells.contains_key(x) ==> colour_fits(cells[x].attr.fg)
                && colour_fits(cells[x].attr.bg)),
        cells_bytes(cells, k, limit) matches Err(e) ==> e == Error::InvalidColor,
    decreases limit - k,
{
    if k < limit {
        lemma_cells_writable(cells, k + 1, limit);
        if k <= u64::MAX && cells.contains_key(k as u64) {
            let c = cells[k as u64];
            assert(color_bytes(c.attr.fg) is Ok <==> colour_fits(c.attr.fg));
            assert(color_bytes(c.attr.bg) is Ok <==> colour_fits(c.attr.bg));
            if cells_bytes(cells, k, limit) is Ok {
                assert forall|x: u64| k <= x < limit && #[trigger] cells.contains_key(x) implies colour_fits(
                    cells[x].attr.fg,
                ) && colour_fits(cells[x].attr.bg) by {
                    if x != k {
                        assert(k + 1 <= x);
                    }
                }
            }
        } else {
            assert forall|x: u64| k <= x < limit && #[trigger] cells.contains_key(x) implies k + 1
                <= x by {}
        }
    }
}

/// A sheet can be written where the format has a place for every colour of
/// its cells, and only there; the error is that of a colour without a
/// place.
pub proof fn lemma_sheet_writable(s: Sheet)
    ensures
        sheet_bytes(s) is Ok <==> colours_fit(grid(s.cells@)),
        sheet_bytes(s) matches Err(e) ==> e == Error::InvalidColor,
{
    lemma_cells_writable(grid(s.cells@), 0, key_end());
}

/// Whether `b` holds cells in the places of `a`, each with the words on how
/// it is drawn that it has in `a`, and with the text that it has in `a`
/// without the whitespace before and behind it.
pub open spec fn read_back(a: Map<u64, CellView>, b: Map<u64, CellView>) -> bool {
    &&& a.dom() == b.dom()
    &&& forall|k: u64| #[trigger]
        a.contains_key(k) ==> b[k].val == trimmed(a[k].val) && b[k].attr == a[k].attr
}

/// A sheet that is saved and loaded again holds cells in the same places,
/// with the same words on how they are drawn and with their texts without
/// the whitespace at their ends, and has the same name, window, cursor,
/// fixed rows and columns and column widths. The bytes of the sheet are read
/// to their end, whatever stands behind them; the only way in which the
/// loading can stop is for want of a number. The values of the cells are
/// found anew from their texts.
pub proof fn lemma_save_load(s: Sheet, rest: Seq<u8>, t: Table)
    requires
        s.wf(),
        storable(s),
    ensures
        sheet_data_at(sheet_bytes(s)->Ok_0 + rest, 0) == Ok::<_, Error>(
            (data_of(s), sheet_bytes(s)->Ok_0.len() as int),
        ),
        sheet_data_at(sheet_bytes(s)->Ok_0, 0) == Ok::<_, Error>(
            (data_of(s), sheet_bytes(s)->Ok_0.len() as int),
        ),
        widths_map(data_of(s).widths) == s.widths@,
        built_cells(data_of(s), t) matches Ok(cells) ==> read_back(grid(s.cells@), cells),
        built_cells(data_of(s), t) matches Err(h) ==> h is Unanswered,
{
    let bytes = sheet_bytes(s)->Ok_0;
    let b = bytes + rest;
    assert(b.subrange(0, bytes.len() as int) =~= bytes);
    lemma_sheet_here(b, 0, s);
    assert(bytes.subrange(0, bytes.len() as int) =~= bytes);
    lemma_sheet_here(bytes, 0, s);
    lemma_widths_back(s.widths@);
    let g = grid(s.cells@);
    let list = entry_list(g, 0, key_end());
    assert(g.dom() =~= s.cells@.dom());
    lemma_entry_list(g, 0, key_end());
    let none = Map::<u64, CellView>::empty();
    assert(holds_entries(none, list, 0));
    lemma_applied(none, list, 0, t);
    match applied(none, list, 0, t) {
        Err(_) => {},
        Ok(fin) => {
            assert(read_back(g, fin)) by {
                assert forall|x: u64| g.contains_key(x) <==> fin.contains_key(x) by {
                    if fin.contains_key(x) {
                        let j = choose|j: int|
                            0 <= j < list.len() && entry_key(#[trigger] list[j]) == x;
                        assert(g.contains_key(entry_key(list[j])));
                    }
                }
                assert(g.dom() =~= fin.dom());
                assert forall|x: u64| #[trigger] g.contains_key(x) implies fin[x].val == trimmed(
                    g[x].val,
                ) && fin[x].attr == g[x].attr by {
                    let j = choose|j: int|
                        0 <= j < list.len() && entry_key(#[trigger] list[j]) == x;
                    assert(fin[entry_key(list[j])].val == trimmed(list[j].data.text));
                    assert(list[j].data.text == g[x].val);
                }
            }
            lemma_recalc_keeps(fin, 0, key_end(), t);
            lemma_recalc_stops(fin, 0, key_end(), t);
        },
    }
}

/// Entries that are put on a sheet leave every text without whitespace at
/// its ends, where the texts were so before.
pub proof fn lemma_applied_trimmed(cells: Map<u64, CellView>, list: Seq<CellEntry>, i: int, t: Table)
    requires
        texts_trimmed(cells),
    ensures
        applied(cells, list, i, t) matches Ok(fin) ==> texts_trimmed(fin),
    decreases list.len() - i,
{
    if 0 <= i < list.len() {
        let e = list[i];
        let key = entry_key(e);
        let made = cells.insert(key, blank(e.data.attr));
        assert(trimmed(Seq::<char>::empty()) =~= Seq::<char>::empty());
        assert(texts_trimmed(made));
        lemma_entered_trimmed(made, key, e.data.text, t);
        match entry_applied(cells, e, t) {
            Err(_) => {},
            Ok(next) => {
                lemma_applied_trimmed(next, list, i + 1, t);
            },
        }
    }
}

/// The cells of a sheet that was read hold texts without whitespace at
/// their ends.
pub proof fn lemma_built_trimmed(data: SheetData, t: Table)
    ensures
        built_cells(data, t) matches Ok(cells) ==> texts_trimmed(cells),
{
    let none = Map::<u64, CellView>::empty();
    lemma_applied_trimmed(none, data.cells, 0, t);
    match applied(none, data.cells, 0, t) {
        Err(_) => {},
        Ok(fin) => {
            lemma_recalc_keeps(fin, 0, key_end(), t);
            match recalculated(fin, 0, key_end(), t) {
                Ok(cells) => {
                    assert forall|k: u64| #[trigger] cells.contains_key(k) implies trimmed(
                        cells[k].val,
                    ) == cells[k].val by {
                        assert(fin.contains_key(k));
                    }
                },
                Err(_) => {},
            }
        },
    }
}

/// Whether the bytes of a sheet are read back as the sheet: its name,
/// window, cursor, fixed rows and columns and column widths as they are, and,
/// whatever the table of numbers, cells in the same places, with the same
/// words on how they are drawn and with their texts without the whitespace
/// at their ends; the reading stops for want of a number only.
pub open spec fn reads_back(s: Sheet) -> bool {
    &&& sheet_data_at(sheet_bytes(s)->Ok_0, 0) == Ok::<_, Error>(
        (data_of(s), sheet_bytes(s)->Ok_0.len() as int),
    )
    &&& widths_map(data_of(s).widths) == s.widths@
    &&& forall|t: Table|
        match #[trigger] built_cells(data_of(s), t) {
            Ok(cells) => read_back(grid(s.cells@), cells),
            Err(h) => h is Unanswered,
        }
}

/// A sheet that can be written is read back as it is.
pub proof fn lemma_reads_back(s: Sheet)
    requires
        s.wf(),
        storable(s),
    ensures
        reads_back(s),
{
    lemma_save_load(s, Seq::empty(), Table::empty());
    assert forall|t: Table|
        match #[trigger] built_cells(data_of(s), t) {
            Ok(cells) => read_back(grid(s.cells@), cells),
            Err(h) => h is Unanswered,
        } by {
        lemma_save_load(s, Seq::empty(), t);
    }
}

/// A sheet whose texts are without whitespace at their ends, as
/// `set_cell_text` leaves them, holds the same texts after it was saved and
/// loaded again.
pub proof fn lemma_save_load_texts(s: Sheet, t: Table)
    requires
        s.wf(),
        storable(s),
        texts_trimmed(grid(s.cells@)),
    ensures
        built_cells(data_of(s), t) matches Ok(cells) ==> same_texts(grid(s.cells@), cells),
{
    lemma_save_load(s, Seq::empty(), t);
}

} // verus!
