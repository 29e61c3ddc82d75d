//! The binary format of a sheet: its name, view, cursor, fixed bands and
//! column widths, then its cells in the order of their keys, ended by a
//! sentinel.
use vstd::prelude::*;
use vstd::bytes::spec_u64_to_le_bytes;
use vstd::bytes::spec_u16_to_le_bytes;
use crate::codec::{
    get_text, get_u16, get_u64, get_u8, get_usize, put_text, put_u16, put_u64, put_u8, put_usize,
    text_at, text_bytes, text_fits, u16_at, u64_at, u8_at, usize_at,
};
use std::collections::BTreeMap;
use crate::error::{Error, Halt, Stop};
use crate::expr::{lemma_grid_finite, lemma_grid_insert};
use crate::number::{Numerics, Table};
use crate::keys::{increasing, sorted_keys};
use crate::recalc::{key_end, lemma_recalc_stops, recalc_cells, recalculated};
use crate::roundtrip::{lemma_built_trimmed, lemma_reads_back, reads_back};
use crate::text::trimmed;
use crate::parse::{MAX_COLS, MAX_ROWS};
use crate::ops::{key_of, lemma_key_round_trip, Arg, Pos, Token};
use crate::sheet::{
    cell_at, grid, raised_col, raised_row, texts_trimmed, with_text, Align, CalcMode, Cell,
    CellView, Color, OptionAttr, SelectType, Sheet, MAX_FIXED_COLS, MAX_FIXED_ROWS, VERSION,
};

verus! {

/// Marks, written twice, the end of the cells of a sheet.
pub const END_OF_CELLS: u64 = 9_999_888_777;

/// The tag of a colour or an alignment that is not set.
pub const NO_VALUE: u8 = 0xFF;

/// The tag of one of the sixteen named colours.
pub const CLR_8: u8 = 0x00;

/// The tag of a colour of the ANSI palette.
pub const CLR_ANSI: u8 = 0x01;

/// The tag of a colour given by red, green and blue.
pub const CLR_RGB: u8 = 0x02;

/// The index of a named colour; `None` for a colour that has no name among
/// the sixteen.
pub open spec fn color_index(c: Color) -> Option<u8> {
    match c {
        Color::Black => Some(0u8),
        Color::Red => Some(1u8),
        Color::DarkRed => Some(2u8),
        Color::Green => Some(3u8),
        Color::DarkGreen => Some(4u8),
        Color::Yellow => Some(5u8),
        Color::DarkYellow => Some(6u8),
        Color::Blue => Some(7u8),
        Color::DarkBlue => Some(8u8),
        Color::Magenta => Some(9u8),
        Color::DarkMagenta => Some(10u8),
        Color::Cyan => Some(11u8),
        Color::DarkCyan => Some(12u8),
        Color::Grey => Some(13u8),
        Color::DarkGrey => Some(14u8),
        Color::White => Some(15u8),
        _ => None,
    }
}

/// The named colour with an index.
pub open spec fn indexed_color(i: u8) -> Option<Color> {
    if i == 0 {
        Some(Color::Black)
    } else if i == 1 {
        Some(Color::Red)
    } else if i == 2 {
        Some(Color::DarkRed)
    } else if i == 3 {
        Some(Color::Green)
    } else if i == 4 {
        Some(Color::DarkGreen)
    } else if i == 5 {
        Some(Color::Yellow)
    } else if i == 6 {
        Some(Color::DarkYellow)
    } else if i == 7 {
        Some(Color::Blue)
    } else if i == 8 {
        Some(Color::DarkBlue)
    } else if i == 9 {
        Some(Color::Magenta)
    } else if i == 10 {
        Some(Color::DarkMagenta)
    } else if i == 11 {
        Some(Color::Cyan)
    } else if i == 12 {
        Some(Color::DarkCyan)
    } else if i == 13 {
        Some(Color::Grey)
    } else if i == 14 {
        Some(Color::DarkGrey)
    } else if i == 15 {
        Some(Color::White)
    } else {
        None
    }
}

fn col8_to_u8(clr: Color) -> (r: Result<u8, Error>)
    ensures
        match r {
            Ok(i) => color_index(clr) == Some(i),
            Err(e) => color_index(clr) is None && e == Error::InvalidColor,
        },
{
    let c: u8 = match clr {
        Color::Black => 0u8,
        Color::Red => 1u8,
        Color::DarkRed => 2u8,
        Color::Green => 3u8,
        Color::DarkGreen => 4u8,
        Color::Yellow => 5u8,
        Color::DarkYellow => 6u8,
        Color::Blue => 7u8,
        Color::DarkBlue => 8u8,
        Color::Magenta => 9u8,
        Color::DarkMagenta => 10u8,
        Color::Cyan => 11u8,
        Color::DarkCyan => 12u8,
        Color::Grey => 13u8,
        Color::DarkGrey => 14u8,
        Color::White => 15u8,
        _ => {
            return Err(Error::InvalidColor);
        },
    };
    Ok(c)
}

fn u8_to_col8(clr: u8) -> (r: Result<Color, Error>)
    ensures
        match r {
            Ok(c) => indexed_color(clr) == Some(c),
            Err(e) => indexed_color(clr) is None && e == Error::InvalidColor,
        },
{
    let c = match clr {
        0u8 => Color::Black,
        1u8 => Color::Red,
        2u8 => Color::DarkRed,
        3u8 => Color::Green,
        4u8 => Color::DarkGreen,
        5u8 => Color::Yellow,
        6u8 => Color::DarkYellow,
        7u8 => Color::Blue,
        8u8 => Color::DarkBlue,
        9u8 => Color::Magenta,
        10u8 => Color::DarkMagenta,
        11u8 => Color::Cyan,
        12u8 => Color::DarkCyan,
        13u8 => Color::Grey,
        14u8 => Color::DarkGrey,
        15u8 => Color::White,
        _ => {
            return Err(Error::InvalidColor);
        },
    };
    Ok(c)
}

/// A colour in the format: a tag, then what the tag asks for. `Err` for a
/// colour that the format cannot hold.
pub open spec fn color_bytes(c: Option<Color>) -> Result<Seq<u8>, Error> {
    match c {
        None => Ok(seq![NO_VALUE]),
        Some(Color::AnsiValue(v)) => Ok(seq![CLR_ANSI, v]),
        Some(Color::Rgb { r, g, b }) => Ok(seq![CLR_RGB, r, g, b]),
        Some(named) => match color_index(named) {
            Some(i) => Ok(seq![CLR_8, i]),
            None => Err(Error::InvalidColor),
        },
    }
}

/// An alignment in the format.
pub open spec fn align_bytes(a: Option<Align>) -> Seq<u8> {
    match a {
        None => seq![NO_VALUE],
        Some(Align::Left) => seq![0u8],
        Some(Align::Right) => seq![1u8],
        Some(Align::Center) => seq![2u8],
    }
}

/// The colour at `pos` and where the bytes go on.
pub open spec fn color_at(b: Seq<u8>, pos: int) -> Result<(Option<Color>, int), Error> {
    match u8_at(b, pos) {
        None => Err(Error::Truncated),
        Some((tag, p1)) => if tag == NO_VALUE {
            Ok((None, p1))
        } else if tag == CLR_ANSI {
            match u8_at(b, p1) {
                None => Err(Error::Truncated),
                Some((v, p2)) => Ok((Some(Color::AnsiValue(v)), p2)),
            }
        } else if tag == CLR_RGB {
            match u8_at(b, p1) {
                None => Err(Error::Truncated),
                Some((r, p2)) => match u8_at(b, p2) {
                    None => Err(Error::Truncated),
                    Some((g, p3)) => match u8_at(b, p3) {
                        None => Err(Error::Truncated),
                        Some((bl, p4)) => Ok((Some(Color::Rgb { r: r, g: g, b: bl }), p4)),
                    },
                },
            }
        } else if tag == CLR_8 {
            match u8_at(b, p1) {
                None => Err(Error::Truncated),
                Some((i, p2)) => match indexed_color(i) {
                    Some(c) => Ok((Some(c), p2)),
                    None => Err(Error::InvalidColor),
                },
            }
        } else {
            Err(Error::InvalidColor)
        },
    }
}

/// The alignment at `pos` and where the bytes go on.
pub open spec fn align_at(b: Seq<u8>, pos: int) -> Result<(Option<Align>, int), Error> {
    match u8_at(b, pos) {
        None => Err(Error::Truncated),
        Some((tag, p1)) => if tag == NO_VALUE {
            Ok((None, p1))
        } else if tag == 0 {
            Ok((Some(Align::Left), p1))
        } else if tag == 1 {
            Ok((Some(Align::Right), p1))
        } else if tag == 2 {
            Ok((Some(Align::Center), p1))
        } else {
            Err(Error::InvalidAlign)
        },
    }
}

/// Writes a colour. Nothing is written where the format cannot hold it.
pub fn save_color(out: &mut Vec<u8>, clr: &Option<Color>) -> (r: Result<(), Error>)
    ensures
        match r {
            Ok(_) => color_bytes(*clr) is Ok && final(out)@ == old(out)@ + color_bytes(*clr)->Ok_0,
            Err(e) => color_bytes(*clr) == Err::<Seq<u8>, _>(e) && final(out)@ == old(out)@,
        },
{
    let ghost before = out@;
    match clr {
        None => {
            put_u8(out, NO_VALUE);
        },
        Some(Color::AnsiValue(val)) => {
            put_u8(out, CLR_ANSI);
            put_u8(out, *val);
        },
        Some(Color::Rgb { r, g, b }) => {
            put_u8(out, CLR_RGB);
            put_u8(out, *r);
            put_u8(out, *g);
            put_u8(out, *b);
        },
        Some(c) => {
            let idx = col8_to_u8(*c)?;
            put_u8(out, CLR_8);
            put_u8(out, idx);
        },
    }
    proof {
        assert(out@ =~= before + color_bytes(*clr)->Ok_0);
    }
    Ok(())
}

/// Writes an alignment.
pub fn save_align(out: &mut Vec<u8>, align: &Option<Align>)
    ensures
        final(out)@ == old(out)@ + align_bytes(*align),
{
    let tag: u8 = match align {
        None => NO_VALUE,
        Some(Align::Left) => 0u8,
        Some(Align::Right) => 1u8,
        Some(Align::Center) => 2u8,
    };
    put_u8(out, tag);
    assert(out@ =~= old(out)@ + align_bytes(*align));
}

/// Reads the colour at `pos`.
pub fn load_color(bytes: &[u8], pos: usize) -> (r: Result<(Option<Color>, usize), Error>)
    ensures
        match r {
            Ok((c, e)) => color_at(bytes@, pos as int) == Ok::<_, Error>((c, e as int)),
            Err(e) => color_at(bytes@, pos as int) == Err::<(Option<Color>, int), _>(e),
        },
{
    let (tp, p1) = get_u8(bytes, pos)?;
    if tp == NO_VALUE {
        Ok((None, p1))
    } else if tp == CLR_ANSI {
        let (a, p2) = get_u8(bytes, p1)?;
        Ok((Some(Color::AnsiValue(a)), p2))
    } else if tp == CLR_RGB {
        let (r, p2) = get_u8(bytes, p1)?;
        let (g, p3) = get_u8(bytes, p2)?;
        let (b, p4) = get_u8(bytes, p3)?;
        Ok((Some(Color::Rgb { r, g, b }), p4))
    } else if tp == CLR_8 {
        let (a, p2) = get_u8(bytes, p1)?;
        let c = u8_to_col8(a)?;
        Ok((Some(c), p2))
    } else {
        Err(Error::InvalidColor)
    }
}

/// Reads the alignment at `pos`.
pub fn load_align(bytes: &[u8], pos: usize) -> (r: Result<(Option<Align>, usize), Error>)
    ensures
        match r {
            Ok((a, e)) => align_at(bytes@, pos as int) == Ok::<_, Error>((a, e as int)),
            Err(e) => align_at(bytes@, pos as int) == Err::<(Option<Align>, int), _>(e),
        },
{
    let (tp, p1) = get_u8(bytes, pos)?;
    if tp == NO_VALUE {
        Ok((None, p1))
    } else if tp == 0 {
        Ok((Some(Align::Left), p1))
    } else if tp == 1 {
        Ok((Some(Align::Right), p1))
    } else if tp == 2 {
        Ok((Some(Align::Center), p1))
    } else {
        Err(Error::InvalidAlign)
    }
}

/// The text and the words on how it is drawn of a cell in the format.
pub open spec fn cell_bytes(c: CellView) -> Result<Seq<u8>, Error> {
    match color_bytes(c.attr.fg) {
        Err(e) => Err(e),
        Ok(fg) => match color_bytes(c.attr.bg) {
            Err(e) => Err(e),
            Ok(bg) => Ok(text_bytes(c.val) + align_bytes(c.attr.align) + fg + bg),
        },
    }
}

/// What a cell record holds: a text and how it is drawn.
pub struct CellData {
    pub text: Seq<char>,
    pub attr: OptionAttr,
}

/// The cell record at `pos` and where the bytes go on.
pub open spec fn cell_data_at(b: Seq<u8>, pos: int) -> Result<(CellData, int), Error> {
    match text_at(b, pos) {
        None => Err(Error::Truncated),
        Some((text, p1)) => match align_at(b, p1) {
            Err(e) => Err(e),
            Ok((align, p2)) => match color_at(b, p2) {
                Err(e) => Err(e),
                Ok((fg, p3)) => match color_at(b, p3) {
                    Err(e) => Err(e),
                    Ok((bg, p4)) => Ok(
                        (CellData { text: text, attr: OptionAttr { fg: fg, bg: bg, align: align } }, p4),
                    ),
                },
            },
        },
    }
}

impl Cell {
    /// Writes the text of the cell and how it is drawn. Nothing is written
    /// where a colour cannot be held by the format.
    pub fn save(&self, out: &mut Vec<u8>) -> (r: Result<(), Error>)
        ensures
            match r {
                Ok(_) => cell_bytes(self@) is Ok && final(out)@ == old(out)@ + cell_bytes(self@)->Ok_0
                    && text_fits(self@.val),
                Err(e) => cell_bytes(self@) == Err::<Seq<u8>, _>(e) && final(out)@ == old(out)@,
            },
    {
        let mut part: Vec<u8> = Vec::new();
        put_text(&mut part, self.val.as_str());
        save_align(&mut part, &self.attr.align);
        match save_color(&mut part, &self.attr.fg) {
            Err(e) => {
                return Err(e);
            },
            Ok(_) => {},
        }
        match save_color(&mut part, &self.attr.bg) {
            Err(e) => {
                return Err(e);
            },
            Ok(_) => {},
        }
        proof {
            assert(part@ =~= cell_bytes(self@)->Ok_0);
        }
        let mut part = part;
        out.append(&mut part);
        Ok(())
    }

    /// Reads a cell: its text and how it is drawn. It has no value yet.
    pub fn load(bytes: &[u8], pos: usize, version: u16) -> (r: Result<(Cell, usize), Error>)
        ensures
            match r {
                Ok((cell, e)) => version == VERSION && cell_data_at(bytes@, pos as int) == Ok::<
                    _,
                    Error,
                >((CellData { text: cell@.val, attr: cell@.attr }, e as int)) && cell@.calculated
                    == Token::End && cell@.err == 0,
                Err(e) => if version != VERSION {
                    e == Error::UnsupportedVersion
                } else {
                    cell_data_at(bytes@, pos as int) == Err::<(CellData, int), _>(e)
                },
            },
    {
        if version != VERSION {
            return Err(Error::UnsupportedVersion);
        }
        let (val, p1) = get_text(bytes, pos)?;
        let (align, p2) = load_align(bytes, p1)?;
        let (fg, p3) = load_color(bytes, p2)?;
        let (bg, p4) = load_color(bytes, p3)?;
        Ok((Cell { val, calculated: Arg::End, attr: OptionAttr { fg, bg, align }, err: 0 }, p4))
    }
}

/// The column widths with keys from `k` up to, but not with, `limit`, each
/// as the column's index and its width, in the order of the columns.
pub open spec fn widths_bytes(widths: Map<u64, u16>, k: int, limit: int) -> Seq<u8>
    decreases limit - k,
{
    if k >= limit {
        Seq::empty()
    } else if 0 <= k <= u64::MAX && widths.contains_key(k as u64) {
        spec_u64_to_le_bytes(k as u64) + spec_u16_to_le_bytes(widths[k as u64]) + widths_bytes(
            widths,
            k + 1,
            limit,
        )
    } else {
        widths_bytes(widths, k + 1, limit)
    }
}

/// The cells with keys from `k` up to, but not with, `limit`, each as its
/// column, its row and its record, in the order of the keys.
pub open spec fn cells_bytes(cells: Map<u64, CellView>, k: int, limit: int) -> Result<Seq<u8>, Error>
    decreases limit - k,
{
    if k >= limit {
        Ok(Seq::empty())
    } else if 0 <= k <= u64::MAX && cells.contains_key(k as u64) {
        match cell_bytes(cells[k as u64]) {
            Err(e) => Err(e),
            Ok(record) => match cells_bytes(cells, k + 1, limit) {
                Err(e) => Err(e),
                Ok(rest) => Ok(
                    spec_u64_to_le_bytes((k % 100000) as u64) + spec_u64_to_le_bytes(
                        (k / 100000) as u64,
                    ) + record + rest,
                ),
            },
        }
    } else {
        cells_bytes(cells, k + 1, limit)
    }
}

/// What stands before the cells of a sheet in the format.
pub open spec fn head_bytes(s: Sheet) -> Seq<u8> {
    text_bytes(s.name@) + spec_u64_to_le_bytes(s.first_col as u64) + spec_u64_to_le_bytes(
        s.first_row as u64,
    ) + spec_u64_to_le_bytes(s.cursor.col as u64) + spec_u64_to_le_bytes(s.cursor.row as u64)
        + spec_u64_to_le_bytes(s.fixed_cols as u64) + spec_u64_to_le_bytes(s.fixed_rows as u64)
        + spec_u64_to_le_bytes(s.widths@.len() as u64) + widths_bytes(s.widths@, 0, key_end())
        + spec_u64_to_le_bytes(0) + spec_u64_to_le_bytes(0) + spec_u64_to_le_bytes(0)
}

/// The end of the cells of a sheet in the format.
pub open spec fn tail_bytes() -> Seq<u8> {
    spec_u64_to_le_bytes(END_OF_CELLS) + spec_u64_to_le_bytes(END_OF_CELLS)
}

/// A sheet in the format.
pub open spec fn sheet_bytes(s: Sheet) -> Result<Seq<u8>, Error> {
    match cells_bytes(grid(s.cells@), 0, key_end()) {
        Err(e) => Err(e),
        Ok(cells) => Ok(head_bytes(s) + cells + tail_bytes()),
    }
}

/// Widths that are not set add nothing.
pub proof fn lemma_widths_skip(widths: Map<u64, u16>, a: int, b: int, limit: int)
    requires
        a <= b <= limit,
        forall|k: u64| a <= k < b ==> !#[trigger] widths.contains_key(k),
    ensures
        widths_bytes(widths, a, limit) == widths_bytes(widths, b, limit),
    decreases b - a,
{
    if a < b {
        lemma_widths_skip(widths, a + 1, b, limit);
    }
}

/// Cells that are not there add nothing.
pub proof fn lemma_cells_skip(cells: Map<u64, CellView>, a: int, b: int, limit: int)
    requires
        a <= b <= limit,
        forall|k: u64| a <= k < b ==> !#[trigger] cells.contains_key(k),
    ensures
        cells_bytes(cells, a, limit) == cells_bytes(cells, b, limit),
    decreases b - a,
{
    if a < b {
        lemma_cells_skip(cells, a + 1, b, limit);
    }
}

fn save_widths(out: &mut Vec<u8>, widths: &BTreeMap<u64, u16>)
    ensures
        final(out)@ == old(out)@ + widths_bytes(widths@, 0, key_end()),
{
    let keys = sorted_keys(widths);
    let ghost start = out@;
    let ghost mut pos: int = 0;
    let mut i: usize = 0;
    assert(out@ =~= start + Seq::<u8>::empty());
    let ghost mut done: Seq<u8> = Seq::empty();
    while i < keys.len()
        invariant
            i <= keys@.len(),
            0 <= pos <= key_end(),
            pos == 0 || (i > 0 && pos == keys@[i - 1] + 1),
            forall|j: int| 0 <= j < i ==> keys@[j] < pos,
            keys@.to_set() == widths@.dom(),
            increasing(keys@),
            start == old(out)@,
            out@ == start + done,
            widths_bytes(widths@, 0, key_end()) == done + widths_bytes(widths@, pos, key_end()),
        decreases keys@.len() - i,
    {
        let k: u64 = keys[i];
        proof {
            assert forall|x: u64| pos <= x < k implies !#[trigger] widths@.contains_key(x) by {
                if widths@.contains_key(x) {
                    assert(keys@.to_set().contains(x));
                    let j = choose|j: int| 0 <= j < keys@.len() && keys@[j] == x;
                    if j < i {
                    } else if j > i {
                    }
                }
            }
            if i > 0 {
                assert(keys@[i - 1] < keys@[i as int]);
            }
            lemma_widths_skip(widths@, pos, k as int, key_end());
            assert(keys@.to_set().contains(k));
        }
        match widths.get(&k) {
            Some(w) => {
                put_u64(out, k);
                put_u16(out, *w);
                proof {
                    let item = spec_u64_to_le_bytes(k) + spec_u16_to_le_bytes(*w);
                    let rest = widths_bytes(widths@, k + 1, key_end());
                    assert(out@ =~= start + (done + item));
                    assert(done + (item + rest) =~= (done + item) + rest);
                    assert(spec_u64_to_le_bytes(k) + spec_u16_to_le_bytes(*w) + rest =~= item
                        + rest);
                    done = done + item;
                }
            },
            None => {},
        }
        proof {
            pos = k + 1;
        }
        i += 1;
    }
    proof {
        assert forall|x: u64| pos <= x < key_end() implies !#[trigger] widths@.contains_key(x) by {
            if widths@.contains_key(x) {
                assert(keys@.to_set().contains(x));
                let j = choose|j: int| 0 <= j < keys@.len() && keys@[j] == x;
                if j < i {
                }
            }
        }
        lemma_widths_skip(widths@, pos, key_end(), key_end());
        assert(done + Seq::<u8>::empty() =~= done);
    }
}

/// Whether the text of every cell is of a length that can be written.
pub open spec fn texts_fit(cells: Map<u64, CellView>) -> bool {
    forall|k: u64| #[trigger] cells.contains_key(k) ==> text_fits(cells[k].val)
}

/// Whether a sheet can be written in full: its colours have a place in the
/// format, and its texts and the number of its column widths are no larger
/// than a machine can hold.
pub open spec fn storable(s: Sheet) -> bool {
    &&& sheet_bytes(s) is Ok
    &&& text_fits(s.name@)
    &&& texts_fit(grid(s.cells@))
    &&& s.widths@.dom().finite()
    &&& s.widths@.len() <= usize::MAX
}

fn save_cells(cells: &BTreeMap<u64, Cell>) -> (r: Result<Vec<u8>, Error>)
    ensures
        match r {
            Ok(b) => cells_bytes(grid(cells@), 0, key_end()) == Ok::<_, Error>(b@) && texts_fit(
                grid(cells@),
            ),
            Err(e) => cells_bytes(grid(cells@), 0, key_end()) == Err::<Seq<u8>, _>(e),
        },
{
    let mut out: Vec<u8> = Vec::new();
    let keys = sorted_keys(cells);
    let ghost g = grid(cells@);
    let ghost start = out@;
    let ghost mut pos: int = 0;
    let ghost mut done: Seq<u8> = Seq::empty();
    let mut i: usize = 0;
    proof {
        lemma_grid_finite(*cells);
        assert(out@ =~= start + Seq::<u8>::empty());
        match cells_bytes(g, 0, key_end()) {
            Ok(all) => {
                assert(Seq::<u8>::empty() + all =~= all);
            },
            Err(_) => {},
        }
    }
    while i < keys.len()
        invariant
            i <= keys@.len(),
            0 <= pos <= key_end(),
            pos == 0 || (i > 0 && pos == keys@[i - 1] + 1),
            forall|j: int| 0 <= j < i ==> keys@[j] < pos,
            keys@.to_set() == cells@.dom(),
            g == grid(cells@),
            g.dom() == cells@.dom(),
            increasing(keys@),
            start == Seq::<u8>::empty(),
            forall|j: int| 0 <= j < i ==> text_fits(g[#[trigger] keys@[j]].val),
            out@ == start + done,
            cells_bytes(g, 0, key_end()) == (match cells_bytes(g, pos, key_end()) {
                Ok(rest) => Ok(done + rest),
                Err(e) => Err(e),
            }),
        decreases keys@.len() - i,
    {
        let k: u64 = keys[i];
        proof {
            assert forall|x: u64| pos <= x < k implies !#[trigger] g.contains_key(x) by {
                if g.contains_key(x) {
                    assert(keys@.to_set().contains(x));
                    let j = choose|j: int| 0 <= j < keys@.len() && keys@[j] == x;
                    if j < i {
                    } else if j > i {
                    }
                }
            }
            if i > 0 {
                assert(keys@[i - 1] < keys@[i as int]);
            }
            lemma_cells_skip(g, pos, k as int, key_end());
            assert(keys@.to_set().contains(k));
        }
        match cells.get(&k) {
            Some(cell) => {
                assert(g[k] == cell@);
                let mut part: Vec<u8> = Vec::new();
                put_u64(&mut part, k % 100000);
                put_u64(&mut part, k / 100000);
                match cell.save(&mut part) {
                    Err(e) => {
                        return Err(e);
                    },
                    Ok(_) => {},
                }
                proof {
                    let item = spec_u64_to_le_bytes(k % 100000) + spec_u64_to_le_bytes(k / 100000)
                        + cell_bytes(cell@)->Ok_0;
                    assert(part@ =~= item);
                    match cells_bytes(g, k + 1, key_end()) {
                        Ok(rest) => {
                            assert(done + (item + rest) =~= (done + item) + rest);
                        },
                        Err(_) => {},
                    }
                    done = done + item;
                }
                let mut part = part;
                out.append(&mut part);
                assert(out@ =~= start + done);
            },
            None => {},
        }
        proof {
            pos = k + 1;
        }
        i += 1;
    }
    proof {
        assert forall|x: u64| pos <= x < key_end() implies !#[trigger] g.contains_key(x) by {
            if g.contains_key(x) {
                assert(keys@.to_set().contains(x));
                let j = choose|j: int| 0 <= j < keys@.len() && keys@[j] == x;
                if j < i {
                }
            }
        }
        lemma_cells_skip(g, pos, key_end(), key_end());
        assert(done + Seq::<u8>::empty() =~= done);
        assert(out@ =~= done);
        assert forall|x: u64| #[trigger] g.contains_key(x) implies text_fits(g[x].val) by {
            assert(keys@.to_set().contains(x));
            let j = choose|j: int| 0 <= j < keys@.len() && keys@[j] == x;
            assert(text_fits(g[keys@[j]].val));
        }
    }
    Ok(out)
}

impl Sheet {
    /// The sheet in the binary format. A colour that the format cannot hold
    /// is an error. What is written of a sheet that meets what a sheet must
    /// meet is read back as that sheet.
    pub fn save(&self) -> (r: Result<Vec<u8>, Error>)
        ensures
            match r {
                Ok(b) => sheet_bytes(*self) == Ok::<_, Error>(b@) && storable(*self),
                Err(e) => sheet_bytes(*self) == Err::<Seq<u8>, _>(e),
            },
            r is Ok && self.wf() ==> reads_back(*self),
    {
        broadcast use vstd::std_specs::btree::group_btree_axioms;

        let cells = save_cells(&self.cells)?;
        let mut out: Vec<u8> = Vec::new();
        put_text(&mut out, self.name.as_str());
        put_usize(&mut out, self.first_col);
        put_usize(&mut out, self.first_row);
        put_usize(&mut out, self.cursor.col);
        put_usize(&mut out, self.cursor.row);
        put_usize(&mut out, self.fixed_cols);
        put_usize(&mut out, self.fixed_rows);
        put_usize(&mut out, self.widths.len());
        save_widths(&mut out, &self.widths);
        put_u64(&mut out, 0);
        put_u64(&mut out, 0);
        put_u64(&mut out, 0);
        assert(out@ =~= head_bytes(*self));
        let mut cells = cells;
        out.append(&mut cells);
        put_u64(&mut out, END_OF_CELLS);
        put_u64(&mut out, END_OF_CELLS);
        assert(out@ =~= sheet_bytes(*self)->Ok_0);
        proof {
            if self.wf() {
                lemma_reads_back(*self);
            }
        }
        Ok(out)
    }
}

/// A cell as the format holds it: its place and its record.
pub struct CellEntry {
    pub col: usize,
    pub row: usize,
    pub data: CellData,
}

/// A sheet as the format holds it.
pub struct SheetData {
    pub name: Seq<char>,
    pub first_col: usize,
    pub first_row: usize,
    pub cursor_col: usize,
    pub cursor_row: usize,
    pub fixed_cols: usize,
    pub fixed_rows: usize,
    pub widths: Seq<(u64, u16)>,
    pub cells: Seq<CellEntry>,
}

/// A cell record takes at least one byte.
pub proof fn lemma_cell_data_bounds(b: Seq<u8>, pos: int)
    requires
        0 <= pos,
    ensures
        cell_data_at(b, pos) matches Ok((_, e)) ==> pos < e <= b.len(),
{
}

/// The cells from `pos` on up to the sentinel, and where the bytes go on
/// behind it. A cell off the grid is an error.
pub open spec fn entries_at(b: Seq<u8>, pos: int) -> Result<(Seq<CellEntry>, int), Error>
    decreases b.len() - pos,
    when 0 <= pos
    via entries_at_decreases
{
    match u64_at(b, pos) {
        None => Err(Error::Truncated),
        Some((col, p1)) => match u64_at(b, p1) {
            None => Err(Error::Truncated),
            Some((row, p2)) => if col == END_OF_CELLS && row == END_OF_CELLS {
                Ok((Seq::empty(), p2))
            } else if col >= MAX_COLS || row >= MAX_ROWS {
                Err(Error::InvalidIndex)
            } else {
                match cell_data_at(b, p2) {
                    Err(e) => Err(e),
                    Ok((data, p3)) => match entries_at(b, p3) {
                        Err(e) => Err(e),
                        Ok((rest, end)) => Ok(
                            (
                                seq![CellEntry { col: col as usize, row: row as usize, data: data }]
                                    + rest,
                                end,
                            ),
                        ),
                    },
                }
            },
        },
    }
}

#[via_fn]
proof fn entries_at_decreases(b: Seq<u8>, pos: int) {
    lemma_cell_data_bounds(b, pos + 16);
}

/// `n` column widths from `pos` on, and where the bytes go on.
pub open spec fn width_entries_at(b: Seq<u8>, pos: int, n: nat) -> Result<
    (Seq<(u64, u16)>, int),
    Error,
>
    decreases n,
{
    if n == 0 {
        Ok((Seq::empty(), pos))
    } else {
        match u64_at(b, pos) {
            None => Err(Error::Truncated),
            Some((col, p1)) => match u16_at(b, p1) {
                None => Err(Error::Truncated),
                Some((w, p2)) => match width_entries_at(b, p2, (n - 1) as nat) {
                    Err(e) => Err(e),
                    Ok((rest, end)) => Ok((seq![(col, w)] + rest, end)),
                },
            },
        }
    }
}

/// The index or count at `pos`, which must be there.
pub open spec fn field(b: Seq<u8>, pos: int) -> Result<(usize, int), Error> {
    match usize_at(b, pos) {
        Some(x) => Ok(x),
        None => Err(Error::Truncated),
    }
}

/// A reserved count: it must be there and be zero.
pub open spec fn reserved_at(b: Seq<u8>, pos: int) -> Result<int, Error> {
    match u64_at(b, pos) {
        None => Err(Error::Truncated),
        Some((v, e)) => if v == 0 {
            Ok(e)
        } else {
            Err(Error::ReservedNotZero)
        },
    }
}

/// The sheet at `pos` and where the bytes go on. The view and the cursor
/// must be on the grid and the fixed bands within their limits.
pub open spec fn sheet_data_at(b: Seq<u8>, pos: int) -> Result<(SheetData, int), Error> {
    match text_at(b, pos) {
        None => Err(Error::Truncated),
        Some((name, p1)) => match field(b, p1) {
            Err(e) => Err(e),
            Ok((first_col, p2)) => match field(b, p2) {
                Err(e) => Err(e),
                Ok((first_row, p3)) => match field(b, p3) {
                    Err(e) => Err(e),
                    Ok((cursor_col, p4)) => match field(b, p4) {
                        Err(e) => Err(e),
                        Ok((cursor_row, p5)) => match field(b, p5) {
                            Err(e) => Err(e),
                            Ok((fixed_cols, p6)) => match field(b, p6) {
                                Err(e) => Err(e),
                                Ok((fixed_rows, p7)) => if first_col >= MAX_COLS || first_row
                                    >= MAX_ROWS || cursor_col >= MAX_COLS || cursor_row
                                    >= MAX_ROWS {
                                    Err(Error::InvalidIndex)
                                } else if fixed_cols > MAX_FIXED_COLS || fixed_rows
                                    > MAX_FIXED_ROWS {
                                    Err(Error::InvalidCount)
                                } else {
                                    match field(b, p7) {
                                        Err(e) => Err(e),
                                        Ok((count, p8)) => match width_entries_at(
                                            b,
                                            p8,
                                            count as nat,
                                        ) {
                                            Err(e) => Err(e),
                                            Ok((widths, p9)) => match reserved_at(b, p9) {
                                                Err(e) => Err(e),
                                                Ok(p10) => match reserved_at(b, p10) {
                                                    Err(e) => Err(e),
                                                    Ok(p11) => match reserved_at(b, p11) {
                                                        Err(e) => Err(e),
                                                        Ok(p12) => match entries_at(b, p12) {
                                                            Err(e) => Err(e),
                                                            Ok((cells, end)) => Ok(
                                                                (
                                                                    SheetData {
                                                                        name: name,
                                                                        first_col: first_col,
                                                                        first_row: first_row,
                                                                        cursor_col: cursor_col,
                                                                        cursor_row: cursor_row,
                                                                        fixed_cols: fixed_cols,
                                                                        fixed_rows: fixed_rows,
                                                                        widths: widths,
                                                                        cells: cells,
                                                                    },
                                                                    end,
                                                                ),
                                                            ),
                                                        },
                                                    },
                                                },
                                            },
                                        },
                                    }
                                },
                            },
                        },
                    },
                },
            },
        },
    }
}

/// A cell as it was read.
pub struct CellRecord {
    pub col: usize,
    pub row: usize,
    pub cell: Cell,
}

impl View for CellRecord {
    type V = CellEntry;

    open spec fn view(&self) -> CellEntry {
        CellEntry {
            col: self.col,
            row: self.row,
            data: CellData { text: self.cell@.val, attr: self.cell@.attr },
        }
    }
}

/// A sheet as it was read.
pub struct SheetRecord {
    pub name: String,
    pub first_col: usize,
    pub first_row: usize,
    pub cursor_col: usize,
    pub cursor_row: usize,
    pub fixed_cols: usize,
    pub fixed_rows: usize,
    pub widths: Vec<(u64, u16)>,
    pub cells: Vec<CellRecord>,
}

/// The cells that were read, as plain values.
pub open spec fn entries(v: Seq<CellRecord>) -> Seq<CellEntry> {
    v.map_values(|r: CellRecord| r@)
}

impl View for SheetRecord {
    type V = SheetData;

    open spec fn view(&self) -> SheetData {
        SheetData {
            name: self.name@,
            first_col: self.first_col,
            first_row: self.first_row,
            cursor_col: self.cursor_col,
            cursor_row: self.cursor_row,
            fixed_cols: self.fixed_cols,
            fixed_rows: self.fixed_rows,
            widths: self.widths@,
            cells: entries(self.cells@),
        }
    }
}

fn read_field(bytes: &[u8], pos: usize) -> (r: Result<(usize, usize), Error>)
    ensures
        match r {
            Ok((v, e)) => field(bytes@, pos as int) == Ok::<_, Error>((v, e as int)),
            Err(e) => field(bytes@, pos as int) == Err::<(usize, int), _>(e),
        },
{
    get_usize(bytes, pos)
}

fn read_reserved(bytes: &[u8], pos: usize) -> (r: Result<usize, Error>)
    ensures
        match r {
            Ok(e) => reserved_at(bytes@, pos as int) == Ok::<_, Error>(e as int),
            Err(e) => reserved_at(bytes@, pos as int) == Err::<int, _>(e),
        },
{
    let (v, e) = get_u64(bytes, pos)?;
    if v == 0 {
        Ok(e)
    } else {
        Err(Error::ReservedNotZero)
    }
}

fn read_widths(bytes: &[u8], pos: usize, n: usize) -> (r: Result<(Vec<(u64, u16)>, usize), Error>)
    ensures
        match r {
            Ok((w, e)) => width_entries_at(bytes@, pos as int, n as nat) == Ok::<_, Error>(
                (w@, e as int),
            ),
            Err(e) => width_entries_at(bytes@, pos as int, n as nat) == Err::<
                (Seq<(u64, u16)>, int),
                _,
            >(e),
        },
{
    let mut out: Vec<(u64, u16)> = Vec::new();
    let mut p: usize = pos;
    let mut i: usize = 0;
    proof {
        match width_entries_at(bytes@, pos as int, n as nat) {
            Ok((all, _)) => {
                assert(Seq::<(u64, u16)>::empty() + all =~= all);
            },
            Err(_) => {},
        }
    }
    while i < n
        invariant
            i <= n,
            width_entries_at(bytes@, pos as int, n as nat) == (match width_entries_at(
                bytes@,
                p as int,
                (n - i) as nat,
            ) {
                Ok((rest, e)) => Ok((out@ + rest, e)),
                Err(e) => Err(e),
            }),
        decreases n - i,
    {
        let (col, p1) = get_u64(bytes, p)?;
        let (w, p2) = get_u16(bytes, p1)?;
        proof {
            match width_entries_at(bytes@, p2 as int, (n - i - 1) as nat) {
                Ok((rest, _)) => {
                    assert(out@ + (seq![(col, w)] + rest) =~= out@.push((col, w)) + rest);
                },
                Err(_) => {},
            }
        }
        out.push((col, w));
        p = p2;
        i += 1;
    }
    assert(out@ + Seq::<(u64, u16)>::empty() =~= out@);
    Ok((out, p))
}

fn read_cells(bytes: &[u8], pos: usize, version: u16) -> (r: Result<(Vec<CellRecord>, usize), Error>)
    requires
        version == VERSION,
    ensures
        match r {
            Ok((v, e)) => entries_at(bytes@, pos as int) == Ok::<_, Error>((entries(v@), e as int)),
            Err(e) => entries_at(bytes@, pos as int) == Err::<(Seq<CellEntry>, int), _>(e),
        },
{
    let mut out: Vec<CellRecord> = Vec::new();
    let mut p: usize = pos;
    proof {
        assert(entries(out@) =~= Seq::<CellEntry>::empty());
        match entries_at(bytes@, pos as int) {
            Ok((all, _)) => {
                assert(Seq::<CellEntry>::empty() + all =~= all);
            },
            Err(_) => {},
        }
    }
    loop
        invariant
            version == VERSION,
            p <= bytes@.len() || entries_at(bytes@, p as int) is Err,
            entries_at(bytes@, pos as int) == (match entries_at(bytes@, p as int) {
                Ok((rest, e)) => Ok((entries(out@) + rest, e)),
                Err(e) => Err(e),
            }),
        decreases bytes@.len() - p,
    {
        let (col, p1) = get_u64(bytes, p)?;
        let (row, p2) = get_u64(bytes, p1)?;
        if col == END_OF_CELLS && row == END_OF_CELLS {
            assert(entries(out@) + Seq::<CellEntry>::empty() =~= entries(out@));
            return Ok((out, p2));
        }
        if col >= MAX_COLS as u64 || row >= MAX_ROWS as u64 {
            return Err(Error::InvalidIndex);
        }
        let (cell, p3) = Cell::load(bytes, p2, version)?;
        let rec = CellRecord { col: col as usize, row: row as usize, cell };
        proof {
            lemma_cell_data_bounds(bytes@, p2 as int);
            assert(entries(out@.push(rec)) =~= entries(out@).push(rec@));
            match entries_at(bytes@, p3 as int) {
                Ok((rest, _)) => {
                    assert(entries(out@) + (seq![rec@] + rest) =~= entries(out@).push(rec@) + rest);
                },
                Err(_) => {},
            }
        }
        out.push(rec);
        p = p3;
    }
}

/// Reads a sheet.
pub fn read_sheet(bytes: &[u8], pos: usize) -> (r: Result<(SheetRecord, usize), Error>)
    ensures
        match r {
            Ok((rec, e)) => sheet_data_at(bytes@, pos as int) == Ok::<_, Error>((rec@, e as int)),
            Err(e) => sheet_data_at(bytes@, pos as int) == Err::<(SheetData, int), _>(e),
        },
{
    let (name, p1) = get_text(bytes, pos)?;
    let (first_col, p2) = read_field(bytes, p1)?;
    let (first_row, p3) = read_field(bytes, p2)?;
    let (cursor_col, p4) = read_field(bytes, p3)?;
    let (cursor_row, p5) = read_field(bytes, p4)?;
    let (fixed_cols, p6) = read_field(bytes, p5)?;
    let (fixed_rows, p7) = read_field(bytes, p6)?;
    if first_col >= MAX_COLS || first_row >= MAX_ROWS || cursor_col >= MAX_COLS || cursor_row
        >= MAX_ROWS {
        return Err(Error::InvalidIndex);
    }
    if fixed_cols > MAX_FIXED_COLS || fixed_rows > MAX_FIXED_ROWS {
        return Err(Error::InvalidCount);
    }
    let (count, p8) = read_field(bytes, p7)?;
    let (widths, p9) = read_widths(bytes, p8, count)?;
    let p10 = read_reserved(bytes, p9)?;
    let p11 = read_reserved(bytes, p10)?;
    let p12 = read_reserved(bytes, p11)?;
    let (cells, end) = read_cells(bytes, p12, VERSION)?;
    Ok(
        (
            SheetRecord {
                name,
                first_col,
                first_row,
                cursor_col,
                cursor_row,
                fixed_cols,
                fixed_rows,
                widths,
                cells,
            },
            end,
        ),
    )
}

/// A cell that holds nothing but words on how it is drawn.
pub open spec fn blank(attr: OptionAttr) -> CellView {
    CellView { val: Seq::empty(), calculated: Token::End, attr: attr, err: 0 }
}

/// The cells after one entry was put on the sheet: the cell is made with its
/// words on how it is drawn, then gets its text as if it had been typed.
pub open spec fn entry_applied(cells: Map<u64, CellView>, entry: CellEntry, t: Table) -> Result<
    Map<u64, CellView>,
    Halt,
> {
    let key = key_of(entry.col as int, entry.row as int) as u64;
    let made = cells.insert(key, blank(entry.data.attr));
    let text = trimmed(entry.data.text);
    if text.len() == 0 {
        Ok(made)
    } else {
        with_text(made, key, text, t)
    }
}

/// The cells after the entries from `i` on were put on the sheet, one after
/// the other.
pub open spec fn applied(cells: Map<u64, CellView>, list: Seq<CellEntry>, i: int, t: Table) -> Result<
    Map<u64, CellView>,
    Halt,
>
    decreases list.len() - i,
{
    if i < 0 || i >= list.len() {
        Ok(cells)
    } else {
        match entry_applied(cells, list[i], t) {
            Err(h) => Err(h),
            Ok(next) => applied(next, list, i + 1, t),
        }
    }
}

/// The widths of a list of columns and widths; of two for one column the
/// later one counts.
pub open spec fn widths_map(w: Seq<(u64, u16)>) -> Map<u64, u16>
    decreases w.len(),
{
    if w.len() == 0 {
        Map::empty()
    } else {
        widths_map(w.drop_last()).insert(w.last().0, w.last().1)
    }
}

/// The cells of a sheet that was read: its entries applied, then every
/// formula evaluated once more.
pub open spec fn built_cells(data: SheetData, t: Table) -> Result<Map<u64, CellView>, Halt> {
    match applied(Map::empty(), data.cells, 0, t) {
        Err(h) => Err(h),
        Ok(cells) => recalculated(cells, 0, key_end(), t),
    }
}

/// Every cell that was read is on the grid.
pub proof fn lemma_entries_on_grid(b: Seq<u8>, pos: int)
    requires
        0 <= pos,
    ensures
        entries_at(b, pos) matches Ok((list, _)) ==> forall|k: int|
            0 <= k < list.len() ==> (#[trigger] list[k]).col < MAX_COLS && list[k].row < MAX_ROWS,
    decreases b.len() - pos,
{
    match u64_at(b, pos) {
        Some((col, p1)) => match u64_at(b, p1) {
            Some((row, p2)) => {
                if !(col == END_OF_CELLS && row == END_OF_CELLS) && col < MAX_COLS && row
                    < MAX_ROWS {
                    match cell_data_at(b, p2) {
                        Ok((data, p3)) => {
                            lemma_cell_data_bounds(b, p2);
                            lemma_entries_on_grid(b, p3);
                        },
                        Err(_) => {},
                    }
                }
            },
            None => {},
        },
        None => {},
    }
}

/// Every cell of a sheet that was read is on the grid.
pub proof fn lemma_sheet_data_on_grid(b: Seq<u8>, pos: int)
    requires
        0 <= pos,
    ensures
        sheet_data_at(b, pos) matches Ok((data, _)) ==> forall|k: int|
            0 <= k < data.cells.len() ==> (#[trigger] data.cells[k]).col < MAX_COLS
                && data.cells[k].row < MAX_ROWS,
{
    match sheet_data_at(b, pos) {
        Ok((data, _)) => {
            let p12 = choose|p: int| 0 <= p && entries_at(b, p) is Ok && entries_at(b, p)->Ok_0.0
                == data.cells;
            lemma_entries_on_grid(b, p12);
        },
        Err(_) => {},
    }
}

/// Puts one cell that was read on the sheet.
fn put_entry(
    sheet: &mut Sheet,
    col: usize,
    row: usize,
    attr: OptionAttr,
    text: &str,
    numbers: &Numerics,
) -> (r: Result<(), Stop>)
    requires
        old(sheet).wf(),
        col < MAX_COLS,
        row < MAX_ROWS,
        raised_col(old(sheet).max_col, 0, old(sheet).cells@.dom()),
        raised_row(old(sheet).max_row, 0, old(sheet).cells@.dom()),
    ensures
        match entry_applied(
            grid(old(sheet).cells@),
            CellEntry { col: col, row: row, data: CellData { text: text@, attr: attr } },
            numbers@,
        ) {
            Err(h) => r matches Err(s) && s@ == h,
            Ok(next) => {
                &&& r is Ok
                &&& grid(final(sheet).cells@) == next
                &&& final(sheet).wf()
                &&& final(sheet).same_frame(old(sheet))
                &&& final(sheet).dirty
                &&& raised_col(final(sheet).max_col, 0, final(sheet).cells@.dom())
                &&& raised_row(final(sheet).max_row, 0, final(sheet).cells@.dom())
            },
        },
{
    let made = Cell { val: String::new(), calculated: Arg::End, attr: attr, err: 0 };
    let ghost key = key_of(col as int, row as int) as u64;
    let ghost before = sheet.cells@;
    proof {
        lemma_grid_insert(before, key, made);
        lemma_key_round_trip(col as int, row as int);
    }
    sheet.set_cell(col, row, made);
    proof {
        assert(sheet.cells@.dom().contains(key));
        let mc = sheet.max_col;
        let mr = sheet.max_row;
        assert(raised_col(mc, 0, sheet.cells@.dom())) by {
            if mc != 0 && mc == col {
                assert(sheet.cells@.dom().contains(key) && key % 100000 == mc);
            } else if mc != 0 {
                let k0 = choose|k: u64| before.dom().contains(k) && k % 100000 == mc;
                assert(sheet.cells@.dom().contains(k0));
            }
        }
        assert(raised_row(mr, 0, sheet.cells@.dom())) by {
            if mr != 0 && mr == row {
                assert(sheet.cells@.dom().contains(key) && key / 100000 == mr);
            } else if mr != 0 {
                let k0 = choose|k: u64| before.dom().contains(k) && k / 100000 == mr;
                assert(sheet.cells@.dom().contains(k0));
            }
        }
    }
    let ghost mid = sheet.cells@;
    proof {
        assert(grid(mid)[key] == made@);
        if trimmed(text@).len() == 0 {
            assert(trimmed(text@) =~= cell_at(grid(mid), key).val);
        }
    }
    match sheet.set_cell_text(col, row, text, numbers) {
        Err(e) => {
            return Err(e);
        },
        Ok(_) => {},
    }
    proof {
        let t = trimmed(text@);
        if t.len() == 0 {
            assert(t =~= cell_at(grid(mid), key).val);
        } else {
            crate::sheet::lemma_with_text_dom(grid(mid), key, t, numbers@);
            lemma_grid_finite(sheet.cells);
            assert(sheet.cells@.dom() =~= mid.dom());
        }
    }
    Ok(())
}

impl Sheet {
    /// Reads a sheet from `bytes` at `pos` for a screen area of `width` by
    /// `height`, and tells where the bytes go on. The text of every cell is
    /// applied as if it had been typed, so that every value is found anew
    /// and no text has whitespace at its ends. Where the table lacks a
    /// number, the question is returned.
    pub fn load(
        bytes: &[u8],
        pos: usize,
        width: u16,
        height: u16,
        version: u16,
        numbers: &Numerics,
    ) -> (r: Result<(Sheet, usize), Stop>)
        ensures
            version != VERSION ==> (r matches Err(s) && s@ == Halt::Failed(
                Error::UnsupportedVersion,
            )),
            version == VERSION ==> match sheet_data_at(bytes@, pos as int) {
                Err(e) => r matches Err(s) && s@ == Halt::Failed(e),
                Ok((data, end)) => match built_cells(data, numbers@) {
                    Err(h) => r matches Err(s) && s@ == h,
                    Ok(cells) => {
                        &&& r matches Ok((sheet, e))
                        &&& e == end
                        &&& sheet.wf()
                        &&& grid(sheet.cells@) == cells
                        &&& sheet.name@ == data.name
                        &&& sheet.first_col == data.first_col
                        &&& sheet.first_row == data.first_row
                        &&& sheet.cursor == Pos::spec_new(data.cursor_col, data.cursor_row)
                        &&& sheet.fixed_cols == data.fixed_cols
                        &&& sheet.fixed_rows == data.fixed_rows
                        &&& sheet.widths@ == widths_map(data.widths)
                        &&& sheet.w == width
                        &&& sheet.h == height
                        &&& sheet.select_start is None
                        &&& sheet.select_end is None
                        &&& sheet.select_type == SelectType::V
                        &&& sheet.mode == CalcMode::Move
                        &&& sheet.yanked is None
                        &&& sheet.dirty == (data.cells.len() > 0)
                        &&& raised_col(sheet.max_col, 0, sheet.cells@.dom())
                        &&& raised_row(sheet.max_row, 0, sheet.cells@.dom())
                    },
                },
            },
            r matches Ok((sheet, _)) ==> texts_trimmed(grid(sheet.cells@)),
    {
        if version != VERSION {
            return Err(Stop::Failed(Error::UnsupportedVersion));
        }
        let (rec, end) = match read_sheet(bytes, pos) {
            Err(e) => {
                return Err(Stop::Failed(e));
            },
            Ok(x) => x,
        };
        let ghost data = rec@;
        proof {
            lemma_sheet_data_on_grid(bytes@, pos as int);
            lemma_built_trimmed(data, numbers@);
        }
        let mut sheet = Sheet::new(0, width, height);
        sheet.name = rec.name.clone();
        sheet.first_col = rec.first_col;
        sheet.first_row = rec.first_row;
        sheet.cursor.col = rec.cursor_col;
        sheet.cursor.row = rec.cursor_row;
        sheet.fixed_cols = rec.fixed_cols;
        sheet.fixed_rows = rec.fixed_rows;
        let mut i: usize = 0;
        assert(rec.widths@.take(0) =~= Seq::<(u64, u16)>::empty());
        while i < rec.widths.len()
            invariant
                i <= rec.widths@.len(),
                sheet.widths@ == widths_map(rec.widths@.take(i as int)),
                sheet.wf(),
                sheet.cells@ == Map::<u64, Cell>::empty(),
                sheet.name@ == data.name,
                sheet.first_col == data.first_col,
                sheet.first_row == data.first_row,
                sheet.cursor == Pos::spec_new(data.cursor_col, data.cursor_row),
                sheet.fixed_cols == data.fixed_cols,
                sheet.fixed_rows == data.fixed_rows,
                sheet.w == width,
                sheet.h == height,
                sheet.select_start is None,
                sheet.select_end is None,
                sheet.select_type == SelectType::V,
                sheet.mode == CalcMode::Move,
                sheet.yanked is None,
                !sheet.dirty,
                sheet.max_col == 0,
                sheet.max_row == 0,
            decreases rec.widths@.len() - i,
        {
            let (col, w) = rec.widths[i];
            proof {
                assert(rec.widths@.take(i + 1).drop_last() =~= rec.widths@.take(i as int));
            }
            sheet.widths.insert(col, w);
            i += 1;
        }
        assert(rec.widths@.take(rec.widths@.len() as int) =~= rec.widths@);
        let mut j: usize = 0;
        let ghost list = data.cells;
        proof {
            assert(grid(sheet.cells@) =~= Map::<u64, CellView>::empty());
        }
        while j < rec.cells.len()
            invariant
                j <= rec.cells@.len(),
                version == VERSION,
                data == rec@,
                list == data.cells,
                list.len() == rec.cells@.len(),
                sheet_data_at(bytes@, pos as int) == Ok::<_, Error>((data, end as int)),
                applied(Map::empty(), list, 0, numbers@) == applied(
                    grid(sheet.cells@),
                    list,
                    j as int,
                    numbers@,
                ),
                sheet.wf(),
                sheet.name@ == data.name,
                sheet.first_col == data.first_col,
                sheet.first_row == data.first_row,
                sheet.cursor == Pos::spec_new(data.cursor_col, data.cursor_row),
                sheet.fixed_cols == data.fixed_cols,
                sheet.fixed_rows == data.fixed_rows,
                sheet.widths@ == widths_map(data.widths),
                sheet.w == width,
                sheet.h == height,
                sheet.select_start is None,
                sheet.select_end is None,
                sheet.select_type == SelectType::V,
                sheet.mode == CalcMode::Move,
                sheet.yanked is None,
                sheet.dirty == (j > 0),
                raised_col(sheet.max_col, 0, sheet.cells@.dom()),
                raised_row(sheet.max_row, 0, sheet.cells@.dom()),
                forall|k: int|
                    0 <= k < list.len() ==> (#[trigger] list[k]).col < MAX_COLS && list[k].row
                        < MAX_ROWS,
            decreases rec.cells@.len() - j,
        {
            let item = &rec.cells[j];
            assert(list[j as int] == item@);
            match put_entry(
                &mut sheet,
                item.col,
                item.row,
                item.cell.attr,
                item.cell.val.as_str(),
                numbers,
            ) {
                Err(e) => {
                    return Err(e);
                },
                Ok(_) => {},
            }
            j += 1;
        }
        proof {
            lemma_recalc_stops(grid(sheet.cells@), 0, key_end(), numbers@);
        }
        match recalc_cells(&mut sheet.cells, numbers) {
            Err(e) => {
                return Err(e);
            },
            Ok(_) => {},
        }
        Ok((sheet, end))
    }
}

/// The greatest number of sheets in a file.
pub const MAX_SHEETS: usize = 100;

/// Whether `sheet` is what reading `data` for a screen area of `width` by
/// `height` gives.
pub open spec fn is_loaded(sheet: Sheet, data: SheetData, width: u16, height: u16, t: Table) -> bool {
    &&& sheet.wf()
    &&& Ok::<_, Halt>(grid(sheet.cells@)) == built_cells(data, t)
    &&& sheet.name@ == data.name
    &&& sheet.first_col == data.first_col
    &&& sheet.first_row == data.first_row
    &&& sheet.cursor == Pos::spec_new(data.cursor_col, data.cursor_row)
    &&& sheet.fixed_cols == data.fixed_cols
    &&& sheet.fixed_rows == data.fixed_rows
    &&& sheet.widths@ == widths_map(data.widths)
    &&& sheet.w == width
    &&& sheet.h == height
    &&& sheet.select_start is None
    &&& sheet.select_end is None
    &&& sheet.select_type == SelectType::V
    &&& sheet.mode == CalcMode::Move
    &&& sheet.yanked is None
    &&& sheet.dirty == (data.cells.len() > 0)
    &&& raised_col(sheet.max_col, 0, sheet.cells@.dom())
    &&& raised_row(sheet.max_row, 0, sheet.cells@.dom())
}

/// The head of a file: the version, the number of sheets, the index of the
/// current sheet, and a reserved zero.
pub open spec fn header_bytes(count: usize, current: usize) -> Seq<u8> {
    spec_u16_to_le_bytes(VERSION) + spec_u64_to_le_bytes(count as u64) + spec_u64_to_le_bytes(
        current as u64,
    ) + spec_u64_to_le_bytes(0)
}

/// The head of a file: the number of sheets, the index of the current one,
/// and where the sheets begin.
pub open spec fn header_at(b: Seq<u8>) -> Result<(usize, usize, int), Error> {
    match u16_at(b, 0) {
        None => Err(Error::Truncated),
        Some((v, p1)) => if v != VERSION {
            Err(Error::UnsupportedVersion)
        } else {
            match field(b, p1) {
                Err(e) => Err(e),
                Ok((count, p2)) => if count == 0 || count > MAX_SHEETS {
                    Err(Error::InvalidCount)
                } else {
                    match field(b, p2) {
                        Err(e) => Err(e),
                        Ok((current, p3)) => if current >= count {
                            Err(Error::InvalidIndex)
                        } else {
                            match reserved_at(b, p3) {
                                Err(e) => Err(e),
                                Ok(p4) => Ok((count, current, p4)),
                            }
                        },
                    }
                },
            }
        },
    }
}

/// The sheets of a file in the format, the first `n` of them.
pub open spec fn sheets_bytes(sheets: Seq<Sheet>, n: int) -> Result<Seq<u8>, Error>
    decreases n,
{
    if n <= 0 || n > sheets.len() {
        Ok(Seq::empty())
    } else {
        match sheets_bytes(sheets, n - 1) {
            Err(e) => Err(e),
            Ok(before) => match sheet_bytes(sheets[n - 1]) {
                Err(e) => Err(e),
                Ok(b) => Ok(before + b),
            },
        }
    }
}

/// `n` sheets from `pos` on, as the format holds them. Each sheet is read
/// and built before the next one is looked at.
pub open spec fn sheets_at(b: Seq<u8>, pos: int, n: nat, t: Table) -> Result<Seq<SheetData>, Halt>
    decreases n,
{
    if n == 0 {
        Ok(Seq::empty())
    } else {
        match sheet_data_at(b, pos) {
            Err(e) => Err(Halt::Failed(e)),
            Ok((data, end)) => match built_cells(data, t) {
                Err(h) => Err(h),
                Ok(_) => match sheets_at(b, end, (n - 1) as nat, t) {
                    Err(h) => Err(h),
                    Ok(rest) => Ok(seq![data] + rest),
                },
            },
        }
    }
}

/// Reads the head of a file.
pub fn read_header(bytes: &[u8]) -> (r: Result<(usize, usize, usize), Error>)
    ensures
        match r {
            Ok((count, current, pos)) => header_at(bytes@) == Ok::<_, Error>(
                (count, current, pos as int),
            ),
            Err(e) => header_at(bytes@) == Err::<(usize, usize, int), _>(e),
        },
{
    let (v, p1) = get_u16(bytes, 0)?;
    if v != VERSION {
        return Err(Error::UnsupportedVersion);
    }
    let (count, p2) = read_field(bytes, p1)?;
    if count == 0 || count > MAX_SHEETS {
        return Err(Error::InvalidCount);
    }
    let (current, p3) = read_field(bytes, p2)?;
    if current >= count {
        return Err(Error::InvalidIndex);
    }
    let p4 = read_reserved(bytes, p3)?;
    Ok((count, current, p4))
}

/// A file of sheets in the binary format; `current` is the index of the
/// sheet that is shown. There must be one sheet at least and a hundred at
/// most.
pub fn save_file(sheets: &Vec<Sheet>, current: usize) -> (r: Result<Vec<u8>, Error>)
    ensures
        match r {
            Ok(b) => 0 < sheets@.len() <= MAX_SHEETS && current < sheets@.len() && sheets_bytes(
                sheets@,
                sheets@.len() as int,
            ) is Ok && b@ == header_bytes(sheets@.len() as usize, current) + sheets_bytes(
                sheets@,
                sheets@.len() as int,
            )->Ok_0,
            Err(e) => if sheets@.len() == 0 || sheets@.len() > MAX_SHEETS {
                e == Error::InvalidCount
            } else if current >= sheets@.len() {
                e == Error::InvalidIndex
            } else {
                sheets_bytes(sheets@, sheets@.len() as int) == Err::<Seq<u8>, _>(e)
            },
        },
{
    if sheets.len() == 0 || sheets.len() > MAX_SHEETS {
        return Err(Error::InvalidCount);
    }
    if current >= sheets.len() {
        return Err(Error::InvalidIndex);
    }
    let mut out: Vec<u8> = Vec::new();
    put_u16(&mut out, VERSION);
    put_usize(&mut out, sheets.len());
    put_usize(&mut out, current);
    put_u64(&mut out, 0);
    assert(out@ =~= header_bytes(sheets@.len() as usize, current));
    let mut i: usize = 0;
    let ghost head = out@;
    assert(out@ =~= head + Seq::<u8>::empty());
    while i < sheets.len()
        invariant
            i <= sheets@.len(),
            sheets_bytes(sheets@, i as int) is Ok,
            out@ == head + sheets_bytes(sheets@, i as int)->Ok_0,
            head == header_bytes(sheets@.len() as usize, current),
            0 < sheets@.len() <= MAX_SHEETS,
            current < sheets@.len(),
        decreases sheets@.len() - i,
    {
        let part = match sheets[i].save() {
            Err(e) => {
                proof {
                    lemma_sheets_bytes_fail(sheets@, i + 1, sheets@.len() as int);
                }
                return Err(e);
            },
            Ok(b) => b,
        };
        let ghost before = sheets_bytes(sheets@, i as int)->Ok_0;
        assert(head + (before + part@) =~= (head + before) + part@);
        let mut part = part;
        out.append(&mut part);
        i += 1;
    }
    Ok(out)
}

/// Where one sheet cannot be written, the sheets cannot.
pub proof fn lemma_sheets_bytes_fail(sheets: Seq<Sheet>, n: int, m: int)
    requires
        0 < n <= m <= sheets.len(),
        sheets_bytes(sheets, n - 1) is Ok,
        sheet_bytes(sheets[n - 1]) is Err,
    ensures
        sheets_bytes(sheets, m) == Err::<Seq<u8>, _>(sheet_bytes(sheets[n - 1])->Err_0),
    decreases m - n,
{
    if n < m {
        lemma_sheets_bytes_fail(sheets, n, m - 1);
    }
}

/// Reads a file of sheets for a screen area of `width` by `height`: the
/// sheets and the index of the one that is shown. Where the table lacks a
/// number, the question is returned.
pub fn load_file(bytes: &[u8], width: u16, height: u16, numbers: &Numerics) -> (r: Result<
    (Vec<Sheet>, usize),
    Stop,
>)
    ensures
        match header_at(bytes@) {
            Err(e) => r matches Err(s) && s@ == Halt::Failed(e),
            Ok((count, current, pos)) => match sheets_at(bytes@, pos, count as nat, numbers@) {
                Err(h) => r matches Err(s) && s@ == h,
                Ok(datas) => {
                    &&& r matches Ok((sheets, cur))
                    &&& cur == current
                    &&& sheets@.len() == count
                    &&& forall|i: int|
                        0 <= i < count ==> is_loaded(
                            #[trigger] sheets@[i],
                            datas[i],
                            width,
                            height,
                            numbers@,
                        )
                },
            },
        },
{
    let (count, current, start) = match read_header(bytes) {
        Err(e) => {
            return Err(Stop::Failed(e));
        },
        Ok(x) => x,
    };
    let mut sheets: Vec<Sheet> = Vec::new();
    let mut pos: usize = start;
    let mut i: usize = 0;
    let ghost mut datas: Seq<SheetData> = Seq::empty();
    proof {
        match sheets_at(bytes@, start as int, count as nat, numbers@) {
            Ok(all) => {
                assert(Seq::<SheetData>::empty() + all =~= all);
            },
            Err(_) => {},
        }
    }
    while i < count
        invariant
            i <= count,
            header_at(bytes@) == Ok::<_, Error>((count, current, start as int)),
            sheets@.len() == i,
            datas.len() == i,
            forall|k: int|
                0 <= k < i ==> is_loaded(#[trigger] sheets@[k], datas[k], width, height, numbers@),
            sheets_at(bytes@, start as int, count as nat, numbers@) == (match sheets_at(
                bytes@,
                pos as int,
                (count - i) as nat,
                numbers@,
            ) {
                Ok(rest) => Ok(datas + rest),
                Err(h) => Err(h),
            }),
        decreases count - i,
    {
        let (sheet, end) = match Sheet::load(bytes, pos, width, height, VERSION, numbers) {
            Err(e) => {
                return Err(e);
            },
            Ok(x) => x,
        };
        proof {
            let data = sheet_data_at(bytes@, pos as int)->Ok_0.0;
            match sheets_at(bytes@, end as int, (count - i - 1) as nat, numbers@) {
                Ok(rest) => {
                    assert(datas + (seq![data] + rest) =~= datas.push(data) + rest);
                },
                Err(_) => {},
            }
            datas = datas.push(data);
        }
        sheets.push(sheet);
        pos = end;
        i += 1;
    }
    proof {
        assert(datas + Seq::<SheetData>::empty() =~= datas);
    }
    Ok((sheets, current))
}

} // verus!
