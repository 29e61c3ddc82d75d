//! The sheet: a sparse grid of cells with a cursor, a selection, column
//! widths and bands of fixed rows and columns.
use vstd::prelude::*;
use vstd::string::StringExecFns;
use std::collections::BTreeMap;
use crate::error::{Error, Halt, Stop};
use crate::expr::{
    lemma_grid_insert, lemma_stored_same_texts, same_texts, store_result, stored,
};
use crate::number::{Numerics, Table};
use crate::ops::{
    err_msg, key_of, lemma_key_round_trip, message, pos_to_id, title_of, Arg, Pos, Token,
};
use crate::parse::{Range, MAX_COLS, MAX_ROWS};
use crate::paste::{copied, copy_rect, paste_rect, pasted, Pasting};
use crate::recalc::{
    key_end, lemma_recalc_keeps, lemma_recalc_stops, lemma_refreshed_keeps, literal_value,
    parse_value, recalc_cells, recalculated, refresh, refreshed,
};
use crate::text::{decimal, lemma_trimmed_twice, starts_with, str_eq, to_decimal, trim, trimmed};

verus! {

/// The least width of a column.
pub const MIN_COL_WIDTH: u16 = 5;

/// The greatest width of a column.
pub const MAX_COL_WIDTH: u16 = 100;

/// The width of a column that has none of its own.
pub const DEF_COL_WIDTH: u16 = 10;

/// The version of the binary format.
pub const VERSION: u16 = 1;

/// What the keys do on a sheet at the moment.
#[derive(Debug, Copy, Clone, PartialEq, Eq, Structural)]
pub enum CalcMode {
    Move,
    Edit,
    Select,
    Command,
    TempSelect,
    TempSelectStart,
}

/// Where a text stands in its cell.
#[derive(Debug, Copy, Clone, PartialEq, Eq, Structural)]
pub enum Align {
    Left,
    Right,
    Center,
}

/// A colour of a terminal: one of sixteen named ones, one of the 256 of the
/// ANSI palette, or red, green and blue.
#[derive(Debug, Copy, Clone, PartialEq, Eq, Structural)]
pub enum Color {
    Reset,
    Black,
    DarkGrey,
    Red,
    DarkRed,
    Green,
    DarkGreen,
    Yellow,
    DarkYellow,
    Blue,
    DarkBlue,
    Magenta,
    DarkMagenta,
    Cyan,
    DarkCyan,
    White,
    Grey,
    Rgb { r: u8, g: u8, b: u8 },
    AnsiValue(u8),
}

/// How a cell is drawn.
#[derive(Debug, Copy, Clone, PartialEq, Eq, Structural)]
pub struct Attr {
    pub fg: Color,
    pub bg: Color,
    pub align: Align,
}

/// What a cell says of how it is drawn; what it leaves out comes from
/// elsewhere.
#[derive(Debug, Copy, Clone, PartialEq, Eq, Structural)]
pub struct OptionAttr {
    pub fg: Option<Color>,
    pub bg: Option<Color>,
    pub align: Option<Align>,
}

impl OptionAttr {
    /// Nothing is said.
    pub open spec fn spec_default() -> OptionAttr {
        OptionAttr { fg: None, bg: None, align: None }
    }

    /// Whether nothing is said.
    pub fn is_default(&self) -> (r: bool)
        ensures
            r == (*self == OptionAttr::spec_default()),
    {
        self.fg.is_none() && self.bg.is_none() && self.align.is_none()
    }
}

impl Default for OptionAttr {
    fn default() -> (r: OptionAttr)
        ensures
            r == OptionAttr::spec_default(),
    {
        OptionAttr { fg: None, bg: None, align: None }
    }
}

/// How a selection was begun: with a key of its own, or with the shift key.
#[derive(Debug, Copy, Clone, PartialEq, Eq, Structural)]
pub enum SelectType {
    V,
    Shift,
}

/// A cell: the text as it was typed, the value it stands for, how it is
/// drawn, and the code of the error that its formula ended with, or zero.
#[derive(Debug, PartialEq, Eq)]
pub struct Cell {
    pub val: String,
    pub calculated: Arg,
    pub attr: OptionAttr,
    pub err: u16,
}

/// A [`Cell`] as a plain value.
pub struct CellView {
    pub val: Seq<char>,
    pub calculated: Token,
    pub attr: OptionAttr,
    pub err: u16,
}

impl CellView {
    /// The cell that stands for every place that holds none.
    pub open spec fn empty() -> CellView {
        CellView {
            val: Seq::empty(),
            calculated: Token::End,
            attr: OptionAttr::spec_default(),
            err: 0,
        }
    }

    /// Whether the text is a formula: it begins with `=`.
    pub open spec fn is_expr(self) -> bool {
        self.val.len() > 0 && self.val[0] == '='
    }

    /// What the cell shows: the text of its error, or its value.
    pub open spec fn title(self, t: Table) -> Result<Seq<char>, Halt> {
        if self.err != 0 {
            Ok(message(self.err))
        } else {
            title_of(self.calculated, t)
        }
    }
}

impl View for Cell {
    type V = CellView;

    open spec fn view(&self) -> CellView {
        CellView { val: self.val@, calculated: self.calculated@, attr: self.attr, err: self.err }
    }
}

impl Clone for Cell {
    fn clone(&self) -> (r: Cell)
        ensures
            r@ == self@,
    {
        Cell {
            val: self.val.clone(),
            calculated: self.calculated.clone(),
            attr: self.attr,
            err: self.err,
        }
    }
}

impl Default for Cell {
    fn default() -> (r: Cell)
        ensures
            r@ == CellView::empty(),
    {
        Cell {
            val: String::new(),
            calculated: Arg::End,
            attr: OptionAttr { fg: None, bg: None, align: None },
            err: 0,
        }
    }
}

impl Cell {
    /// Whether the text is a formula: it begins with `=`.
    pub fn is_expr(&self) -> (r: bool)
        ensures
            r == self@.is_expr(),
    {
        let s = self.val.as_str();
        s.unicode_len() > 0 && s.get_char(0) == '='
    }

    /// Whether the value is a number.
    pub fn is_number(&self) -> (r: bool)
        ensures
            r == (self@.calculated is Number),
    {
        match self.calculated {
            Arg::Number(_) => true,
            _ => false,
        }
    }

    /// The alignment that the cell asks for; without one, numbers stand on
    /// the right and everything else on the left.
    pub fn align(&self) -> (r: Align)
        ensures
            r == match self.attr.align {
                Some(a) => a,
                None => if self@.calculated is Number {
                    Align::Right
                } else {
                    Align::Left
                },
            },
    {
        match self.attr.align {
            Some(a) => a,
            None => if self.is_number() {
                Align::Right
            } else {
                Align::Left
            },
        }
    }

    /// What the cell shows.
    pub fn title(&self, numbers: &Numerics) -> (r: Result<String, Stop>)
        ensures
            match r {
                Ok(s) => self@.title(numbers@) == Ok::<_, Halt>(s@),
                Err(e) => self@.title(numbers@) == Err::<Seq<char>, _>(e@),
            },
    {
        if self.err != 0 {
            return Ok(err_msg(self.err).to_owned());
        }
        self.calculated.title(numbers)
    }

    /// Whether the cell holds nothing: no text and nothing on how it is
    /// drawn.
    pub fn is_default(&self) -> (r: bool)
        ensures
            r == (self@.val.len() == 0 && self@.attr == OptionAttr::spec_default()),
    {
        self.val.as_str().unicode_len() == 0 && self.attr.is_default()
    }
}

/// The cells of a sheet by their keys, as plain values.
pub open spec fn grid(m: Map<u64, Cell>) -> Map<u64, CellView> {
    m.map_values(|c: Cell| c@)
}

/// The cell at `key`; the empty cell where the grid holds none.
pub open spec fn cell_at(cells: Map<u64, CellView>, key: u64) -> CellView {
    if cells.contains_key(key) {
        cells[key]
    } else {
        CellView::empty()
    }
}

/// A copy of the cell at `key`.
pub fn cell_of(cells: &BTreeMap<u64, Cell>, key: u64) -> (r: Cell)
    ensures
        r@ == cell_at(grid(cells@), key),
{
    match cells.get(&key) {
        None => Cell::default(),
        Some(v) => v.clone(),
    }
}

/// The cells that were copied, and the range that they were copied from.
pub struct SubRange {
    pub rng: Range,
    pub values: BTreeMap<u64, Cell>,
}

/// The greatest number of fixed rows.
pub const MAX_FIXED_ROWS: usize = 1000;

/// The greatest number of fixed columns.
pub const MAX_FIXED_COLS: usize = 200;

/// A sheet. The cells are kept by their keys, `row * COL_SHIFT + col`, so
/// that they are ordered by row and then by column. Only cells that hold a
/// text or say how they are drawn are kept.
pub struct Sheet {
    pub name: String,
    /// The topmost row on the screen.
    pub first_row: usize,
    /// The leftmost column on the screen.
    pub first_col: usize,
    pub cursor: Pos,
    pub fixed_rows: usize,
    pub fixed_cols: usize,
    pub select_start: Option<Pos>,
    pub select_end: Option<Pos>,
    pub select_type: SelectType,
    /// The widths of the columns that do not have the default width.
    pub widths: BTreeMap<u64, u16>,
    pub mode: CalcMode,
    pub dirty: bool,
    /// The height of the area of the cells on the screen.
    pub h: u16,
    /// The width of the area of the cells on the screen.
    pub w: u16,
    pub cells: BTreeMap<u64, Cell>,
    /// The greatest row that a cell was put in.
    pub max_row: usize,
    /// The greatest column that a cell was put in.
    pub max_col: usize,
    pub yanked: Option<SubRange>,
}

/// Whether the key is that of a place on the grid.
pub open spec fn key_on_grid(key: u64) -> bool {
    key % 100000 < MAX_COLS && key / 100000 < MAX_ROWS
}

/// Whether the address is that of a place on the grid.
pub open spec fn pos_on_grid(p: Pos) -> bool {
    p.col < MAX_COLS && p.row < MAX_ROWS
}

/// Whether the address, if there is one, is that of a place on the grid.
pub open spec fn option_on_grid(p: Option<Pos>) -> bool {
    match p {
        Some(p) => pos_on_grid(p),
        None => true,
    }
}

/// Whether no cell lies beyond the greatest column and row.
pub open spec fn marks_cover(keys: Set<u64>, max_col: usize, max_row: usize) -> bool {
    forall|k: u64| keys.contains(k) ==> k % 100000 <= max_col && k / 100000 <= max_row
}

/// Whether the range is a cell or a rectangle on the grid, the smaller
/// column and row first.
pub open spec fn range_on_grid(r: Range) -> bool {
    match r {
        Range::Single(p) => pos_on_grid(p),
        Range::Multi(a, b) => pos_on_grid(a) && pos_on_grid(b) && a.col <= b.col && a.row <= b.row,
        _ => false,
    }
}

/// The cells with the text of one of them replaced and its error cleared.
pub open spec fn edited(cells: Map<u64, CellView>, key: u64, text: Seq<char>) -> Map<u64, CellView> {
    cells.insert(key, CellView { val: text, err: 0, ..cell_at(cells, key) })
}

/// The cells after the cell at `key` got a new text: the text is stored, its
/// value found (by evaluation, where it is a formula), and then every
/// formula of the sheet evaluated again.
pub open spec fn with_text(cells: Map<u64, CellView>, key: u64, text: Seq<char>, t: Table) -> Result<
    Map<u64, CellView>,
    Halt,
> {
    let c1 = edited(cells, key, text);
    let c2 = if text.len() > 0 && text[0] == '=' {
        refreshed(c1, key, t)
    } else {
        match literal_value(text, t) {
            Err(h) => Err(h),
            Ok(v) => Ok(stored(c1, key, Ok(v))),
        }
    };
    match c2 {
        Err(h) => Err(h),
        Ok(c) => recalculated(c, 0, key_end(), t),
    }
}

/// Whether the key is that of a place on the grid that lies within the
/// marks of the greatest column and row.
pub open spec fn key_within(k: u64, max_col: usize, max_row: usize) -> bool {
    key_on_grid(k) && k % 100000 <= max_col && k / 100000 <= max_row
}

fn keys_within(keys: &Vec<u64>, max_col: usize, max_row: usize) -> (r: bool)
    ensures
        r == forall|j: int| 0 <= j < keys@.len() ==> key_within(#[trigger] keys@[j], max_col, max_row),
{
    let mut i: usize = 0;
    let mut all = true;
    while i < keys.len()
        invariant
            i <= keys@.len(),
            all == forall|j: int| 0 <= j < i ==> key_within(#[trigger] keys@[j], max_col, max_row),
        decreases keys@.len() - i,
    {
        let k: u64 = keys[i];
        let col: u64 = k % 100000;
        let row: u64 = k / 100000;
        if !(col < MAX_COLS as u64 && row < MAX_ROWS as u64 && col <= max_col as u64 && row
            <= max_row as u64) {
            all = false;
        }
        i += 1;
    }
    all
}

fn on_grid(p: &Pos) -> (r: bool)
    ensures
        r == pos_on_grid(*p),
{
    p.col < MAX_COLS && p.row < MAX_ROWS
}

fn option_is_on_grid(p: &Option<Pos>) -> (r: bool)
    ensures
        r == option_on_grid(*p),
{
    match p {
        Some(q) => on_grid(q),
        None => true,
    }
}

fn range_is_on_grid(r: &Range) -> (ok: bool)
    ensures
        ok == range_on_grid(*r),
{
    match r {
        Range::Single(p) => on_grid(p),
        Range::Multi(a, b) => on_grid(a) && on_grid(b) && a.col <= b.col && a.row <= b.row,
        _ => false,
    }
}

impl Sheet {
    /// What a sheet must meet: every cell, the cursor and the selection are
    /// on the grid, and the fixed bands are within their limits.
    pub open spec fn wf(&self) -> bool {
        &&& forall|k: u64| self.cells@.contains_key(k) ==> key_on_grid(k)
        &&& marks_cover(self.cells@.dom(), self.max_col, self.max_row)
        &&& match self.yanked {
            Some(sub) => range_on_grid(sub.rng),
            None => true,
        }
        &&& pos_on_grid(self.cursor)
        &&& self.first_col < MAX_COLS
        &&& self.first_row < MAX_ROWS
        &&& self.max_col < MAX_COLS
        &&& self.max_row < MAX_ROWS
        &&& option_on_grid(self.select_start)
        &&& option_on_grid(self.select_end)
        &&& self.fixed_rows <= MAX_FIXED_ROWS
        &&& self.fixed_cols <= MAX_FIXED_COLS
    }

    /// Tests what a sheet must meet.
    pub fn is_wf(&self) -> (r: bool)
        ensures
            r == self.wf(),
    {
        let keys = crate::keys::sorted_keys(&self.cells);
        let cells_ok = keys_within(&keys, self.max_col, self.max_row);
        proof {
            let dom = self.cells@.dom();
            assert forall|k: u64| dom.contains(k) implies exists|j: int|
                0 <= j < keys@.len() && keys@[j] == k by {
                assert(keys@.to_set().contains(k));
            }
            assert forall|j: int| 0 <= j < keys@.len() implies dom.contains(#[trigger] keys@[j]) by {
                assert(keys@.to_set().contains(keys@[j]));
            }
            if cells_ok {
                assert forall|k: u64| dom.contains(k) implies key_within(
                    k,
                    self.max_col,
                    self.max_row,
                ) by {
                    let j = choose|j: int| 0 <= j < keys@.len() && keys@[j] == k;
                    assert(key_within(keys@[j], self.max_col, self.max_row));
                }
            } else {
                let j = choose|j: int|
                    0 <= j < keys@.len() && !key_within(
                        #[trigger] keys@[j],
                        self.max_col,
                        self.max_row,
                    );
                assert(dom.contains(keys@[j]));
            }
        }
        let yanked_ok = match &self.yanked {
            Some(sub) => range_is_on_grid(&sub.rng),
            None => true,
        };
        cells_ok && yanked_ok && on_grid(&self.cursor) && self.first_col < MAX_COLS
            && self.first_row < MAX_ROWS && self.max_col < MAX_COLS && self.max_row < MAX_ROWS
            && option_is_on_grid(&self.select_start) && option_is_on_grid(&self.select_end)
            && self.fixed_rows <= MAX_FIXED_ROWS && self.fixed_cols <= MAX_FIXED_COLS
    }

    /// Whether two sheets differ in nothing but their cells, the marks of
    /// the greatest row and column, and the flag that tells a change.
    pub open spec fn same_frame(&self, other: &Sheet) -> bool {
        &&& self.name == other.name
        &&& self.first_row == other.first_row
        &&& self.first_col == other.first_col
        &&& self.cursor == other.cursor
        &&& self.fixed_rows == other.fixed_rows
        &&& self.fixed_cols == other.fixed_cols
        &&& self.select_start == other.select_start
        &&& self.select_end == other.select_end
        &&& self.select_type == other.select_type
        &&& self.widths == other.widths
        &&& self.mode == other.mode
        &&& self.h == other.h
        &&& self.w == other.w
        &&& self.yanked == other.yanked
    }

    /// An empty sheet with the name `page` and the number `idx + 1`.
    pub fn new(idx: usize, w: u16, h: u16) -> (r: Sheet)
        requires
            idx < usize::MAX,
        ensures
            r.wf(),
            r.name@ == "page"@ + decimal((idx + 1) as nat),
            r.cells@ == Map::<u64, Cell>::empty(),
            r.widths@ == Map::<u64, u16>::empty(),
            r.cursor == Pos::spec_new(0, 0),
            r.first_col == 0 && r.first_row == 0,
            r.fixed_cols == 0 && r.fixed_rows == 0,
            r.select_start is None && r.select_end is None,
            r.select_type == SelectType::V,
            r.mode == CalcMode::Move,
            !r.dirty,
            r.w == w && r.h == h,
            r.max_row == 0 && r.max_col == 0,
            r.yanked is None,
    {
        let mut name = "page".to_owned();
        name.append(to_decimal(idx + 1).as_str());
        Sheet {
            name,
            first_col: 0,
            first_row: 0,
            cursor: Pos::new(0, 0),
            select_start: None,
            select_end: None,
            select_type: SelectType::V,
            mode: CalcMode::Move,
            widths: BTreeMap::new(),
            fixed_cols: 0,
            fixed_rows: 0,
            dirty: false,
            w,
            h,
            cells: BTreeMap::new(),
            max_row: 0,
            max_col: 0,
            yanked: None,
        }
    }

    /// The width of a column.
    pub fn col_width(&self, col: usize) -> (r: u16)
        ensures
            r == width_of(self.widths@, col as u64),
    {
        let key = col as u64;
        match self.widths.get(&key) {
            None => DEF_COL_WIDTH,
            Some(w) => *w,
        }
    }

    /// A copy of the cell at `col`, `row`; the empty cell where there is none.
    pub fn cell(&self, col: usize, row: usize) -> (r: Cell)
        requires
            key_of(col as int, row as int) <= u64::MAX,
        ensures
            r@ == cell_at(grid(self.cells@), key_of(col as int, row as int) as u64),
    {
        let id = pos_to_id(col, row);
        cell_of(&self.cells, id)
    }

    /// Stores the outcome of the formula of the cell at `col`, `row`.
    pub fn set_cell_calc_value(&mut self, col: usize, row: usize, val: Result<Arg, Error>)
        requires
            key_of(col as int, row as int) <= u64::MAX,
        ensures
            grid(final(self).cells@) == stored(
                grid(old(self).cells@),
                key_of(col as int, row as int) as u64,
                match val {
                    Ok(a) => Ok(a@),
                    Err(e) => Err(Halt::Failed(e)),
                },
            ),
            final(self).cells@.dom() == old(self).cells@.dom(),
            final(self).same_frame(old(self)),
            final(self).dirty == old(self).dirty,
            final(self).max_col == old(self).max_col,
            final(self).max_row == old(self).max_row,
    {
        let id = pos_to_id(col, row);
        store_result(&mut self.cells, id, val);
    }

    /// Puts a cell at `col`, `row`.
    pub fn set_cell(&mut self, col: usize, row: usize, cell: Cell)
        requires
            old(self).wf(),
            col < MAX_COLS,
            row < MAX_ROWS,
        ensures
            final(self).wf(),
            final(self).cells@ == old(self).cells@.insert(
                key_of(col as int, row as int) as u64,
                cell,
            ),
            final(self).max_col == if col > old(self).max_col { col } else { old(self).max_col },
            final(self).max_row == if row > old(self).max_row { row } else { old(self).max_row },
            final(self).dirty,
            final(self).same_frame(old(self)),
    {
        if col > self.max_col {
            self.max_col = col;
        }
        if row > self.max_row {
            self.max_row = row;
        }
        let id = pos_to_id(col, row);
        proof {
            lemma_key_round_trip(col as int, row as int);
        }
        self.cells.insert(id, cell);
        self.dirty = true;
    }

    /// Gives the cell at `col`, `row` a new text: the text without the white
    /// space at its ends is entered as `set_trimmed_text` enters it. So a
    /// sheet whose texts have no whitespace at their ends stays such a sheet.
    pub fn set_cell_text(&mut self, col: usize, row: usize, text: &str, numbers: &Numerics) -> (r:
        Result<(), Stop>)
        requires
            old(self).wf(),
            col < MAX_COLS,
            row < MAX_ROWS,
        ensures
            final(self).wf(),
            final(self).same_frame(old(self)),
            ({
                let key = key_of(col as int, row as int) as u64;
                let before = grid(old(self).cells@);
                if cell_at(before, key).val == trimmed(text@) {
                    r is Ok && *final(self) == *old(self)
                } else {
                    match with_text(before, key, trimmed(text@), numbers@) {
                        Ok(cells) => {
                            &&& r is Ok
                            &&& grid(final(self).cells@) == cells
                            &&& final(self).dirty
                            &&& final(self).max_col == if col > old(self).max_col {
                                col
                            } else {
                                old(self).max_col
                            }
                            &&& final(self).max_row == if row > old(self).max_row {
                                row
                            } else {
                                old(self).max_row
                            }
                        },
                        Err(h) => r matches Err(e) && e@ == h && e is Unanswered && *final(self)
                            == *old(self),
                    }
                }
            }),
            texts_trimmed(grid(old(self).cells@)) ==> texts_trimmed(grid(final(self).cells@)),
    {
        proof {
            if texts_trimmed(grid(self.cells@)) {
                lemma_entered_trimmed(
                    grid(self.cells@),
                    key_of(col as int, row as int) as u64,
                    text@,
                    numbers@,
                );
            }
        }
        self.set_trimmed_text(col, row, trim(text), numbers)
    }

    /// Gives the cell at `col`, `row` the text as it stands, nothing taken
    /// from its ends. Where it is the text that the cell has, nothing
    /// happens. Otherwise the text is stored, its value is found, and every
    /// formula of the sheet is evaluated again. Where the table lacks a
    /// number, the sheet stays as it was and the question is returned.
    pub fn set_trimmed_text(
        &mut self,
        col: usize,
        row: usize,
        text: String,
        numbers: &Numerics,
    ) -> (r: Result<(), Stop>)
        requires
            old(self).wf(),
            col < MAX_COLS,
            row < MAX_ROWS,
        ensures
            final(self).wf(),
            final(self).same_frame(old(self)),
            ({
                let key = key_of(col as int, row as int) as u64;
                let before = grid(old(self).cells@);
                if cell_at(before, key).val == text@ {
                    r is Ok && *final(self) == *old(self)
                } else {
                    match with_text(before, key, text@, numbers@) {
                        Ok(cells) => {
                            &&& r is Ok
                            &&& grid(final(self).cells@) == cells
                            &&& final(self).dirty
                            &&& final(self).max_col == if col > old(self).max_col {
                                col
                            } else {
                                old(self).max_col
                            }
                            &&& final(self).max_row == if row > old(self).max_row {
                                row
                            } else {
                                old(self).max_row
                            }
                        },
                        Err(h) => r matches Err(e) && e@ == h && e is Unanswered && *final(self)
                            == *old(self),
                    }
                }
            }),
    {
        let id = pos_to_id(col, row);
        let mut cell = cell_of(&self.cells, id);
        if str_eq(cell.val.as_str(), text.as_str()) {
            return Ok(());
        }
        let formula = starts_with(text.as_str(), "=");
        proof {
            reveal_strlit("=");
            if formula {
                assert(text@.subrange(0, 1)[0] == '=');
            } else if text@.len() > 0 && text@[0] == '=' {
                assert(text@.subrange(0, 1) =~= "="@);
            }
            lemma_key_round_trip(col as int, row as int);
        }
        let mut work = self.cells.clone();
        let literal = if formula {
            Arg::End
        } else {
            match parse_value(text.as_str(), numbers) {
                Err(e) => {
                    proof {
                        assert(e is Unanswered);
                    }
                    return Err(e);
                },
                Ok(v) => v,
            }
        };
        cell.val = text;
        cell.err = 0;
        proof {
            lemma_grid_insert(work@, id, cell);
        }
        work.insert(id, cell);
        if formula {
            match refresh(&mut work, id, numbers) {
                Err(e) => {
                    return Err(e);
                },
                Ok(_) => {},
            }
        } else {
            store_result(&mut work, id, Ok(literal));
        }
        proof {
            lemma_recalc_stops(grid(work@), 0, key_end(), numbers@);
        }
        match recalc_cells(&mut work, numbers) {
            Err(e) => {
                return Err(e);
            },
            Ok(_) => {},
        }
        self.cells = work;
        if col > self.max_col {
            self.max_col = col;
        }
        if row > self.max_row {
            self.max_row = row;
        }
        self.dirty = true;
        Ok(())
    }
}

/// The width of a column: the default where none is set.
pub open spec fn width_of(widths: Map<u64, u16>, col: u64) -> u16 {
    if widths.contains_key(col) {
        widths[col]
    } else {
        DEF_COL_WIDTH
    }
}

/// The rectangle between two positions, the smaller column and row first.
pub open spec fn rectangle(a: Pos, b: Pos) -> Range {
    Range::Multi(
        Pos {
            col: if a.col > b.col { b.col } else { a.col },
            row: if a.row > b.row { b.row } else { a.row },
            ..a
        },
        Pos {
            col: if a.col > b.col { a.col } else { b.col },
            row: if a.row > b.row { a.row } else { b.row },
            ..b
        },
    )
}

/// What a cell says of how it is drawn, after `attr` was laid over it: what
/// `attr` leaves out stays.
pub open spec fn overlaid(base: OptionAttr, attr: OptionAttr) -> OptionAttr {
    OptionAttr {
        fg: if attr.fg is Some { attr.fg } else { base.fg },
        bg: if attr.bg is Some { attr.bg } else { base.bg },
        align: if attr.align is Some { attr.align } else { base.align },
    }
}

impl Sheet {
    /// The selected range: the cell under the cursor where nothing is
    /// selected, else the rectangle between the cell where the selection
    /// began and the one where it ended, or the cursor while it goes on.
    pub open spec fn selection(&self) -> Range {
        match self.select_start {
            None => Range::Single(Pos::spec_new(self.cursor.col, self.cursor.row)),
            Some(st) => rectangle(
                st,
                match self.select_end {
                    Some(end) => end,
                    None => Pos::spec_new(self.cursor.col, self.cursor.row),
                },
            ),
        }
    }

    /// Whether the cursor is at `col`, `row`.
    pub fn is_under_cursor(&self, col: usize, row: usize) -> (r: bool)
        ensures
            r == (col == self.cursor.col && row == self.cursor.row),
    {
        col == self.cursor.col && self.cursor.row == row
    }

    /// Whether a selection was begun.
    pub fn is_in_select_mode(&self) -> (r: bool)
        ensures
            r == self.select_start is Some,
    {
        self.select_start.is_some()
    }

    /// Whether the selection was begun with a key of its own.
    pub fn is_select_v(&self) -> (r: bool)
        ensures
            r == (self.select_type == SelectType::V),
    {
        match self.select_type {
            SelectType::V => true,
            _ => false,
        }
    }

    /// Begins a selection at the cursor.
    pub fn start_select(&mut self, tp: SelectType)
        ensures
            *final(self) == (Sheet {
                mode: if old(self).mode == CalcMode::Move {
                    CalcMode::Select
                } else {
                    CalcMode::TempSelectStart
                },
                select_start: Some(Pos::spec_new(old(self).cursor.col, old(self).cursor.row)),
                select_end: None,
                select_type: tp,
                ..*old(self)
            }),
    {
        self.mode = match self.mode {
            CalcMode::Move => CalcMode::Select,
            _ => CalcMode::TempSelectStart,
        };
        self.select_start = Some(Pos::new(self.cursor.col, self.cursor.row));
        self.select_end = None;
        self.select_type = tp;
    }

    /// Ends the selection at the cursor.
    pub fn finish_select(&mut self)
        ensures
            *final(self) == (Sheet {
                select_end: Some(Pos::spec_new(old(self).cursor.col, old(self).cursor.row)),
                ..*old(self)
            }),
    {
        self.select_end = Some(Pos::new(self.cursor.col, self.cursor.row));
    }

    /// Drops the selection.
    pub fn cancel_select(&mut self)
        ensures
            *final(self) == (Sheet {
                mode: if old(self).mode == CalcMode::TempSelectStart {
                    CalcMode::Edit
                } else {
                    CalcMode::Move
                },
                select_start: None,
                select_end: None,
                ..*old(self)
            }),
    {
        self.mode = match self.mode {
            CalcMode::TempSelectStart => CalcMode::Edit,
            _ => CalcMode::Move,
        };
        self.select_start = None;
        self.select_end = None;
    }

    /// The selected range.
    pub fn selected_range(&self) -> (r: Range)
        ensures
            r == self.selection(),
    {
        let st = match self.select_start {
            None => {
                return Range::Single(Pos::new(self.cursor.col, self.cursor.row));
            },
            Some(st) => st,
        };
        let (mut pos1, mut pos2) = match self.select_end {
            Some(end) => (st, end),
            None => (st, Pos::new(self.cursor.col, self.cursor.row)),
        };
        if pos1.col > pos2.col {
            let t: usize = pos1.col;
            pos1.col = pos2.col;
            pos2.col = t;
        }
        if pos1.row > pos2.row {
            let t: usize = pos1.row;
            pos1.row = pos2.row;
            pos2.row = t;
        }
        Range::Multi(pos1, pos2)
    }

    /// Whether the cell is within the selection, if there is one.
    pub fn is_in_selection(&self, col: usize, row: usize) -> (r: bool)
        ensures
            r == (self.select_start is Some && match self.selection() {
                Range::Single(p) => p.col == col && p.row == row,
                Range::Multi(p1, p2) => p1.col <= col <= p2.col && p1.row <= row <= p2.row,
                Range::Col(c) => col == c,
                Range::Row(r) => row == r,
            }),
    {
        if !self.is_in_select_mode() {
            return false;
        }
        match self.selected_range() {
            Range::Single(p) => p.col == col && p.row == row,
            Range::Multi(p1, p2) => col >= p1.col && col <= p2.col && row >= p1.row && row <= p2.row,
            Range::Col(c) => col == c,
            Range::Row(r) => row == r,
        }
    }

    /// Lays `attr` over what the cell at `col`, `row` says of how it is
    /// drawn; the cell is made where there is none.
    pub fn set_cell_attr(&mut self, col: usize, row: usize, attr: OptionAttr)
        requires
            old(self).wf(),
            col < MAX_COLS,
            row < MAX_ROWS,
        ensures
            final(self).wf(),
            final(self).same_frame(old(self)),
            final(self).dirty,
            ({
                let key = key_of(col as int, row as int) as u64;
                let before = grid(old(self).cells@);
                let held = before.contains_key(key);
                &&& grid(final(self).cells@) == before.insert(
                    key,
                    CellView { attr: overlaid(cell_at(before, key).attr, attr), ..cell_at(before, key) },
                )
                &&& final(self).max_col == if !held && col > old(self).max_col {
                    col
                } else {
                    old(self).max_col
                }
                &&& final(self).max_row == if !held && row > old(self).max_row {
                    row
                } else {
                    old(self).max_row
                }
            }),
    {
        let id = pos_to_id(col, row);
        self.dirty = true;
        proof {
            lemma_key_round_trip(col as int, row as int);
        }
        let ghost before = self.cells@;
        match self.cells.remove(&id) {
            Some(mut cell) => {
                if attr.fg.is_some() {
                    cell.attr.fg = attr.fg;
                }
                if attr.bg.is_some() {
                    cell.attr.bg = attr.bg;
                }
                if attr.align.is_some() {
                    cell.attr.align = attr.align;
                }
                proof {
                    lemma_grid_insert(before.remove(id), id, cell);
                    assert(before.remove(id).insert(id, cell) =~= before.insert(id, cell));
                    lemma_grid_insert(before, id, cell);
                }
                self.cells.insert(id, cell);
            },
            None => {
                let mut cell = Cell::default();
                if attr.fg.is_some() {
                    cell.attr.fg = attr.fg;
                }
                if attr.bg.is_some() {
                    cell.attr.bg = attr.bg;
                }
                if attr.align.is_some() {
                    cell.attr.align = attr.align;
                }
                proof {
                    assert(self.cells@ =~= before);
                    lemma_grid_insert(before, id, cell);
                }
                self.set_cell(col, row, cell);
            },
        }
    }

    /// How the cell at `col`, `row` is drawn. The cursor comes first, then
    /// the selection, then what the cell says, then the defaults: white on
    /// black in the even columns and on dark grey in the odd ones, on the
    /// left.
    pub fn cell_attr(&self, col: usize, row: usize) -> (r: Attr)
        requires
            key_of(col as int, row as int) <= u64::MAX,
        ensures
            ({
                let cell = cell_at(grid(self.cells@), key_of(col as int, row as int) as u64);
                let selected = col == self.cursor.col && row == self.cursor.row;
                let in_selection = self.select_start is Some && match self.selection() {
                    Range::Single(p) => p.col == col && p.row == row,
                    Range::Multi(p1, p2) => p1.col <= col <= p2.col && p1.row <= row <= p2.row,
                    Range::Col(c) => col == c,
                    Range::Row(r) => row == r,
                };
                &&& r.fg == if selected {
                    Color::Black
                } else if in_selection {
                    Color::DarkBlue
                } else {
                    match cell.attr.fg {
                        Some(f) => f,
                        None => Color::White,
                    }
                }
                &&& r.bg == if selected {
                    Color::White
                } else if in_selection {
                    Color::Blue
                } else {
                    match cell.attr.bg {
                        Some(b) => b,
                        None => if col % 2 == 0 {
                            Color::Black
                        } else {
                            Color::DarkGrey
                        },
                    }
                }
                &&& r.align == match cell.attr.align {
                    Some(a) => a,
                    None => Align::Left,
                }
            }),
    {
        let selected = self.is_under_cursor(col, row);
        let in_selection = self.is_in_selection(col, row);
        let cell = self.cell(col, row);
        let fg = if selected {
            Color::Black
        } else if in_selection {
            Color::DarkBlue
        } else {
            match cell.attr.fg {
                Some(f) => f,
                None => Color::White,
            }
        };
        let bg = if selected {
            Color::White
        } else if in_selection {
            Color::Blue
        } else {
            match cell.attr.bg {
                Some(b) => b,
                None => if col % 2 == 0 {
                    Color::Black
                } else {
                    Color::DarkGrey
                },
            }
        };
        let align = match cell.attr.align {
            Some(a) => a,
            None => Align::Left,
        };
        Attr { bg, fg, align }
    }
}

/// The corners of a range: first column, first row, last column, last row.
pub open spec fn corners(r: Range) -> (int, int, int, int) {
    match r {
        Range::Single(c) => (c.col as int, c.row as int, c.col as int, c.row as int),
        Range::Multi(c1, c2) => (c1.col as int, c1.row as int, c2.col as int, c2.row as int),
        _ => (0, 0, 0, 0),
    }
}

/// Where the copy `rng` is pasted at `cursor`.
pub open spec fn pasting(rng: Range, cursor: Pos) -> Pasting {
    Pasting {
        c0: corners(rng).0,
        r0: corners(rng).1,
        c1: corners(rng).2,
        r1: corners(rng).3,
        col: cursor.col as int,
        row: cursor.row as int,
    }
}

/// The greatest column or row after cells were added: the mark it was, or
/// that of the farthest cell where one lies beyond it.
pub open spec fn raised_col(new: usize, old: usize, keys: Set<u64>) -> bool {
    &&& new >= old
    &&& forall|k: u64| keys.contains(k) ==> k % 100000 <= new
    &&& new == old || exists|k: u64| keys.contains(k) && k % 100000 == new
}

/// The same for the greatest row.
pub open spec fn raised_row(new: usize, old: usize, keys: Set<u64>) -> bool {
    &&& new >= old
    &&& forall|k: u64| keys.contains(k) ==> k / 100000 <= new
    &&& new == old || exists|k: u64| keys.contains(k) && k / 100000 == new
}

/// The cells after the texts of the cells from column `c` of row `r` to the
/// end of the rectangle were set to nothing, one after the other, row by
/// row, and whether the last of them met a question that the table has no
/// answer to.
pub open spec fn emptied(
    cells: Map<u64, CellView>,
    c: int,
    r: int,
    c0: int,
    c1: int,
    r1: int,
    t: Table,
) -> (Map<u64, CellView>, Option<Halt>)
    decreases r1 - r + 1, c1 - c + 1,
{
    if r > r1 || c0 > c1 {
        (cells, None)
    } else if c > c1 {
        emptied(cells, c0, r + 1, c0, c1, r1, t)
    } else {
        let key = key_of(c, r) as u64;
        if cell_at(cells, key).val.len() == 0 {
            emptied(cells, c + 1, r, c0, c1, r1, t)
        } else {
            match with_text(cells, key, Seq::empty(), t) {
                Err(h) => (cells, Some(h)),
                Ok(next) => emptied(next, c + 1, r, c0, c1, r1, t),
            }
        }
    }
}

impl Sheet {
    /// Copies the cells of the selected range.
    pub fn yank(&mut self)
        requires
            old(self).wf(),
        ensures
            final(self).wf(),
            final(self).cells == old(self).cells,
            final(self).max_col == old(self).max_col,
            final(self).max_row == old(self).max_row,
            final(self).dirty == old(self).dirty,
            final(self).name == old(self).name,
            final(self).first_row == old(self).first_row,
            final(self).first_col == old(self).first_col,
            final(self).cursor == old(self).cursor,
            final(self).fixed_rows == old(self).fixed_rows,
            final(self).fixed_cols == old(self).fixed_cols,
            final(self).select_start == old(self).select_start,
            final(self).select_end == old(self).select_end,
            final(self).select_type == old(self).select_type,
            final(self).widths == old(self).widths,
            final(self).mode == old(self).mode,
            final(self).h == old(self).h,
            final(self).w == old(self).w,
            final(self).yanked matches Some(sub) && sub.rng == old(self).selection() && grid(
                sub.values@,
            ) == copied(
                grid(old(self).cells@),
                corners(sub.rng).0,
                corners(sub.rng).1,
                corners(sub.rng).2,
                corners(sub.rng).3,
            ),
    {
        let rng = self.selected_range();
        let (col_start, row_start, col_end, row_end) = rng.indices();
        let values = copy_rect(&self.cells, col_start, row_start, col_end, row_end);
        self.yanked = Some(SubRange { rng, values });
    }

    /// Pastes the copied cells with the top left corner of the copy at the
    /// cursor. The rectangle that the copy goes to is cleared first; what
    /// would go beyond the grid is left out. Formulas are rewritten so that
    /// their references move with them, and every formula of the sheet is
    /// evaluated again. Nothing happens where nothing was copied or the
    /// cursor is where the copy was taken. Where the table lacks a number,
    /// the sheet stays as it was and the question is returned.
    pub fn paste_yanked(&mut self, numbers: &Numerics) -> (r: Result<(), Stop>)
        requires
            old(self).wf(),
        ensures
            final(self).wf(),
            final(self).same_frame(old(self)),
            match old(self).yanked {
                None => r is Ok && *final(self) == *old(self),
                Some(sub) => {
                    let p = pasting(sub.rng, old(self).cursor);
                    if p.c0 == p.col && p.r0 == p.row {
                        r is Ok && *final(self) == *old(self)
                    } else {
                        match pasted(grid(old(self).cells@), grid(sub.values@), p, numbers@) {
                            Err(h) => r matches Err(e) && e@ == h && *final(self) == *old(self),
                            Ok(cells) => match recalculated(cells, 0, key_end(), numbers@) {
                                Err(h) => r matches Err(e) && e@ == h && *final(self) == *old(self),
                                Ok(after) => {
                                    &&& r is Ok
                                    &&& grid(final(self).cells@) == after
                                    &&& final(self).dirty
                                    &&& raised_col(
                                        final(self).max_col,
                                        old(self).max_col,
                                        final(self).cells@.dom(),
                                    )
                                    &&& raised_row(
                                        final(self).max_row,
                                        old(self).max_row,
                                        final(self).cells@.dom(),
                                    )
                                },
                            },
                        }
                    }
                },
            },
    {
        let mut work = self.cells.clone();
        match &self.yanked {
            None => {
                return Ok(());
            },
            Some(sub) => {
                let (col_start, row_start, col_end, row_end) = sub.rng.indices();
                if col_start == self.cursor.col && row_start == self.cursor.row {
                    return Ok(());
                }
                match paste_rect(
                    &mut work,
                    &sub.values,
                    col_start,
                    row_start,
                    col_end,
                    row_end,
                    self.cursor.col,
                    self.cursor.row,
                    numbers,
                ) {
                    Err(e) => {
                        return Err(e);
                    },
                    Ok(_) => {},
                }
            },
        }
        match recalc_cells(&mut work, numbers) {
            Err(e) => {
                return Err(e);
            },
            Ok(_) => {},
        }
        let (mc, mr) = high_marks(&work, self.max_col, self.max_row);
        self.cells = work;
        self.max_col = mc;
        self.max_row = mr;
        self.dirty = true;
        Ok(())
    }

    /// Sets the texts of the cells of the selected range to nothing, one
    /// cell after the other, and drops the selection. Where the table lacks
    /// a number the cells that were reached so far are done, the selection
    /// stays, and the question is returned.
    pub fn clear_range(&mut self, numbers: &Numerics) -> (r: Result<(), Stop>)
        requires
            old(self).wf(),
        ensures
            final(self).wf(),
            ({
                let (c0, r0, c1, r1) = corners(old(self).selection());
                let (cells, stop) = emptied(grid(old(self).cells@), c0, r0, c0, c1, r1, numbers@);
                &&& grid(final(self).cells@) == cells
                &&& match stop {
                    None => r is Ok && final(self).select_start is None && final(self).select_end
                        is None && final(self).mode == if old(self).mode
                        == CalcMode::TempSelectStart {
                        CalcMode::Edit
                    } else {
                        CalcMode::Move
                    },
                    Some(h) => r matches Err(e) && e@ == h && final(self).same_frame(old(self)),
                }
            }),
            final(self).name == old(self).name,
            final(self).first_row == old(self).first_row,
            final(self).first_col == old(self).first_col,
            final(self).cursor == old(self).cursor,
            final(self).fixed_rows == old(self).fixed_rows,
            final(self).fixed_cols == old(self).fixed_cols,
            final(self).select_type == old(self).select_type,
            final(self).widths == old(self).widths,
            final(self).h == old(self).h,
            final(self).w == old(self).w,
            final(self).yanked == old(self).yanked,
            final(self).max_col == old(self).max_col,
            final(self).max_row == old(self).max_row,
            final(self).dirty == (old(self).dirty || grid(final(self).cells@) != grid(
                old(self).cells@,
            )),
    {
        let (c0, r0, c1, r1) = self.selected_range().indices();
        let ghost goal = emptied(
            grid(self.cells@),
            c0 as int,
            r0 as int,
            c0 as int,
            c1 as int,
            r1 as int,
            numbers@,
        );
        let mut r: usize = r0;
        while r <= r1
            invariant
                r0 <= r <= r1 + 1,
                c0 <= c1 < MAX_COLS,
                r1 < MAX_ROWS,
                (c0 as int, r0 as int, c1 as int, r1 as int) == corners(old(self).selection()),
                goal == emptied(
                    grid(old(self).cells@),
                    c0 as int,
                    r0 as int,
                    c0 as int,
                    c1 as int,
                    r1 as int,
                    numbers@,
                ),
                self.wf(),
                self.same_frame(old(self)),
                self.max_col == old(self).max_col,
                self.max_row == old(self).max_row,
                self.dirty == (old(self).dirty || grid(self.cells@) != grid(old(self).cells@)),
                texts_emptied(grid(old(self).cells@), grid(self.cells@)),
                goal == emptied(
                    grid(self.cells@),
                    c0 as int,
                    r as int,
                    c0 as int,
                    c1 as int,
                    r1 as int,
                    numbers@,
                ),
            decreases r1 + 1 - r,
        {
            let mut c: usize = c0;
            while c <= c1
                invariant
                    r0 <= r <= r1,
                    c0 <= c <= c1 + 1,
                    c1 < MAX_COLS,
                    r1 < MAX_ROWS,
                    (c0 as int, r0 as int, c1 as int, r1 as int) == corners(old(self).selection()),
                    goal == emptied(
                        grid(old(self).cells@),
                        c0 as int,
                        r0 as int,
                        c0 as int,
                        c1 as int,
                        r1 as int,
                        numbers@,
                    ),
                    self.wf(),
                    self.same_frame(old(self)),
                    self.max_col == old(self).max_col,
                    self.max_row == old(self).max_row,
                    self.dirty == (old(self).dirty || grid(self.cells@) != grid(old(self).cells@)),
                    texts_emptied(grid(old(self).cells@), grid(self.cells@)),
                    goal == emptied(
                        grid(self.cells@),
                        c as int,
                        r as int,
                        c0 as int,
                        c1 as int,
                        r1 as int,
                        numbers@,
                    ),
                decreases c1 + 1 - c,
            {
                let ghost before = grid(self.cells@);
                let ghost key = key_of(c as int, r as int) as u64;
                proof {
                    lemma_trimmed_empty();
                    lemma_key_round_trip(c as int, r as int);
                    if self.cells@.contains_key(key) {
                        assert(self.cells@.dom().contains(key));
                    }
                    if cell_at(before, key).val.len() != 0 {
                        lemma_with_empty_changes(before, key, numbers@);
                    }
                }
                match self.set_cell_text(c, r, "", numbers) {
                    Err(e) => {
                        proof {
                            assert(cell_at(before, key).val.len() != 0) by {
                                if cell_at(before, key).val.len() == 0 {
                                    assert(cell_at(before, key).val =~= trimmed(""@));
                                }
                            }
                            assert(emptied(
                                before,
                                c as int,
                                r as int,
                                c0 as int,
                                c1 as int,
                                r1 as int,
                                numbers@,
                            ) == (before, Some(e@)));
                        }
                        return Err(e);
                    },
                    Ok(_) => {},
                }
                proof {
                    if cell_at(before, key).val.len() == 0 {
                        assert(cell_at(before, key).val =~= trimmed(""@));
                    }
                    let after = grid(self.cells@);
                    let first = grid(old(self).cells@);
                    if cell_at(before, key).val.len() != 0 {
                        assert(before.contains_key(key));
                        assert(first.contains_key(key));
                        assert(after[key].val.len() == 0);
                        assert(first[key].val == before[key].val || before[key].val.len() == 0);
                        assert(after[key].val != first[key].val);
                        assert forall|k: u64| #[trigger] first.contains_key(k) implies after[k].val
                            == first[k].val || after[k].val.len() == 0 by {
                            assert(before.contains_key(k));
                        }
                    }
                }
                c += 1;
            }
            r += 1;
        }
        self.cancel_select();
        Ok(())
    }
}

/// The marks of the greatest column and row, raised to the farthest cells.
fn high_marks(cells: &BTreeMap<u64, Cell>, max_col: usize, max_row: usize) -> (r: (usize, usize))
    requires
        forall|k: u64| cells@.contains_key(k) ==> key_on_grid(k),
    ensures
        raised_col(r.0, max_col, cells@.dom()),
        raised_row(r.1, max_row, cells@.dom()),
        max_col < MAX_COLS ==> r.0 < MAX_COLS,
        max_row < MAX_ROWS ==> r.1 < MAX_ROWS,
{
    let keys = crate::keys::sorted_keys(cells);
    let mut mc: usize = max_col;
    let mut mr: usize = max_row;
    let mut i: usize = 0;
    while i < keys.len()
        invariant
            i <= keys@.len(),
            keys@.to_set() == cells@.dom(),
            forall|k: u64| cells@.contains_key(k) ==> key_on_grid(k),
            mc >= max_col,
            mr >= max_row,
            max_col < MAX_COLS ==> mc < MAX_COLS,
            max_row < MAX_ROWS ==> mr < MAX_ROWS,
            forall|j: int| 0 <= j < i ==> keys@[j] % 100000 <= mc && keys@[j] / 100000 <= mr,
            mc == max_col || exists|k: u64| cells@.dom().contains(k) && k % 100000 == mc,
            mr == max_row || exists|k: u64| cells@.dom().contains(k) && k / 100000 == mr,
        decreases keys@.len() - i,
    {
        let k: u64 = keys[i];
        assert(keys@.to_set().contains(k));
        assert(cells@.dom().contains(k));
        assert(key_on_grid(k));
        let col: usize = (k % 100000) as usize;
        let row: usize = (k / 100000) as usize;
        if col > mc {
            mc = col;
            assert(cells@.dom().contains(k) && k % 100000 == mc);
        }
        if row > mr {
            mr = row;
            assert(cells@.dom().contains(k) && k / 100000 == mr);
        }
        i += 1;
    }
    proof {
        assert forall|k: u64| cells@.dom().contains(k) implies k % 100000 <= mc && k / 100000
            <= mr by {
            assert(keys@.to_set().contains(k));
            let j = choose|j: int| 0 <= j < keys@.len() && keys@[j] == k;
            assert(keys@[j] % 100000 <= mc);
        }
    }
    (mc, mr)
}

/// Nothing is left of the empty text when it is trimmed.
pub proof fn lemma_trimmed_empty()
    ensures
        trimmed(""@) == Seq::<char>::empty(),
{
    reveal_strlit("");
    assert(trimmed(""@) =~= Seq::<char>::empty());
}

/// Whether the cells of `b` are those of `a` with some texts set to nothing.
pub open spec fn texts_emptied(a: Map<u64, CellView>, b: Map<u64, CellView>) -> bool {
    &&& a.dom() == b.dom()
    &&& forall|k: u64| #[trigger] a.contains_key(k) ==> b[k].val == a[k].val || b[k].val.len() == 0
}

/// Setting the text of a cell that has one to nothing changes that text and
/// no other.
pub proof fn lemma_with_empty_changes(cells: Map<u64, CellView>, key: u64, t: Table)
    requires
        cell_at(cells, key).val.len() != 0,
    ensures
        with_text(cells, key, Seq::empty(), t) matches Ok(next) ==> {
            &&& next.dom() == cells.dom()
            &&& next[key].val.len() == 0
            &&& forall|k: u64| #[trigger] cells.contains_key(k) && k != key ==> next[k].val == cells[k].val
        },
{
    let c1 = edited(cells, key, Seq::empty());
    match literal_value(Seq::empty(), t) {
        Ok(v) => {
            let c2 = stored(c1, key, Ok(v));
            assert(c2[key].val.len() == 0);
            crate::recalc::lemma_recalc_keeps(c2, 0, key_end(), t);
            assert(c2.dom() =~= cells.dom());
            match recalculated(c2, 0, key_end(), t) {
                Ok(next) => {
                    assert(c2.contains_key(key));
                    assert(next[key].val == c2[key].val);
                    assert forall|k: u64| #[trigger] cells.contains_key(k) && k != key implies next[k].val
                        == cells[k].val by {
                        assert(c2.contains_key(k));
                        assert(next[k].val == c2[k].val);
                    }
                },
                Err(_) => {},
            }
        },
        Err(_) => {},
    }
}

/// Giving a cell a text changes no place of a cell but that of the cell
/// itself, which is there afterwards.
pub proof fn lemma_with_text_dom(cells: Map<u64, CellView>, key: u64, text: Seq<char>, t: Table)
    ensures
        with_text(cells, key, text, t) matches Ok(next) ==> next.dom() == cells.dom().insert(key),
{
    let c1 = edited(cells, key, text);
    assert(c1.dom() =~= cells.dom().insert(key));
    if text.len() > 0 && text[0] == '=' {
        crate::recalc::lemma_refreshed_keeps(c1, key, t);
        match refreshed(c1, key, t) {
            Ok(c2) => {
                crate::recalc::lemma_recalc_keeps(c2, 0, key_end(), t);
            },
            Err(_) => {},
        }
    } else {
        match literal_value(text, t) {
            Ok(v) => {
                let c2 = stored(c1, key, Ok(v));
                assert(c2.dom() =~= c1.dom());
                crate::recalc::lemma_recalc_keeps(c2, 0, key_end(), t);
            },
            Err(_) => {},
        }
    }
}

/// Giving a cell a text leaves the other cells where they are, with their
/// texts and the words on how they are drawn; the cell itself is there
/// afterwards, with the text and with the words it had.
pub proof fn lemma_with_text_frame(cells: Map<u64, CellView>, key: u64, text: Seq<char>, t: Table)
    ensures
        with_text(cells, key, text, t) matches Ok(next) ==> {
            &&& next.dom() == cells.dom().insert(key)
            &&& next[key].val == text
            &&& next[key].attr == cell_at(cells, key).attr
            &&& forall|k: u64| #[trigger]
                cells.contains_key(k) && k != key ==> next[k].val == cells[k].val && next[k].attr
                    == cells[k].attr
        },
        with_text(cells, key, text, t) matches Err(h) ==> h is Unanswered,
{
    let c1 = edited(cells, key, text);
    assert(c1.dom() =~= cells.dom().insert(key));
    let c2 = if text.len() > 0 && text[0] == '=' {
        lemma_refreshed_keeps(c1, key, t);
        refreshed(c1, key, t)
    } else {
        match literal_value(text, t) {
            Err(h) => Err(h),
            Ok(v) => {
                lemma_stored_same_texts(c1, key, Ok(v));
                Ok(stored(c1, key, Ok(v)))
            },
        }
    };
    match c2 {
        Ok(c) => {
            assert(same_texts(c1, c));
            lemma_recalc_keeps(c, 0, key_end(), t);
            lemma_recalc_stops(c, 0, key_end(), t);
            match recalculated(c, 0, key_end(), t) {
                Ok(next) => {
                    assert(c1.contains_key(key));
                    assert(c.contains_key(key));
                    assert(next[key].val == c[key].val);
                    assert forall|k: u64| #[trigger]
                        cells.contains_key(k) && k != key implies next[k].val == cells[k].val
                        && next[k].attr == cells[k].attr by {
                        assert(c1.contains_key(k));
                        assert(c.contains_key(k));
                        assert(next[k].val == c[k].val);
                    }
                },
                Err(_) => {},
            }
        },
        Err(_) => {},
    }
}

/// Whether the text of every cell is as `set_cell_text` leaves it: without
/// whitespace before and behind it.
pub open spec fn texts_trimmed(cells: Map<u64, CellView>) -> bool {
    forall|k: u64| #[trigger] cells.contains_key(k) ==> trimmed(cells[k].val) == cells[k].val
}

/// A text that is entered leaves every text of the sheet without whitespace
/// at its ends, where they were so before.
pub proof fn lemma_entered_trimmed(cells: Map<u64, CellView>, key: u64, text: Seq<char>, t: Table)
    requires
        texts_trimmed(cells),
    ensures
        with_text(cells, key, trimmed(text), t) matches Ok(next) ==> texts_trimmed(next),
{
    lemma_with_text_frame(cells, key, trimmed(text), t);
    lemma_trimmed_twice(text);
    match with_text(cells, key, trimmed(text), t) {
        Ok(next) => {
            assert forall|k: u64| #[trigger] next.contains_key(k) implies trimmed(next[k].val)
                == next[k].val by {
                if k != key {
                    assert(cells.contains_key(k));
                }
            }
        },
        Err(_) => {},
    }
}

} // verus!
