//! The window on a sheet: which columns and rows are on the screen, the bands
//! of fixed rows and columns, and the moves of the cursor.
use vstd::prelude::*;
use crate::error::{Error, Halt, Stop};
use crate::number::{Numerics, Table};
use crate::ops::{key_of, pos_to_id, Pos};
use crate::parse::{DEF_NUM_WIDTH, MAX_COLS, MAX_ROWS};
use crate::sheet::{
    grid, width_of, CalcMode, CellView, SelectType, Sheet, MAX_COL_WIDTH, MAX_FIXED_COLS,
    MAX_FIXED_ROWS, MIN_COL_WIDTH,
};
use crate::strs::{str_columns, str_width};
use crate::ui::{Modifiers, Transition};

verus! {

/// The widths of the first `n` columns together.
pub open spec fn sum_widths(widths: Map<u64, u16>, n: int) -> int
    decreases n,
{
    if n <= 0 {
        0
    } else {
        sum_widths(widths, n - 1) + width_of(widths, (n - 1) as u64)
    }
}

/// No column is wider than a 16-bit number says.
pub proof fn lemma_sum_widths_bound(widths: Map<u64, u16>, n: int)
    requires
        0 <= n,
    ensures
        0 <= sum_widths(widths, n) <= n * 65535,
    decreases n,
{
    if n > 0 {
        lemma_sum_widths_bound(widths, n - 1);
    }
}

/// The last column on the screen and whether all of it is there, when the
/// columns from `c` on are laid out behind `colpos` screen columns that are
/// taken already.
pub open spec fn scan_cols(widths: Map<u64, u16>, c: int, colpos: int, w: int, first: int) -> (
    int,
    bool,
)
    decreases MAX_COLS - c,
{
    if c < 0 || c >= MAX_COLS {
        (first, false)
    } else if colpos + width_of(widths, c as u64) >= w {
        (c, colpos + width_of(widths, c as u64) == w)
    } else if c == MAX_COLS - 1 {
        (MAX_COLS - 1, true)
    } else {
        scan_cols(widths, c + 1, colpos + width_of(widths, c as u64), w, first)
    }
}

/// The first column of the window when the columns before the cursor, from
/// `cid` downwards, are laid out behind `filled` screen columns: the one
/// behind the first that does not fit. `keep` where all of them fit.
pub open spec fn scan_back(widths: Map<u64, u16>, cid: int, filled: int, w: int, keep: int) -> int
    decreases cid + 1,
{
    if cid < 0 {
        keep
    } else if filled + width_of(widths, cid as u64) > w {
        cid + 1
    } else {
        scan_back(widths, cid - 1, filled + width_of(widths, cid as u64), w, keep)
    }
}

impl Sheet {
    /// The rows of the area below the line of the column names.
    pub open spec fn rows(&self) -> int {
        if self.h == 0 {
            0
        } else {
            self.h - 1
        }
    }

    /// The screen columns that the fixed columns take.
    pub open spec fn fixed_width(&self) -> int {
        sum_widths(self.widths@, self.fixed_cols as int)
    }

    /// Whether there is a band of fixed columns: some are fixed, and they
    /// leave room on the screen.
    pub open spec fn col_fixed(&self) -> bool {
        self.fixed_cols != 0 && self.fixed_width() + DEF_NUM_WIDTH + 1 < self.w
    }

    /// Whether there is a band of fixed rows.
    pub open spec fn row_fixed(&self) -> bool {
        self.fixed_rows != 0 && self.fixed_rows + 1 < self.h
    }

    /// The last column on the screen, and whether all of it is there.
    pub open spec fn last_col(&self) -> (int, bool) {
        scan_cols(
            self.widths@,
            self.first_col as int,
            DEF_NUM_WIDTH + if self.col_fixed() { self.fixed_width() } else { 0 },
            self.w as int,
            self.first_col as int,
        )
    }

    /// The row behind the last one on the screen.
    pub open spec fn last_row(&self) -> int {
        self.first_row + self.rows()
    }

    /// The first column of the window that lets the cursor be seen.
    pub open spec fn visible_first_col(&self) -> int {
        let col = self.cursor.col as int;
        if col == self.first_col || (self.col_fixed() && col < self.fixed_cols) {
            self.first_col as int
        } else if col < self.first_col {
            col
        } else if col < self.last_col().0 || (col == self.last_col().0 && self.last_col().1) {
            self.first_col as int
        } else if width_of(self.widths@, col as u64) + self.fixed_width() + DEF_NUM_WIDTH
            >= self.w {
            col
        } else {
            scan_back(
                self.widths@,
                col - 1,
                width_of(self.widths@, col as u64) + self.fixed_width() + DEF_NUM_WIDTH,
                self.w as int,
                self.first_col as int,
            )
        }
    }

    /// The first row of the window that lets the cursor be seen.
    pub open spec fn visible_first_row(&self) -> int {
        let row = self.cursor.row as int;
        if row >= self.first_row + self.fixed_rows && row < self.last_row() {
            self.first_row as int
        } else if row >= self.last_row() {
            if self.rows() == 0 {
                row
            } else {
                row - self.rows() + 1
            }
        } else if self.fixed_rows == 0 || self.fixed_rows >= self.rows() {
            row
        } else if row < self.fixed_rows {
            self.first_row as int
        } else {
            row - self.fixed_rows
        }
    }

    /// The screen rows that the fixed rows take.
    pub fn fixed_row_height(&self) -> (r: usize)
        ensures
            r == self.fixed_rows,
    {
        self.fixed_rows
    }

    /// The screen columns that the fixed columns take.
    pub fn fixed_col_width(&self) -> (r: usize)
        requires
            self.fixed_cols <= MAX_FIXED_COLS,
        ensures
            r == self.fixed_width(),
    {
        let mut w: usize = 0;
        let mut col: usize = 0;
        while col < self.fixed_cols
            invariant
                col <= self.fixed_cols <= MAX_FIXED_COLS,
                w == sum_widths(self.widths@, col as int),
                w <= col * 65535,
            decreases self.fixed_cols - col,
        {
            w += self.col_width(col) as usize;
            col += 1;
        }
        w
    }

    /// Whether there is a band of fixed columns.
    pub fn is_col_fixed(&self) -> (r: bool)
        requires
            self.fixed_cols <= MAX_FIXED_COLS,
        ensures
            r == self.col_fixed(),
    {
        proof {
            lemma_sum_widths_bound(self.widths@, self.fixed_cols as int);
        }
        self.fixed_cols != 0 && self.fixed_col_width() + (DEF_NUM_WIDTH as usize) + 1
            < self.w as usize
    }

    /// Whether there is a band of fixed rows.
    pub fn is_row_fixed(&self) -> (r: bool)
        requires
            self.fixed_rows <= MAX_FIXED_ROWS,
        ensures
            r == self.row_fixed(),
    {
        self.fixed_rows != 0 && self.fixed_rows + 1 < self.h as usize
    }

    /// The last column on the screen, and whether all of it is there.
    pub fn last_visible_col(&self) -> (r: (usize, bool))
        requires
            self.wf(),
        ensures
            (r.0 as int, r.1) == self.last_col(),
            r.0 < MAX_COLS,
    {
        proof {
            lemma_sum_widths_bound(self.widths@, self.fixed_cols as int);
        }
        let mut colpos: usize = DEF_NUM_WIDTH as usize;
        if self.is_col_fixed() {
            colpos += self.fixed_col_width();
        }
        let w: usize = self.w as usize;
        let mut c: usize = self.first_col;
        while c < MAX_COLS
            invariant
                self.first_col <= c < MAX_COLS,
                colpos < w || c == self.first_col,
                w == self.w,
                colpos <= 65535 + 65535 * 200 + 5,
                self.last_col() == scan_cols(
                    self.widths@,
                    c as int,
                    colpos as int,
                    w as int,
                    self.first_col as int,
                ),
            decreases MAX_COLS - c,
        {
            let cwidth: usize = self.col_width(c) as usize;
            colpos += cwidth;
            if colpos >= w {
                return (c, colpos == w);
            }
            if c == MAX_COLS - 1 {
                return (MAX_COLS - 1, true);
            }
            c += 1;
        }
        (self.first_col, false)
    }

    /// The row behind the last one on the screen.
    pub fn last_visible_row(&self) -> (r: usize)
        requires
            self.first_row < MAX_ROWS,
        ensures
            r == self.last_row(),
    {
        let h: usize = if self.h == 0 { 0 } else { (self.h - 1) as usize };
        self.first_row + h
    }

    /// Moves the window, if it must, so that the column of the cursor is on
    /// the screen.
    pub fn ensure_visible_col(&mut self)
        requires
            old(self).wf(),
        ensures
            *final(self) == (Sheet {
                first_col: old(self).visible_first_col() as usize,
                ..*old(self)
            }),
            final(self).wf(),
    {
        proof {
            lemma_sum_widths_bound(self.widths@, self.fixed_cols as int);
        }
        let w: usize = self.w as usize;
        let col: usize = self.cursor.col;
        let has_fixed = self.is_col_fixed();
        if col == self.first_col || (has_fixed && col < self.fixed_cols) {
            return ;
        }
        if col < self.first_col {
            self.first_col = col;
            return ;
        }
        let (last, full) = self.last_visible_col();
        if col < last || (col == last && full) {
            return ;
        }
        let cwidth: usize = self.col_width(col) as usize;
        let mut filled: usize = cwidth + self.fixed_col_width() + DEF_NUM_WIDTH as usize;
        if filled >= w {
            self.first_col = col;
            return ;
        }
        let mut cid: usize = col;
        while cid > 0
            invariant
                cid <= col < MAX_COLS,
                filled <= w <= 65535,
                *self == *old(self),
                old(self).wf(),
                scan_back(
                    self.widths@,
                    cid - 1,
                    filled as int,
                    w as int,
                    self.first_col as int,
                ) == old(self).visible_first_col(),
            decreases cid,
        {
            cid -= 1;
            let cwidth: usize = self.col_width(cid) as usize;
            filled += cwidth;
            if filled > w {
                self.first_col = cid + 1;
                return ;
            }
        }
    }

    /// Moves the window, if it must, so that the row of the cursor is on the
    /// screen.
    pub fn ensure_visible_row(&mut self)
        requires
            old(self).wf(),
        ensures
            *final(self) == (Sheet {
                first_row: old(self).visible_first_row() as usize,
                ..*old(self)
            }),
            final(self).wf(),
    {
        let row: usize = self.cursor.row;
        let h: usize = if self.h == 0 { 0 } else { (self.h - 1) as usize };
        let first_visible: usize = self.first_row + self.fixed_rows;
        let last: usize = self.last_visible_row();
        if row >= first_visible && row < last {
            return ;
        }
        if row >= last {
            self.first_row = if h == 0 { row } else { row - h + 1 };
            return ;
        }
        if self.fixed_rows == 0 || self.fixed_rows >= h {
            self.first_row = row;
            return ;
        }
        if row < self.fixed_rows {
            return ;
        }
        self.first_row = row - self.fixed_rows;
    }
}

/// The directions of the arrow keys.
#[derive(Debug, Copy, Clone, PartialEq, Eq, Structural)]
pub enum MoveBy {
    Left,
    Right,
    Up,
    Down,
}

impl Sheet {
    /// The sheet with the window moved to the column of the cursor.
    pub open spec fn col_shown(self) -> Sheet {
        Sheet { first_col: self.visible_first_col() as usize, ..self }
    }

    /// The sheet with the window moved to the row of the cursor.
    pub open spec fn row_shown(self) -> Sheet {
        Sheet { first_row: self.visible_first_row() as usize, ..self }
    }

    /// The sheet with the cursor in another column.
    pub open spec fn with_col(self, col: int) -> Sheet {
        Sheet { cursor: Pos { col: col as usize, ..self.cursor }, ..self }
    }

    /// The sheet with the cursor in another row.
    pub open spec fn with_row(self, row: int) -> Sheet {
        Sheet { cursor: Pos { row: row as usize, ..self.cursor }, ..self }
    }

    /// The sheet after the cursor went one cell in a direction, as far as the
    /// grid goes. Going up at the edge of a band of fixed rows scrolls the
    /// window too.
    pub open spec fn stepped(self, dir: MoveBy) -> Sheet {
        match dir {
            MoveBy::Left => if self.cursor.col == 0 {
                self
            } else {
                self.with_col(self.cursor.col - 1).col_shown()
            },
            MoveBy::Right => if self.cursor.col == MAX_COLS - 1 {
                self
            } else {
                self.with_col(self.cursor.col + 1).col_shown()
            },
            MoveBy::Up => if self.cursor.row == 0 {
                self
            } else if self.fixed_rows == 0 || self.fixed_rows >= self.rows() || self.cursor.row
                > self.first_row + self.fixed_rows || self.first_row == 0 {
                self.with_row(self.cursor.row - 1).row_shown()
            } else {
                (Sheet { first_row: (self.first_row - 1) as usize, ..self }).with_row(
                    self.cursor.row - 1,
                ).row_shown()
            },
            MoveBy::Down => if self.cursor.row == MAX_ROWS - 1 {
                self
            } else {
                self.with_row(self.cursor.row + 1).row_shown()
            },
        }
    }

    /// The sheet with a selection begun at the cursor.
    pub open spec fn select_started(self, tp: SelectType) -> Sheet {
        Sheet {
            mode: if self.mode == CalcMode::Move {
                CalcMode::Select
            } else {
                CalcMode::TempSelectStart
            },
            select_start: Some(Pos::spec_new(self.cursor.col, self.cursor.row)),
            select_end: None,
            select_type: tp,
            ..self
        }
    }

    /// The sheet with the selection dropped.
    pub open spec fn select_cancelled(self) -> Sheet {
        Sheet {
            mode: if self.mode == CalcMode::TempSelectStart {
                CalcMode::Edit
            } else {
                CalcMode::Move
            },
            select_start: None,
            select_end: None,
            ..self
        }
    }

    /// The sheet after an arrow key. Without a modifier a selection that was
    /// begun with the shift key ends; with the shift key one begins unless
    /// one is going on. With other modifiers the key is not for the sheet.
    pub open spec fn arrowed(self, dir: MoveBy, md: Modifiers) -> (Sheet, Transition) {
        match md {
            Modifiers::Plain => (
                (if self.select_start is Some && self.select_end is None && self.select_type
                    != SelectType::V {
                    self.select_cancelled()
                } else {
                    self
                }).stepped(dir),
                Transition::Nothing,
            ),
            Modifiers::Shift => (
                (if self.select_start is None || self.select_end is Some || self.select_type
                    == SelectType::V {
                    self.select_started(SelectType::Shift)
                } else {
                    self
                }).stepped(dir),
                Transition::Nothing,
            ),
            Modifiers::Other => (self, Transition::EventPass),
        }
    }

    /// The rows that a page key goes.
    pub open spec fn page(self) -> int {
        if self.row_fixed() {
            self.rows() - self.fixed_rows
        } else {
            self.rows()
        }
    }

    fn step(&mut self, dir: MoveBy)
        requires
            old(self).wf(),
        ensures
            *final(self) == old(self).stepped(dir),
            final(self).wf(),
    {
        match dir {
            MoveBy::Left => {
                if self.cursor.col == 0 {
                    return ;
                }
                self.cursor.col -= 1;
                self.ensure_visible_col();
            },
            MoveBy::Right => {
                if self.cursor.col == MAX_COLS - 1 {
                    return ;
                }
                self.cursor.col += 1;
                self.ensure_visible_col();
            },
            MoveBy::Up => {
                if self.cursor.row == 0 {
                    return ;
                }
                let h: usize = if self.h == 0 { 0 } else { (self.h - 1) as usize };
                if self.fixed_rows == 0 || self.fixed_row_height() >= h || self.cursor.row
                    > self.first_row + self.fixed_rows {
                    self.cursor.row -= 1;
                    self.ensure_visible_row();
                    return ;
                }
                if self.first_row > 0 {
                    self.first_row -= 1;
                }
                self.cursor.row -= 1;
                self.ensure_visible_row();
            },
            MoveBy::Down => {
                if self.cursor.row == MAX_ROWS - 1 {
                    return ;
                }
                self.cursor.row += 1;
                self.ensure_visible_row();
            },
        }
    }

    fn arrow(&mut self, dir: MoveBy, md: Modifiers) -> (r: Transition)
        requires
            old(self).wf(),
        ensures
            (*final(self), r) == old(self).arrowed(dir, md),
            final(self).wf(),
    {
        match md {
            Modifiers::Plain => {
                if self.select_start.is_some() && self.select_end.is_none() && !self.is_select_v() {
                    self.cancel_select();
                }
                self.step(dir);
                Transition::Nothing
            },
            Modifiers::Shift => {
                if self.select_start.is_none() || self.select_end.is_some() || self.is_select_v() {
                    self.start_select(SelectType::Shift);
                }
                self.step(dir);
                Transition::Nothing
            },
            Modifiers::Other => Transition::EventPass,
        }
    }

    /// The left arrow key.
    pub fn arrow_left(&mut self, md: Modifiers) -> (r: Transition)
        requires
            old(self).wf(),
        ensures
            (*final(self), r) == old(self).arrowed(MoveBy::Left, md),
            final(self).wf(),
    {
        self.arrow(MoveBy::Left, md)
    }

    /// The right arrow key.
    pub fn arrow_right(&mut self, md: Modifiers) -> (r: Transition)
        requires
            old(self).wf(),
        ensures
            (*final(self), r) == old(self).arrowed(MoveBy::Right, md),
            final(self).wf(),
    {
        self.arrow(MoveBy::Right, md)
    }

    /// The down arrow key.
    pub fn arrow_down(&mut self, md: Modifiers) -> (r: Transition)
        requires
            old(self).wf(),
        ensures
            (*final(self), r) == old(self).arrowed(MoveBy::Down, md),
            final(self).wf(),
    {
        self.arrow(MoveBy::Down, md)
    }

    /// The up arrow key.
    pub fn arrow_up(&mut self, md: Modifiers) -> (r: Transition)
        requires
            old(self).wf(),
        ensures
            (*final(self), r) == old(self).arrowed(MoveBy::Up, md),
            final(self).wf(),
    {
        self.arrow(MoveBy::Up, md)
    }

    /// The cursor goes to the first column, or to the first behind the band
    /// of fixed columns where it stands behind that.
    pub fn go_home(&mut self, md: Modifiers) -> (r: Transition)
        requires
            old(self).wf(),
        ensures
            final(self).wf(),
            md != Modifiers::Plain ==> r == Transition::EventPass && *final(self) == *old(self),
            md == Modifiers::Plain ==> r == Transition::Nothing && *final(self) == old(
                self,
            ).with_col(
                if old(self).col_fixed() && old(self).cursor.col > old(self).fixed_cols {
                    old(self).fixed_cols as int
                } else {
                    0
                },
            ).col_shown(),
    {
        match md {
            Modifiers::Plain => {
                if self.is_col_fixed() {
                    if self.cursor.col <= self.fixed_cols {
                        self.cursor.col = 0;
                    } else {
                        self.cursor.col = self.fixed_cols;
                    }
                } else {
                    self.cursor.col = 0;
                }
                self.ensure_visible_col();
                Transition::Nothing
            },
            _ => Transition::EventPass,
        }
    }

    /// The cursor goes to the greatest column that a cell was put in.
    pub fn go_end(&mut self, md: Modifiers) -> (r: Transition)
        requires
            old(self).wf(),
        ensures
            final(self).wf(),
            md != Modifiers::Plain ==> r == Transition::EventPass && *final(self) == *old(self),
            md == Modifiers::Plain ==> r == Transition::Nothing && *final(self) == old(
                self,
            ).with_col(old(self).max_col as int).col_shown(),
    {
        match md {
            Modifiers::Plain => {
                self.cursor.col = self.max_col;
                self.ensure_visible_col();
                Transition::Nothing
            },
            _ => Transition::EventPass,
        }
    }

    /// The cursor goes a page down: out of the band of fixed rows where it
    /// stands in it, else by the rows of the window, as far as the grid goes.
    pub fn page_down(&mut self, md: Modifiers) -> (r: Transition)
        requires
            old(self).wf(),
        ensures
            final(self).wf(),
            md != Modifiers::Plain ==> r == Transition::EventPass && *final(self) == *old(self),
            md == Modifiers::Plain ==> r == Transition::Nothing && *final(self) == (if old(
                self,
            ).row_fixed() && old(self).cursor.row < old(self).fixed_rows {
                old(self).with_row(old(self).fixed_rows as int).row_shown()
            } else if old(self).cursor.row >= MAX_ROWS - 1 {
                *old(self)
            } else if old(self).cursor.row + old(self).page() >= MAX_ROWS - 1 {
                old(self).with_row(MAX_ROWS - 1).row_shown()
            } else {
                old(self).with_row(old(self).cursor.row + old(self).page()).row_shown()
            }),
    {
        if md != Modifiers::Plain {
            return Transition::EventPass;
        }
        let has_fixed = self.is_row_fixed();
        let h: usize = if self.h == 0 { 0 } else { (self.h - 1) as usize };
        let shift: usize = if has_fixed { h - self.fixed_rows } else { h };
        if has_fixed && self.cursor.row < self.fixed_rows {
            self.cursor.row = self.fixed_rows;
        } else if self.cursor.row >= MAX_ROWS - 1 {
            return Transition::Nothing;
        } else if self.cursor.row + shift >= MAX_ROWS - 1 {
            self.cursor.row = MAX_ROWS - 1;
        } else {
            self.cursor.row += shift;
        }
        self.ensure_visible_row();
        Transition::Nothing
    }

    /// The cursor goes a page up: to the edge of the band of fixed rows where
    /// it would go into it, else by the rows of the window, as far as the
    /// grid goes.
    pub fn page_up(&mut self, md: Modifiers) -> (r: Transition)
        requires
            old(self).wf(),
        ensures
            final(self).wf(),
            md != Modifiers::Plain ==> r == Transition::EventPass && *final(self) == *old(self),
            md == Modifiers::Plain ==> r == Transition::Nothing && *final(self) == (if old(
                self,
            ).row_fixed() && old(self).cursor.row > old(self).fixed_rows && old(self).fixed_rows
                + old(self).page() > old(self).cursor.row {
                old(self).with_row(old(self).fixed_rows as int).row_shown()
            } else if old(self).cursor.row <= old(self).page() {
                old(self).with_row(0).row_shown()
            } else {
                old(self).with_row(old(self).cursor.row - old(self).page()).row_shown()
            }),
    {
        if md != Modifiers::Plain {
            return Transition::EventPass;
        }
        let has_fixed = self.is_row_fixed();
        let h: usize = if self.h == 0 { 0 } else { (self.h - 1) as usize };
        let shift: usize = if has_fixed { h - self.fixed_rows } else { h };
        if has_fixed && self.cursor.row > self.fixed_rows && self.fixed_rows + shift
            > self.cursor.row {
            self.cursor.row = self.fixed_rows;
        } else if self.cursor.row <= shift {
            self.cursor.row = 0;
        } else {
            self.cursor.row -= shift;
        }
        self.ensure_visible_row();
        Transition::Nothing
    }

    /// Fixes the first `row` rows. More than a thousand are refused, and so
    /// is a band that would leave nothing of the window; the sheet then
    /// stays as it was.
    pub fn fix_row(&mut self, row: usize) -> (r: Result<(), Error>)
        requires
            old(self).wf(),
        ensures
            final(self).wf(),
            match r {
                Ok(_) => row <= MAX_FIXED_ROWS && row < old(self).h && *final(self) == (Sheet {
                    fixed_rows: row,
                    ..*old(self)
                }).row_shown(),
                Err(e) => e == Error::TooManyFixed && (row > MAX_FIXED_ROWS || row >= old(self).h)
                    && *final(self) == *old(self),
            },
    {
        if row > MAX_FIXED_ROWS {
            return Err(Error::TooManyFixed);
        }
        if row >= self.h as usize {
            return Err(Error::TooManyFixed);
        }
        self.fixed_rows = row;
        self.ensure_visible_row();
        Ok(())
    }

    /// Fixes no row.
    pub fn unfix_row(&mut self)
        ensures
            *final(self) == (Sheet { fixed_rows: 0, ..*old(self) }),
    {
        self.fixed_rows = 0;
    }

    /// Fixes the first `col` columns, and lets the window begin behind them.
    /// More than two hundred are refused, and so is a band as wide as the
    /// window or wider; the sheet then stays as it was.
    pub fn fix_col(&mut self, col: usize) -> (r: Result<(), Error>)
        requires
            old(self).wf(),
        ensures
            final(self).wf(),
            match r {
                Ok(_) => col <= MAX_FIXED_COLS && sum_widths(old(self).widths@, col as int) < old(
                    self,
                ).w && *final(self) == (Sheet {
                    fixed_cols: col,
                    first_col: col,
                    ..*old(self)
                }).col_shown(),
                Err(e) => e == Error::TooManyFixed && (col > MAX_FIXED_COLS || sum_widths(
                    old(self).widths@,
                    col as int,
                ) >= old(self).w) && *final(self) == *old(self),
            },
    {
        if col > MAX_FIXED_COLS {
            return Err(Error::TooManyFixed);
        }
        let before: usize = self.fixed_cols;
        self.fixed_cols = col;
        if self.fixed_col_width() >= self.w as usize {
            self.fixed_cols = before;
            return Err(Error::TooManyFixed);
        }
        self.first_col = col;
        self.ensure_visible_col();
        Ok(())
    }

    /// Fixes no column.
    pub fn unfix_col(&mut self)
        ensures
            *final(self) == (Sheet { fixed_cols: 0, ..*old(self) }),
    {
        self.fixed_cols = 0;
    }

    /// Makes a column `delta` screen columns wider. A width below the least
    /// or above the greatest is refused, and nothing changes.
    pub fn resize_col(&mut self, col: usize, delta: i16)
        ensures
            ({
                let width = width_of(old(self).widths@, col as u64) + delta;
                if width < MIN_COL_WIDTH || width > MAX_COL_WIDTH {
                    *final(self) == *old(self)
                } else {
                    final(self).widths@ == old(self).widths@.insert(col as u64, width as u16)
                        && final(self).dirty && final(self).cells == old(self).cells
                        && final(self).same_but_widths(old(self))
                }
            }),
    {
        let curr: i32 = self.col_width(col) as i32 + delta as i32;
        if curr < MIN_COL_WIDTH as i32 || curr > MAX_COL_WIDTH as i32 {
            return ;
        }
        self.widths.insert(col as u64, curr as u16);
        self.dirty = true;
    }

    /// Whether two sheets differ in nothing but the widths of their columns,
    /// their cells and the flag that tells a change.
    pub open spec fn same_but_widths(&self, other: &Sheet) -> bool {
        &&& self.name == other.name
        &&& self.first_row == other.first_row
        &&& self.first_col == other.first_col
        &&& self.cursor == other.cursor
        &&& self.fixed_rows == other.fixed_rows
        &&& self.fixed_cols == other.fixed_cols
        &&& self.select_start == other.select_start
        &&& self.select_end == other.select_end
        &&& self.select_type == other.select_type
        &&& self.mode == other.mode
        &&& self.h == other.h
        &&& self.w == other.w
        &&& self.yanked == other.yanked
        &&& self.max_col == other.max_col
        &&& self.max_row == other.max_row
    }
}

/// The greatest number of screen columns that the cells of a column take in
/// the rows from `row` to `last`, but no more than the greatest width of a
/// column; `acc` is the greatest so far.
pub open spec fn widest(
    cells: Map<u64, CellView>,
    col: int,
    row: int,
    last: int,
    acc: int,
    t: Table,
) -> Result<int, Halt>
    decreases last - row + 1,
{
    if row > last {
        Ok(acc)
    } else if cells.contains_key(key_of(col, row) as u64) {
        match cells[key_of(col, row) as u64].title(t) {
            Err(h) => Err(h),
            Ok(s) => {
                let m = if str_columns(s) > acc { str_columns(s) as int } else { acc };
                if m > MAX_COL_WIDTH {
                    Ok(MAX_COL_WIDTH as int)
                } else {
                    widest(cells, col, row + 1, last, m, t)
                }
            },
        }
    } else {
        widest(cells, col, row + 1, last, acc, t)
    }
}

impl Sheet {
    /// Makes a column as wide as the widest of its cells is shown, within the
    /// least and the greatest width. The width is set, and the sheet marked
    /// as changed, only where it differs from the one that the column has.
    pub fn autosize_col(&mut self, col: usize, numbers: &Numerics) -> (r: Result<(), Stop>)
        requires
            old(self).wf(),
            col < MAX_COLS,
        ensures
            final(self).wf(),
            match widest(grid(old(self).cells@), col as int, 0, old(self).max_row as int, 0, numbers@) {
                Err(h) => r matches Err(e) && e@ == h && *final(self) == *old(self),
                Ok(m) => {
                    let mx = if m < MIN_COL_WIDTH { MIN_COL_WIDTH as int } else { m };
                    &&& r is Ok
                    &&& if width_of(old(self).widths@, col as u64) == mx {
                        *final(self) == *old(self)
                    } else {
                        final(self).widths@ == old(self).widths@.insert(col as u64, mx as u16)
                            && final(self).dirty && final(self).cells == old(self).cells
                            && final(self).same_but_widths(old(self))
                    }
                },
            },
    {
        let mut mx: usize = 0;
        let mut row: usize = 0;
        let last: usize = self.max_row;
        let ghost g = grid(self.cells@);
        let ghost goal = widest(g, col as int, 0, last as int, 0, numbers@);
        let mut full = false;
        while row <= last && !full
            invariant
                row <= last + 1,
                last == self.max_row < MAX_ROWS,
                col < MAX_COLS,
                mx <= MAX_COL_WIDTH,
                *self == *old(self),
                old(self).wf(),
                g == grid(self.cells@),
                goal == widest(g, col as int, 0, last as int, 0, numbers@),
                !full ==> goal == widest(g, col as int, row as int, last as int, mx as int, numbers@),
                full ==> goal == Ok::<int, Halt>(MAX_COL_WIDTH as int) && mx == MAX_COL_WIDTH,
            decreases last + 1 - row + if full { 0int } else { 1int },
        {
            let id = pos_to_id(col, row);
            match self.cells.get(&id) {
                Some(cell) => {
                    assert(g[id] == cell@);
                    let title = match cell.title(numbers) {
                        Err(e) => {
                            return Err(e);
                        },
                        Ok(t) => t,
                    };
                    let w: usize = str_width(title.as_str());
                    if w > mx {
                        mx = w;
                    }
                    if mx > MAX_COL_WIDTH as usize {
                        mx = MAX_COL_WIDTH as usize;
                        full = true;
                    } else {
                        row += 1;
                    }
                },
                None => {
                    row += 1;
                },
            }
        }
        if mx < MIN_COL_WIDTH as usize {
            mx = MIN_COL_WIDTH as usize;
        }
        let w_old = self.col_width(col);
        if w_old as usize != mx {
            self.widths.insert(col as u64, mx as u16);
            self.dirty = true;
        }
        Ok(())
    }
}

} // verus!
