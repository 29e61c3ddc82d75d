//! Copying cells: formulas are rewritten so that their references move with
//! them.
use vstd::prelude::*;
use vstd::string::StringExecFns;
use std::collections::BTreeMap;
use crate::error::{Halt, Stop};
use crate::expr::lemma_grid_insert;
use crate::keys::{increasing, sorted_keys};
use crate::number::{Numerics, Table};
use crate::ops::{expr_of, key_of, moved, pos_to_id, Arg, Pos, Token};
use crate::parse::{arg_at, arg_in, lemma_arg_bounds, lemma_span, span, Class, MAX_COLS, MAX_ROWS};
use crate::sheet::{grid, Cell, CellView};
use crate::text::{chars_of, string_of};

verus! {

/// A token with its range, if it is one, moved.
pub open spec fn shifted_token(tok: Token, dcol: isize, drow: isize) -> Token {
    match tok {
        Token::Rng(sheet, v) => Token::Rng(sheet, v.map_values(|p: Pos| moved(p, dcol, drow))),
        other => other,
    }
}

/// The text of a formula from `i` on with every reference moved: the tokens
/// are written again, the whitespace between them is kept. `None` where the
/// text cannot be split into tokens.
pub open spec fn moved_body(s: Seq<char>, i: int, dcol: isize, drow: isize, t: Table) -> Result<
    Option<Seq<char>>,
    Halt,
>
    decreases s.len() - i,
    when 0 <= i <= s.len()
    via moved_body_decreases
{
    if i >= s.len() {
        Ok(Some(Seq::empty()))
    } else {
        let j = span(s, Class::White, i);
        match arg_at(s, j, t) {
            Err(Halt::Unanswered(q)) => Err(Halt::Unanswered(q)),
            Err(Halt::Failed(_)) => Ok(None),
            Ok((tok, e)) => if tok is End {
                Ok(Some(s.subrange(i, j)))
            } else {
                match expr_of(shifted_token(tok, dcol, drow), t) {
                    Err(h) => Err(h),
                    Ok(text) => match moved_body(s, e, dcol, drow, t) {
                        Err(h) => Err(h),
                        Ok(None) => Ok(None),
                        Ok(Some(rest)) => Ok(Some(s.subrange(i, j) + text + rest)),
                    },
                }
            },
        }
    }
}

#[via_fn]
proof fn moved_body_decreases(s: Seq<char>, i: int, dcol: isize, drow: isize, t: Table) {
    lemma_span(s, Class::White, i);
    lemma_arg_bounds(s, span(s, Class::White, i), t);
}

/// A formula with every reference moved by `dcol` columns and `drow` rows,
/// but for the anchored axes. A formula that cannot be split into tokens
/// stays as it is.
pub open spec fn moved_formula(s: Seq<char>, dcol: isize, drow: isize, t: Table) -> Result<
    Seq<char>,
    Halt,
> {
    match moved_body(s, 1, dcol, drow, t) {
        Err(h) => Err(h),
        Ok(None) => Ok(s),
        Ok(Some(body)) => Ok(seq!['='] + body),
    }
}

/// What the rest of a formula adds to the text written so far.
pub open spec fn moved_after(out: Seq<char>, rest: Result<Option<Seq<char>>, Halt>) -> Result<
    Option<Seq<char>>,
    Halt,
> {
    match rest {
        Err(h) => Err(h),
        Ok(None) => Ok(None),
        Ok(Some(r)) => Ok(Some(out + r)),
    }
}

/// A result that is a text, as a plain value.
pub open spec fn text_result(r: Result<String, Stop>) -> Result<Seq<char>, Halt> {
    match r {
        Ok(s) => Ok(s@),
        Err(e) => Err(e@),
    }
}

/// Rewrites a formula, which begins with `=`, for a place that lies `dcol`
/// columns and `drow` rows from its own.
pub fn move_expression(expr: &str, dcol: isize, drow: isize, numbers: &Numerics) -> (r: Result<
    String,
    Stop,
>)
    requires
        expr@.len() >= 1,
    ensures
        text_result(r) == moved_formula(expr@, dcol, drow, numbers@),
{
    let v = chars_of(expr);
    let mut body = String::new();
    let mut i: usize = 1;
    proof {
        let all = moved_body(v@, 1, dcol, drow, numbers@);
        match all {
            Ok(Some(b)) => {
                assert(Seq::<char>::empty() + b =~= b);
            },
            _ => {},
        }
    }
    loop
        invariant
            1 <= i <= v@.len(),
            v@ == expr@,
            moved_body(v@, 1, dcol, drow, numbers@) == moved_after(
                body@,
                moved_body(v@, i as int, dcol, drow, numbers@),
            ),
        decreases v@.len() - i,
    {
        if i >= v.len() {
            assert(body@ + Seq::<char>::empty() =~= body@);
            let mut out = String::new();
            out.push('=');
            out.append(body.as_str());
            assert(out@ =~= seq!['='] + body@);
            return Ok(out);
        }
        let j = crate::stack::skip_spaces(&v, i);
        let ghost before = body@;
        match arg_in(&v, j, numbers) {
            Err(Stop::Unanswered(q)) => {
                return Err(Stop::Unanswered(q));
            },
            Err(Stop::Failed(_)) => {
                return Ok(expr.to_owned());
            },
            Ok((mut a, e)) => {
                let spaces = string_of(&v, i, j);
                body.append(spaces.as_str());
                if let Arg::End = a {
                    let mut out = String::new();
                    out.push('=');
                    out.append(body.as_str());
                    assert(out@ =~= seq!['='] + (before + v@.subrange(i as int, j as int)));
                    return Ok(out);
                }
                let ghost tok = a@;
                a.move_by(dcol, drow);
                assert(a@ == shifted_token(tok, dcol, drow));
                let text = match a.to_expr(numbers) {
                    Err(e) => {
                        return Err(e);
                    },
                    Ok(t) => t,
                };
                body.append(text.as_str());
                proof {
                    let rest = moved_body(v@, e as int, dcol, drow, numbers@);
                    match rest {
                        Ok(Some(r)) => {
                            assert(before + (v@.subrange(i as int, j as int) + text@ + r) =~= (before
                                + v@.subrange(i as int, j as int) + text@) + r);
                        },
                        _ => {},
                    }
                }
                i = e;
            },
        }
    }
}

/// Whether the key is that of a place in the rectangle from column `c0` and
/// row `r0` to column `c1` and row `r1`.
pub open spec fn in_rect(k: u64, c0: int, r0: int, c1: int, r1: int) -> bool {
    c0 <= k % 100000 <= c1 && r0 <= k / 100000 <= r1
}

/// The cells of a rectangle.
pub open spec fn copied(cells: Map<u64, CellView>, c0: int, r0: int, c1: int, r1: int) -> Map<
    u64,
    CellView,
> {
    Map::new(|k: u64| cells.contains_key(k) && in_rect(k, c0, r0, c1, r1), |k: u64| cells[k])
}

/// The cells without those of a rectangle.
pub open spec fn cleared(cells: Map<u64, CellView>, c0: int, r0: int, c1: int, r1: int) -> Map<
    u64,
    CellView,
> {
    Map::new(|k: u64| cells.contains_key(k) && !in_rect(k, c0, r0, c1, r1), |k: u64| cells[k])
}

fn key_in_rect(k: u64, c0: usize, r0: usize, c1: usize, r1: usize) -> (r: bool)
    ensures
        r == in_rect(k, c0 as int, r0 as int, c1 as int, r1 as int),
{
    let col: u64 = k % 100000;
    let row: u64 = k / 100000;
    c0 as u64 <= col && col <= c1 as u64 && r0 as u64 <= row && row <= r1 as u64
}

/// Copies the cells of a rectangle.
pub fn copy_rect(cells: &BTreeMap<u64, Cell>, c0: usize, r0: usize, c1: usize, r1: usize) -> (r:
    BTreeMap<u64, Cell>)
    ensures
        grid(r@) == copied(grid(cells@), c0 as int, r0 as int, c1 as int, r1 as int),
{
    let keys = sorted_keys(cells);
    let mut out: BTreeMap<u64, Cell> = BTreeMap::new();
    let mut i: usize = 0;
    while i < keys.len()
        invariant
            i <= keys@.len(),
            keys@.to_set() == cells@.dom(),
            forall|k: u64| #[trigger]
                out@.contains_key(k) <==> (exists|j: int| 0 <= j < i && keys@[j] == k) && in_rect(
                    k,
                    c0 as int,
                    r0 as int,
                    c1 as int,
                    r1 as int,
                ),
            forall|k: u64| #[trigger] out@.contains_key(k) ==> out@[k]@ == cells@[k]@,
        decreases keys@.len() - i,
    {
        let k: u64 = keys[i];
        assert(keys@.to_set().contains(k));
        if key_in_rect(k, c0, r0, c1, r1) {
            match cells.get(&k) {
                Some(cell) => {
                    out.insert(k, cell.clone());
                },
                None => {},
            }
        }
        i += 1;
    }
    proof {
        let a = grid(out@);
        let b = copied(grid(cells@), c0 as int, r0 as int, c1 as int, r1 as int);
        assert forall|k: u64| a.contains_key(k) <==> b.contains_key(k) by {
            if b.contains_key(k) {
                assert(keys@.to_set().contains(k));
                let j = choose|j: int| 0 <= j < keys@.len() && keys@[j] == k;
                assert(0 <= j < i && keys@[j] == k);
            }
        }
        assert(a =~= b);
    }
    out
}

/// Removes the cells of a rectangle.
pub fn clear_rect(cells: &mut BTreeMap<u64, Cell>, c0: usize, r0: usize, c1: usize, r1: usize)
    ensures
        grid(final(cells)@) == cleared(grid(old(cells)@), c0 as int, r0 as int, c1 as int, r1 as int),
        final(cells)@.dom().subset_of(old(cells)@.dom()),
{
    let keys = sorted_keys(cells);
    let mut i: usize = 0;
    while i < keys.len()
        invariant
            i <= keys@.len(),
            keys@.to_set() == old(cells)@.dom(),
            forall|k: u64| #[trigger]
                cells@.contains_key(k) <==> old(cells)@.contains_key(k) && !((exists|j: int|
                    0 <= j < i && keys@[j] == k) && in_rect(
                    k,
                    c0 as int,
                    r0 as int,
                    c1 as int,
                    r1 as int,
                )),
            forall|k: u64| #[trigger] cells@.contains_key(k) ==> cells@[k] == old(cells)@[k],
        decreases keys@.len() - i,
    {
        let k: u64 = keys[i];
        if key_in_rect(k, c0, r0, c1, r1) {
            cells.remove(&k);
        }
        i += 1;
    }
    proof {
        let a = grid(cells@);
        let b = cleared(grid(old(cells)@), c0 as int, r0 as int, c1 as int, r1 as int);
        assert forall|k: u64| a.contains_key(k) <==> b.contains_key(k) by {
            if old(cells)@.contains_key(k) && in_rect(k, c0 as int, r0 as int, c1 as int, r1 as int) {
                assert(keys@.to_set().contains(k));
                let j = choose|j: int| 0 <= j < keys@.len() && keys@[j] == k;
                assert(0 <= j < i && keys@[j] == k);
            }
        }
        assert(a =~= b);
    }
}

/// A copied cell as it is pasted `dcol` columns and `drow` rows from its
/// place: a formula is rewritten and has no value yet.
pub open spec fn pasted_cell(c: CellView, dcol: isize, drow: isize, t: Table) -> Result<
    CellView,
    Halt,
> {
    if !c.is_expr() {
        Ok(c)
    } else {
        match moved_formula(c.val, dcol, drow, t) {
            Err(h) => Err(h),
            Ok(text) => Ok(CellView { val: text, calculated: Token::End, ..c }),
        }
    }
}

/// Where a copy is pasted: the rectangle that was copied, and the place that
/// its top left corner goes to.
pub struct Pasting {
    pub c0: int,
    pub r0: int,
    pub c1: int,
    pub r1: int,
    pub col: int,
    pub row: int,
}

impl Pasting {
    /// The column that the cell with the key `k` goes to.
    pub open spec fn dest_col(self, k: u64) -> int {
        k % 100000 - self.c0 + self.col
    }

    /// The row that the cell with the key `k` goes to.
    pub open spec fn dest_row(self, k: u64) -> int {
        k / 100000 - self.r0 + self.row
    }

    /// Whether the cell with the key `k` was copied and goes to a place on
    /// the grid.
    pub open spec fn takes(self, k: u64) -> bool {
        in_rect(k, self.c0, self.r0, self.c1, self.r1) && self.dest_col(k) < MAX_COLS
            && self.dest_row(k) < MAX_ROWS
    }

    /// The columns that the copy goes to the right.
    pub open spec fn dcol(self) -> isize {
        (self.col - self.c0) as isize
    }

    /// The rows that the copy goes down.
    pub open spec fn drow(self) -> isize {
        (self.row - self.r0) as isize
    }

    /// Whether the rectangle and the place are on the grid.
    pub open spec fn wf(self) -> bool {
        &&& 0 <= self.c0 <= self.c1 < MAX_COLS
        &&& 0 <= self.r0 <= self.r1 < MAX_ROWS
        &&& 0 <= self.col < MAX_COLS
        &&& 0 <= self.row < MAX_ROWS
    }
}

/// The cells after the copied cells with keys from `k` to `hi` were put in
/// their new places, in the order of the keys.
pub open spec fn paste_keys(
    cells: Map<u64, CellView>,
    values: Map<u64, CellView>,
    k: int,
    hi: int,
    p: Pasting,
    t: Table,
) -> Result<Map<u64, CellView>, Halt>
    decreases hi - k + 1,
{
    if k > hi {
        Ok(cells)
    } else if 0 <= k <= u64::MAX && values.contains_key(k as u64) && p.takes(k as u64) {
        match pasted_cell(values[k as u64], p.dcol(), p.drow(), t) {
            Err(h) => Err(h),
            Ok(c) => paste_keys(
                cells.insert(key_of(p.dest_col(k as u64), p.dest_row(k as u64)) as u64, c),
                values,
                k + 1,
                hi,
                p,
                t,
            ),
        }
    } else {
        paste_keys(cells, values, k + 1, hi, p, t)
    }
}

/// The cells after a paste: the rectangle that the copy goes to is cleared,
/// then the copied cells are put in their new places.
pub open spec fn pasted(
    cells: Map<u64, CellView>,
    values: Map<u64, CellView>,
    p: Pasting,
    t: Table,
) -> Result<Map<u64, CellView>, Halt> {
    paste_keys(
        cleared(cells, p.col, p.row, p.col + p.c1 - p.c0, p.row + p.r1 - p.r0),
        values,
        key_of(p.c0, p.r0),
        key_of(p.c1, p.r1),
        p,
        t,
    )
}

/// Copied cells that are not there change nothing.
pub proof fn lemma_paste_skip(
    cells: Map<u64, CellView>,
    values: Map<u64, CellView>,
    a: int,
    b: int,
    hi: int,
    p: Pasting,
    t: Table,
)
    requires
        a <= b <= hi + 1,
        forall|k: u64| a <= k < b ==> !#[trigger] values.contains_key(k),
    ensures
        paste_keys(cells, values, a, hi, p, t) == paste_keys(cells, values, b, hi, p, t),
    decreases b - a,
{
    if a < b {
        lemma_paste_skip(cells, values, a + 1, b, hi, p, t);
    }
}

/// The cells after a step that succeeded, or why it stopped.
pub open spec fn grid_result(r: Result<(), Stop>, cells: Map<u64, Cell>) -> Result<
    Map<u64, CellView>,
    Halt,
> {
    match r {
        Ok(_) => Ok(grid(cells)),
        Err(e) => Err(e@),
    }
}

fn paste_cell(cell: &Cell, dcol: isize, drow: isize, numbers: &Numerics) -> (r: Result<Cell, Stop>)
    ensures
        match r {
            Ok(c) => pasted_cell(cell@, dcol, drow, numbers@) == Ok::<_, Halt>(c@),
            Err(e) => pasted_cell(cell@, dcol, drow, numbers@) == Err::<CellView, _>(e@),
        },
{
    let mut clone = cell.clone();
    if !clone.is_expr() {
        return Ok(clone);
    }
    let expr = move_expression(cell.val.as_str(), dcol, drow, numbers)?;
    clone.val = expr;
    clone.calculated = Arg::End;
    Ok(clone)
}

/// Puts copied cells in their new places. `c0`, `r0`, `c1`, `r1` are the
/// corners of the rectangle that was copied, `col`, `row` the place that its
/// top left corner goes to.
pub fn paste_rect(
    cells: &mut BTreeMap<u64, Cell>,
    values: &BTreeMap<u64, Cell>,
    c0: usize,
    r0: usize,
    c1: usize,
    r1: usize,
    col: usize,
    row: usize,
    numbers: &Numerics,
) -> (r: Result<(), Stop>)
    requires
        c0 <= c1 < MAX_COLS,
        r0 <= r1 < MAX_ROWS,
        col < MAX_COLS,
        row < MAX_ROWS,
        forall|k: u64| old(cells)@.contains_key(k) ==> crate::sheet::key_on_grid(k),
    ensures
        grid_result(r, final(cells)@) == pasted(
            grid(old(cells)@),
            grid(values@),
            Pasting {
                c0: c0 as int,
                r0: r0 as int,
                c1: c1 as int,
                r1: r1 as int,
                col: col as int,
                row: row as int,
            },
            numbers@,
        ),
        r is Ok ==> forall|k: u64| final(cells)@.contains_key(k) ==> crate::sheet::key_on_grid(k),
{
    let ghost p = Pasting {
        c0: c0 as int,
        r0: r0 as int,
        c1: c1 as int,
        r1: r1 as int,
        col: col as int,
        row: row as int,
    };
    let dcol: isize = (col as i64 - c0 as i64) as isize;
    let drow: isize = (row as i64 - r0 as i64) as isize;
    clear_rect(cells, col, row, col + (c1 - c0), row + (r1 - r0));
    let lo: u64 = pos_to_id(c0, r0);
    let hi: u64 = pos_to_id(c1, r1);
    assert(lo <= hi) by (nonlinear_arith)
        requires
            lo == r0 * 100000 + c0,
            hi == r1 * 100000 + c1,
            r0 <= r1,
            c0 <= c1 < 100000,
    ;
    let keys = sorted_keys(values);
    let ghost vals = grid(values@);
    let ghost goal = paste_keys(grid(cells@), vals, lo as int, hi as int, p, numbers@);
    let ghost mut pos: int = lo as int;
    let mut i: usize = 0;
    let mut past = false;
    proof {
        crate::expr::lemma_grid_finite(*values);
    }
    while i < keys.len() && !past
        invariant
            i <= keys@.len(),
            lo <= pos <= hi + 1,
            pos == lo || (i > 0 && pos == keys@[i - 1] + 1),
            past ==> i < keys@.len() && keys@[i as int] > hi,
            forall|j: int| 0 <= j < i ==> keys@[j] < pos,
            keys@.to_set() == values@.dom(),
            vals == grid(values@),
            vals.dom() == values@.dom(),
            increasing(keys@),
            p == (Pasting {
                c0: c0 as int,
                r0: r0 as int,
                c1: c1 as int,
                r1: r1 as int,
                col: col as int,
                row: row as int,
            }),
            p.wf(),
            dcol == p.dcol(),
            drow == p.drow(),
            forall|k: u64| cells@.contains_key(k) ==> crate::sheet::key_on_grid(k),
            goal == paste_keys(grid(cells@), vals, pos, hi as int, p, numbers@),
            goal == pasted(grid(old(cells)@), vals, p, numbers@),
        decreases keys@.len() - i + if past { 0int } else { 1int },
    {
        let k: u64 = keys[i];
        if k > hi {
            past = true;
            continue ;
        }
        if k >= lo {
            proof {
                assert forall|x: u64| pos <= x < k implies !#[trigger] vals.contains_key(x) by {
                    if vals.contains_key(x) {
                        assert(keys@.to_set().contains(x));
                        let j = choose|j: int| 0 <= j < keys@.len() && keys@[j] == x;
                        if j < i {
                        } else if j > i {
                        }
                    }
                }
                lemma_paste_skip(grid(cells@), vals, pos, k as int, hi as int, p, numbers@);
                assert(keys@.to_set().contains(k));
            }
            if key_in_rect(k, c0, r0, c1, r1) {
                let new_col: usize = (k % 100000) as usize - c0 + col;
                let new_row: usize = (k / 100000) as usize - r0 + row;
                if new_col < MAX_COLS && new_row < MAX_ROWS {
                    match values.get(&k) {
                        Some(cell) => {
                            assert(vals[k] == cell@);
                            let c = match paste_cell(cell, dcol, drow, numbers) {
                                Err(e) => {
                                    return Err(e);
                                },
                                Ok(c) => c,
                            };
                            let new_id = pos_to_id(new_col, new_row);
                            proof {
                                lemma_grid_insert(cells@, new_id, c);
                                crate::ops::lemma_key_round_trip(new_col as int, new_row as int);
                            }
                            cells.insert(new_id, c);
                        },
                        None => {},
                    }
                }
            }
            proof {
                pos = k + 1;
            }
        }
        i += 1;
    }
    proof {
        assert forall|x: u64| pos <= x < hi + 1 implies !#[trigger] vals.contains_key(x) by {
            if vals.contains_key(x) {
                assert(keys@.to_set().contains(x));
                let j = choose|j: int| 0 <= j < keys@.len() && keys@[j] == x;
                if j < i {
                } else if i < keys@.len() && j > i {
                }
            }
        }
        lemma_paste_skip(grid(cells@), vals, pos, hi + 1, hi as int, p, numbers@);
    }
    Ok(())
}

} // verus!
