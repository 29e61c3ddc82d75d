//! Recalculation: the value of a literal, the evaluation of one formula
//! cell, and the pass over all formula cells of a grid.
use vstd::prelude::*;
use std::collections::BTreeMap;
use crate::error::{Halt, Stop};
use crate::expr::{
    lemma_grid_finite, lemma_run_keeps, lemma_stored_same_texts, program, program_of, run,
    same_texts, store_result, stored, unvisited, value_view, Expr, State, IN_PROGRESS,
};
use crate::keys::{increasing, sorted_keys};
use crate::number::{Numerics, Table};
use crate::ops::{Arg, Token};
use crate::parse::{finite_number, number_at, parse_float};
use crate::sheet::{cell_at, cell_of, grid, Cell, CellView};
use crate::text::{skip_chars, str_eq};

verus! {

/// The text in capitals, as `str::to_uppercase` gives it.
pub uninterp spec fn uppercase(s: Seq<char>) -> Seq<char>;

/// `str::to_uppercase` depends on the text alone; its result is named
/// [`uppercase`].
pub assume_specification[ str::to_uppercase ](s: &str) -> (r: String)
    ensures
        r@ == uppercase(s@),
;

/// The value of a text that is no formula, where `caps` is the text in upper
/// case: nothing for the empty text, a boolean where `caps` is `TRUE` or
/// `FALSE`, a number where the whole text is a numeric literal, and the text
/// itself otherwise.
pub open spec fn literal_of(text: Seq<char>, caps: Seq<char>, t: Table) -> Result<Token, Halt> {
    if text.len() == 0 {
        Ok(Token::End)
    } else if caps == "TRUE"@ {
        Ok(Token::Bool(true))
    } else if caps == "FALSE"@ {
        Ok(Token::Bool(false))
    } else {
        match number_at(text, 0) {
            None => Ok(Token::Str(text)),
            Some((literal, e)) => match finite_number(t, literal) {
                Err(Halt::Unanswered(q)) => Err(Halt::Unanswered(q)),
                Err(Halt::Failed(_)) => Ok(Token::Str(text)),
                Ok(bits) => if e == text.len() {
                    Ok(Token::Number(bits))
                } else {
                    Ok(Token::Str(text))
                },
            },
        }
    }
}

/// The value of a text that is no formula: that of the text with its upper
/// case, so `TRUE` and `FALSE` are booleans in any case.
pub open spec fn literal_value(text: Seq<char>, t: Table) -> Result<Token, Halt> {
    literal_of(text, uppercase(text), t)
}

/// The value of a text that is no formula, from the text and the text in
/// upper case.
pub fn value_of_literal(text: &str, caps: &str, numbers: &Numerics) -> (r: Result<Arg, Stop>)
    ensures
        value_view(r) == literal_of(text@, caps@, numbers@),
{
    if text.unicode_len() == 0 {
        return Ok(Arg::End);
    }
    if str_eq(caps, "TRUE") {
        return Ok(Arg::Bool(true));
    } else if str_eq(caps, "FALSE") {
        return Ok(Arg::Bool(false));
    }
    match parse_float(text, numbers) {
        Err(Stop::Unanswered(q)) => Err(Stop::Unanswered(q)),
        Err(Stop::Failed(_)) => Ok(Arg::Str(text.to_owned())),
        Ok((rest, val)) => if rest.unicode_len() == 0 {
            Ok(Arg::Number(val))
        } else {
            Ok(Arg::Str(text.to_owned()))
        },
    }
}

/// The value of a text that is no formula.
pub fn parse_value(text: &str, numbers: &Numerics) -> (r: Result<Arg, Stop>)
    ensures
        value_view(r) == literal_value(text@, numbers@),
{
    let caps = text.to_uppercase();
    value_of_literal(text, caps.as_str(), numbers)
}

/// The state in which the formula of the cell at `key` is evaluated: nothing
/// is marked but the cell itself, which is being evaluated.
pub open spec fn entering(cells: Map<u64, CellView>, key: u64) -> State {
    State { cells: cells, cache: Map::<u64, u8>::empty().insert(key, IN_PROGRESS) }
}

/// The formula of the cell at `key` evaluated: the cells after it, in which
/// the formulas that it referred to have stored their outcomes, and its own
/// outcome.
pub open spec fn evaluated(cells: Map<u64, CellView>, key: u64, t: Table) -> (
    Map<u64, CellView>,
    Result<Token, Halt>,
) {
    match program_of(cell_at(cells, key).val.skip(1), t) {
        Err(h) => (cells, Err(h)),
        Ok(prog) => {
            let st = entering(cells, key);
            let (after, r) = run(st, prog, 0, Seq::empty(), t, unvisited(st));
            (after.cells, r)
        },
    }
}

/// The cells after the formula of the cell at `key` was evaluated and its
/// outcome stored, or the question that the table has no answer to.
pub open spec fn refreshed(cells: Map<u64, CellView>, key: u64, t: Table) -> Result<
    Map<u64, CellView>,
    Halt,
> {
    let (after, r) = evaluated(cells, key, t);
    match r {
        Err(Halt::Unanswered(q)) => Err(Halt::Unanswered(q)),
        _ => Ok(stored(after, key, r)),
    }
}

/// The cells after every formula cell with a key from `k` up to, but not
/// with, `limit` was evaluated again, in the order of the keys.
pub open spec fn recalculated(cells: Map<u64, CellView>, k: int, limit: int, t: Table) -> Result<
    Map<u64, CellView>,
    Halt,
>
    decreases limit - k,
{
    if k >= limit {
        Ok(cells)
    } else if 0 <= k <= u64::MAX && cells.contains_key(k as u64) && cells[k as u64].is_expr() {
        match refreshed(cells, k as u64, t) {
            Err(h) => Err(h),
            Ok(next) => recalculated(next, k + 1, limit, t),
        }
    } else {
        recalculated(cells, k + 1, limit, t)
    }
}

/// The cells after a step that succeeded, or why it stopped.
pub open spec fn cells_view(r: Result<(), Stop>, cells: Map<u64, Cell>) -> Result<
    Map<u64, CellView>,
    Halt,
> {
    match r {
        Ok(_) => Ok(grid(cells)),
        Err(e) => Err(e@),
    }
}

/// Evaluates the formula of the cell at `key`.
pub fn calc_expr(cells: &mut BTreeMap<u64, Cell>, key: u64, numbers: &Numerics) -> (r: Result<
    Arg,
    Stop,
>)
    requires
        old(cells)@.contains_key(key),
        old(cells)@[key]@.is_expr(),
    ensures
        (grid(final(cells)@), value_view(r)) == evaluated(grid(old(cells)@), key, numbers@),
        final(cells)@.dom() == old(cells)@.dom(),
{
    let cell = cell_of(cells, key);
    let ghost g = grid(cells@);
    let body = skip_chars(cell.val.as_str(), 1);
    let prog = match program(body, numbers) {
        Err(e) => {
            return Err(e);
        },
        Ok(p) => p,
    };
    let mut expr = Expr::default();
    expr.cache.insert(key, IN_PROGRESS);
    proof {
        lemma_grid_finite(*cells);
        assert(expr.state(cells@) == entering(g, key));
    }
    let r = expr.calculate_in(cells, prog.as_slice(), numbers);
    proof {
        lemma_grid_finite(*cells);
    }
    r
}

/// One more than the largest key.
pub open spec fn key_end() -> int {
    0x1_0000_0000_0000_0000
}

/// Keys that the grid does not hold are passed over.
pub proof fn lemma_recalc_skip(cells: Map<u64, CellView>, a: int, b: int, limit: int, t: Table)
    requires
        a <= b <= limit,
        forall|k: u64| a <= k < b ==> !#[trigger] cells.contains_key(k),
    ensures
        recalculated(cells, a, limit, t) == recalculated(cells, b, limit, t),
    decreases b - a,
{
    if a < b {
        lemma_recalc_skip(cells, a + 1, b, limit, t);
    }
}

/// Evaluates the formula of the cell at `key` and stores its outcome.
pub fn refresh(cells: &mut BTreeMap<u64, Cell>, key: u64, numbers: &Numerics) -> (r: Result<
    (),
    Stop,
>)
    requires
        old(cells)@.contains_key(key),
        old(cells)@[key]@.is_expr(),
    ensures
        cells_view(r, final(cells)@) == refreshed(grid(old(cells)@), key, numbers@),
        final(cells)@.dom() == old(cells)@.dom(),
{
    match calc_expr(cells, key, numbers) {
        Err(Stop::Unanswered(q)) => Err(Stop::Unanswered(q)),
        Ok(v) => {
            store_result(cells, key, Ok(v));
            Ok(())
        },
        Err(Stop::Failed(e)) => {
            store_result(cells, key, Err(e));
            Ok(())
        },
    }
}

/// Evaluates every formula cell again, in the order of the keys. Stops at
/// the first question that the table has no answer to.
pub fn recalc_cells(cells: &mut BTreeMap<u64, Cell>, numbers: &Numerics) -> (r: Result<(), Stop>)
    ensures
        cells_view(r, final(cells)@) == recalculated(grid(old(cells)@), 0, key_end(), numbers@),
        final(cells)@.dom() == old(cells)@.dom(),
{
    let keys = sorted_keys(cells);
    let ghost start = grid(cells@);
    let ghost mut pos: int = 0;
    let mut i: usize = 0;
    proof {
        lemma_grid_finite(*cells);
    }
    while i < keys.len()
        invariant
            i <= keys@.len(),
            0 <= pos <= key_end(),
            pos == 0 || (i > 0 && pos == keys@[i - 1] + 1),
            forall|j: int| 0 <= j < i ==> keys@[j] < pos,
            keys@.to_set() == cells@.dom(),
            cells@.dom() == old(cells)@.dom(),
            increasing(keys@),
            start == grid(old(cells)@),
            recalculated(start, 0, key_end(), numbers@) == recalculated(
                grid(cells@),
                pos,
                key_end(),
                numbers@,
            ),
        decreases keys@.len() - i,
    {
        let k: u64 = keys[i];
        let ghost g = grid(cells@);
        proof {
            lemma_grid_finite(*cells);
            assert forall|x: u64| pos <= x < k implies !#[trigger] g.contains_key(x) by {
                if g.contains_key(x) {
                    assert(keys@.to_set().contains(x));
                    let j = choose|j: int| 0 <= j < keys@.len() && keys@[j] == x;
                    if j < i {
                    } else if j > i {
                    }
                }
            }
            if i > 0 {
                assert(keys@[i - 1] < keys@[i as int]);
            }
            lemma_recalc_skip(g, pos, k as int, key_end(), numbers@);
            assert(keys@.to_set().contains(k));
        }
        let formula = match cells.get(&k) {
            Some(cell) => cell.is_expr(),
            None => false,
        };
        if formula {
            match refresh(cells, k, numbers) {
                Err(e) => {
                    return Err(e);
                },
                Ok(_) => {},
            }
        }
        proof {
            pos = k + 1;
        }
        i += 1;
    }
    proof {
        let g = grid(cells@);
        lemma_grid_finite(*cells);
        assert forall|x: u64| pos <= x < key_end() implies !#[trigger] g.contains_key(x) by {
            if g.contains_key(x) {
                assert(keys@.to_set().contains(x));
                let j = choose|j: int| 0 <= j < keys@.len() && keys@[j] == x;
                if j < i {
                }
            }
        }
        lemma_recalc_skip(g, pos, key_end(), key_end(), numbers@);
    }
    Ok(())
}

/// A recalculation stops only where the table lacks a number.
pub proof fn lemma_recalc_stops(cells: Map<u64, CellView>, k: int, limit: int, t: Table)
    ensures
        recalculated(cells, k, limit, t) matches Err(h) ==> h is Unanswered,
    decreases limit - k,
{
    if k < limit {
        if 0 <= k <= u64::MAX && cells.contains_key(k as u64) && cells[k as u64].is_expr() {
            if refreshed(cells, k as u64, t) is Ok {
                lemma_recalc_stops(refreshed(cells, k as u64, t)->Ok_0, k + 1, limit, t);
            }
        } else {
            lemma_recalc_stops(cells, k + 1, limit, t);
        }
    }
}


/// A recalculation changes neither where the cells are nor their texts.
pub proof fn lemma_refreshed_keeps(cells: Map<u64, CellView>, key: u64, t: Table)
    ensures
        refreshed(cells, key, t) matches Ok(next) ==> same_texts(cells, next),
{
    match program_of(cell_at(cells, key).val.skip(1), t) {
        Err(h) => {
            lemma_stored_same_texts(cells, key, Err::<Token, _>(h));
        },
        Ok(prog) => {
            let st = entering(cells, key);
            lemma_run_keeps(st, prog, 0, Seq::empty(), t, unvisited(st));
            let (after, r) = run(st, prog, 0, Seq::empty(), t, unvisited(st));
            lemma_stored_same_texts(after.cells, key, r);
        },
    }
}

/// A pass over the formulas changes neither where the cells are nor their texts.
pub proof fn lemma_recalc_keeps(cells: Map<u64, CellView>, k: int, limit: int, t: Table)
    ensures
        recalculated(cells, k, limit, t) matches Ok(next) ==> same_texts(cells, next),
    decreases limit - k,
{
    if k < limit {
        if 0 <= k <= u64::MAX && cells.contains_key(k as u64) && cells[k as u64].is_expr() {
            lemma_refreshed_keeps(cells, k as u64, t);
            match refreshed(cells, k as u64, t) {
                Ok(next) => {
                    lemma_recalc_keeps(next, k + 1, limit, t);
                },
                Err(_) => {},
            }
        } else {
            lemma_recalc_keeps(cells, k + 1, limit, t);
        }
    }
}

} // verus!
