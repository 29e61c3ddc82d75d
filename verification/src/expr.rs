//! The evaluator: a stack machine that runs a formula in postfix order and
//! resolves references to other cells on demand, which it evaluates once
//! each. A cache that tells which cells are being evaluated turns a circular
//! reference into an error.
use vstd::prelude::*;
use vstd::string::StringExecFns;
use std::collections::BTreeMap;
use std::collections::HashMap;
use crate::error::{code_of, Error, Halt, Stop};
use crate::number::{
    below, opposite, same, zero, Number, Numerics, Operator, Table, HUNDRED_BITS, ONE_BITS,
};
use crate::ops::{key_of, pos_to_id, tokens, Arg, Pos, Token, NEG_SIGN, POS_SIGN, UNINIT};
use crate::parse::{MAX_COLS, MAX_ROWS};
use crate::sheet::{cell_at, cell_of, grid, Cell, CellView, Sheet};
use crate::stack::{expr_to_stack, postfix, str_expr_to_vec, tokens_from};
use crate::text::{chars_of, str_eq};

verus! {

/// The cache's mark of a cell whose formula is being evaluated.
pub const IN_PROGRESS: u8 = 1;

/// The cache's mark of a cell whose formula has been evaluated.
pub const DONE: u8 = 2;

/// What an evaluation reads and changes: the cells, and the marks of the
/// cells whose formulas it has entered.
pub struct State {
    pub cells: Map<u64, CellView>,
    pub cache: Map<u64, u8>,
}

/// The keys that the cache marks as being evaluated or evaluated.
pub open spec fn marked(cache: Map<u64, u8>) -> Set<u64> {
    Set::new(|k: u64| cache.contains_key(k) && cache[k] != 0)
}

/// The number of cells that have no mark yet. No evaluation can nest deeper.
pub open spec fn unvisited(st: State) -> nat {
    st.cells.dom().difference(marked(st.cache)).len()
}

/// An evaluation keeps the places of the cells and takes no mark back.
pub open spec fn advances(a: State, b: State) -> bool {
    a.cells.dom() == b.cells.dom() && marked(a.cache).subset_of(marked(b.cache))
}

/// Whether a column and a row are on the grid.
pub open spec fn on_grid(col: usize, row: usize) -> bool {
    col < MAX_COLS && row < MAX_ROWS
}

/// A value as a number: nothing is zero, a text the number it denotes, a
/// boolean one or zero.
pub open spec fn to_number(a: Token, t: Table) -> Result<u64, Halt> {
    match a {
        Token::End => Ok(0),
        Token::Str(s) => if s.len() == 0 {
            Ok(0)
        } else {
            match t.parse(s) {
                Err(h) => Err(h),
                Ok(Some(n)) => Ok(n),
                Ok(None) => Err(Halt::Failed(Error::NotNumber)),
            }
        },
        Token::Number(n) => Ok(n),
        Token::Bool(b) => Ok(if b { ONE_BITS } else { 0 }),
        _ => Err(Halt::Failed(Error::NotNumber)),
    }
}

/// A value as text.
pub open spec fn to_text(a: Token, t: Table) -> Result<Seq<char>, Halt> {
    match a {
        Token::End => Ok(Seq::empty()),
        Token::Str(s) => Ok(s),
        Token::Number(n) => t.show(n),
        Token::Bool(b) => Ok(if b { "true"@ } else { "false"@ }),
        _ => Err(Halt::Failed(Error::NotText)),
    }
}

/// Whether `a` stands before `b` in the order of texts: by the first
/// character in which they differ, a prefix before what it begins.
pub open spec fn text_less(a: Seq<char>, b: Seq<char>) -> bool
    decreases a.len(),
{
    if b.len() == 0 {
        false
    } else if a.len() == 0 {
        true
    } else if a[0] != b[0] {
        a[0] < b[0]
    } else {
        text_less(a.drop_first(), b.drop_first())
    }
}

/// The kinds of values that can be compared: two numbers, two booleans, or
/// anything that can be read as text with a text.
pub open spec fn equal_values(a: Token, b: Token, t: Table) -> Result<bool, Halt> {
    match (a, b) {
        (Token::Number(x), Token::Number(y)) => Ok(same(x, y)),
        (Token::Bool(x), Token::Bool(y)) => Ok(x == y),
        _ => if a is Str || b is Str {
            match to_text(a, t) {
                Err(h) => Err(h),
                Ok(sa) => match to_text(b, t) {
                    Err(h) => Err(h),
                    Ok(sb) => Ok(sa == sb),
                },
            }
        } else {
            Err(Halt::Failed(Error::Incomparable))
        },
    }
}

/// Whether `a` is less than `b`, for values of kinds that can be compared.
pub open spec fn less_values(a: Token, b: Token, t: Table) -> Result<bool, Halt> {
    match (a, b) {
        (Token::Number(x), Token::Number(y)) => Ok(below(x, y)),
        (Token::Bool(x), Token::Bool(y)) => Ok(!x && y),
        _ => if a is Str || b is Str {
            match to_text(a, t) {
                Err(h) => Err(h),
                Ok(sa) => match to_text(b, t) {
                    Err(h) => Err(h),
                    Ok(sb) => Ok(text_less(sa, sb)),
                },
            }
        } else {
            Err(Halt::Failed(Error::Incomparable))
        },
    }
}

/// Whether `a` is greater than `b`.
pub open spec fn greater_values(a: Token, b: Token, t: Table) -> Result<bool, Halt> {
    less_values(b, a, t)
}

/// The number of operands of an operator, `None` for one that is not known.
pub open spec fn arity(op: Seq<char>) -> Option<nat> {
    if op == NEG_SIGN@ || op == POS_SIGN@ || op == seq!['%'] {
        Some(1)
    } else if op == seq!['*'] || op == seq!['/'] || op == seq!['+'] || op == seq!['-'] || op
        == seq!['^'] || op == seq!['&'] {
        Some(2)
    } else {
        None
    }
}

/// A number as a value.
pub open spec fn number_result(r: Result<u64, Halt>) -> Result<Token, Halt> {
    match r {
        Ok(n) => Ok(Token::Number(n)),
        Err(h) => Err(h),
    }
}

/// A unary operator on its operand.
pub open spec fn unary(op: Seq<char>, a: Token, t: Table) -> Result<Token, Halt> {
    match to_number(a, t) {
        Err(h) => Err(h),
        Ok(f) => if op == NEG_SIGN@ {
            Ok(Token::Number(opposite(f)))
        } else if op == POS_SIGN@ {
            Ok(Token::Number(f))
        } else {
            number_result(t.compute(Operator::Div, f, HUNDRED_BITS))
        },
    }
}

/// A binary operator on its operands. The right one is the one that the
/// machine takes from its stack first.
pub open spec fn binary(op: Seq<char>, right: Token, left: Token, t: Table) -> Result<Token, Halt> {
    if op == seq!['&'] {
        match to_text(right, t) {
            Err(h) => Err(h),
            Ok(s1) => match to_text(left, t) {
                Err(h) => Err(h),
                Ok(s2) => Ok(Token::Str(s2 + s1)),
            },
        }
    } else {
        match to_number(right, t) {
            Err(h) => Err(h),
            Ok(f1) => if op == seq!['/'] && zero(f1) {
                Err(Halt::Failed(Error::DivisionByZero))
            } else {
                match to_number(left, t) {
                    Err(h) => Err(h),
                    Ok(f2) => if op == seq!['*'] {
                        number_result(t.compute(Operator::Mul, f1, f2))
                    } else if op == seq!['/'] {
                        number_result(t.compute(Operator::Div, f2, f1))
                    } else if op == seq!['+'] {
                        number_result(t.compute(Operator::Add, f1, f2))
                    } else if op == seq!['-'] {
                        number_result(t.compute(Operator::Sub, f2, f1))
                    } else {
                        number_result(t.compute(Operator::Pow, f2, f1))
                    },
                }
            },
        }
    }
}

/// A truth value, negated where `negate` says so, as a value.
pub open spec fn bool_result(r: Result<bool, Halt>, negate: bool) -> Result<Token, Halt> {
    match r {
        Ok(b) => Ok(Token::Bool(b != negate)),
        Err(h) => Err(h),
    }
}

/// A comparison of two operands.
pub open spec fn compare(eq: Seq<char>, right: Token, left: Token, t: Table) -> Result<Token, Halt> {
    if eq == seq!['<', '>'] || eq == seq!['!', '='] {
        bool_result(equal_values(right, left, t), true)
    } else if eq == seq!['='] || eq == seq!['=', '='] {
        bool_result(equal_values(right, left, t), false)
    } else if eq == seq!['<'] {
        bool_result(less_values(left, right, t), false)
    } else if eq == seq!['>', '='] {
        bool_result(less_values(left, right, t), true)
    } else if eq == seq!['>'] {
        bool_result(greater_values(left, right, t), false)
    } else if eq == seq!['<', '='] {
        bool_result(greater_values(left, right, t), true)
    } else {
        Err(Halt::Failed(Error::UnsupportedOperator))
    }
}

/// The rectangle of a range within the grid: first column, first row, last
/// column, last row. A corner that leaves out its row or column reaches to
/// the edge of the grid. `None` where nothing of the range is on the grid.
pub open spec fn bounds(v: Seq<Pos>) -> Option<(int, int, int, int)> {
    if v.len() == 0 {
        None
    } else {
        let first = v[0];
        let last = if v.len() == 1 { v[0] } else { v[1] };
        let c0: int = if first.col == UNINIT { 0 } else { first.col as int };
        let r0: int = if first.row == UNINIT { 0 } else { first.row as int };
        let c1: int = if last.col >= MAX_COLS { MAX_COLS - 1 } else { last.col as int };
        let r1: int = if last.row >= MAX_ROWS { MAX_ROWS - 1 } else { last.row as int };
        if c0 > c1 || r0 > r1 {
            None
        } else {
            Some((c0, r0, c1, r1))
        }
    }
}

/// The sum with the value of one cell added, if it can be read as a number.
pub open spec fn add_value(v: Token, acc: u64, t: Table) -> Result<u64, Halt> {
    match to_number(v, t) {
        Ok(n) => t.compute(Operator::Add, acc, n),
        Err(Halt::Unanswered(q)) => Err(Halt::Unanswered(q)),
        Err(Halt::Failed(_)) => Ok(acc),
    }
}

/// The sum of the stored values of the cells with keys from `k` to `hi` and
/// columns from `c0` to `c1`, added to `acc` in the order of the keys.
pub open spec fn sum_keys(
    cells: Map<u64, CellView>,
    k: int,
    hi: int,
    c0: int,
    c1: int,
    acc: u64,
    t: Table,
) -> Result<u64, Halt>
    decreases hi - k + 1,
{
    if k > hi {
        Ok(acc)
    } else if 0 <= k <= u64::MAX && cells.contains_key(k as u64) && c0 <= k % 100000 <= c1 {
        match add_value(cells[k as u64].calculated, acc, t) {
            Ok(a) => sum_keys(cells, k + 1, hi, c0, c1, a, t),
            Err(h) => Err(h),
        }
    } else {
        sum_keys(cells, k + 1, hi, c0, c1, acc, t)
    }
}

/// The sum of a range added to `acc`.
pub open spec fn sum_range(cells: Map<u64, CellView>, v: Seq<Pos>, acc: u64, t: Table) -> Result<
    u64,
    Halt,
> {
    match bounds(v) {
        None => Ok(acc),
        Some((c0, r0, c1, r1)) => sum_keys(cells, key_of(c0, r0), key_of(c1, r1), c0, c1, acc, t),
    }
}

/// `SUM` over the `cnt` topmost values of the stack: ranges by the stored
/// values of their cells, other values as they are. What cannot be read as a
/// number is passed over.
pub open spec fn sum_args(
    cells: Map<u64, CellView>,
    stack: Seq<Token>,
    cnt: nat,
    acc: u64,
    t: Table,
) -> Result<(Seq<Token>, u64), Halt>
    decreases cnt,
{
    if cnt == 0 {
        Ok((stack, acc))
    } else if stack.len() == 0 {
        Err(Halt::Failed(Error::EmptyStack))
    } else {
        let r = match stack.last() {
            Token::Rng(_, v) => sum_range(cells, v, acc, t),
            other => add_value(other, acc, t),
        };
        match r {
            Err(h) => Err(h),
            Ok(a) => sum_args(cells, stack.drop_last(), (cnt - 1) as nat, a, t),
        }
    }
}

/// The stack after `SUM` with `cnt` arguments.
pub open spec fn summed(cells: Map<u64, CellView>, stack: Seq<Token>, cnt: nat, t: Table) -> Result<
    Seq<Token>,
    Halt,
> {
    if cnt == 0 {
        Err(Halt::Failed(Error::MissingArgument))
    } else {
        match sum_args(cells, stack, cnt, 0, t) {
            Err(h) => Err(h),
            Ok((rest, total)) => Ok(rest.push(Token::Number(total))),
        }
    }
}

/// The name of a function in small letters, as `str::to_lowercase` gives it.
pub uninterp spec fn lowercase(s: Seq<char>) -> Seq<char>;

/// `str::to_lowercase` depends on the text alone; its result is named
/// [`lowercase`].
pub assume_specification[ str::to_lowercase ](s: &str) -> (r: String)
    ensures
        r@ == lowercase(s@),
;

/// The stack after the function whose name in lower case is `lower` was
/// called with `cnt` arguments: only `sum` is known.
pub open spec fn called(
    lower: Seq<char>,
    cells: Map<u64, CellView>,
    stack: Seq<Token>,
    cnt: nat,
    t: Table,
) -> Result<Seq<Token>, Halt> {
    if lower == "sum"@ {
        summed(cells, stack, cnt, t)
    } else {
        Err(Halt::Failed(Error::UnsupportedFunction))
    }
}

/// The outcome of a formula as its cell stores it: the value, or the code of
/// the error and no value.
pub open spec fn stored(cells: Map<u64, CellView>, key: u64, res: Result<Token, Halt>) -> Map<
    u64,
    CellView,
> {
    if !cells.contains_key(key) {
        cells
    } else {
        match res {
            Ok(v) => cells.insert(key, CellView { calculated: v, err: 0, ..cells[key] }),
            Err(Halt::Failed(e)) => cells.insert(
                key,
                CellView { calculated: Token::End, err: code_of(e), ..cells[key] },
            ),
            Err(Halt::Unanswered(_)) => cells,
        }
    }
}

/// What a reference to an evaluated cell gives: its value, or the error that
/// it holds.
pub open spec fn outcome(c: CellView) -> Result<Token, Halt> {
    if c.err != 0 {
        Err(Halt::Failed(Error::CellError(c.err)))
    } else {
        Ok(c.calculated)
    }
}

/// The program of a formula text: its tokens in postfix order.
pub open spec fn program_of(text: Seq<char>, t: Table) -> Result<Seq<Token>, Halt> {
    match tokens_from(text, 0, t) {
        Err(h) => Err(h),
        Ok(toks) => match postfix(toks) {
            Err(e) => Err(Halt::Failed(e)),
            Ok(prog) => Ok(prog),
        },
    }
}

/// The mark of a cell; zero where it has none.
pub open spec fn mark_of(cache: Map<u64, u8>, key: u64) -> u8 {
    if cache.contains_key(key) {
        cache[key]
    } else {
        0
    }
}

/// A value down to a scalar. A range of one cell gives the value of the
/// cell; where the cell holds a formula that has no mark yet, the formula is
/// evaluated first, and its outcome stored in the cell. A cell that is being
/// evaluated gives a recursion error. A place off the grid is empty.
pub open spec fn resolve(st: State, arg: Token, t: Table, fuel: nat) -> (State, Result<Token, Halt>)
    decreases fuel, 0nat, 1nat,
{
    match arg {
        Token::Rng(_, v) => if v.len() != 1 {
            (st, Err(Halt::Failed(Error::NotScalar)))
        } else if !on_grid(v[0].col, v[0].row) {
            (st, Ok(Token::End))
        } else {
            let key = key_of(v[0].col as int, v[0].row as int) as u64;
            let cell = cell_at(st.cells, key);
            let mark = mark_of(st.cache, key);
            if !cell.is_expr() {
                (st, Ok(cell.calculated))
            } else if mark == IN_PROGRESS {
                (st, Err(Halt::Failed(Error::RecursionDetected)))
            } else if mark != 0 {
                (st, outcome(cell))
            } else if fuel == 0 {
                (st, Err(Halt::Failed(Error::RecursionDetected)))
            } else {
                let entered = State { cells: st.cells, cache: st.cache.insert(key, IN_PROGRESS) };
                let (after, res) = match program_of(cell.val.skip(1), t) {
                    Err(h) => (entered, Err(h)),
                    Ok(prog) => run(entered, prog, 0, Seq::empty(), t, (fuel - 1) as nat),
                };
                if res matches Err(Halt::Unanswered(_)) {
                    (after, res)
                } else {
                    let cells = stored(after.cells, key, res);
                    (
                        State { cells: cells, cache: after.cache.insert(key, DONE) },
                        outcome(cell_at(cells, key)),
                    )
                }
            }
        },
        other => (st, Ok(other)),
    }
}

/// The two topmost values of the stack, each down to a scalar, the topmost
/// first, and the stack below them.
pub open spec fn operands(st: State, stack: Seq<Token>, t: Table, fuel: nat) -> (
    State,
    Result<(Token, Token, Seq<Token>), Halt>,
)
    decreases fuel, 0nat, 2nat,
{
    if stack.len() == 0 {
        (st, Err(Halt::Failed(Error::EmptyStack)))
    } else {
        let (st1, r1) = resolve(st, stack.last(), t, fuel);
        match r1 {
            Err(h) => (st1, Err(h)),
            Ok(a1) => if stack.len() == 1 {
                (st1, Err(Halt::Failed(Error::EmptyStack)))
            } else {
                let (st2, r2) = resolve(st1, stack[stack.len() - 2], t, fuel);
                match r2 {
                    Err(h) => (st2, Err(h)),
                    Ok(a2) => (st2, Ok((a1, a2, stack.take(stack.len() - 2)))),
                }
            },
        }
    }
}

/// The stack with a result on it.
pub open spec fn pushed(stack: Seq<Token>, r: Result<Token, Halt>) -> Result<Seq<Token>, Halt> {
    match r {
        Ok(v) => Ok(stack.push(v)),
        Err(h) => Err(h),
    }
}

/// What one token of a program does to the stack.
pub open spec fn apply(st: State, tok: Token, stack: Seq<Token>, t: Table, fuel: nat) -> (
    State,
    Result<Seq<Token>, Halt>,
)
    decreases fuel, 0nat, 3nat,
{
    match tok {
        Token::Number(_) | Token::Bool(_) | Token::Str(_) | Token::Rng(_, _) => (
            st,
            Ok(stack.push(tok)),
        ),
        Token::Op(op) => match arity(op) {
            None => (st, Err(Halt::Failed(Error::UnsupportedOperator))),
            Some(n) => if n == 1 {
                if stack.len() == 0 {
                    (st, Err(Halt::Failed(Error::EmptyStack)))
                } else {
                    let (st1, r) = resolve(st, stack.last(), t, fuel);
                    match r {
                        Err(h) => (st1, Err(h)),
                        Ok(a) => (st1, pushed(stack.drop_last(), unary(op, a, t))),
                    }
                }
            } else {
                let (st1, r) = operands(st, stack, t, fuel);
                match r {
                    Err(h) => (st1, Err(h)),
                    Ok((a1, a2, rest)) => (st1, pushed(rest, binary(op, a1, a2, t))),
                }
            },
        },
        Token::Eq(eq) => {
            let (st1, r) = operands(st, stack, t, fuel);
            match r {
                Err(h) => (st1, Err(h)),
                Ok((a1, a2, rest)) => (st1, pushed(rest, compare(eq, a1, a2, t))),
            }
        },
        Token::Func(name, cnt) => (st, called(lowercase(name), st.cells, stack, cnt as nat, t)),
        _ => (st, Err(Halt::Failed(Error::InvalidExpression))),
    }
}

/// Runs a program from `pc` on. At its end exactly one value must be left,
/// which is the result, down to a scalar.
pub open spec fn run(
    st: State,
    prog: Seq<Token>,
    pc: int,
    stack: Seq<Token>,
    t: Table,
    fuel: nat,
) -> (State, Result<Token, Halt>)
    decreases fuel, (if 0 <= pc < prog.len() { prog.len() - pc } else { 0 }), 4nat,
{
    if pc < 0 || pc >= prog.len() {
        if stack.len() != 1 {
            (st, Err(Halt::Failed(Error::InvalidExpression)))
        } else {
            resolve(st, stack[0], t, fuel)
        }
    } else {
        let (st1, r) = apply(st, prog[pc], stack, t, fuel);
        match r {
            Err(h) => (st1, Err(h)),
            Ok(next) => run(st1, prog, pc + 1, next, t, fuel),
        }
    }
}

/// A result that is a number, as a plain value.
pub open spec fn number_view(r: Result<Number, Stop>) -> Result<u64, Halt> {
    match r {
        Ok(n) => Ok(n.bits),
        Err(e) => Err(e@),
    }
}

/// A result that is a text, as a plain value.
pub open spec fn text_view(r: Result<String, Stop>) -> Result<Seq<char>, Halt> {
    match r {
        Ok(s) => Ok(s@),
        Err(e) => Err(e@),
    }
}

/// A result that is a truth value, as a plain value.
pub open spec fn bool_view(r: Result<bool, Stop>) -> Result<bool, Halt> {
    match r {
        Ok(b) => Ok(b),
        Err(e) => Err(e@),
    }
}

/// A result that is a value, as a plain value.
pub open spec fn value_view(r: Result<Arg, Stop>) -> Result<Token, Halt> {
    match r {
        Ok(a) => Ok(a@),
        Err(e) => Err(e@),
    }
}

fn try_to_num(a: &Arg, numbers: &Numerics) -> (r: Result<Number, Stop>)
    ensures
        number_view(r) == to_number(a@, numbers@),
{
    match a {
        Arg::End => Ok(Number::zero()),
        Arg::Str(s) => {
            if s.as_str().unicode_len() == 0 {
                return Ok(Number::zero());
            }
            match numbers.parse(s.as_str()) {
                Err(e) => Err(e),
                Ok(Some(n)) => Ok(n),
                Ok(None) => Err(Stop::Failed(Error::NotNumber)),
            }
        },
        Arg::Number(n) => Ok(*n),
        Arg::Bool(b) => Ok(if *b { Number::one() } else { Number::zero() }),
        _ => Err(Stop::Failed(Error::NotNumber)),
    }
}

fn try_to_str(a: &Arg, numbers: &Numerics) -> (r: Result<String, Stop>)
    ensures
        text_view(r) == to_text(a@, numbers@),
{
    match a {
        Arg::End => Ok(String::new()),
        Arg::Str(s) => Ok(s.clone()),
        Arg::Number(n) => numbers.show(*n),
        Arg::Bool(b) => Ok(if *b { "true".to_owned() } else { "false".to_owned() }),
        _ => Err(Stop::Failed(Error::NotText)),
    }
}

/// A value as a boolean: nothing and the empty text are false, a number is
/// true unless it is zero.
pub open spec fn to_bool(a: Token) -> Result<bool, Halt> {
    match a {
        Token::End => Ok(false),
        Token::Str(s) => Ok(s.len() != 0),
        Token::Number(n) => Ok(!zero(n)),
        Token::Bool(b) => Ok(b),
        _ => Err(Halt::Failed(Error::NotText)),
    }
}

/// A value as a boolean.
pub fn try_to_bool(a: &Arg) -> (r: Result<bool, Stop>)
    ensures
        bool_view(r) == to_bool(a@),
{
    match a {
        Arg::End => Ok(false),
        Arg::Str(s) => Ok(s.as_str().unicode_len() != 0),
        Arg::Number(n) => Ok(!n.is_zero()),
        Arg::Bool(b) => Ok(*b),
        _ => Err(Stop::Failed(Error::NotText)),
    }
}

fn str_less(a: &str, b: &str) -> (r: bool)
    ensures
        r == text_less(a@, b@),
{
    let x = chars_of(a);
    let y = chars_of(b);
    let mut i: usize = 0;
    assert(x@.skip(0) =~= x@ && y@.skip(0) =~= y@);
    while i < x.len() && i < y.len()
        invariant
            i <= x@.len(),
            i <= y@.len(),
            x@ == a@,
            y@ == b@,
            text_less(x@, y@) == text_less(x@.skip(i as int), y@.skip(i as int)),
        decreases x@.len() - i,
    {
        proof {
            assert(x@.skip(i as int).drop_first() =~= x@.skip(i + 1));
            assert(y@.skip(i as int).drop_first() =~= y@.skip(i + 1));
        }
        if x[i] != y[i] {
            assert(x@.skip(i as int)[0] == x@[i as int] && y@.skip(i as int)[0] == y@[i as int]);
            return x[i] < y[i];
        }
        i += 1;
    }
    i < y.len()
}

fn is_str(a: &Arg) -> (r: bool)
    ensures
        r == (a@ is Str),
{
    match a {
        Arg::Str(_) => true,
        _ => false,
    }
}

fn eq_op(a: &Arg, b: &Arg, numbers: &Numerics) -> (r: Result<bool, Stop>)
    ensures
        bool_view(r) == equal_values(a@, b@, numbers@),
{
    match (a, b) {
        (Arg::Number(na), Arg::Number(nb)) => Ok(na.equals(nb)),
        (Arg::Bool(na), Arg::Bool(nb)) => Ok(*na == *nb),
        _ => {
            if is_str(a) || is_str(b) {
                let sa = try_to_str(a, numbers)?;
                let sb = try_to_str(b, numbers)?;
                Ok(str_eq(sa.as_str(), sb.as_str()))
            } else {
                Err(Stop::Failed(Error::Incomparable))
            }
        },
    }
}

fn less_op(a: &Arg, b: &Arg, numbers: &Numerics) -> (r: Result<bool, Stop>)
    ensures
        bool_view(r) == less_values(a@, b@, numbers@),
{
    match (a, b) {
        (Arg::Number(na), Arg::Number(nb)) => Ok(na.less_than(nb)),
        (Arg::Bool(na), Arg::Bool(nb)) => Ok(!*na && *nb),
        _ => {
            if is_str(a) || is_str(b) {
                let sa = try_to_str(a, numbers)?;
                let sb = try_to_str(b, numbers)?;
                Ok(str_less(sa.as_str(), sb.as_str()))
            } else {
                Err(Stop::Failed(Error::Incomparable))
            }
        },
    }
}

fn greater_op(a: &Arg, b: &Arg, numbers: &Numerics) -> (r: Result<bool, Stop>)
    ensures
        bool_view(r) == greater_values(a@, b@, numbers@),
{
    less_op(b, a, numbers)
}

fn is_char(s: &str, c: char) -> (r: bool)
    ensures
        r == (s@ == seq![c]),
{
    let r = s.unicode_len() == 1 && s.get_char(0) == c;
    proof {
        if r {
            assert(s@ =~= seq![c]);
        }
    }
    r
}

fn is_pair(s: &str, c: char, d: char) -> (r: bool)
    ensures
        r == (s@ == seq![c, d]),
{
    let r = s.unicode_len() == 2 && s.get_char(0) == c && s.get_char(1) == d;
    proof {
        if r {
            assert(s@ =~= seq![c, d]);
        }
    }
    r
}

fn number_value(r: Result<Number, Stop>) -> (v: Result<Arg, Stop>)
    ensures
        value_view(v) == number_result(number_view(r)),
{
    match r {
        Ok(n) => Ok(Arg::Number(n)),
        Err(e) => Err(e),
    }
}

fn bool_value(r: Result<bool, Stop>, negate: bool) -> (v: Result<Arg, Stop>)
    ensures
        value_view(v) == bool_result(bool_view(r), negate),
{
    match r {
        Ok(b) => Ok(Arg::Bool(b != negate)),
        Err(e) => Err(e),
    }
}

fn op_arity(op: &str) -> (r: Option<u8>)
    ensures
        match r {
            Some(n) => arity(op@) == Some(n as nat),
            None => arity(op@) is None,
        },
{
    if str_eq(op, NEG_SIGN) || str_eq(op, POS_SIGN) || is_char(op, '%') {
        Some(1)
    } else if is_char(op, '*') || is_char(op, '/') || is_char(op, '+') || is_char(op, '-')
        || is_char(op, '^') || is_char(op, '&') {
        Some(2)
    } else {
        None
    }
}

fn apply_unary(op: &str, a: &Arg, numbers: &Numerics) -> (r: Result<Arg, Stop>)
    ensures
        value_view(r) == unary(op@, a@, numbers@),
{
    let f = try_to_num(a, numbers)?;
    if str_eq(op, NEG_SIGN) {
        Ok(Arg::Number(f.negated()))
    } else if str_eq(op, POS_SIGN) {
        Ok(Arg::Number(f))
    } else {
        number_value(numbers.compute(Operator::Div, f, Number::hundred()))
    }
}

fn apply_binary(op: &str, arg1: &Arg, arg2: &Arg, numbers: &Numerics) -> (r: Result<Arg, Stop>)
    ensures
        value_view(r) == binary(op@, arg1@, arg2@, numbers@),
{
    if is_char(op, '&') {
        let f1 = try_to_str(arg1, numbers)?;
        let mut f2 = try_to_str(arg2, numbers)?;
        f2.append(f1.as_str());
        return Ok(Arg::Str(f2));
    }
    let f1 = try_to_num(arg1, numbers)?;
    if is_char(op, '/') && f1.is_zero() {
        return Err(Stop::Failed(Error::DivisionByZero));
    }
    let f2 = try_to_num(arg2, numbers)?;
    if is_char(op, '*') {
        number_value(numbers.compute(Operator::Mul, f1, f2))
    } else if is_char(op, '/') {
        number_value(numbers.compute(Operator::Div, f2, f1))
    } else if is_char(op, '+') {
        number_value(numbers.compute(Operator::Add, f1, f2))
    } else if is_char(op, '-') {
        number_value(numbers.compute(Operator::Sub, f2, f1))
    } else {
        number_value(numbers.compute(Operator::Pow, f2, f1))
    }
}

fn apply_compare(eq: &str, arg1: &Arg, arg2: &Arg, numbers: &Numerics) -> (r: Result<Arg, Stop>)
    ensures
        value_view(r) == compare(eq@, arg1@, arg2@, numbers@),
{
    if is_pair(eq, '<', '>') || is_pair(eq, '!', '=') {
        bool_value(eq_op(arg1, arg2, numbers), true)
    } else if is_char(eq, '=') || is_pair(eq, '=', '=') {
        bool_value(eq_op(arg1, arg2, numbers), false)
    } else if is_char(eq, '<') {
        bool_value(less_op(arg2, arg1, numbers), false)
    } else if is_pair(eq, '>', '=') {
        bool_value(less_op(arg2, arg1, numbers), true)
    } else if is_char(eq, '>') {
        bool_value(greater_op(arg2, arg1, numbers), false)
    } else if is_pair(eq, '<', '=') {
        bool_value(greater_op(arg2, arg1, numbers), true)
    } else {
        Err(Stop::Failed(Error::UnsupportedOperator))
    }
}

/// Keys that the grid does not hold add nothing to a sum.
pub proof fn lemma_sum_skip(
    cells: Map<u64, CellView>,
    a: int,
    b: int,
    hi: int,
    c0: int,
    c1: int,
    acc: u64,
    t: Table,
)
    requires
        a <= b <= hi + 1,
        forall|k: u64| a <= k < b ==> !#[trigger] cells.contains_key(k),
    ensures
        sum_keys(cells, a, hi, c0, c1, acc, t) == sum_keys(cells, b, hi, c0, c1, acc, t),
    decreases b - a,
{
    if a < b {
        lemma_sum_skip(cells, a + 1, b, hi, c0, c1, acc, t);
    }
}

fn range_bounds(v: &Vec<Pos>) -> (r: Option<(usize, usize, usize, usize)>)
    ensures
        match r {
            Some((c0, r0, c1, r1)) => bounds(v@) == Some((c0 as int, r0 as int, c1 as int, r1 as int))
                && c0 <= c1 < MAX_COLS && r0 <= r1 < MAX_ROWS,
            None => bounds(v@) is None,
        },
{
    if v.len() == 0 {
        return None;
    }
    let first = v[0];
    let last = if v.len() == 1 { v[0] } else { v[1] };
    let c0: usize = if first.col == UNINIT { 0 } else { first.col };
    let r0: usize = if first.row == UNINIT { 0 } else { first.row };
    let c1: usize = if last.col >= MAX_COLS { MAX_COLS - 1 } else { last.col };
    let r1: usize = if last.row >= MAX_ROWS { MAX_ROWS - 1 } else { last.row };
    if c0 > c1 || r0 > r1 {
        None
    } else {
        Some((c0, r0, c1, r1))
    }
}

fn add_to(value: &Arg, acc: Number, numbers: &Numerics) -> (r: Result<Number, Stop>)
    ensures
        number_view(r) == add_value(value@, acc.bits, numbers@),
{
    match try_to_num(value, numbers) {
        Ok(n) => numbers.compute(Operator::Add, acc, n),
        Err(Stop::Unanswered(q)) => Err(Stop::Unanswered(q)),
        Err(Stop::Failed(_)) => Ok(acc),
    }
}

fn sum_over(cells: &BTreeMap<u64, Cell>, v: &Vec<Pos>, start: Number, numbers: &Numerics) -> (r:
    Result<Number, Stop>)
    ensures
        number_view(r) == sum_range(grid(cells@), v@, start.bits, numbers@),
{
    let (c0, r0, c1, r1) = match range_bounds(v) {
        None => {
            return Ok(start);
        },
        Some(b) => b,
    };
    let lo: u64 = pos_to_id(c0, r0);
    let hi: u64 = pos_to_id(c1, r1);
    let keys = crate::keys::sorted_keys(cells);
    let ghost g = grid(cells@);
    let ghost goal = sum_keys(g, lo as int, hi as int, c0 as int, c1 as int, start.bits, numbers@);
    let mut acc = start;
    let mut i: usize = 0;
    let ghost mut pos: int = lo as int;
    assert(lo <= hi) by (nonlinear_arith)
        requires
            lo == r0 * 100000 + c0,
            hi == r1 * 100000 + c1,
            r0 <= r1,
            c0 <= c1 < 100000,
    ;
    let mut past = false;
    while i < keys.len() && !past
        invariant
            i <= keys@.len(),
            lo <= pos <= hi + 1,
            pos == lo || (i > 0 && pos == keys@[i - 1] + 1),
            past ==> i < keys@.len() && keys@[i as int] > hi,
            bounds(v@) == Some((c0 as int, r0 as int, c1 as int, r1 as int)),
            lo == key_of(c0 as int, r0 as int),
            hi == key_of(c1 as int, r1 as int),
            g == grid(cells@),
            keys@.to_set() == cells@.dom(),
            crate::keys::increasing(keys@),
            forall|j: int| 0 <= j < i ==> keys@[j] < pos,
            goal == sum_keys(g, pos, hi as int, c0 as int, c1 as int, acc.bits, numbers@),
            goal == sum_keys(g, lo as int, hi as int, c0 as int, c1 as int, start.bits, numbers@),
        decreases keys@.len() - i + if past { 0int } else { 1int },
    {
        let k: u64 = keys[i];
        if k > hi {
            past = true;
            continue ;
        }
        if k >= lo {
            proof {
                assert forall|x: u64| pos <= x < k implies !#[trigger] g.contains_key(x) by {
                    if g.contains_key(x) {
                        assert(keys@.to_set().contains(x));
                        let j = choose|j: int| 0 <= j < keys@.len() && keys@[j] == x;
                        if j < i {
                        } else if j > i {
                        }
                    }
                }
                lemma_sum_skip(g, pos, k as int, hi as int, c0 as int, c1 as int, acc.bits, numbers@);
                assert(keys@.to_set().contains(k));
                assert(g.contains_key(k));
            }
            let col: u64 = k % 100000;
            if col >= c0 as u64 && col <= c1 as u64 {
                match cells.get(&k) {
                    Some(cell) => {
                        assert(g[k] == cell@);
                        match add_to(&cell.calculated, acc, numbers) {
                            Ok(a) => {
                                acc = a;
                            },
                            Err(e) => {
                                return Err(e);
                            },
                        }
                    },
                    None => {},
                }
            }
            proof {
                pos = k + 1;
            }
        }
        i += 1;
    }
    proof {
        assert forall|x: u64| pos <= x < hi + 1 implies !#[trigger] g.contains_key(x) by {
            if g.contains_key(x) {
                assert(keys@.to_set().contains(x));
                let j = choose|j: int| 0 <= j < keys@.len() && keys@[j] == x;
                if j < i {
                } else if i < keys@.len() && j > i {
                }
            }
        }
        lemma_sum_skip(g, pos, hi + 1, hi as int, c0 as int, c1 as int, acc.bits, numbers@);
    }
    Ok(acc)
}

/// The grid of a map with a cell put in is the grid with the plain cell put in.
pub proof fn lemma_grid_insert(m: Map<u64, Cell>, key: u64, c: Cell)
    ensures
        grid(m.insert(key, c)) == grid(m).insert(key, c@),
        grid(m).dom() == m.dom(),
{
    assert(grid(m.insert(key, c)) =~= grid(m).insert(key, c@));
    assert(grid(m).dom() =~= m.dom());
}

/// The grid of a sheet holds finitely many cells.
pub proof fn lemma_grid_finite(cells: BTreeMap<u64, Cell>)
    ensures
        grid(cells@).dom().finite(),
        grid(cells@).dom() == cells@.dom(),
{
    broadcast use vstd::std_specs::btree::group_btree_axioms;

    assert(grid(cells@).dom() =~= cells@.dom());
}

/// Marking a cell that had no mark leaves one cell less to enter.
pub proof fn lemma_enter(st: State, key: u64, mark: u8)
    requires
        st.cells.dom().finite(),
        st.cells.contains_key(key),
        mark_of(st.cache, key) == 0,
        mark != 0,
    ensures
        unvisited(State { cells: st.cells, cache: st.cache.insert(key, mark) }) + 1 == unvisited(st),
        advances(st, State { cells: st.cells, cache: st.cache.insert(key, mark) }),
{
    let before = st.cells.dom().difference(marked(st.cache));
    let after = st.cells.dom().difference(marked(st.cache.insert(key, mark)));
    assert(after =~= before.remove(key));
    assert(before.contains(key));
    vstd::set_lib::lemma_len_difference(st.cells.dom(), marked(st.cache));
}

/// What advances leaves no more cells to enter than there were.
pub proof fn lemma_advances(a: State, b: State)
    requires
        a.cells.dom().finite(),
        advances(a, b),
    ensures
        unvisited(b) <= unvisited(a),
{
    let x = a.cells.dom().difference(marked(a.cache));
    let y = b.cells.dom().difference(marked(b.cache));
    assert(y.subset_of(x));
    vstd::set_lib::lemma_len_difference(a.cells.dom(), marked(a.cache));
    vstd::set_lib::lemma_len_subset(y, x);
}

/// The stack after a step that succeeded, or why it stopped.
pub open spec fn stack_view(r: Result<(), Stop>, stack: Seq<Arg>) -> Result<Seq<Token>, Halt> {
    match r {
        Ok(_) => Ok(tokens(stack)),
        Err(e) => Err(e@),
    }
}

/// Stores the outcome of a formula in its cell, if the grid holds the cell.
pub fn store_result(cells: &mut BTreeMap<u64, Cell>, key: u64, res: Result<Arg, Error>)
    ensures
        grid(final(cells)@) == stored(
            grid(old(cells)@),
            key,
            match res {
                Ok(a) => Ok(a@),
                Err(e) => Err(Halt::Failed(e)),
            },
        ),
        final(cells)@.dom() == old(cells)@.dom(),
{
    let ghost before = cells@;
    match cells.remove(&key) {
        None => {
            assert(cells@ =~= before);
        },
        Some(mut cell) => {
            match res {
                Ok(v) => {
                    cell.calculated = v;
                    cell.err = 0;
                },
                Err(e) => {
                    cell.calculated = Arg::End;
                    cell.err = e.code();
                },
            }
            proof {
                lemma_grid_insert(before.remove(key), key, cell);
                assert(before.remove(key).insert(key, cell) =~= before.insert(key, cell));
                lemma_grid_insert(before, key, cell);
                assert(before.insert(key, cell).dom() =~= before.dom());
            }
            cells.insert(key, cell);
        },
    }
}

impl Expr {
    /// `SUM`: takes `cnt` values from the stack and puts their sum on it.
    fn sum(
        stack: &mut Vec<Arg>,
        cells: &BTreeMap<u64, Cell>,
        cnt: usize,
        numbers: &Numerics,
    ) -> (r: Result<(), Stop>)
        ensures
            stack_view(r, final(stack)@) == summed(
                grid(cells@),
                tokens(old(stack)@),
                cnt as nat,
                numbers@,
            ),
    {
        if cnt == 0 {
            return Err(Stop::Failed(Error::MissingArgument));
        }
        let mut total = Number::zero();
        let mut i: usize = 0;
        let ghost g = grid(cells@);
        let ghost start = tokens(stack@);
        while i < cnt
            invariant
                i <= cnt,
                cnt > 0,
                start == tokens(old(stack)@),
                g == grid(cells@),
                sum_args(g, start, cnt as nat, 0, numbers@) == sum_args(
                    g,
                    tokens(stack@),
                    (cnt - i) as nat,
                    total.bits,
                    numbers@,
                ),
            decreases cnt - i,
        {
            let ghost before = stack@;
            proof {
                if before.len() > 0 {
                    crate::stack::lemma_tokens_drop_last(before);
                }
            }
            let arg = match stack.pop() {
                None => {
                    return Err(Stop::Failed(Error::EmptyStack));
                },
                Some(a) => a,
            };
            assert(stack@ =~= before.drop_last());
            let r = match &arg {
                Arg::Rng(_, v) => sum_over(cells, v, total, numbers),
                _ => add_to(&arg, total, numbers),
            };
            match r {
                Err(e) => {
                    return Err(e);
                },
                Ok(a) => {
                    total = a;
                },
            }
            i += 1;
        }
        let value = Arg::Number(total);
        proof {
            crate::stack::lemma_tokens_push(stack@, value);
        }
        stack.push(value);
        Ok(())
    }
}

/// The evaluator's memory of one evaluation pass: which cells it has entered
/// and which it has finished.
pub struct Expr {
    pub cache: HashMap<u64, u8>,
}

impl Default for Expr {
    fn default() -> (r: Expr)
        ensures
            r.cache@ == Map::<u64, u8>::empty(),
    {
        Expr { cache: HashMap::new() }
    }
}

/// Tokenizes a formula, without its `=`, and puts it in postfix order.
pub fn program(text: &str, numbers: &Numerics) -> (r: Result<Vec<Arg>, Stop>)
    ensures
        match r {
            Ok(prog) => program_of(text@, numbers@) == Ok::<_, Halt>(tokens(prog@)),
            Err(e) => program_of(text@, numbers@) == Err::<Seq<Token>, _>(e@),
        },
{
    let args = str_expr_to_vec(text, numbers)?;
    match expr_to_stack(args.as_slice()) {
        Ok(prog) => Ok(prog),
        Err(e) => Err(Stop::Failed(e)),
    }
}

fn outcome_of(cell: Cell) -> (r: Result<Arg, Stop>)
    ensures
        value_view(r) == outcome(cell@),
{
    if cell.err != 0 {
        Err(Stop::Failed(Error::CellError(cell.err)))
    } else {
        Ok(cell.calculated)
    }
}

impl Expr {
    /// The state that an evaluation works on.
    pub open spec fn state(&self, cells: Map<u64, Cell>) -> State {
        State { cells: grid(cells), cache: self.cache@ }
    }

    fn mark(&self, key: u64) -> (m: u8)
        ensures
            m == mark_of(self.cache@, key),
    {
        broadcast use vstd::std_specs::hash::group_hash_axioms;

        match self.cache.get(&key) {
            None => 0,
            Some(v) => *v,
        }
    }

    fn set_mark(&mut self, key: u64, mark: u8)
        ensures
            final(self).cache@ == old(self).cache@.insert(key, mark),
    {
        broadcast use vstd::std_specs::hash::group_hash_axioms;

        self.cache.insert(key, mark);
    }

    fn single_cell(
        &mut self,
        cells: &mut BTreeMap<u64, Cell>,
        arg: Arg,
        numbers: &Numerics,
        Ghost(fuel): Ghost<nat>,
    ) -> (r: Result<Arg, Stop>)
        requires
            unvisited(old(self).state(old(cells)@)) <= fuel,
        ensures
            (final(self).state(final(cells)@), value_view(r)) == resolve(
                old(self).state(old(cells)@),
                arg@,
                numbers@,
                fuel,
            ),
            advances(old(self).state(old(cells)@), final(self).state(final(cells)@)),
        decreases fuel, 0nat, 1nat,
    {
        broadcast use vstd::std_specs::btree::group_btree_axioms;

        let ghost st = self.state(cells@);
        proof {
            lemma_grid_finite(*cells);
        }
        match arg {
            Arg::Rng(_, v) => {
                if v.len() != 1 {
                    return Err(Stop::Failed(Error::NotScalar));
                }
                let col: usize = v[0].col;
                let row: usize = v[0].row;
                if !(col < MAX_COLS && row < MAX_ROWS) {
                    return Ok(Arg::End);
                }
                let key = pos_to_id(col, row);
                let cell = cell_of(cells, key);
                if !cell.is_expr() {
                    return Ok(cell.calculated);
                }
                let mark = self.mark(key);
                if mark == IN_PROGRESS {
                    return Err(Stop::Failed(Error::RecursionDetected));
                }
                if mark != 0 {
                    return outcome_of(cell);
                }
                proof {
                    lemma_grid_insert(cells@, key, cell);
                    assert(st.cells.contains_key(key));
                    lemma_enter(st, key, IN_PROGRESS);
                }
                self.set_mark(key, IN_PROGRESS);
                let body = crate::text::skip_chars(cell.val.as_str(), 1);
                let res = match program(body, numbers) {
                    Err(e) => Err(e),
                    Ok(prog) => self.run(cells, prog.as_slice(), numbers, Ghost((fuel - 1) as nat)),
                };
                let ghost after = self.state(cells@);
                match res {
                    Err(Stop::Unanswered(q)) => {
                        return Err(Stop::Unanswered(q));
                    },
                    Ok(v) => {
                        store_result(cells, key, Ok(v));
                    },
                    Err(Stop::Failed(e)) => {
                        store_result(cells, key, Err(e));
                    },
                }
                self.set_mark(key, DONE);
                proof {
                    lemma_grid_insert(cells@, key, cell);
                    assert(marked(after.cache).subset_of(marked(self.cache@)));
                }
                let cell = cell_of(cells, key);
                outcome_of(cell)
            },
            other => Ok(other),
        }
    }

    /// Takes the two topmost values from the stack, each down to a scalar.
    fn operands(
        &mut self,
        cells: &mut BTreeMap<u64, Cell>,
        stack: &mut Vec<Arg>,
        numbers: &Numerics,
        Ghost(fuel): Ghost<nat>,
    ) -> (r: Result<(Arg, Arg), Stop>)
        requires
            unvisited(old(self).state(old(cells)@)) <= fuel,
        ensures
            (
                final(self).state(final(cells)@),
                match r {
                    Ok((a1, a2)) => Ok((a1@, a2@, tokens(final(stack)@))),
                    Err(e) => Err(e@),
                },
            ) == operands(old(self).state(old(cells)@), tokens(old(stack)@), numbers@, fuel),
            advances(old(self).state(old(cells)@), final(self).state(final(cells)@)),
        decreases fuel, 0nat, 2nat,
    {
        broadcast use vstd::std_specs::btree::group_btree_axioms;

        let ghost st = self.state(cells@);
        let ghost before = stack@;
        proof {
            lemma_grid_finite(*cells);
            if before.len() > 0 {
                crate::stack::lemma_tokens_drop_last(before);
            }
        }
        let arg1 = match stack.pop() {
            None => {
                return Err(Stop::Failed(Error::EmptyStack));
            },
            Some(a) => a,
        };
        let arg1 = match self.single_cell(cells, arg1, numbers, Ghost(fuel)) {
            Err(e) => {
                return Err(e);
            },
            Ok(a) => a,
        };
        let ghost st1 = self.state(cells@);
        let ghost mid = stack@;
        proof {
            assert(mid =~= before.drop_last());
            if mid.len() > 0 {
                crate::stack::lemma_tokens_drop_last(mid);
                assert(tokens(before)[before.len() - 2] == tokens(mid).last());
            }
            lemma_advances(st, st1);
        }
        let arg2 = match stack.pop() {
            None => {
                return Err(Stop::Failed(Error::EmptyStack));
            },
            Some(a) => a,
        };
        let arg2 = match self.single_cell(cells, arg2, numbers, Ghost(fuel)) {
            Err(e) => {
                return Err(e);
            },
            Ok(a) => a,
        };
        proof {
            assert(stack@ =~= before.take(before.len() - 2));
            assert(tokens(stack@) =~= tokens(before).take(before.len() - 2));
        }
        Ok((arg1, arg2))
    }

    fn calc_op(
        &mut self,
        cells: &mut BTreeMap<u64, Cell>,
        stack: &mut Vec<Arg>,
        op: &String,
        numbers: &Numerics,
        Ghost(fuel): Ghost<nat>,
    ) -> (r: Result<(), Stop>)
        requires
            unvisited(old(self).state(old(cells)@)) <= fuel,
        ensures
            (final(self).state(final(cells)@), stack_view(r, final(stack)@)) == apply(
                old(self).state(old(cells)@),
                Token::Op(op@),
                tokens(old(stack)@),
                numbers@,
                fuel,
            ),
            advances(old(self).state(old(cells)@), final(self).state(final(cells)@)),
        decreases fuel, 0nat, 3nat,
    {
        let ghost before = stack@;
        let n = match op_arity(op.as_str()) {
            None => {
                return Err(Stop::Failed(Error::UnsupportedOperator));
            },
            Some(n) => n,
        };
        if n == 1 {
            proof {
                if before.len() > 0 {
                    crate::stack::lemma_tokens_drop_last(before);
                }
            }
            let arg = match stack.pop() {
                None => {
                    return Err(Stop::Failed(Error::EmptyStack));
                },
                Some(a) => a,
            };
            assert(stack@ =~= before.drop_last());
            let arg = match self.single_cell(cells, arg, numbers, Ghost(fuel)) {
                Err(e) => {
                    return Err(e);
                },
                Ok(a) => a,
            };
            let value = match apply_unary(op.as_str(), &arg, numbers) {
                Err(e) => {
                    return Err(e);
                },
                Ok(v) => v,
            };
            proof {
                crate::stack::lemma_tokens_push(stack@, value);
            }
            stack.push(value);
            Ok(())
        } else {
            let (arg1, arg2) = match self.operands(cells, stack, numbers, Ghost(fuel)) {
                Err(e) => {
                    return Err(e);
                },
                Ok(x) => x,
            };
            let value = match apply_binary(op.as_str(), &arg1, &arg2, numbers) {
                Err(e) => {
                    return Err(e);
                },
                Ok(v) => v,
            };
            proof {
                crate::stack::lemma_tokens_push(stack@, value);
            }
            stack.push(value);
            Ok(())
        }
    }

    fn calc_condition(
        &mut self,
        cells: &mut BTreeMap<u64, Cell>,
        stack: &mut Vec<Arg>,
        eq: &String,
        numbers: &Numerics,
        Ghost(fuel): Ghost<nat>,
    ) -> (r: Result<(), Stop>)
        requires
            unvisited(old(self).state(old(cells)@)) <= fuel,
        ensures
            (final(self).state(final(cells)@), stack_view(r, final(stack)@)) == apply(
                old(self).state(old(cells)@),
                Token::Eq(eq@),
                tokens(old(stack)@),
                numbers@,
                fuel,
            ),
            advances(old(self).state(old(cells)@), final(self).state(final(cells)@)),
        decreases fuel, 0nat, 3nat,
    {
        let (arg1, arg2) = match self.operands(cells, stack, numbers, Ghost(fuel)) {
            Err(e) => {
                return Err(e);
            },
            Ok(x) => x,
        };
        let value = match apply_compare(eq.as_str(), &arg1, &arg2, numbers) {
            Err(e) => {
                return Err(e);
            },
            Ok(v) => v,
        };
        proof {
            crate::stack::lemma_tokens_push(stack@, value);
        }
        stack.push(value);
        Ok(())
    }

    fn calc_func(
        cells: &BTreeMap<u64, Cell>,
        stack: &mut Vec<Arg>,
        name: &String,
        cnt: usize,
        numbers: &Numerics,
    ) -> (r: Result<(), Stop>)
        ensures
            stack_view(r, final(stack)@) == called(
                lowercase(name@),
                grid(cells@),
                tokens(old(stack)@),
                cnt as nat,
                numbers@,
            ),
    {
        let lower = name.as_str().to_lowercase();
        Expr::call(cells, stack, lower.as_str(), cnt, numbers)
    }

    /// Calls the function whose name in lower case is `lower` on the last
    /// `cnt` values of the stack. Only `sum` is known.
    pub fn call(
        cells: &BTreeMap<u64, Cell>,
        stack: &mut Vec<Arg>,
        lower: &str,
        cnt: usize,
        numbers: &Numerics,
    ) -> (r: Result<(), Stop>)
        ensures
            stack_view(r, final(stack)@) == called(
                lower@,
                grid(cells@),
                tokens(old(stack)@),
                cnt as nat,
                numbers@,
            ),
    {
        if str_eq(lower, "sum") {
            Expr::sum(stack, cells, cnt, numbers)
        } else {
            Err(Stop::Failed(Error::UnsupportedFunction))
        }
    }

    /// Runs a program on the cells of a grid. Each formula that the program
    /// refers to, directly or through other cells, is evaluated at most once,
    /// and its outcome stored in its cell.
    pub fn calculate_in(
        &mut self,
        cells: &mut BTreeMap<u64, Cell>,
        args: &[Arg],
        numbers: &Numerics,
    ) -> (r: Result<Arg, Stop>)
        ensures
            (final(self).state(final(cells)@), value_view(r)) == run(
                old(self).state(old(cells)@),
                tokens(args@),
                0,
                Seq::empty(),
                numbers@,
                unvisited(old(self).state(old(cells)@)),
            ),
            advances(old(self).state(old(cells)@), final(self).state(final(cells)@)),
    {
        let ghost fuel = unvisited(self.state(cells@));
        self.run(cells, args, numbers, Ghost(fuel))
    }

    /// Runs a program on an empty stack.
    fn run(
        &mut self,
        cells: &mut BTreeMap<u64, Cell>,
        args: &[Arg],
        numbers: &Numerics,
        Ghost(fuel): Ghost<nat>,
    ) -> (r: Result<Arg, Stop>)
        requires
            unvisited(old(self).state(old(cells)@)) <= fuel,
        ensures
            (final(self).state(final(cells)@), value_view(r)) == run(
                old(self).state(old(cells)@),
                tokens(args@),
                0,
                Seq::empty(),
                numbers@,
                fuel,
            ),
            advances(old(self).state(old(cells)@), final(self).state(final(cells)@)),
        decreases fuel, args@.len(), 4nat,
    {
        broadcast use vstd::std_specs::btree::group_btree_axioms;

        let ghost st0 = self.state(cells@);
        let ghost prog = tokens(args@);
        proof {
            lemma_grid_finite(*cells);
        }
        let mut stk: Vec<Arg> = Vec::new();
        assert(tokens(stk@) =~= Seq::<Token>::empty());
        let mut pc: usize = 0;
        while pc < args.len()
            invariant
                pc <= args@.len(),
                prog == tokens(args@),
                st0 == old(self).state(old(cells)@),
                st0.cells.dom().finite(),
                advances(st0, self.state(cells@)),
                unvisited(st0) <= fuel,
                run(st0, prog, 0, Seq::empty(), numbers@, fuel) == run(
                    self.state(cells@),
                    prog,
                    pc as int,
                    tokens(stk@),
                    numbers@,
                    fuel,
                ),
            decreases args@.len() - pc,
        {
            let arg = &args[pc];
            let ghost here = self.state(cells@);
            let ghost before = stk@;
            proof {
                assert(prog[pc as int] == arg@);
                lemma_advances(st0, here);
            }
            let r = match arg {
                Arg::Number(_) | Arg::Bool(_) | Arg::Str(_) | Arg::Rng(_, _) => {
                    let a = arg.clone();
                    proof {
                        crate::stack::lemma_tokens_push(before, a);
                    }
                    stk.push(a);
                    Ok(())
                },
                Arg::Op(op) => self.calc_op(cells, &mut stk, op, numbers, Ghost(fuel)),
                Arg::Eq(eq) => self.calc_condition(cells, &mut stk, eq, numbers, Ghost(fuel)),
                Arg::Func(nm, cnt) => Expr::calc_func(cells, &mut stk, nm, *cnt, numbers),
                _ => Err(Stop::Failed(Error::InvalidExpression)),
            };
            proof {
                let step = apply(here, prog[pc as int], tokens(before), numbers@, fuel);
                assert(step.0 == self.state(cells@));
                assert(step.1 == stack_view(r, stk@));
            }
            match r {
                Err(e) => {
                    return Err(e);
                },
                Ok(_) => {},
            }
            pc += 1;
        }
        proof {
            lemma_advances(st0, self.state(cells@));
        }
        if stk.len() != 1 {
            return Err(Stop::Failed(Error::InvalidExpression));
        }
        let a = stk.pop().unwrap();
        assert(tokens(stk@.push(a))[0] == a@);
        self.single_cell(cells, a, numbers, Ghost(fuel))
    }
}

/// Whether two grids hold cells in the same places, with the same texts and
/// the same words on how they are drawn.
pub open spec fn same_texts(a: Map<u64, CellView>, b: Map<u64, CellView>) -> bool {
    &&& a.dom() == b.dom()
    &&& forall|k: u64| #[trigger]
        a.contains_key(k) ==> b[k].val == a[k].val && b[k].attr == a[k].attr
}

/// Storing an outcome changes no text and no place.
pub proof fn lemma_stored_same_texts(cells: Map<u64, CellView>, key: u64, res: Result<Token, Halt>)
    ensures
        same_texts(cells, stored(cells, key, res)),
{
    assert(stored(cells, key, res).dom() =~= cells.dom());
}

/// An evaluation changes neither where the cells are nor their texts: it
/// stores values and error codes only.
pub proof fn lemma_resolve_keeps(st: State, arg: Token, t: Table, fuel: nat)
    ensures
        same_texts(st.cells, resolve(st, arg, t, fuel).0.cells),
    decreases fuel, 0nat, 1nat,
{
    match arg {
        Token::Rng(_, v) => {
            if v.len() == 1 && on_grid(v[0].col, v[0].row) {
                let key = key_of(v[0].col as int, v[0].row as int) as u64;
                let cell = cell_at(st.cells, key);
                let mark = mark_of(st.cache, key);
                if cell.is_expr() && mark == 0 && fuel != 0 {
                    let entered = State { cells: st.cells, cache: st.cache.insert(key, IN_PROGRESS) };
                    match program_of(cell.val.skip(1), t) {
                        Err(h) => {
                            lemma_stored_same_texts(entered.cells, key, Err::<Token, _>(h));
                        },
                        Ok(prog) => {
                            lemma_run_keeps(entered, prog, 0, Seq::empty(), t, (fuel - 1) as nat);
                            let (after, res) = run(
                                entered,
                                prog,
                                0,
                                Seq::empty(),
                                t,
                                (fuel - 1) as nat,
                            );
                            lemma_stored_same_texts(after.cells, key, res);
                        },
                    }
                }
            }
        },
        _ => {},
    }
}

/// Taking two operands changes no text and no place.
pub proof fn lemma_operands_keeps(st: State, stack: Seq<Token>, t: Table, fuel: nat)
    ensures
        same_texts(st.cells, operands(st, stack, t, fuel).0.cells),
    decreases fuel, 0nat, 2nat,
{
    if stack.len() > 0 {
        lemma_resolve_keeps(st, stack.last(), t, fuel);
        let (st1, r1) = resolve(st, stack.last(), t, fuel);
        if r1 is Ok && stack.len() > 1 {
            lemma_resolve_keeps(st1, stack[stack.len() - 2], t, fuel);
        }
    }
}

/// One token of a program changes no text and no place.
pub proof fn lemma_apply_keeps(st: State, tok: Token, stack: Seq<Token>, t: Table, fuel: nat)
    ensures
        same_texts(st.cells, apply(st, tok, stack, t, fuel).0.cells),
    decreases fuel, 0nat, 3nat,
{
    match tok {
        Token::Op(op) => {
            if arity(op) == Some(1nat) {
                if stack.len() > 0 {
                    lemma_resolve_keeps(st, stack.last(), t, fuel);
                }
            } else if arity(op) is Some {
                lemma_operands_keeps(st, stack, t, fuel);
            }
        },
        Token::Eq(_) => {
            lemma_operands_keeps(st, stack, t, fuel);
        },
        _ => {},
    }
}

/// A program changes no text and no place.
pub proof fn lemma_run_keeps(
    st: State,
    prog: Seq<Token>,
    pc: int,
    stack: Seq<Token>,
    t: Table,
    fuel: nat,
)
    ensures
        same_texts(st.cells, run(st, prog, pc, stack, t, fuel).0.cells),
    decreases fuel, (if 0 <= pc < prog.len() { prog.len() - pc } else { 0 }), 4nat,
{
    if pc < 0 || pc >= prog.len() {
        if stack.len() == 1 {
            lemma_resolve_keeps(st, stack[0], t, fuel);
        }
    } else {
        lemma_apply_keeps(st, prog[pc], stack, t, fuel);
        let (st1, r) = apply(st, prog[pc], stack, t, fuel);
        match r {
            Ok(next) => {
                lemma_run_keeps(st1, prog, pc + 1, next, t, fuel);
            },
            Err(_) => {},
        }
    }
}

impl Expr {
    /// Evaluates a program in postfix order on a sheet. What the program
    /// refers to is resolved on demand; the outcome of each formula that is
    /// evaluated on the way is stored in its cell. The tokens that are no
    /// values, operators, comparisons or functions are refused.
    pub fn calculate(&mut self, args: &[Arg], sheet: &mut Sheet, numbers: &Numerics) -> (r: Result<
        Arg,
        Stop,
    >)
        ensures
            (final(self).state(final(sheet).cells@), value_view(r)) == run(
                old(self).state(old(sheet).cells@),
                tokens(args@),
                0,
                Seq::empty(),
                numbers@,
                unvisited(old(self).state(old(sheet).cells@)),
            ),
            final(sheet).cells@.dom() == old(sheet).cells@.dom(),
            final(sheet).same_frame(old(sheet)),
            final(sheet).dirty == old(sheet).dirty,
            final(sheet).max_col == old(sheet).max_col,
            final(sheet).max_row == old(sheet).max_row,
    {
        proof {
            lemma_grid_finite(sheet.cells);
        }
        let r = self.calculate_in(&mut sheet.cells, args, numbers);
        proof {
            lemma_grid_finite(sheet.cells);
        }
        r
    }
}

} // verus!
