//! Positions, tokens and values, and the linear key of a cell.
use vstd::prelude::*;
use vstd::string::StringExecFns;
use crate::error::{Halt, Stop};
use crate::number::{Number, Numerics, Table};
use crate::parse::{column_name, idx_to_name, MAX_COLS};
use crate::text::{chars_of, decimal, to_decimal};

verus! {

/// Marks a column or a row that an address leaves out.
pub const UNINIT: usize = usize::MAX;

/// The operator text of the unary minus.
pub const NEG_SIGN: &'static str = "----";

/// The operator text of the unary plus.
pub const POS_SIGN: &'static str = "++++";

/// One more than the largest column index that a key can hold. The key of a
/// cell is `row * COL_SHIFT + col`, so keys are ordered by row, then by column.
pub const COL_SHIFT: u64 = 100000;

/// A cell address. `fixed_*` mark the axes anchored with `$`, `full_*` an
/// address that leaves out its row (`full_col`) or its column (`full_row`).
#[derive(Debug, Copy, Clone, PartialEq, Eq, Structural)]
pub struct Pos {
    pub col: usize,
    pub row: usize,
    pub fixed_col: bool,
    pub fixed_row: bool,
    pub full_col: bool,
    pub full_row: bool,
}

impl Pos {
    /// The address that leaves out its column and its row.
    pub open spec fn spec_default() -> Pos {
        Pos {
            col: UNINIT,
            row: UNINIT,
            fixed_col: false,
            fixed_row: false,
            full_col: false,
            full_row: false,
        }
    }

    /// The address of the cell at `col`, `row`, without anchors.
    pub open spec fn spec_new(col: usize, row: usize) -> Pos {
        Pos { col, row, ..Pos::spec_default() }
    }

    /// The address of the cell at `col`, `row`, without anchors.
    #[verifier::when_used_as_spec(spec_new)]
    pub fn new(col: usize, row: usize) -> (r: Pos)
        ensures
            r == Pos::spec_new(col, row),
    {
        Pos { col, row, fixed_col: false, fixed_row: false, full_col: false, full_row: false }
    }
}

impl Default for Pos {
    fn default() -> (r: Pos)
        ensures
            r == Pos::spec_default(),
    {
        Pos {
            col: UNINIT,
            row: UNINIT,
            fixed_col: false,
            fixed_row: false,
            full_col: false,
            full_row: false,
        }
    }
}

/// A token of a formula, and a value of the evaluator.
#[derive(Debug, PartialEq, Eq)]
pub enum Arg {
    End,
    Op(String),
    Eq(String),
    OBracket(String),
    CBracket(String),
    Str(String),
    /// A sheet name, if one was given, and one position (a cell) or two (a
    /// rectangle, the first its top left corner).
    Rng(Option<String>, Vec<Pos>),
    Number(Number),
    /// A function name and the number of its arguments.
    Func(String, usize),
    Bool(bool),
    Comma,
}

/// An [`Arg`] as a plain value.
pub enum Token {
    End,
    Op(Seq<char>),
    Eq(Seq<char>),
    OBracket(Seq<char>),
    CBracket(Seq<char>),
    Str(Seq<char>),
    Rng(Option<Seq<char>>, Seq<Pos>),
    Number(u64),
    Func(Seq<char>, usize),
    Bool(bool),
    Comma,
}

impl View for Arg {
    type V = Token;

    open spec fn view(&self) -> Token {
        match *self {
            Arg::End => Token::End,
            Arg::Op(s) => Token::Op(s@),
            Arg::Eq(s) => Token::Eq(s@),
            Arg::OBracket(s) => Token::OBracket(s@),
            Arg::CBracket(s) => Token::CBracket(s@),
            Arg::Str(s) => Token::Str(s@),
            Arg::Rng(sheet, v) => Token::Rng(
                match sheet {
                    Some(s) => Some(s@),
                    None => None,
                },
                v@,
            ),
            Arg::Number(n) => Token::Number(n.bits),
            Arg::Func(s, n) => Token::Func(s@, n),
            Arg::Bool(b) => Token::Bool(b),
            Arg::Comma => Token::Comma,
        }
    }
}

/// The tokens of a vector of arguments.
pub open spec fn tokens(v: Seq<Arg>) -> Seq<Token> {
    v.map_values(|a: Arg| a@)
}

impl Clone for Arg {
    fn clone(&self) -> (r: Arg)
        ensures
            r@ == self@,
    {
        match self {
            Arg::End => Arg::End,
            Arg::Op(s) => Arg::Op(s.clone()),
            Arg::Eq(s) => Arg::Eq(s.clone()),
            Arg::OBracket(s) => Arg::OBracket(s.clone()),
            Arg::CBracket(s) => Arg::CBracket(s.clone()),
            Arg::Str(s) => Arg::Str(s.clone()),
            Arg::Rng(sheet, v) => {
                let sh = match sheet {
                    Some(s) => Some(s.clone()),
                    None => None,
                };
                let mut w: Vec<Pos> = Vec::new();
                let mut i: usize = 0;
                while i < v.len()
                    invariant
                        i <= v.len(),
                        w@ == v@.take(i as int),
                    decreases v.len() - i,
                {
                    w.push(v[i]);
                    assert(v@.take(i + 1) =~= v@.take(i as int).push(v@[i as int]));
                    i += 1;
                }
                assert(v@.take(v.len() as int) =~= v@);
                Arg::Rng(sh, w)
            },
            Arg::Number(n) => Arg::Number(*n),
            Arg::Func(s, n) => Arg::Func(s.clone(), *n),
            Arg::Bool(b) => Arg::Bool(*b),
            Arg::Comma => Arg::Comma,
        }
    }
}

impl Arg {
    /// Whether the token is a function name.
    pub fn is_func(&self) -> (r: bool)
        ensures
            r == (self@ is Func),
    {
        match self {
            Arg::Func(_, _) => true,
            _ => false,
        }
    }
}

/// The text that stands for an error code of a cell.
pub open spec fn message(errcode: u16) -> Seq<char> {
    if errcode == 0 {
        ""@
    } else if errcode == 2 {
        "#RECURSE"@
    } else if errcode == 3 {
        "#DIV/0"@
    } else {
        "#VALUE!"@
    }
}

/// The text that stands for an error code of a cell: nothing for no error, `#RECURSE`,
/// `#DIV/0`, and `#VALUE!` for every other.
pub fn err_msg(errcode: u16) -> (r: &'static str)
    ensures
        r@ == message(errcode),
{
    match errcode {
        0 => "",
        2 => "#RECURSE",
        3 => "#DIV/0",
        _ => "#VALUE!",
    }
}

/// The key of the cell at `col`, `row`.
pub open spec fn key_of(col: int, row: int) -> int {
    row * 100000 + col
}

/// The key of the cell at `col`, `row`.
pub fn pos_to_id(col: usize, row: usize) -> (id: u64)
    requires
        key_of(col as int, row as int) <= u64::MAX,
    ensures
        id == key_of(col as int, row as int),
{
    row as u64 * COL_SHIFT + col as u64
}

/// The column and the row of a key.
pub fn id_to_pos(id: u64) -> (r: (usize, usize))
    requires
        id / 100000 <= usize::MAX,
    ensures
        r.0 == id % 100000,
        r.1 == id / 100000,
{
    ((id % COL_SHIFT) as usize, (id / COL_SHIFT) as usize)
}

/// A key gives back the column and the row it was made of, as long as the
/// column is below `COL_SHIFT`.
pub proof fn lemma_key_round_trip(col: int, row: int)
    requires
        0 <= col < 100000,
        0 <= row,
    ensures
        key_of(col, row) % 100000 == col,
        key_of(col, row) / 100000 == row,
{
    assert((row * 100000 + col) % 100000 == col && (row * 100000 + col) / 100000 == row)
        by (nonlinear_arith)
        requires
            0 <= col < 100000,
            0 <= row,
    ;
}

/// A key is made of its own column and row again.
pub proof fn lemma_key_of_parts(id: int)
    requires
        0 <= id,
    ensures
        key_of(id % 100000, id / 100000) == id,
        0 <= id % 100000 < 100000,
{
    assert((id / 100000) * 100000 + id % 100000 == id && 0 <= id % 100000 < 100000)
        by (nonlinear_arith)
        requires
            0 <= id,
    ;
}

/// Whether the column of the address can be written: it is left out or has a
/// name.
pub open spec fn printable(p: Pos) -> bool {
    p.col == UNINIT || p.col < MAX_COLS
}

/// The `$` of an anchored axis.
pub open spec fn anchor(fixed: bool) -> Seq<char> {
    if fixed {
        seq!['$']
    } else {
        Seq::empty()
    }
}

/// The name of a column; nothing for a column that is left out.
pub open spec fn column_text(col: usize) -> Seq<char> {
    if col == UNINIT {
        Seq::empty()
    } else {
        column_name(col as int)
    }
}

/// Rows are counted from one in text.
pub open spec fn row_text(row: usize) -> Seq<char> {
    if row == UNINIT {
        Seq::empty()
    } else {
        decimal((row + 1) as nat)
    }
}

/// An address as text: `$`, the column's name, `$`, the row's number, each
/// as far as the address has it.
pub open spec fn endpoint(p: Pos) -> Seq<char> {
    anchor(p.fixed_col) + column_text(p.col) + anchor(p.fixed_row) + row_text(p.row)
}

/// A range as text. A whole column or row is written by its first corner
/// alone, twice. Positions that cannot be written give `#VALUE!`.
pub open spec fn range_title(v: Seq<Pos>) -> Seq<char> {
    if v.len() == 1 && printable(v[0]) {
        endpoint(v[0])
    } else if v.len() == 2 && v[0].full_col && v[0].col < MAX_COLS {
        anchor(v[0].fixed_col) + column_name(v[0].col as int) + seq![':'] + anchor(v[0].fixed_col)
            + column_name(v[0].col as int)
    } else if v.len() == 2 && !v[0].full_col && v[0].full_row && v[0].row != UNINIT {
        anchor(v[0].fixed_row) + row_text(v[0].row) + seq![':'] + anchor(v[0].fixed_row) + row_text(
            v[0].row,
        )
    } else if v.len() == 2 && !v[0].full_col && !v[0].full_row && printable(v[0]) && printable(
        v[1],
    ) {
        endpoint(v[0]) + seq![':'] + endpoint(v[1])
    } else {
        "#VALUE!"@
    }
}

/// What a token or a value shows. A number is written as the table says.
pub open spec fn title_of(a: Token, t: Table) -> Result<Seq<char>, Halt> {
    match a {
        Token::End => Ok(Seq::empty()),
        Token::Op(s) | Token::Eq(s) | Token::OBracket(s) | Token::CBracket(s) | Token::Str(s) => Ok(
            s,
        ),
        Token::Rng(_, v) => Ok(range_title(v)),
        Token::Number(n) => t.show(n),
        Token::Func(name, _) => Ok(name),
        Token::Bool(b) => Ok(if b { "TRUE"@ } else { "FALSE"@ }),
        Token::Comma => Ok(seq![',']),
    }
}

/// A text between double quotes, each quote inside it doubled.
pub open spec fn quoted_body(s: Seq<char>) -> Seq<char>
    decreases s.len(),
{
    if s.len() == 0 {
        seq!['"']
    } else if s[0] == '"' {
        seq!['"', '"'] + quoted_body(s.drop_first())
    } else {
        seq![s[0]] + quoted_body(s.drop_first())
    }
}

/// A text as a string literal.
pub open spec fn quoted(s: Seq<char>) -> Seq<char> {
    seq!['"'] + quoted_body(s)
}

/// A token as it is written in a formula.
pub open spec fn expr_of(a: Token, t: Table) -> Result<Seq<char>, Halt> {
    match a {
        Token::Str(s) => Ok(quoted(s)),
        _ => title_of(a, t),
    }
}

/// A column or row index moved by `d`, kept within `0` and `UNINIT - 1`. An
/// index that is left out stays so.
pub open spec fn shifted(x: usize, d: isize) -> usize {
    if x == UNINIT {
        x
    } else if x + d < 0 {
        0
    } else if x + d >= UNINIT {
        (UNINIT - 1) as usize
    } else {
        (x + d) as usize
    }
}

/// An address moved by `dcol` columns and `drow` rows; anchored axes stay.
pub open spec fn moved(p: Pos, dcol: isize, drow: isize) -> Pos {
    Pos {
        col: if p.fixed_col { p.col } else { shifted(p.col, dcol) },
        row: if p.fixed_row { p.row } else { shifted(p.row, drow) },
        ..p
    }
}

/// An address moved like [`moved`], but only on the axes where it stands at
/// or behind the base.
pub open spec fn moved_from(p: Pos, base_col: usize, base_row: usize, dcol: isize, drow: isize) -> Pos {
    Pos {
        col: if p.fixed_col || p.col < base_col { p.col } else { shifted(p.col, dcol) },
        row: if p.fixed_row || p.row < base_row { p.row } else { shifted(p.row, drow) },
        ..p
    }
}

fn shift(x: usize, d: isize) -> (r: usize)
    ensures
        r == shifted(x, d),
{
    if x == UNINIT {
        return x;
    }
    let sum: i128 = x as i128 + d as i128;
    if sum < 0 {
        0
    } else if sum >= UNINIT as i128 {
        UNINIT - 1
    } else {
        sum as usize
    }
}

fn push_anchor(out: &mut String, fixed: bool)
    ensures
        final(out)@ == old(out)@ + anchor(fixed),
{
    if fixed {
        out.push('$');
        assert(out@ =~= old(out)@ + anchor(fixed));
    } else {
        assert(out@ =~= old(out)@ + anchor(fixed));
    }
}

fn push_column(out: &mut String, col: usize)
    requires
        col == UNINIT || col < MAX_COLS,
    ensures
        final(out)@ == old(out)@ + column_text(col),
{
    if col != UNINIT {
        let name = idx_to_name(col);
        out.append(name.as_str());
    } else {
        assert(out@ =~= old(out)@ + column_text(col));
    }
}

fn push_row(out: &mut String, row: usize)
    ensures
        final(out)@ == old(out)@ + row_text(row),
{
    if row != UNINIT {
        let digits = to_decimal(row + 1);
        out.append(digits.as_str());
    } else {
        assert(out@ =~= old(out)@ + row_text(row));
    }
}

fn push_endpoint(out: &mut String, p: &Pos)
    requires
        printable(*p),
    ensures
        final(out)@ == old(out)@ + endpoint(*p),
{
    push_anchor(out, p.fixed_col);
    push_column(out, p.col);
    push_anchor(out, p.fixed_row);
    push_row(out, p.row);
    assert(out@ =~= old(out)@ + endpoint(*p));
}

fn can_print(p: &Pos) -> (r: bool)
    ensures
        r == printable(*p),
{
    p.col == UNINIT || p.col < MAX_COLS
}

fn title_of_range(v: &Vec<Pos>) -> (r: String)
    ensures
        r@ == range_title(v@),
{
    let mut out = String::new();
    if v.len() == 1 && can_print(&v[0]) {
        push_endpoint(&mut out, &v[0]);
        assert(out@ =~= endpoint(v@[0]));
        out
    } else if v.len() == 2 && v[0].full_col && v[0].col < MAX_COLS {
        push_anchor(&mut out, v[0].fixed_col);
        push_column(&mut out, v[0].col);
        out.push(':');
        push_anchor(&mut out, v[0].fixed_col);
        push_column(&mut out, v[0].col);
        assert(out@ =~= range_title(v@));
        out
    } else if v.len() == 2 && !v[0].full_col && v[0].full_row && v[0].row != UNINIT {
        push_anchor(&mut out, v[0].fixed_row);
        push_row(&mut out, v[0].row);
        out.push(':');
        push_anchor(&mut out, v[0].fixed_row);
        push_row(&mut out, v[0].row);
        assert(out@ =~= range_title(v@));
        out
    } else if v.len() == 2 && !v[0].full_col && !v[0].full_row && can_print(&v[0]) && can_print(
        &v[1],
    ) {
        push_endpoint(&mut out, &v[0]);
        out.push(':');
        push_endpoint(&mut out, &v[1]);
        assert(out@ =~= range_title(v@));
        out
    } else {
        "#VALUE!".to_owned()
    }
}

fn quote(s: &str) -> (r: String)
    ensures
        r@ == quoted(s@),
{
    let v = chars_of(s);
    let mut out = String::new();
    out.push('"');
    let mut i: usize = 0;
    assert(v@.skip(0) =~= v@);
    assert(out@ =~= seq!['"']);
    while i < v.len()
        invariant
            i <= v@.len(),
            out@ + quoted_body(v@.skip(i as int)) == quoted(v@),
        decreases v@.len() - i,
    {
        let c = v[i];
        let ghost before = out@;
        let ghost rest = v@.skip(i as int);
        proof {
            assert(rest.drop_first() =~= v@.skip(i + 1));
            assert(rest[0] == c);
        }
        if c == '"' {
            out.push('"');
            out.push('"');
            assert(before + (seq!['"', '"'] + quoted_body(rest.drop_first())) =~= before.push(
                '"',
            ).push('"') + quoted_body(rest.drop_first()));
        } else {
            out.push(c);
            assert(before + (seq![c] + quoted_body(rest.drop_first())) =~= before.push(c)
                + quoted_body(rest.drop_first()));
        }
        i += 1;
    }
    let ghost before = out@;
    assert(v@.skip(v@.len() as int) =~= Seq::<char>::empty());
    out.push('"');
    assert(before + seq!['"'] =~= before.push('"'));
    assert(quoted(v@) =~= seq!['"'] + quoted_body(v@));
    out
}

impl Arg {
    /// What the token or value shows.
    pub fn title(&self, numbers: &Numerics) -> (r: Result<String, Stop>)
        ensures
            match r {
                Ok(s) => title_of(self@, numbers@) == Ok::<_, Halt>(s@),
                Err(e) => title_of(self@, numbers@) == Err::<Seq<char>, _>(e@),
            },
    {
        match self {
            Arg::End => Ok(String::new()),
            Arg::Op(s) | Arg::Eq(s) | Arg::OBracket(s) | Arg::CBracket(s) | Arg::Str(s) => Ok(
                s.clone(),
            ),
            Arg::Rng(_, v) => Ok(title_of_range(v)),
            Arg::Number(n) => numbers.show(*n),
            Arg::Func(name, _) => Ok(name.clone()),
            Arg::Bool(b) => Ok(if *b { "TRUE".to_owned() } else { "FALSE".to_owned() }),
            Arg::Comma => {
                let mut s = String::new();
                s.push(',');
                assert(s@ =~= seq![',']);
                Ok(s)
            },
        }
    }

    /// Like `title`, but a text that the tokenizer reads back: a string
    /// stands between quotes.
    pub fn to_expr(&self, numbers: &Numerics) -> (r: Result<String, Stop>)
        ensures
            match r {
                Ok(s) => expr_of(self@, numbers@) == Ok::<_, Halt>(s@),
                Err(e) => expr_of(self@, numbers@) == Err::<Seq<char>, _>(e@),
            },
    {
        match self {
            Arg::Str(s) => Ok(quote(s.as_str())),
            _ => self.title(numbers),
        }
    }

    /// Moves a range by `dcol` columns and `drow` rows. Anchored axes stay,
    /// and so does everything that is no range.
    pub fn move_by(&mut self, dcol: isize, drow: isize)
        ensures
            match old(self)@ {
                Token::Rng(sheet, v) => final(self)@ == Token::Rng(
                    sheet,
                    v.map_values(|p: Pos| moved(p, dcol, drow)),
                ),
                other => final(self)@ == other,
            },
    {
        let mut taken = Arg::End;
        core::mem::swap(self, &mut taken);
        match taken {
            Arg::Rng(sheet, v) => {
                let mut vnew: Vec<Pos> = Vec::new();
                let mut i: usize = 0;
                while i < v.len()
                    invariant
                        i <= v@.len(),
                        vnew@ == v@.take(i as int).map_values(|p: Pos| moved(p, dcol, drow)),
                    decreases v@.len() - i,
                {
                    let mut pos = v[i];
                    if !pos.fixed_col {
                        pos.col = shift(pos.col, dcol);
                    }
                    if !pos.fixed_row {
                        pos.row = shift(pos.row, drow);
                    }
                    vnew.push(pos);
                    assert(vnew@ =~= v@.take(i + 1).map_values(|p: Pos| moved(p, dcol, drow)));
                    i += 1;
                }
                assert(v@.take(v@.len() as int) =~= v@);
                *self = Arg::Rng(sheet, vnew);
            },
            other => {
                *self = other;
            },
        }
    }

    /// Moves, like `move_by`, the axes of a range that stand at or behind
    /// the base column and the base row.
    pub fn shift_range(&mut self, base_col: usize, base_row: usize, dcol: isize, drow: isize)
        ensures
            match old(self)@ {
                Token::Rng(sheet, v) => final(self)@ == Token::Rng(
                    sheet,
                    v.map_values(|p: Pos| moved_from(p, base_col, base_row, dcol, drow)),
                ),
                other => final(self)@ == other,
            },
    {
        let mut taken = Arg::End;
        core::mem::swap(self, &mut taken);
        match taken {
            Arg::Rng(sheet, v) => {
                let mut vnew: Vec<Pos> = Vec::new();
                let mut i: usize = 0;
                while i < v.len()
                    invariant
                        i <= v@.len(),
                        vnew@ == v@.take(i as int).map_values(
                            |p: Pos| moved_from(p, base_col, base_row, dcol, drow),
                        ),
                    decreases v@.len() - i,
                {
                    let mut pos = v[i];
                    if !pos.fixed_col && pos.col >= base_col {
                        pos.col = shift(pos.col, dcol);
                    }
                    if !pos.fixed_row && pos.row >= base_row {
                        pos.row = shift(pos.row, drow);
                    }
                    vnew.push(pos);
                    assert(vnew@ =~= v@.take(i + 1).map_values(
                        |p: Pos| moved_from(p, base_col, base_row, dcol, drow),
                    ));
                    i += 1;
                }
                assert(v@.take(v@.len() as int) =~= v@);
                *self = Arg::Rng(sheet, vnew);
            },
            other => {
                *self = other;
            },
        }
    }
}

} // verus!
