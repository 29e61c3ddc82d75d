//! Laws that relate the functions of the engine to each other.
use vstd::prelude::*;
use crate::error::{Error, Halt, ERR_RECURSION};
use crate::expr::{apply, mark_of, program_of, resolve, run, unvisited, IN_PROGRESS};
use crate::number::Table;
use crate::ops::{
    anchor, column_text, endpoint, key_of, moved, quoted, quoted_body, range_title, row_text, Pos,
    Token, UNINIT,
};
use crate::parse::{
    arg_at, at, column_name, coord_at, corners_differ, full_range_at, func_end, ident_end,
    ident_start, in_class, lemma_column_name_index, lemma_span, lemma_span_is, ordered, range_at,
    sheet_at, span, string_at, string_body, Class, DEF_NUM_WIDTH, MAX_COLS, MAX_ROWS,
};
use crate::recalc::{entering, refreshed};
use crate::sheet::{width_of, CellView, Sheet};
use crate::window::{lemma_sum_widths_bound, scan_back, scan_cols};
use crate::stack::{postfix, tokens_from, yard_run, yard_step, Yard};
use crate::text::{digit, lemma_decimal, letter, white};

verus! {

/// Whether an address is one that the tokenizer gives: it names a column or
/// a row or both, tells so by its marks, and anchors nothing that it leaves
/// out.
pub open spec fn coord_ok(p: Pos) -> bool {
    &&& p.full_row == (p.col == UNINIT)
    &&& p.full_col == (p.row == UNINIT)
    &&& !(p.full_row && p.full_col)
    &&& p.col != UNINIT ==> p.col < MAX_COLS
    &&& p.fixed_col ==> !p.full_col && !p.full_row
    &&& p.fixed_row ==> !p.full_row
}

/// Whether the text goes on at `j` with something that no address holds:
/// it ends there, or a colon stands there.
pub open spec fn stops(s: Seq<char>, j: int) -> bool {
    j == s.len() || at(s, j, ':')
}

/// An address that is written and read again is the same address.
pub proof fn lemma_coord_round_trip(s: Seq<char>, i: int, p: Pos)
    requires
        coord_ok(p),
        0 <= i,
        i + endpoint(p).len() <= s.len(),
        s.subrange(i, i + endpoint(p).len()) == endpoint(p),
        stops(s, i + endpoint(p).len()),
    ensures
        coord_at(s, i) == Some((p, i + endpoint(p).len())),
{
    let text = endpoint(p);
    let a1 = anchor(p.fixed_col);
    let name = column_text(p.col);
    let a2 = anchor(p.fixed_row);
    let digits = row_text(p.row);
    assert(text =~= a1 + name + a2 + digits);
    let i1 = i + a1.len();
    let i2 = i1 + name.len();
    let i3 = i2 + a2.len();
    let i4 = i3 + digits.len();
    assert(i4 == i + text.len());
    assert forall|k: int| 0 <= k < text.len() implies s[i + k] == text[k] by {
        assert(s.subrange(i, i + text.len())[k] == s[i + k]);
    }
    if p.col != UNINIT {
        lemma_column_name_index(p.col as int);
    }
    if p.row != UNINIT {
        lemma_decimal((p.row + 1) as nat);
    }
    // the first anchor
    if p.fixed_col {
        assert(text[0] == '$');
        assert(at(s, i, '$'));
    } else {
        if name.len() > 0 {
            assert(text[0] == name[0]);
            assert(s[i] != '$');
        } else if a2.len() > 0 {
            // an anchored row needs a column
            assert(false);
        } else {
            assert(digits.len() > 0);
            assert(text[0] == digits[0]);
            assert(digit(digits[0]));
            assert(s[i] != '$');
        }
        assert(!at(s, i, '$'));
    }
    // the letters
    assert forall|j: int| i1 <= j < i2 implies in_class(Class::Letter, #[trigger] s[j]) by {
        assert(s[j] == text[j - i]);
        assert(text[j - i] == name[j - i1]);
        assert('A' <= name[j - i1] <= 'Z');
    }
    if i2 < s.len() {
        if a2.len() > 0 {
            assert(s[i2] == text[i2 - i]);
            assert(text[i2 - i] == '$');
        } else if digits.len() > 0 {
            assert(s[i2] == text[i2 - i]);
            assert(text[i2 - i] == digits[0]);
            assert(digit(digits[0]));
        } else {
            assert(s[i2] == ':');
        }
        assert(!in_class(Class::Letter, s[i2]));
    }
    lemma_span_is(s, Class::Letter, i1, i2);
    assert(s.subrange(i1, i2) =~= name) by {
        assert forall|k: int| 0 <= k < name.len() implies s.subrange(i1, i2)[k] == name[k] by {
            assert(s[i1 + k] == text[i1 + k - i]);
            assert(text[i1 + k - i] == name[k]);
        }
    }
    // the second anchor
    if p.fixed_row {
        assert(s[i2] == text[i2 - i]);
        assert(at(s, i2, '$'));
    } else {
        if i2 < s.len() {
            if digits.len() > 0 {
                assert(s[i2] == text[i2 - i]);
                assert(text[i2 - i] == digits[0]);
                assert(digit(digits[0]));
            }
        }
        assert(!at(s, i2, '$'));
    }
    // the digits
    assert forall|j: int| i3 <= j < i4 implies in_class(Class::Digit, #[trigger] s[j]) by {
        assert(s[j] == text[j - i]);
        assert(text[j - i] == digits[j - i3]);
        assert(digit(digits[j - i3]));
    }
    lemma_span_is(s, Class::Digit, i3, i4);
    assert(s.subrange(i3, i4) =~= digits) by {
        assert forall|k: int| 0 <= k < digits.len() implies s.subrange(i3, i4)[k] == digits[k] by {
            assert(s[i3 + k] == text[i3 + k - i]);
            assert(text[i3 + k - i] == digits[k]);
        }
    }
}

/// Whether a range is one that `parse_range` gives and that its title tells
/// in full: one address, or two that can be the corners of one range, the
/// smaller column and row in the first. A whole column or row is told by
/// its first corner alone, so the second must be the same.
pub open spec fn range_ok(v: Seq<Pos>) -> bool {
    if v.len() == 1 {
        coord_ok(v[0])
    } else if v.len() == 2 {
        &&& coord_ok(v[0])
        &&& coord_ok(v[1])
        &&& !corners_differ(v[0], v[1])
        &&& v[0].col <= v[1].col
        &&& v[0].row <= v[1].row
        &&& v[0].full_col || v[0].full_row ==> v[1] == v[0] && !v[0].fixed_row
    } else {
        false
    }
}

/// The title of a range of two corners is made of its two addresses.
pub proof fn lemma_title_of_two(v: Seq<Pos>)
    requires
        range_ok(v),
        v.len() == 2,
    ensures
        range_title(v) == endpoint(v[0]) + seq![':'] + endpoint(v[1]),
{
    let e0 = endpoint(v[0]);
    let e1 = endpoint(v[1]);
    if v[0].full_col {
        assert(e0 =~= column_name(v[0].col as int));
        assert(anchor(v[0].fixed_col) + column_name(v[0].col as int) + seq![':'] + anchor(
            v[0].fixed_col,
        ) + column_name(v[0].col as int) =~= e0 + seq![':'] + e1);
    } else if v[0].full_row {
        assert(e0 =~= row_text(v[0].row));
        assert(anchor(v[0].fixed_row) + row_text(v[0].row) + seq![':'] + anchor(v[0].fixed_row)
            + row_text(v[0].row) =~= e0 + seq![':'] + e1);
    }
}

/// The parts of a text that is made of three.
pub proof fn lemma_three_parts(a: Seq<char>, b: Seq<char>, c: Seq<char>)
    ensures
        (a + b + c).len() == a.len() + b.len() + c.len(),
        (a + b + c).subrange(0, a.len() as int) == a,
        (a + b + c).subrange(a.len() as int, (a.len() + b.len()) as int) == b,
        (a + b + c).subrange((a.len() + b.len()) as int, (a.len() + b.len() + c.len()) as int)
            == c,
{
    let all = a + b + c;
    assert(all.subrange(0, a.len() as int) =~= a);
    assert(all.subrange(a.len() as int, (a.len() + b.len()) as int) =~= b);
    assert(all.subrange((a.len() + b.len()) as int, (a.len() + b.len() + c.len()) as int) =~= c);
}

/// Two addresses that are read one behind the other, with a colon between
/// them, are read as a range.
pub proof fn lemma_range_of_coords(text: Seq<char>, c1: Pos, e1: int, c2: Pos, e2: int)
    requires
        coord_at(text, 0) == Some((c1, e1)),
        at(text, e1, ':'),
        coord_at(text, e1 + 1) == Some((c2, e2)),
        !corners_differ(c1, c2),
        c1.col <= c2.col,
        c1.row <= c2.row,
    ensures
        range_at(text, 0) == Some((seq![c1, c2], e2)),
{
    assert(ordered(c1, c2) =~= seq![c1, c2]);
}

/// Two addresses with a colon between them read back as their range.
pub proof fn lemma_read_two(v: Seq<Pos>, text: Seq<char>)
    requires
        range_ok(v),
        v.len() == 2,
        text == endpoint(v[0]) + seq![':'] + endpoint(v[1]),
    ensures
        range_at(text, 0) == Some((v, text.len() as int)),
{
    let e0 = endpoint(v[0]);
    let e1 = endpoint(v[1]);
    let n0 = e0.len() as int;
    lemma_three_parts(e0, seq![':'], e1);
    assert(text[n0] == ':') by {
        assert(text.subrange(n0, n0 + 1)[0] == text[n0]);
    }
    lemma_coord_round_trip(text, 0, v[0]);
    lemma_coord_round_trip(text, n0 + 1, v[1]);
    lemma_range_of_coords(text, v[0], n0, v[1], text.len() as int);
    assert(seq![v[0], v[1]] =~= v);
}

/// The title of a range reads back as the range: for every range that
/// `parse_range` gives, with or without anchors, a whole column or row too,
/// the text that `title` writes is read by `parse_range` to its end, and
/// gives the same range, whose title is that text again. This is said of
/// `parse_range`: `parse_arg` tries a number before a range, so the title of
/// a whole row, which begins with a digit, is a number to it.
pub proof fn lemma_range_round_trip(v: Seq<Pos>)
    requires
        range_ok(v),
    ensures
        range_at(range_title(v), 0) == Some((v, range_title(v).len() as int)),
{
    let text = range_title(v);
    if v.len() == 1 {
        assert(text == endpoint(v[0]));
        assert(text.subrange(0, text.len() as int) =~= text);
        lemma_coord_round_trip(text, 0, v[0]);
        assert(seq![v[0]] =~= v);
    } else {
        lemma_title_of_two(v);
        lemma_read_two(v, text);
    }
}

/// Whether a character is one that a written address is made of.
pub open spec fn address_char(c: char) -> bool {
    c == '$' || ('A' <= c <= 'Z') || digit(c)
}

/// A written address is made of anchors, capitals and digits, and it is not
/// empty.
pub proof fn lemma_endpoint_chars(p: Pos)
    requires
        coord_ok(p),
    ensures
        endpoint(p).len() > 0,
        forall|i: int| 0 <= i < endpoint(p).len() ==> address_char(#[trigger] endpoint(p)[i]),
        letter(endpoint(p)[0]) || endpoint(p)[0] == '$' || digit(endpoint(p)[0]),
{
    let a1 = anchor(p.fixed_col);
    let name = column_text(p.col);
    let a2 = anchor(p.fixed_row);
    let digits = row_text(p.row);
    let text = endpoint(p);
    assert(text =~= a1 + name + a2 + digits);
    if p.col != UNINIT {
        lemma_column_name_index(p.col as int);
    }
    if p.row != UNINIT {
        lemma_decimal((p.row + 1) as nat);
    }
    assert forall|i: int| 0 <= i < text.len() implies address_char(#[trigger] text[i]) by {
        if i < a1.len() {
            assert(text[i] == a1[i]);
        } else if i < a1.len() + name.len() {
            assert(text[i] == name[i - a1.len()]);
        } else if i < a1.len() + name.len() + a2.len() {
            assert(text[i] == a2[i - a1.len() - name.len()]);
        } else {
            assert(text[i] == digits[i - a1.len() - name.len() - a2.len()]);
            assert(digit(digits[i - a1.len() - name.len() - a2.len()]));
        }
    }
    assert(address_char(text[0]));
}

/// The formula that is the address of one cell has one token: the range of
/// that cell.
pub proof fn lemma_reference_tokens(p: Pos, t: Table)
    requires
        coord_ok(p),
        !digit(endpoint(p)[0]),
    ensures
        tokens_from(endpoint(p), 0, t) == Ok::<_, Halt>(seq![Token::Rng(None, seq![p])]),
{
    let s = endpoint(p);
    let n = s.len() as int;
    lemma_endpoint_chars(p);
    assert(s.subrange(0, n) =~= s);
    lemma_coord_round_trip(s, 0, p);
    // nothing stands before the token
    assert(!white(s[0]));
    assert(span(s, Class::White, 0) == 0);
    // it is no function
    let e = ident_end(s, 0);
    if 0 < n && ident_start(s[0]) {
        lemma_span(s, Class::Ident, 1);
    }
    assert(!at(s, e, '(')) by {
        if 0 <= e < n {
            assert(address_char(s[e]));
        }
    }
    assert(func_end(s, 0) == 0);
    // no sheet is named
    lemma_span(s, Class::SheetName, 0);
    let j = span(s, Class::SheetName, 0);
    assert(!at(s, j, '!')) by {
        if 0 <= j < n {
            assert(address_char(s[j]));
        }
    }
    assert(s[0] != '\'');
    assert(sheet_at(s, 0) == Some((Seq::<char>::empty(), 0int)));
    assert(range_at(s, 0) == Some((seq![p], n)));
    assert(full_range_at(s, 0) == Ok::<_, Error>((Seq::<char>::empty(), seq![p], n)));
    assert(arg_at(s, 0, t) == Ok::<_, Halt>((Token::Rng(None, seq![p]), n)));
    // and nothing follows it
    assert(span(s, Class::White, n) == n);
    assert(arg_at(s, n, t) == Ok::<_, Halt>((Token::End, n)));
    assert(tokens_from(s, n, t) == Ok::<_, Halt>(Seq::<Token>::empty()));
    assert(seq![Token::Rng(None, seq![p])] + Seq::<Token>::empty() =~= seq![
        Token::Rng(None, seq![p]),
    ]);
}

/// One value is its own program.
pub proof fn lemma_postfix_of_value(tok: Token)
    requires
        tok is Rng,
    ensures
        postfix(seq![tok]) == Ok::<_, Error>(seq![tok]),
{
    let args = seq![tok];
    let start = Yard { stack: Seq::empty(), out: Seq::empty(), last_op: true };
    let next = Yard { stack: Seq::empty(), out: seq![tok], last_op: false };
    assert(yard_step(start, args, 0) == Ok::<_, Error>(next)) by {
        assert(Seq::<Token>::empty().push(tok) =~= seq![tok]);
    }
    assert(yard_run(next, args, 1) == Ok::<_, Error>(next));
    assert(yard_run(start, args, 0) == Ok::<_, Error>(next));
    assert(next.out + next.stack.reverse() =~= seq![tok]);
}

/// A cell whose formula is its own address holds a recursion error after it
/// was evaluated: whatever else the sheet holds, the evaluation ends, the
/// other cells stay as they were, and the cell has the code of the recursion
/// error and no value.
pub proof fn lemma_self_reference(cells: Map<u64, CellView>, p: Pos, t: Table)
    requires
        coord_ok(p),
        p.col < MAX_COLS,
        p.row < MAX_ROWS,
        cells.contains_key(key_of(p.col as int, p.row as int) as u64),
        cells[key_of(p.col as int, p.row as int) as u64].val == seq!['='] + endpoint(p),
    ensures
        refreshed(cells, key_of(p.col as int, p.row as int) as u64, t) == Ok::<_, Halt>(
            cells.insert(
                key_of(p.col as int, p.row as int) as u64,
                CellView {
                    calculated: Token::End,
                    err: ERR_RECURSION,
                    ..cells[key_of(p.col as int, p.row as int) as u64]
                },
            ),
        ),
{
    let key = key_of(p.col as int, p.row as int) as u64;
    let cell = cells[key];
    let body = cell.val.skip(1);
    assert(body =~= endpoint(p));
    lemma_endpoint_chars(p);
    lemma_reference_tokens(p, t);
    let tok = Token::Rng(None, seq![p]);
    lemma_postfix_of_value(tok);
    assert(program_of(body, t) == Ok::<_, Halt>(seq![tok]));
    let st = entering(cells, key);
    let fuel = unvisited(st);
    let prog = seq![tok];
    assert(apply(st, tok, Seq::empty(), t, fuel) == (st, Ok::<_, Halt>(seq![tok]))) by {
        assert(Seq::<Token>::empty().push(tok) =~= seq![tok]);
    }
    assert(cell.is_expr());
    assert(mark_of(st.cache, key) == IN_PROGRESS);
    assert(resolve(st, tok, t, fuel) == (st, Err::<Token, _>(Halt::Failed(Error::RecursionDetected))));
    assert(run(st, prog, 1, seq![tok], t, fuel) == (
        st,
        Err::<Token, _>(Halt::Failed(Error::RecursionDetected)),
    ));
    assert(run(st, prog, 0, Seq::empty(), t, fuel) == (
        st,
        Err::<Token, _>(Halt::Failed(Error::RecursionDetected)),
    ));
}

/// A string literal that is written reads back as its text: `to_expr` puts
/// a text between quotes and doubles the quotes inside it, and
/// `parse_string` undoes both, whatever follows the literal but another
/// quote.
pub proof fn lemma_quoted_round_trip(text: Seq<char>, rest: Seq<char>)
    requires
        rest.len() == 0 || rest[0] != '"',
    ensures
        string_at(quoted(text) + rest, 0) == Ok::<_, Error>((text, quoted(text).len() as int)),
{
    let s = quoted(text) + rest;
    assert(s[0] == '"');
    lemma_quoted_body(text, rest, seq!['"'], 1);
    assert(seq!['"'] + quoted_body(text) + rest =~= s);
}

/// The body of a string literal that stands in a text behind `head` reads
/// back.
pub proof fn lemma_quoted_body(text: Seq<char>, rest: Seq<char>, head: Seq<char>, i: int)
    requires
        i == head.len(),
        rest.len() == 0 || rest[0] != '"',
    ensures
        string_body(head + quoted_body(text) + rest, i) == Some(
            (text, i + quoted_body(text).len()),
        ),
    decreases text.len(),
{
    let body = quoted_body(text);
    let s = head + body + rest;
    if text.len() == 0 {
        assert(body =~= seq!['"']);
        assert(s[i] == '"');
        assert(!at(s, i + 1, '"')) by {
            if i + 1 < s.len() {
                assert(s[i + 1] == rest[0]);
            }
        }
        assert(text =~= Seq::<char>::empty());
    } else {
        let tail = text.drop_first();
        let tb = quoted_body(tail);
        if text[0] == '"' {
            assert(body =~= seq!['"', '"'] + tb);
            let h2 = head + seq!['"', '"'];
            assert(h2 + tb + rest =~= s);
            lemma_quoted_body(tail, rest, h2, i + 2);
            assert(s[i] == '"');
            assert(s[i + 1] == '"');
            assert(seq!['"'] + tail =~= text);
        } else {
            assert(body =~= seq![text[0]] + tb);
            let h2 = head + seq![text[0]];
            assert(h2 + tb + rest =~= s);
            lemma_quoted_body(tail, rest, h2, i + 1);
            assert(s[i] == text[0]);
            assert(seq![text[0]] + tail =~= text);
        }
    }
}

/// An address whose axes are both anchored stays where it is, however far
/// it is moved; so does every address that is moved by nothing.
pub proof fn lemma_moved_anchored(p: Pos, dcol: isize, drow: isize)
    ensures
        p.fixed_col && p.fixed_row ==> moved(p, dcol, drow) == p,
        p.col < UNINIT - 1 && p.row < UNINIT - 1 ==> moved(p, 0, 0) == p,
        moved(p, dcol, drow).fixed_col == p.fixed_col,
        moved(p, dcol, drow).fixed_row == p.fixed_row,
        p.fixed_col ==> moved(p, dcol, drow).col == p.col,
        p.fixed_row ==> moved(p, dcol, drow).row == p.row,
{
}

/// Whether the row of the cursor is on the screen: in the band of fixed
/// rows, where there is one, or among the rows of the window behind it.
pub open spec fn row_on_screen(s: Sheet) -> bool {
    if s.fixed_rows != 0 && s.fixed_rows < s.rows() {
        s.cursor.row < s.fixed_rows || s.first_row + s.fixed_rows <= s.cursor.row < s.first_row
            + s.rows()
    } else {
        s.first_row <= s.cursor.row < s.first_row + s.rows()
    }
}

/// After `ensure_visible_row` the row of the cursor is on the screen, if
/// the screen has a row for cells at all.
pub proof fn lemma_row_shown(s: Sheet)
    requires
        s.wf(),
        s.h >= 2,
    ensures
        row_on_screen(s.row_shown()),
        s.row_shown().wf(),
{
}

/// The widths of the columns from `a` up to, but not with, `b` together.
pub open spec fn widths_between(widths: Map<u64, u16>, a: int, b: int) -> int
    decreases b - a,
{
    if a >= b {
        0
    } else {
        width_of(widths, a as u64) + widths_between(widths, a + 1, b)
    }
}

/// A run of columns is as wide as the run without its last column and that
/// column.
pub proof fn lemma_widths_between_last(widths: Map<u64, u16>, a: int, b: int)
    requires
        0 <= a < b,
    ensures
        widths_between(widths, a, b) == widths_between(widths, a, b - 1) + width_of(
            widths,
            (b - 1) as u64,
        ),
        widths_between(widths, a, b) >= 0,
    decreases b - a,
{
    if a + 1 < b {
        lemma_widths_between_last(widths, a + 1, b);
        assert(widths_between(widths, a, b - 1) == width_of(widths, a as u64) + widths_between(
            widths,
            a + 1,
            b - 1,
        ));
    } else {
        assert(widths_between(widths, a + 1, b) == 0);
        assert(widths_between(widths, a, b - 1) == 0);
    }
}

/// A run of columns is no wider than a longer run that ends with it.
pub proof fn lemma_widths_between_grows(widths: Map<u64, u16>, a: int, b: int, c: int)
    requires
        0 <= a <= b <= c,
    ensures
        0 <= widths_between(widths, b, c) <= widths_between(widths, a, c),
    decreases b - a,
{
    if b < c {
        lemma_widths_between_last(widths, b, c);
    }
    if a < b {
        lemma_widths_between_grows(widths, a + 1, b, c);
    }
}

/// The window that the scan from the cursor backwards finds holds the
/// columns from its first one to that of the cursor.
pub proof fn lemma_scan_back(
    widths: Map<u64, u16>,
    cid: int,
    filled: int,
    w: int,
    keep: int,
    col: int,
    taken: int,
)
    requires
        -1 <= cid < col,
        0 <= keep <= col,
        filled == taken + widths_between(widths, cid + 1, col + 1),
        filled <= w,
    ensures
        0 <= scan_back(widths, cid, filled, w, keep) <= col,
        taken + widths_between(widths, scan_back(widths, cid, filled, w, keep), col + 1) <= w,
    decreases cid + 1,
{
    if cid < 0 {
        lemma_widths_between_grows(widths, 0, keep, col + 1);
    } else if filled + width_of(widths, cid as u64) > w {
    } else {
        lemma_scan_back(widths, cid - 1, filled + width_of(widths, cid as u64), w, keep, col, taken);
    }
}

/// A scan forwards goes on as long as the columns fit.
pub proof fn lemma_scan_cols(widths: Map<u64, u16>, c: int, colpos: int, w: int, first: int, col: int)
    requires
        0 <= c <= col < MAX_COLS,
        colpos + widths_between(widths, c, col + 1) <= w,
        forall|x: u64| width_of(widths, x) >= 1,
    ensures
        scan_cols(widths, c, colpos, w, first).0 >= col,
    decreases col - c,
{
    if c < col {
        lemma_widths_between_grows(widths, c + 1, col, col + 1);
        lemma_widths_between_last(widths, c + 1, col + 1);
        assert(width_of(widths, col as u64) >= 1);
        lemma_scan_cols(widths, c + 1, colpos + width_of(widths, c as u64), w, first, col);
    } else {
        lemma_scan_from(widths, c, colpos, w, first);
    }
}

/// A scan forwards ends at the column where it began or behind it.
pub proof fn lemma_scan_from(widths: Map<u64, u16>, c: int, colpos: int, w: int, first: int)
    requires
        0 <= c < MAX_COLS,
    ensures
        c <= scan_cols(widths, c, colpos, w, first).0 < MAX_COLS,
    decreases MAX_COLS - c,
{
    if colpos + width_of(widths, c as u64) >= w {
    } else if c == MAX_COLS - 1 {
    } else {
        lemma_scan_from(widths, c + 1, colpos + width_of(widths, c as u64), w, first);
    }
}

/// Whether the column of the cursor is on the screen: in the band of fixed
/// columns, where there is one, or between the first and the last column of
/// the window.
pub open spec fn col_on_screen(s: Sheet) -> bool {
    (s.col_fixed() && s.cursor.col < s.fixed_cols) || s.first_col <= s.cursor.col <= s.last_col().0
}

/// After `ensure_visible_col` the column of the cursor is on the screen, if
/// no column has the width zero.
pub proof fn lemma_col_shown(s: Sheet)
    requires
        s.wf(),
        forall|x: u64| width_of(s.widths@, x) >= 1,
    ensures
        col_on_screen(s.col_shown()),
        s.col_shown().wf(),
{
    let col = s.cursor.col as int;
    let t = s.col_shown();
    let first = t.first_col as int;
    lemma_sum_widths_bound(s.widths@, s.fixed_cols as int);
    assert(t.col_fixed() == s.col_fixed());
    assert(t.fixed_width() == s.fixed_width());
    let start = DEF_NUM_WIDTH + if s.col_fixed() { s.fixed_width() } else { 0 };
    if col == s.first_col || (s.col_fixed() && col < s.fixed_cols) {
        lemma_scan_from(s.widths@, s.first_col as int, start, s.w as int, s.first_col as int);
    } else if col < s.first_col {
        lemma_scan_from(s.widths@, col, start, s.w as int, col);
    } else if col < s.last_col().0 || (col == s.last_col().0 && s.last_col().1) {
    } else {
        let taken = s.fixed_width() + DEF_NUM_WIDTH;
        let filled = width_of(s.widths@, col as u64) + taken;
        if filled >= s.w {
            lemma_scan_from(s.widths@, col, start, s.w as int, col);
        } else {
            lemma_widths_between_last(s.widths@, col, col + 1);
            lemma_scan_back(s.widths@, col - 1, filled, s.w as int, s.first_col as int, col, taken);
            lemma_scan_cols(s.widths@, first, start, s.w as int, first, col);
        }
    }
}

} // verus!
