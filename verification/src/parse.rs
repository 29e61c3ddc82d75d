//! The formula tokenizer: column names, cell addresses, ranges, literals,
//! operators and function names, each read from the front of a text.
use vstd::prelude::*;
use vstd::string::StringExecFns;
use crate::error::{Error, Halt, Stop};
use crate::number::{finite, Number, Numerics, Table};
use crate::ops::{Arg, Pos, Token, UNINIT};
use crate::text::{
    all_digits, decimal, decimal_value, digit, has_prefix, is_digit, is_letter, letter, chars_of,
    parse_decimal, skip_chars, starts_with, string_of, to_decimal, white,
};

verus! {

/// The number of columns with a name of one letter.
pub const NUM_LETTERS: usize = 26;

/// The number of columns with a name of two letters.
pub const TWO_LETTERS: usize = 676;

/// The number of columns with a name of three letters.
pub const THREE_LETTERS: usize = 17576;

/// The number of columns: those with a name of one, two or three letters.
pub const MAX_COLS: usize = NUM_LETTERS + TWO_LETTERS + THREE_LETTERS;

/// The number of rows.
pub const MAX_ROWS: usize = 99999;

/// The greatest length of the name of a column.
pub const MAX_COL_NAME_LEN: usize = 3;

/// The screen columns that the row numbers take.
pub const DEF_NUM_WIDTH: u16 = 5;

/// What is selected on a sheet.
#[derive(Debug, Copy, Clone, PartialEq, Eq, Structural)]
pub enum Range {
    /// No selection: the cell under the cursor.
    Single(Pos),
    /// A rectangle, by its top left and bottom right cells.
    Multi(Pos, Pos),
    /// A whole row.
    Row(usize),
    /// A whole column.
    Col(usize),
}

impl Range {
    /// First column, first row, last column, last row.
    pub fn indices(&self) -> (r: (usize, usize, usize, usize))
        requires
            *self is Single || *self is Multi,
        ensures
            *self matches Range::Single(c) ==> r == (c.col, c.row, c.col, c.row),
            *self matches Range::Multi(c1, c2) ==> r == (c1.col, c1.row, c2.col, c2.row),
    {
        match self {
            Range::Single(c) => (c.col, c.row, c.col, c.row),
            Range::Multi(c1, c2) => (c1.col, c1.row, c2.col, c2.row),
            _ => (0, 0, 0, 0),
        }
    }
}

/// The `i`-th capital letter.
pub open spec fn capital(i: int) -> char {
    (65 + i) as u8 as char
}

/// The name of a column: `A`..`Z`, then `AA`..`ZZ`, then `AAA`..`ZZZ`.
pub open spec fn column_name(id: int) -> Seq<char> {
    if id < 26 {
        seq![capital(id)]
    } else if id < 702 {
        seq![capital((id - 26) / 26), capital((id - 26) % 26)]
    } else {
        seq![capital((id - 702) / 676), capital((id - 702) % 676 / 26), capital((id - 702) % 26)]
    }
}

/// The place of a letter in the alphabet, whatever its case.
pub open spec fn letter_index(c: char) -> int {
    if 'a' <= c <= 'z' {
        c as int - 'a' as int
    } else {
        c as int - 'A' as int
    }
}

/// Whether a text is made of letters `a`..`z`, `A`..`Z`.
pub open spec fn all_letters(s: Seq<char>) -> bool {
    forall|i: int| 0 <= i < s.len() ==> letter(#[trigger] s[i])
}

/// The index of the column that `name` names, if it is one to three letters.
pub open spec fn column_index(name: Seq<char>) -> Option<int> {
    if name.len() == 0 || name.len() > 3 || !all_letters(name) {
        None
    } else if name.len() == 1 {
        Some(letter_index(name[0]))
    } else if name.len() == 2 {
        Some(26 + letter_index(name[0]) * 26 + letter_index(name[1]))
    } else {
        Some(702 + letter_index(name[0]) * 676 + letter_index(name[1]) * 26 + letter_index(name[2]))
    }
}

/// A letter as a capital.
pub open spec fn upper(c: char) -> char {
    if 'a' <= c <= 'z' {
        ((c as int - 32) as u8) as char
    } else {
        c
    }
}

fn inc_char(inc: usize) -> (c: char)
    requires
        inc < 26,
    ensures
        c == capital(inc as int),
{
    (65u8 + inc as u8) as char
}

/// The name of the column with the index `id`.
pub fn idx_to_name(id: usize) -> (name: String)
    requires
        id < MAX_COLS,
    ensures
        name@ == column_name(id as int),
{
    let mut name = String::new();
    if id < NUM_LETTERS {
        name.push(inc_char(id));
        assert(name@ =~= column_name(id as int));
        return name;
    }
    let id2: usize = id - NUM_LETTERS;
    if id2 < TWO_LETTERS {
        name.push(inc_char(id2 / NUM_LETTERS));
        name.push(inc_char(id2 % NUM_LETTERS));
        assert(name@ =~= column_name(id as int));
        return name;
    }
    let id3: usize = id2 - TWO_LETTERS;
    let second: usize = id3 % TWO_LETTERS;
    name.push(inc_char(id3 / TWO_LETTERS));
    name.push(inc_char(second / NUM_LETTERS));
    name.push(inc_char(second % NUM_LETTERS));
    assert(id3 % 26 == (id3 % 676) % 26) by (nonlinear_arith);
    assert(name@ =~= column_name(id as int));
    name
}

/// The index of the column that `name` names: one to three letters, in either case.
pub fn name_to_idx(name: &str) -> (r: Result<usize, Error>)
    ensures
        match r {
            Ok(id) => column_index(name@) == Some(id as int) && id < MAX_COLS,
            Err(e) => column_index(name@) is None && e == Error::InvalidAddress,
        },
{
    let n = name.unicode_len();
    if n == 0 || n > MAX_COL_NAME_LEN {
        return Err(Error::InvalidAddress);
    }
    let mut id: usize = 0;
    let mut i: usize = 0;
    while i < n
        invariant
            i <= n,
            n == name@.len(),
            1 <= n <= 3,
            all_letters(name@.take(i as int)),
            i == 0 ==> id == 0,
            i == 1 ==> id == letter_index(name@[0]),
            i == 2 ==> id == letter_index(name@[0]) * 26 + letter_index(name@[1]),
            i == 3 ==> id == letter_index(name@[0]) * 676 + letter_index(name@[1]) * 26
                + letter_index(name@[2]),
            forall|j: int| 0 <= j < i ==> 0 <= letter_index(#[trigger] name@[j]) < 26,
        decreases n - i,
    {
        let c = name.get_char(i);
        if !is_letter(c) {
            assert(!all_letters(name@)) by {
                if all_letters(name@) {
                    assert(letter(name@[i as int]));
                }
            }
            return Err(Error::InvalidAddress);
        }
        let d: usize = if c >= 'A' && c <= 'Z' {
            (c as u32 - 'A' as u32) as usize
        } else {
            (c as u32 - 'a' as u32) as usize
        };
        assert(d == letter_index(c));
        id = id * NUM_LETTERS + d;
        proof {
            assert forall|j: int| 0 <= j < i + 1 implies letter(#[trigger] name@.take(i + 1)[j]) by {
                if j < i {
                    assert(name@.take(i + 1)[j] == name@.take(i as int)[j]);
                }
            }
        }
        i += 1;
    }
    assert(name@.take(n as int) =~= name@);
    if n == 3 {
        id += TWO_LETTERS + NUM_LETTERS;
    } else if n == 2 {
        id += NUM_LETTERS;
    }
    Ok(id)
}

/// The name of a column is made of one to three capitals and names that
/// column.
pub proof fn lemma_column_name_index(id: int)
    requires
        0 <= id < MAX_COLS,
    ensures
        column_index(column_name(id)) == Some(id),
        1 <= column_name(id).len() <= 3,
        forall|i: int| 0 <= i < column_name(id).len() ==> 'A' <= #[trigger] column_name(id)[i] <= 'Z',
{
    let s = column_name(id);
    if id < 26 {
        assert(letter(s[0]));
    } else if id < 702 {
        let x = id - 26;
        assert(0 <= x / 26 < 26 && 0 <= x % 26 < 26 && (x / 26) * 26 + x % 26 == x)
            by (nonlinear_arith)
            requires
                0 <= x < 676,
        ;
        assert(letter(s[0]) && letter(s[1]));
    } else {
        let x = id - 702;
        assert(0 <= x / 676 < 26 && 0 <= x % 676 / 26 < 26 && 0 <= x % 26 < 26 && (x / 676) * 676 + (x
            % 676 / 26) * 26 + x % 26 == x) by (nonlinear_arith)
            requires
                0 <= x < 17576,
        ;
        assert(letter(s[0]) && letter(s[1]) && letter(s[2]));
    }
}

/// The name of the column that a valid name denotes is that name in capitals.
pub proof fn lemma_column_index_name(name: Seq<char>)
    requires
        column_index(name) is Some,
    ensures
        0 <= column_index(name)->0 < MAX_COLS,
        column_name(column_index(name)->0) == name.map_values(|c: char| upper(c)),
{
    let id = column_index(name)->0;
    let up = name.map_values(|c: char| upper(c));
    assert forall|i: int| 0 <= i < name.len() implies 0 <= letter_index(#[trigger] name[i]) < 26
        && capital(letter_index(name[i])) == upper(name[i]) by {
        assert(letter(name[i]));
    }
    if name.len() == 1 {
        assert(column_name(id) =~= up);
    } else if name.len() == 2 {
        let a = letter_index(name[0]);
        let b = letter_index(name[1]);
        assert((a * 26 + b) / 26 == a && (a * 26 + b) % 26 == b) by (nonlinear_arith)
            requires
                0 <= a < 26,
                0 <= b < 26,
        ;
        assert(column_name(id) =~= up);
    } else {
        let a = letter_index(name[0]);
        let b = letter_index(name[1]);
        let c = letter_index(name[2]);
        let x = a * 676 + b * 26 + c;
        assert(x / 676 == a && x % 676 / 26 == b && x % 26 == c && 0 <= x < 17576)
            by (nonlinear_arith)
            requires
                0 <= a < 26,
                0 <= b < 26,
                0 <= c < 26,
                x == a * 676 + b * 26 + c,
        ;
        assert(column_name(id) =~= up);
    }
}

/// Whether the character has the Unicode property `Alphabetic`, as
/// `char::is_alphabetic` tells it.
pub uninterp spec fn alphabetic(c: char) -> bool;

/// `char::is_alphabetic` depends on the character alone; its result is named
/// [`alphabetic`].
pub assume_specification[ char::is_alphabetic ](c: char) -> (r: bool)
    ensures
        r == alphabetic(c),
;

/// A set of characters that a scan runs through.
#[derive(Debug, Clone, Copy, PartialEq, Eq, Structural)]
pub enum Class {
    /// `a`..`z` and `A`..`Z`.
    Letter,
    /// `0`..`9`.
    Digit,
    /// ASCII whitespace.
    White,
    /// What may follow the first character of an identifier.
    Ident,
    /// What an unquoted sheet name is made of.
    SheetName,
    /// Everything but the double quote.
    NotQuote,
    /// Everything but the apostrophe.
    NotApostrophe,
}

/// Whether an identifier can begin with the character.
pub open spec fn ident_start(c: char) -> bool {
    alphabetic(c) || c == '_'
}

/// Whether an identifier can go on with the character.
pub open spec fn ident_cont(c: char) -> bool {
    alphabetic(c) || digit(c) || c == '_' || c == '.'
}

/// Whether an unquoted sheet name can hold the character.
pub open spec fn sheet_name_char(c: char) -> bool {
    alphabetic(c) || digit(c) || c == '-' || c == '_' || c == ':' || c == '/' || c == '(' || c == ')'
        || c == '+'
}

/// Whether a character is of a class.
pub open spec fn in_class(k: Class, c: char) -> bool {
    match k {
        Class::Letter => letter(c),
        Class::Digit => digit(c),
        Class::White => white(c),
        Class::Ident => ident_cont(c),
        Class::SheetName => sheet_name_char(c),
        Class::NotQuote => c != '"',
        Class::NotApostrophe => c != '\'',
    }
}

/// Where the run of characters of class `k` that begins at `i` ends.
pub open spec fn span(s: Seq<char>, k: Class, i: int) -> int
    decreases s.len() - i,
{
    if 0 <= i < s.len() && in_class(k, s[i]) {
        span(s, k, i + 1)
    } else {
        i
    }
}

/// A run ends within the text, holds characters of its class only, and ends before a
/// character that is not of its class.
pub proof fn lemma_span(s: Seq<char>, k: Class, i: int)
    requires
        0 <= i <= s.len(),
    ensures
        i <= span(s, k, i) <= s.len(),
        forall|j: int| i <= j < span(s, k, i) ==> in_class(k, #[trigger] s[j]),
        span(s, k, i) < s.len() ==> !in_class(k, s[span(s, k, i)]),
    decreases s.len() - i,
{
    if i < s.len() && in_class(k, s[i]) {
        lemma_span(s, k, i + 1);
    }
}

/// A run is known by its end: everything before it is in the class, and what
/// stands there is not.
pub proof fn lemma_span_is(s: Seq<char>, k: Class, i: int, e: int)
    requires
        0 <= i <= e <= s.len(),
        forall|j: int| i <= j < e ==> in_class(k, #[trigger] s[j]),
        e < s.len() ==> !in_class(k, s[e]),
    ensures
        span(s, k, i) == e,
    decreases e - i,
{
    if i < e {
        lemma_span_is(s, k, i + 1, e);
    }
}

/// Whether the character `c` stands at `i`.
pub open spec fn at(s: Seq<char>, i: int, c: char) -> bool {
    0 <= i < s.len() && s[i] == c
}

/// Whether the character is ASCII whitespace.
pub fn is_white(c: char) -> (r: bool)
    ensures
        r == white(c),
{
    c == ' ' || c == '\t' || c == '\n' || c == '\x0C' || c == '\r'
}

fn is_ident_start(c: char) -> (r: bool)
    ensures
        r == ident_start(c),
{
    c.is_alphabetic() || c == '_'
}

fn is_ident_cont(c: char) -> (r: bool)
    ensures
        r == ident_cont(c),
{
    c.is_alphabetic() || is_digit(c) || c == '_' || c == '.'
}

fn is_sheet_name(c: char) -> (r: bool)
    ensures
        r == sheet_name_char(c),
{
    c.is_alphabetic() || is_digit(c) || c == '-' || c == '_' || c == ':' || c == '/' || c == '('
        || c == ')' || c == '+'
}

fn has_class(k: Class, c: char) -> (r: bool)
    ensures
        r == in_class(k, c),
{
    match k {
        Class::Letter => is_letter(c),
        Class::Digit => is_digit(c),
        Class::White => is_white(c),
        Class::Ident => is_ident_cont(c),
        Class::SheetName => is_sheet_name(c),
        Class::NotQuote => c != '"',
        Class::NotApostrophe => c != '\'',
    }
}

fn run(v: &Vec<char>, k: Class, i: usize) -> (e: usize)
    requires
        i <= v@.len(),
    ensures
        e == span(v@, k, i as int),
        i <= e <= v@.len(),
{
    let mut e: usize = i;
    while e < v.len() && has_class(k, v[e])
        invariant
            i <= e <= v@.len(),
            span(v@, k, i as int) == span(v@, k, e as int),
        decreases v@.len() - e,
    {
        e += 1;
    }
    e
}

fn is_at(v: &Vec<char>, i: usize, c: char) -> (r: bool)
    ensures
        r == at(v@, i as int, c),
        r ==> i < usize::MAX,
{
    i < v.len() && v[i] == c
}

/// The text without the ASCII whitespace before it.
pub fn skip_white(s: &str) -> (r: &str)
    ensures
        r@ == s@.skip(span(s@, Class::White, 0)),
{
    let v = chars_of(s);
    let e = run(&v, Class::White, 0);
    skip_chars(s, e)
}

/// Takes `what` from the front of `s`, if `s` begins with it.
pub fn parse_literal<'a, 'b>(s: &'a str, what: &'b str) -> (r: (&'a str, bool))
    ensures
        r.1 == has_prefix(s@, what@),
        r.1 ==> r.0@ == s@.skip(what@.len() as int),
        !r.1 ==> r.0@ == s@,
{
    if !starts_with(s, what) {
        return (s, false);
    }
    let n = what.unicode_len();
    (skip_chars(s, n), true)
}

/// Takes a comma from the front of `s`.
pub fn parse_comma(s: &str) -> (r: (&str, bool))
    ensures
        r.1 == at(s@, 0, ','),
        r.1 ==> r.0@ == s@.skip(1),
        !r.1 ==> r.0@ == s@,
{
    proof {
        reveal_strlit(",");
        if at(s@, 0, ',') {
            assert(s@.subrange(0, 1) =~= ","@);
        }
        if has_prefix(s@, ","@) {
            assert(s@.subrange(0, 1)[0] == ","@[0]);
        }
    }
    parse_literal(s, ",")
}

/// The first of `what` that `s` begins with, if there is one.
pub open spec fn first_prefix(s: Seq<char>, what: Seq<&str>, k: int) -> Option<int>
    decreases what.len() - k,
{
    if k < 0 || k >= what.len() {
        None
    } else if has_prefix(s, what[k]@) {
        Some(k)
    } else {
        first_prefix(s, what, k + 1)
    }
}

/// Takes from the front of `s` the first of `what` that `s` begins with.
pub fn parse_any_literal<'a, 'b>(s: &'a str, what: &'b [&'b str]) -> (r: (&'a str, String))
    ensures
        match first_prefix(s@, what@, 0) {
            Some(k) => r.1@ == what@[k]@ && r.0@ == s@.skip(what@[k]@.len() as int),
            None => r.1@.len() == 0 && r.0@ == s@,
        },
{
    let mut i: usize = 0;
    while i < what.len()
        invariant
            i <= what@.len(),
            first_prefix(s@, what@, 0) == first_prefix(s@, what@, i as int),
        decreases what@.len() - i,
    {
        let w: &str = what[i];
        if starts_with(s, w) {
            let n = w.unicode_len();
            return (skip_chars(s, n), w.to_owned());
        }
        i += 1;
    }
    (s, String::new())
}

/// Takes the first character of `s` if it is one of the characters of `what`.
pub fn parse_any_char<'a, 'b>(s: &'a str, what: &'b str) -> (r: (&'a str, String))
    ensures
        s@.len() > 0 && what@.contains(s@[0]) ==> r.1@ == seq![s@[0]] && r.0@ == s@.skip(1),
        !(s@.len() > 0 && what@.contains(s@[0])) ==> r.1@.len() == 0 && r.0@ == s@,
{
    if s.unicode_len() == 0 {
        return (s, String::new());
    }
    let c = s.get_char(0);
    let n = what.unicode_len();
    let mut i: usize = 0;
    while i < n
        invariant
            i <= n,
            n == what@.len(),
            s@.len() > 0,
            c == s@[0],
            forall|j: int| 0 <= j < i ==> what@[j] != c,
        decreases n - i,
    {
        if what.get_char(i) == c {
            let mut st = String::new();
            st.push(c);
            assert(st@ =~= seq![c]);
            return (skip_chars(s, 1), st);
        }
        i += 1;
    }
    (s, String::new())
}

/// Takes characters from the front of `s` as long as `f` accepts them.
pub fn parse_while<F: Fn(char) -> bool>(s: &str, f: F) -> (r: (&str, String))
    requires
        forall|c: char| f.requires((c,)),
    ensures
        r.1@.len() <= s@.len(),
        r.1@ == s@.take(r.1@.len() as int),
        r.0@ == s@.skip(r.1@.len() as int),
        forall|i: int| 0 <= i < r.1@.len() ==> f.ensures((#[trigger] s@[i],), true),
        r.1@.len() < s@.len() ==> f.ensures((s@[r.1@.len() as int],), false),
{
    let v = chars_of(s);
    let mut i: usize = 0;
    let mut more: bool = true;
    while more && i < v.len()
        invariant
            i <= v@.len(),
            v@ == s@,
            forall|c: char| f.requires((c,)),
            forall|j: int| 0 <= j < i ==> f.ensures((#[trigger] s@[j],), true),
            !more ==> i < v@.len() && f.ensures((s@[i as int],), false),
        decreases v@.len() - i + if more { 1int } else { 0int },
    {
        if f(v[i]) {
            i += 1;
        } else {
            more = false;
        }
    }
    let res = string_of(&v, 0, i);
    assert(s@.subrange(0, i as int) =~= s@.take(i as int));
    (skip_chars(s, i), res)
}

/// An identifier at `i`: its end, or `i` where none begins.
pub open spec fn ident_end(s: Seq<char>, i: int) -> int {
    if 0 <= i < s.len() && ident_start(s[i]) {
        span(s, Class::Ident, i + 1)
    } else {
        i
    }
}

/// A function name at `i`, which is an identifier that an opening round
/// bracket follows: its end, or `i` where there is none.
pub open spec fn func_end(s: Seq<char>, i: int) -> int {
    if at(s, ident_end(s, i), '(') {
        ident_end(s, i)
    } else {
        i
    }
}

fn ident_at(v: &Vec<char>, i: usize) -> (e: usize)
    requires
        i <= v@.len(),
    ensures
        e == ident_end(v@, i as int),
        i <= e <= v@.len(),
{
    if i < v.len() && is_ident_start(v[i]) {
        run(v, Class::Ident, i + 1)
    } else {
        i
    }
}

fn func_at(v: &Vec<char>, i: usize) -> (e: usize)
    requires
        i <= v@.len(),
    ensures
        e == func_end(v@, i as int),
        i <= e <= v@.len(),
{
    let e = ident_at(v, i);
    if is_at(v, e, '(') {
        e
    } else {
        i
    }
}

/// Takes an identifier from the front of `s`: a letter or `_`, then letters, digits, `_` and
/// `.`.
pub fn parse_ident(s: &str) -> (r: (&str, String))
    ensures
        r.1@ == s@.take(ident_end(s@, 0)),
        r.0@ == s@.skip(ident_end(s@, 0)),
{
    let v = chars_of(s);
    let e = ident_at(&v, 0);
    let id = string_of(&v, 0, e);
    assert(s@.subrange(0, e as int) =~= s@.take(e as int));
    (skip_chars(s, e), id)
}

/// Takes a function name from the front of `s`: an identifier that `(` follows. The
/// bracket is left.
pub fn parse_func(s: &str) -> (r: (&str, String))
    ensures
        r.1@ == s@.take(func_end(s@, 0)),
        func_end(s@, 0) > 0 ==> r.0@ == s@.skip(func_end(s@, 0)),
        func_end(s@, 0) == 0 ==> r.0@ == s@,
{
    let v = chars_of(s);
    let e = func_at(&v, 0);
    let id = string_of(&v, 0, e);
    assert(s@.subrange(0, e as int) =~= s@.take(e as int));
    if e == 0 {
        (s, id)
    } else {
        (skip_chars(s, e), id)
    }
}

/// The address at `i` and its end, or `None` where there is none: an optional
/// `$`, up to three letters, an optional `$`, digits. One of the letters and
/// the digits may be missing; a missing part cannot be anchored.
pub open spec fn coord_at(s: Seq<char>, i: int) -> Option<(Pos, int)> {
    let fixed1 = at(s, i, '$');
    let i1 = if fixed1 { i + 1 } else { i };
    let i2 = span(s, Class::Letter, i1);
    let name = s.subrange(i1, i2);
    let fixed2 = at(s, i2, '$');
    let i3 = if fixed2 { i2 + 1 } else { i2 };
    let i4 = span(s, Class::Digit, i3);
    let digits = s.subrange(i3, i4);
    let pos = Pos {
        col: if i2 == i1 { UNINIT } else { column_index(name).unwrap() as usize },
        row: if i4 == i3 { UNINIT } else { (decimal_value(digits) - 1) as usize },
        fixed_col: fixed1 && i2 > i1,
        fixed_row: fixed2 || (fixed1 && i2 == i1),
        full_col: i4 == i3,
        full_row: i2 == i1,
    };
    if i2 == i1 && i4 == i3 {
        None
    } else if i2 > i1 && column_index(name) is None {
        None
    } else if i4 > i3 && (decimal_value(digits) > usize::MAX || decimal_value(digits) == 0) {
        None
    } else if (pos.fixed_col && pos.full_col) || (pos.fixed_row && pos.full_row) {
        None
    } else {
        Some((pos, i4))
    }
}

/// Whether two addresses cannot be the corners of one range.
pub open spec fn corners_differ(c1: Pos, c2: Pos) -> bool {
    ||| c1.full_col && c1.col != UNINIT && (!c2.full_col || c2.col != c1.col)
    ||| c1.full_row && c1.row != UNINIT && (!c2.full_row || c2.row != c1.row)
    ||| ((c1.row == UNINIT) != (c2.row == UNINIT)) && c1.col != c2.col
    ||| ((c1.col == UNINIT) != (c2.col == UNINIT)) && c1.row != c2.row
    ||| c2.full_col && (c1.fixed_col != c2.fixed_col)
    ||| c2.full_row && (c1.fixed_row != c2.fixed_row)
}

/// Two corners with the smaller column and the smaller row in the first.
pub open spec fn ordered(c1: Pos, c2: Pos) -> Seq<Pos> {
    seq![
        Pos {
            col: if c1.col > c2.col { c2.col } else { c1.col },
            row: if c1.row > c2.row { c2.row } else { c1.row },
            ..c1
        },
        Pos {
            col: if c1.col > c2.col { c1.col } else { c2.col },
            row: if c1.row > c2.row { c1.row } else { c2.row },
            ..c2
        },
    ]
}

/// The range at `i` and its end: one address, or two with a colon between
/// them.
pub open spec fn range_at(s: Seq<char>, i: int) -> Option<(Seq<Pos>, int)> {
    match coord_at(s, i) {
        None => None,
        Some((c1, e1)) => if !at(s, e1, ':') {
            Some((seq![c1], e1))
        } else {
            match coord_at(s, e1 + 1) {
                None => None,
                Some((c2, e2)) => if corners_differ(c1, c2) {
                    None
                } else {
                    Some((ordered(c1, c2), e2))
                },
            }
        },
    }
}

/// The sheet name at `i`, which an exclamation mark ends, and where the text
/// goes on. Without the mark there is no name and nothing is taken. `None`
/// where a name begins with an apostrophe and no second one follows.
pub open spec fn sheet_at(s: Seq<char>, i: int) -> Option<(Seq<char>, int)> {
    if at(s, i, '\'') {
        let j = span(s, Class::NotApostrophe, i + 1);
        if !at(s, j, '\'') {
            None
        } else if at(s, j + 1, '!') {
            Some((s.subrange(i + 1, j), j + 2))
        } else {
            Some((Seq::empty(), i))
        }
    } else {
        let j = span(s, Class::SheetName, i);
        if at(s, j, '!') {
            Some((s.subrange(i, j), j + 1))
        } else {
            Some((Seq::empty(), i))
        }
    }
}

/// A range that a sheet name may precede: the name, the positions, the end.
pub open spec fn full_range_at(s: Seq<char>, i: int) -> Result<(Seq<char>, Seq<Pos>, int), Error> {
    match sheet_at(s, i) {
        None => Err(Error::UnterminatedString),
        Some((name, j)) => match range_at(s, j) {
            None => Err(Error::InvalidAddress),
            Some((v, e)) => Ok((name, v, e)),
        },
    }
}

fn parse_coord(v: &Vec<char>, i: usize) -> (r: Option<(Pos, usize)>)
    requires
        i <= v@.len(),
    ensures
        match r {
            Some((pos, e)) => coord_at(v@, i as int) == Some((pos, e as int)) && i < e <= v@.len(),
            None => coord_at(v@, i as int) is None,
        },
{
    let fixed1 = is_at(v, i, '$');
    let i1: usize = if fixed1 { i + 1 } else { i };
    let i2 = run(v, Class::Letter, i1);
    let fixed2 = is_at(v, i2, '$');
    let i3: usize = if fixed2 { i2 + 1 } else { i2 };
    let i4 = run(v, Class::Digit, i3);
    if i2 == i1 && i4 == i3 {
        return None;
    }
    let mut c = Pos {
        col: UNINIT,
        row: UNINIT,
        fixed_col: fixed1 && i2 > i1,
        fixed_row: fixed2 || (fixed1 && i2 == i1),
        full_col: i4 == i3,
        full_row: i2 == i1,
    };
    if i2 > i1 {
        let name = string_of(v, i1, i2);
        match name_to_idx(name.as_str()) {
            Ok(col) => {
                c.col = col;
            },
            Err(_) => {
                return None;
            },
        }
    }
    if i4 > i3 {
        let digits = string_of(v, i3, i4);
        proof {
            lemma_span(v@, Class::Digit, i3 as int);
            assert(all_digits(digits@)) by {
                assert forall|j: int| 0 <= j < digits@.len() implies digit(#[trigger] digits@[j]) by {
                    assert(in_class(Class::Digit, v@[i3 + j]));
                }
            }
        }
        match parse_decimal(digits.as_str(), usize::MAX as u64) {
            Some(row) => {
                if row == 0 {
                    return None;
                }
                c.row = (row - 1) as usize;
            },
            None => {
                return None;
            },
        }
    }
    if (c.fixed_col && c.full_col) || (c.fixed_row && c.full_row) {
        return None;
    }
    Some((c, i4))
}

fn range_in(v: &Vec<char>, i: usize) -> (r: Option<(Vec<Pos>, usize)>)
    requires
        i <= v@.len(),
    ensures
        match r {
            Some((ps, e)) => range_at(v@, i as int) == Some((ps@, e as int)) && i < e <= v@.len(),
            None => range_at(v@, i as int) is None,
        },
{
    let mut coords: Vec<Pos> = Vec::new();
    let (mut c1, e1) = match parse_coord(v, i) {
        Some(x) => x,
        None => {
            return None;
        },
    };
    if !is_at(v, e1, ':') {
        coords.push(c1);
        assert(coords@ =~= seq![c1]);
        return Some((coords, e1));
    }
    let (mut c2, e2) = match parse_coord(v, e1 + 1) {
        Some(x) => x,
        None => {
            return None;
        },
    };
    if c1.full_col && c1.col != UNINIT && (!c2.full_col || c2.col != c1.col) {
        return None;
    }
    if c1.full_row && c1.row != UNINIT && (!c2.full_row || c2.row != c1.row) {
        return None;
    }
    if ((c1.row == UNINIT) != (c2.row == UNINIT)) && c1.col != c2.col {
        return None;
    }
    if ((c1.col == UNINIT) != (c2.col == UNINIT)) && c1.row != c2.row {
        return None;
    }
    if c2.full_col && (c1.fixed_col != c2.fixed_col) {
        return None;
    }
    if c2.full_row && (c1.fixed_row != c2.fixed_row) {
        return None;
    }
    let ghost (o1, o2) = (c1, c2);
    if c1.col > c2.col {
        let t: usize = c1.col;
        c1.col = c2.col;
        c2.col = t;
    }
    if c1.row > c2.row {
        let t: usize = c1.row;
        c1.row = c2.row;
        c2.row = t;
    }
    coords.push(c1);
    coords.push(c2);
    assert(coords@ =~= ordered(o1, o2));
    Some((coords, e2))
}

fn parse_sheet_name(v: &Vec<char>, i: usize) -> (r: Option<(String, usize)>)
    requires
        i <= v@.len(),
    ensures
        match r {
            Some((name, e)) => sheet_at(v@, i as int) == Some((name@, e as int)) && i <= e
                <= v@.len(),
            None => sheet_at(v@, i as int) is None,
        },
{
    if is_at(v, i, '\'') {
        let j = run(v, Class::NotApostrophe, i + 1);
        if !is_at(v, j, '\'') {
            return None;
        }
        if is_at(v, j + 1, '!') {
            Some((string_of(v, i + 1, j), j + 2))
        } else {
            Some((String::new(), i))
        }
    } else {
        let j = run(v, Class::SheetName, i);
        if is_at(v, j, '!') {
            Some((string_of(v, i, j), j + 1))
        } else {
            Some((String::new(), i))
        }
    }
}

fn full_range_in(v: &Vec<char>, i: usize) -> (r: Result<(String, Vec<Pos>, usize), Error>)
    requires
        i <= v@.len(),
    ensures
        match r {
            Ok((name, ps, e)) => full_range_at(v@, i as int) == Ok::<_, Error>(
                (name@, ps@, e as int),
            ) && i < e <= v@.len(),
            Err(e) => full_range_at(v@, i as int) == Err::<(Seq<char>, Seq<Pos>, int), _>(e),
        },
{
    let (name, j) = match parse_sheet_name(v, i) {
        Some(x) => x,
        None => {
            return Err(Error::UnterminatedString);
        },
    };
    match range_in(v, j) {
        Some((ps, e)) => Ok((name, ps, e)),
        None => Err(Error::InvalidAddress),
    }
}

/// Reads a range from the front of `s`: one address, or two with a colon between them,
/// which are put in order.
pub fn parse_range(s: &str) -> (r: Result<(&str, Vec<Pos>), Error>)
    ensures
        match r {
            Ok((rest, ps)) => range_at(s@, 0) == Some((ps@, s@.len() - rest@.len())) && rest@
                == s@.skip(s@.len() - rest@.len()),
            Err(e) => range_at(s@, 0) is None && e == Error::InvalidAddress,
        },
{
    let v = chars_of(s);
    match range_in(&v, 0) {
        Some((ps, e)) => Ok((skip_chars(s, e), ps)),
        None => Err(Error::InvalidAddress),
    }
}

/// Reads a range that a sheet name may precede.
pub fn parse_full_range(s: &str) -> (r: Result<(&str, Vec<Pos>, String), Error>)
    ensures
        match r {
            Ok((rest, ps, name)) => full_range_at(s@, 0) == Ok::<_, Error>(
                (name@, ps@, s@.len() - rest@.len()),
            ) && rest@ == s@.skip(s@.len() - rest@.len()),
            Err(e) => full_range_at(s@, 0) == Err::<(Seq<char>, Seq<Pos>, int), _>(e),
        },
{
    let v = chars_of(s);
    match full_range_in(&v, 0) {
        Ok((name, ps, e)) => Ok((skip_chars(s, e), ps, name)),
        Err(e) => Err(e),
    }
}

/// The text of a string literal whose opening quote stands before `i`, and
/// where the text goes on after its closing quote. Two quotes in a row stand
/// for one quote inside the text. `None` where no closing quote follows.
pub open spec fn string_body(s: Seq<char>, i: int) -> Option<(Seq<char>, int)>
    decreases s.len() - i,
{
    if i < 0 || i >= s.len() {
        None
    } else if s[i] != '"' {
        match string_body(s, i + 1) {
            Some((t, e)) => Some((seq![s[i]] + t, e)),
            None => None,
        }
    } else if at(s, i + 1, '"') {
        match string_body(s, i + 2) {
            Some((t, e)) => Some((seq!['"'] + t, e)),
            None => None,
        }
    } else {
        Some((Seq::empty(), i + 1))
    }
}

/// The string literal at `i`.
pub open spec fn string_at(s: Seq<char>, i: int) -> Result<(Seq<char>, int), Error> {
    if !at(s, i, '"') {
        Err(Error::MissingQuote)
    } else {
        match string_body(s, i + 1) {
            Some(x) => Ok(x),
            None => Err(Error::UnterminatedString),
        }
    }
}

/// What the rest of a string literal adds to the text read so far.
pub open spec fn string_after(acc: Seq<char>, rest: Option<(Seq<char>, int)>) -> Option<
    (Seq<char>, int),
> {
    match rest {
        Some((t, e)) => Some((acc + t, e)),
        None => None,
    }
}

fn string_in(v: &Vec<char>, i: usize) -> (r: Result<(String, usize), Error>)
    requires
        i <= v@.len(),
    ensures
        match r {
            Ok((text, e)) => string_at(v@, i as int) == Ok::<_, Error>((text@, e as int)) && i < e
                <= v@.len(),
            Err(e) => string_at(v@, i as int) == Err::<(Seq<char>, int), _>(e),
        },
{
    if !is_at(v, i, '"') {
        return Err(Error::MissingQuote);
    }
    let mut ss = String::new();
    let mut j: usize = i + 1;
    proof {
        let rest = string_body(v@, j as int);
        if rest is Some {
            assert(Seq::<char>::empty() + rest.unwrap().0 =~= rest.unwrap().0);
        }
    }
    while j < v.len()
        invariant
            i < j <= v@.len(),
            at(v@, i as int, '"'),
            string_body(v@, i + 1) == string_after(ss@, string_body(v@, j as int)),
        decreases v@.len() - j,
    {
        let c = v[j];
        let ghost before = ss@;
        if c != '"' {
            ss.push(c);
            proof {
                let rest = string_body(v@, j + 1);
                if rest is Some {
                    assert(before + (seq![c] + rest.unwrap().0) =~= before.push(c) + rest.unwrap().0);
                }
            }
            j += 1;
        } else if is_at(v, j + 1, '"') {
            ss.push('"');
            proof {
                let rest = string_body(v@, j + 2);
                if rest is Some {
                    assert(before + (seq!['"'] + rest.unwrap().0) =~= before.push('"') + rest.unwrap().0);
                }
            }
            j += 2;
        } else {
            proof {
                assert(before + Seq::<char>::empty() =~= before);
                assert(string_body(v@, j as int) == Some((Seq::<char>::empty(), j + 1)));
            }
            return Ok((ss, j + 1));
        }
    }
    Err(Error::UnterminatedString)
}

/// Reads a string literal from the front of `s`.
pub fn parse_string(s: &str) -> (r: Result<(&str, String), Error>)
    ensures
        match r {
            Ok((rest, text)) => string_at(s@, 0) == Ok::<_, Error>(
                (text@, s@.len() - rest@.len()),
            ) && rest@ == s@.skip(s@.len() - rest@.len()),
            Err(e) => string_at(s@, 0) == Err::<(Seq<char>, int), _>(e),
        },
{
    let v = chars_of(s);
    match string_in(&v, 0) {
        Ok((text, e)) => Ok((skip_chars(s, e), text)),
        Err(e) => Err(e),
    }
}

/// The whole number at `i` and its end; `None` where no digit stands there or
/// the number is above `i64::MAX`.
pub open spec fn int_at(s: Seq<char>, i: int) -> Option<(int, int)> {
    let j = span(s, Class::Digit, i);
    let value = decimal_value(s.subrange(i, j));
    if j == i || value > i64::MAX {
        None
    } else {
        Some((value as int, j))
    }
}

/// Reads a whole number from the front of `s`.
pub fn parse_int(s: &str) -> (r: Result<(&str, i64), Error>)
    ensures
        match r {
            Ok((rest, n)) => int_at(s@, 0) == Some((n as int, s@.len() - rest@.len())) && rest@
                == s@.skip(s@.len() - rest@.len()),
            Err(e) => int_at(s@, 0) is None && e == Error::InvalidNumber,
        },
{
    let v = chars_of(s);
    let j = run(&v, Class::Digit, 0);
    if j == 0 {
        return Err(Error::InvalidNumber);
    }
    let digits = string_of(&v, 0, j);
    proof {
        lemma_span(v@, Class::Digit, 0);
        assert forall|k: int| 0 <= k < digits@.len() implies digit(#[trigger] digits@[k]) by {
            assert(in_class(Class::Digit, v@[k]));
        }
    }
    match parse_decimal(digits.as_str(), 0x7fff_ffff_ffff_ffff) {
        Some(n) => Ok((skip_chars(s, j), n as i64)),
        None => Err(Error::InvalidNumber),
    }
}

/// The numeric literal at `i` as the text to convert, and its end: digits, an
/// optional point with digits, an optional exponent. An exponent without
/// digits counts as zero. `None` where no digit stands at `i`.
pub open spec fn number_at(s: Seq<char>, i: int) -> Option<(Seq<char>, int)> {
    let j = span(s, Class::Digit, i);
    let k = if at(s, j, '.') { span(s, Class::Digit, j + 1) } else { j };
    let m = if at(s, k + 1, '-') || at(s, k + 1, '+') { k + 2 } else { k + 1 };
    let n = span(s, Class::Digit, m);
    if j == i {
        None
    } else if !(at(s, k, 'e') || at(s, k, 'E')) {
        Some((s.subrange(i, k), k))
    } else if n == m {
        Some((s.subrange(i, m).push('0'), n))
    } else {
        Some((s.subrange(i, n), n))
    }
}

/// A number read from text is taken only if it is finite.
pub open spec fn finite_number(t: Table, text: Seq<char>) -> Result<u64, Halt> {
    match t.parse(text) {
        Err(h) => Err(h),
        Ok(None) => Err(Halt::Failed(Error::InvalidNumber)),
        Ok(Some(bits)) => if finite(bits) {
            Ok(bits)
        } else {
            Err(Halt::Failed(Error::InvalidNumber))
        },
    }
}

/// The number at `i` and its end.
pub open spec fn float_at(s: Seq<char>, i: int, t: Table) -> Result<(u64, int), Halt> {
    match number_at(s, i) {
        None => Err(Halt::Failed(Error::InvalidNumber)),
        Some((text, e)) => match finite_number(t, text) {
            Ok(bits) => Ok((bits, e)),
            Err(h) => Err(h),
        },
    }
}

fn number_in(v: &Vec<char>, i: usize) -> (r: Option<(String, usize)>)
    requires
        i <= v@.len(),
    ensures
        match r {
            Some((text, e)) => number_at(v@, i as int) == Some((text@, e as int)) && i < e
                <= v@.len(),
            None => number_at(v@, i as int) is None,
        },
{
    let j = run(v, Class::Digit, i);
    if j == i {
        return None;
    }
    let k: usize = if is_at(v, j, '.') { run(v, Class::Digit, j + 1) } else { j };
    if !(is_at(v, k, 'e') || is_at(v, k, 'E')) {
        return Some((string_of(v, i, k), k));
    }
    let m: usize = if is_at(v, k + 1, '-') || is_at(v, k + 1, '+') { k + 2 } else { k + 1 };
    let n = run(v, Class::Digit, m);
    if n == m {
        let mut text = string_of(v, i, m);
        text.push('0');
        Some((text, n))
    } else {
        Some((string_of(v, i, n), n))
    }
}

fn finite_in(numbers: &Numerics, text: &str) -> (r: Result<Number, Stop>)
    ensures
        match r {
            Ok(n) => finite_number(numbers@, text@) == Ok::<_, Halt>(n.bits),
            Err(e) => finite_number(numbers@, text@) == Err::<u64, _>(e@),
        },
{
    match numbers.parse(text) {
        Err(e) => Err(e),
        Ok(None) => Err(Stop::Failed(Error::InvalidNumber)),
        Ok(Some(n)) => if n.is_finite() {
            Ok(n)
        } else {
            Err(Stop::Failed(Error::InvalidNumber))
        },
    }
}

fn float_in(v: &Vec<char>, i: usize, numbers: &Numerics) -> (r: Result<(Number, usize), Stop>)
    requires
        i <= v@.len(),
    ensures
        match r {
            Ok((n, e)) => float_at(v@, i as int, numbers@) == Ok::<_, Halt>((n.bits, e as int))
                && i < e <= v@.len(),
            Err(e) => float_at(v@, i as int, numbers@) == Err::<(u64, int), _>(e@),
        },
{
    match number_in(v, i) {
        None => Err(Stop::Failed(Error::InvalidNumber)),
        Some((text, e)) => match finite_in(numbers, text.as_str()) {
            Ok(n) => Ok((n, e)),
            Err(h) => Err(h),
        },
    }
}

/// Reads a number from the front of `s`. The table tells which number the
/// literal denotes.
pub fn parse_float<'a>(s: &'a str, numbers: &Numerics) -> (r: Result<(&'a str, Number), Stop>)
    ensures
        match r {
            Ok((rest, n)) => float_at(s@, 0, numbers@) == Ok::<_, Halt>(
                (n.bits, s@.len() - rest@.len()),
            ) && rest@ == s@.skip(s@.len() - rest@.len()),
            Err(e) => float_at(s@, 0, numbers@) == Err::<(u64, int), _>(e@),
        },
{
    let v = chars_of(s);
    match float_in(&v, 0, numbers) {
        Ok((n, e)) => Ok((skip_chars(s, e), n)),
        Err(e) => Err(e),
    }
}

/// Whether `a` stands at `i` and `b` behind it.
pub open spec fn two(s: Seq<char>, i: int, a: char, b: char) -> bool {
    at(s, i, a) && at(s, i + 1, b)
}

/// Whether a comparison of two characters stands at `i`.
pub open spec fn comparison2(s: Seq<char>, i: int) -> bool {
    two(s, i, '<', '>') || two(s, i, '!', '=') || two(s, i, '<', '=') || two(s, i, '>', '=') || two(
        s,
        i,
        '=',
        '=',
    )
}

/// Whether the character is a comparison.
pub open spec fn comparison1(c: char) -> bool {
    c == '<' || c == '>' || c == '='
}

/// Whether the character is an operator.
pub open spec fn operator_char(c: char) -> bool {
    c == '+' || c == '-' || c == '/' || c == '*' || c == '%' || c == '&' || c == '^'
}

/// The comparison, operator or bracket at `i`, and its end.
pub open spec fn symbol_at(s: Seq<char>, i: int) -> Option<(Token, int)> {
    if comparison2(s, i) {
        Some((Token::Eq(s.subrange(i, i + 2)), i + 2))
    } else if !(0 <= i < s.len()) {
        None
    } else if comparison1(s[i]) {
        Some((Token::Eq(s.subrange(i, i + 1)), i + 1))
    } else if operator_char(s[i]) {
        Some((Token::Op(s.subrange(i, i + 1)), i + 1))
    } else if s[i] == '(' || s[i] == '[' {
        Some((Token::OBracket(s.subrange(i, i + 1)), i + 1))
    } else if s[i] == ')' || s[i] == ']' {
        Some((Token::CBracket(s.subrange(i, i + 1)), i + 1))
    } else {
        None
    }
}

/// The token at `i` and its end; `End` at the end of the text. The
/// alternatives in the order in which they are tried: a comma, a string, a
/// function name, a number, a range, then comparisons, operators and
/// brackets. A range is tried at a letter, at a dollar sign, and at the
/// apostrophe that opens a sheet name.
pub open spec fn arg_at(s: Seq<char>, i: int, t: Table) -> Result<(Token, int), Halt> {
    if !(0 <= i < s.len()) {
        Ok((Token::End, i))
    } else if s[i] == ',' {
        Ok((Token::Comma, i + 1))
    } else if s[i] == '"' {
        match string_at(s, i) {
            Ok((text, e)) => Ok((Token::Str(text), e)),
            Err(e) => Err(Halt::Failed(e)),
        }
    } else if func_end(s, i) > i {
        Ok((Token::Func(s.subrange(i, func_end(s, i)), 0), func_end(s, i)))
    } else if digit(s[i]) {
        match float_at(s, i, t) {
            Ok((bits, e)) => Ok((Token::Number(bits), e)),
            Err(Halt::Unanswered(q)) => Err(Halt::Unanswered(q)),
            Err(Halt::Failed(_)) => Err(Halt::Failed(Error::UnparsedToken)),
        }
    } else if letter(s[i]) || s[i] == '$' || s[i] == '\'' {
        match full_range_at(s, i) {
            Ok((name, v, e)) => Ok((Token::Rng(if name.len() == 0 { None } else { Some(name) }, v), e)),
            Err(e) => Err(Halt::Failed(e)),
        }
    } else {
        match symbol_at(s, i) {
            Some(x) => Ok(x),
            None => Err(Halt::Failed(Error::UnparsedToken)),
        }
    }
}

fn symbol_in(v: &Vec<char>, i: usize) -> (r: Option<(Arg, usize)>)
    requires
        i < v@.len(),
    ensures
        match r {
            Some((a, e)) => symbol_at(v@, i as int) == Some((a@, e as int)) && i < e <= v@.len(),
            None => symbol_at(v@, i as int) is None,
        },
{
    let c = v[i];
    if i < v.len() - 1 {
        let d = v[i + 1];
        if (c == '<' && d == '>') || (c == '!' && d == '=') || (c == '<' && d == '=') || (c == '>'
            && d == '=') || (c == '=' && d == '=') {
            return Some((Arg::Eq(string_of(v, i, i + 2)), i + 2));
        }
    }
    if c == '<' || c == '>' || c == '=' {
        Some((Arg::Eq(string_of(v, i, i + 1)), i + 1))
    } else if c == '+' || c == '-' || c == '/' || c == '*' || c == '%' || c == '&' || c == '^' {
        Some((Arg::Op(string_of(v, i, i + 1)), i + 1))
    } else if c == '(' || c == '[' {
        Some((Arg::OBracket(string_of(v, i, i + 1)), i + 1))
    } else if c == ')' || c == ']' {
        Some((Arg::CBracket(string_of(v, i, i + 1)), i + 1))
    } else {
        None
    }
}

/// The token at `i`, which is `End` at the end of the text, and where the
/// text goes on.
pub fn arg_in(v: &Vec<char>, i: usize, numbers: &Numerics) -> (r: Result<(Arg, usize), Stop>)
    requires
        i <= v@.len(),
    ensures
        match r {
            Ok((a, e)) => arg_at(v@, i as int, numbers@) == Ok::<_, Halt>((a@, e as int)) && i <= e
                <= v@.len() && (a@ is End || i < e),
            Err(e) => arg_at(v@, i as int, numbers@) == Err::<(Token, int), _>(e@),
        },
{
    if i >= v.len() {
        return Ok((Arg::End, i));
    }
    let c = v[i];
    if c == ',' {
        return Ok((Arg::Comma, i + 1));
    }
    if c == '"' {
        return match string_in(v, i) {
            Ok((text, e)) => Ok((Arg::Str(text), e)),
            Err(e) => Err(Stop::Failed(e)),
        };
    }
    let f = func_at(v, i);
    if f > i {
        return Ok((Arg::Func(string_of(v, i, f), 0), f));
    }
    if is_digit(c) {
        return match float_in(v, i, numbers) {
            Ok((n, e)) => Ok((Arg::Number(n), e)),
            Err(Stop::Unanswered(q)) => Err(Stop::Unanswered(q)),
            Err(Stop::Failed(_)) => Err(Stop::Failed(Error::UnparsedToken)),
        };
    }
    if is_letter(c) || c == '$' || c == '\'' {
        return match full_range_in(v, i) {
            Ok((name, ps, e)) => {
                let sheet = if name.as_str().unicode_len() == 0 {
                    None
                } else {
                    Some(name)
                };
                Ok((Arg::Rng(sheet, ps), e))
            },
            Err(e) => Err(Stop::Failed(e)),
        };
    }
    match symbol_in(v, i) {
        Some(x) => Ok(x),
        None => Err(Stop::Failed(Error::UnparsedToken)),
    }
}

/// Reads one token from the front of `s`.
pub fn parse_arg<'a>(s: &'a str, numbers: &Numerics) -> (r: Result<(&'a str, Arg), Stop>)
    ensures
        match r {
            Ok((rest, a)) => arg_at(s@, 0, numbers@) == Ok::<_, Halt>(
                (a@, s@.len() - rest@.len()),
            ) && rest@ == s@.skip(s@.len() - rest@.len()),
            Err(e) => arg_at(s@, 0, numbers@) == Err::<(Token, int), _>(e@),
        },
{
    let v = chars_of(s);
    match arg_in(&v, 0, numbers) {
        Ok((a, e)) => Ok((skip_chars(s, e), a)),
        Err(e) => Err(e),
    }
}

/// A string literal ends within the text and behind its beginning.
pub proof fn lemma_string_body_bounds(s: Seq<char>, i: int)
    requires
        0 <= i,
    ensures
        string_body(s, i) matches Some((_, e)) ==> i < e <= s.len(),
    decreases s.len() - i,
{
    if i < s.len() {
        if s[i] != '"' {
            lemma_string_body_bounds(s, i + 1);
        } else if at(s, i + 1, '"') {
            lemma_string_body_bounds(s, i + 2);
        }
    }
}

/// An address ends within the text and behind its beginning.
pub proof fn lemma_coord_bounds(s: Seq<char>, i: int)
    requires
        0 <= i <= s.len(),
    ensures
        coord_at(s, i) matches Some((_, e)) ==> i < e <= s.len(),
{
    let i1 = if at(s, i, '$') { i + 1 } else { i };
    lemma_span(s, Class::Letter, i1);
    let i2 = span(s, Class::Letter, i1);
    let i3 = if at(s, i2, '$') { i2 + 1 } else { i2 };
    lemma_span(s, Class::Digit, i3);
}

/// A range ends within the text and behind its beginning.
pub proof fn lemma_range_bounds(s: Seq<char>, i: int)
    requires
        0 <= i <= s.len(),
    ensures
        range_at(s, i) matches Some((_, e)) ==> i < e <= s.len(),
{
    lemma_coord_bounds(s, i);
    if coord_at(s, i) is Some {
        let e1 = coord_at(s, i).unwrap().1;
        if at(s, e1, ':') {
            lemma_coord_bounds(s, e1 + 1);
        }
    }
}

/// A sheet name ends within the text.
pub proof fn lemma_sheet_bounds(s: Seq<char>, i: int)
    requires
        0 <= i <= s.len(),
    ensures
        sheet_at(s, i) matches Some((_, e)) ==> i <= e <= s.len(),
{
    if at(s, i, '\'') {
        lemma_span(s, Class::NotApostrophe, i + 1);
    } else {
        lemma_span(s, Class::SheetName, i);
    }
}

/// A numeric literal ends within the text and behind its beginning.
pub proof fn lemma_number_bounds(s: Seq<char>, i: int)
    requires
        0 <= i <= s.len(),
    ensures
        number_at(s, i) matches Some((_, e)) ==> i < e <= s.len(),
{
    lemma_span(s, Class::Digit, i);
    let j = span(s, Class::Digit, i);
    if at(s, j, '.') {
        lemma_span(s, Class::Digit, j + 1);
    }
    let k = if at(s, j, '.') { span(s, Class::Digit, j + 1) } else { j };
    if at(s, k, 'e') || at(s, k, 'E') {
        let m = if at(s, k + 1, '-') || at(s, k + 1, '+') { k + 2 } else { k + 1 };
        lemma_span(s, Class::Digit, m);
    }
}

/// Every token but `End` takes at least one character.
pub proof fn lemma_arg_bounds(s: Seq<char>, i: int, t: Table)
    requires
        0 <= i <= s.len(),
    ensures
        arg_at(s, i, t) matches Ok((tok, e)) ==> i <= e <= s.len() && (tok is End || i < e),
{
    if i < s.len() {
        lemma_string_body_bounds(s, i + 1);
        if ident_start(s[i]) {
            lemma_span(s, Class::Ident, i + 1);
        }
        lemma_number_bounds(s, i);
        lemma_sheet_bounds(s, i);
        if sheet_at(s, i) is Some {
            lemma_range_bounds(s, sheet_at(s, i).unwrap().1);
        }
    }
}

impl Range {
    /// Whether the range can be written: its columns have names and its rows
    /// numbers.
    pub open spec fn nameable(self) -> bool {
        match self {
            Range::Single(p) => p.col < MAX_COLS && p.row < usize::MAX,
            Range::Multi(p1, p2) => p1.col < MAX_COLS && p1.row < usize::MAX && p2.col < MAX_COLS
                && p2.row < usize::MAX,
            Range::Col(c) => c < MAX_COLS,
            Range::Row(_) => true,
        }
    }

    /// The range as text: `A1`, `A1:B2`, `COL A`, `ROW 1`.
    pub open spec fn text(self) -> Seq<char> {
        match self {
            Range::Single(p) => column_name(p.col as int) + decimal((p.row + 1) as nat),
            Range::Multi(p1, p2) => column_name(p1.col as int) + decimal((p1.row + 1) as nat)
                + seq![':'] + column_name(p2.col as int) + decimal((p2.row + 1) as nat),
            Range::Col(c) => "COL "@ + column_name(c as int),
            Range::Row(r) => "ROW "@ + decimal(r as nat),
        }
    }

    /// The range as text.
    pub fn to_string(&self) -> (r: String)
        requires
            self.nameable(),
        ensures
            r@ == self.text(),
    {
        match self {
            Range::Single(p) => {
                let mut out = idx_to_name(p.col);
                out.append(to_decimal(p.row + 1).as_str());
                out
            },
            Range::Multi(p1, p2) => {
                let mut out = idx_to_name(p1.col);
                out.append(to_decimal(p1.row + 1).as_str());
                out.push(':');
                out.append(idx_to_name(p2.col).as_str());
                out.append(to_decimal(p2.row + 1).as_str());
                out
            },
            Range::Col(c) => {
                let mut out = "COL ".to_owned();
                out.append(idx_to_name(*c).as_str());
                out
            },
            Range::Row(r) => {
                let mut out = "ROW ".to_owned();
                out.append(to_decimal(*r).as_str());
                out
            },
        }
    }
}

} // verus!
