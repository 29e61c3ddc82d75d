//! Texts cut and padded to a number of screen columns.
use vstd::prelude::*;
use vstd::string::StringExecFns;
use unicode_width::UnicodeWidthChar;
use unicode_width::UnicodeWidthStr;
use crate::text::{chars_of, string_of};

verus! {

/// Stands for "no limit" where a number of columns is asked for.
pub const UNLIM: usize = usize::MAX;

/// The number of columns that a character takes on the screen; `None` for a
/// control character.
pub uninterp spec fn char_columns(c: char) -> Option<usize>;

/// The number of columns that a text takes on the screen. It is not always
/// the sum over its characters: some sequences of characters are drawn as
/// one.
pub uninterp spec fn str_columns(s: Seq<char>) -> usize;

/// `UnicodeWidthChar::width` of the crate `unicode-width` depends on the
/// character alone; its result is named [`char_columns`].
#[verifier::external_body]
fn char_width(c: char) -> (r: Option<usize>)
    ensures
        r == char_columns(c),
{
    UnicodeWidthChar::width(c)
}

/// `UnicodeWidthStr::width` of the crate `unicode-width` depends on the text
/// alone; its result is named [`str_columns`].
#[verifier::external_body]
pub(crate) fn str_width(s: &str) -> (r: usize)
    ensures
        r == str_columns(s@),
{
    UnicodeWidthStr::width(s)
}

/// The columns of a character, none for a control character.
pub open spec fn columns(c: char) -> int {
    match char_columns(c) {
        Some(w) => w as int,
        None => 0,
    }
}

fn columns_of(c: char) -> (r: usize)
    ensures
        r == columns(c),
{
    match char_width(c) {
        Some(w) => w,
        None => 0,
    }
}

/// `n` spaces.
pub open spec fn spaces(n: nat) -> Seq<char> {
    Seq::new(n, |i: int| ' ')
}

fn push_spaces(out: &mut String, n: usize)
    ensures
        final(out)@ == old(out)@ + spaces(n as nat),
{
    let mut i: usize = 0;
    assert(out@ =~= old(out)@ + spaces(0));
    while i < n
        invariant
            i <= n,
            out@ == old(out)@ + spaces(i as nat),
        decreases n - i,
    {
        out.push(' ');
        assert(out@ =~= old(out)@ + spaces((i + 1) as nat));
        i += 1;
    }
}

/// Where a run of characters that begins at `i` ends if it may take `room`
/// columns: before the first character that does not fit any more.
pub open spec fn fit_end(s: Seq<char>, i: int, room: int) -> int
    decreases s.len() - i,
{
    if i < 0 || i >= s.len() || columns(s[i]) > room {
        i
    } else {
        fit_end(s, i + 1, room - columns(s[i]))
    }
}

/// The part of a text that begins `start` characters into it and takes at
/// most `len` columns. Without a limit it is the rest of the text.
pub open spec fn cut_of(s: Seq<char>, start: usize, len: usize) -> Seq<char> {
    if start == 0 && str_columns(s) <= len {
        s
    } else if len == 0 || start >= s.len() {
        Seq::empty()
    } else if len == UNLIM {
        s.skip(start as int)
    } else {
        s.subrange(start as int, fit_end(s, start as int, len as int))
    }
}

fn fit(v: &Vec<char>, start: usize, room: usize) -> (e: usize)
    requires
        start <= v@.len(),
    ensures
        e == fit_end(v@, start as int, room as int),
        start <= e <= v@.len(),
{
    let mut i: usize = start;
    let mut left: usize = room;
    let mut full = false;
    while i < v.len() && !full
        invariant
            start <= i <= v@.len(),
            fit_end(v@, start as int, room as int) == fit_end(v@, i as int, left as int),
            full ==> i < v@.len() && columns(v@[i as int]) > left,
        decreases v@.len() - i + if full { 0int } else { 1int },
    {
        let w = columns_of(v[i]);
        if w > left {
            full = true;
        } else {
            left -= w;
            i += 1;
        }
    }
    i
}

/// The part of `s` that begins `start` characters into it and takes at most `len` screen
/// columns; with `UNLIM` for `len`, all that follows.
pub fn cut(s: &str, start: usize, len: usize) -> (r: String)
    ensures
        r@ == cut_of(s@, start, len),
{
    let w = str_width(s);
    if start == 0 && w <= len {
        return s.to_owned();
    }
    if len == 0 {
        return String::new();
    }
    let v = chars_of(s);
    if start >= v.len() {
        return String::new();
    }
    if len == UNLIM {
        let r = string_of(&v, start, v.len());
        assert(v@.subrange(start as int, v@.len() as int) =~= v@.skip(start as int));
        return r;
    }
    let end = fit(&v, start, len);
    string_of(&v, start, end)
}

/// The first character of the middle part of a text that is too wide: the
/// one that is reached when `skip` columns are passed over.
pub open spec fn middle_start(s: Seq<char>, i: int, skip: int) -> int
    decreases s.len() - i,
{
    if i < 0 || i >= s.len() || skip < columns(s[i]) {
        i
    } else {
        middle_start(s, i + 1, skip - columns(s[i]))
    }
}

/// A text centred in `width` columns. A narrower text gets spaces on both
/// sides, the odd one on the right. Of a wider text the middle is taken: it
/// begins where half of the surplus is passed over, and ends before the last
/// of the characters that fit behind its first one.
pub open spec fn center_of(s: Seq<char>, width: usize) -> Seq<char> {
    let w = str_columns(s);
    if w == width {
        s
    } else if w < width {
        spaces(((width - w) / 2) as nat) + s + spaces((width - w - (width - w) / 2) as nat)
    } else {
        let first = middle_start(s, 0, (w - width) / 2);
        let after = fit_end(s, first + 1, width as int);
        if first >= s.len() {
            Seq::empty()
        } else if after == first + 1 {
            s.skip(first)
        } else {
            s.subrange(first, after - 1)
        }
    }
}

/// `s` in the middle of `width` screen columns.
pub fn center(s: &str, width: usize) -> (r: String)
    ensures
        r@ == center_of(s@, width),
{
    let w = str_width(s);
    if w == width {
        return s.to_owned();
    }
    if w < width {
        let half: usize = (width - w) / 2;
        let mut out = String::new();
        push_spaces(&mut out, half);
        out.append(s);
        push_spaces(&mut out, width - w - half);
        assert(out@ =~= spaces(half as nat) + s@ + spaces((width - w - half) as nat));
        return out;
    }
    let v = chars_of(s);
    let mut skip: usize = (w - width) / 2;
    let mut first: usize = 0;
    let mut found = false;
    while first < v.len() && !found
        invariant
            first <= v@.len(),
            middle_start(v@, 0, ((w - width) / 2) as int) == middle_start(
                v@,
                first as int,
                skip as int,
            ),
            found ==> first < v@.len() && skip < columns(v@[first as int]),
        decreases v@.len() - first + if found { 0int } else { 1int },
    {
        let wc = columns_of(v[first]);
        if skip < wc {
            found = true;
        } else {
            skip -= wc;
            first += 1;
        }
    }
    if first >= v.len() {
        return String::new();
    }
    let after = fit(&v, first + 1, width);
    if after == first + 1 {
        let r = string_of(&v, first, v.len());
        assert(v@.subrange(first as int, v@.len() as int) =~= v@.skip(first as int));
        r
    } else {
        string_of(&v, first, after - 1)
    }
}

/// Where the longest end of a text that takes at most `room` columns begins,
/// if it ends before `j`.
pub open spec fn fit_start(s: Seq<char>, j: int, room: int) -> int
    decreases j,
{
    if j <= 0 || j > s.len() || columns(s[j - 1]) > room {
        j
    } else {
        fit_start(s, j - 1, room - columns(s[j - 1]))
    }
}

/// A text on the right of `width` columns: with spaces before it where it is
/// narrower, else the longest end of it that fits.
pub open spec fn right_of(s: Seq<char>, width: usize) -> Seq<char> {
    if s.len() == 0 {
        Seq::empty()
    } else if str_columns(s) < width {
        spaces((width - str_columns(s)) as nat) + s
    } else {
        s.skip(fit_start(s, s.len() as int, width as int))
    }
}

/// `s` on the right of `width` screen columns.
pub fn right(s: &str, width: usize) -> (r: String)
    ensures
        r@ == right_of(s@, width),
{
    if s.unicode_len() == 0 {
        return String::new();
    }
    let w = str_width(s);
    if w < width {
        let mut out = String::new();
        push_spaces(&mut out, width - w);
        out.append(s);
        return out;
    }
    let v = chars_of(s);
    let mut first: usize = v.len();
    let mut left: usize = width;
    let mut full = false;
    while first > 0 && !full
        invariant
            first <= v@.len(),
            fit_start(v@, v@.len() as int, width as int) == fit_start(v@, first as int, left as int),
            full ==> first > 0 && columns(v@[first - 1]) > left,
        decreases first + if full { 0int } else { 1int },
    {
        let wc = columns_of(v[first - 1]);
        if wc > left {
            full = true;
        } else {
            left -= wc;
            first -= 1;
        }
    }
    let r = string_of(&v, first, v.len());
    assert(v@.subrange(first as int, v@.len() as int) =~= v@.skip(first as int));
    r
}

/// A text with spaces behind it up to `width` columns.
pub open spec fn pad_of(s: Seq<char>, width: usize) -> Seq<char> {
    if str_columns(s) >= width {
        s
    } else {
        s + spaces((width - str_columns(s)) as nat)
    }
}

/// `s` with spaces behind it up to `width` screen columns.
pub fn pad(s: &str, width: usize) -> (r: String)
    ensures
        r@ == pad_of(s@, width),
{
    let w = str_width(s);
    if w >= width {
        return s.to_owned();
    }
    let mut out = s.to_owned();
    push_spaces(&mut out, width - w);
    out
}

} // verus!
