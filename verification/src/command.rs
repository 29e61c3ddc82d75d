//! The command line: what the user asks for with a line of text.
use vstd::prelude::*;
use crate::expr::lowercase;
use crate::parse::{span, Class};
use crate::stack::skip_spaces;
use crate::text::{chars_of, str_eq, string_of, trim, trimmed};

verus! {

/// Rows or columns.
#[derive(Debug, Copy, Clone, PartialEq, Eq, Structural)]
pub enum Axis {
    Row,
    Col,
}

/// What is wrong with a command line.
#[derive(Debug, Copy, Clone, PartialEq, Eq, Structural)]
pub enum Complaint {
    /// A file is to be written or read, and no path is given.
    EmptyPath,
    /// `fix` and `nofix` want `row`, `col` or `column`.
    AxisWanted,
    /// The command is not known.
    Unknown,
}

/// What a command line asks for.
#[derive(Debug, Clone, PartialEq, Eq)]
pub enum UserCommand {
    /// Begin anew with one empty sheet.
    Reset,
    /// Write the sheets to a file.
    Save(String),
    /// Read the sheets from a file.
    Load(String),
    /// Leave, unless something was changed and not saved.
    Quit,
    /// Leave.
    QuitNow,
    /// Fix the rows or columns up to the cursor.
    Fix(Axis),
    /// Fix no row or no column.
    NoFix(Axis),
    /// A new sheet with this name, or with a name of its own where none is
    /// given.
    NewPage(String),
    /// Nothing that can be done.
    Invalid(Complaint),
}

/// A [`UserCommand`] as a plain value.
pub enum Wish {
    Reset,
    Save(Seq<char>),
    Load(Seq<char>),
    Quit,
    QuitNow,
    Fix(Axis),
    NoFix(Axis),
    NewPage(Seq<char>),
    Invalid(Complaint),
}

impl View for UserCommand {
    type V = Wish;

    open spec fn view(&self) -> Wish {
        match *self {
            UserCommand::Reset => Wish::Reset,
            UserCommand::Save(p) => Wish::Save(p@),
            UserCommand::Load(p) => Wish::Load(p@),
            UserCommand::Quit => Wish::Quit,
            UserCommand::QuitNow => Wish::QuitNow,
            UserCommand::Fix(a) => Wish::Fix(a),
            UserCommand::NoFix(a) => Wish::NoFix(a),
            UserCommand::NewPage(n) => Wish::NewPage(n@),
            UserCommand::Invalid(c) => Wish::Invalid(c),
        }
    }
}

/// Where the word that begins at `i` ends: before the next space.
pub open spec fn word_end(s: Seq<char>, i: int) -> int
    decreases s.len() - i,
{
    if 0 <= i < s.len() && s[i] != ' ' {
        word_end(s, i + 1)
    } else {
        i
    }
}

/// The axis that a word names.
pub open spec fn axis_of(word: Seq<char>) -> Option<Axis> {
    if word == "row"@ {
        Some(Axis::Row)
    } else if word == "col"@ || word == "column"@ {
        Some(Axis::Col)
    } else {
        None
    }
}

/// What a command line that is trimmed and in small letters asks for: its
/// first word is the command, the word behind it what the command is about.
pub open spec fn wish_of(s: Seq<char>) -> Wish {
    let e1 = word_end(s, 0);
    let cmd = s.subrange(0, e1);
    let a = span(s, Class::White, e1);
    let e2 = word_end(s, a);
    let word = s.subrange(a, e2);
    if cmd == "reset"@ {
        Wish::Reset
    } else if cmd == "save"@ || cmd == "s"@ {
        if word.len() == 0 {
            Wish::Invalid(Complaint::EmptyPath)
        } else {
            Wish::Save(word)
        }
    } else if cmd == "load"@ || cmd == "l"@ {
        if word.len() == 0 {
            Wish::Invalid(Complaint::EmptyPath)
        } else {
            Wish::Load(word)
        }
    } else if cmd == "q"@ || cmd == "quit"@ {
        Wish::Quit
    } else if cmd == "q!"@ || cmd == "quit!"@ {
        Wish::QuitNow
    } else if cmd == "fix"@ {
        match axis_of(word) {
            Some(axis) => Wish::Fix(axis),
            None => Wish::Invalid(Complaint::AxisWanted),
        }
    } else if cmd == "nofix"@ {
        match axis_of(word) {
            Some(axis) => Wish::NoFix(axis),
            None => Wish::Invalid(Complaint::AxisWanted),
        }
    } else if cmd == "newpage"@ {
        Wish::NewPage(trimmed(s.skip(a)))
    } else {
        Wish::Invalid(Complaint::Unknown)
    }
}

fn end_of_word(v: &Vec<char>, i: usize) -> (e: usize)
    requires
        i <= v@.len(),
    ensures
        e == word_end(v@, i as int),
        i <= e <= v@.len(),
{
    let mut e: usize = i;
    while e < v.len() && v[e] != ' '
        invariant
            i <= e <= v@.len(),
            word_end(v@, i as int) == word_end(v@, e as int),
        decreases v@.len() - e,
    {
        e += 1;
    }
    e
}

fn axis(word: &str) -> (r: Option<Axis>)
    ensures
        r == axis_of(word@),
{
    if str_eq(word, "row") {
        Some(Axis::Row)
    } else if str_eq(word, "col") || str_eq(word, "column") {
        Some(Axis::Col)
    } else {
        None
    }
}

/// Reads a command line. Whitespace around it and the case of its letters
/// do not count.
pub fn parse_command(line: &str) -> (r: UserCommand)
    ensures
        r@ == wish_of(lowercase(trimmed(line@))),
{
    let lower = trim(line).as_str().to_lowercase();
    command_of(lower.as_str())
}

/// Reads a command line that is in lower case and has no whitespace around
/// it.
pub fn command_of(lower: &str) -> (r: UserCommand)
    ensures
        r@ == wish_of(lower@),
{
    let v = chars_of(lower);
    let e1 = end_of_word(&v, 0);
    let cmd = string_of(&v, 0, e1);
    let a = skip_spaces(&v, e1);
    let e2 = end_of_word(&v, a);
    let word = string_of(&v, a, e2);
    let c = cmd.as_str();
    if str_eq(c, "reset") {
        UserCommand::Reset
    } else if str_eq(c, "save") || str_eq(c, "s") {
        if word.as_str().unicode_len() == 0 {
            UserCommand::Invalid(Complaint::EmptyPath)
        } else {
            UserCommand::Save(word)
        }
    } else if str_eq(c, "load") || str_eq(c, "l") {
        if word.as_str().unicode_len() == 0 {
            UserCommand::Invalid(Complaint::EmptyPath)
        } else {
            UserCommand::Load(word)
        }
    } else if str_eq(c, "q") || str_eq(c, "quit") {
        UserCommand::Quit
    } else if str_eq(c, "q!") || str_eq(c, "quit!") {
        UserCommand::QuitNow
    } else if str_eq(c, "fix") {
        match axis(word.as_str()) {
            Some(x) => UserCommand::Fix(x),
            None => UserCommand::Invalid(Complaint::AxisWanted),
        }
    } else if str_eq(c, "nofix") {
        match axis(word.as_str()) {
            Some(x) => UserCommand::NoFix(x),
            None => UserCommand::Invalid(Complaint::AxisWanted),
        }
    } else if str_eq(c, "newpage") {
        let rest = string_of(&v, a, v.len());
        assert(v@.subrange(a as int, v@.len() as int) =~= v@.skip(a as int));
        UserCommand::NewPage(trim(rest.as_str()))
    } else {
        UserCommand::Invalid(Complaint::Unknown)
    }
}

} // verus!
