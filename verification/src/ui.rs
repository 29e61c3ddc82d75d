//! What the sheet and the widgets around it tell each other.
use vstd::prelude::*;

verus! {

/// The dialogs that a widget can ask for.
#[derive(Debug, Copy, Clone, PartialEq, Eq, Structural)]
pub enum Dialog {
    Nothing,
}

/// The commands that a widget can send.
#[derive(Debug, Copy, Clone, PartialEq, Eq, Structural)]
pub enum Command {
    Nothing,
}

/// What a dialog says when it closes.
#[derive(Debug, Copy, Clone, PartialEq, Eq, Structural)]
pub enum Msg {
    Cmd(Command),
    Done(Dialog),
    Nothing,
}

/// What a widget asks for after it has seen an event.
#[derive(Debug, Copy, Clone, PartialEq, Eq, Structural)]
pub enum Transition {
    /// There is nothing to do.
    Nothing,
    /// The event is not for this widget.
    EventPass,
    /// Close the last dialog with this result.
    Pop(Msg),
    /// Leave the program.
    Exit,
    /// Open a dialog.
    Push(Dialog),
    /// Begin the selection of a range for the formula that is being typed.
    TempSelect,
}

/// The keys that were held down with a key.
#[derive(Debug, Copy, Clone, PartialEq, Eq, Structural)]
pub enum Modifiers {
    Plain,
    Shift,
    Other,
}

/// The size of the screen.
#[derive(Debug, Copy, Clone, PartialEq, Eq, Structural)]
pub struct Context {
    pub w: u16,
    pub h: u16,
}

impl Context {
    /// A screen of `w` columns and `h` rows.
    pub fn new(w: u16, h: u16) -> (r: Context)
        ensures
            r.w == w,
            r.h == h,
    {
        Context { w, h }
    }
}

/// A place on the screen.
#[derive(Debug, Copy, Clone, PartialEq, Eq, Structural)]
pub struct ScrPos {
    pub col: u16,
    pub row: u16,
}

/// The frame of a box on the screen.
#[derive(Debug, Copy, Clone, PartialEq, Eq, Structural)]
pub enum Border {
    Nothing,
    Single,
    Double,
}

/// A line of a list: its text, and the dialog that it opens or the command
/// that it sends.
#[derive(Debug)]
pub struct ListItem {
    pub text: String,
    pub submenu: Option<Dialog>,
    pub command: Command,
}

impl Clone for ListItem {
    fn clone(&self) -> (r: ListItem)
        ensures
            r.text@ == self.text@,
            r.submenu == self.submenu,
            r.command == self.command,
    {
        ListItem { text: self.text.clone(), submenu: self.submenu, command: self.command }
    }
}

impl ListItem {
    /// A line that sends a command.
    pub fn new(s: &str, cmd: Command) -> (r: ListItem)
        ensures
            r.text@ == s@,
            r.submenu is None,
            r.command == cmd,
    {
        ListItem { text: s.to_owned(), submenu: None, command: cmd }
    }

    /// A line that opens a dialog and sends no command.
    pub fn new_submenu(s: &str, dlg: Dialog) -> (r: ListItem)
        ensures
            r.text@ == s@,
            r.submenu == Some(dlg),
            r.command == Command::Nothing,
    {
        ListItem { text: s.to_owned(), submenu: Some(dlg), command: Command::Nothing }
    }
}

} // verus!
