//! The modes of a sheet: moving, typing into a cell, selecting, typing a
//! command, and picking a range for the formula that is being typed.
use vstd::prelude::*;
use crate::ops::Pos;
use crate::sheet::{range_on_grid, CalcMode, Sheet};

verus! {

/// What is left to do, outside the sheet, after a key that changes the mode.
#[derive(Debug, Clone, PartialEq, Eq)]
pub enum Action {
    /// Nothing.
    Nothing,
    /// The key is not for the sheet.
    Pass,
    /// Put the text of the cell under the cursor in the edit line.
    Edit,
    /// Give the cell under the cursor the text of the edit line.
    Commit,
    /// Run the command line.
    Run,
    /// Put this text, a range, into the edit line.
    Insert(String),
}

/// An [`Action`] as a plain value.
pub enum Deed {
    Nothing,
    Pass,
    Edit,
    Commit,
    Run,
    Insert(Seq<char>),
}

impl View for Action {
    type V = Deed;

    open spec fn view(&self) -> Deed {
        match *self {
            Action::Nothing => Deed::Nothing,
            Action::Pass => Deed::Pass,
            Action::Edit => Deed::Edit,
            Action::Commit => Deed::Commit,
            Action::Run => Deed::Run,
            Action::Insert(s) => Deed::Insert(s@),
        }
    }
}

impl Sheet {
    /// The sheet and what is left to do after the enter key. While the
    /// cursor moves the key begins to edit the cell under it; while a cell is
    /// edited it ends that and commits the text; while a command is typed it
    /// runs the command. While a range is picked for a formula the key ends
    /// that: the range goes into the formula, which is edited again.
    pub open spec fn entered(self) -> (Sheet, Deed) {
        match self.mode {
            CalcMode::Move => (Sheet { mode: CalcMode::Edit, ..self }, Deed::Edit),
            CalcMode::Edit => (Sheet { mode: CalcMode::Move, ..self }, Deed::Commit),
            CalcMode::Select => (self, Deed::Nothing),
            CalcMode::Command => (Sheet { mode: CalcMode::Move, ..self }, Deed::Run),
            CalcMode::TempSelect => (
                Sheet { mode: CalcMode::Edit, select_start: None, select_end: None, ..self },
                Deed::Insert(self.selection().text()),
            ),
            CalcMode::TempSelectStart => (
                Sheet {
                    mode: CalcMode::Edit,
                    select_end: Some(Pos::spec_new(self.cursor.col, self.cursor.row)),
                    ..self
                },
                Deed::Insert(
                    (Sheet {
                        select_end: Some(Pos::spec_new(self.cursor.col, self.cursor.row)),
                        ..self
                    }).selection().text(),
                ),
            ),
        }
    }

    /// The sheet and what is left to do after the escape key. While the
    /// cursor moves the key is not for the sheet. While a range is picked
    /// for a formula the key gives that up, and the formula is edited again.
    /// Else the key drops the selection and lets the cursor move.
    pub open spec fn escaped(self) -> (Sheet, Deed) {
        match self.mode {
            CalcMode::Move => (self, Deed::Pass),
            CalcMode::TempSelect | CalcMode::TempSelectStart => (
                Sheet { mode: CalcMode::Edit, select_start: None, select_end: None, ..self },
                Deed::Nothing,
            ),
            _ => (
                Sheet { mode: CalcMode::Move, select_start: None, select_end: None, ..self },
                Deed::Nothing,
            ),
        }
    }

    /// The enter key.
    pub fn process_enter(&mut self) -> (r: Action)
        requires
            old(self).wf(),
        ensures
            (*final(self), r@) == old(self).entered(),
            final(self).wf(),
    {
        match self.mode {
            CalcMode::Move => {
                self.mode = CalcMode::Edit;
                Action::Edit
            },
            CalcMode::Edit => {
                self.mode = CalcMode::Move;
                Action::Commit
            },
            CalcMode::Select => Action::Nothing,
            CalcMode::Command => {
                self.mode = CalcMode::Move;
                Action::Run
            },
            CalcMode::TempSelect => {
                let rng = self.selected_range();
                assert(range_on_grid(rng));
                let text = rng.to_string();
                self.mode = CalcMode::Edit;
                self.select_start = None;
                self.select_end = None;
                Action::Insert(text)
            },
            CalcMode::TempSelectStart => {
                self.mode = CalcMode::Edit;
                self.finish_select();
                let rng = self.selected_range();
                assert(range_on_grid(rng));
                Action::Insert(rng.to_string())
            },
        }
    }

    /// The escape key.
    pub fn process_escape(&mut self) -> (r: Action)
        ensures
            (*final(self), r@) == old(self).escaped(),
            old(self).wf() ==> final(self).wf(),
    {
        match self.mode {
            CalcMode::Move => Action::Pass,
            CalcMode::TempSelect | CalcMode::TempSelectStart => {
                self.mode = CalcMode::Edit;
                self.select_start = None;
                self.select_end = None;
                Action::Nothing
            },
            _ => {
                self.cancel_select();
                Action::Nothing
            },
        }
    }

    /// Begins a command line, if the cursor moves.
    pub fn enable_command_mode(&mut self)
        ensures
            *final(self) == (Sheet {
                mode: if old(self).mode == CalcMode::Move {
                    CalcMode::Command
                } else {
                    old(self).mode
                },
                ..*old(self)
            }),
    {
        if let CalcMode::Move = self.mode {
            self.mode = CalcMode::Command;
        }
    }

    /// Begins to pick a range for the formula that is being typed, if a cell
    /// is edited.
    pub fn enable_temp_range_mode(&mut self)
        ensures
            *final(self) == (Sheet {
                mode: if old(self).mode == CalcMode::Edit {
                    CalcMode::TempSelect
                } else {
                    old(self).mode
                },
                ..*old(self)
            }),
    {
        if let CalcMode::Edit = self.mode {
            self.mode = CalcMode::TempSelect;
        }
    }
}

} // verus!
