use tabula::command::{command_of, parse_command, Axis, Complaint, UserCommand};
use tabula::error::Error;
use tabula::mode::Action;
use tabula::ops::{pos_to_id, Pos};
use tabula::parse::{Range, MAX_COLS, MAX_ROWS};
use tabula::sheet::{Cell, CalcMode, SelectType, Sheet};
use tabula::ui::{Border, Command, Context, Dialog, ListItem, Modifiers, ScrPos, Transition};

#[test]
fn a_new_sheet() {
    let sheet = Sheet::new(4, 80, 25);
    assert_eq!(sheet.name, "page5");
    assert_eq!(sheet.cursor, Pos::new(0, 0));
    assert!(sheet.cells.is_empty());
    assert!(!sheet.dirty);
    assert_eq!(sheet.col_width(0), 10);
    assert_eq!(sheet.selected_range(), Range::Single(Pos::new(0, 0)));
    assert_eq!(sheet.last_visible_row(), 24);
    // five columns for the row numbers, then seven full columns and a part
    assert_eq!(sheet.last_visible_col(), (7, false));
    let exact = Sheet::new(0, 75, 25);
    assert_eq!(exact.last_visible_col(), (6, true));
    let c = Context::new(3, 4);
    assert_eq!((c.w, c.h), (3, 4));
}

#[test]
fn arrows_move_the_cursor() {
    let mut sheet = Sheet::new(0, 80, 25);
    assert_eq!(sheet.arrow_left(Modifiers::Plain), Transition::Nothing);
    assert_eq!(sheet.cursor, Pos::new(0, 0));
    assert_eq!(sheet.arrow_up(Modifiers::Plain), Transition::Nothing);
    assert_eq!(sheet.cursor, Pos::new(0, 0));
    sheet.arrow_right(Modifiers::Plain);
    sheet.arrow_down(Modifiers::Plain);
    assert_eq!(sheet.cursor, Pos::new(1, 1));
    assert_eq!(sheet.arrow_down(Modifiers::Other), Transition::EventPass);
    assert_eq!(sheet.cursor, Pos::new(1, 1));
    sheet.cursor = Pos::new(MAX_COLS - 1, MAX_ROWS - 1);
    sheet.arrow_right(Modifiers::Plain);
    sheet.arrow_down(Modifiers::Plain);
    assert_eq!(sheet.cursor, Pos::new(MAX_COLS - 1, MAX_ROWS - 1));
}

#[test]
fn the_window_follows_the_cursor() {
    let mut sheet = Sheet::new(0, 80, 25);
    for _ in 0..7 {
        sheet.arrow_right(Modifiers::Plain);
    }
    assert_eq!(sheet.cursor.col, 7);
    // column 7 is only partly on the screen: the window moves by one
    assert_eq!(sheet.first_col, 1);
    for _ in 0..7 {
        sheet.arrow_left(Modifiers::Plain);
    }
    assert_eq!(sheet.first_col, 0);
    for _ in 0..24 {
        sheet.arrow_down(Modifiers::Plain);
    }
    assert_eq!(sheet.cursor.row, 24);
    assert_eq!(sheet.first_row, 1);
    for _ in 0..24 {
        sheet.arrow_up(Modifiers::Plain);
    }
    assert_eq!(sheet.first_row, 0);
    sheet.cursor = Pos::new(100, 500);
    sheet.ensure_visible_col();
    sheet.ensure_visible_row();
    assert_eq!(sheet.first_col, 94);
    assert_eq!(sheet.first_row, 477);
}

#[test]
fn shift_selects() {
    let mut sheet = Sheet::new(0, 80, 25);
    sheet.cursor = Pos::new(2, 2);
    sheet.arrow_right(Modifiers::Shift);
    sheet.arrow_down(Modifiers::Shift);
    assert!(sheet.is_in_select_mode());
    assert!(!sheet.is_select_v());
    assert_eq!(sheet.mode, CalcMode::Select);
    assert_eq!(sheet.selected_range(), Range::Multi(Pos::new(2, 2), Pos::new(3, 3)));
    sheet.arrow_left(Modifiers::Shift);
    sheet.arrow_left(Modifiers::Shift);
    assert_eq!(sheet.selected_range(), Range::Multi(Pos::new(1, 2), Pos::new(2, 3)));
    sheet.arrow_left(Modifiers::Plain);
    assert!(!sheet.is_in_select_mode());
    assert_eq!(sheet.mode, CalcMode::Move);
    // a selection that was begun with a key of its own stays while the cursor moves
    sheet.start_select(SelectType::V);
    sheet.arrow_right(Modifiers::Plain);
    assert!(sheet.is_in_select_mode());
    sheet.finish_select();
    sheet.arrow_right(Modifiers::Plain);
    assert_eq!(sheet.selected_range(), Range::Multi(Pos::new(0, 3), Pos::new(1, 3)));
    sheet.cancel_select();
    sheet.mode = CalcMode::Edit;
    sheet.start_select(SelectType::V);
    assert_eq!(sheet.mode, CalcMode::TempSelectStart);
    sheet.cancel_select();
    assert_eq!(sheet.mode, CalcMode::Edit);
}

#[test]
fn fixed_bands() {
    let mut sheet = Sheet::new(0, 80, 25);
    assert_eq!(sheet.fix_row(1001), Err(Error::TooManyFixed));
    assert_eq!(sheet.fix_row(25), Err(Error::TooManyFixed));
    assert_eq!(sheet.fixed_rows, 0);
    assert_eq!(sheet.fix_row(3), Ok(()));
    assert_eq!(sheet.fixed_rows, 3);
    assert_eq!(sheet.fixed_row_height(), 3);
    assert!(sheet.is_row_fixed());
    assert_eq!(sheet.fix_row(24), Ok(()));
    assert!(!sheet.is_row_fixed());
    sheet.unfix_row();
    assert_eq!(sheet.fixed_rows, 0);
    assert_eq!(sheet.fix_col(201), Err(Error::TooManyFixed));
    assert_eq!(sheet.fix_col(8), Err(Error::TooManyFixed));
    assert_eq!(sheet.fixed_cols, 0);
    assert_eq!(sheet.first_col, 0);
    assert_eq!(sheet.fix_col(2), Ok(()));
    assert_eq!(sheet.fixed_cols, 2);
    assert_eq!(sheet.fixed_col_width(), 20);
    assert!(sheet.is_col_fixed());
    assert_eq!(sheet.first_col, 2);
    assert_eq!(sheet.last_visible_col(), (7, false));
    sheet.cursor = Pos::new(9, 0);
    sheet.go_home(Modifiers::Plain);
    assert_eq!(sheet.cursor.col, 2);
    sheet.go_home(Modifiers::Plain);
    assert_eq!(sheet.cursor.col, 0);
    assert_eq!(sheet.go_home(Modifiers::Shift), Transition::EventPass);
    sheet.max_col = 40;
    sheet.go_end(Modifiers::Plain);
    assert_eq!(sheet.cursor.col, 40);
    sheet.unfix_col();
    assert!(!sheet.is_col_fixed());
}

#[test]
fn pages() {
    let mut sheet = Sheet::new(0, 80, 25);
    sheet.page_down(Modifiers::Plain);
    assert_eq!(sheet.cursor.row, 24);
    sheet.page_down(Modifiers::Plain);
    assert_eq!(sheet.cursor.row, 48);
    sheet.page_up(Modifiers::Plain);
    assert_eq!(sheet.cursor.row, 24);
    sheet.page_up(Modifiers::Plain);
    sheet.page_up(Modifiers::Plain);
    assert_eq!(sheet.cursor.row, 0);
    assert_eq!(sheet.page_up(Modifiers::Other), Transition::EventPass);
    sheet.cursor.row = MAX_ROWS - 5;
    sheet.page_down(Modifiers::Plain);
    assert_eq!(sheet.cursor.row, MAX_ROWS - 1);
    sheet.fix_row(4).unwrap();
    sheet.cursor.row = 2;
    sheet.page_down(Modifiers::Plain);
    assert_eq!(sheet.cursor.row, 4);
    sheet.page_down(Modifiers::Plain);
    assert_eq!(sheet.cursor.row, 24);
    sheet.cursor.row = 10;
    sheet.page_up(Modifiers::Plain);
    assert_eq!(sheet.cursor.row, 4);
}

#[test]
fn widths_of_columns() {
    let mut sheet = Sheet::new(0, 80, 25);
    sheet.resize_col(2, 5);
    assert_eq!(sheet.col_width(2), 15);
    assert!(sheet.dirty);
    sheet.resize_col(2, -11);
    assert_eq!(sheet.col_width(2), 15);
    sheet.resize_col(2, 86);
    assert_eq!(sheet.col_width(2), 15);
    sheet.resize_col(2, 85);
    assert_eq!(sheet.col_width(2), 100);
    sheet.resize_col(2, -95);
    assert_eq!(sheet.col_width(2), 5);
}

#[test]
fn the_cursor_is_on_the_screen_after_every_move() {
    let mut sheet = Sheet::new(0, 80, 25);
    sheet.resize_col(3, 40);
    sheet.resize_col(5, -5);
    sheet.fix_col(1).unwrap();
    sheet.fix_row(2).unwrap();
    let on_screen = |s: &Sheet| {
        let (last, _) = s.last_visible_col();
        let col = (s.is_col_fixed() && s.cursor.col < s.fixed_cols)
            || (s.first_col <= s.cursor.col && s.cursor.col <= last);
        let row = if s.is_row_fixed() {
            s.cursor.row < s.fixed_rows
                || (s.first_row + s.fixed_rows <= s.cursor.row && s.cursor.row < s.last_visible_row())
        } else {
            s.first_row <= s.cursor.row && s.cursor.row < s.last_visible_row()
        };
        col && row
    };
    let moves: [u8; 16] = [0, 0, 0, 0, 0, 0, 0, 0, 1, 1, 1, 2, 2, 2, 3, 3];
    for round in 0..40 {
        for m in moves {
            match (m + round % 4) % 4 {
                0 => sheet.arrow_right(Modifiers::Plain),
                1 => sheet.arrow_down(Modifiers::Plain),
                2 => sheet.arrow_left(Modifiers::Plain),
                _ => sheet.arrow_up(Modifiers::Plain),
            };
            assert!(on_screen(&sheet), "{:?} {} {}", sheet.cursor, sheet.first_col, sheet.first_row);
        }
        sheet.page_down(Modifiers::Plain);
        assert!(on_screen(&sheet));
    }
    for col in [0usize, 1, 2, 3, 4, 100, 18277] {
        for row in [0usize, 1, 2, 3, 30, 99998] {
            sheet.cursor = Pos::new(col, row);
            sheet.ensure_visible_col();
            sheet.ensure_visible_row();
            assert!(on_screen(&sheet), "{} {}", col, row);
        }
    }
}

#[test]
fn the_modes_of_a_sheet() {
    let mut sheet = Sheet::new(0, 80, 25);
    assert_eq!(sheet.process_escape(), Action::Pass);
    assert_eq!(sheet.process_enter(), Action::Edit);
    assert_eq!(sheet.mode, CalcMode::Edit);
    sheet.enable_command_mode();
    assert_eq!(sheet.mode, CalcMode::Edit);
    sheet.enable_temp_range_mode();
    assert_eq!(sheet.mode, CalcMode::TempSelect);
    sheet.cursor = Pos::new(2, 3);
    assert_eq!(sheet.process_enter(), Action::Insert(String::from("C4")));
    assert_eq!(sheet.mode, CalcMode::Edit);
    sheet.enable_temp_range_mode();
    sheet.start_select(SelectType::V);
    assert_eq!(sheet.mode, CalcMode::TempSelectStart);
    sheet.cursor = Pos::new(0, 1);
    assert_eq!(sheet.process_enter(), Action::Insert(String::from("A2:C4")));
    assert_eq!(sheet.mode, CalcMode::Edit);
    sheet.enable_temp_range_mode();
    assert_eq!(sheet.process_escape(), Action::Nothing);
    assert_eq!(sheet.mode, CalcMode::Edit);
    assert!(!sheet.is_in_select_mode());
    assert_eq!(sheet.process_enter(), Action::Commit);
    assert_eq!(sheet.mode, CalcMode::Move);
    sheet.enable_command_mode();
    assert_eq!(sheet.mode, CalcMode::Command);
    assert_eq!(sheet.process_enter(), Action::Run);
    assert_eq!(sheet.mode, CalcMode::Move);
    sheet.start_select(SelectType::V);
    assert_eq!(sheet.process_enter(), Action::Nothing);
    assert_eq!(sheet.mode, CalcMode::Select);
    assert_eq!(sheet.process_escape(), Action::Nothing);
    assert_eq!(sheet.mode, CalcMode::Move);
    sheet.enable_command_mode();
    assert_eq!(sheet.process_escape(), Action::Nothing);
    assert_eq!(sheet.mode, CalcMode::Move);
}

#[test]
fn command_lines() {
    assert_eq!(parse_command("reset"), UserCommand::Reset);
    assert_eq!(parse_command("  SAVE  My.File  more "), UserCommand::Save(String::from("my.file")));
    assert_eq!(parse_command("s x"), UserCommand::Save(String::from("x")));
    assert_eq!(parse_command("save"), UserCommand::Invalid(Complaint::EmptyPath));
    assert_eq!(parse_command("load a/b"), UserCommand::Load(String::from("a/b")));
    assert_eq!(parse_command("l"), UserCommand::Invalid(Complaint::EmptyPath));
    assert_eq!(parse_command("q"), UserCommand::Quit);
    assert_eq!(parse_command("Quit"), UserCommand::Quit);
    assert_eq!(parse_command("q!"), UserCommand::QuitNow);
    assert_eq!(parse_command("quit! now"), UserCommand::QuitNow);
    assert_eq!(parse_command("fix row"), UserCommand::Fix(Axis::Row));
    assert_eq!(parse_command("fix col"), UserCommand::Fix(Axis::Col));
    assert_eq!(parse_command("fix \t column 3"), UserCommand::Fix(Axis::Col));
    assert_eq!(parse_command("fix"), UserCommand::Invalid(Complaint::AxisWanted));
    assert_eq!(parse_command("fix rows"), UserCommand::Invalid(Complaint::AxisWanted));
    assert_eq!(parse_command("nofix row"), UserCommand::NoFix(Axis::Row));
    assert_eq!(parse_command("nofix column"), UserCommand::NoFix(Axis::Col));
    assert_eq!(parse_command("nofix x"), UserCommand::Invalid(Complaint::AxisWanted));
    assert_eq!(parse_command("newpage"), UserCommand::NewPage(String::new()));
    assert_eq!(parse_command("newpage  My Page "), UserCommand::NewPage(String::from("my page")));
    assert_eq!(parse_command(""), UserCommand::Invalid(Complaint::Unknown));
    assert_eq!(parse_command("savex y"), UserCommand::Invalid(Complaint::Unknown));
    assert_eq!(parse_command("fix\trow"), UserCommand::Invalid(Complaint::Unknown));
}

#[test]
fn the_lines_of_a_list() {
    let item = ListItem::new("save", Command::Nothing);
    assert_eq!(item.text, "save");
    assert_eq!(item.submenu, None);
    assert_eq!(item.command, Command::Nothing);
    let item = ListItem::new_submenu("more…", Dialog::Nothing);
    assert_eq!(item.text, "more…");
    assert_eq!(item.submenu, Some(Dialog::Nothing));
    assert_eq!(item.command, Command::Nothing);
    let place = ScrPos { col: 3, row: 4 };
    assert_eq!(place, ScrPos { col: 3, row: 4 });
    assert_ne!(Border::Single, Border::Double);
    assert_ne!(Border::Nothing, Border::Single);
}

#[test]
fn a_sheet_tests_what_it_must_meet() {
    let sheet = Sheet::new(0, 80, 25);
    assert!(sheet.is_wf());
    let mut s = Sheet::new(0, 80, 25);
    s.cursor = Pos::new(MAX_COLS, 0);
    assert!(!s.is_wf());
    s.cursor = Pos::new(MAX_COLS - 1, MAX_ROWS - 1);
    assert!(s.is_wf());
    s.fixed_rows = 1001;
    assert!(!s.is_wf());
    s.fixed_rows = 1000;
    s.fixed_cols = 201;
    assert!(!s.is_wf());
    s.fixed_cols = 200;
    assert!(s.is_wf());
    s.first_row = MAX_ROWS;
    assert!(!s.is_wf());
    s.first_row = 0;
    s.select_end = Some(Pos::new(0, MAX_ROWS));
    assert!(!s.is_wf());
    s.select_end = Some(Pos::new(0, 0));
    assert!(s.is_wf());
    // a cell beyond the marks of the greatest column and row
    s.cells.insert(pos_to_id(5, 6), Cell::default());
    assert!(!s.is_wf());
    s.max_col = 5;
    assert!(!s.is_wf());
    s.max_row = 6;
    assert!(s.is_wf());
    // a cell off the grid
    s.cells.insert(99999, Cell::default());
    s.max_col = MAX_COLS - 1;
    assert!(!s.is_wf());
    s.cells.remove(&99999);
    assert!(s.is_wf());
    // a cell that was put there by the sheet
    s.set_cell(7, 8, Cell::default());
    assert!(s.is_wf());
}

#[test]
fn a_command_line_in_lower_case() {
    assert_eq!(command_of("save my.file more"), UserCommand::Save(String::from("my.file")));
    assert_eq!(command_of("q"), UserCommand::Quit);
    assert_eq!(command_of("fix col"), UserCommand::Fix(Axis::Col));
    assert_eq!(command_of("newpage"), UserCommand::NewPage(String::new()));
    assert_eq!(command_of(""), UserCommand::Invalid(Complaint::Unknown));
    // the case of the letters counts here
    assert_eq!(command_of("Quit"), UserCommand::Invalid(Complaint::Unknown));
    assert_eq!(command_of("fix ROW"), UserCommand::Invalid(Complaint::AxisWanted));
    assert_eq!(parse_command("fix ROW"), UserCommand::Fix(Axis::Row));
}
