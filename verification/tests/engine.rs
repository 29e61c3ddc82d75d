use tabula::error::{Error, Stop};
use tabula::expr::{try_to_bool, Expr};
use tabula::number::{Number, Numerics, Operator, Request};
use tabula::ops::{err_msg, id_to_pos, pos_to_id, Arg, Pos};
use tabula::parse::Range;
use tabula::sheet::{Align, CalcMode, Cell, Color, OptionAttr, SelectType, Sheet};
use tabula::stack::{expr_to_stack, str_expr_to_vec};

fn answer(numbers: &mut Numerics, req: &Request) {
    match req {
        Request::Parse(text) => {
            let value = text.parse::<f64>().ok().map(|f| Number::from_bits(f.to_bits()));
            numbers.record_parse(text, value);
        }
        Request::Show(n) => {
            numbers.record_show(*n, &f64::from_bits(n.bits).to_string());
        }
        Request::Compute(op, a, b) => {
            let x = f64::from_bits(a.bits);
            let y = f64::from_bits(b.bits);
            let r = match op {
                Operator::Add => x + y,
                Operator::Sub => x - y,
                Operator::Mul => x * y,
                Operator::Div => x / y,
                Operator::Pow => x.powf(y),
            };
            numbers.record_compute(*op, *a, *b, Number::from_bits(r.to_bits()));
        }
    }
}

fn set(sheet: &mut Sheet, numbers: &mut Numerics, col: usize, row: usize, text: &str) {
    loop {
        match sheet.set_cell_text(col, row, text, numbers) {
            Ok(()) => return,
            Err(Stop::Unanswered(q)) => answer(numbers, &q),
            Err(Stop::Failed(e)) => panic!("{:?}", e),
        }
    }
}

fn shown(sheet: &Sheet, numbers: &mut Numerics, col: usize, row: usize) -> String {
    let cell = sheet.cell(col, row);
    loop {
        match cell.title(numbers) {
            Ok(s) => return s,
            Err(Stop::Unanswered(q)) => answer(numbers, &q),
            Err(Stop::Failed(e)) => panic!("{:?}", e),
        }
    }
}

fn paste(sheet: &mut Sheet, numbers: &mut Numerics) {
    loop {
        match sheet.paste_yanked(numbers) {
            Ok(()) => return,
            Err(Stop::Unanswered(q)) => answer(numbers, &q),
            Err(Stop::Failed(e)) => panic!("{:?}", e),
        }
    }
}

fn eval(sheet: &mut Sheet, numbers: &mut Numerics, formula: &str) -> Result<Arg, Error> {
    loop {
        let r = match str_expr_to_vec(formula, numbers) {
            Err(e) => Err(e),
            Ok(tokens) => match expr_to_stack(&tokens) {
                Err(e) => Err(Stop::Failed(e)),
                Ok(prog) => {
                    let mut expr = Expr::default();
                    expr.calculate(&prog, sheet, numbers)
                }
            },
        };
        match r {
            Ok(v) => return Ok(v),
            Err(Stop::Unanswered(q)) => answer(numbers, &q),
            Err(Stop::Failed(e)) => return Err(e),
        }
    }
}

fn num(f: f64) -> Arg {
    Arg::Number(Number::from_bits(f.to_bits()))
}

fn fresh() -> (Sheet, Numerics) {
    (Sheet::new(0, 80, 25), Numerics::new())
}

#[test]
fn precedence_and_power() {
    let (mut sheet, mut numbers) = fresh();
    set(&mut sheet, &mut numbers, 0, 0, "=1+2*3");
    assert_eq!(sheet.cell(0, 0).calculated, num(7.0));
    assert_eq!(shown(&sheet, &mut numbers, 0, 0), "7");
    set(&mut sheet, &mut numbers, 0, 1, "=2^3^2");
    assert_eq!(sheet.cell(0, 1).calculated, num(512.0));
    set(&mut sheet, &mut numbers, 0, 2, "=(1+2)*3");
    assert_eq!(sheet.cell(0, 2).calculated, num(9.0));
    set(&mut sheet, &mut numbers, 0, 3, "=7-2-1");
    assert_eq!(sheet.cell(0, 3).calculated, num(4.0));
    set(&mut sheet, &mut numbers, 0, 4, "=8/4/2");
    assert_eq!(sheet.cell(0, 4).calculated, num(1.0));
}

#[test]
fn unary_operators_and_percent() {
    let (mut sheet, mut numbers) = fresh();
    assert_eq!(eval(&mut sheet, &mut numbers, "-5"), Ok(num(-5.0)));
    assert_eq!(eval(&mut sheet, &mut numbers, "+5"), Ok(num(5.0)));
    assert_eq!(eval(&mut sheet, &mut numbers, "50%"), Ok(num(0.5)));
    assert_eq!(eval(&mut sheet, &mut numbers, "2*-3"), Ok(num(-6.0)));
    assert_eq!(eval(&mut sheet, &mut numbers, "-0"), Ok(num(-0.0)));
    assert_eq!(eval(&mut sheet, &mut numbers, "200*10%"), Ok(num(20.0)));
    assert_eq!(eval(&mut sheet, &mut numbers, "0.1+0.2"), Ok(num(0.1 + 0.2)));
    assert_eq!(eval(&mut sheet, &mut numbers, "2^0.5"), Ok(num(2f64.powf(0.5))));
}

#[test]
fn self_reference_is_a_recursion_error() {
    let (mut sheet, mut numbers) = fresh();
    set(&mut sheet, &mut numbers, 0, 0, "=A1");
    let cell = sheet.cell(0, 0);
    assert_eq!(cell.err, 2);
    assert_eq!(cell.calculated, Arg::End);
    assert_eq!(shown(&sheet, &mut numbers, 0, 0), "#RECURSE");
}

#[test]
fn a_cycle_of_two_cells_is_a_recursion_error() {
    let (mut sheet, mut numbers) = fresh();
    set(&mut sheet, &mut numbers, 0, 0, "=B1+1");
    set(&mut sheet, &mut numbers, 1, 0, "=A1+1");
    assert_eq!(sheet.cell(0, 0).err, 2);
    assert_eq!(sheet.cell(1, 0).err, 2);
    // the cycle is broken: both cells are computed again
    set(&mut sheet, &mut numbers, 1, 0, "5");
    assert_eq!(sheet.cell(0, 0).err, 0);
    assert_eq!(sheet.cell(0, 0).calculated, num(6.0));
}

#[test]
fn sum_skips_what_is_no_number() {
    let (mut sheet, mut numbers) = fresh();
    set(&mut sheet, &mut numbers, 0, 0, "1");
    set(&mut sheet, &mut numbers, 0, 1, "x");
    set(&mut sheet, &mut numbers, 0, 2, "3");
    set(&mut sheet, &mut numbers, 1, 0, "=SUM(A1:A3)");
    assert_eq!(sheet.cell(1, 0).calculated, num(4.0));
    assert_eq!(sheet.cell(1, 0).err, 0);
}

#[test]
fn sum_keeps_to_the_columns_of_its_range() {
    let (mut sheet, mut numbers) = fresh();
    // a rectangle B1:C2 among cells that lie between its keys
    set(&mut sheet, &mut numbers, 0, 0, "100");
    set(&mut sheet, &mut numbers, 1, 0, "1");
    set(&mut sheet, &mut numbers, 2, 0, "2");
    set(&mut sheet, &mut numbers, 3, 0, "1000");
    set(&mut sheet, &mut numbers, 0, 1, "100");
    set(&mut sheet, &mut numbers, 1, 1, "3");
    set(&mut sheet, &mut numbers, 2, 1, "4");
    set(&mut sheet, &mut numbers, 3, 1, "1000");
    set(&mut sheet, &mut numbers, 5, 5, "=sum(B1:C2)");
    assert_eq!(sheet.cell(5, 5).calculated, num(10.0));
    set(&mut sheet, &mut numbers, 5, 6, "=Sum(B1:C2, 5, \"x\", TRUE)");
    assert_eq!(sheet.cell(5, 6).err, 1);
    set(&mut sheet, &mut numbers, 5, 6, "=Sum(B1:C2, 5, \"x\", \"2\")");
    assert_eq!(sheet.cell(5, 6).calculated, num(17.0));
    set(&mut sheet, &mut numbers, 5, 7, "=SUM(B:B)");
    assert_eq!(sheet.cell(5, 7).calculated, num(4.0));
    set(&mut sheet, &mut numbers, 5, 8, "=SUM(B2:B)");
    assert_eq!(sheet.cell(5, 8).calculated, num(3.0));
    set(&mut sheet, &mut numbers, 5, 9, "=SUM()");
    assert_eq!(sheet.cell(5, 9).err, 1);
    set(&mut sheet, &mut numbers, 5, 10, "=AVG(1)");
    assert_eq!(sheet.cell(5, 10).err, 1);
}

#[test]
fn division_by_zero_is_told_apart() {
    let (mut sheet, mut numbers) = fresh();
    set(&mut sheet, &mut numbers, 0, 0, "=1/0");
    set(&mut sheet, &mut numbers, 1, 0, "=1+1");
    assert_eq!(sheet.cell(0, 0).err, 3);
    assert_eq!(shown(&sheet, &mut numbers, 0, 0), "#DIV/0");
    assert_eq!(sheet.cell(1, 0).err, 0);
    assert_eq!(sheet.cell(1, 0).calculated, num(2.0));
    // a cell that refers to it holds the same error
    set(&mut sheet, &mut numbers, 2, 0, "=A1+1");
    assert_eq!(sheet.cell(2, 0).err, 3);
    let (mut other, mut n2) = fresh();
    assert_eq!(eval(&mut other, &mut n2, "1/0"), Err(Error::DivisionByZero));
    assert_eq!(eval(&mut other, &mut n2, "1/-0"), Err(Error::DivisionByZero));
    assert_eq!(eval(&mut other, &mut n2, "0/1"), Ok(num(0.0)));
}

#[test]
fn unchanged_text_changes_nothing() {
    let (mut sheet, mut numbers) = fresh();
    set(&mut sheet, &mut numbers, 0, 0, "=1+1");
    sheet.dirty = false;
    set(&mut sheet, &mut numbers, 0, 0, "=1+1");
    assert!(!sheet.dirty);
    set(&mut sheet, &mut numbers, 0, 0, "  =1+1  ");
    assert!(!sheet.dirty);
    set(&mut sheet, &mut numbers, 3, 3, "");
    assert!(!sheet.dirty);
    assert!(sheet.cells.get(&pos_to_id(3, 3)).is_none());
    set(&mut sheet, &mut numbers, 0, 0, "=1+2");
    assert!(sheet.dirty);
}

#[test]
fn the_sheet_stays_as_it_was_while_a_number_is_asked_for() {
    let mut sheet = Sheet::new(0, 80, 25);
    let numbers = Numerics::new();
    let r = sheet.set_cell_text(0, 0, "=1+2", &numbers);
    assert_eq!(r, Err(Stop::Unanswered(Request::Parse(String::from("1")))));
    assert!(sheet.cells.is_empty());
    assert!(!sheet.dirty);
}

#[test]
fn literal_values() {
    let (mut sheet, mut numbers) = fresh();
    set(&mut sheet, &mut numbers, 0, 0, "12.5");
    assert_eq!(sheet.cell(0, 0).calculated, num(12.5));
    set(&mut sheet, &mut numbers, 0, 1, "true");
    assert_eq!(sheet.cell(0, 1).calculated, Arg::Bool(true));
    set(&mut sheet, &mut numbers, 0, 2, "False");
    assert_eq!(sheet.cell(0, 2).calculated, Arg::Bool(false));
    set(&mut sheet, &mut numbers, 0, 3, "12abc");
    assert_eq!(sheet.cell(0, 3).calculated, Arg::Str(String::from("12abc")));
    set(&mut sheet, &mut numbers, 0, 4, "-5");
    assert_eq!(sheet.cell(0, 4).calculated, Arg::Str(String::from("-5")));
    set(&mut sheet, &mut numbers, 0, 5, "1e999");
    assert_eq!(sheet.cell(0, 5).calculated, Arg::Str(String::from("1e999")));
    set(&mut sheet, &mut numbers, 0, 6, " \u{a0}text\u{2003} ");
    assert_eq!(sheet.cell(0, 6).val, "text");
    assert!(sheet.cell(0, 6).is_number() == false);
    assert_eq!(sheet.cell(0, 0).align(), Align::Right);
    assert_eq!(sheet.cell(0, 3).align(), Align::Left);
    set(&mut sheet, &mut numbers, 0, 0, "");
    assert_eq!(sheet.cell(0, 0).calculated, Arg::End);
    assert!(sheet.cells.get(&pos_to_id(0, 0)).is_some());
}

#[test]
fn text_and_comparisons() {
    let (mut sheet, mut numbers) = fresh();
    assert_eq!(eval(&mut sheet, &mut numbers, "\"a\"&\"b\""), Ok(Arg::Str(String::from("ab"))));
    assert_eq!(eval(&mut sheet, &mut numbers, "1&2.5"), Ok(Arg::Str(String::from("12.5"))));
    assert_eq!(eval(&mut sheet, &mut numbers, "1<2"), Ok(Arg::Bool(true)));
    assert_eq!(eval(&mut sheet, &mut numbers, "1>2"), Ok(Arg::Bool(false)));
    assert_eq!(eval(&mut sheet, &mut numbers, "2<=2"), Ok(Arg::Bool(true)));
    assert_eq!(eval(&mut sheet, &mut numbers, "2>=3"), Ok(Arg::Bool(false)));
    assert_eq!(eval(&mut sheet, &mut numbers, "2=2"), Ok(Arg::Bool(true)));
    assert_eq!(eval(&mut sheet, &mut numbers, "2==3"), Ok(Arg::Bool(false)));
    assert_eq!(eval(&mut sheet, &mut numbers, "2<>3"), Ok(Arg::Bool(true)));
    assert_eq!(eval(&mut sheet, &mut numbers, "2!=2"), Ok(Arg::Bool(false)));
    assert_eq!(eval(&mut sheet, &mut numbers, "0=-0"), Ok(Arg::Bool(true)));
    assert_eq!(eval(&mut sheet, &mut numbers, "\"abc\"<\"abd\""), Ok(Arg::Bool(true)));
    assert_eq!(eval(&mut sheet, &mut numbers, "\"ab\"<\"abc\""), Ok(Arg::Bool(true)));
    assert_eq!(eval(&mut sheet, &mut numbers, "\"b\">\"abc\""), Ok(Arg::Bool(true)));
    assert_eq!(eval(&mut sheet, &mut numbers, "\"10\"=10"), Ok(Arg::Bool(true)));
    assert_eq!(eval(&mut sheet, &mut numbers, "\"3\"*\"4\""), Ok(num(12.0)));
    assert_eq!(eval(&mut sheet, &mut numbers, "\"x\"*2"), Err(Error::NotNumber));
    assert_eq!(eval(&mut sheet, &mut numbers, "1+"), Err(Error::EmptyStack));
    assert_eq!(eval(&mut sheet, &mut numbers, "1 2"), Err(Error::InvalidExpression));
    assert_eq!(eval(&mut sheet, &mut numbers, ""), Err(Error::InvalidExpression));
    assert_eq!(eval(&mut sheet, &mut numbers, "(1"), Err(Error::UnmatchedBracket));
    assert_eq!(eval(&mut sheet, &mut numbers, "A1:B2+1"), Err(Error::NotScalar));
    assert_eq!(eval(&mut sheet, &mut numbers, "A1+1"), Ok(num(1.0)));
    // booleans come from cells
    set(&mut sheet, &mut numbers, 0, 0, "TRUE");
    set(&mut sheet, &mut numbers, 1, 0, "FALSE");
    assert_eq!(eval(&mut sheet, &mut numbers, "A1>B1"), Ok(Arg::Bool(true)));
    assert_eq!(eval(&mut sheet, &mut numbers, "A1=B1"), Ok(Arg::Bool(false)));
    assert_eq!(eval(&mut sheet, &mut numbers, "A1+A1"), Ok(num(2.0)));
    assert_eq!(eval(&mut sheet, &mut numbers, "A1&\"!\""), Ok(Arg::Str(String::from("true!"))));
    // a number and a boolean cannot be compared
    assert_eq!(eval(&mut sheet, &mut numbers, "A1=1"), Err(Error::Incomparable));
    assert_eq!(eval(&mut sheet, &mut numbers, "1<B1"), Err(Error::Incomparable));
}

#[test]
fn numbers_are_ordered_as_their_values() {
    let values = [
        0.0,
        -0.0,
        1.0,
        -1.0,
        1.5,
        -1.5,
        f64::MIN_POSITIVE,
        f64::MAX,
        f64::MIN,
        f64::INFINITY,
        f64::NEG_INFINITY,
        f64::NAN,
        5e-324,
        -5e-324,
        100.0,
    ];
    for a in values {
        let x = Number::from_bits(a.to_bits());
        assert_eq!(x.is_nan(), a.is_nan());
        assert_eq!(x.is_finite(), a.is_finite());
        assert_eq!(x.is_zero(), a == 0.0);
        assert_eq!(x.negated().bits, (-a).to_bits());
        for b in values {
            let y = Number::from_bits(b.to_bits());
            assert_eq!(x.equals(&y), a == b, "{} == {}", a, b);
            assert_eq!(x.less_than(&y), a < b, "{} < {}", a, b);
            assert_eq!(x.greater_than(&y), a > b, "{} > {}", a, b);
        }
    }
    assert_eq!(Number::zero().bits, 0f64.to_bits());
    assert_eq!(Number::one().bits, 1f64.to_bits());
    assert_eq!(Number::hundred().bits, 100f64.to_bits());
}

#[test]
fn formulas_refer_to_formulas() {
    let (mut sheet, mut numbers) = fresh();
    set(&mut sheet, &mut numbers, 0, 0, "2");
    set(&mut sheet, &mut numbers, 1, 0, "=A1*3");
    set(&mut sheet, &mut numbers, 2, 0, "=1+B1");
    set(&mut sheet, &mut numbers, 3, 0, "=C1+B1");
    assert_eq!(sheet.cell(2, 0).calculated, num(7.0));
    assert_eq!(sheet.cell(3, 0).calculated, num(13.0));
    set(&mut sheet, &mut numbers, 0, 0, "10");
    assert_eq!(sheet.cell(1, 0).calculated, num(30.0));
    assert_eq!(sheet.cell(2, 0).calculated, num(31.0));
    assert_eq!(sheet.cell(3, 0).calculated, num(61.0));
    // an error goes away when its cause does
    set(&mut sheet, &mut numbers, 0, 0, "x");
    assert_eq!(sheet.cell(1, 0).err, 1);
    assert_eq!(sheet.cell(3, 0).err, 1);
    assert_eq!(shown(&sheet, &mut numbers, 3, 0), "#VALUE!");
    set(&mut sheet, &mut numbers, 0, 0, "1");
    assert_eq!(sheet.cell(3, 0).err, 0);
    assert_eq!(sheet.cell(3, 0).calculated, num(7.0));
    // a formula that cannot be read is an error of its cell only
    set(&mut sheet, &mut numbers, 5, 5, "=1+@");
    assert_eq!(sheet.cell(5, 5).err, 1);
    assert_eq!(sheet.cell(3, 0).err, 0);
}

#[test]
fn copied_formulas_move_their_references() {
    let (mut sheet, mut numbers) = fresh();
    set(&mut sheet, &mut numbers, 0, 0, "1");
    set(&mut sheet, &mut numbers, 1, 1, "=A1+1");
    sheet.cursor = Pos::new(1, 1);
    sheet.yank();
    sheet.cursor = Pos::new(2, 2);
    paste(&mut sheet, &mut numbers);
    assert_eq!(sheet.cell(2, 2).val, "=B2+1");
    assert_eq!(sheet.cell(2, 2).calculated, num(3.0));
    assert_eq!(sheet.cell(1, 1).val, "=A1+1");
    assert!(sheet.dirty);
    set(&mut sheet, &mut numbers, 1, 1, "=$A$1+1");
    sheet.cursor = Pos::new(1, 1);
    sheet.yank();
    sheet.cursor = Pos::new(2, 2);
    paste(&mut sheet, &mut numbers);
    assert_eq!(sheet.cell(2, 2).val, "=$A$1+1");
    assert_eq!(sheet.cell(2, 2).calculated, num(2.0));
}

#[test]
fn pasting_a_rectangle() {
    let (mut sheet, mut numbers) = fresh();
    set(&mut sheet, &mut numbers, 0, 0, "1");
    set(&mut sheet, &mut numbers, 1, 0, "= A1 * 2.50 & \"q\"\"\" ");
    set(&mut sheet, &mut numbers, 0, 1, "text");
    set(&mut sheet, &mut numbers, 5, 5, "old");
    set(&mut sheet, &mut numbers, 4, 5, "old");
    sheet.cursor = Pos::new(0, 0);
    sheet.start_select(SelectType::V);
    sheet.cursor = Pos::new(1, 1);
    sheet.finish_select();
    assert_eq!(sheet.selected_range(), Range::Multi(Pos::new(0, 0), Pos::new(1, 1)));
    sheet.yank();
    sheet.cancel_select();
    sheet.cursor = Pos::new(4, 4);
    paste(&mut sheet, &mut numbers);
    assert_eq!(sheet.cell(4, 4).val, "1");
    assert_eq!(sheet.cell(5, 4).val, "= E5 * 2.5 & \"q\"\"\"");
    assert_eq!(sheet.cell(5, 4).calculated, Arg::Str(String::from("2.5q\"")));
    assert_eq!(sheet.cell(4, 5).val, "text");
    // what was copied from an empty place clears the place that it goes to
    assert!(sheet.cells.get(&pos_to_id(5, 5)).is_none());
    assert_eq!(sheet.max_col, 5);
    assert_eq!(sheet.max_row, 5);
    // pasting where the copy was taken does nothing
    sheet.dirty = false;
    sheet.cursor = Pos::new(0, 0);
    paste(&mut sheet, &mut numbers);
    assert!(!sheet.dirty);
}

#[test]
fn clearing_a_range() {
    let (mut sheet, mut numbers) = fresh();
    set(&mut sheet, &mut numbers, 0, 0, "1");
    set(&mut sheet, &mut numbers, 1, 1, "2");
    set(&mut sheet, &mut numbers, 2, 2, "=A1+B2");
    set(&mut sheet, &mut numbers, 3, 3, "4");
    sheet.cursor = Pos::new(1, 1);
    sheet.start_select(SelectType::Shift);
    sheet.cursor = Pos::new(0, 0);
    assert!(sheet.is_in_selection(1, 0));
    assert!(!sheet.is_in_selection(2, 0));
    loop {
        match sheet.clear_range(&numbers) {
            Ok(()) => break,
            Err(Stop::Unanswered(q)) => answer(&mut numbers, &q),
            Err(Stop::Failed(e)) => panic!("{:?}", e),
        }
    }
    assert_eq!(sheet.cell(0, 0).val, "");
    assert_eq!(sheet.cell(1, 1).val, "");
    assert_eq!(sheet.cell(2, 2).calculated, num(0.0));
    assert_eq!(sheet.cell(3, 3).val, "4");
    assert!(!sheet.is_in_select_mode());
    assert_eq!(sheet.mode, CalcMode::Move);
}

#[test]
fn keys_of_cells() {
    assert_eq!(pos_to_id(3, 7), 700003);
    assert_eq!(id_to_pos(700003), (3, 7));
    assert_eq!(pos_to_id(18277, 99998), 9999818277);
    assert_eq!(id_to_pos(9999818277), (18277, 99998));
    assert_eq!(err_msg(0), "");
    assert_eq!(err_msg(1), "#VALUE!");
    assert_eq!(err_msg(2), "#RECURSE");
    assert_eq!(err_msg(3), "#DIV/0");
    assert_eq!(err_msg(77), "#VALUE!");
    assert_eq!(Error::RecursionDetected.code(), 2);
    assert_eq!(Error::DivisionByZero.code(), 3);
    assert_eq!(Error::NotNumber.code(), 1);
    assert_eq!(Error::CellError(3).code(), 3);
    assert_eq!(Error::CellError(0).code(), 1);
}

#[test]
fn attributes_of_cells() {
    let (mut sheet, mut numbers) = fresh();
    let red = OptionAttr { fg: Some(Color::Red), bg: None, align: None };
    sheet.set_cell_attr(2, 3, red);
    assert_eq!(sheet.cell(2, 3).attr, red);
    assert_eq!(sheet.max_col, 2);
    assert_eq!(sheet.max_row, 3);
    let centred = OptionAttr { fg: None, bg: None, align: Some(Align::Center) };
    sheet.set_cell_attr(2, 3, centred);
    assert_eq!(
        sheet.cell(2, 3).attr,
        OptionAttr { fg: Some(Color::Red), bg: None, align: Some(Align::Center) }
    );
    set(&mut sheet, &mut numbers, 2, 3, "5");
    assert_eq!(sheet.cell(2, 3).align(), Align::Center);
    sheet.cursor = Pos::new(0, 0);
    let a = sheet.cell_attr(2, 3);
    assert_eq!((a.fg, a.bg, a.align), (Color::Red, Color::Black, Align::Center));
    let b = sheet.cell_attr(3, 3);
    assert_eq!((b.fg, b.bg, b.align), (Color::White, Color::DarkGrey, Align::Left));
    let c = sheet.cell_attr(0, 0);
    assert_eq!((c.fg, c.bg), (Color::Black, Color::White));
    sheet.start_select(SelectType::V);
    sheet.cursor = Pos::new(3, 3);
    let d = sheet.cell_attr(2, 3);
    assert_eq!((d.fg, d.bg), (Color::DarkBlue, Color::Blue));
    assert!(Cell::default().is_default());
    assert!(!sheet.cell(2, 3).is_default());
}

#[test]
fn every_error_of_the_evaluator() {
    let (mut sheet, mut numbers) = fresh();
    set(&mut sheet, &mut numbers, 0, 0, "=A1");
    set(&mut sheet, &mut numbers, 1, 0, "=1/0");
    set(&mut sheet, &mut numbers, 2, 0, "=x(");
    assert_eq!(eval(&mut sheet, &mut numbers, "A1"), Err(Error::CellError(2)));
    assert_eq!(eval(&mut sheet, &mut numbers, "B1+1"), Err(Error::CellError(3)));
    assert_eq!(eval(&mut sheet, &mut numbers, "C1"), Err(Error::CellError(1)));
    assert_eq!(eval(&mut sheet, &mut numbers, "SUM()"), Err(Error::MissingArgument));
    assert_eq!(eval(&mut sheet, &mut numbers, "SUM(1,2)+SUM(3)"), Ok(num(6.0)));
    assert_eq!(eval(&mut sheet, &mut numbers, "MAX(1)"), Err(Error::UnsupportedFunction));
    assert_eq!(eval(&mut sheet, &mut numbers, "1<"), Err(Error::EmptyStack));
    assert_eq!(eval(&mut sheet, &mut numbers, "%"), Err(Error::EmptyStack));
    assert_eq!(eval(&mut sheet, &mut numbers, "1,2"), Err(Error::CommaOutsideBrackets));
    // a cell that was given something that is no value
    set(&mut sheet, &mut numbers, 3, 0, "x");
    sheet.set_cell_calc_value(3, 0, Ok(Arg::Comma));
    assert_eq!(eval(&mut sheet, &mut numbers, "D1&\"x\""), Err(Error::NotText));
    assert_eq!(eval(&mut sheet, &mut numbers, "D1+1"), Err(Error::NotNumber));
    sheet.set_cell_calc_value(3, 0, Err(Error::DivisionByZero));
    assert_eq!(sheet.cell(3, 0).err, 3);
    assert_eq!(sheet.cell(3, 0).calculated, Arg::End);
    // a program with a token that is no instruction
    let mut expr = Expr::default();
    assert_eq!(
        expr.calculate(&[Arg::Comma], &mut sheet, &numbers),
        Err(Stop::Failed(Error::InvalidExpression))
    );
    let mut expr = Expr::default();
    assert_eq!(
        expr.calculate(&[num(1.0), num(2.0), Arg::Op(String::from("?"))], &mut sheet, &numbers),
        Err(Stop::Failed(Error::UnsupportedOperator))
    );
    let mut expr = Expr::default();
    assert_eq!(
        expr.calculate(&[num(1.0), num(2.0), Arg::Eq(String::from("~"))], &mut sheet, &numbers),
        Err(Stop::Failed(Error::UnsupportedOperator))
    );
}

#[test]
fn the_questions_that_are_asked() {
    let mut sheet = Sheet::new(0, 80, 25);
    let numbers = Numerics::new();
    let one = Number::from_bits(1f64.to_bits());
    let two = Number::from_bits(2f64.to_bits());
    let mut expr = Expr::default();
    assert_eq!(
        expr.calculate(&[num(1.0), num(2.0), Arg::Op(String::from("-"))], &mut sheet, &numbers),
        Err(Stop::Unanswered(Request::Compute(Operator::Sub, one, two)))
    );
    let mut expr = Expr::default();
    assert_eq!(
        expr.calculate(&[num(1.0), num(2.0), Arg::Op(String::from("/"))], &mut sheet, &numbers),
        Err(Stop::Unanswered(Request::Compute(Operator::Div, one, two)))
    );
    let mut expr = Expr::default();
    assert_eq!(
        expr.calculate(&[num(1.0), num(2.0), Arg::Op(String::from("^"))], &mut sheet, &numbers),
        Err(Stop::Unanswered(Request::Compute(Operator::Pow, one, two)))
    );
    let mut expr = Expr::default();
    assert_eq!(
        expr.calculate(&[num(1.0), num(2.0), Arg::Op(String::from("+"))], &mut sheet, &numbers),
        Err(Stop::Unanswered(Request::Compute(Operator::Add, two, one)))
    );
    let mut expr = Expr::default();
    assert_eq!(
        expr.calculate(&[num(1.0), num(2.0), Arg::Op(String::from("&"))], &mut sheet, &numbers),
        Err(Stop::Unanswered(Request::Show(two)))
    );
    let mut expr = Expr::default();
    assert_eq!(
        expr.calculate(
            &[Arg::Str(String::from("7")), Arg::Op(String::from("----"))],
            &mut sheet,
            &numbers
        ),
        Err(Stop::Unanswered(Request::Parse(String::from("7"))))
    );
    assert_eq!(num(2.0).title(&numbers), Err(Stop::Unanswered(Request::Show(two))));
    // a later answer to one question counts
    let mut table = Numerics::new();
    table.record_show(two, "two");
    table.record_show(two, "2");
    assert_eq!(num(2.0).title(&table), Ok(String::from("2")));
    table.record_parse("x", None);
    table.record_parse("x", Some(one));
    assert_eq!(table.parse("x"), Ok(Some(one)));
    table.record_compute(Operator::Add, one, one, one);
    table.record_compute(Operator::Add, one, one, two);
    assert_eq!(table.compute(Operator::Add, one, one), Ok(two));
    assert_eq!(
        table.compute(Operator::Mul, one, one),
        Err(Stop::Unanswered(Request::Compute(Operator::Mul, one, one)))
    );
}

#[test]
fn values_as_booleans() {
    assert_eq!(try_to_bool(&Arg::End), Ok(false));
    assert_eq!(try_to_bool(&Arg::Str(String::new())), Ok(false));
    assert_eq!(try_to_bool(&Arg::Str(String::from("x"))), Ok(true));
    assert_eq!(try_to_bool(&num(0.0)), Ok(false));
    assert_eq!(try_to_bool(&num(-0.0)), Ok(false));
    assert_eq!(try_to_bool(&num(f64::NAN)), Ok(true));
    assert_eq!(try_to_bool(&num(2.0)), Ok(true));
    assert_eq!(try_to_bool(&Arg::Bool(true)), Ok(true));
    assert_eq!(try_to_bool(&Arg::Comma), Err(Stop::Failed(Error::NotText)));
    assert!(Arg::Func(String::from("f"), 0).is_func());
    assert!(!Arg::Comma.is_func());
}

#[test]
fn a_stale_value_is_summed_until_its_cell_is_reached() {
    // the cells are evaluated in the order of their keys, and a sum takes the
    // values that the cells of its range hold at that moment
    let (mut sheet, mut numbers) = fresh();
    set(&mut sheet, &mut numbers, 0, 1, "1");
    set(&mut sheet, &mut numbers, 1, 1, "=A2*2");
    set(&mut sheet, &mut numbers, 0, 0, "=SUM(A2:B2)");
    assert_eq!(sheet.cell(0, 0).calculated, num(3.0));
    set(&mut sheet, &mut numbers, 0, 1, "5");
    assert_eq!(sheet.cell(1, 1).calculated, num(10.0));
    assert_eq!(sheet.cell(0, 0).calculated, num(7.0));
    set(&mut sheet, &mut numbers, 9, 9, "again");
    assert_eq!(sheet.cell(0, 0).calculated, num(15.0));
}

#[test]
fn a_function_is_called_by_its_name_in_lower_case() {
    let (sheet, mut numbers) = fresh();
    let call = |numbers: &mut Numerics, stack: &mut Vec<Arg>, lower: &str, cnt: usize| loop {
        let mut work = stack.clone();
        match Expr::call(&sheet.cells, &mut work, lower, cnt, numbers) {
            Ok(()) => {
                *stack = work;
                break Ok(());
            }
            Err(Stop::Unanswered(q)) => answer(numbers, &q),
            Err(Stop::Failed(e)) => break Err(e),
        }
    };
    let mut stack = vec![num(4.0), num(1.0), num(2.0)];
    assert_eq!(call(&mut numbers, &mut stack, "sum", 2), Ok(()));
    assert_eq!(stack, vec![num(4.0), num(3.0)]);
    assert_eq!(call(&mut numbers, &mut stack, "SUM", 2), Err(Error::UnsupportedFunction));
    assert_eq!(call(&mut numbers, &mut stack, "max", 2), Err(Error::UnsupportedFunction));
    assert_eq!(call(&mut numbers, &mut stack, "sum", 0), Err(Error::MissingArgument));
    assert_eq!(call(&mut numbers, &mut stack, "sum", 3), Err(Error::EmptyStack));
}
