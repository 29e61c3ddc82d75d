use tabula::error::Stop;
use tabula::number::{Number, Numerics, Operator, Request};
use tabula::paste::move_expression;
use tabula::ops::Arg;
use tabula::recalc::{parse_value, value_of_literal};
use tabula::sheet::Sheet;
use tabula::text::trim;

fn answer(numbers: &mut Numerics, req: &Request) {
    match req {
        Request::Parse(text) => {
            let value = text.parse::<f64>().ok().map(|f| Number::from_bits(f.to_bits()));
            numbers.record_parse(text, value);
        }
        Request::Show(n) => {
            numbers.record_show(*n, &f64::from_bits(n.bits).to_string());
        }
        Request::Compute(op, a, b) => {
            let x = f64::from_bits(a.bits);
            let y = f64::from_bits(b.bits);
            let r = match op {
                Operator::Add => x + y,
                Operator::Sub => x - y,
                Operator::Mul => x * y,
                Operator::Div => x / y,
                Operator::Pow => x.powf(y),
            };
            numbers.record_compute(*op, *a, *b, Number::from_bits(r.to_bits()));
        }
    }
}

fn set(sheet: &mut Sheet, numbers: &mut Numerics, col: usize, row: usize, text: &str) {
    loop {
        match sheet.set_cell_text(col, row, text, numbers) {
            Ok(()) => return,
            Err(Stop::Unanswered(q)) => answer(numbers, &q),
            Err(Stop::Failed(e)) => panic!("{:?}", e),
        }
    }
}

fn autosize(sheet: &mut Sheet, numbers: &mut Numerics, col: usize) {
    loop {
        match sheet.autosize_col(col, numbers) {
            Ok(()) => return,
            Err(Stop::Unanswered(q)) => answer(numbers, &q),
            Err(Stop::Failed(e)) => panic!("{:?}", e),
        }
    }
}

fn moved(numbers: &mut Numerics, expr: &str, dcol: isize, drow: isize) -> String {
    loop {
        match move_expression(expr, dcol, drow, numbers) {
            Ok(s) => return s,
            Err(Stop::Unanswered(q)) => answer(numbers, &q),
            Err(Stop::Failed(e)) => panic!("{:?}", e),
        }
    }
}

#[test]
fn a_column_as_wide_as_its_widest_cell() {
    let mut numbers = Numerics::new();
    let mut sheet = Sheet::new(0, 80, 25);
    set(&mut sheet, &mut numbers, 1, 0, "abc");
    set(&mut sheet, &mut numbers, 1, 3, "a text of twenty-five cols");
    set(&mut sheet, &mut numbers, 1, 5, "=1/3");
    sheet.dirty = false;
    autosize(&mut sheet, &mut numbers, 1);
    assert_eq!(sheet.col_width(1), 26);
    assert!(sheet.dirty);
    sheet.dirty = false;
    autosize(&mut sheet, &mut numbers, 1);
    assert_eq!(sheet.col_width(1), 26);
    assert!(!sheet.dirty);
    autosize(&mut sheet, &mut numbers, 2);
    assert_eq!(sheet.col_width(2), 5);
    set(&mut sheet, &mut numbers, 3, 0, &"x".repeat(150));
    autosize(&mut sheet, &mut numbers, 3);
    assert_eq!(sheet.col_width(3), 100);
    set(&mut sheet, &mut numbers, 4, 0, "日本語日本語");
    autosize(&mut sheet, &mut numbers, 4);
    assert_eq!(sheet.col_width(4), 12);
    set(&mut sheet, &mut numbers, 5, 0, "=1/0");
    set(&mut sheet, &mut numbers, 5, 1, "=A1A");
    autosize(&mut sheet, &mut numbers, 5);
    assert_eq!(sheet.col_width(5), 7);
}

#[test]
fn formulas_moved() {
    let mut numbers = Numerics::new();
    assert_eq!(moved(&mut numbers, "=A1+1", 1, 1), "=B2+1");
    assert_eq!(moved(&mut numbers, "=$A$1+1", 1, 1), "=$A$1+1");
    assert_eq!(moved(&mut numbers, "=$A1+A$1", 2, 3), "=$A4+C$1");
    assert_eq!(moved(&mut numbers, "= SUM( A1:B2 , 1.50 ) ", 1, 0), "= SUM( B1:C2 , 1.5 ) ");
    assert_eq!(moved(&mut numbers, "=B2", -5, -5), "=A1");
    assert_eq!(moved(&mut numbers, "=\"A1\"&A1", 0, 1), "=\"A1\"&A2");
    assert_eq!(moved(&mut numbers, "=A1+@", 1, 1), "=A1+@");
    assert_eq!(moved(&mut numbers, "=", 1, 1), "=");
    assert_eq!(moved(&mut numbers, "=ZZZ1", 1, 0), "=#VALUE!");
    assert_eq!(moved(&mut numbers, "=A1<>B1", 0, 1), "=A2<>B2");
}

#[test]
fn trimming_and_literals() {
    assert_eq!(trim("  a b \t\n"), "a b");
    assert_eq!(trim("\u{2003}x\u{a0}"), "x");
    assert_eq!(trim("   "), "");
    assert_eq!(trim(""), "");
    let mut numbers = Numerics::new();
    let value = |numbers: &mut Numerics, text: &str| loop {
        match parse_value(text, numbers) {
            Ok(v) => break v,
            Err(Stop::Unanswered(q)) => answer(numbers, &q),
            Err(Stop::Failed(e)) => panic!("{:?}", e),
        }
    };
    assert_eq!(value(&mut numbers, "tRuE"), Arg::Bool(true));
    assert_eq!(value(&mut numbers, "falſe"), Arg::Bool(false));
    assert_eq!(value(&mut numbers, ""), Arg::End);
    assert_eq!(value(&mut numbers, "x"), Arg::Str(String::from("x")));
}

#[test]
fn the_value_of_a_literal_goes_by_its_upper_case() {
    let mut numbers = Numerics::new();
    let value = |numbers: &mut Numerics, text: &str, caps: &str| loop {
        match value_of_literal(text, caps, numbers) {
            Ok(v) => break v,
            Err(Stop::Unanswered(q)) => answer(numbers, &q),
            Err(Stop::Failed(e)) => panic!("{:?}", e),
        }
    };
    assert_eq!(value(&mut numbers, "true", "TRUE"), Arg::Bool(true));
    assert_eq!(value(&mut numbers, "False", "FALSE"), Arg::Bool(false));
    // without its upper case a text in lower case is no boolean
    assert_eq!(value(&mut numbers, "true", "true"), Arg::Str(String::from("true")));
    // the empty text has no value, whatever is said of its upper case
    assert_eq!(value(&mut numbers, "", "TRUE"), Arg::End);
    assert_eq!(
        value(&mut numbers, "12.5", "12.5"),
        Arg::Number(Number::from_bits(12.5f64.to_bits()))
    );
    // an exponent without digits counts as zero
    assert_eq!(value(&mut numbers, "1e", "1E"), Arg::Number(Number::from_bits(1.0f64.to_bits())));
    assert_eq!(value(&mut numbers, "12a", "12A"), Arg::Str(String::from("12a")));
}

#[test]
fn a_text_is_entered_as_it_stands_or_trimmed() {
    let mut numbers = Numerics::new();
    let mut sheet = Sheet::new(0, 80, 25);
    let enter = |sheet: &mut Sheet, numbers: &mut Numerics, text: &str, trimming: bool| loop {
        let r = if trimming {
            sheet.set_cell_text(0, 0, text, numbers)
        } else {
            sheet.set_trimmed_text(0, 0, String::from(text), numbers)
        };
        match r {
            Ok(()) => break,
            Err(Stop::Unanswered(q)) => answer(numbers, &q),
            Err(Stop::Failed(e)) => panic!("{:?}", e),
        }
    };
    enter(&mut sheet, &mut numbers, "  7 ", true);
    assert_eq!(sheet.cell(0, 0).val, "7");
    assert_eq!(sheet.cell(0, 0).calculated, Arg::Number(Number::from_bits(7.0f64.to_bits())));
    assert!(sheet.dirty);
    // the same text: nothing happens
    sheet.dirty = false;
    enter(&mut sheet, &mut numbers, "7", false);
    assert!(!sheet.dirty);
    enter(&mut sheet, &mut numbers, " 7\t", true);
    assert!(!sheet.dirty);
    // nothing is taken from the ends of a text that is entered as it stands
    enter(&mut sheet, &mut numbers, " 7 ", false);
    assert_eq!(sheet.cell(0, 0).val, " 7 ");
    assert_eq!(sheet.cell(0, 0).calculated, Arg::Str(String::from(" 7 ")));
    assert!(sheet.dirty);
    enter(&mut sheet, &mut numbers, "=1+2", false);
    assert_eq!(sheet.cell(0, 0).calculated, Arg::Number(Number::from_bits(3.0f64.to_bits())));
}
