use tabula::error::{Error, Stop};
use tabula::number::{Number, Numerics, Operator, Request};
use tabula::ops::{Arg, Pos};
use tabula::parse::{parse_arg, parse_float, skip_white};
use tabula::stack::{expr_to_stack, str_expr_to_vec};

fn answer(numbers: &mut Numerics, req: &Request) {
    match req {
        Request::Parse(text) => {
            let value = text.parse::<f64>().ok().map(|f| Number::from_bits(f.to_bits()));
            numbers.record_parse(text, value);
        }
        Request::Show(n) => {
            numbers.record_show(*n, &f64::from_bits(n.bits).to_string());
        }
        Request::Compute(op, a, b) => {
            let x = f64::from_bits(a.bits);
            let y = f64::from_bits(b.bits);
            let r = match op {
                Operator::Add => x + y,
                Operator::Sub => x - y,
                Operator::Mul => x * y,
                Operator::Div => x / y,
                Operator::Pow => x.powf(y),
            };
            numbers.record_compute(*op, *a, *b, Number::from_bits(r.to_bits()));
        }
    }
}

fn float<'a>(numbers: &mut Numerics, s: &'a str) -> Result<(&'a str, f64), Error> {
    loop {
        match parse_float(s, numbers) {
            Ok((rest, n)) => return Ok((rest, f64::from_bits(n.bits))),
            Err(Stop::Unanswered(q)) => answer(numbers, &q),
            Err(Stop::Failed(e)) => return Err(e),
        }
    }
}

fn arg<'a>(numbers: &mut Numerics, s: &'a str) -> Result<(&'a str, Arg), Error> {
    loop {
        match parse_arg(s, numbers) {
            Ok(x) => return Ok(x),
            Err(Stop::Unanswered(q)) => answer(numbers, &q),
            Err(Stop::Failed(e)) => return Err(e),
        }
    }
}

fn tokens(numbers: &mut Numerics, s: &str) -> Result<Vec<Arg>, Error> {
    loop {
        match str_expr_to_vec(s, numbers) {
            Ok(x) => return Ok(x),
            Err(Stop::Unanswered(q)) => answer(numbers, &q),
            Err(Stop::Failed(e)) => return Err(e),
        }
    }
}

fn title(numbers: &mut Numerics, a: &Arg) -> String {
    loop {
        match a.title(numbers) {
            Ok(x) => return x,
            Err(Stop::Unanswered(q)) => answer(numbers, &q),
            Err(Stop::Failed(e)) => panic!("{:?}", e),
        }
    }
}

fn num(f: f64) -> Arg {
    Arg::Number(Number::from_bits(f.to_bits()))
}

fn op(s: &str) -> Arg {
    Arg::Op(String::from(s))
}

#[test]
fn parse_float_test() {
    let tests: Vec<(&str, f64, bool)> = vec![
        ("a", 0.0, true),
        ("5.0e4278", 1e-2, true),
        ("1.0e-4278", 0.0, false),
        ("239+2", 239.0, false),
        ("239", 239.0, false),
        ("239e4", 2390000.0, false),
        ("8839.2", 8839.2, false),
        ("1.0e2", 100.0, false),
        ("86.", 86.0, false),
        ("239.+2", 239.0, false),
        ("239.e+vb", 239.0, false),
        ("86.e7", 86e7, false),
        ("11.0e+2", 1100.0, false),
        ("11.0e+2.3", 1100.0, false),
        ("1.0e-02", 1e-2, false),
    ];
    let mut numbers = Numerics::new();
    for (st, vl, err) in tests {
        let r = float(&mut numbers, st);
        if err {
            assert!(r.is_err(), "{}", st);
            assert_eq!(r, Err(Error::InvalidNumber));
        } else {
            let (_s, val) = r.unwrap();
            assert_eq!(val, vl, "{}", st);
        }
    }
}

#[test]
fn parse_float_leaves_the_rest() {
    let mut numbers = Numerics::new();
    assert_eq!(float(&mut numbers, "239+2"), Ok(("+2", 239.0)));
    assert_eq!(float(&mut numbers, "239.e+vb"), Ok(("vb", 239.0)));
    assert_eq!(float(&mut numbers, "11.0e+2.3"), Ok((".3", 1100.0)));
    assert_eq!(float(&mut numbers, "1e5x"), Ok(("x", 100000.0)));
}

#[test]
fn parse_float_asks_for_the_number() {
    let numbers = Numerics::new();
    assert_eq!(
        parse_float("12.50abc", &numbers),
        Err(Stop::Unanswered(Request::Parse(String::from("12.50"))))
    );
    assert_eq!(
        parse_float("7e", &numbers),
        Err(Stop::Unanswered(Request::Parse(String::from("7e0"))))
    );
}

#[test]
fn parse_arg_test() {
    let mut numbers = Numerics::new();
    for st in ["\"abc", "@abc"] {
        assert!(arg(&mut numbers, st).is_err(), "{}", st);
    }
    assert_eq!(arg(&mut numbers, "\"abc"), Err(Error::UnterminatedString));
    assert_eq!(arg(&mut numbers, "@abc"), Err(Error::UnparsedToken));
    let tests: Vec<(&str, Arg)> = vec![
        ("jf", Arg::Rng(None, vec![Pos { full_col: true, col: 265, ..Pos::default() }])),
        (
            "$b2",
            Arg::Rng(None, vec![Pos { fixed_col: true, col: 1, row: 1, ..Pos::default() }]),
        ),
        ("abc.tr(jf)", Arg::Func(String::from("abc.tr"), 0)),
        ("+abc.tr(jf)", Arg::Op(String::from("+"))),
        ("<>abc.tr(jf)", Arg::Eq(String::from("<>"))),
        ("(jf)", Arg::OBracket(String::from("("))),
        ("3.6e5abc.tr(jf)", num(3.6e5)),
        ("\"3.6e5\"\"abc.t\"r(jf)", Arg::Str("3.6e5\"abc.t".to_string())),
        (",(jf)", Arg::Comma),
    ];
    for (st, rs) in tests {
        let (_s, val) = arg(&mut numbers, st).unwrap();
        assert_eq!(val, rs, "{:?}", st);
    }
}

#[test]
fn parse_arg_reads_every_symbol() {
    let mut numbers = Numerics::new();
    for s in ["<>", "!=", "<=", ">=", "==", "<", ">", "="] {
        assert_eq!(arg(&mut numbers, s), Ok(("", Arg::Eq(String::from(s)))), "{}", s);
    }
    for s in ["+", "-", "/", "*", "%", "&", "^"] {
        assert_eq!(arg(&mut numbers, s), Ok(("", Arg::Op(String::from(s)))), "{}", s);
    }
    assert_eq!(arg(&mut numbers, "[1"), Ok(("1", Arg::OBracket(String::from("[")))));
    assert_eq!(arg(&mut numbers, ")]"), Ok(("]", Arg::CBracket(String::from(")")))));
    assert_eq!(arg(&mut numbers, "]"), Ok(("", Arg::CBracket(String::from("]")))));
    assert_eq!(arg(&mut numbers, ""), Ok(("", Arg::End)));
    assert_eq!(arg(&mut numbers, "=<"), Ok(("<", Arg::Eq(String::from("=")))));
    assert_eq!(
        arg(&mut numbers, "Sheet2!A1+1"),
        Ok(("+1", Arg::Rng(Some(String::from("Sheet2")), vec![Pos::new(0, 0)])))
    );
    assert_eq!(
        arg(&mut numbers, "'Sheet 1'!A1+1"),
        Ok(("+1", Arg::Rng(Some(String::from("Sheet 1")), vec![Pos::new(0, 0)])))
    );
    assert_eq!(
        arg(&mut numbers, "'a!b'!B2:C3"),
        Ok(("", Arg::Rng(Some(String::from("a!b")), vec![Pos::new(1, 1), Pos::new(2, 2)])))
    );
    assert_eq!(arg(&mut numbers, "'a"), Err(Error::UnterminatedString));
    assert_eq!(arg(&mut numbers, "'a'"), Err(Error::InvalidAddress));
    assert_eq!(arg(&mut numbers, "'a'!"), Err(Error::InvalidAddress));
    assert_eq!(arg(&mut numbers, "@abc"), Err(Error::UnparsedToken));
    assert_eq!(arg(&mut numbers, "ABCD1"), Err(Error::InvalidAddress));
    assert_eq!(arg(&mut numbers, "A0"), Err(Error::InvalidAddress));
    assert_eq!(arg(&mut numbers, "9e999"), Err(Error::UnparsedToken));
}

#[test]
fn parse_multi_arg_test() {
    let mut numbers = Numerics::new();
    let st = " fn.a(a1:b2,4) + a1*4.5%&\"ope\"";
    let args = vec![
        Arg::Func(String::from("fn.a"), 0),
        Arg::OBracket(String::from("(")),
        Arg::Rng(
            None,
            vec![
                Pos { col: 0, row: 0, ..Pos::default() },
                Pos { col: 1, row: 1, ..Pos::default() },
            ],
        ),
        Arg::Comma,
        num(4.0),
        Arg::CBracket(String::from(")")),
        Arg::Op(String::from("+")),
        Arg::Rng(None, vec![Pos { col: 0, row: 0, ..Pos::default() }]),
        Arg::Op(String::from("*")),
        num(4.5),
        Arg::Op(String::from("%")),
        Arg::Op(String::from("&")),
        Arg::Str(String::from("ope")),
    ];
    let mut s = skip_white(st);
    for a in args.iter() {
        let (rest, val) = arg(&mut numbers, s).unwrap();
        assert_eq!(&val, a, "{:?}", st);
        s = skip_white(rest);
    }
    assert_eq!(tokens(&mut numbers, st), Ok(args));
}

#[test]
fn range_title() {
    let mut numbers = Numerics::new();
    let tests: Vec<&'static str> = vec!["C:C", "A1:D3", "$A3:G$7", "$H$6:$I$9", "GH345:XZU98100"];
    for test in tests {
        let (_st, val) = arg(&mut numbers, test).unwrap();
        let back = title(&mut numbers, &val);
        assert_eq!(back.as_str(), test, "{:?}", val);
    }
}

#[test]
fn range_title_of_other_forms() {
    let mut numbers = Numerics::new();
    for test in ["B2:B", "JF", "A$", "ZZZ99999", "A1"] {
        let (_st, val) = arg(&mut numbers, test).unwrap();
        assert_eq!(title(&mut numbers, &val).as_str(), test, "{:?}", val);
    }
    let (_st, val) = arg(&mut numbers, "c4:Ab2").unwrap();
    assert_eq!(title(&mut numbers, &val).as_str(), "C2:AB4");
    let off = Arg::Rng(None, vec![Pos::new(18278, 0)]);
    assert_eq!(title(&mut numbers, &off).as_str(), "#VALUE!");
    let three = Arg::Rng(None, vec![Pos::new(0, 0), Pos::new(1, 1), Pos::new(2, 2)]);
    assert_eq!(title(&mut numbers, &three).as_str(), "#VALUE!");
}

#[test]
fn titles_of_tokens() {
    let mut numbers = Numerics::new();
    assert_eq!(title(&mut numbers, &Arg::End), "");
    assert_eq!(title(&mut numbers, &Arg::Comma), ",");
    assert_eq!(title(&mut numbers, &Arg::Bool(true)), "TRUE");
    assert_eq!(title(&mut numbers, &Arg::Bool(false)), "FALSE");
    assert_eq!(title(&mut numbers, &num(2.5)), "2.5");
    assert_eq!(title(&mut numbers, &num(1e21)), "1000000000000000000000");
    assert_eq!(title(&mut numbers, &Arg::Func(String::from("sum"), 3)), "sum");
    assert_eq!(title(&mut numbers, &Arg::Str(String::from("a\"b"))), "a\"b");
    let quoted = loop {
        match Arg::Str(String::from("a\"b")).to_expr(&numbers) {
            Ok(x) => break x,
            Err(_) => unreachable!(),
        }
    };
    assert_eq!(quoted, "\"a\"\"b\"");
}

#[test]
fn range_move() {
    let mut numbers = Numerics::new();
    let tests: Vec<(&str, isize, isize, &str)> = vec![
        ("A2:$B4", 2, 3, "C5:$B7"),
        ("B$2:Z45", 3, 2, "E$2:AC47"),
        ("C:C", 2, 3, "E:E"),
        ("C:C", -1, -2, "B:B"),
        ("BBB1000", 2, 3, "BBD1003"),
        ("A2:$B4", -2, -3, "A1:$B1"),
    ];
    for (base, dcol, drow, res) in tests {
        let (_st, mut val) = arg(&mut numbers, base).unwrap();
        val.move_by(dcol, drow);
        assert_eq!(title(&mut numbers, &val).as_str(), res, "{:?}", val);
    }
}

#[test]
fn range_shift() {
    let mut numbers = Numerics::new();
    let tests: Vec<(&str, usize, usize, isize, isize, &str)> = vec![
        ("A2:E9", 10, 10, 2, 3, "A2:E9"),
        ("A2:$E9", 4, 5, 0, 0, "A2:$E9"),
        ("A2:$E9", 4, 5, 2, 0, "A2:$E9"),
        ("A2:E9", 4, 5, 0, 0, "A2:E9"),
        ("A2:E9", 4, 5, 2, 2, "A2:G11"),
        ("A2:E9", 4, 5, -2, -2, "A2:C7"),
        ("F12:I19", 4, 5, 2, 1, "H13:K20"),
    ];
    for (st, bcol, brow, dcol, drow, res) in tests {
        let (_st, mut val) = arg(&mut numbers, st).unwrap();
        val.shift_range(bcol, brow, dcol, drow);
        assert_eq!(title(&mut numbers, &val).as_str(), res, "{:?}", val);
    }
}

#[test]
fn moving_keeps_what_is_no_range() {
    let mut a = Arg::Str(String::from("A1"));
    a.move_by(3, 3);
    assert_eq!(a, Arg::Str(String::from("A1")));
    let mut b = Arg::Rng(Some(String::from("s")), vec![Pos::new(1, 1)]);
    b.move_by(-5, 2);
    assert_eq!(b, Arg::Rng(Some(String::from("s")), vec![Pos::new(0, 3)]));
}

#[test]
fn build_expr() {
    let mut numbers = Numerics::new();
    let s = tokens(&mut numbers, "sum(sin(),cos(1,3))").unwrap();
    let r = expr_to_stack(&s).unwrap();
    assert_eq!(
        r,
        vec![
            Arg::Func(String::from("sin"), 0),
            num(1.0),
            num(3.0),
            Arg::Func(String::from("cos"), 2),
            Arg::Func(String::from("sum"), 2),
        ],
        "[{}]",
        "sum(sin(),cos(1,3))"
    );
    let s = tokens(&mut numbers, "sum(-234+A5,57)*20%-8").unwrap();
    let r = expr_to_stack(&s).unwrap();
    assert_eq!(
        r,
        vec![
            num(234.0),
            op("----"),
            Arg::Rng(None, vec![Pos::new(0, 4)]),
            op("+"),
            num(57.0),
            Arg::Func(String::from("sum"), 2),
            num(20.0),
            op("%"),
            op("*"),
            num(8.0),
            op("-"),
        ],
        "[{}]",
        "sum(-234+A5,57)*20%-8"
    );
}

#[test]
fn postfix_order_follows_precedence() {
    let mut numbers = Numerics::new();
    let s = tokens(&mut numbers, "1+2*3").unwrap();
    assert_eq!(expr_to_stack(&s), Ok(vec![num(1.0), num(2.0), num(3.0), op("*"), op("+")]));
    let s = tokens(&mut numbers, "2^3^2").unwrap();
    assert_eq!(expr_to_stack(&s), Ok(vec![num(2.0), num(3.0), num(2.0), op("^"), op("^")]));
    let s = tokens(&mut numbers, "1-2-3").unwrap();
    assert_eq!(expr_to_stack(&s), Ok(vec![num(1.0), num(2.0), op("-"), num(3.0), op("-")]));
    let s = tokens(&mut numbers, "(1+2)*3").unwrap();
    assert_eq!(expr_to_stack(&s), Ok(vec![num(1.0), num(2.0), op("+"), num(3.0), op("*")]));
    let s = tokens(&mut numbers, "1<2+3").unwrap();
    assert_eq!(
        expr_to_stack(&s),
        Ok(vec![num(1.0), num(2.0), num(3.0), op("+"), Arg::Eq(String::from("<"))])
    );
    let s = tokens(&mut numbers, "+1").unwrap();
    assert_eq!(expr_to_stack(&s), Ok(vec![num(1.0), op("++++")]));
    let s = tokens(&mut numbers, "f()").unwrap();
    assert_eq!(expr_to_stack(&s), Ok(vec![Arg::Func(String::from("f"), 0)]));
    let s = tokens(&mut numbers, "f(1,2,3)").unwrap();
    assert_eq!(
        expr_to_stack(&s),
        Ok(vec![num(1.0), num(2.0), num(3.0), Arg::Func(String::from("f"), 3)])
    );
}

#[test]
fn postfix_errors() {
    let mut numbers = Numerics::new();
    let s = tokens(&mut numbers, "1)").unwrap();
    assert_eq!(expr_to_stack(&s), Err(Error::UnmatchedBracket));
    let s = tokens(&mut numbers, "(1]").unwrap();
    assert_eq!(expr_to_stack(&s), Err(Error::BracketMismatch));
    let s = tokens(&mut numbers, "1,2").unwrap();
    assert_eq!(expr_to_stack(&s), Err(Error::CommaOutsideBrackets));
    assert_eq!(expr_to_stack(&[num(1.0), op("?"), num(2.0)]), Err(Error::UnsupportedOperator));
    // an opening bracket that is never closed
    let s = tokens(&mut numbers, "(1").unwrap();
    assert_eq!(expr_to_stack(&s), Err(Error::UnmatchedBracket));
    let s = tokens(&mut numbers, "(1+2").unwrap();
    assert_eq!(expr_to_stack(&s), Err(Error::UnmatchedBracket));
    let s = tokens(&mut numbers, "f(1,(2)").unwrap();
    assert_eq!(expr_to_stack(&s), Err(Error::UnmatchedBracket));
    // operators that still wait at the end are written out, the last first
    let s = tokens(&mut numbers, "1+2*3").unwrap();
    assert_eq!(expr_to_stack(&s), Ok(vec![num(1.0), num(2.0), num(3.0), op("*"), op("+")]));
    // an `End` token ends the input
    assert_eq!(expr_to_stack(&[num(1.0), Arg::End, num(2.0)]), Ok(vec![num(1.0)]));
}

#[test]
fn written_strings_read_back() {
    let numbers = Numerics::new();
    for text in ["", "a", "\"", "a\"b", "\"\"", "say \"hi\" twice \"\"", "é\"ü"] {
        let written = Arg::Str(String::from(text)).to_expr(&numbers).unwrap();
        let with_rest = format!("{}+1", written);
        assert_eq!(
            tabula::parse::parse_string(&with_rest),
            Ok(("+1", String::from(text))),
            "{}",
            written
        );
    }
}

#[test]
fn anchored_addresses_stay() {
    let mut numbers = Numerics::new();
    let (_st, mut val) = arg(&mut numbers, "$A$1:$C$3").unwrap();
    let before = val.clone();
    val.move_by(7, -9);
    assert_eq!(val, before);
    val.shift_range(0, 0, 5, 5);
    assert_eq!(val, before);
    let (_st, mut val) = arg(&mut numbers, "B2:C3").unwrap();
    let before = val.clone();
    val.move_by(0, 0);
    assert_eq!(val, before);
}

#[test]
fn a_number_is_tried_before_a_range() {
    let mut numbers = Numerics::new();
    // the title of a whole row begins with a digit
    assert_eq!(arg(&mut numbers, "7:7"), Ok((":7", num(7.0))));
    let column = Pos { col: 2, full_col: true, ..Pos::default() };
    assert_eq!(arg(&mut numbers, "C:C"), Ok(("", Arg::Rng(None, vec![column, column]))));
}
