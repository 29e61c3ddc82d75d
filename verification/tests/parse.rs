use tabula::error::Error;
use tabula::ops::Pos;
use tabula::parse::{
    is_white, name_to_idx, parse_any_char, parse_any_literal, parse_comma, parse_full_range,
    parse_func, parse_ident, parse_int, parse_literal, parse_range, parse_string, parse_while,
    skip_white, Range, NUM_LETTERS,
};

struct RangeCase {
    val: &'static str,
    r1: Pos,
    r2: Pos,
    len: usize,
}

#[test]
fn coord_parse_ok() {
    let tests: Vec<RangeCase> = vec![
        RangeCase { val: "A1", len: 1, r1: Pos { col: 0, row: 0, ..Pos::default() }, r2: Pos::default() },
        RangeCase {
            val: "$b2",
            len: 1,
            r1: Pos { col: 1, row: 1, fixed_col: true, ..Pos::default() },
            r2: Pos::default(),
        },
        RangeCase {
            val: "b$2",
            len: 1,
            r1: Pos { col: 1, row: 1, fixed_row: true, ..Pos::default() },
            r2: Pos::default(),
        },
        RangeCase {
            val: "Y3489",
            len: 1,
            r1: Pos { col: NUM_LETTERS - 2, row: 3488, ..Pos::default() },
            r2: Pos::default(),
        },
        RangeCase {
            val: "$Y3489",
            len: 1,
            r1: Pos { col: NUM_LETTERS - 2, row: 3488, fixed_col: true, ..Pos::default() },
            r2: Pos::default(),
        },
        RangeCase {
            val: "$Y$3489",
            len: 1,
            r1: Pos {
                col: NUM_LETTERS - 2,
                row: 3488,
                fixed_col: true,
                fixed_row: true,
                ..Pos::default()
            },
            r2: Pos::default(),
        },
        RangeCase {
            val: "AB19",
            len: 1,
            r1: Pos { col: NUM_LETTERS + 1, row: 18, ..Pos::default() },
            r2: Pos::default(),
        },
        RangeCase {
            val: "AA:AA",
            len: 2,
            r1: Pos { col: NUM_LETTERS, full_col: true, ..Pos::default() },
            r2: Pos { col: NUM_LETTERS, full_col: true, ..Pos::default() },
        },
        RangeCase {
            val: "C2:AB4",
            len: 2,
            r1: Pos { col: 2, row: 1, ..Pos::default() },
            r2: Pos { col: NUM_LETTERS + 1, row: 3, ..Pos::default() },
        },
        RangeCase {
            val: "C4:AB2",
            len: 2,
            r1: Pos { col: 2, row: 1, ..Pos::default() },
            r2: Pos { col: NUM_LETTERS + 1, row: 3, ..Pos::default() },
        },
        RangeCase {
            val: "c2:Ab4",
            len: 2,
            r1: Pos { col: 2, row: 1, ..Pos::default() },
            r2: Pos { col: NUM_LETTERS + 1, row: 3, ..Pos::default() },
        },
        RangeCase {
            val: "B2:B",
            len: 2,
            r1: Pos { col: 1, row: 1, ..Pos::default() },
            r2: Pos { col: 1, full_col: true, ..Pos::default() },
        },
    ];
    for t in tests {
        let (_s, r) = parse_range(t.val).unwrap();
        assert_eq!(r.len(), t.len);
        assert_eq!(r[0], t.r1);
        if t.len > 1 {
            assert_eq!(r[1], t.r2);
        }
    }
}

#[test]
fn coord_parse_fail() {
    let v: Vec<&str> = vec![":A1", "", "ZXCD:89", "A:B", "1:D", "$A:A", "A:$A", "1:$1"];
    for s in v {
        let r = parse_range(s);
        assert!(r.is_err(), "{} = {:?}", s, r);
        assert_eq!(r, Err(Error::InvalidAddress));
    }
}

#[test]
fn ident_parse_ok() {
    let tests: Vec<(&str, &str)> = vec![
        ("123.4", ""),
        ("(23)", ""),
        ("zs(23)", "zs"),
        ("zкирs2-", "zкирs2"),
        ("func.name", "func.name"),
        ("ир", "ир"),
        ("zs_0(23)", "zs_0"),
    ];
    for (val, id) in tests {
        let (_s, v) = parse_ident(val);
        assert_eq!(v, id, "{}", val);
    }
}

#[test]
fn full_range_parse_ok() {
    let tests: Vec<(&str, &str, Vec<Pos>)> = vec![
        (
            "a1:b1",
            "",
            vec![Pos { col: 0, row: 0, ..Pos::default() }, Pos { col: 1, row: 0, ..Pos::default() }],
        ),
        (
            "1ac!a1:b1",
            "1ac",
            vec![Pos { col: 0, row: 0, ..Pos::default() }, Pos { col: 1, row: 0, ..Pos::default() }],
        ),
        ("1/ac!c4+d5", "1/ac", vec![Pos { col: 2, row: 3, ..Pos::default() }]),
        (
            "sheet-name3!a2:b1",
            "sheet-name3",
            vec![Pos { col: 0, row: 0, ..Pos::default() }, Pos { col: 1, row: 1, ..Pos::default() }],
        ),
        (
            "'sheet one'!a2:b1",
            "sheet one",
            vec![Pos { col: 0, row: 0, ..Pos::default() }, Pos { col: 1, row: 1, ..Pos::default() }],
        ),
    ];
    for (val, name, expected) in tests {
        let (_s, coords, sheet) = parse_full_range(val).unwrap();
        assert_eq!(sheet, name, "{}", val);
        assert_eq!(coords.len(), expected.len(), "{}", val);
        assert_eq!(coords[0], expected[0], "{}", val);
        if coords.len() > 1 {
            assert_eq!(coords[1], expected[1], "{}", val);
        }
    }
}

#[test]
fn parse_int_test() {
    let tests: Vec<(&str, i64, bool)> = vec![
        ("a", 0, true),
        ("8888888888888888888888888888888888", 0, true),
        ("239", 239, false),
        ("8839.2", 8839, false),
    ];
    for (st, vl, err) in tests {
        let r = parse_int(st);
        if err {
            assert!(r.is_err(), "{}", st);
        } else {
            let (_s, val) = r.unwrap();
            assert_eq!(val, vl, "{}", st);
        }
    }
}

#[test]
fn parse_string_test() {
    let tests: Vec<(&str, &str, bool)> = vec![
        ("abc", "", true),
        ("\"abc", "", true),
        ("\"abc\"\"", "abc", true),
        ("\"abc\"\"\"", "abc\"", false),
        ("\"deabc\"zz", "deabc", false),
        ("\"deabc\"\"zz\"", "deabc\"zz", false),
        ("\"deabc\"\"zz\"\"ui\"", "deabc\"zz\"ui", false),
    ];
    for (st, rs, err) in tests {
        let r = parse_string(st);
        if err {
            assert!(r.is_err(), "{}", st);
        } else {
            let (_s, val) = r.unwrap();
            assert_eq!(val, rs, "{}", st);
        }
    }
}

#[test]
fn parse_func_test() {
    let tests: Vec<(&str, &str)> = vec![
        ("abc", ""),
        ("1abc(", ""),
        ("abc+(1, 2)", ""),
        ("ab360c(A2, B1)", "ab360c"),
        ("abc.func(A2, B1)", "abc.func"),
        ("_abc(A2, B1)", "_abc"),
    ];
    for (st, rs) in tests {
        let (_s, val) = parse_func(st);
        assert_eq!(val, rs, "{}", st);
    }
}

#[test]
fn small_parsers() {
    assert!(is_white(' ') && is_white('\t') && is_white('\n') && is_white('\r') && is_white('\x0C'));
    assert!(!is_white('a') && !is_white('\u{a0}') && !is_white('\x0B'));
    assert_eq!(skip_white(" \t\n x y "), "x y ");
    assert_eq!(skip_white(""), "");
    assert_eq!(skip_white("   "), "");
    assert_eq!(skip_white("\u{a0}x"), "\u{a0}x");
    assert_eq!(parse_comma(",a"), ("a", true));
    assert_eq!(parse_comma("a,"), ("a,", false));
    assert_eq!(parse_comma(""), ("", false));
    assert_eq!(parse_literal("$a1", "$"), ("a1", true));
    assert_eq!(parse_literal("ééx", "éé"), ("x", true));
    assert_eq!(parse_literal("a", "ab"), ("a", false));
    assert_eq!(parse_literal("abc", ""), ("abc", true));
    assert_eq!(parse_any_literal("<=1", &["<>", "<=", "<"]), ("1", String::from("<=")));
    assert_eq!(parse_any_literal("<1", &["<>", "<=", "<"]), ("1", String::from("<")));
    assert_eq!(parse_any_literal("<=1", &["<", "<="]), ("=1", String::from("<")));
    assert_eq!(parse_any_literal("=1", &["<>", "<=", "<"]), ("=1", String::new()));
    assert_eq!(parse_any_literal("=1", &[]), ("=1", String::new()));
    assert_eq!(parse_any_char("e5", "eE"), ("5", String::from("e")));
    assert_eq!(parse_any_char("E5", "eE"), ("5", String::from("E")));
    assert_eq!(parse_any_char("x5", "eE"), ("x5", String::new()));
    assert_eq!(parse_any_char("", "eE"), ("", String::new()));
    assert_eq!(parse_any_char("éa", "xé"), ("a", String::from("é")));
    assert_eq!(parse_while("123abc", |c| c.is_ascii_digit()), ("abc", String::from("123")));
    assert_eq!(parse_while("abc", |c| c.is_ascii_digit()), ("abc", String::new()));
    assert_eq!(parse_while("123", |c| c.is_ascii_digit()), ("", String::from("123")));
    assert_eq!(parse_while("ééa", |c| c == 'é'), ("a", String::from("éé")));
}

#[test]
fn errors_of_the_parsers() {
    assert_eq!(parse_string("abc"), Err(Error::MissingQuote));
    assert_eq!(parse_string(""), Err(Error::MissingQuote));
    assert_eq!(parse_string("\"abc"), Err(Error::UnterminatedString));
    assert_eq!(parse_string("\"abc\"\""), Err(Error::UnterminatedString));
    assert_eq!(parse_string("\"\"x"), Ok(("x", String::new())));
    assert_eq!(parse_int("a"), Err(Error::InvalidNumber));
    assert_eq!(parse_int("9223372036854775807"), Ok(("", i64::MAX)));
    assert_eq!(parse_int("9223372036854775808"), Err(Error::InvalidNumber));
    assert_eq!(parse_int("007x"), Ok(("x", 7)));
    assert_eq!(name_to_idx(""), Err(Error::InvalidAddress));
    assert_eq!(name_to_idx("ABCD"), Err(Error::InvalidAddress));
    assert_eq!(name_to_idx("A1"), Err(Error::InvalidAddress));
    assert_eq!(name_to_idx("é"), Err(Error::InvalidAddress));
    assert_eq!(name_to_idx("a"), Ok(0));
    assert_eq!(name_to_idx("zZz"), Ok(18277));
    assert_eq!(parse_full_range("'sheet!A1"), Err(Error::UnterminatedString));
    assert_eq!(parse_full_range("sheet!"), Err(Error::InvalidAddress));
    assert_eq!(parse_range("A0"), Err(Error::InvalidAddress));
    assert_eq!(parse_range("A99999999999999999999999"), Err(Error::InvalidAddress));
    assert_eq!(parse_range("$1"), Err(Error::InvalidAddress));
    assert_eq!(parse_range("7").map(|x| x.1), Ok(vec![Pos { row: 6, full_row: true, ..Pos::default() }]));
    assert_eq!(parse_range("A1:B2:C3").map(|x| x.0), Ok(":C3"));
}

#[test]
fn ranges_as_text() {
    assert_eq!(Range::Single(Pos::new(0, 0)).to_string(), "A1");
    assert_eq!(Range::Multi(Pos::new(1, 1), Pos::new(27, 99)).to_string(), "B2:AB100");
    assert_eq!(Range::Col(702).to_string(), "COL AAA");
    assert_eq!(Range::Row(7).to_string(), "ROW 7");
    assert_eq!(Range::Single(Pos::new(3, 4)).indices(), (3, 4, 3, 4));
    assert_eq!(Range::Multi(Pos::new(1, 2), Pos::new(3, 4)).indices(), (1, 2, 3, 4));
    assert_eq!(
        Pos::new(5, 6),
        Pos { col: 5, row: 6, fixed_col: false, fixed_row: false, full_col: false, full_row: false }
    );
    assert_eq!(Pos::default().col, usize::MAX);
    assert_eq!(Pos::default().row, usize::MAX);
}
