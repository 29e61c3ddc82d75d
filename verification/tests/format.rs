use tabula::codec::{get_text, get_u16, get_u64, get_usize, put_text, put_u16, put_u64, put_usize};
use tabula::error::{Error, Stop};
use tabula::format::{load_file, read_header, save_file, END_OF_CELLS};
use tabula::number::{Number, Numerics, Operator, Request};
use tabula::ops::{Arg, Pos};
use tabula::sheet::{Align, Cell, Color, OptionAttr, Sheet, VERSION};

fn answer(numbers: &mut Numerics, req: &Request) {
    match req {
        Request::Parse(text) => {
            let value = text.parse::<f64>().ok().map(|f| Number::from_bits(f.to_bits()));
            numbers.record_parse(text, value);
        }
        Request::Show(n) => {
            numbers.record_show(*n, &f64::from_bits(n.bits).to_string());
        }
        Request::Compute(op, a, b) => {
            let x = f64::from_bits(a.bits);
            let y = f64::from_bits(b.bits);
            let r = match op {
                Operator::Add => x + y,
                Operator::Sub => x - y,
                Operator::Mul => x * y,
                Operator::Div => x / y,
                Operator::Pow => x.powf(y),
            };
            numbers.record_compute(*op, *a, *b, Number::from_bits(r.to_bits()));
        }
    }
}

fn set(sheet: &mut Sheet, numbers: &mut Numerics, col: usize, row: usize, text: &str) {
    loop {
        match sheet.set_cell_text(col, row, text, numbers) {
            Ok(()) => return,
            Err(Stop::Unanswered(q)) => answer(numbers, &q),
            Err(Stop::Failed(e)) => panic!("{:?}", e),
        }
    }
}

fn load(bytes: &[u8], numbers: &mut Numerics) -> Result<(Sheet, usize), Error> {
    loop {
        match Sheet::load(bytes, 0, 80, 25, VERSION, numbers) {
            Ok(x) => return Ok(x),
            Err(Stop::Unanswered(q)) => answer(numbers, &q),
            Err(Stop::Failed(e)) => return Err(e),
        }
    }
}

fn num(f: f64) -> Arg {
    Arg::Number(Number::from_bits(f.to_bits()))
}

fn sample(numbers: &mut Numerics) -> Sheet {
    let mut sheet = Sheet::new(2, 80, 25);
    set(&mut sheet, numbers, 0, 0, "1");
    set(&mut sheet, numbers, 1, 0, "=A1+1");
    set(&mut sheet, numbers, 2, 5, "héllo \"wörld\"");
    set(&mut sheet, numbers, 18277, 99998, "=SUM(A1:B1)");
    sheet.set_cell_attr(
        2,
        5,
        OptionAttr {
            fg: Some(Color::Rgb { r: 1, g: 2, b: 3 }),
            bg: Some(Color::AnsiValue(200)),
            align: Some(Align::Right),
        },
    );
    sheet.set_cell_attr(
        7,
        7,
        OptionAttr { fg: Some(Color::DarkCyan), bg: Some(Color::White), align: Some(Align::Center) },
    );
    sheet.set_cell_attr(8, 7, OptionAttr { fg: None, bg: Some(Color::Black), align: Some(Align::Left) });
    sheet.resize_col(3, 5);
    sheet.resize_col(1, -2);
    sheet.fix_row(2).unwrap();
    sheet.fix_col(1).unwrap();
    sheet.cursor = Pos::new(4, 6);
    sheet.first_col = 1;
    sheet.first_row = 3;
    sheet
}

#[test]
fn a_saved_sheet_loads_as_it_was() {
    let mut numbers = Numerics::new();
    let sheet = sample(&mut numbers);
    let bytes = sheet.save().unwrap();
    let (back, end) = load(&bytes, &mut numbers).unwrap();
    assert_eq!(end, bytes.len());
    assert_eq!(back.name, "page3");
    assert_eq!(back.cells.len(), sheet.cells.len());
    for (id, cell) in sheet.cells.iter() {
        let other = back.cells.get(id).unwrap();
        assert_eq!(other.val, cell.val);
        assert_eq!(other.attr, cell.attr);
        assert_eq!(other.calculated, cell.calculated);
        assert_eq!(other.err, cell.err);
    }
    assert_eq!(back.widths, sheet.widths);
    assert_eq!(back.col_width(3), 15);
    assert_eq!(back.col_width(1), 8);
    assert_eq!(back.col_width(0), 10);
    assert_eq!(back.fixed_rows, 2);
    assert_eq!(back.fixed_cols, 1);
    assert_eq!(back.cursor, Pos::new(4, 6));
    assert_eq!(back.first_col, 1);
    assert_eq!(back.first_row, 3);
    assert_eq!(back.max_col, 18277);
    assert_eq!(back.max_row, 99998);
    assert_eq!(back.cell(1, 0).calculated, num(2.0));
    assert_eq!(back.cell(18277, 99998).calculated, num(3.0));
    // and it is written as it was read
    assert_eq!(back.save().unwrap(), bytes);
}

#[test]
fn the_bytes_of_a_sheet() {
    let mut numbers = Numerics::new();
    let mut sheet = Sheet::new(0, 80, 25);
    set(&mut sheet, &mut numbers, 1, 2, "ab");
    sheet.resize_col(4, 1);
    let mut expected: Vec<u8> = Vec::new();
    expected.extend(bincode::serialize(&String::from("page1")).unwrap());
    for v in [0usize, 0, 0, 0, 0, 0] {
        expected.extend(bincode::serialize(&v).unwrap());
    }
    expected.extend(bincode::serialize(&1usize).unwrap());
    expected.extend(bincode::serialize(&4usize).unwrap());
    expected.extend(bincode::serialize(&11u16).unwrap());
    for v in [0usize, 0, 0] {
        expected.extend(bincode::serialize(&v).unwrap());
    }
    expected.extend(bincode::serialize(&1usize).unwrap());
    expected.extend(bincode::serialize(&2usize).unwrap());
    expected.extend(bincode::serialize(&String::from("ab")).unwrap());
    expected.extend([0xFFu8, 0xFF, 0xFF]);
    expected.extend(bincode::serialize(&9_999_888_777usize).unwrap());
    expected.extend(bincode::serialize(&9_999_888_777usize).unwrap());
    assert_eq!(sheet.save().unwrap(), expected);
    assert_eq!(END_OF_CELLS, 9_999_888_777);
    assert_eq!(expected[0..13], [5, 0, 0, 0, 0, 0, 0, 0, b'p', b'a', b'g', b'e', b'1']);
}

#[test]
fn primitive_values() {
    let mut out: Vec<u8> = Vec::new();
    put_u16(&mut out, 0x1234);
    put_u64(&mut out, 0x0102030405060708);
    put_usize(&mut out, 7);
    put_text(&mut out, "aé");
    assert_eq!(
        out,
        vec![
            0x34, 0x12, 8, 7, 6, 5, 4, 3, 2, 1, 7, 0, 0, 0, 0, 0, 0, 0, 3, 0, 0, 0, 0, 0, 0, 0,
            b'a', 0xC3, 0xA9
        ]
    );
    assert_eq!(get_u16(&out, 0), Ok((0x1234, 2)));
    assert_eq!(get_u64(&out, 2), Ok((0x0102030405060708, 10)));
    assert_eq!(get_usize(&out, 10), Ok((7, 18)));
    assert_eq!(get_text(&out, 18), Ok((String::from("aé"), 29)));
    assert_eq!(get_u16(&out, 28), Err(Error::Truncated));
    assert_eq!(get_u16(&out, 40), Err(Error::Truncated));
    assert_eq!(get_u64(&out, 22), Err(Error::Truncated));
    assert_eq!(get_text(&out, 2), Err(Error::Truncated));
    assert_eq!(get_text(&out, 24), Err(Error::Truncated));
    // a text that is no UTF-8
    let bad = vec![1u8, 0, 0, 0, 0, 0, 0, 0, 0xFF];
    assert_eq!(get_text(&bad, 0), Err(Error::Truncated));
}

#[test]
fn colours_of_the_format() {
    let all = [
        Color::Black,
        Color::Red,
        Color::DarkRed,
        Color::Green,
        Color::DarkGreen,
        Color::Yellow,
        Color::DarkYellow,
        Color::Blue,
        Color::DarkBlue,
        Color::Magenta,
        Color::DarkMagenta,
        Color::Cyan,
        Color::DarkCyan,
        Color::Grey,
        Color::DarkGrey,
        Color::White,
    ];
    for (i, c) in all.iter().enumerate() {
        let cell = Cell {
            val: String::new(),
            calculated: Arg::End,
            attr: OptionAttr { fg: Some(*c), bg: None, align: None },
            err: 0,
        };
        let mut out = Vec::new();
        cell.save(&mut out).unwrap();
        assert_eq!(out, vec![0, 0, 0, 0, 0, 0, 0, 0, 0xFF, 0, i as u8, 0xFF]);
        let (back, end) = Cell::load(&out, 0, VERSION).unwrap();
        assert_eq!(end, out.len());
        assert_eq!(back, cell);
    }
    let reset = Cell {
        val: String::new(),
        calculated: Arg::End,
        attr: OptionAttr { fg: None, bg: Some(Color::Reset), align: None },
        err: 0,
    };
    let mut out = Vec::new();
    assert_eq!(reset.save(&mut out), Err(Error::InvalidColor));
    assert!(out.is_empty());
    assert_eq!(Cell::load(&[0u8; 8], 0, VERSION + 1), Err(Error::UnsupportedVersion));
    assert_eq!(Cell::load(&[0, 0, 0, 0, 0, 0, 0, 0, 3, 0xFF, 0xFF], 0, VERSION), Err(Error::InvalidAlign));
    assert_eq!(Cell::load(&[0, 0, 0, 0, 0, 0, 0, 0, 0xFF, 3, 0xFF], 0, VERSION), Err(Error::InvalidColor));
    assert_eq!(
        Cell::load(&[0, 0, 0, 0, 0, 0, 0, 0, 0xFF, 0, 16, 0xFF], 0, VERSION),
        Err(Error::InvalidColor)
    );
    assert_eq!(Cell::load(&[0, 0, 0, 0, 0, 0, 0, 0, 0xFF, 2, 1, 2], 0, VERSION), Err(Error::Truncated));
}

#[test]
fn files_of_sheets() {
    let mut numbers = Numerics::new();
    let sheets = vec![sample(&mut numbers), Sheet::new(1, 80, 25)];
    let bytes = save_file(&sheets, 1).unwrap();
    assert_eq!(bytes[0..2], [1, 0]);
    assert_eq!(read_header(&bytes), Ok((2, 1, 26)));
    let (back, current) = loop {
        match load_file(&bytes, 100, 30, &numbers) {
            Ok(x) => break x,
            Err(Stop::Unanswered(q)) => answer(&mut numbers, &q),
            Err(Stop::Failed(e)) => panic!("{:?}", e),
        }
    };
    assert_eq!(current, 1);
    assert_eq!(back.len(), 2);
    assert_eq!(back[0].name, "page3");
    assert_eq!(back[1].name, "page2");
    assert_eq!(back[0].w, 100);
    assert_eq!(back[0].h, 30);
    assert_eq!(back[0].cells.len(), sheets[0].cells.len());
    assert!(back[0].dirty);
    assert!(!back[1].dirty);
    assert_eq!(save_file(&back, 1).unwrap(), bytes);
    assert_eq!(save_file(&Vec::new(), 0), Err(Error::InvalidCount));
    assert_eq!(save_file(&back, 2), Err(Error::InvalidIndex));
}

#[test]
fn files_that_are_refused() {
    let numbers = Numerics::new();
    let fail = |bytes: &[u8]| match load_file(bytes, 80, 25, &numbers) {
        Err(Stop::Failed(e)) => e,
        other => panic!("{:?}", other.map(|x| x.1)),
    };
    let mut head: Vec<u8> = Vec::new();
    put_u16(&mut head, 2);
    assert_eq!(fail(&head), Error::UnsupportedVersion);
    assert_eq!(fail(&[1]), Error::Truncated);
    let header = |count: u64, current: u64, reserved: u64| {
        let mut b: Vec<u8> = Vec::new();
        put_u16(&mut b, VERSION);
        put_u64(&mut b, count);
        put_u64(&mut b, current);
        put_u64(&mut b, reserved);
        b
    };
    assert_eq!(fail(&header(0, 0, 0)), Error::InvalidCount);
    assert_eq!(fail(&header(101, 0, 0)), Error::InvalidCount);
    assert_eq!(fail(&header(2, 2, 0)), Error::InvalidIndex);
    assert_eq!(fail(&header(2, 1, 5)), Error::ReservedNotZero);
    assert_eq!(fail(&header(1, 0, 0)), Error::Truncated);
    let sheet = |fields: [u64; 6], reserved: u64, cell: (u64, u64)| {
        let mut b = header(1, 0, 0);
        put_text(&mut b, "s");
        for f in fields {
            put_u64(&mut b, f);
        }
        put_u64(&mut b, 0);
        put_u64(&mut b, reserved);
        put_u64(&mut b, 0);
        put_u64(&mut b, 0);
        put_u64(&mut b, cell.0);
        put_u64(&mut b, cell.1);
        put_text(&mut b, "");
        b.extend([0xFFu8, 0xFF, 0xFF]);
        put_u64(&mut b, END_OF_CELLS);
        put_u64(&mut b, END_OF_CELLS);
        b
    };
    assert!(load_file(&sheet([0, 0, 0, 0, 0, 0], 0, (0, 0)), 80, 25, &numbers).is_ok());
    assert_eq!(fail(&sheet([18278, 0, 0, 0, 0, 0], 0, (0, 0))), Error::InvalidIndex);
    assert_eq!(fail(&sheet([0, 0, 0, 99999, 0, 0], 0, (0, 0))), Error::InvalidIndex);
    assert_eq!(fail(&sheet([0, 0, 0, 0, 201, 0], 0, (0, 0))), Error::InvalidCount);
    assert_eq!(fail(&sheet([0, 0, 0, 0, 0, 1001], 0, (0, 0))), Error::InvalidCount);
    assert_eq!(fail(&sheet([0, 0, 0, 0, 0, 0], 1, (0, 0))), Error::ReservedNotZero);
    assert_eq!(fail(&sheet([0, 0, 0, 0, 0, 0], 0, (18278, 0))), Error::InvalidIndex);
    assert_eq!(fail(&sheet([0, 0, 0, 0, 0, 0], 0, (0, 99999))), Error::InvalidIndex);
    assert_eq!(fail(&sheet([0, 0, 0, 0, 0, 0], 0, (END_OF_CELLS, 0))), Error::InvalidIndex);
    let mut cut = sheet([0, 0, 0, 0, 0, 0], 0, (0, 0));
    cut.pop();
    assert_eq!(fail(&cut), Error::Truncated);
}

#[test]
fn texts_are_read_back_without_the_space_at_their_ends() {
    let mut numbers = Numerics::new();
    let mut sheet = Sheet::new(0, 80, 25);
    let attr = OptionAttr { fg: Some(Color::Red), bg: None, align: Some(Align::Center) };
    let mut cell = Cell::default();
    cell.val = String::from("  x y ");
    cell.attr = attr;
    sheet.set_cell(3, 4, cell);
    let mut bare = Cell::default();
    bare.attr = attr;
    sheet.set_cell(0, 9, bare);
    let bytes = sheet.save().unwrap();
    let mut behind = bytes.clone();
    behind.extend_from_slice(&[1, 2, 3]);
    let (back, end) = load(&behind, &mut numbers).unwrap();
    assert_eq!(end, bytes.len());
    let places: Vec<u64> = back.cells.keys().copied().collect();
    let before: Vec<u64> = sheet.cells.keys().copied().collect();
    assert_eq!(places, before);
    assert_eq!(back.cell(3, 4).val, "x y");
    assert_eq!(back.cell(3, 4).attr, attr);
    assert_eq!(back.cell(0, 9).val, "");
    assert_eq!(back.cell(0, 9).attr, attr);
    assert_eq!(back.widths, sheet.widths);
    assert_eq!(back.fixed_rows, sheet.fixed_rows);
    assert_eq!(back.fixed_cols, sheet.fixed_cols);
}

#[test]
fn a_colour_without_a_place_stops_the_writing() {
    let mut numbers = Numerics::new();
    let mut sheet = sample(&mut numbers);
    assert!(sheet.save().is_ok());
    sheet.set_cell_attr(1, 1, OptionAttr { fg: Some(Color::Reset), bg: None, align: None });
    assert_eq!(sheet.save(), Err(Error::InvalidColor));
    let other = Sheet::new(1, 80, 25);
    assert_eq!(save_file(&vec![other, sheet], 0), Err(Error::InvalidColor));
    assert!(save_file(&vec![Sheet::new(1, 80, 25)], 0).is_ok());
}
