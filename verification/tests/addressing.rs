use tabula::parse::{idx_to_name, name_to_idx, MAX_COLS, NUM_LETTERS, TWO_LETTERS};

#[test]
fn to_name() {
    let v: Vec<usize> = vec![
        NUM_LETTERS - 1,
        NUM_LETTERS,
        NUM_LETTERS + 1,
        TWO_LETTERS + NUM_LETTERS - 1,
        TWO_LETTERS + NUM_LETTERS,
        TWO_LETTERS + NUM_LETTERS + 1,
        MAX_COLS - 2,
        MAX_COLS - 1,
    ];
    let r: Vec<&str> = vec!["Z", "AA", "AB", "ZZ", "AAA", "AAB", "ZZY", "ZZZ"];
    for (idx, val) in v.iter().enumerate() {
        let res = idx_to_name(*val);
        assert_eq!(res, r[idx], "{}", val);
    }
}

#[test]
fn to_idx() {
    let v: Vec<&str> = vec![
        "H", "Z", "AA", "AB", "CD", "YC", "ZZ", "AAA", "AAB", "DEF", "UAC", "ZZY", "ZZZ",
    ];
    for val in v {
        let idx = name_to_idx(val).unwrap();
        let back = idx_to_name(idx);
        assert_eq!(val, back, "{}={}", val, idx);
    }
}
