//! Decimal numbers, the run's JSON, and layer-size lists.

use rustograd::text::{layout_json, parse_hidden, push_decimal, recording_json};

#[test]
fn decimals() {
    let mut s = String::new();
    push_decimal(&mut s, 0);
    assert_eq!(s, "0");
    let mut s = String::from("x");
    push_decimal(&mut s, 1234567890);
    assert_eq!(s, "x1234567890");
    let mut s = String::new();
    push_decimal(&mut s, usize::MAX);
    assert_eq!(s, usize::MAX.to_string());
}

#[test]
fn layout() {
    assert_eq!(layout_json(&[2, 16, 16, 1], 100), "{\"layers\":[2,16,16,1],\"steps\":100}");
    assert_eq!(layout_json(&[], 1), "{\"layers\":[],\"steps\":1}");
}

#[test]
fn recording() {
    let frames = vec!["{\"step\":0}".to_string(), "{\"step\":9}".to_string()];
    assert_eq!(
        recording_json(&[3, 8, 1], &frames),
        "{\"layers\":[3,8,1],\"frames\":[{\"step\":0},{\"step\":9}]}"
    );
    assert_eq!(recording_json(&[1], &[]), "{\"layers\":[1],\"frames\":[]}");
}

#[test]
fn hidden_sizes() {
    assert_eq!(parse_hidden("16,16"), vec![16, 16]);
    assert_eq!(parse_hidden(" 8 , 4,\t2 "), vec![8, 4, 2]);
    assert_eq!(parse_hidden(""), Vec::<usize>::new());
    assert_eq!(parse_hidden("0,3,x,,-2,+5"), vec![3, 5]);
    assert_eq!(parse_hidden("+"), Vec::<usize>::new());
    assert_eq!(parse_hidden("\u{a0}7\u{3000}"), vec![7]);
    assert_eq!(parse_hidden("1 2"), Vec::<usize>::new());
    assert_eq!(parse_hidden("007"), vec![7]);
    assert_eq!(parse_hidden("99999999999999999999999,4"), vec![4]);
    let max = usize::MAX.to_string();
    assert_eq!(parse_hidden(&max), vec![usize::MAX]);
}

/// The parser agrees with `str::parse` on every piece.
#[test]
fn hidden_sizes_match_std() {
    let cases = [
        "1,2,3", " 10 ,x, 20", "+7,++7,-7", "\n5\n", "3.0,4", "18446744073709551616", "٣,5",
    ];
    for c in cases {
        let expected: Vec<usize> = c
            .split(',')
            .filter_map(|t| t.trim().parse::<usize>().ok())
            .filter(|&x| x > 0)
            .collect();
        assert_eq!(parse_hidden(c), expected, "input {c:?}");
    }
}
