use project2::input::{parse_values, ValuesInput};

/// The values of a line, as the standard library reads it: words split at
/// white space, each parsed as an `i32`.
fn std_reading(line: &str) -> Option<Vec<i32>> {
    line.split_whitespace().map(|w| w.parse::<i32>()).collect::<Result<Vec<i32>, _>>().ok()
}

fn values(r: ValuesInput) -> Vec<i32> {
    match r {
        ValuesInput::Values(v) => v,
        other => panic!("expected values, got {:?}", other),
    }
}

#[test]
fn parse_menu_sequence() {
    assert_eq!(values(parse_values("20 10 5 30 3 25 4 8 23")), vec![20, 10, 5, 30, 3, 25, 4, 8, 23]);
}

#[test]
fn parse_signs_and_limits() {
    assert_eq!(values(parse_values("+5 -7 0 -0")), vec![5, -7, 0, 0]);
    assert_eq!(values(parse_values("2147483647 -2147483648")), vec![i32::MAX, i32::MIN]);
}

#[test]
fn parse_other_separators() {
    assert_eq!(values(parse_values("\t1\n2\u{a0}3\u{3000}4  ")), vec![1, 2, 3, 4]);
}

#[test]
fn parse_empty_lines() {
    assert!(matches!(parse_values(""), ValuesInput::Empty));
    assert!(matches!(parse_values("   \t "), ValuesInput::Empty));
}

#[test]
fn parse_invalid_words() {
    for line in ["12a", "1 2 x", "+", "-", "+-1", "2147483648", "-2147483649", "99999999999999999999", "1.5"] {
        assert!(matches!(parse_values(line), ValuesInput::Invalid), "{line}");
    }
}

#[test]
fn parse_agrees_with_std() {
    let lines = [
        "", " ", "7", " 7 ", "1 2 3", "-1 +2", "a", "1 a", "2147483647", "2147483648",
        "-2147483648", "-2147483649", "00012", "+0", "1\u{2003}2", "1\u{200b}2", "\u{663}",
    ];
    for line in lines {
        let ours = match parse_values(line) {
            ValuesInput::Values(v) => Some(v),
            ValuesInput::Empty => Some(vec![]),
            ValuesInput::Invalid => None,
        };
        assert_eq!(ours, std_reading(line), "{line:?}");
    }
}
