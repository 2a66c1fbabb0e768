use splay_zipper::driver::{apply, parse_header, parse_operation, run, Failure, Operation};
use splay_zipper::sequence::BitRange;

fn session(input: &str) -> (String, Option<Failure>) {
    let outcome = run(input.as_bytes());
    (String::from_utf8(outcome.output).unwrap(), outcome.failure)
}

#[test]
fn session_prints_one_line_for_each_get() {
    let (out, failure) = session("8 4\nS 3 1\nG 3\nG 2\nG 7\n");
    assert_eq!(out, "1\n0\n0\n");
    assert_eq!(failure, None);
}

#[test]
fn session_reverses_ranges() {
    let (out, failure) =
        session("6 12\nS 0 1\nS 2 1\nS 4 1\nR 1 4\nG 0\nG 1\nG 2\nG 3\nG 4\nG 5\nR 0 5\nG 0\n");
    assert_eq!(out, "1\n1\n0\n1\n0\n0\n0\n");
    assert_eq!(failure, None);
}

#[test]
fn session_without_final_newline_and_with_carriage_returns() {
    let (out, failure) = session("2 2\r\nS 1 1\r\nG 1");
    assert_eq!(out, "1\n");
    assert_eq!(failure, None);
}

#[test]
fn session_stops_after_the_number_of_operations() {
    let (out, failure) = session("2 1\nG 0\nG 5\nnonsense\n");
    assert_eq!(out, "0\n");
    assert_eq!(failure, None);
    let (out, failure) = session("2 0\nG 5\n");
    assert_eq!(out, "");
    assert_eq!(failure, None);
    let (out, failure) = session("2 -3\nG 5\n");
    assert_eq!(out, "");
    assert_eq!(failure, None);
}

#[test]
fn get_out_of_range_ends_the_session() {
    let (out, failure) = session("3 3\nG 0\nG 3\nG 1\n");
    assert_eq!(out, "0\n");
    assert_eq!(failure, Some(Failure::OutOfRange));
    let (out, failure) = session("-1 1\nG 0\n");
    assert_eq!(out, "");
    assert_eq!(failure, Some(Failure::OutOfRange));
}

#[test]
fn set_and_reverse_out_of_range_change_nothing() {
    let (out, failure) = session("3 6\nS 3 1\nS -1 1\nR 2 1\nR 0 3\nG 0\nG 2\n");
    assert_eq!(out, "0\n0\n");
    assert_eq!(failure, None);
}

#[test]
fn malformed_lines_end_the_session() {
    for input in [
        "",
        "\n",
        "3\nG 0\n",
        "x 1\nG 0\n",
        "3 y\nG 0\n",
        "3 1\n",
        "3 1\nX 0\n",
        "3 1\nG\n",
        "3 1\nG x\n",
        "3 1\nS 0\n",
        "3 1\nR 0\n",
        "3 1\nR 0 z\n",
        "3 1\nG  0\n",
        "3 1\n G 0\n",
        "3 1\ng 0\n",
        "3 1\nG 2147483648\n",
        "3 2\nG 0\n",
    ] {
        let (_, failure) = session(input);
        assert_eq!(failure, Some(Failure::Malformed), "input {:?}", input);
    }
    let (out, failure) = session("3 2\nG 0\n");
    assert_eq!(out, "0\n");
    assert_eq!(failure, Some(Failure::Malformed));
}

#[test]
fn operations_are_read_from_lines() {
    assert_eq!(parse_operation(b"S 3 1"), Ok(Operation::SetBit { index: 3, bit: true }));
    assert_eq!(parse_operation(b"S 3 0\n"), Ok(Operation::SetBit { index: 3, bit: false }));
    assert_eq!(parse_operation(b"S 3 7"), Ok(Operation::SetBit { index: 3, bit: false }));
    assert_eq!(parse_operation(b"S 3 11"), Ok(Operation::SetBit { index: 3, bit: false }));
    assert_eq!(parse_operation(b"S 3 "), Err(Failure::Malformed));
    assert_eq!(parse_operation(b"G 12 \t\r\n"), Ok(Operation::GetBit { index: 12 }));
    assert_eq!(parse_operation(b"G 12 and more"), Ok(Operation::GetBit { index: 12 }));
    assert_eq!(parse_operation(b"R 1 4"), Ok(Operation::ReverseRange { first: 1, last: 4 }));
    assert_eq!(parse_operation(b"R -1 +4"), Ok(Operation::ReverseRange { first: -1, last: 4 }));
    assert_eq!(parse_operation(b"GG 1"), Err(Failure::Malformed));
    assert_eq!(parse_operation(b""), Err(Failure::Malformed));
}

#[test]
fn numbers_are_decimal_with_an_optional_sign() {
    let index = |text: &str| match parse_operation(format!("G {}", text).as_bytes()) {
        Ok(Operation::GetBit { index }) => Some(index),
        _ => None,
    };
    assert_eq!(index("0"), Some(0));
    assert_eq!(index("007"), Some(7));
    assert_eq!(index("-0"), Some(0));
    assert_eq!(index("+15"), Some(15));
    assert_eq!(index("-15"), Some(-15));
    assert_eq!(index("2147483647"), Some(i32::MAX));
    assert_eq!(index("-2147483648"), Some(i32::MIN));
    assert_eq!(index("2147483648"), None);
    assert_eq!(index("-2147483649"), None);
    assert_eq!(index("99999999999999999999999999"), None);
    assert_eq!(index("+"), None);
    assert_eq!(index("-"), None);
    assert_eq!(index("+-1"), None);
    assert_eq!(index("1a"), None);
    assert_eq!(index("1.0"), None);
    assert_eq!(index("0x10"), None);
}

#[test]
fn header_gives_length_and_count() {
    assert_eq!(parse_header(b"8 3\n"), Ok((8, 3)));
    assert_eq!(parse_header(b"0 0"), Ok((0, 0)));
    assert_eq!(parse_header(b"-2 5 rest"), Ok((-2, 5)));
    assert_eq!(parse_header(b"8"), Err(Failure::Malformed));
    assert_eq!(parse_header(b"8  3"), Err(Failure::Malformed));
    assert_eq!(parse_header(b"a b"), Err(Failure::Malformed));
}

#[test]
fn apply_makes_the_operation() {
    let mut range = BitRange::new(4);
    assert_eq!(apply(&mut range, Operation::SetBit { index: 1, bit: true }), Ok(None));
    assert_eq!(apply(&mut range, Operation::GetBit { index: 1 }), Ok(Some(true)));
    assert_eq!(apply(&mut range, Operation::ReverseRange { first: 0, last: 3 }), Ok(None));
    assert_eq!(apply(&mut range, Operation::GetBit { index: 2 }), Ok(Some(true)));
    assert_eq!(apply(&mut range, Operation::GetBit { index: 1 }), Ok(Some(false)));
    assert_eq!(apply(&mut range, Operation::GetBit { index: 4 }), Err(Failure::OutOfRange));
    assert_eq!(range.len(), 4);
}
