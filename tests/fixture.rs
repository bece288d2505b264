use molecules::fixture::{parse_question, parse_verdict};
use molecules::subset::{assert_correct, find_subset, find_subset2};

#[test]
fn question_record_is_read() {
    let text = b"4 15 17\n6 8 8 7\n";
    assert_eq!(parse_question(text), Some((15, 17, vec![6, 8, 8, 7])));
}

#[test]
fn question_record_solves() {
    let (l, u, w) = parse_question(b"10 100 110\n12 18 18 17 19 13 16 11 11 20\n").unwrap();
    let solvable = parse_verdict(b"10\n1\n").unwrap();
    assert!(assert_correct(&find_subset(l, u, &w), l, u, &w, solvable));
    assert!(assert_correct(&find_subset2(l, u, &w), l, u, &w, solvable));
}

#[test]
fn question_with_missing_weight_is_refused() {
    assert_eq!(parse_question(b"3 1 2\n5 6"), None);
    assert_eq!(parse_question(b"2 1\n"), None);
    assert_eq!(parse_question(b""), None);
}

#[test]
fn question_with_no_weights() {
    assert_eq!(parse_question(b"0 3 4\n"), Some((3, 4, vec![])));
}

#[test]
fn numbers_follow_the_leading_digits() {
    assert_eq!(parse_question(b"1 007 9x\n42abc "), Some((7, 9, vec![42])));
    assert_eq!(parse_question(b"1 +3 9\n4294967295 "), Some((3, 9, vec![4294967295])));
    assert_eq!(parse_question(b"1 3 9\n4294967296 "), None);
    assert_eq!(parse_question(b"1 -0 9\n5 "), Some((0, 9, vec![5])));
    assert_eq!(parse_question(b"1 -3 9\n5 "), None);
    assert_eq!(parse_question(b"1 x 9\n5 "), None);
}

#[test]
fn verdict_is_second_line() {
    assert_eq!(parse_verdict(b"7\n0\n"), Some(false));
    assert_eq!(parse_verdict(b"0\n12\n"), Some(true));
    assert_eq!(parse_verdict(b"5\n"), None);
    assert_eq!(parse_verdict(b"5\nyes\n"), None);
}
