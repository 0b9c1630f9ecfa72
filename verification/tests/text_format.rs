use cube_complement::codec::{parse_cube_line, parse_cube_list, write_cube_line, WriteCubeList};
use cube_complement::complement::Complement;
use cube_complement::decimal::{parse_digits, parse_signed, parse_unsigned, push_decimal};
use cube_complement::error::CubeError;
use cube_complement::logic::{CubeList, TriLogic};
use cube_complement::text::split_bytes;

const T: TriLogic = TriLogic::True;
const F: TriLogic = TriLogic::False;
const X: TriLogic = TriLogic::DontCare;

fn written(num_vars: usize, list: &CubeList) -> Vec<u8> {
    let mut out = Vec::new();
    assert_eq!(WriteCubeList(&mut out, num_vars, list), Ok(()));
    out
}

fn sorted(mut list: CubeList) -> CubeList {
    list.sort();
    list
}

#[test]
fn digits_of_numbers() {
    let mut out = Vec::new();
    push_decimal(&mut out, 0);
    assert_eq!(out, b"0".to_vec());
    push_decimal(&mut out, 1907);
    assert_eq!(out, b"01907".to_vec());
    let mut big = Vec::new();
    push_decimal(&mut big, usize::MAX);
    assert_eq!(big, format!("{}", usize::MAX).into_bytes());
    assert_eq!(parse_unsigned(&big), Some(usize::MAX));
}

#[test]
fn numbers_of_digits() {
    assert_eq!(parse_unsigned(b"42"), Some(42));
    assert_eq!(parse_unsigned(b"+42"), Some(42));
    assert_eq!(parse_unsigned(b"007"), Some(7));
    assert_eq!(parse_unsigned(b""), None);
    assert_eq!(parse_unsigned(b"+"), None);
    assert_eq!(parse_unsigned(b"-1"), None);
    assert_eq!(parse_unsigned(b"4x"), None);
    assert_eq!(parse_unsigned(b"++4"), None);
    assert_eq!(parse_digits(b"ab12", 2), Some(12));
    assert_eq!(parse_digits(b"ab12", 4), None);
    assert_eq!(parse_signed(b"-13"), Some((true, 13)));
    assert_eq!(parse_signed(b"13"), Some((false, 13)));
    assert_eq!(parse_signed(b"+13"), Some((false, 13)));
    assert_eq!(parse_signed(b"-0"), Some((true, 0)));
    assert_eq!(parse_signed(b"-"), None);
    assert_eq!(parse_signed(b"-+3"), None);
    assert_eq!(parse_signed(b"--3"), None);
}

#[test]
fn numbers_beyond_the_machine_are_no_numbers() {
    let mut digits = format!("{}", usize::MAX).into_bytes();
    assert_eq!(parse_unsigned(&digits), Some(usize::MAX));
    let last = digits.len() - 1;
    digits[last] += 1;
    assert_eq!(parse_unsigned(&digits), None);
    digits.push(b'0');
    assert_eq!(parse_unsigned(&digits), None);
    assert_eq!(parse_signed(b"-99999999999999999999999999"), None);
}

#[test]
fn every_separator_cuts() {
    assert_eq!(split_bytes(b"", true), vec![b"".to_vec()]);
    assert_eq!(split_bytes(b"a b", false), vec![b"a".to_vec(), b"b".to_vec()]);
    assert_eq!(
        split_bytes(b"a  b\t", false),
        vec![b"a".to_vec(), b"".to_vec(), b"b".to_vec(), b"".to_vec()]
    );
    assert_eq!(
        split_bytes(b"1 2\n3\n", true),
        vec![b"1 2".to_vec(), b"3".to_vec(), b"".to_vec()]
    );
    assert_eq!(split_bytes(b"1 2\n3", false).len(), 3);
}

#[test]
fn text_of_a_cube_list() {
    let list: CubeList = vec![vec![T, T, F], vec![X, X, X], vec![X, F, X]];
    assert_eq!(written(3, &list), b"3\n3\n3 1 2 -3\n0\n1 -2\n".to_vec());
    assert_eq!(written(4, &vec![]), b"4\n0\n".to_vec());
}

#[test]
fn text_is_appended_to_what_is_there() {
    let mut out = b"# ".to_vec();
    assert_eq!(WriteCubeList(&mut out, 1, &vec![vec![F]]), Ok(()));
    assert_eq!(out, b"# 1\n1\n1 -1\n".to_vec());
    let mut line = b">".to_vec();
    write_cube_line(&mut line, &vec![X, T, X, F]);
    assert_eq!(line, b">2 2 -4".to_vec());
}

#[test]
fn ill_formed_list_is_not_written() {
    let mut out = b"kept".to_vec();
    assert_eq!(
        WriteCubeList(&mut out, 3, &vec![vec![T, T, F], vec![T]]),
        Err(CubeError::InvariantViolation)
    );
    assert_eq!(out, b"kept".to_vec());
}

#[test]
fn reading_a_problem() {
    assert_eq!(
        parse_cube_list(b"3\n2\n3 1 2 -3\n1 -2\n"),
        Ok((3, vec![vec![T, T, F], vec![X, F, X]]))
    );
    assert_eq!(parse_cube_list(b"5\n0\n"), Ok((5, vec![])));
    assert_eq!(parse_cube_list(b"2\n1\n0"), Ok((2, vec![vec![X, X]])));
}

#[test]
fn reading_ignores_what_is_not_asked_for() {
    assert_eq!(
        parse_cube_list(b"3 variables\n1 cube\n2 -1 3 2 junk\nnot a cube\n"),
        Ok((3, vec![vec![F, X, T]]))
    );
    assert_eq!(
        parse_cube_list(b"2\r\n1\r\n1 +2\r\n"),
        Ok((2, vec![vec![X, T]]))
    );
}

#[test]
fn later_literal_of_a_variable_stands() {
    assert_eq!(parse_cube_line(2, b"2 1 -1"), Ok(vec![F, X]));
    assert_eq!(parse_cube_line(2, b"3 -2 2 -1"), Ok(vec![F, T]));
}

#[test]
fn malformed_text_is_refused() {
    assert_eq!(parse_cube_list(b""), Err(CubeError::MalformedInput));
    assert_eq!(parse_cube_list(b"3"), Err(CubeError::MalformedInput));
    assert_eq!(parse_cube_list(b"x\n1\n0\n"), Err(CubeError::MalformedInput));
    assert_eq!(parse_cube_list(b"3\n\n0\n"), Err(CubeError::MalformedInput));
    assert_eq!(parse_cube_list(b"3\n-1\n"), Err(CubeError::MalformedInput));
    assert_eq!(
        parse_cube_list(b"3\n2\n1 1\n"),
        Err(CubeError::MalformedInput)
    );
    assert_eq!(
        parse_cube_list(b"3\n1\n2 1\n"),
        Err(CubeError::MalformedInput)
    );
    assert_eq!(
        parse_cube_list(b"3\n1\n2 1 two\n"),
        Err(CubeError::MalformedInput)
    );
    assert_eq!(
        parse_cube_list(b"3\n1\n2  1 2\n"),
        Err(CubeError::MalformedInput)
    );
    assert_eq!(
        parse_cube_list(b"3\n1\n 1 2\n"),
        Err(CubeError::MalformedInput)
    );
}

#[test]
fn literals_of_unknown_variables_are_refused() {
    assert_eq!(
        parse_cube_list(b"3\n1\n1 4\n"),
        Err(CubeError::IndexOutOfRange)
    );
    assert_eq!(
        parse_cube_list(b"3\n1\n1 -4\n"),
        Err(CubeError::IndexOutOfRange)
    );
    assert_eq!(
        parse_cube_list(b"3\n1\n1 0\n"),
        Err(CubeError::IndexOutOfRange)
    );
    assert_eq!(parse_cube_line(0, b"1 1"), Err(CubeError::IndexOutOfRange));
}

#[test]
fn first_offending_line_decides() {
    assert_eq!(
        parse_cube_list(b"3\n2\n1 7\n1 x\n"),
        Err(CubeError::IndexOutOfRange)
    );
    assert_eq!(
        parse_cube_list(b"3\n2\n1 x\n1 7\n"),
        Err(CubeError::MalformedInput)
    );
    // Within one line, a token that is no integer is found before a
    // literal is looked up.
    assert_eq!(
        parse_cube_list(b"3\n1\n2 7 x\n"),
        Err(CubeError::MalformedInput)
    );
}

#[test]
fn written_text_is_read_back() {
    let lists: Vec<CubeList> = vec![
        vec![],
        vec![vec![X, X, X, X]],
        vec![vec![T, F, X, T], vec![F, F, F, F], vec![X, X, T, X]],
        vec![vec![T, X, X, X], vec![T, X, X, X], vec![T, X, X, X]],
    ];
    for list in lists.iter() {
        let text = written(4, list);
        assert_eq!(parse_cube_list(&text), Ok((4, list.clone())));
    }
    let wide: CubeList = vec![(0..25)
        .map(|i| match i % 3 {
            0 => T,
            1 => F,
            _ => X,
        })
        .collect()];
    assert_eq!(parse_cube_list(&written(25, &wide)), Ok((25, wide)));
}

#[test]
fn problem_text_end_to_end() {
    let (num_vars, list) = parse_cube_list(b"3\n1\n3 1 2 -3\n").unwrap();
    assert_eq!(num_vars, 3);
    assert_eq!(list, vec![vec![T, T, F]]);
    let result = Complement(num_vars, &list);
    assert_eq!(
        sorted(result.clone()),
        sorted(vec![vec![F, X, X], vec![X, F, X], vec![X, X, T]])
    );
    assert_eq!(written(num_vars, &result), b"3\n3\n1 -1\n1 -2\n1 3\n".to_vec());
}
