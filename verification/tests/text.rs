use sudoku::board::Sudoku;
use sudoku::text::{parse, render};

fn classic_text() -> &'static str {
    "3 7 .  8 6 .  . 1 2\n\
     6 . .  9 . .  8 . 7\n\
     . . .  . . .  . . 3\n\
     \n\
     . 8 3  7 2 .  4 5 .\n\
     5 4 .  . . 6  1 . .\n\
     2 6 .  . . .  . . .\n\
     \n\
     . . .  2 . 9  . 8 .\n\
     1 . .  . 8 .  . . 5\n\
     8 2 6  5 4 .  3 9 .\n"
}

fn classic_values() -> Vec<u8> {
    vec![
        3, 7, 0, 8, 6, 0, 0, 1, 2, 6, 0, 0, 9, 0, 0, 8, 0, 7, 0, 0, 0, 0, 0, 0, 0, 0, 3, 0, 8,
        3, 7, 2, 0, 4, 5, 0, 5, 4, 0, 0, 0, 6, 1, 0, 0, 2, 6, 0, 0, 0, 0, 0, 0, 0, 0, 0, 0, 2,
        0, 9, 0, 8, 0, 1, 0, 0, 0, 8, 0, 0, 0, 5, 8, 2, 6, 5, 4, 0, 3, 9, 0,
    ]
}

#[test]
fn parse_reads_the_classic_puzzle() {
    assert_eq!(parse(classic_text().as_bytes()), Some(classic_values()));
}

#[test]
fn parse_skips_all_white_space() {
    let mut expected = vec![0; 81];
    expected[0] = 5;
    expected[1] = 3;
    assert_eq!(parse(b"5\t3"), Some(expected.clone()));
    assert_eq!(parse(b"5 3"), Some(expected.clone()));
    assert_eq!(parse(b"5\n3"), Some(expected.clone()));
    assert_eq!(parse(b"5\r\n3"), Some(expected.clone()));
    assert_eq!(parse(b"5\x0c3"), Some(expected.clone()));
    assert_eq!(parse(b" \t\r\n5 \t \r\n\x0c 3\r\n"), Some(expected));
    assert_eq!(parse(b" \t\r\n\x0c"), Some(vec![0; 81]));
}

#[test]
fn parse_reads_lines_that_end_in_carriage_return_and_line_feed() {
    let text = classic_text().replace("\n", "\r\n");
    assert_eq!(parse(text.as_bytes()), Some(classic_values()));
}

#[test]
fn parse_refuses_bytes_that_are_not_white_space() {
    assert_eq!(parse(b"5\x0b3"), None);
    assert_eq!(parse(b"5\x003"), None);
    assert_eq!(parse(b"5\x1f3"), None);
    assert_eq!(parse("5\u{a0}3".as_bytes()), None);
}

#[test]
fn parse_pads_with_blanks() {
    assert_eq!(parse(b""), Some(vec![0; 81]));
    let mut expected = vec![0; 81];
    expected[1] = 9;
    assert_eq!(parse(b".9"), Some(expected));
}

#[test]
fn parse_reads_zero_as_blank() {
    let mut expected = vec![0; 81];
    expected[2] = 4;
    assert_eq!(parse(b"0.4"), Some(expected));
}

#[test]
fn parse_refuses_other_bytes() {
    assert_eq!(parse(b"12x"), None);
    assert_eq!(parse(b"1,2"), None);
    assert_eq!(parse("1é".as_bytes()), None);
    assert_eq!(parse(b"/"), None);
    assert_eq!(parse(b":"), None);
}

#[test]
fn parse_passes_over_dots_after_the_last_cell() {
    let mut text = vec![b'5'; 81];
    text.push(b'.');
    text.push(b'.');
    assert_eq!(parse(&text), Some(vec![5; 81]));
}

#[test]
fn parse_refuses_a_digit_after_the_last_cell() {
    let mut text = vec![b'.'; 81];
    text.push(b'1');
    assert_eq!(parse(&text), None);
    let mut longer = vec![b'.'; 85];
    longer.push(b'0');
    assert_eq!(parse(&longer), None);
}

#[test]
fn render_writes_the_classic_puzzle() {
    assert_eq!(render(&classic_values()), classic_text().as_bytes().to_vec());
}

#[test]
fn render_writes_values_in_decimal() {
    assert_eq!(render(&[0, 7, 10, 45, 100, 255]), b". 7 10  45 100 255 ".to_vec());
    assert_eq!(render(&[]), Vec::<u8>::new());
}

#[test]
fn render_of_a_solved_board_reads_back() {
    let values = parse(classic_text().as_bytes()).unwrap();
    let mut sudoku = Sudoku::from_values(values).unwrap();
    assert!(sudoku.solve());
    let text = render(sudoku.values());
    assert_eq!(parse(&text).as_ref(), Some(sudoku.values()));
    assert_eq!(text[0..20], *b"3 7 9  8 6 4  5 1 2\n");
}
