use split_puzzle::grid::Puzzle;
use split_puzzle::layout::{parse_layout, pip_of_char, MalformedLayoutError};

#[test]
fn parse_layout_reads_rows() {
    let layout = parse_layout("1.41|4...|...4|14.1", '.').unwrap();
    assert_eq!(layout.width, 4);
    assert_eq!(layout.height, 4);
    assert_eq!(layout.pips, vec![1, 0, 4, 1, 4, 0, 0, 0, 0, 0, 0, 4, 1, 4, 0, 1]);
    let layout = parse_layout("0123456789", '.').unwrap();
    assert_eq!(layout.width, 10);
    assert_eq!(layout.height, 1);
    assert_eq!(layout.pips, vec![0, 1, 2, 3, 4, 5, 6, 7, 8, 9]);
}

#[test]
fn parse_layout_with_another_blank() {
    let layout = parse_layout(" 2 |1 1|212", ' ').unwrap();
    assert_eq!(layout.width, 3);
    assert_eq!(layout.height, 3);
    assert_eq!(layout.pips, vec![0, 2, 0, 1, 0, 1, 2, 1, 2]);
    assert_eq!(parse_layout(" 2 |1 1|212", '.').err(), Some(MalformedLayoutError::InvalidChar));
}

#[test]
fn parse_layout_faults() {
    assert_eq!(parse_layout("12|1a", '.').err(), Some(MalformedLayoutError::InvalidChar));
    assert_eq!(parse_layout("1|22|a", '.').err(), Some(MalformedLayoutError::InvalidChar));
    assert_eq!(parse_layout("12|1", '.').err(), Some(MalformedLayoutError::UnequalRows));
    assert_eq!(parse_layout("12|123", '.').err(), Some(MalformedLayoutError::UnequalRows));
    assert_eq!(parse_layout("12|", '.').err(), Some(MalformedLayoutError::UnequalRows));
    assert_eq!(parse_layout("|12", '.').err(), Some(MalformedLayoutError::UnequalRows));
    assert_eq!(parse_layout("12||12", '.').err(), Some(MalformedLayoutError::UnequalRows));
    assert_eq!(parse_layout("é", '.').err(), Some(MalformedLayoutError::InvalidChar));
}

#[test]
fn parse_layout_without_cells() {
    let layout = parse_layout("", '.').unwrap();
    assert_eq!((layout.width, layout.height, layout.pips.len()), (0, 1, 0));
    let layout = parse_layout("||", '.').unwrap();
    assert_eq!((layout.width, layout.height, layout.pips.len()), (0, 3, 0));
}

#[test]
fn pip_of_char_values() {
    assert_eq!(pip_of_char('.', '.'), Some(0));
    assert_eq!(pip_of_char('0', '.'), Some(0));
    assert_eq!(pip_of_char('7', '.'), Some(7));
    assert_eq!(pip_of_char('9', ' '), Some(9));
    assert_eq!(pip_of_char(' ', ' '), Some(0));
    assert_eq!(pip_of_char(' ', '.'), None);
    assert_eq!(pip_of_char('|', '.'), None);
    assert_eq!(pip_of_char('a', '.'), None);
}

#[test]
fn grid_layout_errors() {
    assert_eq!(Puzzle::new("").err(), Some(MalformedLayoutError::EmptyRow));
    assert_eq!(Puzzle::new("|").err(), Some(MalformedLayoutError::EmptyRow));
    assert_eq!(Puzzle::new("1 ").err(), Some(MalformedLayoutError::InvalidChar));
    assert_eq!(Puzzle::new("11|1").err(), Some(MalformedLayoutError::UnequalRows));
    assert_eq!(Puzzle::new("1|x").err(), Some(MalformedLayoutError::InvalidChar));
    let row = "12345678";
    let eight_rows = [row; 8].join("|");
    let puzzle = Puzzle::new(&eight_rows).unwrap();
    assert_eq!(puzzle.num_cells(), 64);
    let nine_rows = [row; 9].join("|");
    assert_eq!(Puzzle::new(&nine_rows).err(), Some(MalformedLayoutError::TooLarge));
    assert_eq!(Puzzle::new(&"1".repeat(65)).err(), Some(MalformedLayoutError::TooLarge));
    assert!(Puzzle::new(&"1".repeat(64)).is_ok());
}
