use xiangqi::fen::{parse_board, parse_letter, Letters};
use xiangqi::grid::{crossed_river, in_board, in_palace};
use xiangqi::text::{
    chars_of, decimal_string, padded_string, parse_u32, parse_u64_up_to, split_at_char,
    split_whitespace, string_of,
};
use xiangqi::types::{ByColor, Color, PieceKind};

fn chars(s: &str) -> Vec<char> {
    s.chars().collect()
}

#[test]
fn numbers_are_written_and_read() {
    assert_eq!(decimal_string(0), "0");
    assert_eq!(decimal_string(1205), "1205");
    assert_eq!(padded_string(7, 6), "000007");
    assert_eq!(padded_string(1234567, 6), "1234567");
    assert_eq!(parse_u32(&chars("1205")), Some(1205));
    assert_eq!(parse_u32(&chars("+5")), Some(5));
    assert_eq!(parse_u32(&chars("-5")), None);
    assert_eq!(parse_u32(&chars("4294967296")), None);
    assert_eq!(parse_u32(&chars("")), None);
    assert_eq!(parse_u64_up_to(&chars("100"), 99), None);
    assert_eq!(parse_u64_up_to(&chars("99"), 99), Some(99));
}

#[test]
fn texts_are_split() {
    let words: Vec<String> =
        split_whitespace(&chars("  a bc \t d ")).iter().map(|w| string_of(w)).collect();
    assert_eq!(words, vec!["a", "bc", "d"]);
    let parts: Vec<String> =
        split_at_char(&chars("a//b"), '/').iter().map(|w| string_of(w)).collect();
    assert_eq!(parts, vec!["a", "", "b"]);
    assert_eq!(string_of(&chars_of("xiangqi")), "xiangqi");
}

#[test]
fn letters_name_men() {
    let horse = parse_letter(Letters::Narrow, 'H').unwrap();
    assert_eq!((horse.color, horse.kind), (Color::Red, PieceKind::Horse));
    assert!(parse_letter(Letters::Narrow, 'x').is_none());
    let rook = parse_letter(Letters::Wide, 'r').unwrap();
    assert_eq!((rook.color, rook.kind), (Color::Black, PieceKind::Rook));
    let rows: Vec<Vec<char>> = vec![chars("4k4"); 10];
    assert!(parse_board(Letters::Narrow, &rows).is_ok());
    let broken: Vec<Vec<char>> = vec![chars("4k3"); 10];
    assert!(parse_board(Letters::Narrow, &broken).is_err());
}

#[test]
fn regions_of_the_board() {
    assert!(in_board(8, 9) && !in_board(9, 0) && !in_board(0, -1));
    assert!(in_palace(Color::Red, 4, 8) && !in_palace(Color::Black, 4, 8));
    assert!(crossed_river(Color::Red, 4) && !crossed_river(Color::Red, 5));
    assert!(crossed_river(Color::Black, 5) && !crossed_river(Color::Black, 4));
}

#[test]
fn values_by_color() {
    let mut v = ByColor::new(1, 2);
    assert_eq!((*v.get(Color::Red), *v.get(Color::Black)), (1, 2));
    *v.get_mut(Color::Black) = 5;
    assert_eq!(*v.get(Color::Black), 5);
    assert_eq!(*v.get(Color::Red), 1);
    assert_eq!(Color::Red.opposite(), Color::Black);
}
