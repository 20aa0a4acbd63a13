use game_of_life::grid::cell::Cell;
use game_of_life::grid::coordinate::Coordinate;
use game_of_life::grid::size::Size;
use game_of_life::grid::utils::parse_i8_tuple;

#[test]
fn cell_parse() {
    assert_eq!(Cell::parse("."), Some(Cell::Dead));
    assert_eq!(Cell::parse("O"), Some(Cell::Alive));
    assert_eq!(Cell::parse("X"), Some(Cell::Alive));
    assert_eq!(Cell::parse(""), None);
    assert_eq!(Cell::parse(".O"), None);
}

#[test]
fn coordinate_new() {
    let coordinate = Coordinate::new(5, 6);
    assert_eq!(coordinate, Coordinate { row_index: 5, column_index: 6 })
}

#[test]
fn parse_valid() {
    assert_eq!(
        Coordinate::parse("4,5".to_string()),
        Some(Coordinate { row_index: 4, column_index: 5 })
    );
    assert_eq!(Coordinate::parse("4,".to_string()), None);
    assert_eq!(Coordinate::parse("4".to_string()), None);
    assert_eq!(Coordinate::parse("".to_string()), None)
}

#[test]
fn size_new() {
    let size = Size::new(5, 6);
    assert_eq!(size, Size { width: 5, height: 6 })
}

#[test]
fn size_parse() {
    assert_eq!(Size::parse("4x5".to_string()), Some(Size { width: 4, height: 5 }));
    assert_eq!(Size::parse("4,".to_string()), None);
    assert_eq!(Size::parse("4".to_string()), None);
    assert_eq!(Size::parse("".to_string()), None)
}

#[test]
fn test_parse_i8_tuple() {
    assert_eq!(parse_i8_tuple(String::from("1,2"), ','), Some((1, 2)));
    assert_eq!(parse_i8_tuple(String::from("1x2"), 'x'), Some((1, 2)));
    assert_eq!(parse_i8_tuple(String::from("1x"), 'x'), None);
    assert_eq!(parse_i8_tuple(String::from(""), 'x'), None);
    assert_eq!(parse_i8_tuple(String::from("c,b"), 'x'), None);
}

#[test]
fn coordinate_parse_ignores_third_token() {
    // Only the first two comma-separated tokens are inspected.
    assert_eq!(
        Coordinate::parse("4,5,6".to_string()),
        Some(Coordinate { row_index: 4, column_index: 5 })
    );
}

#[test]
fn coordinate_parse_trims_whitespace() {
    assert_eq!(
        Coordinate::parse("  4,5\n".to_string()),
        Some(Coordinate { row_index: 4, column_index: 5 })
    );
    // Whitespace inside the pair is not trimmed and fails the numeral.
    assert_eq!(Coordinate::parse("4, 5".to_string()), None);
}

#[test]
fn tuple_parse_accepts_signs_and_range() {
    assert_eq!(parse_i8_tuple(String::from("-128,127"), ','), Some((-128, 127)));
    assert_eq!(parse_i8_tuple(String::from("+4,+5"), ','), Some((4, 5)));
    assert_eq!(parse_i8_tuple(String::from("007,0"), ','), Some((7, 0)));
    assert_eq!(parse_i8_tuple(String::from("-0,1"), ','), Some((0, 1)));
    assert_eq!(parse_i8_tuple(String::from("128,0"), ','), None);
    assert_eq!(parse_i8_tuple(String::from("-129,0"), ','), None);
    assert_eq!(parse_i8_tuple(String::from("999999999999,0"), ','), None);
    assert_eq!(parse_i8_tuple(String::from("-,1"), ','), None);
    assert_eq!(parse_i8_tuple(String::from("+,1"), ','), None);
}

#[test]
fn cell_glyphs_render() {
    assert_eq!(Cell::Dead.glyph(), ".");
    assert_eq!(Cell::Alive.glyph(), "O");
}

#[test]
fn coordinate_render() {
    assert_eq!(Coordinate::new(5, 6).render(), "(5,6)");
    assert_eq!(Coordinate::new(0, 10).render(), "(0,10)");
    assert_eq!(Coordinate::new(-1, -128).render(), "(-1,-128)");
    assert_eq!(Coordinate::new(127, 100).render(), "(127,100)");
}

#[test]
fn size_render() {
    assert_eq!(Size::new(4, 5).render(), "<4x5>");
    assert_eq!(Size::new(0, -7).render(), "<0x-7>");
    assert_eq!(Size::new(127, -128).render(), "<127x-128>");
}

#[test]
fn parse_trims_unicode_whitespace() {
    // The no-break space and the em space carry the White_Space property,
    // so they are trimmed from the ends just as ASCII spacing is.
    assert_eq!(
        Coordinate::parse("\u{a0}4,5\u{2003}".to_string()),
        Some(Coordinate { row_index: 4, column_index: 5 })
    );
    assert_eq!(Size::parse("\u{a0}".to_string()), None);
}
