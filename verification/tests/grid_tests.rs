use game_of_life::grid::cell::Cell;
use game_of_life::grid::coordinate::Coordinate;
use game_of_life::grid::size::Size;
use game_of_life::grid::Grid;

#[test]
fn grid_new() {
    let grid = Grid::new(Size::new(3, 3));
    assert_eq!(grid.generation, 0);
    for row in 0..3 {
        for column in 0..3 {
            assert_eq!(grid.get(Coordinate::new(row, column)), Some(Cell::Dead));
        }
    }
    assert_eq!(grid.render(), "...\n...\n...\n");
}

#[test]
fn grid_parse() {
    let grid = Grid::parse(String::from("...\n.O.\n.OO"));
    let mut expected = Grid::new(Size::new(3, 3));
    expected.set_alive(Coordinate::new(1, 1));
    expected.set_alive(Coordinate::new(2, 1));
    expected.set_alive(Coordinate::new(2, 2));
    assert_eq!(grid, Some(expected));
}

#[test]
fn is_empty() {
    let mut grid = Grid::new(Size::new(3, 3));

    assert!(grid.is_empty());

    grid.set_alive(Coordinate::new(0, 1));

    assert!(!grid.is_empty());
}

#[test]
fn evolve() {
    let mut grid = Grid::parse(String::from("
                                            .OO
                                            O..
                                            .O.")).expect("Parses correctly");
    assert_eq!(grid.generation, 0);

    let mut expected_grid = Grid::new(Size::new(3, 3));
    expected_grid.set_alive(Coordinate::new(0, 1));
    expected_grid.set_alive(Coordinate::new(0, 2));
    expected_grid.set_alive(Coordinate::new(1, 0));
    expected_grid.set_alive(Coordinate::new(2, 0));
    expected_grid.set_alive(Coordinate::new(2, 1));
    expected_grid.generation = 1;

    grid.evolve();

    assert_eq!(grid, expected_grid);

    let mut expected_grid = Grid::new(Size::new(3, 3));
    expected_grid.set_alive(Coordinate::new(0, 1));
    expected_grid.set_alive(Coordinate::new(0, 2));
    expected_grid.set_alive(Coordinate::new(1, 0));
    expected_grid.set_alive(Coordinate::new(2, 0));
    expected_grid.generation = 2;

    grid.evolve();

    assert_eq!(grid, expected_grid);
}

#[test]
fn get() {
    let mut grid = Grid::new(Size::new(3, 3));

    let coordinate = Coordinate::new(0, 0);

    assert_eq!(grid.get(coordinate), Some(Cell::Dead));

    grid.set_alive(coordinate);

    assert_eq!(grid.get(coordinate), Some(Cell::Alive));

    assert_eq!(grid.get(Coordinate::new(10, 10)), None);
}

#[test]
fn set_alive() {
    let mut grid = Grid::new(Size::new(3, 3));

    let coordinate = Coordinate::new(0, 0);

    assert_eq!(grid.get(coordinate), Some(Cell::Dead));

    grid.set_alive(coordinate);

    assert_eq!(grid.get(coordinate), Some(Cell::Alive));
}

#[test]
fn set_dead() {
    let mut grid = Grid::new(Size::new(3, 3));

    let coordinate = Coordinate::new(0, 0);

    grid.set_alive(coordinate);

    assert_eq!(grid.get(coordinate), Some(Cell::Alive));

    grid.set_dead(coordinate);

    assert_eq!(grid.get(coordinate), Some(Cell::Dead));
}

#[test]
fn new_grid_has_all_cells_dead() {
    let grid = Grid::new(Size::new(5, 4));
    assert_eq!(grid.generation, 0);
    assert!(grid.is_empty());
    for row in 0..4 {
        for column in 0..5 {
            assert_eq!(grid.get(Coordinate::new(row, column)), Some(Cell::Dead));
        }
    }
    assert_eq!(grid.render(), ".....\n.....\n.....\n.....\n");
}

#[test]
fn parse_then_render_preserves_layout() {
    let pattern = ".O\nO.";
    let grid = Grid::parse(String::from(pattern)).unwrap();
    let rendered = grid.render();
    assert_eq!(rendered, ".O\nO.\n");
    let reparsed = Grid::parse(rendered).unwrap();
    assert_eq!(reparsed, grid);
}

#[test]
fn is_empty_flips_back_after_set_dead() {
    let mut grid = Grid::new(Size::new(2, 2));
    assert!(grid.is_empty());
    grid.set_alive(Coordinate::new(1, 0));
    assert!(!grid.is_empty());
    grid.set_dead(Coordinate::new(1, 0));
    assert!(grid.is_empty());
}

#[test]
fn set_out_of_range_is_no_op() {
    let mut grid = Grid::new(Size::new(3, 3));
    grid.set_alive(Coordinate::new(1, 1));
    let before = grid.clone();
    grid.set_alive(Coordinate::new(5, 5));
    grid.set_alive(Coordinate::new(-1, 0));
    grid.set_alive(Coordinate::new(0, 3));
    grid.set_dead(Coordinate::new(3, 0));
    grid.set_dead(Coordinate::new(-2, -2));
    assert_eq!(grid, before);
    assert_eq!(grid.generation, 0);
}

#[test]
fn evolve_increments_generation_and_keeps_size() {
    let mut grid = Grid::new(Size::new(4, 3));
    grid.evolve();
    assert_eq!(grid.generation, 1);
    grid.evolve();
    assert_eq!(grid.generation, 2);
    assert_eq!(grid.render(), "....\n....\n....\n");
}

#[test]
fn evolve_generation_saturates() {
    let mut grid = Grid::new(Size::new(1, 1));
    grid.generation = u16::MAX;
    grid.evolve();
    assert_eq!(grid.generation, u16::MAX);
}

#[test]
fn get_wraps_asymmetrically() {
    let grid = Grid::parse(String::from("OO\nOO\nOO")).unwrap();
    assert_eq!(grid.get(Coordinate::new(0, 0)), Some(Cell::Alive));
    assert_eq!(grid.get(Coordinate::new(2, 0)), Some(Cell::Alive));
    // One step past the bound wraps back to the opposite edge.
    assert_eq!(grid.get(Coordinate::new(3, 0)), Some(Cell::Alive));
    assert_eq!(grid.get(Coordinate::new(0, 2)), Some(Cell::Alive));
    // A negative index reflects to `bound - index`, which overshoots the
    // rectangle, so the lookup finds nothing.
    assert_eq!(grid.get(Coordinate::new(-1, 0)), None);
    assert_eq!(grid.get(Coordinate::new(0, -1)), None);
    // More than one step past the bound also misses: the wrap is single
    // step, not a modulo.
    assert_eq!(grid.get(Coordinate::new(10, 10)), None);
    assert_eq!(grid.render(), "OO\nOO\nOO\n");
}

#[test]
fn tall_grid_round_trips() {
    let grid = Grid::parse(String::from("O\n.\nO")).unwrap();
    let rendered = grid.render();
    assert_eq!(rendered, "O\n.\nO\n");
    let reparsed = Grid::parse(rendered).unwrap();
    assert_eq!(reparsed, grid);
}

#[test]
fn parse_empty_input_gives_empty_grid() {
    let grid = Grid::parse(String::from("")).unwrap();
    assert_eq!(grid.generation, 0);
    assert!(grid.is_empty());
    assert_eq!(grid.render(), "");
}

#[test]
fn parse_rejects_oversized_pattern() {
    let wide = "O".repeat(128);
    assert_eq!(Grid::parse(wide), None);
    let mut tall = String::new();
    for _ in 0..128 {
        tall.push_str("O\n");
    }
    assert_eq!(Grid::parse(tall), None);
    let edge = "O".repeat(127);
    assert!(Grid::parse(edge).is_some());
}

#[test]
fn parse_pads_short_lines_with_dead_cells() {
    let grid = Grid::parse(String::from("OOO\nO")).unwrap();
    assert_eq!(grid.get(Coordinate::new(1, 0)), Some(Cell::Alive));
    assert_eq!(grid.get(Coordinate::new(1, 1)), Some(Cell::Dead));
    assert_eq!(grid.get(Coordinate::new(1, 2)), Some(Cell::Dead));
    assert_eq!(grid.render(), "OOO\nO..\n");
}

#[test]
fn evolve_blinker_oscillates() {
    // A horizontal triple becomes a vertical triple on a wide grid.
    let mut grid = Grid::parse(String::from(".....\n.....\n.OOO.\n.....\n.....")).unwrap();
    grid.evolve();
    assert_eq!(grid.render(), ".....\n..O..\n..O..\n..O..\n.....\n");
    assert_eq!(grid.generation, 1);
}
