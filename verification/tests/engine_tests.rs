use conways::engine::ConwaysGame;
use conways::point::Point;

#[test]
fn a_cell_without_neighbours_die_after_one_generation() {
    let cells = vec![Point::new(0, 0)];
    let mut conways_game = ConwaysGame::new_bounded(cells, 10, 10).unwrap();

    conways_game.next_generation();

    assert!(!conways_game.is_alive(Point::new(0, 0)));
}

#[test]
fn a_cell_with_two_neighbours_is_alive_after_one_generation() {
    let cells = vec![Point::new(0, 0), Point::new(0, 1), Point::new(1, 0)];
    let mut conways_game = ConwaysGame::new_bounded(cells, 10, 10).unwrap();

    conways_game.next_generation();

    assert!(conways_game.is_alive(Point::new(0, 0)));
}

#[test]
fn a_cell_with_three_neighbours_is_alive_after_one_generation() {
    let cells = vec![
        Point::new(0, 0),
        Point::new(0, 1),
        Point::new(1, 1),
        Point::new(1, 0),
    ];
    let mut conways_game = ConwaysGame::new_bounded(cells, 10, 10).unwrap();

    conways_game.next_generation();

    assert!(conways_game.is_alive(Point::new(0, 0)));
}

#[test]
fn a_cell_with_more_than_three_neighbours_dies_after_one_generation() {
    let cells = vec![
        Point::new(1, 1),
        Point::new(0, 0),
        Point::new(1, 0),
        Point::new(0, 1),
        Point::new(1, 2),
    ];
    let mut conways_game = ConwaysGame::new_bounded(cells, 10, 10).unwrap();

    conways_game.next_generation();

    assert!(!conways_game.is_alive(Point::new(1, 1)));
}

#[test]
fn a_dead_cell_with_exactly_three_neighbours_resurrects_after_one_generation() {
    let cells = vec![Point::new(0, 1), Point::new(1, 1), Point::new(1, 0)];
    let mut conways_game = ConwaysGame::new_bounded(cells, 10, 10).unwrap();

    conways_game.next_generation();

    assert!(conways_game.is_alive(Point::new(0, 0)));
}

#[test]
fn can_add_one_cell_after_a_generation_passed() {
    let cells = vec![Point::new(0, 0)];
    let mut conways_game = ConwaysGame::new_bounded(cells, 10, 10).unwrap();

    conways_game.next_generation();

    assert!(!conways_game.is_alive(Point::new(0, 0)));

    let cells = vec![Point::new(0, 0)];
    conways_game.add_cells(cells);

    assert!(conways_game.is_alive(Point::new(0, 0)));
}

#[test]
fn can_add_multiple_cells_after_a_generation_passed() {
    let cells = vec![Point::new(0, 0)];
    let mut conways_game = ConwaysGame::new_bounded(cells, 10, 10).unwrap();

    conways_game.next_generation();

    assert!(!conways_game.is_alive(Point::new(0, 0)));

    let cells = vec![Point::new(0, 0), Point::new(0, 1), Point::new(1, 0)];
    conways_game.add_cells(cells);
    conways_game.next_generation();

    assert!(conways_game.is_alive(Point::new(0, 0)));
}

#[test]
fn can_not_have_cells_outside_bounds() {
    let cells = vec![Point::new(20, 0)];
    let conways_game = ConwaysGame::new_bounded(cells, 10, 10);

    assert!(conways_game.is_err());
}

#[test]
fn an_not_add_cells_outside_bounds() {
    let cells = vec![Point::new(0, 0)];
    let mut conways_game = ConwaysGame::new_bounded(cells, 10, 10).unwrap();
    let cells = vec![Point::new(1, 0), Point::new(50, 0)];
    conways_game.add_cells(cells);
    assert!(conways_game.is_alive(Point::new(1, 0)));
    assert!(!conways_game.is_alive(Point::new(50, 0)));
}

#[test]
fn test_001_a_cell_without_neighbours_die_after_one_generation() {
    let cells = vec![Point::new(0, 0)];
    let mut conways_game = ConwaysGame::new(cells);

    conways_game.next_generation();

    assert!(!conways_game.is_alive(Point::new(0, 0)));
}

#[test]
fn test_002_a_cell_with_two_neighbours_is_alive_after_one_generation() {
    let cells = vec![Point::new(0, 0), Point::new(0, 1), Point::new(0, -1)];
    let mut conways_game = ConwaysGame::new(cells);

    conways_game.next_generation();

    assert!(conways_game.is_alive(Point::new(0, 0)));
}

#[test]
fn test_003_a_cell_with_three_neighbours_is_alive_after_one_generation() {
    let cells = vec![
        Point::new(0, 0),
        Point::new(0, 1),
        Point::new(-1, 0),
        Point::new(1, 0),
    ];
    let mut conways_game = ConwaysGame::new(cells);

    conways_game.next_generation();

    assert!(conways_game.is_alive(Point::new(0, 0)));
}

#[test]
fn test_004_a_cell_with_more_than_three_neighbours_dies_after_one_generation() {
    let cells = vec![
        Point::new(0, 0),
        Point::new(0, 1),
        Point::new(-1, 0),
        Point::new(1, 0),
        Point::new(1, 1),
    ];
    let mut conways_game = ConwaysGame::new(cells);

    conways_game.next_generation();

    assert!(!conways_game.is_alive(Point::new(0, 0)));
}

#[test]
fn test_005_a_dead_cell_with_exactly_three_neighbours_resurrects_after_one_generation() {
    let cells = vec![Point::new(0, 1), Point::new(-1, 0), Point::new(1, 0)];
    let mut conways_game = ConwaysGame::new(cells);

    conways_game.next_generation();

    assert!(conways_game.is_alive(Point::new(0, 0)));
}
