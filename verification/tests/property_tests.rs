use conways::engine::ConwaysGame;
use conways::point::Point;

#[test]
fn neighbours_are_eight_distinct_cells_excluding_the_cell_itself() {
    let p = Point::new(5, 5);
    let nbrs = p.neighbours();

    assert_eq!(nbrs.len(), 8);
    assert!(!nbrs.contains(&p));
    for i in 0..nbrs.len() {
        for j in 0..nbrs.len() {
            if i != j {
                assert_ne!(nbrs[i], nbrs[j]);
            }
        }
    }
    for x in 4..=6 {
        for y in 4..=6 {
            let q = Point::new(x, y);
            if q != p {
                assert!(nbrs.contains(&q));
            }
        }
    }
}

#[test]
fn bounded_construction_succeeds_with_all_cells_inside() {
    let cells = vec![Point::new(0, 0), Point::new(9, 9), Point::new(5, 3)];
    let game = ConwaysGame::new_bounded(cells, 10, 10);

    assert!(game.is_ok());
}

#[test]
fn bounded_construction_error_names_the_offending_cell_and_extent() {
    let cells = vec![Point::new(1, 1), Point::new(20, 0)];
    let err = ConwaysGame::new_bounded(cells, 10, 10).unwrap_err();

    assert_eq!(err.cell, Point::new(20, 0));
    assert_eq!(err.height, 10);
    assert_eq!(err.width, 10);
}

#[test]
fn bounded_construction_rejects_negative_coordinates() {
    let cells = vec![Point::new(-1, 3)];
    let game = ConwaysGame::new_bounded(cells, 10, 10);

    assert!(game.is_err());
}

#[test]
fn injecting_cells_keeps_the_in_range_ones_and_drops_the_rest() {
    let mut game = ConwaysGame::new_bounded(Vec::new(), 10, 10).unwrap();

    game.add_cells(vec![Point::new(1, 0), Point::new(50, 0)]);

    assert!(game.is_alive(Point::new(1, 0)));
    assert!(!game.is_alive(Point::new(50, 0)));
}

#[test]
fn injecting_cells_in_unbounded_mode_accepts_everything() {
    let mut game = ConwaysGame::new(Vec::new());

    game.add_cells(vec![Point::new(-1000, 7), Point::new(1_000_000, -3)]);

    assert!(game.is_alive(Point::new(-1000, 7)));
    assert!(game.is_alive(Point::new(1_000_000, -3)));
}

#[test]
fn enumerating_twice_without_mutation_visits_the_same_cells() {
    let game = ConwaysGame::new_bounded(vec![Point::new(1, 1)], 4, 3).unwrap();
    let first = game.all_cells_do();
    let second = game.all_cells_do();

    assert_eq!(first, second);

    let unbounded = ConwaysGame::new(vec![Point::new(2, -2), Point::new(0, 5)]);
    let first = unbounded.all_cells_do();
    let second = unbounded.all_cells_do();

    assert_eq!(first, second);
}

#[test]
fn bounded_enumeration_is_the_full_raster_scan() {
    let game = ConwaysGame::new_bounded(Vec::new(), 2, 3).unwrap();
    let cells = game.all_cells_do();

    let expected = vec![
        Point::new(0, 0),
        Point::new(0, 1),
        Point::new(1, 0),
        Point::new(1, 1),
        Point::new(2, 0),
        Point::new(2, 1),
    ];
    assert_eq!(cells, expected);
}

#[test]
fn unbounded_enumeration_visits_exactly_the_alive_cells() {
    let game = ConwaysGame::new(vec![Point::new(3, 4), Point::new(-1, 0)]);
    let cells = game.all_cells_do();

    assert_eq!(cells.len(), 2);
    assert!(cells.contains(&Point::new(3, 4)));
    assert!(cells.contains(&Point::new(-1, 0)));
}

#[test]
fn duplicate_seed_cells_are_merged() {
    let game = ConwaysGame::new(vec![Point::new(0, 0), Point::new(0, 0)]);

    assert!(game.is_alive(Point::new(0, 0)));
    assert_eq!(game.all_cells_do().len(), 1);
}

#[test]
fn a_three_cell_corner_grows_into_a_block_after_one_generation() {
    let cells = vec![Point::new(0, 1), Point::new(1, 1), Point::new(1, 0)];
    let mut game = ConwaysGame::new(cells);

    game.next_generation();

    assert!(game.is_alive(Point::new(0, 0)));
    assert!(game.is_alive(Point::new(0, 1)));
    assert!(game.is_alive(Point::new(1, 0)));
    assert!(game.is_alive(Point::new(1, 1)));
    assert!(!game.is_alive(Point::new(2, 2)));
    assert!(!game.is_alive(Point::new(-1, -1)));
}

#[test]
fn overcrowded_cell_in_a_bounded_grid_dies() {
    let cells = vec![
        Point::new(0, 0),
        Point::new(0, 1),
        Point::new(1, 0),
        Point::new(1, 1),
        Point::new(1, 2),
    ];
    let mut game = ConwaysGame::new_bounded(cells, 10, 10).unwrap();

    game.next_generation();

    assert!(!game.is_alive(Point::new(1, 1)));
}

#[test]
fn an_empty_extent_rejects_every_cell() {
    let game = ConwaysGame::new_bounded(vec![Point::new(0, 0)], 0, 0);

    assert!(game.is_err());
}

#[test]
fn an_empty_bounded_game_stays_empty() {
    let mut game = ConwaysGame::new_bounded(Vec::new(), 5, 5).unwrap();

    game.next_generation();

    for x in 0..5 {
        for y in 0..5 {
            assert!(!game.is_alive(Point::new(x, y)));
        }
    }
}

#[test]
fn random_points_fall_inside_the_requested_range() {
    for _ in 0..50 {
        let p = Point::generate_random_point(-3..7);
        assert!(-3 <= p.x_position && p.x_position < 7);
        assert!(-3 <= p.y_position && p.y_position < 7);
    }
}

#[test]
fn random_points_actually_vary() {
    let mut seen = Vec::new();
    for _ in 0..100 {
        seen.push(Point::generate_random_point(0..1_000_000));
    }
    let first = seen[0];
    assert!(seen.iter().any(|p| *p != first));
}
