use libbattleship::{Board, BoardConfig, Direction, DirectionName, PlacementError, Position, Ship, ShipType};

fn right() -> Direction {
    Direction::new(DirectionName::Right)
}

fn up() -> Direction {
    Direction::new(DirectionName::Up)
}

fn manual_fleet() -> BoardConfig {
    // Four ships in distinct rows, all pointing right.
    BoardConfig::Manual(vec![
        (ShipType::C5, (Position::new(1, 1), right())),
        (ShipType::H4, (Position::new(1, 3), right())),
        (ShipType::L3, (Position::new(1, 5), right())),
        (ShipType::A2, (Position::new(1, 7), right())),
    ])
}

fn manual_fleet_cells() -> Vec<(i32, i32)> {
    let mut cells = Vec::new();
    for x in 1..=5 {
        cells.push((x, 1));
    }
    for x in 1..=4 {
        cells.push((x, 3));
    }
    for x in 1..=3 {
        cells.push((x, 5));
    }
    for x in 1..=2 {
        cells.push((x, 7));
    }
    cells
}

#[test]
fn board_cell_relations() {
    let b = Board::new();
    let p = Position::new(2, 2);
    let something = b.contains_cell(&p);
    assert_eq!(something, true);
}

#[test]
fn auto_setup_occupies_fleet_size() {
    let mut b = Board::new();
    b.setup(BoardConfig::Auto).unwrap();
    assert_eq!(b.get_occupied_cells().len(), 14);
    assert_eq!(b.get_unoccupied_cells().len(), 81 - 14);
}

#[test]
fn auto_setup_renders_fourteen_ship_cells() {
    let mut b = Board::new();
    b.setup(BoardConfig::Auto).unwrap();
    let contents = b.get_contents();
    let mut ships = 0;
    for column in contents.iter() {
        for ch in column.iter() {
            if *ch != '0' {
                assert_eq!(*ch, '1');
                ships += 1;
            }
        }
    }
    assert_eq!(ships, 14);
}

#[test]
fn hit_outside_grid_misses_and_changes_nothing() {
    let mut b = Board::new();
    b.setup(manual_fleet()).unwrap();
    let before = b.get_progress();
    assert!(!b.hit_cell(Position::new(0, 5)));
    assert!(!b.hit_cell(Position::new(10, 1)));
    assert!(!b.hit_cell(Position::new(3, -2)));
    assert_eq!(b.get_progress(), before);
    assert_eq!(b.get_occupied_cells().len(), 14);
}

#[test]
fn first_hit_succeeds_second_misses() {
    let mut b = Board::new();
    b.setup(manual_fleet()).unwrap();
    assert_eq!(b.hit_cell(Position::new(1, 1)), true);
    assert_eq!(b.hit_cell(Position::new(1, 1)), false);
}

#[test]
fn hitting_whole_fleet_completes_game() {
    let mut b = Board::new();
    b.setup(manual_fleet()).unwrap();
    assert!(!b.is_game_complete());
    for (x, y) in manual_fleet_cells() {
        assert!(b.hit_cell(Position::new(x, y)));
    }
    let (hits, occupied) = b.get_progress();
    assert_eq!((hits, occupied), (14, 14));
    let pct = 100.0f32 * hits as f32 / occupied as f32;
    assert!((pct - 100.0).abs() < 1e-3);
    assert!(b.is_game_complete());
}

#[test]
fn partial_progress_is_exact() {
    let mut b = Board::new();
    b.setup(manual_fleet()).unwrap();
    assert_eq!(b.get_progress(), (0, 0));
    b.hit_cell(Position::new(1, 1));
    assert_eq!(b.get_progress(), (1, 14));
    b.hit_cell(Position::new(9, 9));
    assert_eq!(b.get_progress(), (1, 14));
    assert!(!b.is_game_complete());
}

#[test]
fn manual_placement_claims_expected_run() {
    let mut b = Board::new();
    let ship = Ship::new(ShipType::C5);
    let cells = b.place_ship_manual(&ship, &Position::new(1, 1), &right()).unwrap();
    let expected: Vec<Position> = (1..=5).map(|x| Position::new(x, 1)).collect();
    assert_eq!(cells, expected);
    let mut occupied = b.get_occupied_cells();
    occupied.sort_by_key(|p| (p.y, p.x));
    assert_eq!(occupied, expected);
}

#[test]
fn manual_placement_out_of_bounds() {
    let mut b = Board::new();
    let ship = Ship::new(ShipType::C5);
    let r = b.place_ship_manual(&ship, &Position::new(8, 1), &right());
    assert_eq!(r, Err(PlacementError::OutOfBounds));
    assert_eq!(b.get_occupied_cells().len(), 0);
}

#[test]
fn manual_placement_collision_leaves_board_unchanged() {
    let mut b = Board::new();
    let c5 = Ship::new(ShipType::C5);
    b.place_ship_manual(&c5, &Position::new(1, 1), &right()).unwrap();
    let before = b.get_occupied_cells();
    let h4 = Ship::new(ShipType::H4);
    // Walking up from (2, 4) reaches (2, 1), which the first ship holds.
    let r = b.place_ship_manual(&h4, &Position::new(2, 4), &up());
    assert_eq!(r, Err(PlacementError::Collision));
    assert_eq!(b.get_occupied_cells(), before);
}

#[test]
fn auto_placement_on_full_board_is_exhausted() {
    let mut b = Board::new();
    for cell in b.cells.iter_mut() {
        cell.occupied = true;
    }
    let ship = Ship::new(ShipType::A2);
    let r = b.place_ship_auto(&ship);
    assert_eq!(r, Err(PlacementError::Exhausted));
}

#[test]
fn render_marks_hits() {
    let mut b = Board::new();
    b.setup(manual_fleet()).unwrap();
    b.hit_cell(Position::new(2, 1));
    b.hit_cell(Position::new(9, 9));
    let contents = b.get_contents();
    assert_eq!(contents[1][0], 'X');
    assert_eq!(contents[0][0], '1');
    assert_eq!(contents[8][8], '0');
}

#[test]
fn validate_accepts_auto_and_good_manual() {
    assert!(BoardConfig::Auto.validate());
    assert!(manual_fleet().validate());
}

#[test]
fn validate_rejects_bad_manual() {
    // Out of bounds.
    let off = BoardConfig::Manual(vec![(ShipType::C5, (Position::new(8, 1), right()))]);
    assert!(!off.validate());
    // Two ships crossing.
    let crossing = BoardConfig::Manual(vec![
        (ShipType::C5, (Position::new(1, 1), right())),
        (ShipType::A2, (Position::new(2, 2), up())),
    ]);
    assert!(!crossing.validate());
    // The same class listed twice.
    let doubled = BoardConfig::Manual(vec![
        (ShipType::A2, (Position::new(1, 1), right())),
        (ShipType::A2, (Position::new(1, 3), right())),
    ]);
    assert!(!doubled.validate());
}

#[test]
fn geometry_accessors() {
    let d = Direction::new(DirectionName::Up);
    assert_eq!(d.get_coord(), [0, -1]);
    assert_eq!(*d.get_name(), DirectionName::Up);
    assert_eq!(Direction::new(DirectionName::Down).get_coord(), [0, 1]);
    assert_eq!(Direction::new(DirectionName::Left).get_coord(), [-1, 0]);
    assert_eq!(Direction::new(DirectionName::Right).get_coord(), [1, 0]);
    assert_eq!(ShipType::C5.get_size(), 5);
    assert_eq!(ShipType::H4.get_size(), 4);
    assert_eq!(ShipType::L3.get_size(), 3);
    assert_eq!(ShipType::A2.get_size(), 2);
}

#[test]
fn next_position_and_cell() {
    let b = Board::new();
    let p = b.get_next_pos(Position::new(3, 3), right());
    assert_eq!(p, Position::new(4, 3));
    let next = b.get_next_cell(Position::new(9, 5), right());
    assert!(next.is_none());
    let next = b.get_next_cell(Position::new(8, 5), right());
    let (q, cell) = next.unwrap();
    assert_eq!(q, Position::new(9, 5));
    assert!(!cell.is_occupied());
}

#[test]
fn cell_state_transitions() {
    let mut c = libbattleship::Cell::new(Position::new(4, 4));
    assert!(!c.is_occupied());
    assert_eq!(c.get_hitcount(), 0);
    assert!(!c.was_hit_successfully());
    c.hit();
    assert_eq!(c.get_hitcount(), 1);
    assert!(!c.was_hit_successfully());
    c.set_occupied();
    assert!(c.is_occupied());
    assert!(c.was_hit_successfully());
    c.hit();
    assert_eq!(c.get_hitcount(), 2);
}
