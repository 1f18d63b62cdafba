use snek::game::Game;
use snek::shared::{Coord, Direction, UpdateResult};
use snek::snek::Snek;

fn occupied_cells(game: &Game, id: u8) -> Vec<Coord> {
    let mut cells = Vec::new();
    for snek in &game.sneks {
        if snek.id == id {
            cells.push(snek.head);
            for c in &snek.body {
                cells.push(*c);
            }
        }
    }
    cells
}

#[test]
fn spawn_layouts_are_deterministic() {
    let mut game = Game::new(35, 35);
    game.spawn_snek(1).expect("seat one");
    game.spawn_snek(2).expect("seat two");
    let one = occupied_cells(&game, 1);
    let two = occupied_cells(&game, 2);
    assert_eq!(one[0], (9, 0));
    assert_eq!(one[1], (8, 0));
    assert_eq!(one[9], (0, 0));
    assert_eq!(one.len(), 10);
    assert_eq!(two[0], (9, 34));
    assert_eq!(two[9], (0, 34));
    assert_eq!(game.get_snek_direction(1), Direction::East);
    assert_eq!(game.get_snek_direction(2), Direction::East);
}

#[test]
fn spawned_snakes_never_overlap() {
    let mut game = Game::new(35, 35);
    game.spawn_snek(1).expect("seat one");
    game.spawn_snek(2).expect("seat two");
    let one = occupied_cells(&game, 1);
    let two = occupied_cells(&game, 2);
    for a in &one {
        for b in &two {
            assert_ne!(a, b);
        }
    }
}

#[test]
fn spawn_beyond_capacity_fails_without_mutating() {
    let mut game = Game::new(35, 35);
    game.spawn_snek(1).expect("seat one");
    game.spawn_snek(2).expect("seat two");
    let before_one = occupied_cells(&game, 1);
    let before_two = occupied_cells(&game, 2);
    let r = game.spawn_snek(3);
    assert!(r.is_err());
    assert_eq!(game.get_snek_count(), 2);
    assert!(!game.is_alive(3));
    assert_eq!(occupied_cells(&game, 1), before_one);
    assert_eq!(occupied_cells(&game, 2), before_two);
}

#[test]
fn wall_collision_removes_snake_and_frees_cells() {
    let mut game = Game::new(35, 35);
    game.spawn_snek(1).expect("seat one");
    game.start_game();
    game.move_snek(1, Direction::North);
    let outcomes = game.update(true);
    assert_eq!(outcomes, vec![(1u8, UpdateResult::WallCollision)]);
    assert!(!game.is_alive(1));
    assert_eq!(game.get_snek_count(), 0);
    // Every cell it held is free again: the very same layout can be seated.
    assert!(game.can_spawn(1));
}

#[test]
fn player_collision_names_the_occupant_and_spares_it() {
    // Two rows only: the top snake dives straight into the bottom snake's
    // head cell on the first tick.
    let mut game = Game::new(40, 2);
    game.spawn_snek(1).expect("seat one");
    game.spawn_snek(2).expect("seat two");
    game.start_game();
    game.move_snek(1, Direction::South);
    let outcomes = game.update(true);
    assert_eq!(
        outcomes,
        vec![
            (1u8, UpdateResult::PlayerCollision(2)),
            (2u8, UpdateResult::Nothing),
        ]
    );
    assert!(!game.is_alive(1));
    assert!(game.is_alive(2));
    // The survivor advanced exactly one cell.
    assert_eq!(occupied_cells(&game, 2)[0], (10, 1));
}

#[test]
fn later_snake_collides_with_earlier_movers_body() {
    // The bottom snake turns up into the cell the top snake's body holds
    // after the top snake, evaluated first, has taken its step.
    let mut game = Game::new(40, 2);
    game.spawn_snek(1).expect("seat one");
    game.spawn_snek(2).expect("seat two");
    game.start_game();
    game.move_snek(2, Direction::North);
    let outcomes = game.update(true);
    assert_eq!(
        outcomes,
        vec![
            (1u8, UpdateResult::Nothing),
            (2u8, UpdateResult::PlayerCollision(1)),
        ]
    );
    assert!(game.is_alive(1));
    assert!(!game.is_alive(2));
}

#[test]
fn self_collision_counts_as_wall_hit() {
    // A tight hook: south, west, then north aims the head back into the
    // snake's own body, which is treated exactly like a wall.
    let mut game = Game::new(35, 35);
    game.spawn_snek(1).expect("seat one");
    game.start_game();
    game.move_snek(1, Direction::South);
    assert_eq!(game.update(true), vec![(1u8, UpdateResult::Nothing)]);
    game.move_snek(1, Direction::West);
    assert_eq!(game.update(true), vec![(1u8, UpdateResult::Nothing)]);
    game.move_snek(1, Direction::North);
    assert_eq!(game.update(true), vec![(1u8, UpdateResult::WallCollision)]);
    assert!(!game.is_alive(1));
}

#[test]
fn advancing_keeps_length_and_shifts_body() {
    let mut game = Game::new(35, 35);
    game.spawn_snek(1).expect("seat one");
    game.start_game();
    let outcomes = game.update(true);
    assert_eq!(outcomes, vec![(1u8, UpdateResult::Nothing)]);
    let cells = occupied_cells(&game, 1);
    assert_eq!(cells.len(), 10);
    assert_eq!(cells[0], (10, 0));
    assert_eq!(cells[1], (9, 0));
    assert_eq!(cells[9], (1, 0));
}

#[test]
fn update_does_nothing_before_start() {
    let mut game = Game::new(35, 35);
    game.spawn_snek(1).expect("seat one");
    let outcomes = game.update(true);
    assert!(outcomes.is_empty());
    assert_eq!(occupied_cells(&game, 1)[0], (9, 0));
    game.start_game();
    let outcomes = game.update(false);
    assert!(outcomes.is_empty());
    assert_eq!(occupied_cells(&game, 1)[0], (9, 0));
}

#[test]
fn direction_reversal_is_rejected() {
    let mut game = Game::new(35, 35);
    game.spawn_snek(1).expect("seat one");
    // East is the spawn direction; West is its exact opposite.
    game.move_snek(1, Direction::West);
    assert_eq!(game.get_snek_direction(1), Direction::East);
    // Re-requesting the current direction is a harmless no-op.
    game.move_snek(1, Direction::East);
    assert_eq!(game.get_snek_direction(1), Direction::East);
    // An Invalid request is ignored.
    game.move_snek(1, Direction::Invalid);
    assert_eq!(game.get_snek_direction(1), Direction::East);
    // A turn is taken, and the new opposite is then refused.
    game.move_snek(1, Direction::North);
    assert_eq!(game.get_snek_direction(1), Direction::North);
    game.move_snek(1, Direction::South);
    assert_eq!(game.get_snek_direction(1), Direction::North);
}

#[test]
fn set_direction_on_the_snake_itself() {
    let mut snek = Snek {
        id: 1,
        head: (5, 5),
        body: vec![(4, 5)],
        previous_direction: Direction::Invalid,
        direction: Direction::North,
    };
    snek.set_direction(Direction::South);
    assert_eq!(snek.direction, Direction::North);
    snek.set_direction(Direction::West);
    assert_eq!(snek.direction, Direction::West);
    snek.set_direction(Direction::East);
    assert_eq!(snek.direction, Direction::West);
}

#[test]
fn advance_moves_head_and_carries_body() {
    let mut snek = Snek {
        id: 1,
        head: (5, 5),
        body: vec![(4, 5), (3, 5)],
        previous_direction: Direction::Invalid,
        direction: Direction::East,
    };
    snek.advance(false);
    assert_eq!(snek.head, (6, 5));
    assert_eq!(snek.body, vec![(5, 5), (4, 5)]);
    snek.set_direction(Direction::North);
    snek.advance(false);
    assert_eq!(snek.head, (6, 4));
    assert_eq!(snek.body, vec![(6, 5), (5, 5)]);
}

#[test]
fn advance_with_growth_keeps_tail() {
    let mut snek = Snek {
        id: 1,
        head: (5, 5),
        body: vec![(4, 5)],
        previous_direction: Direction::Invalid,
        direction: Direction::South,
    };
    snek.advance(true);
    assert_eq!(snek.head, (5, 6));
    assert_eq!(snek.body, vec![(5, 5), (4, 5)]);
}

#[test]
fn get_new_head_coord_per_direction() {
    let mut snek = Snek {
        id: 1,
        head: (5, 5),
        body: vec![(4, 5)],
        previous_direction: Direction::Invalid,
        direction: Direction::North,
    };
    assert_eq!(snek.get_new_head_coord(), (5, 4));
    snek.direction = Direction::South;
    assert_eq!(snek.get_new_head_coord(), (5, 6));
    snek.direction = Direction::East;
    assert_eq!(snek.get_new_head_coord(), (6, 5));
    snek.direction = Direction::West;
    assert_eq!(snek.get_new_head_coord(), (4, 5));
    snek.direction = Direction::Invalid;
    assert_eq!(snek.get_new_head_coord(), (5, 5));
}
