use snek::client::handle_packet;
use snek::codec::encode;
use snek::game::Game;
use snek::shared::{direction_byte, Direction, MessageType};

fn fresh_game() -> Game {
    Game::new(35, 35)
}

#[test]
fn assign_seats_own_snake_and_records_id() {
    let mut game = fresh_game();
    let bytes = encode(MessageType::AssignIdEvent, &vec![1]);
    let tick = handle_packet(&mut game, &bytes);
    assert!(!tick);
    assert_eq!(game.get_my_snek_id(), 1);
    assert!(game.is_alive(1));
}

#[test]
fn assign_with_empty_payload_is_dropped() {
    let mut game = fresh_game();
    let bytes = encode(MessageType::AssignIdEvent, &Vec::new());
    handle_packet(&mut game, &bytes);
    assert_eq!(game.get_my_snek_id(), 0);
    assert_eq!(game.get_snek_count(), 0);
}

#[test]
fn assign_with_unknown_join_order_is_dropped() {
    let mut game = fresh_game();
    let bytes = encode(MessageType::AssignIdEvent, &vec![9]);
    handle_packet(&mut game, &bytes);
    assert_eq!(game.get_my_snek_id(), 0);
    assert_eq!(game.get_snek_count(), 0);
}

#[test]
fn broadcast_seats_mirrors_but_not_own_or_bad_ids() {
    let mut game = fresh_game();
    handle_packet(&mut game, &encode(MessageType::AssignIdEvent, &vec![1]));
    // 1 is the client's own snake, 0 names no layout, 2 is a mirror; the
    // repeated 2 and anything past capacity are skipped.
    let bytes = encode(MessageType::BroadcastIdsEvent, &vec![1, 0, 2, 2, 3]);
    handle_packet(&mut game, &bytes);
    assert!(game.is_alive(1));
    assert!(game.is_alive(2));
    assert!(!game.is_alive(3));
    assert_eq!(game.get_snek_count(), 2);
}

#[test]
fn start_flips_flag_and_asks_for_a_tick() {
    let mut game = fresh_game();
    let tick = handle_packet(&mut game, &encode(MessageType::StartEvent, &Vec::new()));
    assert!(tick);
    assert!(game.has_started());
}

#[test]
fn move_fanout_applies_directions_and_skips_bad_pairs() {
    let mut game = fresh_game();
    handle_packet(&mut game, &encode(MessageType::AssignIdEvent, &vec![1]));
    handle_packet(&mut game, &encode(MessageType::BroadcastIdsEvent, &vec![2]));
    handle_packet(&mut game, &encode(MessageType::StartEvent, &Vec::new()));
    // Pair one turns snake 1 south; pair two names no direction and is
    // skipped; the odd trailing byte is ignored.
    let payload = vec![1, direction_byte(Direction::South), 2, 9, 2];
    let tick = handle_packet(&mut game, &encode(MessageType::MoveEvent, &payload));
    assert!(tick);
    assert_eq!(game.get_snek_direction(1), Direction::South);
    assert_eq!(game.get_snek_direction(2), Direction::East);
}

#[test]
fn move_for_unknown_snake_is_ignored() {
    let mut game = fresh_game();
    handle_packet(&mut game, &encode(MessageType::AssignIdEvent, &vec![1]));
    let payload = vec![4, direction_byte(Direction::South)];
    handle_packet(&mut game, &encode(MessageType::MoveEvent, &payload));
    assert_eq!(game.get_snek_direction(1), Direction::East);
}

#[test]
fn end_with_result_stops_the_game() {
    let mut game = fresh_game();
    handle_packet(&mut game, &encode(MessageType::StartEvent, &Vec::new()));
    let tick = handle_packet(&mut game, &encode(MessageType::EndEvent, &vec![0, 2]));
    assert!(!tick);
    assert!(!game.has_started());
}

#[test]
fn end_without_result_is_dropped() {
    let mut game = fresh_game();
    handle_packet(&mut game, &encode(MessageType::StartEvent, &Vec::new()));
    handle_packet(&mut game, &encode(MessageType::EndEvent, &Vec::new()));
    assert!(game.has_started());
}

#[test]
fn heartbeat_and_foreign_bytes_change_nothing() {
    let mut game = fresh_game();
    let tick = handle_packet(&mut game, &encode(MessageType::Heartbeat, &Vec::new()));
    assert!(!tick);
    let mut foreign = encode(MessageType::StartEvent, &Vec::new());
    foreign[0] = 0;
    let tick = handle_packet(&mut game, &foreign);
    assert!(!tick);
    assert!(!game.has_started());
}
