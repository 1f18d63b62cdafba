use snek::client;
use snek::codec::{decode, encode};
use snek::game::Game;
use snek::server::{handle_packet, broadcast_moves, OutMessage, ServerState};
use snek::shared::{
    direction_byte, Direction, GameResult, MessageType, StreamId, game_result_byte,
};

fn join_bytes() -> Vec<u8> {
    encode(MessageType::JoinEvent, &Vec::new())
}

fn move_bytes(id: u8, d: Direction) -> Vec<u8> {
    encode(MessageType::MoveEvent, &vec![id, direction_byte(d)])
}

fn decoded(msg: &OutMessage) -> (MessageType, Vec<u8>) {
    decode(&msg.bytes).expect("the server only sends conforming packets")
}

#[test]
fn first_join_assigns_id_one() {
    let mut server = ServerState::new();
    let out = handle_packet(&mut server, 11, &join_bytes());
    assert_eq!(out.len(), 1);
    assert_eq!(out[0].addr, 11);
    assert_eq!(out[0].stream, StreamId::Event);
    assert_eq!(decoded(&out[0]), (MessageType::AssignIdEvent, vec![1]));
    assert!(!server.game_started);
}

#[test]
fn filling_join_starts_game_and_broadcasts() {
    let mut server = ServerState::new();
    handle_packet(&mut server, 11, &join_bytes());
    let out = handle_packet(&mut server, 22, &join_bytes());
    assert!(server.game_started);
    assert_eq!(out.len(), 5);
    assert_eq!(out[0].addr, 22);
    assert_eq!(decoded(&out[0]), (MessageType::AssignIdEvent, vec![2]));
    assert_eq!(out[1].addr, 11);
    assert_eq!(decoded(&out[1]), (MessageType::BroadcastIdsEvent, vec![1, 2]));
    assert_eq!(out[2].addr, 11);
    assert_eq!(decoded(&out[2]), (MessageType::StartEvent, vec![]));
    assert_eq!(out[3].addr, 22);
    assert_eq!(decoded(&out[3]), (MessageType::BroadcastIdsEvent, vec![1, 2]));
    assert_eq!(out[4].addr, 22);
    assert_eq!(decoded(&out[4]), (MessageType::StartEvent, vec![]));
}

#[test]
fn duplicate_and_overflow_joins_are_silent() {
    let mut server = ServerState::new();
    handle_packet(&mut server, 11, &join_bytes());
    let dup = handle_packet(&mut server, 11, &join_bytes());
    assert!(dup.is_empty());
    assert_eq!(server.get_snek_count(), 1);
    handle_packet(&mut server, 22, &join_bytes());
    let third = handle_packet(&mut server, 33, &join_bytes());
    assert!(third.is_empty());
    assert_eq!(server.get_snek_count(), 2);
}

#[test]
fn heartbeat_is_answered_in_any_state() {
    let mut server = ServerState::new();
    let hb = encode(MessageType::Heartbeat, &Vec::new());
    let out = handle_packet(&mut server, 77, &hb);
    assert_eq!(out.len(), 1);
    assert_eq!(out[0].addr, 77);
    assert_eq!(out[0].stream, StreamId::Heartbeat);
    assert_eq!(decoded(&out[0]), (MessageType::Heartbeat, vec![]));
}

#[test]
fn foreign_magic_is_dropped() {
    let mut server = ServerState::new();
    let mut bytes = join_bytes();
    bytes[0] = 7;
    let out = handle_packet(&mut server, 11, &bytes);
    assert!(out.is_empty());
    assert_eq!(server.get_snek_count(), 0);
}

#[test]
fn mismatched_move_id_is_pure_silence() {
    let mut server = ServerState::new();
    handle_packet(&mut server, 11, &join_bytes());
    handle_packet(&mut server, 22, &join_bytes());
    // Address 11 holds id 1, but claims id 2: no reply, not even a
    // heartbeat, and no move on file.
    let out = handle_packet(&mut server, 11, &move_bytes(2, Direction::North));
    assert!(out.is_empty());
    // The lockstep barrier still waits: nothing was recorded.
    handle_packet(&mut server, 22, &move_bytes(2, Direction::North));
    assert!(broadcast_moves(&server).is_empty());
}

#[test]
fn unknown_sender_and_short_move_are_dropped() {
    let mut server = ServerState::new();
    handle_packet(&mut server, 11, &join_bytes());
    handle_packet(&mut server, 22, &join_bytes());
    let out = handle_packet(&mut server, 99, &move_bytes(1, Direction::North));
    assert!(out.is_empty());
    let short = encode(MessageType::MoveEvent, &vec![1]);
    let out = handle_packet(&mut server, 11, &short);
    assert!(out.is_empty());
}

#[test]
fn valid_move_is_answered_with_heartbeat() {
    let mut server = ServerState::new();
    handle_packet(&mut server, 11, &join_bytes());
    handle_packet(&mut server, 22, &join_bytes());
    let out = handle_packet(&mut server, 11, &move_bytes(1, Direction::South));
    assert_eq!(out.len(), 1);
    assert_eq!(out[0].addr, 11);
    assert_eq!(decoded(&out[0]), (MessageType::Heartbeat, vec![]));
}

#[test]
fn lockstep_barrier_waits_for_every_move() {
    let mut server = ServerState::new();
    handle_packet(&mut server, 11, &join_bytes());
    handle_packet(&mut server, 22, &join_bytes());
    assert!(broadcast_moves(&server).is_empty());
    handle_packet(&mut server, 11, &move_bytes(1, Direction::South));
    assert!(broadcast_moves(&server).is_empty());
    handle_packet(&mut server, 22, &move_bytes(2, Direction::East));
    let out = broadcast_moves(&server);
    assert_eq!(out.len(), 2);
    assert_eq!(out[0].addr, 11);
    assert_eq!(out[1].addr, 22);
    let expected = vec![1, direction_byte(Direction::South), 2, direction_byte(Direction::East)];
    assert_eq!(decoded(&out[0]), (MessageType::MoveEvent, expected.clone()));
    assert_eq!(decoded(&out[1]), (MessageType::MoveEvent, expected));
    assert_eq!(out[0].stream, StreamId::Move);
}

#[test]
fn death_before_start_is_dropped() {
    let mut server = ServerState::new();
    handle_packet(&mut server, 11, &join_bytes());
    let death = encode(MessageType::DeathEvent, &Vec::new());
    let out = handle_packet(&mut server, 11, &death);
    assert!(out.is_empty());
}

#[test]
fn tie_death_ends_game_for_everyone() {
    let mut server = ServerState::new();
    handle_packet(&mut server, 11, &join_bytes());
    handle_packet(&mut server, 22, &join_bytes());
    let death = encode(MessageType::DeathEvent, &Vec::new());
    let out = handle_packet(&mut server, 11, &death);
    assert!(!server.game_started);
    assert_eq!(out.len(), 2);
    let tie = game_result_byte(GameResult::Tie);
    assert_eq!(out[0].addr, 11);
    assert_eq!(decoded(&out[0]), (MessageType::EndEvent, vec![tie, 0]));
    assert_eq!(out[1].addr, 22);
    assert_eq!(decoded(&out[1]), (MessageType::EndEvent, vec![tie, 0]));
}

#[test]
fn long_death_report_is_informational_only() {
    let mut server = ServerState::new();
    handle_packet(&mut server, 11, &join_bytes());
    handle_packet(&mut server, 22, &join_bytes());
    let report = encode(MessageType::DeathEvent, &vec![1, 2]);
    let out = handle_packet(&mut server, 11, &report);
    assert!(out.is_empty());
    assert!(server.game_started);
}

#[test]
fn two_clients_play_until_end_messages() {
    // Two clients join a two-seat server, receive their ids, the id
    // broadcast and the start order; they exchange moves through the
    // lockstep barrier until the top snake runs into the bottom one; the
    // loser's client reports the death and the server hands out the end
    // results.
    let addr1: u64 = 101;
    let addr2: u64 = 202;
    let mut server = ServerState::new();
    let mut game1 = Game::new(40, 2);
    let mut game2 = Game::new(40, 2);

    // Join in order.
    let out = handle_packet(&mut server, addr1, &join_bytes());
    assert_eq!(out.len(), 1);
    assert_eq!(decoded(&out[0]), (MessageType::AssignIdEvent, vec![1]));
    client::handle_packet(&mut game1, &out[0].bytes);
    assert_eq!(game1.get_my_snek_id(), 1);

    let out = handle_packet(&mut server, addr2, &join_bytes());
    assert_eq!(out.len(), 5);
    assert_eq!(decoded(&out[0]), (MessageType::AssignIdEvent, vec![2]));
    // Each client consumes what was addressed to it.
    for msg in &out {
        if msg.addr == addr1 {
            client::handle_packet(&mut game1, &msg.bytes);
        } else {
            client::handle_packet(&mut game2, &msg.bytes);
        }
    }
    assert_eq!(game2.get_my_snek_id(), 2);
    assert!(game1.has_started());
    assert!(game2.has_started());
    assert!(game1.is_alive(1) && game1.is_alive(2));
    assert!(game2.is_alive(1) && game2.is_alive(2));

    // Both submit their opening move; the barrier opens and both clients
    // apply the fan-out and tick.
    handle_packet(&mut server, addr1, &move_bytes(1, Direction::East));
    handle_packet(&mut server, addr2, &move_bytes(2, Direction::East));
    let fan = broadcast_moves(&server);
    assert_eq!(fan.len(), 2);
    assert!(client::handle_packet(&mut game1, &fan[0].bytes));
    game1.update(true);
    assert!(client::handle_packet(&mut game2, &fan[1].bytes));
    game2.update(true);
    assert!(game1.is_alive(1) && game1.is_alive(2));

    // Player 1 turns south, straight into player 2's row.
    handle_packet(&mut server, addr1, &move_bytes(1, Direction::South));
    let fan = broadcast_moves(&server);
    assert_eq!(fan.len(), 2);
    client::handle_packet(&mut game1, &fan[0].bytes);
    game1.update(true);
    client::handle_packet(&mut game2, &fan[1].bytes);
    game2.update(true);
    assert!(!game1.is_alive(1));
    assert!(game1.is_alive(2));
    assert!(!game2.is_alive(1));
    assert!(game2.is_alive(2));

    // Client 1's own snake is dead: it reports every id still known to it
    // and treats its game as over.
    assert!(game1.has_started());
    let alive = game1.get_all_snek_ids();
    assert_eq!(alive, vec![2]);
    game1.end_game();
    let death = encode(MessageType::DeathEvent, &alive);
    let out = handle_packet(&mut server, addr1, &death);
    assert!(!server.game_started);

    // The loser hears Loss naming the winner; the winner hears Win.
    assert_eq!(out.len(), 2);
    assert_eq!(out[0].addr, addr1);
    assert_eq!(
        decoded(&out[0]),
        (MessageType::EndEvent, vec![game_result_byte(GameResult::Loss), 2])
    );
    assert_eq!(out[1].addr, addr2);
    assert_eq!(
        decoded(&out[1]),
        (MessageType::EndEvent, vec![game_result_byte(GameResult::Win), 2])
    );

    // The winner's client takes the End and stops.
    client::handle_packet(&mut game2, &out[1].bytes);
    assert!(!game2.has_started());
}
