use snek::codec::{decode, encode};
use snek::shared::{
    direction_byte, direction_from_byte, game_result_byte, game_result_from_byte,
    message_type_byte, message_type_from_byte, stream_byte, Direction, GameResult, MessageType,
    StreamId, MAGIC_BYTE,
};

fn all_message_types() -> Vec<MessageType> {
    vec![
        MessageType::JoinEvent,
        MessageType::AssignIdEvent,
        MessageType::BroadcastIdsEvent,
        MessageType::StartEvent,
        MessageType::MoveEvent,
        MessageType::DeathEvent,
        MessageType::EndEvent,
        MessageType::Heartbeat,
    ]
}

#[test]
fn encode_prepends_magic_and_type() {
    let payload = vec![7u8, 8, 9];
    let bytes = encode(MessageType::MoveEvent, &payload);
    assert_eq!(bytes, vec![MAGIC_BYTE, 4, 7, 8, 9]);
}

#[test]
fn encode_empty_payload() {
    let bytes = encode(MessageType::JoinEvent, &Vec::new());
    assert_eq!(bytes, vec![MAGIC_BYTE, 0]);
}

#[test]
fn round_trip_every_type_and_payload() {
    let payloads: Vec<Vec<u8>> = vec![
        vec![],
        vec![1],
        vec![1, 2],
        vec![0, 255, 42, 17],
        vec![MAGIC_BYTE, MAGIC_BYTE],
    ];
    for t in all_message_types() {
        for payload in &payloads {
            let bytes = encode(t, payload);
            let decoded = decode(&bytes).expect("an encoded message decodes");
            assert_eq!(decoded.0, t);
            assert_eq!(&decoded.1, payload);
        }
    }
}

#[test]
fn decode_rejects_foreign_magic() {
    let bytes = vec![41u8, 0, 1, 2];
    assert!(decode(&bytes).is_none());
}

#[test]
fn decode_rejects_short_buffer() {
    assert!(decode(&Vec::new()).is_none());
    assert!(decode(&vec![MAGIC_BYTE]).is_none());
}

#[test]
fn decode_rejects_unknown_type() {
    let bytes = vec![MAGIC_BYTE, 8, 1];
    assert!(decode(&bytes).is_none());
    let bytes = vec![MAGIC_BYTE, 255];
    assert!(decode(&bytes).is_none());
}

#[test]
fn wire_bytes_are_pinned() {
    assert_eq!(message_type_byte(MessageType::JoinEvent), 0);
    assert_eq!(message_type_byte(MessageType::AssignIdEvent), 1);
    assert_eq!(message_type_byte(MessageType::BroadcastIdsEvent), 2);
    assert_eq!(message_type_byte(MessageType::StartEvent), 3);
    assert_eq!(message_type_byte(MessageType::MoveEvent), 4);
    assert_eq!(message_type_byte(MessageType::DeathEvent), 5);
    assert_eq!(message_type_byte(MessageType::EndEvent), 6);
    assert_eq!(message_type_byte(MessageType::Heartbeat), 7);
    assert_eq!(direction_byte(Direction::Invalid), 0);
    assert_eq!(direction_byte(Direction::North), 1);
    assert_eq!(direction_byte(Direction::South), 2);
    assert_eq!(direction_byte(Direction::East), 3);
    assert_eq!(direction_byte(Direction::West), 4);
    assert_eq!(game_result_byte(GameResult::Win), 0);
    assert_eq!(game_result_byte(GameResult::Tie), 1);
    assert_eq!(game_result_byte(GameResult::Loss), 2);
    assert_eq!(stream_byte(StreamId::Heartbeat), 0);
    assert_eq!(stream_byte(StreamId::Event), 1);
    assert_eq!(stream_byte(StreamId::Move), 2);
}

#[test]
fn byte_tables_round_trip() {
    for b in 0u8..=7 {
        let t = message_type_from_byte(b).expect("bytes 0..=7 name message types");
        assert_eq!(message_type_byte(t), b);
    }
    assert!(message_type_from_byte(8).is_none());
    for b in 0u8..=4 {
        let d = direction_from_byte(b).expect("bytes 0..=4 name directions");
        assert_eq!(direction_byte(d), b);
    }
    assert!(direction_from_byte(5).is_none());
    for b in 0u8..=2 {
        let g = game_result_from_byte(b).expect("bytes 0..=2 name results");
        assert_eq!(game_result_byte(g), b);
    }
    assert!(game_result_from_byte(3).is_none());
}
