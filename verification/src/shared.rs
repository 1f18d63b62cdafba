//! Core vocabulary of the protocol and the simulation: identifiers,
//! directions, message kinds, and their fixed wire encodings.
//!
//! Every enum's wire byte is pinned by an explicit conversion table below, so
//! wire stability never depends on declaration order.

use vstd::prelude::*;

verus! {

/// A cell position on the finite grid, as (x, y).
pub type Coord = (i32, i32);

/// A player identifier, unique per active session. 0 is reserved as
/// "invalid / none".
pub type SnekId = u8;

/// How many players one session seats.
pub const MAX_PLAYERS: usize = 2;

/// The reserved id that stands for "no player".
pub const INVALID_ID: SnekId = 0;

/// First byte of every conforming packet; a buffer that opens with anything
/// else is foreign traffic and is dropped.
pub const MAGIC_BYTE: u8 = 42;

/// A direction of travel. `Invalid` stands for "no direction requested".
#[derive(Copy, Clone, PartialEq, Eq, Structural, Debug)]
pub enum Direction {
    Invalid,
    North,
    South,
    East,
    West,
}

/// What one tick did to one snake: it advanced, it hit a wall (or itself),
/// or it ran into another player's snake.
#[derive(Copy, Clone, PartialEq, Eq, Structural, Debug)]
pub enum UpdateResult {
    Nothing,
    WallCollision,
    PlayerCollision(SnekId),
}

/// The logical transport stream a message travels on; the transport keeps
/// ordering per stream, independently across streams.
#[derive(Copy, Clone, PartialEq, Eq, Structural, Debug)]
pub enum StreamId {
    Heartbeat,
    Event,
    Move,
}

/// How the game ended from one player's point of view.
#[derive(Copy, Clone, PartialEq, Eq, Structural, Debug)]
pub enum GameResult {
    Win,
    Tie,
    Loss,
}

/// The closed set of message kinds the wire carries.
#[derive(Copy, Clone, PartialEq, Eq, Structural, Debug)]
pub enum MessageType {
    JoinEvent,
    AssignIdEvent,
    BroadcastIdsEvent,
    StartEvent,
    MoveEvent,
    DeathEvent,
    EndEvent,
    Heartbeat,
}

/// Wire byte of a direction.
pub open spec fn spec_direction_byte(d: Direction) -> u8 {
    match d {
        Direction::Invalid => 0,
        Direction::North => 1,
        Direction::South => 2,
        Direction::East => 3,
        Direction::West => 4,
    }
}

/// Direction named by a wire byte, if any.
pub open spec fn spec_direction_from_byte(b: u8) -> Option<Direction> {
    if b == 0 {
        Some(Direction::Invalid)
    } else if b == 1 {
        Some(Direction::North)
    } else if b == 2 {
        Some(Direction::South)
    } else if b == 3 {
        Some(Direction::East)
    } else if b == 4 {
        Some(Direction::West)
    } else {
        None
    }
}

pub fn direction_byte(d: Direction) -> (r: u8)
    ensures
        r == spec_direction_byte(d),
{
    match d {
        Direction::Invalid => 0,
        Direction::North => 1,
        Direction::South => 2,
        Direction::East => 3,
        Direction::West => 4,
    }
}

pub fn direction_from_byte(b: u8) -> (r: Option<Direction>)
    ensures
        r == spec_direction_from_byte(b),
{
    if b == 0 {
        Some(Direction::Invalid)
    } else if b == 1 {
        Some(Direction::North)
    } else if b == 2 {
        Some(Direction::South)
    } else if b == 3 {
        Some(Direction::East)
    } else if b == 4 {
        Some(Direction::West)
    } else {
        None
    }
}

/// Decoding a direction's wire byte gives back the direction.
pub proof fn lemma_direction_byte_round_trip(d: Direction)
    ensures
        spec_direction_from_byte(spec_direction_byte(d)) == Some(d),
{
}

/// Wire byte of a message type.
pub open spec fn spec_message_type_byte(t: MessageType) -> u8 {
    match t {
        MessageType::JoinEvent => 0,
        MessageType::AssignIdEvent => 1,
        MessageType::BroadcastIdsEvent => 2,
        MessageType::StartEvent => 3,
        MessageType::MoveEvent => 4,
        MessageType::DeathEvent => 5,
        MessageType::EndEvent => 6,
        MessageType::Heartbeat => 7,
    }
}

/// Message type named by a wire byte, if any.
pub open spec fn spec_message_type_from_byte(b: u8) -> Option<MessageType> {
    if b == 0 {
        Some(MessageType::JoinEvent)
    } else if b == 1 {
        Some(MessageType::AssignIdEvent)
    } else if b == 2 {
        Some(MessageType::BroadcastIdsEvent)
    } else if b == 3 {
        Some(MessageType::StartEvent)
    } else if b == 4 {
        Some(MessageType::MoveEvent)
    } else if b == 5 {
        Some(MessageType::DeathEvent)
    } else if b == 6 {
        Some(MessageType::EndEvent)
    } else if b == 7 {
        Some(MessageType::Heartbeat)
    } else {
        None
    }
}

pub fn message_type_byte(t: MessageType) -> (r: u8)
    ensures
        r == spec_message_type_byte(t),
{
    match t {
        MessageType::JoinEvent => 0,
        MessageType::AssignIdEvent => 1,
        MessageType::BroadcastIdsEvent => 2,
        MessageType::StartEvent => 3,
        MessageType::MoveEvent => 4,
        MessageType::DeathEvent => 5,
        MessageType::EndEvent => 6,
        MessageType::Heartbeat => 7,
    }
}

pub fn message_type_from_byte(b: u8) -> (r: Option<MessageType>)
    ensures
        r == spec_message_type_from_byte(b),
{
    if b == 0 {
        Some(MessageType::JoinEvent)
    } else if b == 1 {
        Some(MessageType::AssignIdEvent)
    } else if b == 2 {
        Some(MessageType::BroadcastIdsEvent)
    } else if b == 3 {
        Some(MessageType::StartEvent)
    } else if b == 4 {
        Some(MessageType::MoveEvent)
    } else if b == 5 {
        Some(MessageType::DeathEvent)
    } else if b == 6 {
        Some(MessageType::EndEvent)
    } else if b == 7 {
        Some(MessageType::Heartbeat)
    } else {
        None
    }
}

/// Decoding a message type's wire byte gives back the type.
pub proof fn lemma_message_type_byte_round_trip(t: MessageType)
    ensures
        spec_message_type_from_byte(spec_message_type_byte(t)) == Some(t),
{
}

/// Wire byte of a game result.
pub open spec fn spec_game_result_byte(g: GameResult) -> u8 {
    match g {
        GameResult::Win => 0,
        GameResult::Tie => 1,
        GameResult::Loss => 2,
    }
}

/// Game result named by a wire byte, if any.
pub open spec fn spec_game_result_from_byte(b: u8) -> Option<GameResult> {
    if b == 0 {
        Some(GameResult::Win)
    } else if b == 1 {
        Some(GameResult::Tie)
    } else if b == 2 {
        Some(GameResult::Loss)
    } else {
        None
    }
}

pub fn game_result_byte(g: GameResult) -> (r: u8)
    ensures
        r == spec_game_result_byte(g),
{
    match g {
        GameResult::Win => 0,
        GameResult::Tie => 1,
        GameResult::Loss => 2,
    }
}

pub fn game_result_from_byte(b: u8) -> (r: Option<GameResult>)
    ensures
        r == spec_game_result_from_byte(b),
{
    if b == 0 {
        Some(GameResult::Win)
    } else if b == 1 {
        Some(GameResult::Tie)
    } else if b == 2 {
        Some(GameResult::Loss)
    } else {
        None
    }
}

/// Wire byte of a transport stream tag.
pub open spec fn spec_stream_byte(s: StreamId) -> u8 {
    match s {
        StreamId::Heartbeat => 0,
        StreamId::Event => 1,
        StreamId::Move => 2,
    }
}

pub fn stream_byte(s: StreamId) -> (r: u8)
    ensures
        r == spec_stream_byte(s),
{
    match s {
        StreamId::Heartbeat => 0,
        StreamId::Event => 1,
        StreamId::Move => 2,
    }
}

} // verus!
