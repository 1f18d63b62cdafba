//! The client-side protocol handler: how a client's local game state
//! reacts to each decoded server event.
//!
//! The client mirrors the server's world locally: it replays the same
//! deterministic spawn table when ids are assigned or broadcast, applies
//! the per-tick move fan-out to its local snakes, and flips its local
//! started flag on Start and End. The transport and the frame loop stay
//! outside and hand raw bytes in.

use vstd::prelude::*;
use crate::codec;
use crate::game::Game;
use crate::game::GameView;
use crate::game::lemma_wf_direction_only;
use crate::shared::MessageType;
use crate::shared::MAX_PLAYERS;
use crate::shared::direction_from_byte;
use crate::shared::spec_direction_from_byte;

verus! {

/// What an AssignId payload does: when its id can be seated (a join order
/// the spawn table knows, not yet live, its spawn cells free, a seat
/// left), the client spawns its own snake there and records the id as its
/// own; otherwise the message is dropped whole.
pub open spec fn spec_assign(g: GameView, data: Seq<u8>) -> GameView {
    if data.len() < 1 {
        g
    } else {
        let id = data[0];
        if 1 <= id <= 4 && !g.has_id(id) && g.spawn_free(id) && g.sneks.len() < MAX_PLAYERS {
            GameView { my_snek_id: id, ..g.spawned(id) }
        } else {
            g
        }
    }
}

/// What the first `n` ids of a BroadcastIds payload do: every id other
/// than the client's own is seated as a local mirror snake when it can
/// be; an id that cannot be seated is skipped.
pub open spec fn spec_spawn_mirrors(g: GameView, data: Seq<u8>, n: int) -> GameView
    decreases n,
{
    if n <= 0 {
        g
    } else {
        let g1 = spec_spawn_mirrors(g, data, n - 1);
        let id = data[n - 1];
        if id != g1.my_snek_id && 1 <= id <= 4 && !g1.has_id(id) && g1.spawn_free(id)
            && g1.sneks.len() < MAX_PLAYERS {
            g1.spawned(id)
        } else {
            g1
        }
    }
}

/// What the first `n` pairs of a server Move payload do: each `[id, dir]`
/// pair requests that direction for the named local snake, subject to the
/// reversal rule; a byte that names no direction is skipped.
pub open spec fn spec_apply_moves(g: GameView, data: Seq<u8>, n: int) -> GameView
    decreases n,
{
    if n <= 0 {
        g
    } else {
        let g1 = spec_apply_moves(g, data, n - 1);
        let id = data[2 * (n - 1)];
        match spec_direction_from_byte(data[2 * (n - 1) + 1]) {
            Some(d) => g1.moved(id, d),
            None => g1,
        }
    }
}

/// What one inbound server buffer does to the client's local state, and
/// whether it should drive a simulation step this frame: nothing on a
/// rejected buffer; AssignId seats the own snake; BroadcastIds seats the
/// mirrors; Start begins the local game and ticks; Move applies the
/// fan-out and ticks; End (with its result payload present) ends the
/// local game; Heartbeat is a keepalive no-op.
pub open spec fn spec_client_handle(g: GameView, bytes: Seq<u8>) -> (GameView, bool) {
    match codec::spec_decode(bytes) {
        None => (g, false),
        Some(decoded) => {
            let t = decoded.0;
            let data = decoded.1;
            match t {
                MessageType::AssignIdEvent => (spec_assign(g, data), false),
                MessageType::BroadcastIdsEvent => (
                    spec_spawn_mirrors(g, data, data.len() as int),
                    false,
                ),
                MessageType::StartEvent => ((GameView { started: true, ..g }), true),
                MessageType::MoveEvent => (
                    spec_apply_moves(g, data, data.len() as int / 2),
                    true,
                ),
                MessageType::EndEvent => if data.len() < 1 {
                    (g, false)
                } else {
                    ((GameView { started: false, ..g }), false)
                },
                _ => (g, false),
            }
        },
    }
}

/// React to one packet from the server: check and strip the envelope,
/// apply the event to the local game, and say whether the caller should
/// run a simulation step this frame. Malformed or unexpected payloads are
/// dropped; no inbound packet ever brings the client down.
pub fn handle_packet(game: &mut Game, bytes: &Vec<u8>) -> (should_update: bool)
    requires
        old(game)@.wf(),
    ensures
        final(game)@.wf(),
        final(game)@ == spec_client_handle(old(game)@, bytes@).0,
        should_update == spec_client_handle(old(game)@, bytes@).1,
{
    let ghost g0 = game@;
    let decoded = codec::decode(bytes);
    let (t, data) = match decoded {
        None => {
            return false;
        },
        Some(td) => td,
    };
    match t {
        MessageType::AssignIdEvent => {
            if data.len() < 1 {
                return false;
            }
            let id = data[0];
            if game.can_spawn(id) && game.get_snek_count() < MAX_PLAYERS {
                let _ = game.spawn_snek(id);
                let ghost gs = game@;
                game.set_my_snek_id(id);
                proof {
                    lemma_wf_direction_only(gs, game@);
                }
            }
            false
        },
        MessageType::BroadcastIdsEvent => {
            let mut i: usize = 0;
            while i < data.len()
                invariant
                    i <= data@.len(),
                    game@ == spec_spawn_mirrors(g0, data@, i as int),
                    game@.wf(),
                decreases data@.len() - i,
            {
                let id = data[i];
                if id != game.get_my_snek_id() {
                    if game.can_spawn(id) && game.get_snek_count() < MAX_PLAYERS {
                        let _ = game.spawn_snek(id);
                    }
                }
                i = i + 1;
                proof {
                    assert(game@ == spec_spawn_mirrors(g0, data@, i as int));
                }
            }
            false
        },
        MessageType::StartEvent => {
            game.start_game();
            proof {
                lemma_wf_direction_only(g0, game@);
            }
            true
        },
        MessageType::MoveEvent => {
            let pairs = data.len() / 2;
            let mut p: usize = 0;
            while p < pairs
                invariant
                    p <= pairs,
                    pairs == data@.len() / 2,
                    2 * pairs <= usize::MAX,
                    game@ == spec_apply_moves(g0, data@, p as int),
                    game@.wf(),
                decreases pairs - p,
            {
                proof {
                    assert(2 * (p as int) + 1 < data@.len());
                }
                let id = data[2 * p];
                let dir_byte = data[2 * p + 1];
                match direction_from_byte(dir_byte) {
                    Some(d) => {
                        game.move_snek(id, d);
                    },
                    None => {},
                }
                p = p + 1;
                proof {
                    assert(game@ == spec_apply_moves(g0, data@, p as int));
                }
            }
            true
        },
        MessageType::EndEvent => {
            if data.len() < 1 {
                return false;
            }
            game.end_game();
            proof {
                lemma_wf_direction_only(g0, game@);
            }
            false
        },
        _ => false,
    }
}

} // verus!
