//! The server-side session state machine: join admission and id
//! assignment, game start, per-tick move aggregation behind a lockstep
//! barrier, and game end.
//!
//! The transport is kept outside: a peer is named by an opaque address
//! token the caller assigns per remote address, an inbound packet arrives
//! here as its raw bytes, and every reply or broadcast leaves as an
//! [`OutMessage`] the caller puts on the wire.

use vstd::prelude::*;
use crate::codec;
use crate::shared::GameResult;
use crate::shared::MessageType;
use crate::shared::SnekId;
use crate::shared::StreamId;
use crate::shared::INVALID_ID;
use crate::shared::MAX_PLAYERS;
use crate::shared::game_result_byte;
use crate::shared::spec_game_result_byte;

verus! {

/// One joined player: the address token the transport knows it by, its
/// assigned id, and the move it has submitted since joining, if any.
/// "No move yet" is an explicit `None`, never a sentinel byte.
#[derive(Clone, Copy)]
pub struct Peer {
    pub addr: u64,
    pub id: SnekId,
    pub pending_move: Option<u8>,
}

/// A message the session asks the transport to deliver.
pub struct OutMessage {
    pub addr: u64,
    pub stream: StreamId,
    pub bytes: Vec<u8>,
}

/// Mathematical model of an `OutMessage`.
pub struct OutMsgView {
    pub addr: u64,
    pub stream: StreamId,
    pub bytes: Seq<u8>,
}

impl View for OutMessage {
    type V = OutMsgView;

    open spec fn view(&self) -> OutMsgView {
        OutMsgView { addr: self.addr, stream: self.stream, bytes: self.bytes@ }
    }
}

/// The session: every joined peer in join order, and whether the game is
/// running.
pub struct ServerState {
    pub peers: Vec<Peer>,
    pub game_started: bool,
}

/// Mathematical model of a `ServerState`.
pub struct ServerView {
    pub peers: Seq<Peer>,
    pub game_started: bool,
}

impl View for ServerState {
    type V = ServerView;

    open spec fn view(&self) -> ServerView {
        ServerView { peers: self.peers@, game_started: self.game_started }
    }
}

/// First peer index with this address token, or -1 when none has it.
pub open spec fn spec_find_peer(peers: Seq<Peer>, addr: u64) -> int
    decreases peers.len(),
{
    if peers.len() == 0 {
        -1
    } else if peers[0].addr == addr {
        0
    } else {
        let r = spec_find_peer(peers.drop_first(), addr);
        if r == -1 {
            -1
        } else {
            r + 1
        }
    }
}

/// `spec_find_peer` finds the first match: -1 exactly when no peer has the
/// address, and otherwise the least index that does.
pub proof fn lemma_find_peer(peers: Seq<Peer>, addr: u64)
    ensures
        spec_find_peer(peers, addr) == -1 ==> forall|k: int|
            0 <= k < peers.len() ==> peers[k].addr != addr,
        spec_find_peer(peers, addr) != -1 ==> {
            &&& 0 <= spec_find_peer(peers, addr) < peers.len()
            &&& peers[spec_find_peer(peers, addr)].addr == addr
            &&& forall|k: int|
                0 <= k < spec_find_peer(peers, addr) ==> peers[k].addr != addr
        },
    decreases peers.len(),
{
    if peers.len() == 0 {
    } else if peers[0].addr == addr {
    } else {
        lemma_find_peer(peers.drop_first(), addr);
        assert(forall|k: int|
            1 <= k < peers.len() ==> peers[k] == peers.drop_first()[k - 1]);
    }
}

/// The ids of all joined peers, in join order.
pub open spec fn spec_ids(peers: Seq<Peer>) -> Seq<SnekId> {
    Seq::new(peers.len(), |k: int| peers[k].id)
}

impl ServerView {
    /// The session's invariant: never over capacity, ids assigned
    /// sequentially from 1 in join order (so ids are nonzero and unique),
    /// and one seat per address.
    pub open spec fn wf(self) -> bool {
        &&& self.peers.len() <= MAX_PLAYERS
        &&& forall|k: int| 0 <= k < self.peers.len() ==> #[trigger] self.peers[k].id == k + 1
        &&& forall|k1: int, k2: int|
            0 <= k1 < k2 < self.peers.len() ==> #[trigger] self.peers[k1].addr
                != #[trigger] self.peers[k2].addr
    }
}

/// The heartbeat reply sent to keep a peer's connection alive.
pub open spec fn spec_heartbeat_msg(addr: u64) -> OutMsgView {
    OutMsgView {
        addr,
        stream: StreamId::Heartbeat,
        bytes: codec::spec_encode(MessageType::Heartbeat, Seq::empty()),
    }
}

/// The id broadcast and start signal sent to the first `n` peers when the
/// session fills: each gets every id, then the start order.
pub open spec fn spec_start_msgs(peers: Seq<Peer>, n: int) -> Seq<OutMsgView>
    decreases n,
{
    if n <= 0 {
        Seq::empty()
    } else {
        spec_start_msgs(peers, n - 1) + seq![
            OutMsgView {
                addr: peers[n - 1].addr,
                stream: StreamId::Event,
                bytes: codec::spec_encode(MessageType::BroadcastIdsEvent, spec_ids(peers)),
            },
            OutMsgView {
                addr: peers[n - 1].addr,
                stream: StreamId::Event,
                bytes: codec::spec_encode(MessageType::StartEvent, Seq::empty()),
            },
        ]
    }
}

/// What a Join from `sender` does: rejected in silence when the session is
/// full or the address already holds a seat; otherwise the next sequential
/// id is assigned and sent back, and the join that fills the session also
/// starts the game, broadcasting all ids and the start order to every
/// peer.
pub open spec fn spec_join(s: ServerView, sender: u64) -> (ServerView, Seq<OutMsgView>) {
    if s.peers.len() >= MAX_PLAYERS {
        (s, Seq::empty())
    } else if spec_find_peer(s.peers, sender) != -1 {
        (s, Seq::empty())
    } else {
        let id = (s.peers.len() + 1) as SnekId;
        let peers2 = s.peers.push(Peer { addr: sender, id, pending_move: None });
        let assign = OutMsgView {
            addr: sender,
            stream: StreamId::Event,
            bytes: codec::spec_encode(MessageType::AssignIdEvent, seq![id]),
        };
        if peers2.len() == MAX_PLAYERS {
            (
                ServerView { peers: peers2, game_started: true },
                seq![assign] + spec_start_msgs(peers2, peers2.len() as int),
            )
        } else {
            (ServerView { peers: peers2, ..s }, seq![assign])
        }
    }
}

/// What a Move from `sender` does: dropped in silence when the sender
/// holds no seat, the payload is too short to carry `[id, move]`, or the
/// claimed id does not match the seat's id (a spoofed or misrouted
/// packet); otherwise the move byte is recorded as the seat's latest and
/// the sender is kept alive with a heartbeat.
pub open spec fn spec_move(s: ServerView, sender: u64, data: Seq<u8>) -> (
    ServerView,
    Seq<OutMsgView>,
) {
    let k = spec_find_peer(s.peers, sender);
    if k == -1 {
        (s, Seq::empty())
    } else if data.len() < 2 {
        (s, Seq::empty())
    } else if s.peers[k].id != data[0] {
        (s, Seq::empty())
    } else {
        (
            ServerView {
                peers: s.peers.update(k, Peer { pending_move: Some(data[1]), ..s.peers[k] }),
                ..s
            },
            seq![spec_heartbeat_msg(sender)],
        )
    }
}

/// The End message each of the first `n` peers receives: `[Tie, invalid]`
/// for everyone when there is no winner, else `[Win, winner]` to the
/// winner's seat and `[Loss, winner]` to every other.
pub open spec fn spec_end_msgs(peers: Seq<Peer>, winner: Option<SnekId>, n: int) -> Seq<
    OutMsgView,
>
    decreases n,
{
    if n <= 0 {
        Seq::empty()
    } else {
        let payload = match winner {
            None => seq![spec_game_result_byte(GameResult::Tie), INVALID_ID],
            Some(w) => if peers[n - 1].id == w {
                seq![spec_game_result_byte(GameResult::Win), w]
            } else {
                seq![spec_game_result_byte(GameResult::Loss), w]
            },
        };
        spec_end_msgs(peers, winner, n - 1) + seq![
            OutMsgView {
                addr: peers[n - 1].addr,
                stream: StreamId::Event,
                bytes: codec::spec_encode(MessageType::EndEvent, payload),
            },
        ]
    }
}

/// What a Death report does once the game runs: an empty payload is a tie
/// and a one-byte payload names the lone survivor, either of which ends
/// the game and tells every peer its result; a longer payload is an
/// informational still-alive report and changes nothing. Before the game
/// starts the report is dropped.
pub open spec fn spec_death(s: ServerView, data: Seq<u8>) -> (ServerView, Seq<OutMsgView>) {
    if !s.game_started {
        (s, Seq::empty())
    } else if data.len() == 0 {
        (
            ServerView { game_started: false, ..s },
            spec_end_msgs(s.peers, None, s.peers.len() as int),
        )
    } else if data.len() == 1 {
        (
            ServerView { game_started: false, ..s },
            spec_end_msgs(s.peers, Some(data[0]), s.peers.len() as int),
        )
    } else {
        (s, Seq::empty())
    }
}

/// What one inbound buffer does to the session: nothing at all when the
/// codec rejects it, else the action of its message type. A Heartbeat is
/// answered with a Heartbeat in any state; message kinds the server never
/// consumes are dropped.
pub open spec fn spec_handle(s: ServerView, sender: u64, bytes: Seq<u8>) -> (
    ServerView,
    Seq<OutMsgView>,
) {
    match codec::spec_decode(bytes) {
        None => (s, Seq::empty()),
        Some(decoded) => {
            let t = decoded.0;
            let data = decoded.1;
            match t {
                MessageType::JoinEvent => spec_join(s, sender),
                MessageType::Heartbeat => (s, seq![spec_heartbeat_msg(sender)]),
                MessageType::MoveEvent => spec_move(s, sender, data),
                MessageType::DeathEvent => spec_death(s, data),
                _ => (s, Seq::empty()),
            }
        },
    }
}

/// The payload of a lockstep Move broadcast: every seat's `[id, move]`
/// pair in join order, defined for the first `n` peers once all moves are
/// in.
pub open spec fn spec_move_payload(peers: Seq<Peer>, n: int) -> Seq<u8>
    decreases n,
{
    if n <= 0 {
        Seq::empty()
    } else {
        spec_move_payload(peers, n - 1) + seq![
            peers[n - 1].id,
            peers[n - 1].pending_move.unwrap(),
        ]
    }
}

/// Every joined peer has submitted a move since joining.
pub open spec fn spec_all_moves_in(peers: Seq<Peer>) -> bool {
    forall|k: int| 0 <= k < peers.len() ==> (#[trigger] peers[k].pending_move) is Some
}

/// What the periodic tick broadcasts: nothing while the game is not
/// running or any peer's move is still missing (the lockstep barrier);
/// once all moves are in, one Move message carrying every `[id, move]`
/// pair goes to every peer.
pub open spec fn spec_broadcast(s: ServerView) -> Seq<OutMsgView> {
    if !s.game_started || !spec_all_moves_in(s.peers) {
        Seq::empty()
    } else {
        Seq::new(
            s.peers.len(),
            |k: int|
                OutMsgView {
                    addr: s.peers[k].addr,
                    stream: StreamId::Move,
                    bytes: codec::spec_encode(
                        MessageType::MoveEvent,
                        spec_move_payload(s.peers, s.peers.len() as int),
                    ),
                },
        )
    }
}

/// The models of a batch of outgoing messages.
pub open spec fn out_views(msgs: Seq<OutMessage>) -> Seq<OutMsgView> {
    msgs.map_values(|m: OutMessage| m@)
}

/// A Move whose claimed id does not match the sender's seat changes no
/// session state and is answered with silence: not even a heartbeat.
pub proof fn lemma_move_id_mismatch(s: ServerView, sender: u64, bytes: Seq<u8>, data: Seq<u8>)
    requires
        codec::spec_decode(bytes) == Some((MessageType::MoveEvent, data)),
        0 <= spec_find_peer(s.peers, sender) < s.peers.len(),
        data.len() >= 2,
        s.peers[spec_find_peer(s.peers, sender)].id != data[0],
    ensures
        spec_handle(s, sender, bytes).0 == s,
        spec_handle(s, sender, bytes).1.len() == 0,
{
}

impl ServerState {
    /// A fresh session: empty and waiting for players.
    pub fn new() -> (r: ServerState)
        ensures
            r@.peers.len() == 0,
            !r@.game_started,
            r@.wf(),
    {
        ServerState { peers: Vec::new(), game_started: false }
    }

    /// How many players hold a seat.
    pub fn get_snek_count(&self) -> (r: usize)
        ensures
            r == self@.peers.len(),
    {
        self.peers.len()
    }

    /// The id the next admitted player receives: one past the last
    /// assigned, starting at 1.
    pub fn get_next_id(&self) -> (r: SnekId)
        requires
            self@.wf(),
            self@.peers.len() < MAX_PLAYERS,
        ensures
            r == self@.peers.len() + 1,
    {
        let length = self.get_snek_count();
        if length == 0 {
            1
        } else {
            self.peers[length - 1].id + 1
        }
    }

    /// Seat a player: link the address token to the assigned id, with no
    /// move submitted yet.
    pub fn link_snek(&mut self, address: u64, id: SnekId)
        ensures
            final(self)@.peers == old(self)@.peers.push(
                Peer { addr: address, id, pending_move: None },
            ),
            final(self)@.game_started == old(self)@.game_started,
    {
        self.peers.push(Peer { addr: address, id, pending_move: None });
    }

    /// Flip the session to running.
    pub fn start_game(&mut self)
        ensures
            final(self)@ == (ServerView { game_started: true, ..old(self)@ }),
    {
        self.game_started = true;
    }

    /// Flip the session to ended.
    pub fn end_game(&mut self)
        ensures
            final(self)@ == (ServerView { game_started: false, ..old(self)@ }),
    {
        self.game_started = false;
    }

    /// The position of the seat held by this address token, if any.
    fn find_peer(&self, addr: u64) -> (r: Option<usize>)
        ensures
            match r {
                Some(k) => k < self@.peers.len() && spec_find_peer(self@.peers, addr) == k as int,
                None => spec_find_peer(self@.peers, addr) == -1,
            },
    {
        let mut k: usize = 0;
        while k < self.peers.len()
            invariant
                k <= self.peers@.len(),
                forall|j: int| 0 <= j < k ==> #[trigger] self.peers@[j].addr != addr,
            decreases self.peers@.len() - k,
        {
            if self.peers[k].addr == addr {
                proof {
                    lemma_find_peer(self@.peers, addr);
                    let f = spec_find_peer(self@.peers, addr);
                    assert(f != -1);
                    if f < k as int {
                        assert(self.peers@[f].addr != addr);
                        assert(false);
                    }
                    if f > k as int {
                        assert(self.peers@[k as int].addr != addr);
                        assert(false);
                    }
                }
                return Some(k);
            }
            k = k + 1;
        }
        proof {
            lemma_find_peer(self@.peers, addr);
            let f = spec_find_peer(self@.peers, addr);
            if f != -1 {
                assert(self.peers@[f].addr != addr);
                assert(false);
            }
        }
        None
    }

    /// Every seat's id, in join order.
    fn collect_ids(&self) -> (r: Vec<SnekId>)
        ensures
            r@ == spec_ids(self@.peers),
    {
        let mut r: Vec<SnekId> = Vec::new();
        let mut k: usize = 0;
        while k < self.peers.len()
            invariant
                k <= self.peers@.len(),
                r@ == spec_ids(self.peers@).subrange(0, k as int),
            decreases self.peers@.len() - k,
        {
            r.push(self.peers[k].id);
            k = k + 1;
            proof {
                assert(r@ =~= spec_ids(self.peers@).subrange(0, k as int));
            }
        }
        proof {
            assert(r@ =~= spec_ids(self.peers@));
        }
        r
    }
}

/// React to one inbound packet: check and strip the envelope, and perform
/// the action of its message type on the session, handing back whatever
/// must go on the wire. A rejected buffer, an unknown sender where a seat
/// is required, a short payload, or a mismatched move id is dropped in
/// silence; no inbound packet ever brings the session down.
pub fn handle_packet(state: &mut ServerState, sender: u64, bytes: &Vec<u8>) -> (out: Vec<
    OutMessage,
>)
    requires
        old(state)@.wf(),
    ensures
        final(state)@.wf(),
        final(state)@ == spec_handle(old(state)@, sender, bytes@).0,
        out_views(out@) == spec_handle(old(state)@, sender, bytes@).1,
{
    let ghost s0 = state@;
    let mut out: Vec<OutMessage> = Vec::new();
    proof {
        assert(out_views(out@) =~= Seq::<OutMsgView>::empty());
    }
    let decoded = codec::decode(bytes);
    let (t, data) = match decoded {
        None => {
            return out;
        },
        Some(td) => td,
    };
    match t {
        MessageType::JoinEvent => {
            if state.get_snek_count() >= MAX_PLAYERS {
                return out;
            }
            match state.find_peer(sender) {
                Some(_) => {
                    return out;
                },
                None => {},
            }
            proof {
                lemma_find_peer(s0.peers, sender);
            }
            let id = state.get_next_id();
            state.link_snek(sender, id);
            proof {
                assert(state@.peers == s0.peers.push(
                    Peer { addr: sender, id, pending_move: None },
                ));
                assert forall|k1: int, k2: int|
                    0 <= k1 < k2 < state@.peers.len() implies #[trigger] state@.peers[k1].addr
                    != #[trigger] state@.peers[k2].addr by {
                    if k2 == state@.peers.len() - 1 {
                        assert(state@.peers[k1] == s0.peers[k1]);
                        assert(s0.peers[k1].addr != sender);
                    }
                }
                assert(state@.wf());
            }
            let mut id_payload: Vec<u8> = Vec::new();
            id_payload.push(id);
            let assign = OutMessage {
                addr: sender,
                stream: StreamId::Event,
                bytes: codec::encode(MessageType::AssignIdEvent, &id_payload),
            };
            proof {
                assert(id_payload@ =~= seq![id]);
            }
            out.push(assign);
            let ghost assign_view = OutMsgView {
                addr: sender,
                stream: StreamId::Event,
                bytes: codec::spec_encode(MessageType::AssignIdEvent, seq![id]),
            };
            proof {
                assert(out_views(out@) =~= seq![assign_view]);
            }
            if state.get_snek_count() == MAX_PLAYERS {
                state.start_game();
                let ghost peers2 = state@.peers;
                let ids_vec = state.collect_ids();
                let empty_payload: Vec<u8> = Vec::new();
                let mut k: usize = 0;
                proof {
                    assert(out_views(out@) =~= seq![assign_view] + spec_start_msgs(peers2, 0));
                }
                while k < state.peers.len()
                    invariant
                        k <= state.peers@.len(),
                        state@.peers == peers2,
                        ids_vec@ == spec_ids(peers2),
                        empty_payload@ == Seq::<u8>::empty(),
                        out_views(out@) == seq![assign_view] + spec_start_msgs(
                            peers2,
                            k as int,
                        ),
                    decreases state.peers@.len() - k,
                {
                    let ghost pre = out@;
                    let addr = state.peers[k].addr;
                    let m1 = OutMessage {
                        addr,
                        stream: StreamId::Event,
                        bytes: codec::encode(MessageType::BroadcastIdsEvent, &ids_vec),
                    };
                    let ghost m1v = m1@;
                    out.push(m1);
                    let m2 = OutMessage {
                        addr,
                        stream: StreamId::Event,
                        bytes: codec::encode(MessageType::StartEvent, &empty_payload),
                    };
                    let ghost m2v = m2@;
                    out.push(m2);
                    k = k + 1;
                    proof {
                        let rhs = seq![assign_view] + spec_start_msgs(peers2, k as int);
                        assert(out@ == pre.push(m1).push(m2));
                        assert(out@.len() == pre.len() + 2);
                        assert(out_views(out@).len() == out@.len());
                        assert(out_views(pre).len() == pre.len());
                        assert(pre.len() == 1 + spec_start_msgs(peers2, k - 1).len());
                        assert(m1v == (OutMsgView {
                            addr: peers2[k - 1].addr,
                            stream: StreamId::Event,
                            bytes: codec::spec_encode(
                                MessageType::BroadcastIdsEvent,
                                spec_ids(peers2),
                            ),
                        }));
                        assert(m2v == (OutMsgView {
                            addr: peers2[k - 1].addr,
                            stream: StreamId::Event,
                            bytes: codec::spec_encode(MessageType::StartEvent, Seq::empty()),
                        }));
                        assert(spec_start_msgs(peers2, k as int) == spec_start_msgs(
                            peers2,
                            k - 1,
                        ) + seq![m1v, m2v]);
                        assert forall|i: int| 0 <= i < rhs.len() implies out_views(out@)[i]
                            == rhs[i] by {
                            assert(out_views(out@)[i] == out@[i]@);
                            if i < pre.len() {
                                assert(out@[i] == pre[i]);
                                assert(out_views(pre)[i] == pre[i]@);
                            } else if i == pre.len() {
                                assert(out@[i] == m1);
                            } else {
                                assert(out@[i] == m2);
                            }
                        }
                        assert(out_views(out@) =~= rhs);
                    }
                }
                proof {
                    assert(out_views(out@) == spec_handle(s0, sender, bytes@).1);
                }
            }
            out
        },
        MessageType::Heartbeat => {
            let empty_payload: Vec<u8> = Vec::new();
            out.push(
                OutMessage {
                    addr: sender,
                    stream: StreamId::Heartbeat,
                    bytes: codec::encode(MessageType::Heartbeat, &empty_payload),
                },
            );
            proof {
                assert(out_views(out@) =~= seq![spec_heartbeat_msg(sender)]);
            }
            out
        },
        MessageType::MoveEvent => {
            let k = match state.find_peer(sender) {
                None => {
                    return out;
                },
                Some(k) => k,
            };
            if data.len() < 2 {
                return out;
            }
            if state.peers[k].id != data[0] {
                return out;
            }
            let mut p = state.peers[k];
            p.pending_move = Some(data[1]);
            self_update_peer(state, k, p);
            proof {
                assert(state@.peers == s0.peers.update(
                    k as int,
                    (Peer { pending_move: Some(data@[1]), ..s0.peers[k as int] }),
                ));
                assert forall|j: int| 0 <= j < state@.peers.len() implies #[trigger] state@.peers[j].id
                    == j + 1 by {
                    if j != k as int {
                        assert(state@.peers[j] == s0.peers[j]);
                    }
                }
                assert(state@.wf());
            }
            let empty_payload: Vec<u8> = Vec::new();
            out.push(
                OutMessage {
                    addr: sender,
                    stream: StreamId::Heartbeat,
                    bytes: codec::encode(MessageType::Heartbeat, &empty_payload),
                },
            );
            proof {
                assert(out_views(out@) =~= seq![spec_heartbeat_msg(sender)]);
            }
            out
        },
        MessageType::DeathEvent => {
            if !state.game_started {
                return out;
            }
            if data.len() == 0 {
                state.end_game();
                let ghost peers0 = state@.peers;
                let mut k: usize = 0;
                proof {
                    assert(out_views(out@) =~= spec_end_msgs(peers0, None, 0));
                }
                while k < state.peers.len()
                    invariant
                        k <= state.peers@.len(),
                        state@.peers == peers0,
                        out_views(out@) == spec_end_msgs(peers0, None, k as int),
                    decreases state.peers@.len() - k,
                {
                    let addr = state.peers[k].addr;
                    let mut payload: Vec<u8> = Vec::new();
                    payload.push(game_result_byte(GameResult::Tie));
                    payload.push(INVALID_ID);
                    proof {
                        assert(payload@ =~= seq![
                            spec_game_result_byte(GameResult::Tie),
                            INVALID_ID,
                        ]);
                    }
                    out.push(
                        OutMessage {
                            addr,
                            stream: StreamId::Event,
                            bytes: codec::encode(MessageType::EndEvent, &payload),
                        },
                    );
                    k = k + 1;
                    proof {
                        assert(out_views(out@) =~= spec_end_msgs(peers0, None, k as int));
                    }
                }
                out
            } else if data.len() == 1 {
                let winner = data[0];
                state.end_game();
                let ghost peers0 = state@.peers;
                let mut k: usize = 0;
                proof {
                    assert(out_views(out@) =~= spec_end_msgs(peers0, Some(winner), 0));
                }
                while k < state.peers.len()
                    invariant
                        k <= state.peers@.len(),
                        state@.peers == peers0,
                        out_views(out@) == spec_end_msgs(peers0, Some(winner), k as int),
                    decreases state.peers@.len() - k,
                {
                    let addr = state.peers[k].addr;
                    let mut payload: Vec<u8> = Vec::new();
                    if state.peers[k].id == winner {
                        payload.push(game_result_byte(GameResult::Win));
                    } else {
                        payload.push(game_result_byte(GameResult::Loss));
                    }
                    payload.push(winner);
                    proof {
                        if peers0[k as int].id == winner {
                            assert(payload@ =~= seq![
                                spec_game_result_byte(GameResult::Win),
                                winner,
                            ]);
                        } else {
                            assert(payload@ =~= seq![
                                spec_game_result_byte(GameResult::Loss),
                                winner,
                            ]);
                        }
                    }
                    out.push(
                        OutMessage {
                            addr,
                            stream: StreamId::Event,
                            bytes: codec::encode(MessageType::EndEvent, &payload),
                        },
                    );
                    k = k + 1;
                    proof {
                        assert(out_views(out@) =~= spec_end_msgs(peers0, Some(winner), k as int));
                    }
                }
                out
            } else {
                // An informational still-alive report: noted, nothing done.
                out
            }
        },
        _ => out,
    }
}

/// Replace one seat's record.
fn self_update_peer(state: &mut ServerState, k: usize, p: Peer)
    requires
        k < old(state)@.peers.len(),
    ensures
        final(state)@.peers == old(state)@.peers.update(k as int, p),
        final(state)@.game_started == old(state)@.game_started,
{
    state.peers.set(k, p);
}

/// The periodic lockstep broadcast: once the game runs and every seat has
/// a move on file, every peer receives one Move message with all
/// `[id, move]` pairs in join order; otherwise nothing leaves (the
/// lockstep barrier waits for the missing moves).
pub fn broadcast_moves(state: &ServerState) -> (out: Vec<OutMessage>)
    ensures
        out_views(out@) == spec_broadcast(state@),
{
    let mut out: Vec<OutMessage> = Vec::new();
    proof {
        assert(out_views(out@) =~= Seq::<OutMsgView>::empty());
    }
    if !state.game_started {
        return out;
    }
    let mut payload: Vec<u8> = Vec::new();
    let mut k: usize = 0;
    while k < state.peers.len()
        invariant
            k <= state.peers@.len(),
            payload@ == spec_move_payload(state@.peers, k as int),
            forall|j: int|
                0 <= j < k ==> (#[trigger] state@.peers[j].pending_move) is Some,
        decreases state.peers@.len() - k,
    {
        match state.peers[k].pending_move {
            None => {
                proof {
                    assert(!spec_all_moves_in(state@.peers));
                }
                let empty_out: Vec<OutMessage> = Vec::new();
                proof {
                    assert(out_views(empty_out@) =~= Seq::<OutMsgView>::empty());
                }
                return empty_out;
            },
            Some(mv) => {
                payload.push(state.peers[k].id);
                payload.push(mv);
            },
        }
        k = k + 1;
        proof {
            assert(payload@ =~= spec_move_payload(state@.peers, k as int));
        }
    }
    let ghost full_payload = spec_move_payload(state@.peers, state@.peers.len() as int);
    let mut k2: usize = 0;
    proof {
        assert(spec_all_moves_in(state@.peers));
        assert(out_views(out@) =~= spec_broadcast(state@).subrange(0, 0));
    }
    while k2 < state.peers.len()
        invariant
            k2 <= state.peers@.len(),
            state@.game_started,
            spec_all_moves_in(state@.peers),
            payload@ == spec_move_payload(state@.peers, state@.peers.len() as int),
            out_views(out@) == spec_broadcast(state@).subrange(0, k2 as int),
        decreases state.peers@.len() - k2,
    {
        let ghost pre = out@;
        let m = OutMessage {
            addr: state.peers[k2].addr,
            stream: StreamId::Move,
            bytes: codec::encode(MessageType::MoveEvent, &payload),
        };
        let ghost mv = m@;
        out.push(m);
        k2 = k2 + 1;
        proof {
            let rhs = spec_broadcast(state@).subrange(0, k2 as int);
            assert(out@ == pre.push(m));
            assert(out@.len() == pre.len() + 1);
            assert(out_views(out@).len() == out@.len());
            assert(out_views(pre).len() == pre.len());
            assert(pre.len() == k2 - 1);
            assert(mv == spec_broadcast(state@)[k2 - 1]);
            assert forall|i: int| 0 <= i < rhs.len() implies out_views(out@)[i] == rhs[i] by {
                assert(out_views(out@)[i] == out@[i]@);
                if i < pre.len() {
                    assert(out@[i] == pre[i]);
                    assert(out_views(pre)[i] == pre[i]@);
                } else {
                    assert(out@[i] == m);
                }
            }
            assert(out_views(out@) =~= rhs);
        }
    }
    proof {
        assert(out_views(out@) =~= spec_broadcast(state@));
    }
    out
}

} // verus!
