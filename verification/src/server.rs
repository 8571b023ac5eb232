//! The authoritative server core: routes inbound player messages into
//! session-store and highscore mutations, builds the interest-filtered
//! snapshot broadcasts, and runs the liveness reaper. The core never touches
//! a socket: every message it wants sent comes back to the caller as an
//! [`Outbound`] action.

use vstd::prelude::*;

use crate::highscore::{accept, accept_spec, accepts};
use crate::session::{
    evicted_ids, has_id, index_of, survivors, Session, SessionStore,
};
use crate::wire::{Highscore, PlayerMessage, PlayerMovedUpdate, PlayerMovement, ServerMessage};

verus! {

/// A transport action the server core asks its caller to perform.
#[derive(Debug, Clone, PartialEq, Eq)]
pub enum Outbound {
    /// Send `message` to the one client `to`.
    Send { to: u64, message: ServerMessage },
    /// Send `message` to every currently connected client.
    Broadcast { message: ServerMessage },
    /// Forcibly disconnect `client_id` at the transport.
    Disconnect { client_id: u64 },
}

/// The snapshot built for `recipient` from the session table: one entry per
/// session in store order, excluding the recipient's own session.
pub open spec fn snapshot_for(s: Seq<Session>, recipient: u64) -> Seq<PlayerMovedUpdate>
    decreases s.len(),
{
    if s.len() == 0 {
        Seq::empty()
    } else {
        let rest = snapshot_for(s.drop_first(), recipient);
        if s[0].client_id == recipient {
            rest
        } else {
            seq![PlayerMovedUpdate { id: s[0].client_id, movement: s[0].movement }] + rest
        }
    }
}

/// `snapshot_for` over a sequence extended at the end.
pub proof fn lemma_snapshot_snoc(s: Seq<Session>, x: Session, recipient: u64)
    ensures
        snapshot_for(s + seq![x], recipient) == if x.client_id == recipient {
            snapshot_for(s, recipient)
        } else {
            snapshot_for(s, recipient) + seq![
                PlayerMovedUpdate { id: x.client_id, movement: x.movement },
            ]
        },
    decreases s.len(),
{
    let whole = s + seq![x];
    if s.len() == 0 {
        assert(whole.drop_first() =~= s);
        assert(whole[0] == x);
        assert(snapshot_for(whole.drop_first(), recipient) == Seq::<PlayerMovedUpdate>::empty());
        if x.client_id == recipient {
            assert(snapshot_for(whole, recipient) =~= snapshot_for(s, recipient));
        } else {
            assert(snapshot_for(whole, recipient) =~= snapshot_for(s, recipient) + seq![
                PlayerMovedUpdate { id: x.client_id, movement: x.movement },
            ]);
        }
    } else {
        assert(whole[0] == s[0]);
        assert(whole.drop_first() =~= s.drop_first() + seq![x]);
        lemma_snapshot_snoc(s.drop_first(), x, recipient);
        if x.client_id != recipient && s[0].client_id != recipient {
            let head = PlayerMovedUpdate { id: s[0].client_id, movement: s[0].movement };
            let tail = PlayerMovedUpdate { id: x.client_id, movement: x.movement };
            assert(seq![head] + (snapshot_for(s.drop_first(), recipient) + seq![tail]) =~= (seq![
                head,
            ] + snapshot_for(s.drop_first(), recipient)) + seq![tail]);
        }
    }
}

/// Law: a snapshot built for a recipient never contains the recipient's own
/// id.
pub proof fn lemma_snapshot_excludes_recipient(s: Seq<Session>, recipient: u64)
    ensures
        forall|k: int|
            0 <= k < snapshot_for(s, recipient).len() ==> snapshot_for(s, recipient)[k].id
                != recipient,
    decreases s.len(),
{
    if s.len() > 0 {
        lemma_snapshot_excludes_recipient(s.drop_first(), recipient);
        let snap = snapshot_for(s, recipient);
        let rest = snapshot_for(s.drop_first(), recipient);
        assert forall|k: int| 0 <= k < snap.len() implies snap[k].id != recipient by {
            if s[0].client_id == recipient {
                assert(snap[k] == rest[k]);
            } else if k > 0 {
                assert(snap[k] == rest[k - 1]);
            }
        }
    }
}

/// The session table after a join has been routed: a fresh session for the
/// id, overwriting any session the id already had.
pub open spec fn join_spec(s: Seq<Session>, client_id: u64, movement: PlayerMovement) -> Seq<
    Session,
> {
    let fresh = Session { client_id, movement, inactive_millis: 0 };
    if has_id(s, client_id) {
        s.update(index_of(s, client_id), fresh)
    } else {
        s.push(fresh)
    }
}

/// The session table after a movement update has been routed: the session
/// is overwritten with a reset timer if one exists, and the update is
/// silently dropped otherwise.
pub open spec fn move_spec(s: Seq<Session>, client_id: u64, movement: PlayerMovement) -> Seq<
    Session,
> {
    if has_id(s, client_id) {
        s.update(
            index_of(s, client_id),
            Session { client_id, movement, inactive_millis: 0 },
        )
    } else {
        s
    }
}

/// The session table after a leave has been routed.
pub open spec fn leave_spec(s: Seq<Session>, client_id: u64) -> Seq<Session> {
    if has_id(s, client_id) {
        s.remove(index_of(s, client_id))
    } else {
        s
    }
}

/// What routing one message does: the session table and highscore record
/// afterwards, and the transport actions it emits.
#[verifier::ext_equal]
pub struct RouteEffect {
    pub sessions: Seq<Session>,
    pub record: Highscore,
    pub out: Seq<Outbound>,
}

/// The router, as a function of the authoritative state and one inbound
/// message.
pub open spec fn route_spec(
    sessions: Seq<Session>,
    record: Highscore,
    client_id: u64,
    message: PlayerMessage,
) -> RouteEffect {
    match message {
        PlayerMessage::Ping => RouteEffect {
            sessions,
            record,
            out: seq![(Outbound::Send { to: client_id, message: ServerMessage::Pong })],
        },
        PlayerMessage::JoinGame(m) => RouteEffect {
            sessions: join_spec(sessions, client_id, m),
            record,
            out: seq![
                (Outbound::Send {
                    to: client_id,
                    message: ServerMessage::InformAboutHighscore(record),
                }),
            ],
        },
        PlayerMessage::PlayerMoved(m) => RouteEffect {
            sessions: move_spec(sessions, client_id, m),
            record,
            out: Seq::empty(),
        },
        PlayerMessage::RequestPossibleHighscore(h) => {
            let new_record = Highscore {
                time_in_seconds: accept_spec(record.time_in_seconds, h.time_in_seconds),
            };
            RouteEffect {
                sessions,
                record: new_record,
                out: if accepts(record.time_in_seconds, h.time_in_seconds) {
                    seq![
                        (Outbound::Broadcast {
                            message: ServerMessage::InformAboutHighscore(new_record),
                        }),
                    ]
                } else {
                    Seq::empty()
                },
            }
        },
        PlayerMessage::LeaveGame => RouteEffect {
            sessions: leave_spec(sessions, client_id),
            record,
            out: Seq::empty(),
        },
    }
}

/// The router over a whole drained queue of one client's messages, in
/// arrival order, concatenating the emitted actions.
pub open spec fn route_all_spec(
    sessions: Seq<Session>,
    record: Highscore,
    client_id: u64,
    messages: Seq<PlayerMessage>,
) -> RouteEffect
    decreases messages.len(),
{
    if messages.len() == 0 {
        RouteEffect { sessions, record, out: Seq::empty() }
    } else {
        let first = route_spec(sessions, record, client_id, messages[0]);
        let rest = route_all_spec(first.sessions, first.record, client_id, messages.drop_first());
        RouteEffect { sessions: rest.sessions, record: rest.record, out: first.out + rest.out }
    }
}

/// `route_all_spec` over a queue extended at the end.
pub proof fn lemma_route_all_snoc(
    sessions: Seq<Session>,
    record: Highscore,
    client_id: u64,
    messages: Seq<PlayerMessage>,
    m: PlayerMessage,
)
    ensures
        route_all_spec(sessions, record, client_id, messages.push(m)) == ({
            let mid = route_all_spec(sessions, record, client_id, messages);
            let last = route_spec(mid.sessions, mid.record, client_id, m);
            RouteEffect {
                sessions: last.sessions,
                record: last.record,
                out: mid.out + last.out,
            }
        }),
    decreases messages.len(),
{
    let whole = messages.push(m);
    if messages.len() == 0 {
        assert(whole[0] == m);
        assert(whole.drop_first() =~= Seq::<PlayerMessage>::empty());
        let first = route_spec(sessions, record, client_id, m);
        assert(route_all_spec(first.sessions, first.record, client_id, whole.drop_first())
            == (RouteEffect {
            sessions: first.sessions,
            record: first.record,
            out: Seq::empty(),
        }));
        assert(route_all_spec(sessions, record, client_id, whole) =~= (RouteEffect {
            sessions: first.sessions,
            record: first.record,
            out: route_all_spec(sessions, record, client_id, messages).out + first.out,
        }));
    } else {
        assert(whole[0] == messages[0]);
        assert(whole.drop_first() =~= messages.drop_first().push(m));
        let first = route_spec(sessions, record, client_id, messages[0]);
        lemma_route_all_snoc(first.sessions, first.record, client_id, messages.drop_first(), m);
        let mid = route_all_spec(sessions, record, client_id, messages);
        let last = route_spec(mid.sessions, mid.record, client_id, m);
        let inner_mid = route_all_spec(
            first.sessions,
            first.record,
            client_id,
            messages.drop_first(),
        );
        assert(first.out + (inner_mid.out + last.out) =~= (first.out + inner_mid.out) + last.out);
        assert(route_all_spec(sessions, record, client_id, whole) =~= (RouteEffect {
            sessions: last.sessions,
            record: last.record,
            out: mid.out + last.out,
        }));
    }
}

/// The server's authoritative state: the session table and the highscore
/// record, both mutated only through the routing and reaping operations
/// below (the single simulation thread). Within one tick the caller routes
/// all drained messages first, then broadcasts and reaps: a join processed
/// in a tick is visible to that tick's broadcast.
#[derive(Debug)]
pub struct ServerState {
    pub sessions: SessionStore,
    pub highscore: Highscore,
}

impl ServerState {
    pub open spec fn wf(&self) -> bool {
        self.sessions.wf()
    }

    /// A fresh server: no sessions, no highscore yet.
    pub fn new() -> (s: ServerState)
        ensures
            s.wf(),
            s.sessions@ =~= Seq::<Session>::empty(),
            s.highscore.time_in_seconds == 0,
    {
        ServerState { sessions: SessionStore::new(), highscore: Highscore { time_in_seconds: 0 } }
    }

    /// A player joined: create (or re-initialize) its session and reply to
    /// that client, synchronously, with the current highscore record.
    pub fn on_player_joined(&mut self, client_id: u64, movement: PlayerMovement) -> (reply:
        ServerMessage)
        requires
            old(self).wf(),
        ensures
            final(self).wf(),
            final(self).sessions@ == join_spec(old(self).sessions@, client_id, movement),
            final(self).highscore == old(self).highscore,
            reply == ServerMessage::InformAboutHighscore(old(self).highscore),
            final(self).sessions.contains_id(client_id),
            final(self).sessions.session_for(client_id) == (Session {
                client_id,
                movement,
                inactive_millis: 0,
            }),
    {
        self.sessions.on_player_joined(client_id, movement);
        ServerMessage::InformAboutHighscore(self.highscore)
    }

    /// A player reported movement: overwrite its session's velocity and
    /// position and reset its inactivity timer; drop the update silently if
    /// the id has no session.
    pub fn on_player_moved(&mut self, client_id: u64, movement: PlayerMovement)
        requires
            old(self).wf(),
        ensures
            final(self).wf(),
            final(self).sessions@ == move_spec(old(self).sessions@, client_id, movement),
            final(self).highscore == old(self).highscore,
    {
        self.sessions.on_player_moved(client_id, movement);
    }

    /// A player left: destroy its session, if present.
    pub fn on_player_left(&mut self, client_id: u64)
        requires
            old(self).wf(),
        ensures
            final(self).wf(),
            final(self).sessions@ == leave_spec(old(self).sessions@, client_id),
            final(self).highscore == old(self).highscore,
            !final(self).sessions.contains_id(client_id),
    {
        self.sessions.on_player_left(client_id);
    }

    /// Arbitrate a highscore candidate: replace the record if the candidate
    /// is a real time and the record is unset or larger, and in that case
    /// return the announcement to broadcast to every connected client.
    pub fn on_request_highscore(&mut self, possible_highscore: Highscore) -> (announce: Option<
        ServerMessage,
    >)
        requires
            old(self).wf(),
        ensures
            final(self).wf(),
            final(self).sessions@ == old(self).sessions@,
            final(self).highscore.time_in_seconds == accept_spec(
                old(self).highscore.time_in_seconds,
                possible_highscore.time_in_seconds,
            ),
            accepts(old(self).highscore.time_in_seconds, possible_highscore.time_in_seconds)
                ==> announce == Some(
                ServerMessage::InformAboutHighscore(final(self).highscore),
            ),
            !accepts(old(self).highscore.time_in_seconds, possible_highscore.time_in_seconds)
                ==> announce is None && final(self).highscore == old(self).highscore,
    {
        let replaced = possible_highscore.time_in_seconds != 0 && (self.highscore.time_in_seconds
            > possible_highscore.time_in_seconds || self.highscore.time_in_seconds == 0);
        self.highscore = accept(self.highscore, possible_highscore);
        if replaced {
            Some(ServerMessage::InformAboutHighscore(self.highscore))
        } else {
            None
        }
    }

    /// Route one inbound message from `client_id`, exactly as
    /// [`route_spec`] describes. A message kind the router does not know
    /// cannot arrive here: decoding already rejected it.
    pub fn handle_player_message(&mut self, client_id: u64, message: PlayerMessage) -> (out: Vec<
        Outbound,
    >)
        requires
            old(self).wf(),
        ensures
            final(self).wf(),
            final(self).sessions@ == route_spec(
                old(self).sessions@,
                old(self).highscore,
                client_id,
                message,
            ).sessions,
            final(self).highscore == route_spec(
                old(self).sessions@,
                old(self).highscore,
                client_id,
                message,
            ).record,
            out@ == route_spec(
                old(self).sessions@,
                old(self).highscore,
                client_id,
                message,
            ).out,
    {
        let mut out: Vec<Outbound> = Vec::new();
        match message {
            PlayerMessage::Ping => {
                out.push(Outbound::Send { to: client_id, message: ServerMessage::Pong });
                proof {
                    assert(out@ =~= route_spec(
                        old(self).sessions@,
                        old(self).highscore,
                        client_id,
                        message,
                    ).out);
                }
            },
            PlayerMessage::JoinGame(m) => {
                let reply = self.on_player_joined(client_id, m);
                out.push(Outbound::Send { to: client_id, message: reply });
                proof {
                    assert(out@ =~= route_spec(
                        old(self).sessions@,
                        old(self).highscore,
                        client_id,
                        message,
                    ).out);
                }
            },
            PlayerMessage::PlayerMoved(m) => {
                self.on_player_moved(client_id, m);
                proof {
                    assert(out@ =~= route_spec(
                        old(self).sessions@,
                        old(self).highscore,
                        client_id,
                        message,
                    ).out);
                }
            },
            PlayerMessage::RequestPossibleHighscore(h) => {
                let announce = self.on_request_highscore(h);
                match announce {
                    Some(msg) => {
                        out.push(Outbound::Broadcast { message: msg });
                    },
                    None => {},
                }
                proof {
                    assert(out@ =~= route_spec(
                        old(self).sessions@,
                        old(self).highscore,
                        client_id,
                        message,
                    ).out);
                }
            },
            PlayerMessage::LeaveGame => {
                self.on_player_left(client_id);
                proof {
                    assert(out@ =~= route_spec(
                        old(self).sessions@,
                        old(self).highscore,
                        client_id,
                        message,
                    ).out);
                }
            },
        }
        out
    }

    /// Route a whole drained queue of messages from one client, in arrival
    /// order. Ordering across different clients is the caller's choice; per
    /// client the queue order is kept.
    pub fn handle_player_messages(&mut self, client_id: u64, messages: &Vec<PlayerMessage>) -> (out:
        Vec<Outbound>)
        requires
            old(self).wf(),
        ensures
            final(self).wf(),
            final(self).sessions@ == route_all_spec(
                old(self).sessions@,
                old(self).highscore,
                client_id,
                messages@,
            ).sessions,
            final(self).highscore == route_all_spec(
                old(self).sessions@,
                old(self).highscore,
                client_id,
                messages@,
            ).record,
            out@ == route_all_spec(
                old(self).sessions@,
                old(self).highscore,
                client_id,
                messages@,
            ).out,
    {
        let n = messages.len();
        let mut out: Vec<Outbound> = Vec::new();
        let mut k: usize = 0;
        proof {
            assert(messages@.take(0) =~= Seq::<PlayerMessage>::empty());
        }
        while k < n
            invariant
                old(self).wf(),
                self.wf(),
                n == messages@.len(),
                k <= n,
                self.sessions@ == route_all_spec(
                    old(self).sessions@,
                    old(self).highscore,
                    client_id,
                    messages@.take(k as int),
                ).sessions,
                self.highscore == route_all_spec(
                    old(self).sessions@,
                    old(self).highscore,
                    client_id,
                    messages@.take(k as int),
                ).record,
                out@ == route_all_spec(
                    old(self).sessions@,
                    old(self).highscore,
                    client_id,
                    messages@.take(k as int),
                ).out,
            decreases n - k,
        {
            let m = messages[k];
            let mut emitted = self.handle_player_message(client_id, m);
            out.append(&mut emitted);
            proof {
                assert(messages@.take(k as int + 1) =~= messages@.take(k as int).push(messages@[k as int]));
                lemma_route_all_snoc(
                    old(self).sessions@,
                    old(self).highscore,
                    client_id,
                    messages@.take(k as int),
                    messages@[k as int],
                );
            }
            k = k + 1;
        }
        proof {
            assert(messages@.take(n as int) =~= messages@);
        }
        out
    }

    /// The snapshot for `recipient`: every other session's current movement,
    /// in store order. A recipient with zero peers gets an empty snapshot
    /// (not an omitted one).
    pub fn build_snapshot(&self, recipient: u64) -> (snapshot: Vec<PlayerMovedUpdate>)
        ensures
            snapshot@ == snapshot_for(self.sessions@, recipient),
            forall|k: int| 0 <= k < snapshot@.len() ==> snapshot@[k].id != recipient,
    {
        let n = self.sessions.len();
        let mut snapshot: Vec<PlayerMovedUpdate> = Vec::new();
        let mut k: usize = 0;
        proof {
            assert(self.sessions@.take(0) =~= Seq::<Session>::empty());
        }
        while k < n
            invariant
                n == self.sessions@.len(),
                k <= n,
                snapshot@ == snapshot_for(self.sessions@.take(k as int), recipient),
            decreases n - k,
        {
            let s = self.sessions.get(k);
            proof {
                assert(self.sessions@.take(k as int + 1) =~= self.sessions@.take(k as int) + seq![
                    self.sessions@[k as int],
                ]);
                lemma_snapshot_snoc(self.sessions@.take(k as int), self.sessions@[k as int], recipient);
            }
            if s.client_id != recipient {
                snapshot.push(PlayerMovedUpdate { id: s.client_id, movement: s.movement });
            }
            k = k + 1;
        }
        proof {
            assert(self.sessions@.take(n as int) =~= self.sessions@);
            lemma_snapshot_excludes_recipient(self.sessions@, recipient);
        }
        snapshot
    }

    /// One broadcast round: for every connected client, a send of the
    /// snapshot of all the *other* clients' movements. Scheduling the round
    /// on the broadcast interval is the caller's job (see
    /// [`crate::timer::RepeatingTimer`]).
    pub fn send_updates_to_players(&self) -> (out: Vec<Outbound>)
        ensures
            out@.len() == self.sessions@.len(),
            forall|k: int|
                0 <= k < out@.len() ==> ((#[trigger] out@[k]) matches Outbound::Send { to, message }
                    && to == self.sessions@[k].client_id && (message matches
                ServerMessage::UpdateMovedPlayers(v) && v@ == snapshot_for(self.sessions@, to))),
    {
        let n = self.sessions.len();
        let mut out: Vec<Outbound> = Vec::new();
        let mut k: usize = 0;
        while k < n
            invariant
                n == self.sessions@.len(),
                k <= n,
                out@.len() == k,
                forall|j: int|
                    0 <= j < k ==> ((#[trigger] out@[j]) matches Outbound::Send { to, message }
                        && to == self.sessions@[j].client_id && (message matches
                    ServerMessage::UpdateMovedPlayers(v) && v@ == snapshot_for(
                        self.sessions@,
                        to,
                    ))),
            decreases n - k,
        {
            let recipient = self.sessions.get(k).client_id;
            let snapshot = self.build_snapshot(recipient);
            out.push(
                Outbound::Send {
                    to: recipient,
                    message: ServerMessage::UpdateMovedPlayers(snapshot),
                },
            );
            k = k + 1;
        }
        out
    }

    /// The broadcast scheduler: advance the broadcast timer by the elapsed
    /// time and, when the interval fires, emit one broadcast round (see
    /// [`Self::send_updates_to_players`]); between firings nothing is
    /// sent, which keeps the movement broadcast coarser than the movement
    /// submission and bounds bandwidth.
    pub fn send_updates_on_interval(
        &self,
        timer: &mut crate::timer::RepeatingTimer,
        delta_millis: u64,
    ) -> (out: Vec<Outbound>)
        requires
            old(timer).wf(),
        ensures
            final(timer).wf(),
            final(timer).interval_millis == old(timer).interval_millis,
            old(timer).elapsed_millis + delta_millis >= old(timer).interval_millis ==> {
                &&& out@.len() == self.sessions@.len()
                &&& forall|k: int|
                    0 <= k < out@.len() ==> ((#[trigger] out@[k]) matches Outbound::Send {
                        to,
                        message,
                    } && to == self.sessions@[k].client_id && (message matches
                    ServerMessage::UpdateMovedPlayers(v) && v@ == snapshot_for(
                        self.sessions@,
                        to,
                    )))
            },
            old(timer).elapsed_millis + delta_millis < old(timer).interval_millis ==> out@.len()
                == 0,
    {
        let fired = timer.tick(delta_millis);
        if fired {
            self.send_updates_to_players()
        } else {
            Vec::new()
        }
    }

    /// The liveness reaper: advance every session's inactivity timer by the
    /// elapsed time and evict the sessions that reached `timeout_millis`,
    /// emitting a transport disconnect for each evicted client.
    pub fn remove_inactive_players(&mut self, delta_millis: u64, timeout_millis: u64) -> (out: Vec<
        Outbound,
    >)
        requires
            old(self).wf(),
        ensures
            final(self).wf(),
            final(self).sessions@ == survivors(old(self).sessions@, delta_millis, timeout_millis),
            final(self).highscore == old(self).highscore,
            out@.len() == evicted_ids(old(self).sessions@, delta_millis, timeout_millis).len(),
            forall|k: int|
                0 <= k < out@.len() ==> out@[k] == (Outbound::Disconnect {
                    client_id: evicted_ids(old(self).sessions@, delta_millis, timeout_millis)[k],
                }),
    {
        let evicted = self.sessions.remove_inactive_players(delta_millis, timeout_millis);
        let n = evicted.len();
        let mut out: Vec<Outbound> = Vec::new();
        let mut k: usize = 0;
        while k < n
            invariant
                n == evicted@.len(),
                evicted@ == evicted_ids(old(self).sessions@, delta_millis, timeout_millis),
                k <= n,
                out@.len() == k,
                forall|j: int|
                    0 <= j < k ==> out@[j] == (Outbound::Disconnect { client_id: evicted@[j] }),
            decreases n - k,
        {
            out.push(Outbound::Disconnect { client_id: evicted[k] });
            k = k + 1;
        }
        out
    }
}

} // verus!

