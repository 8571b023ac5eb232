//! The session store: the server's authoritative table of connected players.
//! One `Session` per client id, exclusively owned by the store; sessions are
//! created by a join, overwritten by a movement update, and destroyed by a
//! leave or by the liveness reaper when the inactivity timer runs out.

use vstd::prelude::*;

use crate::wire::PlayerMovement;

verus! {

/// Server-side authoritative record of one connected player's kinematic
/// state and liveness.
#[derive(Debug, Clone, Copy, PartialEq, Eq, Structural)]
pub struct Session {
    /// The id given to the client by the transport; unique and stable for
    /// the connection's lifetime.
    pub client_id: u64,
    pub movement: PlayerMovement,
    /// Milliseconds since the last movement update from this client.
    pub inactive_millis: u64,
}

/// Whether some session in `s` carries `id`.
pub open spec fn has_id(s: Seq<Session>, id: u64) -> bool {
    exists|k: int| 0 <= k < s.len() && s[k].client_id == id
}

/// The index of the session carrying `id` (meaningful when ids are unique
/// and `has_id(s, id)` holds).
pub open spec fn index_of(s: Seq<Session>, id: u64) -> int {
    choose|k: int| 0 <= k < s.len() && s[k].client_id == id
}

/// No two sessions share a client id.
pub open spec fn unique_ids(s: Seq<Session>) -> bool {
    forall|k1: int, k2: int| 0 <= k1 < k2 < s.len() ==> s[k1].client_id != s[k2].client_id
}

/// With unique ids, any index whose session carries `id` is the one that
/// `index_of` picks.
pub proof fn lemma_index_of_unique(s: Seq<Session>, id: u64, k: int)
    requires
        unique_ids(s),
        0 <= k < s.len(),
        s[k].client_id == id,
    ensures
        has_id(s, id),
        index_of(s, id) == k,
{
    assert(has_id(s, id));
    let k2 = index_of(s, id);
    if k2 < k {
        assert(s[k2].client_id != s[k].client_id);
    } else if k < k2 {
        assert(s[k].client_id != s[k2].client_id);
    }
}

/// The inactivity timer after `delta` more milliseconds have passed,
/// saturating at the top of the range.
pub open spec fn aged(timer: u64, delta: u64) -> u64 {
    if timer + delta > u64::MAX {
        u64::MAX
    } else {
        (timer + delta) as u64
    }
}

/// The sessions that survive a reaper pass: every timer is advanced by
/// `delta` milliseconds, and the sessions whose advanced timer has reached
/// `timeout` are dropped. Order is kept.
pub open spec fn survivors(s: Seq<Session>, delta: u64, timeout: u64) -> Seq<Session>
    decreases s.len(),
{
    if s.len() == 0 {
        s
    } else {
        let head = Session {
            inactive_millis: aged(s[0].inactive_millis, delta),
            ..s[0]
        };
        if aged(s[0].inactive_millis, delta) >= timeout {
            survivors(s.drop_first(), delta, timeout)
        } else {
            seq![head] + survivors(s.drop_first(), delta, timeout)
        }
    }
}

/// The client ids that a reaper pass evicts, in store order.
pub open spec fn evicted_ids(s: Seq<Session>, delta: u64, timeout: u64) -> Seq<u64>
    decreases s.len(),
{
    if s.len() == 0 {
        Seq::empty()
    } else {
        if aged(s[0].inactive_millis, delta) >= timeout {
            seq![s[0].client_id] + evicted_ids(s.drop_first(), delta, timeout)
        } else {
            evicted_ids(s.drop_first(), delta, timeout)
        }
    }
}

/// `survivors` over a sequence extended at the end.
pub proof fn lemma_survivors_snoc(s: Seq<Session>, x: Session, delta: u64, timeout: u64)
    ensures
        survivors(s + seq![x], delta, timeout) == if aged(x.inactive_millis, delta) >= timeout {
            survivors(s, delta, timeout)
        } else {
            survivors(s, delta, timeout) + seq![
                Session { inactive_millis: aged(x.inactive_millis, delta), ..x },
            ]
        },
    decreases s.len(),
{
    let whole = s + seq![x];
    if s.len() == 0 {
        assert(whole.drop_first() =~= s);
        assert(whole[0] == x);
        assert(survivors(whole.drop_first(), delta, timeout) == s);
        if aged(x.inactive_millis, delta) >= timeout {
            assert(survivors(whole, delta, timeout) =~= survivors(s, delta, timeout));
        } else {
            assert(survivors(whole, delta, timeout) =~= survivors(s, delta, timeout) + seq![
                Session { inactive_millis: aged(x.inactive_millis, delta), ..x },
            ]);
        }
    } else {
        assert(whole[0] == s[0]);
        assert(whole.drop_first() =~= s.drop_first() + seq![x]);
        lemma_survivors_snoc(s.drop_first(), x, delta, timeout);
        if aged(x.inactive_millis, delta) >= timeout {
        } else {
            if aged(s[0].inactive_millis, delta) >= timeout {
            } else {
                let head = Session { inactive_millis: aged(s[0].inactive_millis, delta), ..s[0] };
                assert(seq![head] + (survivors(s.drop_first(), delta, timeout) + seq![
                    Session { inactive_millis: aged(x.inactive_millis, delta), ..x },
                ]) =~= (seq![head] + survivors(s.drop_first(), delta, timeout)) + seq![
                    Session { inactive_millis: aged(x.inactive_millis, delta), ..x },
                ]);
            }
        }
    }
}

/// `evicted_ids` over a sequence extended at the end.
pub proof fn lemma_evicted_snoc(s: Seq<Session>, x: Session, delta: u64, timeout: u64)
    ensures
        evicted_ids(s + seq![x], delta, timeout) == if aged(x.inactive_millis, delta) >= timeout {
            evicted_ids(s, delta, timeout) + seq![x.client_id]
        } else {
            evicted_ids(s, delta, timeout)
        },
    decreases s.len(),
{
    let whole = s + seq![x];
    if s.len() == 0 {
        assert(whole.drop_first() =~= s);
        assert(whole[0] == x);
        assert(evicted_ids(whole.drop_first(), delta, timeout) == Seq::<u64>::empty());
        if aged(x.inactive_millis, delta) >= timeout {
            assert(evicted_ids(whole, delta, timeout) =~= evicted_ids(s, delta, timeout) + seq![
                x.client_id,
            ]);
        } else {
            assert(evicted_ids(whole, delta, timeout) =~= evicted_ids(s, delta, timeout));
        }
    } else {
        assert(whole[0] == s[0]);
        assert(whole.drop_first() =~= s.drop_first() + seq![x]);
        lemma_evicted_snoc(s.drop_first(), x, delta, timeout);
        if aged(s[0].inactive_millis, delta) >= timeout {
            if aged(x.inactive_millis, delta) >= timeout {
                assert(seq![s[0].client_id] + (evicted_ids(s.drop_first(), delta, timeout) + seq![
                    x.client_id,
                ]) =~= (seq![s[0].client_id] + evicted_ids(s.drop_first(), delta, timeout)) + seq![
                    x.client_id,
                ]);
            }
        }
    }
}

/// Every surviving session carries an id that the input had, at an advanced
/// timer below the timeout; and unique ids stay unique.
pub proof fn lemma_survivors_ids(s: Seq<Session>, delta: u64, timeout: u64)
    ensures
        forall|id: u64| has_id(survivors(s, delta, timeout), id) ==> has_id(s, id),
        unique_ids(s) ==> unique_ids(survivors(s, delta, timeout)),
        forall|k: int|
            0 <= k < survivors(s, delta, timeout).len() ==> survivors(
                s,
                delta,
                timeout,
            )[k].inactive_millis < timeout,
    decreases s.len(),
{
    let surv = survivors(s, delta, timeout);
    if s.len() == 0 {
    } else {
        let rest = survivors(s.drop_first(), delta, timeout);
        lemma_survivors_ids(s.drop_first(), delta, timeout);
        assert forall|id: u64| has_id(rest, id) implies has_id(s, id) by {
            assert(has_id(s.drop_first(), id));
            let k2 = choose|k2: int|
                0 <= k2 < s.drop_first().len() && s.drop_first()[k2].client_id == id;
            assert(s[k2 + 1].client_id == id);
        }
        if aged(s[0].inactive_millis, delta) >= timeout {
            assert forall|id: u64| has_id(surv, id) implies has_id(s, id) by {
                assert(has_id(rest, id));
            }
        } else {
            assert forall|id: u64| has_id(surv, id) implies has_id(s, id) by {
                let k = choose|k: int| 0 <= k < surv.len() && surv[k].client_id == id;
                if k == 0 {
                    assert(s[0].client_id == id);
                } else {
                    assert(rest[k - 1].client_id == id);
                    assert(has_id(rest, id));
                }
            }
            if unique_ids(s) {
                assert(unique_ids(s.drop_first()));
                assert forall|k1: int, k2: int| 0 <= k1 < k2 < surv.len() implies surv[k1].client_id
                    != surv[k2].client_id by {
                    if k1 == 0 {
                        assert(rest[k2 - 1].client_id == surv[k2].client_id);
                        assert(has_id(rest, surv[k2].client_id));
                        assert(has_id(s.drop_first(), surv[k2].client_id));
                        let j = choose|j: int|
                            0 <= j < s.drop_first().len() && s.drop_first()[j].client_id
                                == surv[k2].client_id;
                        assert(s[j + 1].client_id == surv[k2].client_id);
                        assert(s[0].client_id != s[j + 1].client_id);
                    } else {
                        assert(rest[k1 - 1].client_id != rest[k2 - 1].client_id);
                    }
                }
            }
        }
    }
}

/// The authoritative table of connected players: a map from client id to
/// `Session`, kept as an id-keyed vector with unique ids, mutated only by
/// the routing and reaping operations below.
#[derive(Debug)]
pub struct SessionStore {
    sessions: Vec<Session>,
}

impl View for SessionStore {
    type V = Seq<Session>;

    closed spec fn view(&self) -> Seq<Session> {
        self.sessions@
    }
}

impl SessionStore {
    /// Well-formed: no two sessions share a client id.
    pub open spec fn wf(&self) -> bool {
        unique_ids(self@)
    }

    /// Whether a session exists for `id`.
    pub open spec fn contains_id(&self, id: u64) -> bool {
        has_id(self@, id)
    }

    /// The session stored for `id` (meaningful when `contains_id(id)`).
    pub open spec fn session_for(&self, id: u64) -> Session {
        self@[index_of(self@, id)]
    }

    pub fn new() -> (s: SessionStore)
        ensures
            s@ =~= Seq::<Session>::empty(),
            s.wf(),
    {
        SessionStore { sessions: Vec::new() }
    }

    /// How many sessions the store holds.
    pub fn len(&self) -> (n: usize)
        ensures
            n == self@.len(),
    {
        self.sessions.len()
    }

    /// The session at a store position, for read-only walks of the table.
    pub fn get(&self, k: usize) -> (s: Session)
        requires
            k < self@.len(),
        ensures
            s == self@[k as int],
    {
        self.sessions[k]
    }

    /// The position of the session for `client_id`, if one exists.
    fn find(&self, client_id: u64) -> (r: Option<usize>)
        ensures
            match r {
                Some(k) => k < self@.len() && self@[k as int].client_id == client_id,
                None => !has_id(self@, client_id),
            },
    {
        let n = self.sessions.len();
        let mut k: usize = 0;
        while k < n
            invariant
                n == self@.len(),
                k <= n,
                forall|j: int| 0 <= j < k ==> self@[j].client_id != client_id,
            decreases n - k,
        {
            if self.sessions[k].client_id == client_id {
                return Some(k);
            }
            k = k + 1;
        }
        None
    }

    /// Creates the session for a joining player, with its inactivity timer
    /// at zero. A duplicate join for an id that already has a session
    /// overwrites that session (the join re-initializes it); this keeps the
    /// operation idempotent for a client that retries its join.
    pub fn on_player_joined(&mut self, client_id: u64, movement: PlayerMovement)
        requires
            old(self).wf(),
        ensures
            final(self).wf(),
            final(self).contains_id(client_id),
            final(self).session_for(client_id) == (Session {
                client_id,
                movement,
                inactive_millis: 0,
            }),
            forall|other: u64|
                other != client_id ==> (final(self).contains_id(other) <==> old(self).contains_id(other)),
            forall|other: u64|
                other != client_id && old(self).contains_id(other) ==> final(self).session_for(other) == old(self).session_for(other),
            old(self).contains_id(client_id) ==> final(self)@ == old(self)@.update(
                index_of(old(self)@, client_id),
                Session { client_id, movement, inactive_millis: 0 },
            ),
            !old(self).contains_id(client_id) ==> final(self)@ == old(self)@.push(
                Session { client_id, movement, inactive_millis: 0 },
            ),
            final(self)@.len() == old(self)@.len() + (
            if old(self).contains_id(client_id) {
                0int
            } else {
                1int
            }),
    {
        let fresh = Session { client_id, movement, inactive_millis: 0 };
        let found = self.find(client_id);
        match found {
            Some(k) => {
                proof {
                    lemma_index_of_unique(self@, client_id, k as int);
                }
                self.sessions.set(k, fresh);
                proof {
                    lemma_index_of_unique(self@, client_id, k as int);
                    assert forall|other: u64|
                        other != client_id && old(self).contains_id(other) implies self.contains_id(other) && self.session_for(other) == old(self).session_for(other) by {
                        let j = index_of(old(self)@, other);
                        assert(old(self)@[j].client_id == other);
                        assert(self@[j] == old(self)@[j]);
                        lemma_index_of_unique(self@, other, j);
                    }
                    assert forall|other: u64|
                        other != client_id && self.contains_id(other) implies old(self).contains_id(other) by {
                        let j = index_of(self@, other);
                        assert(self@[j].client_id == other);
                        assert(old(self)@[j].client_id == other);
                    }
                }
            },
            None => {
                self.sessions.push(fresh);
                proof {
                    let n = old(self)@.len() as int;
                    assert(self@[n] == fresh);
                    assert forall|k1: int, k2: int| 0 <= k1 < k2 < self@.len() implies self@[k1].client_id
                        != self@[k2].client_id by {
                        if k2 < n {
                            assert(old(self)@[k1].client_id != old(self)@[k2].client_id);
                        } else {
                            assert(self@[k1] == old(self)@[k1]);
                            assert(old(self)@[k1].client_id != client_id);
                        }
                    }
                    lemma_index_of_unique(self@, client_id, n);
                    assert forall|other: u64|
                        other != client_id && old(self).contains_id(other) implies self.contains_id(other) && self.session_for(other) == old(self).session_for(other) by {
                        let j = index_of(old(self)@, other);
                        assert(old(self)@[j].client_id == other);
                        assert(self@[j] == old(self)@[j]);
                        lemma_index_of_unique(self@, other, j);
                    }
                    assert forall|other: u64|
                        other != client_id && self.contains_id(other) implies old(self).contains_id(other) by {
                        let j = index_of(self@, other);
                        assert(self@[j].client_id == other);
                        assert(j < n);
                        assert(old(self)@[j].client_id == other);
                    }
                }
            },
        }
    }

    /// Overwrites the velocity/position of the session for `client_id` and
    /// resets its inactivity timer. A movement update for an id without a
    /// session is silently dropped: the client is not yet known, which is a
    /// benign race between a join and later messages.
    pub fn on_player_moved(&mut self, client_id: u64, movement: PlayerMovement)
        requires
            old(self).wf(),
        ensures
            final(self).wf(),
            old(self).contains_id(client_id) ==> {
                &&& final(self)@ == old(self)@.update(
                    index_of(old(self)@, client_id),
                    Session { client_id, movement, inactive_millis: 0 },
                )
                &&& final(self).contains_id(client_id)
                &&& final(self).session_for(client_id) == (Session {
                    client_id,
                    movement,
                    inactive_millis: 0,
                })
            },
            !old(self).contains_id(client_id) ==> final(self)@ == old(self)@,
            forall|other: u64|
                (final(self).contains_id(other) <==> old(self).contains_id(other)),
            forall|other: u64|
                other != client_id && old(self).contains_id(other) ==> final(self).session_for(other) == old(self).session_for(other),
    {
        let fresh = Session { client_id, movement, inactive_millis: 0 };
        let found = self.find(client_id);
        match found {
            Some(k) => {
                proof {
                    lemma_index_of_unique(self@, client_id, k as int);
                }
                self.sessions.set(k, fresh);
                proof {
                    lemma_index_of_unique(self@, client_id, k as int);
                    assert forall|other: u64| self.contains_id(other) implies old(self).contains_id(other) by {
                        let j = index_of(self@, other);
                        assert(self@[j].client_id == other);
                        if j == k as int {
                            assert(old(self)@[j].client_id == client_id);
                        } else {
                            assert(old(self)@[j].client_id == other);
                        }
                    }
                    assert forall|other: u64| old(self).contains_id(other) implies self.contains_id(other) by {
                        let j = index_of(old(self)@, other);
                        assert(old(self)@[j].client_id == other);
                        if j == k as int {
                            assert(self@[j].client_id == client_id);
                            assert(other == client_id);
                        } else {
                            assert(self@[j].client_id == other);
                        }
                    }
                    assert forall|other: u64|
                        other != client_id && old(self).contains_id(other) implies self.contains_id(other) && self.session_for(other) == old(self).session_for(other) by {
                        let j = index_of(old(self)@, other);
                        assert(old(self)@[j].client_id == other);
                        assert(self@[j] == old(self)@[j]);
                        lemma_index_of_unique(self@, other, j);
                    }
                }
            },
            None => {},
        }
    }

    /// Destroys the session for `client_id`, if present; a leave for an
    /// unknown id is silently dropped.
    pub fn on_player_left(&mut self, client_id: u64)
        requires
            old(self).wf(),
        ensures
            final(self).wf(),
            !final(self).contains_id(client_id),
            old(self).contains_id(client_id) ==> final(self)@ == old(self)@.remove(
                index_of(old(self)@, client_id),
            ),
            !old(self).contains_id(client_id) ==> final(self)@ == old(self)@,
            forall|other: u64|
                other != client_id ==> (final(self).contains_id(other) <==> old(self).contains_id(other)),
            forall|other: u64|
                other != client_id && old(self).contains_id(other) ==> final(self).session_for(other) == old(self).session_for(other),
    {
        let found = self.find(client_id);
        match found {
            Some(k) => {
                proof {
                    lemma_index_of_unique(self@, client_id, k as int);
                }
                self.sessions.remove(k);
                proof {
                    let ki = k as int;
                    let olds = old(self)@;
                    assert forall|k1: int, k2: int| 0 <= k1 < k2 < self@.len() implies self@[k1].client_id
                        != self@[k2].client_id by {
                        let o1: int = if k1 < ki {
                            k1
                        } else {
                            k1 + 1
                        };
                        let o2: int = if k2 < ki {
                            k2
                        } else {
                            k2 + 1
                        };
                        assert(self@[k1] == olds[o1]);
                        assert(self@[k2] == olds[o2]);
                    }
                    assert forall|j: int|
                        0 <= j < self@.len() implies self@[j].client_id != client_id by {
                        let o: int = if j < ki {
                            j
                        } else {
                            j + 1
                        };
                        assert(self@[j] == olds[o]);
                        if o != ki {
                            assert(olds[o].client_id != olds[ki].client_id);
                        }
                    }
                    assert forall|other: u64|
                        other != client_id && old(self).contains_id(other) implies self.contains_id(other) && self.session_for(other) == old(self).session_for(other) by {
                        let j = index_of(olds, other);
                        assert(olds[j].client_id == other);
                        let nj: int = if j < ki {
                            j
                        } else {
                            j - 1
                        };
                        assert(self@[nj] == olds[j]);
                        lemma_index_of_unique(self@, other, nj);
                        lemma_index_of_unique(olds, other, j);
                    }
                    assert forall|other: u64|
                        other != client_id && self.contains_id(other) implies old(self).contains_id(other) by {
                        let j = index_of(self@, other);
                        assert(self@[j].client_id == other);
                        let o: int = if j < ki {
                            j
                        } else {
                            j + 1
                        };
                        assert(self@[j] == olds[o]);
                    }
                }
            },
            None => {},
        }
    }

    /// The liveness reaper: advances every session's inactivity timer by
    /// `delta_millis` and destroys each session whose timer has reached
    /// `timeout_millis`, returning the evicted client ids (the caller must
    /// disconnect them at the transport). This is the only path that removes
    /// a session without an explicit leave.
    pub fn remove_inactive_players(&mut self, delta_millis: u64, timeout_millis: u64) -> (evicted:
        Vec<u64>)
        requires
            old(self).wf(),
        ensures
            final(self).wf(),
            final(self)@ == survivors(old(self)@, delta_millis, timeout_millis),
            evicted@ == evicted_ids(old(self)@, delta_millis, timeout_millis),
    {
        let n = self.sessions.len();
        let mut kept: Vec<Session> = Vec::new();
        let mut evicted: Vec<u64> = Vec::new();
        let mut k: usize = 0;
        while k < n
            invariant
                n == old(self)@.len(),
                self@ == old(self)@,
                k <= n,
                kept@ == survivors(old(self)@.take(k as int), delta_millis, timeout_millis),
                evicted@ == evicted_ids(old(self)@.take(k as int), delta_millis, timeout_millis),
            decreases n - k,
        {
            let s = self.sessions[k];
            let timer = s.inactive_millis;
            let new_timer: u64 = if delta_millis > u64::MAX - timer {
                u64::MAX
            } else {
                timer + delta_millis
            };
            proof {
                assert(new_timer == aged(s.inactive_millis, delta_millis));
                assert(old(self)@.take(k as int + 1) =~= old(self)@.take(k as int) + seq![
                    old(self)@[k as int],
                ]);
                lemma_survivors_snoc(
                    old(self)@.take(k as int),
                    old(self)@[k as int],
                    delta_millis,
                    timeout_millis,
                );
                lemma_evicted_snoc(
                    old(self)@.take(k as int),
                    old(self)@[k as int],
                    delta_millis,
                    timeout_millis,
                );
            }
            if new_timer >= timeout_millis {
                evicted.push(s.client_id);
            } else {
                kept.push(Session { inactive_millis: new_timer, ..s });
            }
            k = k + 1;
        }
        proof {
            assert(old(self)@.take(n as int) =~= old(self)@);
            lemma_survivors_ids(old(self)@, delta_millis, timeout_millis);
        }
        self.sessions = kept;
        evicted
    }
}

/// Which ids a reaper pass keeps, id by id: exactly the sessions whose
/// advanced timer stays below the timeout.
pub proof fn lemma_reap_membership(s: Seq<Session>, delta: u64, timeout: u64, id: u64)
    requires
        unique_ids(s),
    ensures
        has_id(survivors(s, delta, timeout), id) <==> (has_id(s, id) && aged(
            s[index_of(s, id)].inactive_millis,
            delta,
        ) < timeout),
    decreases s.len(),
{
    if s.len() == 0 {
    } else {
        let rest = s.drop_first();
        let surv = survivors(s, delta, timeout);
        let surv_rest = survivors(rest, delta, timeout);
        assert(unique_ids(rest));
        lemma_reap_membership(rest, delta, timeout, id);
        lemma_survivors_ids(rest, delta, timeout);
        assert forall|j: int| 0 <= j < rest.len() implies rest[j] == s[j + 1] by {}
        if s[0].client_id == id {
            lemma_index_of_unique(s, id, 0);
            assert(!has_id(rest, id)) by {
                if has_id(rest, id) {
                    let j = choose|j: int| 0 <= j < rest.len() && rest[j].client_id == id;
                    assert(s[j + 1].client_id == id);
                    assert(s[0].client_id != s[j + 1].client_id);
                }
            }
            if aged(s[0].inactive_millis, delta) >= timeout {
                assert(!has_id(surv, id));
            } else {
                assert(surv[0].client_id == id);
                assert(has_id(surv, id));
            }
        } else {
            assert(has_id(s, id) <==> has_id(rest, id)) by {
                if has_id(s, id) {
                    let j = choose|j: int| 0 <= j < s.len() && s[j].client_id == id;
                    assert(j != 0);
                    assert(rest[j - 1].client_id == id);
                }
                if has_id(rest, id) {
                    let j = choose|j: int| 0 <= j < rest.len() && rest[j].client_id == id;
                    assert(s[j + 1].client_id == id);
                }
            }
            if has_id(s, id) {
                let j = index_of(rest, id);
                assert(rest[j].client_id == id);
                lemma_index_of_unique(rest, id, j);
                lemma_index_of_unique(s, id, j + 1);
                assert(s[index_of(s, id)] == rest[index_of(rest, id)]);
            }
            if aged(s[0].inactive_millis, delta) >= timeout {
                assert(surv == surv_rest);
            } else {
                assert(has_id(surv, id) <==> has_id(surv_rest, id)) by {
                    if has_id(surv, id) {
                        let j = choose|j: int| 0 <= j < surv.len() && surv[j].client_id == id;
                        if j == 0 {
                            assert(surv[0].client_id == s[0].client_id);
                        } else {
                            assert(surv_rest[j - 1].client_id == id);
                        }
                    }
                    if has_id(surv_rest, id) {
                        let j = choose|j: int|
                            0 <= j < surv_rest.len() && surv_rest[j].client_id == id;
                        assert(surv[j + 1].client_id == id);
                    }
                }
            }
        }
    }
}

/// One processed event in the life of the session table, as the lifecycle
/// law speaks of it. `Join`, `Moved` and `Leave` are the routed messages
/// for an id; `Evict` is the liveness reaper destroying the id's session
/// on timeout. Each mirrors what the store's operation of the same name
/// does to the id set, by that operation's contract.
#[derive(Debug, Clone, Copy, PartialEq, Eq, Structural)]
pub enum SessionEvent {
    Join(u64),
    Moved(u64),
    Leave(u64),
    Evict(u64),
}

/// The id set after one processed event.
pub open spec fn step_ids(ids: Set<u64>, ev: SessionEvent) -> Set<u64> {
    match ev {
        SessionEvent::Join(id) => ids.insert(id),
        SessionEvent::Moved(_) => ids,
        SessionEvent::Leave(id) => ids.remove(id),
        SessionEvent::Evict(id) => ids.remove(id),
    }
}

/// The id set after a whole sequence of processed events.
pub open spec fn run_ids(ids: Set<u64>, evs: Seq<SessionEvent>) -> Set<u64>
    decreases evs.len(),
{
    if evs.len() == 0 {
        ids
    } else {
        run_ids(step_ids(ids, evs[0]), evs.drop_first())
    }
}

/// Whether an event destroys the session for `id`.
pub open spec fn removes_id(ev: SessionEvent, id: u64) -> bool {
    ev == SessionEvent::Leave(id) || ev == SessionEvent::Evict(id)
}

/// Whether a join for `id` has been processed with no leave or eviction
/// for `id` since.
pub open spec fn alive_by_events(evs: Seq<SessionEvent>, id: u64) -> bool {
    exists|i: int|
        0 <= i < evs.len() && evs[i] == SessionEvent::Join(id) && (forall|j: int|
            i < j < evs.len() ==> !removes_id(evs[j], id))
}

/// `run_ids` over an event sequence extended at the end.
pub proof fn lemma_run_ids_snoc(ids: Set<u64>, evs: Seq<SessionEvent>, ev: SessionEvent)
    ensures
        run_ids(ids, evs.push(ev)) == step_ids(run_ids(ids, evs), ev),
    decreases evs.len(),
{
    let whole = evs.push(ev);
    if evs.len() == 0 {
        assert(whole[0] == ev);
        assert(whole.drop_first() =~= Seq::<SessionEvent>::empty());
        assert(run_ids(step_ids(ids, ev), whole.drop_first()) == step_ids(ids, ev));
    } else {
        assert(whole[0] == evs[0]);
        assert(whole.drop_first() =~= evs.drop_first().push(ev));
        lemma_run_ids_snoc(step_ids(ids, evs[0]), evs.drop_first(), ev);
    }
}

/// Law: starting from an empty table, the session for an id exists after a
/// sequence of processed events exactly when a join for that id has been
/// processed and no leave and no timeout-eviction for it has been
/// processed since.
pub proof fn lemma_session_lifecycle(evs: Seq<SessionEvent>, id: u64)
    ensures
        run_ids(Set::empty(), evs).contains(id) <==> alive_by_events(evs, id),
    decreases evs.len(),
{
    if evs.len() == 0 {
        assert(!Set::<u64>::empty().contains(id));
        assert(!alive_by_events(evs, id));
    } else {
        let front = evs.drop_last();
        let last = evs.last();
        let m = evs.len() - 1;
        assert(evs =~= front.push(last));
        lemma_run_ids_snoc(Set::empty(), front, last);
        lemma_session_lifecycle(front, id);
        assert forall|j: int| 0 <= j < m implies evs[j] == front[j] by {}
        if last == SessionEvent::Join(id) {
            assert(run_ids(Set::empty(), evs).contains(id));
            assert(evs[m] == SessionEvent::Join(id));
            assert(forall|j: int| m < j < evs.len() ==> !removes_id(evs[j], id));
            assert(alive_by_events(evs, id));
        } else if removes_id(last, id) {
            assert(!run_ids(Set::empty(), evs).contains(id));
            assert(!alive_by_events(evs, id)) by {
                if alive_by_events(evs, id) {
                    let i = choose|i: int|
                        0 <= i < evs.len() && evs[i] == SessionEvent::Join(id) && (forall|j: int|
                            i < j < evs.len() ==> !removes_id(evs[j], id));
                    if i == m {
                        assert(evs[m] == last);
                    } else {
                        assert(!removes_id(evs[m], id));
                        assert(evs[m] == last);
                    }
                }
            }
        } else {
            assert(run_ids(Set::empty(), evs).contains(id) == run_ids(
                Set::empty(),
                front,
            ).contains(id)) by {
                match last {
                    SessionEvent::Join(other) => {
                        assert(other != id);
                    },
                    SessionEvent::Moved(_) => {},
                    SessionEvent::Leave(other) => {
                        assert(other != id);
                    },
                    SessionEvent::Evict(other) => {
                        assert(other != id);
                    },
                }
            }
            assert(alive_by_events(evs, id) == alive_by_events(front, id)) by {
                if alive_by_events(front, id) {
                    let i = choose|i: int|
                        0 <= i < front.len() && front[i] == SessionEvent::Join(id) && (forall|
                            j: int,
                        |
                            i < j < front.len() ==> !removes_id(front[j], id));
                    assert(evs[i] == SessionEvent::Join(id));
                    assert forall|j: int| i < j < evs.len() implies !removes_id(evs[j], id) by {
                        if j < m {
                            assert(evs[j] == front[j]);
                        } else {
                            assert(evs[j] == last);
                        }
                    }
                    assert(alive_by_events(evs, id));
                }
                if alive_by_events(evs, id) {
                    let i = choose|i: int|
                        0 <= i < evs.len() && evs[i] == SessionEvent::Join(id) && (forall|j: int|
                            i < j < evs.len() ==> !removes_id(evs[j], id));
                    assert(i != m) by {
                        if i == m {
                            assert(evs[m] == last);
                        }
                    }
                    assert(front[i] == SessionEvent::Join(id));
                    assert(forall|j: int| i < j < front.len() ==> !removes_id(front[j], id));
                    assert(alive_by_events(front, id));
                }
            }
        }
    }
}

} // verus!
