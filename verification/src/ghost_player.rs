//! The ghost reconciliation engine: the client-side table of remote-player
//! ghosts, reconciled against each incoming snapshot as a three-way diff.
//! Every ghost whose id the snapshot carries is overwritten with the
//! snapshot's movement; every ghost whose id is absent is despawned; every
//! snapshot id without a ghost is spawned. After reconciliation the ghost
//! id set equals the snapshot id set exactly, and the whole snapshot is
//! applied before the outcome is handed to the rendering collaborator.

use vstd::prelude::*;

use crate::wire::{PlayerMovedUpdate, PlayerMovement};

verus! {

/// Client-side visual stand-in for one remote player, driven purely by
/// snapshots. The rendering handle itself stays with the rendering
/// collaborator, keyed by `id`.
#[derive(Debug, Clone, Copy, PartialEq, Eq, Structural)]
pub struct GhostPlayer {
    /// Mirrors the server-side client id.
    pub id: u64,
    pub movement: PlayerMovement,
}

/// Whether some ghost in `g` carries `id`.
pub open spec fn ghost_has_id(g: Seq<GhostPlayer>, id: u64) -> bool {
    exists|k: int| 0 <= k < g.len() && g[k].id == id
}

/// The index of the ghost carrying `id` (meaningful when ids are unique and
/// `ghost_has_id(g, id)` holds).
pub open spec fn ghost_index_of(g: Seq<GhostPlayer>, id: u64) -> int {
    choose|k: int| 0 <= k < g.len() && g[k].id == id
}

/// The movement of the ghost carrying `id`.
pub open spec fn ghost_movement_of(g: Seq<GhostPlayer>, id: u64) -> PlayerMovement {
    g[ghost_index_of(g, id)].movement
}

/// No two ghosts share an id.
pub open spec fn unique_ghost_ids(g: Seq<GhostPlayer>) -> bool {
    forall|k1: int, k2: int| 0 <= k1 < k2 < g.len() ==> g[k1].id != g[k2].id
}

/// With unique ids, any index whose ghost carries `id` is the one that
/// `ghost_index_of` picks.
pub proof fn lemma_ghost_index_of_unique(g: Seq<GhostPlayer>, id: u64, k: int)
    requires
        unique_ghost_ids(g),
        0 <= k < g.len(),
        g[k].id == id,
    ensures
        ghost_has_id(g, id),
        ghost_index_of(g, id) == k,
{
    assert(ghost_has_id(g, id));
    let k2 = ghost_index_of(g, id);
    if k2 < k {
        assert(g[k2].id != g[k].id);
    } else if k < k2 {
        assert(g[k].id != g[k2].id);
    }
}

/// Whether some snapshot entry carries `id`.
pub open spec fn upd_has_id(u: Seq<PlayerMovedUpdate>, id: u64) -> bool {
    exists|k: int| 0 <= k < u.len() && u[k].id == id
}

/// The movement of the last snapshot entry carrying `id` (meaningful when
/// `upd_has_id(u, id)` holds); the last entry wins when a snapshot carries
/// an id twice.
pub open spec fn last_movement(u: Seq<PlayerMovedUpdate>, id: u64) -> PlayerMovement
    decreases u.len(),
{
    if u.len() == 0 {
        PlayerMovement::zero_spec()
    } else if upd_has_id(u.drop_first(), id) {
        last_movement(u.drop_first(), id)
    } else if u[0].id == id {
        u[0].movement
    } else {
        PlayerMovement::zero_spec()
    }
}

/// One snapshot entry folded into the ghost table: overwrite the matching
/// ghost, or append a fresh one.
pub open spec fn apply_update(g: Seq<GhostPlayer>, x: PlayerMovedUpdate) -> Seq<GhostPlayer> {
    let fresh = GhostPlayer { id: x.id, movement: x.movement };
    if ghost_has_id(g, x.id) {
        g.update(ghost_index_of(g, x.id), fresh)
    } else {
        g.push(fresh)
    }
}

/// The ghost table after every snapshot entry has been folded in, in
/// snapshot order (the update and spawn passes of the diff).
pub open spec fn upsert_all(g: Seq<GhostPlayer>, u: Seq<PlayerMovedUpdate>) -> Seq<GhostPlayer>
    decreases u.len(),
{
    if u.len() == 0 {
        g
    } else {
        upsert_all(apply_update(g, u[0]), u.drop_first())
    }
}

/// The ghost table filtered to the ids the snapshot carries (the despawn
/// pass of the diff).
pub open spec fn keep_only(g: Seq<GhostPlayer>, u: Seq<PlayerMovedUpdate>) -> Seq<GhostPlayer>
    decreases g.len(),
{
    if g.len() == 0 {
        g
    } else {
        let rest = keep_only(g.drop_first(), u);
        if upd_has_id(u, g[0].id) {
            seq![g[0]] + rest
        } else {
            rest
        }
    }
}

/// The whole reconciliation: fold the snapshot in, then drop every ghost
/// the snapshot does not carry.
pub open spec fn reconciled(g: Seq<GhostPlayer>, u: Seq<PlayerMovedUpdate>) -> Seq<GhostPlayer> {
    keep_only(upsert_all(g, u), u)
}

/// The ids despawned by reconciling: the ghosts present before whose id the
/// snapshot does not carry, in table order.
pub open spec fn despawned_ids(g: Seq<GhostPlayer>, u: Seq<PlayerMovedUpdate>) -> Seq<u64>
    decreases g.len(),
{
    if g.len() == 0 {
        Seq::empty()
    } else {
        let rest = despawned_ids(g.drop_first(), u);
        if upd_has_id(u, g[0].id) {
            rest
        } else {
            seq![g[0].id] + rest
        }
    }
}

/// The ids updated in place: the ghosts present before whose id the
/// snapshot carries, in table order.
pub open spec fn updated_ids(g: Seq<GhostPlayer>, u: Seq<PlayerMovedUpdate>) -> Seq<u64>
    decreases g.len(),
{
    if g.len() == 0 {
        Seq::empty()
    } else {
        let rest = updated_ids(g.drop_first(), u);
        if upd_has_id(u, g[0].id) {
            seq![g[0].id] + rest
        } else {
            rest
        }
    }
}

/// The ids spawned: the snapshot ids without a ghost, at their first
/// occurrence, in snapshot order.
pub open spec fn spawned_ids(g: Seq<GhostPlayer>, u: Seq<PlayerMovedUpdate>) -> Seq<u64>
    decreases u.len(),
{
    if u.len() == 0 {
        Seq::empty()
    } else {
        let rest = spawned_ids(apply_update(g, u[0]), u.drop_first());
        if ghost_has_id(g, u[0].id) {
            rest
        } else {
            seq![u[0].id] + rest
        }
    }
}

/// What `apply_update` does, id by id.
pub proof fn lemma_apply_update_props(g: Seq<GhostPlayer>, x: PlayerMovedUpdate)
    requires
        unique_ghost_ids(g),
    ensures
        unique_ghost_ids(apply_update(g, x)),
        forall|id: u64|
            ghost_has_id(apply_update(g, x), id) <==> (ghost_has_id(g, id) || id == x.id),
        ghost_movement_of(apply_update(g, x), x.id) == x.movement,
        forall|id: u64|
            id != x.id && ghost_has_id(g, id) ==> ghost_movement_of(apply_update(g, x), id)
                == ghost_movement_of(g, id),
{
    let out = apply_update(g, x);
    let fresh = GhostPlayer { id: x.id, movement: x.movement };
    if ghost_has_id(g, x.id) {
        let k = ghost_index_of(g, x.id);
        assert(g[k].id == x.id);
        assert forall|k1: int, k2: int| 0 <= k1 < k2 < out.len() implies out[k1].id
            != out[k2].id by {
            assert(g[k1].id != g[k2].id);
        }
        lemma_ghost_index_of_unique(out, x.id, k);
        assert forall|id: u64| ghost_has_id(out, id) implies (ghost_has_id(g, id) || id
            == x.id) by {
            let j = ghost_index_of(out, id);
            if j != k {
                assert(g[j].id == id);
            }
        }
        assert forall|id: u64| ghost_has_id(g, id) implies ghost_has_id(out, id) by {
            let j = choose|j: int| 0 <= j < g.len() && g[j].id == id;
            if j == k {
                assert(out[j].id == x.id);
                assert(g[j].id == x.id);
            } else {
                assert(out[j].id == id);
            }
        }
        assert forall|id: u64|
            id != x.id && ghost_has_id(g, id) implies ghost_movement_of(out, id)
            == ghost_movement_of(g, id) by {
            let j = ghost_index_of(g, id);
            assert(g[j].id == id);
            assert(j != k);
            assert(out[j] == g[j]);
            lemma_ghost_index_of_unique(out, id, j);
            lemma_ghost_index_of_unique(g, id, j);
        }
    } else {
        let n = g.len() as int;
        assert(out[n] == fresh);
        assert forall|k1: int, k2: int| 0 <= k1 < k2 < out.len() implies out[k1].id
            != out[k2].id by {
            if k2 < n {
                assert(g[k1].id != g[k2].id);
            } else {
                assert(out[k1] == g[k1]);
                assert(g[k1].id != x.id);
            }
        }
        lemma_ghost_index_of_unique(out, x.id, n);
        assert forall|id: u64| ghost_has_id(out, id) implies (ghost_has_id(g, id) || id
            == x.id) by {
            let j = ghost_index_of(out, id);
            if j < n {
                assert(g[j].id == id);
            }
        }
        assert forall|id: u64| ghost_has_id(g, id) implies ghost_has_id(out, id) by {
            let j = choose|j: int| 0 <= j < g.len() && g[j].id == id;
            assert(out[j].id == id);
        }
        assert forall|id: u64|
            id != x.id && ghost_has_id(g, id) implies ghost_movement_of(out, id)
            == ghost_movement_of(g, id) by {
            let j = ghost_index_of(g, id);
            assert(g[j].id == id);
            assert(out[j] == g[j]);
            lemma_ghost_index_of_unique(out, id, j);
            lemma_ghost_index_of_unique(g, id, j);
        }
    }
}

/// What the update-and-spawn fold does, id by id: afterwards the table
/// carries the old ids and every snapshot id, a snapshot id's movement is
/// the snapshot's last word on it, and an untouched ghost keeps its
/// movement.
pub proof fn lemma_upsert_all_props(g: Seq<GhostPlayer>, u: Seq<PlayerMovedUpdate>)
    requires
        unique_ghost_ids(g),
    ensures
        unique_ghost_ids(upsert_all(g, u)),
        forall|id: u64|
            ghost_has_id(upsert_all(g, u), id) <==> (ghost_has_id(g, id) || upd_has_id(u, id)),
        forall|id: u64|
            upd_has_id(u, id) ==> ghost_movement_of(upsert_all(g, u), id) == last_movement(u, id),
        forall|id: u64|
            !upd_has_id(u, id) && ghost_has_id(g, id) ==> ghost_movement_of(upsert_all(g, u), id)
                == ghost_movement_of(g, id),
    decreases u.len(),
{
    if u.len() == 0 {
    } else {
        let x = u[0];
        let g1 = apply_update(g, x);
        let rest = u.drop_first();
        lemma_apply_update_props(g, x);
        lemma_upsert_all_props(g1, rest);
        let out = upsert_all(g, u);
        assert(out == upsert_all(g1, rest));
        assert forall|id: u64| ghost_has_id(out, id) implies (ghost_has_id(g, id) || upd_has_id(
            u,
            id,
        )) by {
            if upd_has_id(rest, id) {
                let j = choose|j: int| 0 <= j < rest.len() && rest[j].id == id;
                assert(u[j + 1].id == id);
            } else if id == x.id {
                assert(u[0].id == id);
            }
        }
        assert forall|id: u64| upd_has_id(u, id) implies ghost_has_id(out, id) by {
            let j = choose|j: int| 0 <= j < u.len() && u[j].id == id;
            if j == 0 {
                assert(ghost_has_id(g1, id));
            } else {
                assert(rest[j - 1].id == id);
                assert(upd_has_id(rest, id));
            }
        }
        assert forall|id: u64| upd_has_id(u, id) implies ghost_movement_of(out, id)
            == last_movement(u, id) by {
            if upd_has_id(rest, id) {
                assert(last_movement(u, id) == last_movement(rest, id));
            } else {
                let j = choose|j: int| 0 <= j < u.len() && u[j].id == id;
                if j != 0 {
                    assert(rest[j - 1].id == id);
                }
                assert(j == 0);
                assert(id == x.id);
                assert(last_movement(u, id) == x.movement);
                assert(ghost_movement_of(g1, id) == x.movement);
                assert(ghost_has_id(g1, id));
            }
        }
        assert forall|id: u64|
            !upd_has_id(u, id) && ghost_has_id(g, id) implies ghost_movement_of(out, id)
            == ghost_movement_of(g, id) by {
            assert(forall|j: int| 0 <= j < rest.len() ==> u[j + 1] == rest[j]);
            assert(!upd_has_id(rest, id)) by {
                if upd_has_id(rest, id) {
                    let j = choose|j: int| 0 <= j < rest.len() && rest[j].id == id;
                    assert(u[j + 1].id == id);
                }
            }
            assert(id != x.id) by {
                if id == x.id {
                    assert(u[0].id == id);
                }
            }
            assert(ghost_movement_of(g1, id) == ghost_movement_of(g, id));
            assert(ghost_has_id(g1, id));
        }
    }
}

/// What the despawn pass does, id by id: it keeps exactly the ghosts the
/// snapshot carries, with their movement.
pub proof fn lemma_keep_only_props(g: Seq<GhostPlayer>, u: Seq<PlayerMovedUpdate>)
    requires
        unique_ghost_ids(g),
    ensures
        unique_ghost_ids(keep_only(g, u)),
        forall|id: u64|
            ghost_has_id(keep_only(g, u), id) <==> (ghost_has_id(g, id) && upd_has_id(u, id)),
        forall|id: u64|
            ghost_has_id(keep_only(g, u), id) ==> ghost_movement_of(keep_only(g, u), id)
                == ghost_movement_of(g, id),
    decreases g.len(),
{
    let out = keep_only(g, u);
    if g.len() == 0 {
    } else {
        let tail = g.drop_first();
        let rest = keep_only(tail, u);
        assert(unique_ghost_ids(tail));
        lemma_keep_only_props(tail, u);
        assert forall|id: u64| ghost_has_id(rest, id) implies ghost_has_id(tail, id) by {}
        assert forall|id: u64| ghost_has_id(tail, id) implies ghost_has_id(g, id) by {
            let j = choose|j: int| 0 <= j < tail.len() && tail[j].id == id;
            assert(g[j + 1].id == id);
        }
        if upd_has_id(u, g[0].id) {
            assert forall|id: u64| ghost_has_id(out, id) implies (ghost_has_id(g, id)
                && upd_has_id(u, id)) by {
                let j = ghost_index_of(out, id);
                if j == 0 {
                    assert(out[0] == g[0]);
                } else {
                    assert(out[j] == rest[j - 1]);
                    assert(ghost_has_id(rest, id));
                }
            }
            assert forall|id: u64| ghost_has_id(g, id) && upd_has_id(u, id) implies ghost_has_id(
                out,
                id,
            ) by {
                let j = choose|j: int| 0 <= j < g.len() && g[j].id == id;
                if j == 0 {
                    assert(out[0].id == id);
                } else {
                    assert(tail[j - 1].id == id);
                    assert(ghost_has_id(rest, id));
                    let j2 = choose|j2: int| 0 <= j2 < rest.len() && rest[j2].id == id;
                    assert(out[j2 + 1].id == id);
                }
            }
            assert(unique_ghost_ids(out)) by {
                assert forall|k1: int, k2: int| 0 <= k1 < k2 < out.len() implies out[k1].id
                    != out[k2].id by {
                    if k1 == 0 {
                        assert(out[k2] == rest[k2 - 1]);
                        assert(ghost_has_id(rest, out[k2].id));
                        assert(ghost_has_id(tail, out[k2].id));
                        let j = choose|j: int| 0 <= j < tail.len() && tail[j].id == out[k2].id;
                        assert(g[j + 1].id == out[k2].id);
                        assert(g[0].id != g[j + 1].id);
                        assert(out[0] == g[0]);
                    } else {
                        assert(out[k1] == rest[k1 - 1]);
                        assert(out[k2] == rest[k2 - 1]);
                    }
                }
            }
            assert forall|id: u64| ghost_has_id(out, id) implies ghost_movement_of(out, id)
                == ghost_movement_of(g, id) by {
                let j = ghost_index_of(out, id);
                assert(out[j].id == id);
                if j == 0 {
                    assert(out[0] == g[0]);
                    lemma_ghost_index_of_unique(g, id, 0);
                    lemma_ghost_index_of_unique(out, id, 0);
                } else {
                    assert(out[j] == rest[j - 1]);
                    lemma_ghost_index_of_unique(rest, id, j - 1);
                    assert(ghost_movement_of(rest, id) == ghost_movement_of(tail, id));
                    let j2 = ghost_index_of(tail, id);
                    assert(tail[j2].id == id);
                    assert(g[j2 + 1].id == id);
                    lemma_ghost_index_of_unique(g, id, j2 + 1);
                    lemma_ghost_index_of_unique(out, id, j);
                    assert(ghost_movement_of(out, id) == out[j].movement);
                    assert(out[j] == rest[j - 1]);
                    assert(ghost_movement_of(rest, id) == rest[ghost_index_of(rest, id)].movement);
                    lemma_ghost_index_of_unique(rest, id, j - 1);
                    assert(ghost_movement_of(g, id) == g[j2 + 1].movement);
                    assert(tail[j2] == g[j2 + 1]);
                    assert(ghost_movement_of(tail, id) == tail[j2].movement) by {
                        lemma_ghost_index_of_unique(tail, id, j2);
                    }
                }
            }
        } else {
            assert(out == rest);
            assert forall|id: u64| ghost_has_id(g, id) && upd_has_id(u, id) implies ghost_has_id(
                out,
                id,
            ) by {
                let j = choose|j: int| 0 <= j < g.len() && g[j].id == id;
                if j == 0 {
                    assert(!upd_has_id(u, id));
                } else {
                    assert(tail[j - 1].id == id);
                }
            }
            assert forall|id: u64| ghost_has_id(out, id) implies ghost_movement_of(out, id)
                == ghost_movement_of(g, id) by {
                assert(ghost_has_id(tail, id));
                assert(ghost_movement_of(out, id) == ghost_movement_of(tail, id));
                let j2 = ghost_index_of(tail, id);
                assert(tail[j2].id == id);
                assert(g[j2 + 1].id == id);
                lemma_ghost_index_of_unique(g, id, j2 + 1);
                assert(tail[j2] == g[j2 + 1]);
                assert(ghost_movement_of(tail, id) == tail[j2].movement) by {
                    lemma_ghost_index_of_unique(tail, id, j2);
                }
            }
        }
    }
}

/// The whole diff, id by id: after reconciliation the ghost id set equals
/// the snapshot id set, and every ghost carries the snapshot's movement for
/// its id.
pub proof fn lemma_reconciled_props(g: Seq<GhostPlayer>, u: Seq<PlayerMovedUpdate>)
    requires
        unique_ghost_ids(g),
    ensures
        unique_ghost_ids(reconciled(g, u)),
        forall|id: u64| ghost_has_id(reconciled(g, u), id) <==> upd_has_id(u, id),
        forall|id: u64|
            upd_has_id(u, id) ==> ghost_movement_of(reconciled(g, u), id) == last_movement(u, id),
{
    lemma_upsert_all_props(g, u);
    lemma_keep_only_props(upsert_all(g, u), u);
}

/// The ids of a ghost table, in table order.
pub open spec fn ghost_ids(g: Seq<GhostPlayer>) -> Seq<u64>
    decreases g.len(),
{
    if g.len() == 0 {
        Seq::empty()
    } else {
        seq![g[0].id] + ghost_ids(g.drop_first())
    }
}

/// Law: an empty snapshot despawns all ghosts once, and processing it
/// twice in a row is a no-op the second time: the first reconciliation
/// leaves no ghost and reports every previously present id despawned; the
/// second leaves the empty table as it is and despawns nothing.
pub proof fn lemma_empty_snapshot_idempotent(g: Seq<GhostPlayer>)
    ensures
        reconciled(g, Seq::empty()) == Seq::<GhostPlayer>::empty(),
        despawned_ids(g, Seq::empty()) == ghost_ids(g),
        reconciled(reconciled(g, Seq::empty()), Seq::empty()) == reconciled(g, Seq::empty()),
        despawned_ids(reconciled(g, Seq::empty()), Seq::empty()) == Seq::<u64>::empty(),
    decreases g.len(),
{
    let u = Seq::<PlayerMovedUpdate>::empty();
    assert(upsert_all(g, u) == g);
    if g.len() == 0 {
        assert(keep_only(g, u) =~= Seq::<GhostPlayer>::empty());
        assert(despawned_ids(g, u) =~= ghost_ids(g));
    } else {
        lemma_empty_snapshot_idempotent(g.drop_first());
        assert(!upd_has_id(u, g[0].id));
        assert(keep_only(g, u) == keep_only(g.drop_first(), u));
        assert(upsert_all(g.drop_first(), u) == g.drop_first());
        assert(despawned_ids(g, u) == seq![g[0].id] + despawned_ids(g.drop_first(), u));
        assert(despawned_ids(g, u) =~= ghost_ids(g));
    }
}

/// `upsert_all` over a snapshot extended at the end.
pub proof fn lemma_upsert_all_snoc(g: Seq<GhostPlayer>, u: Seq<PlayerMovedUpdate>, x: PlayerMovedUpdate)
    ensures
        upsert_all(g, u.push(x)) == apply_update(upsert_all(g, u), x),
    decreases u.len(),
{
    let whole = u.push(x);
    if u.len() == 0 {
        assert(whole[0] == x);
        assert(whole.drop_first() =~= Seq::<PlayerMovedUpdate>::empty());
        assert(upsert_all(apply_update(g, x), whole.drop_first()) == apply_update(g, x));
    } else {
        assert(whole[0] == u[0]);
        assert(whole.drop_first() =~= u.drop_first().push(x));
        lemma_upsert_all_snoc(apply_update(g, u[0]), u.drop_first(), x);
    }
}

/// `spawned_ids` over a snapshot extended at the end.
pub proof fn lemma_spawned_snoc(g: Seq<GhostPlayer>, u: Seq<PlayerMovedUpdate>, x: PlayerMovedUpdate)
    ensures
        spawned_ids(g, u.push(x)) == if ghost_has_id(upsert_all(g, u), x.id) {
            spawned_ids(g, u)
        } else {
            spawned_ids(g, u) + seq![x.id]
        },
    decreases u.len(),
{
    let whole = u.push(x);
    if u.len() == 0 {
        assert(whole[0] == x);
        assert(whole.drop_first() =~= Seq::<PlayerMovedUpdate>::empty());
        assert(spawned_ids(apply_update(g, x), whole.drop_first()) == Seq::<u64>::empty());
        if ghost_has_id(upsert_all(g, u), x.id) {
            assert(spawned_ids(g, whole) =~= spawned_ids(g, u));
        } else {
            assert(spawned_ids(g, whole) =~= spawned_ids(g, u) + seq![x.id]);
        }
    } else {
        assert(whole[0] == u[0]);
        assert(whole.drop_first() =~= u.drop_first().push(x));
        let g1 = apply_update(g, u[0]);
        lemma_spawned_snoc(g1, u.drop_first(), x);
        assert(upsert_all(g, u) == upsert_all(g1, u.drop_first()));
        if !ghost_has_id(upsert_all(g, u), x.id) && !ghost_has_id(g, u[0].id) {
            assert(seq![u[0].id] + (spawned_ids(g1, u.drop_first()) + seq![x.id]) =~= (seq![
                u[0].id,
            ] + spawned_ids(g1, u.drop_first())) + seq![x.id]);
        }
    }
}

/// `keep_only` over a ghost table extended at the end.
pub proof fn lemma_keep_only_snoc(g: Seq<GhostPlayer>, x: GhostPlayer, u: Seq<PlayerMovedUpdate>)
    ensures
        keep_only(g + seq![x], u) == if upd_has_id(u, x.id) {
            keep_only(g, u) + seq![x]
        } else {
            keep_only(g, u)
        },
    decreases g.len(),
{
    let whole = g + seq![x];
    if g.len() == 0 {
        assert(whole.drop_first() =~= g);
        assert(whole[0] == x);
        assert(keep_only(whole.drop_first(), u) == g);
        if upd_has_id(u, x.id) {
            assert(keep_only(whole, u) =~= keep_only(g, u) + seq![x]);
        } else {
            assert(keep_only(whole, u) =~= keep_only(g, u));
        }
    } else {
        assert(whole[0] == g[0]);
        assert(whole.drop_first() =~= g.drop_first() + seq![x]);
        lemma_keep_only_snoc(g.drop_first(), x, u);
        if upd_has_id(u, x.id) && upd_has_id(u, g[0].id) {
            assert(seq![g[0]] + (keep_only(g.drop_first(), u) + seq![x]) =~= (seq![g[0]]
                + keep_only(g.drop_first(), u)) + seq![x]);
        }
    }
}

/// `despawned_ids` and `updated_ids` over a ghost table extended at the
/// end.
pub proof fn lemma_classify_snoc(g: Seq<GhostPlayer>, x: GhostPlayer, u: Seq<PlayerMovedUpdate>)
    ensures
        despawned_ids(g + seq![x], u) == if upd_has_id(u, x.id) {
            despawned_ids(g, u)
        } else {
            despawned_ids(g, u) + seq![x.id]
        },
        updated_ids(g + seq![x], u) == if upd_has_id(u, x.id) {
            updated_ids(g, u) + seq![x.id]
        } else {
            updated_ids(g, u)
        },
    decreases g.len(),
{
    let whole = g + seq![x];
    if g.len() == 0 {
        assert(whole.drop_first() =~= g);
        assert(whole[0] == x);
        assert(despawned_ids(whole.drop_first(), u) == Seq::<u64>::empty());
        assert(updated_ids(whole.drop_first(), u) == Seq::<u64>::empty());
        if upd_has_id(u, x.id) {
            assert(despawned_ids(whole, u) =~= despawned_ids(g, u));
            assert(updated_ids(whole, u) =~= updated_ids(g, u) + seq![x.id]);
        } else {
            assert(despawned_ids(whole, u) =~= despawned_ids(g, u) + seq![x.id]);
            assert(updated_ids(whole, u) =~= updated_ids(g, u));
        }
    } else {
        assert(whole[0] == g[0]);
        assert(whole.drop_first() =~= g.drop_first() + seq![x]);
        lemma_classify_snoc(g.drop_first(), x, u);
        if !upd_has_id(u, x.id) && !upd_has_id(u, g[0].id) {
            assert(seq![g[0].id] + (despawned_ids(g.drop_first(), u) + seq![x.id]) =~= (seq![
                g[0].id,
            ] + despawned_ids(g.drop_first(), u)) + seq![x.id]);
        }
        if upd_has_id(u, x.id) && upd_has_id(u, g[0].id) {
            assert(seq![g[0].id] + (updated_ids(g.drop_first(), u) + seq![x.id]) =~= (seq![
                g[0].id,
            ] + updated_ids(g.drop_first(), u)) + seq![x.id]);
        }
    }
}

/// The ids of the snapshot's entries, in snapshot order.
pub fn get_player_id_list(updates: &Vec<PlayerMovedUpdate>) -> (ids: Vec<u64>)
    ensures
        ids@ == updates@.map_values(|x: PlayerMovedUpdate| x.id),
{
    let n = updates.len();
    let mut ids: Vec<u64> = Vec::new();
    let mut k: usize = 0;
    while k < n
        invariant
            n == updates@.len(),
            k <= n,
            ids@.len() == k,
            forall|j: int| 0 <= j < k ==> ids@[j] == updates@[j].id,
        decreases n - k,
    {
        ids.push(updates[k].id);
        k = k + 1;
    }
    proof {
        assert(ids@ =~= updates@.map_values(|x: PlayerMovedUpdate| x.id));
    }
    ids
}

/// Whether the snapshot carries an entry for `id`.
fn updates_contain(updates: &Vec<PlayerMovedUpdate>, id: u64) -> (r: bool)
    ensures
        r == upd_has_id(updates@, id),
{
    let n = updates.len();
    let mut k: usize = 0;
    while k < n
        invariant
            n == updates@.len(),
            k <= n,
            forall|j: int| 0 <= j < k ==> updates@[j].id != id,
        decreases n - k,
    {
        if updates[k].id == id {
            return true;
        }
        k = k + 1;
    }
    false
}

/// What one reconciliation did, for the rendering collaborator: which
/// ghosts were moved in place, which were despawned, and which were newly
/// spawned.
#[derive(Debug, Clone, PartialEq, Eq)]
pub struct ReconcileOutcome {
    pub updated: Vec<u64>,
    pub despawned: Vec<u64>,
    pub spawned: Vec<u64>,
}

/// The client's table of remote-player ghosts, one per remote player
/// currently believed present.
#[derive(Debug)]
pub struct GhostWorld {
    ghosts: Vec<GhostPlayer>,
}

impl View for GhostWorld {
    type V = Seq<GhostPlayer>;

    closed spec fn view(&self) -> Seq<GhostPlayer> {
        self.ghosts@
    }
}

impl GhostWorld {
    /// Well-formed: no two ghosts share an id.
    pub open spec fn wf(&self) -> bool {
        unique_ghost_ids(self@)
    }

    /// Whether a ghost exists for `id`.
    pub open spec fn contains_id(&self, id: u64) -> bool {
        ghost_has_id(self@, id)
    }

    /// The movement of the ghost for `id` (meaningful when
    /// `contains_id(id)`).
    pub open spec fn movement_for(&self, id: u64) -> PlayerMovement {
        ghost_movement_of(self@, id)
    }

    pub fn new() -> (w: GhostWorld)
        ensures
            w@ =~= Seq::<GhostPlayer>::empty(),
            w.wf(),
    {
        GhostWorld { ghosts: Vec::new() }
    }

    /// How many ghosts are currently present.
    pub fn len(&self) -> (n: usize)
        ensures
            n == self@.len(),
    {
        self.ghosts.len()
    }

    /// The ghost at a table position, for read-only walks.
    pub fn get(&self, k: usize) -> (gp: GhostPlayer)
        requires
            k < self@.len(),
        ensures
            gp == self@[k as int],
    {
        self.ghosts[k]
    }

    /// The position of the ghost for `id`, if one exists.
    fn find(&self, id: u64) -> (r: Option<usize>)
        ensures
            match r {
                Some(k) => k < self@.len() && self@[k as int].id == id,
                None => !ghost_has_id(self@, id),
            },
    {
        let n = self.ghosts.len();
        let mut k: usize = 0;
        while k < n
            invariant
                n == self@.len(),
                k <= n,
                forall|j: int| 0 <= j < k ==> self@[j].id != id,
            decreases n - k,
        {
            if self.ghosts[k].id == id {
                return Some(k);
            }
            k = k + 1;
        }
        None
    }

    /// Spawn a ghost for a newly seen id, placed at the snapshot's reported
    /// movement.
    pub fn spawn_player(&mut self, id: u64, movement: PlayerMovement)
        requires
            old(self).wf(),
            !old(self).contains_id(id),
        ensures
            final(self).wf(),
            final(self)@ == old(self)@.push(GhostPlayer { id, movement }),
    {
        self.ghosts.push(GhostPlayer { id, movement });
        proof {
            let olds = old(self)@;
            let n = olds.len() as int;
            assert forall|k1: int, k2: int| 0 <= k1 < k2 < self@.len() implies self@[k1].id
                != self@[k2].id by {
                if k2 < n {
                    assert(olds[k1].id != olds[k2].id);
                } else {
                    assert(self@[k1] == olds[k1]);
                    assert(olds[k1].id != id);
                }
            }
        }
    }

    /// Overwrite a present ghost's movement with the snapshot's report (no
    /// interpolation).
    pub fn move_player(&mut self, id: u64, movement: PlayerMovement)
        requires
            old(self).wf(),
            old(self).contains_id(id),
        ensures
            final(self).wf(),
            final(self)@ == old(self)@.update(
                ghost_index_of(old(self)@, id),
                GhostPlayer { id, movement },
            ),
    {
        let found = self.find(id);
        match found {
            Some(k) => {
                proof {
                    lemma_ghost_index_of_unique(self@, id, k as int);
                }
                self.ghosts.set(k, GhostPlayer { id, movement });
                proof {
                    assert forall|k1: int, k2: int| 0 <= k1 < k2 < self@.len() implies self@[k1].id
                        != self@[k2].id by {
                        assert(old(self)@[k1].id != old(self)@[k2].id);
                    }
                }
            },
            None => {
                proof {
                    assert(false);
                }
            },
        }
    }

    /// Despawn the ghost for `id`, removing it from the table; reports
    /// whether one was present.
    pub fn despawn_player(&mut self, id: u64) -> (removed: bool)
        requires
            old(self).wf(),
        ensures
            final(self).wf(),
            !final(self).contains_id(id),
            removed == old(self).contains_id(id),
            removed ==> final(self)@ == old(self)@.remove(ghost_index_of(old(self)@, id)),
            !removed ==> final(self)@ == old(self)@,
    {
        let found = self.find(id);
        match found {
            Some(k) => {
                proof {
                    lemma_ghost_index_of_unique(self@, id, k as int);
                }
                self.ghosts.remove(k);
                proof {
                    let ki = k as int;
                    let olds = old(self)@;
                    assert forall|k1: int, k2: int| 0 <= k1 < k2 < self@.len() implies self@[k1].id
                        != self@[k2].id by {
                        let o1: int = if k1 < ki {
                            k1
                        } else {
                            k1 + 1
                        };
                        let o2: int = if k2 < ki {
                            k2
                        } else {
                            k2 + 1
                        };
                        assert(self@[k1] == olds[o1]);
                        assert(self@[k2] == olds[o2]);
                    }
                    assert forall|j: int| 0 <= j < self@.len() implies self@[j].id != id by {
                        let o: int = if j < ki {
                            j
                        } else {
                            j + 1
                        };
                        assert(self@[j] == olds[o]);
                        if o != ki {
                            assert(olds[o].id != olds[ki].id);
                        }
                    }
                }
                true
            },
            None => false,
        }
    }

    /// Reconcile the table against one received snapshot, atomically: move
    /// every matched ghost to the snapshot's movement, despawn every ghost
    /// the snapshot does not carry, spawn a ghost for every newly seen id.
    /// Afterwards the ghost id set equals the snapshot id set exactly.
    pub fn moved_players_updated(&mut self, updates: &Vec<PlayerMovedUpdate>) -> (outcome:
        ReconcileOutcome)
        requires
            old(self).wf(),
        ensures
            final(self).wf(),
            final(self)@ == reconciled(old(self)@, updates@),
            forall|id: u64| final(self).contains_id(id) <==> upd_has_id(updates@, id),
            forall|id: u64|
                upd_has_id(updates@, id) ==> final(self).movement_for(id) == last_movement(
                    updates@,
                    id,
                ),
            outcome.updated@ == updated_ids(old(self)@, updates@),
            outcome.despawned@ == despawned_ids(old(self)@, updates@),
            outcome.spawned@ == spawned_ids(old(self)@, updates@),
    {
        let n0 = self.ghosts.len();
        let mut updated: Vec<u64> = Vec::new();
        let mut despawned: Vec<u64> = Vec::new();
        let mut k: usize = 0;
        proof {
            assert(old(self)@.take(0) =~= Seq::<GhostPlayer>::empty());
        }
        while k < n0
            invariant
                self@ == old(self)@,
                n0 == old(self)@.len(),
                k <= n0,
                updated@ == updated_ids(old(self)@.take(k as int), updates@),
                despawned@ == despawned_ids(old(self)@.take(k as int), updates@),
            decreases n0 - k,
        {
            let gp = self.ghosts[k];
            proof {
                assert(old(self)@.take(k as int + 1) =~= old(self)@.take(k as int) + seq![
                    old(self)@[k as int],
                ]);
                lemma_classify_snoc(old(self)@.take(k as int), old(self)@[k as int], updates@);
            }
            if updates_contain(updates, gp.id) {
                updated.push(gp.id);
            } else {
                despawned.push(gp.id);
            }
            k = k + 1;
        }
        proof {
            assert(old(self)@.take(n0 as int) =~= old(self)@);
        }
        let n1 = updates.len();
        let mut spawned: Vec<u64> = Vec::new();
        let mut k1: usize = 0;
        proof {
            assert(updates@.take(0) =~= Seq::<PlayerMovedUpdate>::empty());
        }
        while k1 < n1
            invariant
                old(self).wf(),
                n1 == updates@.len(),
                k1 <= n1,
                self@ == upsert_all(old(self)@, updates@.take(k1 as int)),
                self.wf(),
                spawned@ == spawned_ids(old(self)@, updates@.take(k1 as int)),
            decreases n1 - k1,
        {
            let x = updates[k1];
            proof {
                assert(updates@.take(k1 as int + 1) =~= updates@.take(k1 as int).push(
                    updates@[k1 as int],
                ));
                lemma_upsert_all_snoc(old(self)@, updates@.take(k1 as int), updates@[k1 as int]);
                lemma_spawned_snoc(old(self)@, updates@.take(k1 as int), updates@[k1 as int]);
            }
            let found = self.find(x.id);
            match found {
                Some(j) => {
                    proof {
                        lemma_ghost_index_of_unique(self@, x.id, j as int);
                    }
                    self.ghosts.set(j, GhostPlayer { id: x.id, movement: x.movement });
                    proof {
                        assert forall|j1: int, j2: int|
                            0 <= j1 < j2 < self@.len() implies self@[j1].id != self@[j2].id by {
                            let mid = upsert_all(old(self)@, updates@.take(k1 as int));
                            assert(mid[j1].id != mid[j2].id);
                        }
                    }
                },
                None => {
                    self.ghosts.push(GhostPlayer { id: x.id, movement: x.movement });
                    spawned.push(x.id);
                    proof {
                        let mid = upsert_all(old(self)@, updates@.take(k1 as int));
                        let n = mid.len() as int;
                        assert forall|j1: int, j2: int|
                            0 <= j1 < j2 < self@.len() implies self@[j1].id != self@[j2].id by {
                            if j2 < n {
                                assert(mid[j1].id != mid[j2].id);
                            } else {
                                assert(self@[j1] == mid[j1]);
                                assert(mid[j1].id != x.id);
                            }
                        }
                    }
                },
            }
            k1 = k1 + 1;
        }
        proof {
            assert(updates@.take(n1 as int) =~= updates@);
        }
        let n2 = self.ghosts.len();
        let mut kept: Vec<GhostPlayer> = Vec::new();
        let mut k2: usize = 0;
        let ghost upserted = self@;
        proof {
            assert(upserted.take(0) =~= Seq::<GhostPlayer>::empty());
        }
        while k2 < n2
            invariant
                self@ == upserted,
                n2 == upserted.len(),
                k2 <= n2,
                kept@ == keep_only(upserted.take(k2 as int), updates@),
            decreases n2 - k2,
        {
            let gp = self.ghosts[k2];
            proof {
                assert(upserted.take(k2 as int + 1) =~= upserted.take(k2 as int) + seq![
                    upserted[k2 as int],
                ]);
                lemma_keep_only_snoc(upserted.take(k2 as int), upserted[k2 as int], updates@);
            }
            if updates_contain(updates, gp.id) {
                kept.push(gp);
            }
            k2 = k2 + 1;
        }
        proof {
            assert(upserted.take(n2 as int) =~= upserted);
        }
        self.ghosts = kept;
        proof {
            lemma_reconciled_props(old(self)@, updates@);
        }
        ReconcileOutcome { updated, despawned, spawned }
    }
}

} // verus!
