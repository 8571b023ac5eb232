//! The highscore register: a single authoritative best-time record with
//! compare-and-replace semantics. `time_in_seconds == 0` is the "unset"
//! sentinel. A candidate of `0` is conflated with the sentinel by the wire
//! format, so this crate treats it as "no time" and never lets it replace
//! anything; a real candidate replaces the record exactly when the record
//! is unset or the candidate is strictly smaller.

use vstd::prelude::*;

use crate::wire::Highscore;

verus! {

/// Whether `candidate` replaces the stored record `current`.
pub open spec fn accepts(current: u64, candidate: u64) -> bool {
    candidate != 0 && (current == 0 || candidate < current)
}

/// The record after one candidate has been arbitrated.
pub open spec fn accept_spec(current: u64, candidate: u64) -> u64 {
    if accepts(current, candidate) {
        candidate
    } else {
        current
    }
}

/// Pure compare-and-replace rule, decoupled from any broadcast side effect.
pub fn accept(current: Highscore, candidate: Highscore) -> (r: Highscore)
    ensures
        r.time_in_seconds == accept_spec(current.time_in_seconds, candidate.time_in_seconds),
{
    if candidate.time_in_seconds != 0
        && (current.time_in_seconds == 0 || candidate.time_in_seconds < current.time_in_seconds)
    {
        candidate
    } else {
        current
    }
}

/// The record after a whole sequence of candidates, applied in order.
pub open spec fn apply_candidates(current: u64, candidates: Seq<u64>) -> u64
    decreases candidates.len(),
{
    if candidates.len() == 0 {
        current
    } else {
        apply_candidates(accept_spec(current, candidates[0]), candidates.drop_first())
    }
}

/// Law: once the record is set (non-zero), any sequence of candidates leaves
/// it set and never increases it.
pub proof fn lemma_record_monotone(current: u64, candidates: Seq<u64>)
    requires
        current != 0,
    ensures
        apply_candidates(current, candidates) <= current,
        apply_candidates(current, candidates) != 0,
    decreases candidates.len(),
{
    if candidates.len() > 0 {
        lemma_record_monotone(accept_spec(current, candidates[0]), candidates.drop_first());
    }
}

/// Applying a concatenated sequence of candidates is applying the two parts
/// in turn.
pub proof fn lemma_apply_candidates_split(current: u64, a: Seq<u64>, b: Seq<u64>)
    ensures
        apply_candidates(current, a + b) == apply_candidates(apply_candidates(current, a), b),
    decreases a.len(),
{
    if a.len() == 0 {
        assert(a + b =~= b);
    } else {
        assert((a + b).drop_first() =~= a.drop_first() + b);
        lemma_apply_candidates_split(accept_spec(current, a[0]), a.drop_first(), b);
    }
}

/// Law: the arbitration is last-writer-wins-by-minimum. After any sequence
/// of candidates the record is unset exactly when it started unset and no
/// real candidate came; otherwise it is the starting record or one of the
/// candidates, no larger than the starting record (if set) and no larger
/// than any real candidate — that is, the minimum of the real times seen.
pub proof fn lemma_record_is_minimum(current: u64, candidates: Seq<u64>)
    ensures
        (apply_candidates(current, candidates) == 0) <==> (current == 0 && (forall|j: int|
            0 <= j < candidates.len() ==> candidates[j] == 0)),
        apply_candidates(current, candidates) != 0 ==> (apply_candidates(current, candidates)
            == current || exists|j: int|
            0 <= j < candidates.len() && candidates[j] == apply_candidates(current, candidates)),
        current != 0 ==> apply_candidates(current, candidates) <= current,
        forall|j: int|
            0 <= j < candidates.len() && #[trigger] candidates[j] != 0 ==> apply_candidates(
                current,
                candidates,
            ) <= candidates[j],
    decreases candidates.len(),
{
    if candidates.len() == 0 {
    } else {
        let c1 = accept_spec(current, candidates[0]);
        let rest = candidates.drop_first();
        let r = apply_candidates(current, candidates);
        lemma_record_is_minimum(c1, rest);
        assert(forall|j: int| 0 <= j < rest.len() ==> rest[j] == candidates[j + 1]);
        assert((r == 0) <==> (current == 0 && (forall|j: int|
            0 <= j < candidates.len() ==> candidates[j] == 0))) by {
            if r == 0 {
                assert(c1 == 0);
                assert(current == 0 && candidates[0] == 0);
                assert forall|j: int| 0 <= j < candidates.len() implies candidates[j] == 0 by {
                    if j > 0 {
                        assert(rest[j - 1] == 0);
                    }
                }
            } else {
                if current == 0 && (forall|j: int|
                    0 <= j < candidates.len() ==> candidates[j] == 0) {
                    assert(candidates[0] == 0);
                    assert(c1 == 0);
                    assert(forall|j: int| 0 <= j < rest.len() ==> rest[j] == 0);
                }
            }
        }
        if r != 0 {
            if r != current {
                if r == c1 {
                    assert(c1 != current);
                    assert(candidates[0] == c1);
                } else {
                    let j = choose|j: int| 0 <= j < rest.len() && rest[j] == r;
                    assert(candidates[j + 1] == r);
                }
            }
        }
        assert forall|j: int|
            0 <= j < candidates.len() && #[trigger] candidates[j] != 0 implies r
            <= candidates[j] by {
            if j == 0 {
                assert(c1 != 0);
                assert(c1 <= candidates[0]);
            } else {
                assert(rest[j - 1] == candidates[j]);
            }
        }
    }
}

/// Law: across any sequence of `RequestPossibleHighscore` candidates, the
/// record is monotonically non-increasing except from its initial unset
/// sentinel: between any two points of the sequence, once the record has
/// left `0` it can only stay or shrink, and can never return to `0`.
pub proof fn lemma_record_monotone_between(current: u64, candidates: Seq<u64>, i: int, j: int)
    requires
        0 <= i <= j <= candidates.len(),
        apply_candidates(current, candidates.take(i)) != 0,
    ensures
        apply_candidates(current, candidates.take(j))
            <= apply_candidates(current, candidates.take(i)),
        apply_candidates(current, candidates.take(j)) != 0,
{
    let at_i = apply_candidates(current, candidates.take(i));
    assert(candidates.take(i) + candidates.subrange(i, j) =~= candidates.take(j));
    lemma_apply_candidates_split(current, candidates.take(i), candidates.subrange(i, j));
    lemma_record_monotone(at_i, candidates.subrange(i, j));
}

} // verus!
