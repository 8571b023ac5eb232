//! The wire encoding: length-prefixed, tag-discriminated binary records,
//! little-endian throughout. Both ends of the protocol use exactly this
//! layout, and encoding round-trips losslessly: decoding the encoding of
//! any message yields that message, and a malformed byte string decodes to
//! nothing (the caller drops it silently).
//!
//! Layout. An unsigned integer is written least-significant byte first. A
//! `PlayerMovement` is its four components as 4-byte integers (16 bytes). A
//! snapshot entry is the 8-byte id then the movement (24 bytes). A message
//! is one tag byte, then its payload; a snapshot payload is a 4-byte entry
//! count then the entries. A frame for a byte stream is the 4-byte body
//! length then the body.

use vstd::prelude::*;

use vstd::arithmetic::div_mod::{lemma_fundamental_div_mod, lemma_multiply_divide_lt};

use crate::wire::{Highscore, PlayerMessage, PlayerMovedUpdate, PlayerMovement, ServerMessage};

verus! {

/// 256 to the power `e`: the number of values `e` bytes can carry.
pub open spec fn pow256(e: nat) -> nat
    decreases e,
{
    if e == 0 {
        1nat
    } else {
        (256 * pow256((e - 1) as nat)) as nat
    }
}

/// The `count` little-endian bytes of `n` (meaningful when `n` fits).
pub open spec fn le_bytes(n: nat, count: nat) -> Seq<u8>
    decreases count,
{
    if count == 0 {
        Seq::empty()
    } else {
        seq![(n % 256) as u8] + le_bytes(n / 256, (count - 1) as nat)
    }
}

/// The value of a little-endian byte string.
pub open spec fn le_val(b: Seq<u8>) -> nat
    decreases b.len(),
{
    if b.len() == 0 {
        0
    } else {
        (b[0] + 256 * le_val(b.drop_first())) as nat
    }
}

pub proof fn lemma_le_bytes_len(n: nat, count: nat)
    ensures
        le_bytes(n, count).len() == count,
    decreases count,
{
    if count > 0 {
        lemma_le_bytes_len(n / 256, (count - 1) as nat);
    }
}

/// Reading back the little-endian bytes of `n` yields `n`.
pub proof fn lemma_le_round(n: nat, count: nat)
    requires
        n < pow256(count),
    ensures
        le_val(le_bytes(n, count)) == n,
    decreases count,
{
    if count == 0 {
        assert(pow256(0) == 1);
    } else {
        let rest = le_bytes(n / 256, (count - 1) as nat);
        assert(pow256(count) == 256 * pow256((count - 1) as nat));
        lemma_multiply_divide_lt(n as int, 256, pow256((count - 1) as nat) as int);
        lemma_le_round(n / 256, (count - 1) as nat);
        assert(le_bytes(n, count).drop_first() =~= rest);
        lemma_fundamental_div_mod(n as int, 256);
    }
}

/// The value of a byte string fits in as many bytes as it has.
pub proof fn lemma_le_val_bound(b: Seq<u8>)
    ensures
        le_val(b) < pow256(b.len()),
    decreases b.len(),
{
    if b.len() == 0 {
        assert(pow256(0) == 1);
    } else {
        lemma_le_val_bound(b.drop_first());
        assert(pow256(b.len()) == 256 * pow256((b.len() - 1) as nat));
        assert(le_val(b) == b[0] + 256 * le_val(b.drop_first()));
        assert(256 * le_val(b.drop_first()) <= 256 * (pow256((b.len() - 1) as nat) - 1));
    }
}

/// The powers of 256 this codec meets, written out.
pub proof fn lemma_pow256_values()
    ensures
        pow256(0) == 1,
        pow256(1) == 0x100,
        pow256(2) == 0x10000,
        pow256(3) == 0x1000000,
        pow256(4) == 0x100000000,
        pow256(5) == 0x10000000000,
        pow256(6) == 0x1000000000000,
        pow256(7) == 0x100000000000000,
        pow256(8) == 0x10000000000000000,
{
    assert(pow256(0) == 1);
    assert(pow256(1) == 256 * pow256(0));
    assert(pow256(2) == 256 * pow256(1));
    assert(pow256(3) == 256 * pow256(2));
    assert(pow256(4) == 256 * pow256(3));
    assert(pow256(5) == 256 * pow256(4));
    assert(pow256(6) == 256 * pow256(5));
    assert(pow256(7) == 256 * pow256(6));
    assert(pow256(8) == 256 * pow256(7));
}

/// Append the `count` little-endian bytes of `n`.
fn write_le(out: &mut Vec<u8>, n: u64, count: usize)
    requires
        count <= 8,
        (n as nat) < pow256(count as nat),
    ensures
        final(out)@ == old(out)@ + le_bytes(n as nat, count as nat),
{
    let mut rest: u64 = n;
    let mut k: usize = 0;
    proof {
        assert(le_bytes(n as nat, count as nat).take(0) =~= Seq::<u8>::empty());
        assert(out@ =~= out@ + le_bytes(n as nat, count as nat).take(0));
        lemma_le_bytes_len(n as nat, count as nat);
    }
    while k < count
        invariant
            k <= count,
            count <= 8,
            le_bytes(n as nat, count as nat).len() == count,
            out@ == old(out)@ + le_bytes(n as nat, count as nat).take(k as int),
            le_bytes(rest as nat, (count - k) as nat) =~= le_bytes(n as nat, count as nat).skip(
                k as int,
            ),
            (rest as nat) < pow256((count - k) as nat),
        decreases count - k,
    {
        let b: u8 = (rest % 256) as u8;
        proof {
            let whole = le_bytes(n as nat, count as nat);
            let tail = le_bytes(rest as nat, (count - k) as nat);
            assert(tail[0] == b);
            assert(whole.skip(k as int)[0] == whole[k as int]);
            assert(whole.take(k as int + 1) =~= whole.take(k as int) + seq![whole[k as int]]);
            assert(tail.drop_first() =~= le_bytes(rest as nat / 256, (count - k - 1) as nat));
            assert(whole.skip(k as int + 1) =~= whole.skip(k as int).drop_first());
            assert(pow256((count - k) as nat) == 256 * pow256((count - k - 1) as nat));
            lemma_multiply_divide_lt(rest as int, 256, pow256((count - k - 1) as nat) as int);
        }
        out.push(b);
        rest = rest / 256;
        k = k + 1;
    }
    proof {
        assert(le_bytes(n as nat, count as nat).take(count as int) =~= le_bytes(
            n as nat,
            count as nat,
        ));
    }
}

/// Read a `count`-byte little-endian integer at `pos`.
fn read_le(buf: &Vec<u8>, pos: usize, count: usize) -> (v: u64)
    requires
        count <= 8,
        pos + count <= buf@.len(),
    ensures
        v as nat == le_val(buf@.subrange(pos as int, pos + count)),
{
    let n = buf.len();
    let mut v: u64 = 0;
    let mut i: usize = count;
    proof {
        assert(buf@.subrange(pos + count, pos + count) =~= Seq::<u8>::empty());
        lemma_pow256_values();
    }
    while i > 0
        invariant
            i <= count,
            count <= 8,
            n == buf@.len(),
            pos + count <= n,
            v as nat == le_val(buf@.subrange(pos + i, pos + count)),
            (v as nat) < pow256((count - i) as nat),
        decreases i,
    {
        let b = buf[pos + (i - 1)];
        proof {
            let tail = buf@.subrange(pos + i, pos + count);
            let longer = buf@.subrange(pos + i - 1, pos + count);
            assert(longer[0] == b);
            assert(longer.drop_first() =~= tail);
            assert(pow256((count - i + 1) as nat) == 256 * pow256((count - i) as nat));
            lemma_pow256_values();
            assert(pow256((count - i + 1) as nat) <= pow256(8)) by {
                lemma_pow256_le(((count - i) + 1) as nat, 8);
            }
            assert(256 * (v as nat) <= 256 * (pow256((count - i) as nat) - 1));
        }
        v = b as u64 + 256 * v;
        i = i - 1;
    }
    proof {
        assert(buf@.subrange(pos as int, pos + count) =~= buf@.subrange(pos + 0, pos + count));
    }
    v
}

/// Every power of 256 is positive.
pub proof fn lemma_pow256_pos(e: nat)
    ensures
        pow256(e) >= 1,
    decreases e,
{
    if e > 0 {
        lemma_pow256_pos((e - 1) as nat);
    }
}

/// Powers of 256 grow with the exponent.
pub proof fn lemma_pow256_le(a: nat, b: nat)
    requires
        a <= b,
    ensures
        pow256(a) <= pow256(b),
        pow256(a) >= 1,
    decreases b,
{
    lemma_pow256_pos(a);
    if a < b {
        lemma_pow256_le(a, (b - 1) as nat);
        assert(pow256(b) == 256 * pow256((b - 1) as nat));
    }
}

/// The bytes of a movement: its four components, 4 bytes each.
pub open spec fn enc_movement(m: PlayerMovement) -> Seq<u8> {
    le_bytes(m.velocity_x as nat, 4) + le_bytes(m.velocity_y as nat, 4) + le_bytes(
        m.translation_x as nat,
        4,
    ) + le_bytes(m.translation_y as nat, 4)
}

/// The movement a 16-byte string carries.
pub open spec fn dec_movement(b: Seq<u8>) -> PlayerMovement {
    PlayerMovement {
        velocity_x: le_val(b.subrange(0, 4)) as u32,
        velocity_y: le_val(b.subrange(4, 8)) as u32,
        translation_x: le_val(b.subrange(8, 12)) as u32,
        translation_y: le_val(b.subrange(12, 16)) as u32,
    }
}

pub proof fn lemma_enc_movement_len(m: PlayerMovement)
    ensures
        enc_movement(m).len() == 16,
{
    lemma_le_bytes_len(m.velocity_x as nat, 4);
    lemma_le_bytes_len(m.velocity_y as nat, 4);
    lemma_le_bytes_len(m.translation_x as nat, 4);
    lemma_le_bytes_len(m.translation_y as nat, 4);
}

/// A movement survives the trip through its bytes.
pub proof fn lemma_movement_round(m: PlayerMovement)
    ensures
        enc_movement(m).len() == 16,
        dec_movement(enc_movement(m)) == m,
{
    lemma_enc_movement_len(m);
    lemma_pow256_values();
    lemma_le_bytes_len(m.velocity_x as nat, 4);
    lemma_le_bytes_len(m.velocity_y as nat, 4);
    lemma_le_bytes_len(m.translation_x as nat, 4);
    lemma_le_bytes_len(m.translation_y as nat, 4);
    let e = enc_movement(m);
    assert(e.subrange(0, 4) =~= le_bytes(m.velocity_x as nat, 4));
    assert(e.subrange(4, 8) =~= le_bytes(m.velocity_y as nat, 4));
    assert(e.subrange(8, 12) =~= le_bytes(m.translation_x as nat, 4));
    assert(e.subrange(12, 16) =~= le_bytes(m.translation_y as nat, 4));
    lemma_le_round(m.velocity_x as nat, 4);
    lemma_le_round(m.velocity_y as nat, 4);
    lemma_le_round(m.translation_x as nat, 4);
    lemma_le_round(m.translation_y as nat, 4);
}

/// Append the 16 bytes of a movement.
fn write_movement(out: &mut Vec<u8>, m: &PlayerMovement)
    ensures
        final(out)@ == old(out)@ + enc_movement(*m),
{
    proof {
        lemma_pow256_values();
    }
    write_le(out, m.velocity_x as u64, 4);
    write_le(out, m.velocity_y as u64, 4);
    write_le(out, m.translation_x as u64, 4);
    write_le(out, m.translation_y as u64, 4);
    proof {
        assert(final(out)@ =~= old(out)@ + enc_movement(*m));
    }
}

/// Read the 16 bytes of a movement at `pos`.
fn read_movement(buf: &Vec<u8>, pos: usize) -> (m: PlayerMovement)
    requires
        pos + 16 <= buf@.len(),
    ensures
        m == dec_movement(buf@.subrange(pos as int, pos + 16)),
{
    let n = buf.len();
    proof {
        lemma_pow256_values();
        lemma_le_val_bound(buf@.subrange(pos + 0, pos + 4));
        lemma_le_val_bound(buf@.subrange(pos + 4, pos + 8));
        lemma_le_val_bound(buf@.subrange(pos + 8, pos + 12));
        lemma_le_val_bound(buf@.subrange(pos + 12, pos + 16));
    }
    let vx = read_le(buf, pos, 4);
    let vy = read_le(buf, pos + 4, 4);
    let tx = read_le(buf, pos + 8, 4);
    let ty = read_le(buf, pos + 12, 4);
    let m = PlayerMovement {
        velocity_x: vx as u32,
        velocity_y: vy as u32,
        translation_x: tx as u32,
        translation_y: ty as u32,
    };
    proof {
        let whole = buf@.subrange(pos as int, pos + 16);
        assert(whole.subrange(0, 4) =~= buf@.subrange(pos + 0, pos + 4));
        assert(whole.subrange(4, 8) =~= buf@.subrange(pos + 4, pos + 8));
        assert(whole.subrange(8, 12) =~= buf@.subrange(pos + 8, pos + 12));
        assert(whole.subrange(12, 16) =~= buf@.subrange(pos + 12, pos + 16));
    }
    m
}

/// The bytes of one client-to-server message.
pub open spec fn spec_encode_player_message(m: PlayerMessage) -> Seq<u8> {
    match m {
        PlayerMessage::Ping => seq![0u8],
        PlayerMessage::JoinGame(mv) => seq![1u8] + enc_movement(mv),
        PlayerMessage::PlayerMoved(mv) => seq![2u8] + enc_movement(mv),
        PlayerMessage::RequestPossibleHighscore(h) => seq![3u8] + le_bytes(
            h.time_in_seconds as nat,
            8,
        ),
        PlayerMessage::LeaveGame => seq![4u8],
    }
}

/// The client-to-server message a byte string carries, if any. The string
/// must be exactly one well-formed message; anything else decodes to
/// nothing and is dropped.
pub open spec fn spec_decode_player_message(b: Seq<u8>) -> Option<PlayerMessage> {
    if b.len() == 0 {
        None
    } else if b[0] == 0 {
        if b.len() == 1 {
            Some(PlayerMessage::Ping)
        } else {
            None
        }
    } else if b[0] == 1 {
        if b.len() == 17 {
            Some(PlayerMessage::JoinGame(dec_movement(b.skip(1))))
        } else {
            None
        }
    } else if b[0] == 2 {
        if b.len() == 17 {
            Some(PlayerMessage::PlayerMoved(dec_movement(b.skip(1))))
        } else {
            None
        }
    } else if b[0] == 3 {
        if b.len() == 9 {
            Some(
                PlayerMessage::RequestPossibleHighscore(
                    Highscore { time_in_seconds: le_val(b.skip(1)) as u64 },
                ),
            )
        } else {
            None
        }
    } else if b[0] == 4 {
        if b.len() == 1 {
            Some(PlayerMessage::LeaveGame)
        } else {
            None
        }
    } else {
        None
    }
}

/// Law: every client-to-server message survives the round trip through its
/// bytes.
pub proof fn lemma_player_message_round_trip(m: PlayerMessage)
    ensures
        spec_decode_player_message(spec_encode_player_message(m)) == Some(m),
{
    let e = spec_encode_player_message(m);
    match m {
        PlayerMessage::Ping => {},
        PlayerMessage::JoinGame(mv) => {
            lemma_movement_round(mv);
            assert(e.skip(1) =~= enc_movement(mv));
        },
        PlayerMessage::PlayerMoved(mv) => {
            lemma_movement_round(mv);
            assert(e.skip(1) =~= enc_movement(mv));
        },
        PlayerMessage::RequestPossibleHighscore(h) => {
            lemma_le_bytes_len(h.time_in_seconds as nat, 8);
            lemma_pow256_values();
            lemma_le_round(h.time_in_seconds as nat, 8);
            assert(e.skip(1) =~= le_bytes(h.time_in_seconds as nat, 8));
        },
        PlayerMessage::LeaveGame => {},
    }
}

/// Encode one client-to-server message.
pub fn encode_player_message(m: &PlayerMessage) -> (out: Vec<u8>)
    ensures
        out@ == spec_encode_player_message(*m),
{
    let mut out: Vec<u8> = Vec::new();
    match m {
        PlayerMessage::Ping => {
            out.push(0u8);
            proof {
                assert(out@ =~= spec_encode_player_message(*m));
            }
        },
        PlayerMessage::JoinGame(mv) => {
            out.push(1u8);
            write_movement(&mut out, mv);
            proof {
                assert(out@ =~= spec_encode_player_message(*m));
            }
        },
        PlayerMessage::PlayerMoved(mv) => {
            out.push(2u8);
            write_movement(&mut out, mv);
            proof {
                assert(out@ =~= spec_encode_player_message(*m));
            }
        },
        PlayerMessage::RequestPossibleHighscore(h) => {
            out.push(3u8);
            proof {
                lemma_pow256_values();
            }
            write_le(&mut out, h.time_in_seconds, 8);
            proof {
                assert(out@ =~= spec_encode_player_message(*m));
            }
        },
        PlayerMessage::LeaveGame => {
            out.push(4u8);
            proof {
                assert(out@ =~= spec_encode_player_message(*m));
            }
        },
    }
    out
}

/// Decode one client-to-server message; a malformed byte string yields
/// nothing.
pub fn decode_player_message(buf: &Vec<u8>) -> (r: Option<PlayerMessage>)
    ensures
        r == spec_decode_player_message(buf@),
{
    let n = buf.len();
    if n == 0 {
        return None;
    }
    let tag = buf[0];
    if tag == 0 {
        if n == 1 {
            Some(PlayerMessage::Ping)
        } else {
            None
        }
    } else if tag == 1 {
        if n == 17 {
            let mv = read_movement(buf, 1);
            proof {
                assert(buf@.subrange(1, 17) =~= buf@.skip(1));
            }
            Some(PlayerMessage::JoinGame(mv))
        } else {
            None
        }
    } else if tag == 2 {
        if n == 17 {
            let mv = read_movement(buf, 1);
            proof {
                assert(buf@.subrange(1, 17) =~= buf@.skip(1));
            }
            Some(PlayerMessage::PlayerMoved(mv))
        } else {
            None
        }
    } else if tag == 3 {
        if n == 9 {
            proof {
                lemma_pow256_values();
                lemma_le_val_bound(buf@.subrange(1, 9));
            }
            let t = read_le(buf, 1, 8);
            proof {
                assert(buf@.subrange(1, 9) =~= buf@.skip(1));
            }
            Some(PlayerMessage::RequestPossibleHighscore(Highscore { time_in_seconds: t }))
        } else {
            None
        }
    } else if tag == 4 {
        if n == 1 {
            Some(PlayerMessage::LeaveGame)
        } else {
            None
        }
    } else {
        None
    }
}

/// The 24 bytes of one snapshot entry: the id, then the movement.
pub open spec fn enc_update(x: PlayerMovedUpdate) -> Seq<u8> {
    le_bytes(x.id as nat, 8) + enc_movement(x.movement)
}

/// The snapshot entry a 24-byte string carries.
pub open spec fn dec_update(b: Seq<u8>) -> PlayerMovedUpdate {
    PlayerMovedUpdate {
        id: le_val(b.subrange(0, 8)) as u64,
        movement: dec_movement(b.subrange(8, 24)),
    }
}

/// A snapshot entry survives the trip through its bytes.
pub proof fn lemma_update_round(x: PlayerMovedUpdate)
    ensures
        enc_update(x).len() == 24,
        dec_update(enc_update(x)) == x,
{
    lemma_le_bytes_len(x.id as nat, 8);
    lemma_enc_movement_len(x.movement);
    lemma_pow256_values();
    let e = enc_update(x);
    assert(e.subrange(0, 8) =~= le_bytes(x.id as nat, 8));
    assert(e.subrange(8, 24) =~= enc_movement(x.movement));
    lemma_le_round(x.id as nat, 8);
    lemma_movement_round(x.movement);
}

/// The bytes of a whole snapshot: its entries, in order.
pub open spec fn enc_updates(u: Seq<PlayerMovedUpdate>) -> Seq<u8>
    decreases u.len(),
{
    if u.len() == 0 {
        Seq::empty()
    } else {
        enc_update(u[0]) + enc_updates(u.drop_first())
    }
}

/// The `n` snapshot entries a byte string carries, if it is exactly `n`
/// entries long.
pub open spec fn dec_updates(b: Seq<u8>, n: nat) -> Option<Seq<PlayerMovedUpdate>>
    decreases n,
{
    if n == 0 {
        if b.len() == 0 {
            Some(Seq::empty())
        } else {
            None
        }
    } else if b.len() < 24 {
        None
    } else {
        match dec_updates(b.skip(24), (n - 1) as nat) {
            Some(rest) => Some(seq![dec_update(b.take(24))] + rest),
            None => None,
        }
    }
}

pub proof fn lemma_enc_updates_len(u: Seq<PlayerMovedUpdate>)
    ensures
        enc_updates(u).len() == 24 * u.len(),
    decreases u.len(),
{
    if u.len() > 0 {
        lemma_update_round(u[0]);
        lemma_enc_updates_len(u.drop_first());
    }
}

/// `enc_updates` over a snapshot extended at the end.
pub proof fn lemma_enc_updates_snoc(u: Seq<PlayerMovedUpdate>, x: PlayerMovedUpdate)
    ensures
        enc_updates(u.push(x)) == enc_updates(u) + enc_update(x),
    decreases u.len(),
{
    let whole = u.push(x);
    if u.len() == 0 {
        assert(whole[0] == x);
        assert(whole.drop_first() =~= Seq::<PlayerMovedUpdate>::empty());
        assert(enc_updates(whole.drop_first()) == Seq::<u8>::empty());
        assert(enc_updates(whole) =~= enc_updates(u) + enc_update(x));
    } else {
        assert(whole[0] == u[0]);
        assert(whole.drop_first() =~= u.drop_first().push(x));
        lemma_enc_updates_snoc(u.drop_first(), x);
        assert(enc_update(u[0]) + (enc_updates(u.drop_first()) + enc_update(x)) =~= (enc_update(
            u[0],
        ) + enc_updates(u.drop_first())) + enc_update(x));
    }
}

/// A whole snapshot survives the trip through its bytes.
pub proof fn lemma_updates_round(u: Seq<PlayerMovedUpdate>)
    ensures
        dec_updates(enc_updates(u), u.len()) == Some(u),
    decreases u.len(),
{
    if u.len() == 0 {
        assert(dec_updates(enc_updates(u), 0) =~= Some(Seq::<PlayerMovedUpdate>::empty()));
        assert(Seq::<PlayerMovedUpdate>::empty() =~= u);
    } else {
        let e = enc_updates(u);
        lemma_update_round(u[0]);
        lemma_enc_updates_len(u.drop_first());
        assert(e.take(24) =~= enc_update(u[0]));
        assert(e.skip(24) =~= enc_updates(u.drop_first()));
        lemma_updates_round(u.drop_first());
        assert(seq![dec_update(e.take(24))] + u.drop_first() =~= u);
    }
}

/// `dec_updates` succeeds exactly on a byte string of the right length.
pub proof fn lemma_dec_updates_some_iff(b: Seq<u8>, n: nat)
    ensures
        dec_updates(b, n) is Some <==> b.len() == 24 * n,
    decreases n,
{
    if n > 0 && b.len() >= 24 {
        lemma_dec_updates_some_iff(b.skip(24), (n - 1) as nat);
    }
}

/// The entries `dec_updates` reads, one 24-byte slot each.
pub proof fn lemma_dec_updates_elems(b: Seq<u8>, n: nat)
    requires
        b.len() == 24 * n,
    ensures
        dec_updates(b, n) matches Some(u) && u.len() == n && (forall|j: int|
            0 <= j < n ==> u[j] == dec_update(b.subrange(24 * j, 24 * j + 24))),
    decreases n,
{
    lemma_dec_updates_some_iff(b, n);
    if n > 0 {
        lemma_dec_updates_elems(b.skip(24), (n - 1) as nat);
        let u = dec_updates(b, n)->Some_0;
        let rest = dec_updates(b.skip(24), (n - 1) as nat)->Some_0;
        assert forall|j: int| 0 <= j < n implies u[j] == dec_update(
            b.subrange(24 * j, 24 * j + 24),
        ) by {
            if j == 0 {
                assert(b.take(24) =~= b.subrange(0, 24));
            } else {
                assert(u[j] == rest[j - 1]);
                assert(b.skip(24).subrange(24 * (j - 1), 24 * (j - 1) + 24) =~= b.subrange(
                    24 * j,
                    24 * j + 24,
                ));
            }
        }
    }
}

/// The spec-level mirror of a server-to-client message, with the snapshot
/// as a sequence; what the byte-level contracts speak of.
#[verifier::ext_equal]
pub enum ServerMessageModel {
    Pong,
    InformAboutHighscore(Highscore),
    UpdateMovedPlayers(Seq<PlayerMovedUpdate>),
}

/// The model of a concrete server-to-client message.
pub open spec fn server_message_model(m: ServerMessage) -> ServerMessageModel {
    match m {
        ServerMessage::Pong => ServerMessageModel::Pong,
        ServerMessage::InformAboutHighscore(h) => ServerMessageModel::InformAboutHighscore(h),
        ServerMessage::UpdateMovedPlayers(v) => ServerMessageModel::UpdateMovedPlayers(v@),
    }
}

/// The bytes of one server-to-client message.
pub open spec fn spec_encode_server_message(m: ServerMessageModel) -> Seq<u8> {
    match m {
        ServerMessageModel::Pong => seq![0u8],
        ServerMessageModel::InformAboutHighscore(h) => seq![1u8] + le_bytes(
            h.time_in_seconds as nat,
            8,
        ),
        ServerMessageModel::UpdateMovedPlayers(u) => seq![2u8] + le_bytes(u.len(), 4)
            + enc_updates(u),
    }
}

/// The server-to-client message a byte string carries, if any.
pub open spec fn spec_decode_server_message(b: Seq<u8>) -> Option<ServerMessageModel> {
    if b.len() == 0 {
        None
    } else if b[0] == 0 {
        if b.len() == 1 {
            Some(ServerMessageModel::Pong)
        } else {
            None
        }
    } else if b[0] == 1 {
        if b.len() == 9 {
            Some(
                ServerMessageModel::InformAboutHighscore(
                    Highscore { time_in_seconds: le_val(b.skip(1)) as u64 },
                ),
            )
        } else {
            None
        }
    } else if b[0] == 2 {
        if b.len() < 5 {
            None
        } else {
            match dec_updates(b.skip(5), le_val(b.subrange(1, 5))) {
                Some(u) => Some(ServerMessageModel::UpdateMovedPlayers(u)),
                None => None,
            }
        }
    } else {
        None
    }
}

/// Law: every server-to-client message whose snapshot fits the 4-byte
/// count survives the round trip through its bytes.
pub proof fn lemma_server_message_round_trip(m: ServerMessageModel)
    requires
        m matches ServerMessageModel::UpdateMovedPlayers(u) ==> u.len() < 0x100000000,
    ensures
        spec_decode_server_message(spec_encode_server_message(m)) == Some(m),
{
    let e = spec_encode_server_message(m);
    match m {
        ServerMessageModel::Pong => {},
        ServerMessageModel::InformAboutHighscore(h) => {
            lemma_le_bytes_len(h.time_in_seconds as nat, 8);
            lemma_pow256_values();
            lemma_le_round(h.time_in_seconds as nat, 8);
            assert(e.skip(1) =~= le_bytes(h.time_in_seconds as nat, 8));
        },
        ServerMessageModel::UpdateMovedPlayers(u) => {
            lemma_le_bytes_len(u.len(), 4);
            lemma_enc_updates_len(u);
            lemma_pow256_values();
            lemma_le_round(u.len(), 4);
            assert(e.subrange(1, 5) =~= le_bytes(u.len(), 4));
            assert(e.skip(5) =~= enc_updates(u));
            lemma_updates_round(u);
        },
    }
}

/// Append the 24 bytes of one snapshot entry.
fn write_update(out: &mut Vec<u8>, x: &PlayerMovedUpdate)
    ensures
        final(out)@ == old(out)@ + enc_update(*x),
{
    proof {
        lemma_pow256_values();
    }
    write_le(out, x.id, 8);
    write_movement(out, &x.movement);
    proof {
        assert(final(out)@ =~= old(out)@ + enc_update(*x));
    }
}

/// Encode one server-to-client message. The snapshot must fit the 4-byte
/// entry count; see [`encode_server_message_checked`] for a caller that
/// cannot know that in advance.
pub fn encode_server_message(m: &ServerMessage) -> (out: Vec<u8>)
    requires
        m matches ServerMessage::UpdateMovedPlayers(v) ==> v@.len() < 0x100000000,
    ensures
        out@ == spec_encode_server_message(server_message_model(*m)),
{
    let mut out: Vec<u8> = Vec::new();
    match m {
        ServerMessage::Pong => {
            out.push(0u8);
            proof {
                assert(out@ =~= spec_encode_server_message(server_message_model(*m)));
            }
        },
        ServerMessage::InformAboutHighscore(h) => {
            out.push(1u8);
            proof {
                lemma_pow256_values();
            }
            write_le(&mut out, h.time_in_seconds, 8);
            proof {
                assert(out@ =~= spec_encode_server_message(server_message_model(*m)));
            }
        },
        ServerMessage::UpdateMovedPlayers(v) => {
            out.push(2u8);
            proof {
                lemma_pow256_values();
            }
            write_le(&mut out, v.len() as u64, 4);
            let ghost prefix = out@;
            let n = v.len();
            let mut k: usize = 0;
            proof {
                assert(enc_updates(v@.take(0)) =~= Seq::<u8>::empty());
                assert(out@ =~= prefix + enc_updates(v@.take(0)));
            }
            while k < n
                invariant
                    n == v@.len(),
                    k <= n,
                    out@ == prefix + enc_updates(v@.take(k as int)),
                decreases n - k,
            {
                proof {
                    assert(v@.take(k as int + 1) =~= v@.take(k as int).push(v@[k as int]));
                    lemma_enc_updates_snoc(v@.take(k as int), v@[k as int]);
                }
                write_update(&mut out, &v[k]);
                proof {
                    assert(out@ =~= prefix + enc_updates(v@.take(k as int + 1)));
                }
                k = k + 1;
            }
            proof {
                assert(v@.take(n as int) =~= v@);
                assert(out@ =~= spec_encode_server_message(server_message_model(*m)));
            }
        },
    }
    out
}

/// Encode one server-to-client message, reporting a snapshot too large for
/// the 4-byte entry count instead of relying on the caller to know.
pub fn encode_server_message_checked(m: &ServerMessage) -> (r: Option<Vec<u8>>)
    ensures
        match r {
            Some(out) => out@ == spec_encode_server_message(server_message_model(*m)),
            None => m matches ServerMessage::UpdateMovedPlayers(v) && v@.len() >= 0x100000000,
        },
{
    match m {
        ServerMessage::UpdateMovedPlayers(v) => {
            if (v.len() as u64) >= 0x100000000u64 {
                return None;
            }
        },
        _ => {},
    }
    Some(encode_server_message(m))
}

/// Decode one server-to-client message; a malformed byte string yields
/// nothing. The result is exactly what [`spec_decode_server_message`] says
/// of the bytes.
pub fn decode_server_message(buf: &Vec<u8>) -> (r: Option<ServerMessage>)
    ensures
        match r {
            Some(m) => spec_decode_server_message(buf@) == Some(server_message_model(m)),
            None => spec_decode_server_message(buf@) is None,
        },
{
    let n = buf.len();
    if n == 0 {
        return None;
    }
    let tag = buf[0];
    if tag == 0 {
        if n == 1 {
            Some(ServerMessage::Pong)
        } else {
            None
        }
    } else if tag == 1 {
        if n == 9 {
            proof {
                lemma_pow256_values();
                lemma_le_val_bound(buf@.subrange(1, 9));
            }
            let t = read_le(buf, 1, 8);
            proof {
                assert(buf@.subrange(1, 9) =~= buf@.skip(1));
            }
            Some(ServerMessage::InformAboutHighscore(Highscore { time_in_seconds: t }))
        } else {
            None
        }
    } else if tag == 2 {
        if n < 5 {
            return None;
        }
        proof {
            lemma_pow256_values();
            lemma_le_val_bound(buf@.subrange(1, 5));
        }
        let count = read_le(buf, 1, 4);
        let remaining = n - 5;
        let ghost count_spec = le_val(buf@.subrange(1, 5));
        proof {
            lemma_dec_updates_some_iff(buf@.skip(5), count_spec);
        }
        if remaining as u64 != 24 * count {
            proof {
                assert(buf@.skip(5).len() != 24 * count_spec);
            }
            return None;
        }
        let entries = remaining / 24;
        proof {
            assert(entries == count);
            lemma_dec_updates_elems(buf@.skip(5), count_spec);
        }
        let ghost parsed_spec = dec_updates(buf@.skip(5), count_spec)->Some_0;
        let mut parsed: Vec<PlayerMovedUpdate> = Vec::new();
        let mut k: usize = 0;
        while k < entries
            invariant
                n == buf@.len(),
                n >= 5,
                n - 5 == 24 * entries,
                k <= entries,
                parsed_spec.len() == entries,
                forall|j: int|
                    0 <= j < entries ==> parsed_spec[j] == dec_update(
                        buf@.skip(5).subrange(24 * j, 24 * j + 24),
                    ),
                parsed@.len() == k,
                forall|j: int| 0 <= j < k ==> parsed@[j] == parsed_spec[j],
            decreases entries - k,
        {
            let pos = 5 + 24 * k;
            proof {
                lemma_pow256_values();
                lemma_le_val_bound(buf@.subrange(pos as int, pos + 8));
            }
            let id = read_le(buf, pos, 8);
            let movement = read_movement(buf, pos + 8);
            proof {
                let slot = buf@.skip(5).subrange(24 * (k as int), 24 * (k as int) + 24);
                assert(slot.subrange(0, 8) =~= buf@.subrange(pos as int, pos + 8));
                assert(slot.subrange(8, 24) =~= buf@.subrange(pos + 8, pos + 24));
                assert(dec_update(slot).id == id);
                assert(dec_update(slot).movement == movement);
            }
            parsed.push(PlayerMovedUpdate { id, movement });
            k = k + 1;
        }
        proof {
            assert(parsed@ =~= parsed_spec);
        }
        Some(ServerMessage::UpdateMovedPlayers(parsed))
    } else {
        None
    }
}

/// The frame around a message body on a byte stream: the 4-byte body
/// length, then the body.
pub open spec fn spec_frame(body: Seq<u8>) -> Seq<u8> {
    le_bytes(body.len(), 4) + body
}

/// The first whole frame of a byte stream, and the bytes after it; nothing
/// while the stream holds less than one whole frame.
pub open spec fn spec_take_frame(b: Seq<u8>) -> Option<(Seq<u8>, Seq<u8>)> {
    if b.len() < 4 {
        None
    } else {
        let n = le_val(b.subrange(0, 4));
        if b.len() >= 4 + n {
            Some((b.subrange(4, 4 + n as int), b.skip(4 + n as int)))
        } else {
            None
        }
    }
}

/// Law: a framed body followed by anything is taken back apart exactly.
pub proof fn lemma_frame_round_trip(body: Seq<u8>, rest: Seq<u8>)
    requires
        body.len() < 0x100000000,
    ensures
        spec_take_frame(spec_frame(body) + rest) == Some((body, rest)),
{
    let whole = spec_frame(body) + rest;
    lemma_le_bytes_len(body.len(), 4);
    lemma_pow256_values();
    lemma_le_round(body.len(), 4);
    assert(whole.subrange(0, 4) =~= le_bytes(body.len(), 4));
    assert(whole.subrange(4, 4 + body.len() as int) =~= body);
    assert(whole.skip(4 + body.len() as int) =~= rest);
    let taken = spec_take_frame(whole);
    assert(taken->Some_0.0 == body);
    assert(taken->Some_0.1 == rest);
}

/// Put the frame around one message body. The body must fit the 4-byte
/// length; every message this crate encodes does.
pub fn frame_message(body: &Vec<u8>) -> (framed: Vec<u8>)
    requires
        body@.len() < 0x100000000,
    ensures
        framed@ == spec_frame(body@),
{
    let mut framed: Vec<u8> = Vec::new();
    proof {
        lemma_pow256_values();
    }
    write_le(&mut framed, body.len() as u64, 4);
    framed.extend_from_slice(body.as_slice());
    proof {
        assert(framed@ =~= spec_frame(body@));
    }
    framed
}

/// Take the first whole frame off a byte stream, handing back its body and
/// the remaining bytes; nothing while less than one whole frame has
/// arrived.
pub fn take_frame(buf: &Vec<u8>) -> (r: Option<(Vec<u8>, Vec<u8>)>)
    ensures
        match r {
            Some(p) => spec_take_frame(buf@) == Some((p.0@, p.1@)),
            None => spec_take_frame(buf@) is None,
        },
{
    let n = buf.len();
    if n < 4 {
        return None;
    }
    proof {
        lemma_pow256_values();
        lemma_le_val_bound(buf@.subrange(0, 4));
    }
    let body_len = read_le(buf, 0, 4);
    if (n as u64) - 4 < body_len {
        return None;
    }
    let count = body_len as usize;
    let mut body: Vec<u8> = Vec::new();
    let mut k: usize = 0;
    while k < count
        invariant
            n == buf@.len(),
            4 + count <= n,
            k <= count,
            body@ =~= buf@.subrange(4, 4 + k as int),
        decreases count - k,
    {
        body.push(buf[4 + k]);
        k = k + 1;
    }
    let mut rest: Vec<u8> = Vec::new();
    let mut j: usize = 4 + count;
    while j < n
        invariant
            n == buf@.len(),
            4 + count <= j <= n,
            rest@ =~= buf@.subrange(4 + count as int, j as int),
        decreases n - j,
    {
        rest.push(buf[j]);
        j = j + 1;
    }
    proof {
        assert(body@ =~= buf@.subrange(4, 4 + body_len as int));
        assert(rest@ =~= buf@.skip(4 + body_len as int));
    }
    Some((body, rest))
}

} // verus!
