//! Verified text formatting for the two strings the protocol core hands to
//! its collaborators: the sprite filename chosen for a ghost and the
//! highscore label.

use vstd::prelude::*;

verus! {

/// The character for one decimal digit.
pub open spec fn digit_char(d: nat) -> char {
    if d == 0 {
        '0'
    } else if d == 1 {
        '1'
    } else if d == 2 {
        '2'
    } else if d == 3 {
        '3'
    } else if d == 4 {
        '4'
    } else if d == 5 {
        '5'
    } else if d == 6 {
        '6'
    } else if d == 7 {
        '7'
    } else if d == 8 {
        '8'
    } else {
        '9'
    }
}

/// The decimal digits of `n`, most significant first, with no leading
/// zeros (a single `'0'` for zero).
pub open spec fn dec_digits(n: nat) -> Seq<char>
    decreases n,
{
    if n < 10 {
        seq![digit_char(n)]
    } else {
        dec_digits(n / 10).push(digit_char(n % 10))
    }
}

/// The digit characters of a least-significant-first digit list, reversed
/// into reading order.
pub open spec fn rev_digit_chars(ds: Seq<u8>) -> Seq<char> {
    Seq::new(ds.len(), |i: int| digit_char(ds[ds.len() - 1 - i] as nat))
}

fn digit_str(d: u8) -> (s: &'static str)
    requires
        d < 10,
    ensures
        s@ == seq![digit_char(d as nat)],
{
    proof {
        reveal_strlit("0");
        reveal_strlit("1");
        reveal_strlit("2");
        reveal_strlit("3");
        reveal_strlit("4");
        reveal_strlit("5");
        reveal_strlit("6");
        reveal_strlit("7");
        reveal_strlit("8");
        reveal_strlit("9");
    }
    let s = match d {
        0 => "0",
        1 => "1",
        2 => "2",
        3 => "3",
        4 => "4",
        5 => "5",
        6 => "6",
        7 => "7",
        8 => "8",
        _ => "9",
    };
    proof {
        assert(s@ =~= seq![digit_char(d as nat)]);
    }
    s
}

/// The decimal rendering of `n`, exactly `dec_digits(n)`.
pub fn u64_to_string(n: u64) -> (s: String)
    ensures
        s@ == dec_digits(n as nat),
{
    let mut digits: Vec<u8> = Vec::new();
    let mut rest: u64 = n;
    digits.push((rest % 10) as u8);
    rest = rest / 10;
    proof {
        if rest == 0 {
            assert(dec_digits(n as nat) =~= rev_digit_chars(digits@));
        } else {
            assert(dec_digits(n as nat) =~= dec_digits(rest as nat) + rev_digit_chars(digits@));
        }
    }
    while rest > 0
        invariant
            forall|j: int| 0 <= j < digits@.len() ==> digits@[j] < 10,
            rest > 0 ==> dec_digits(n as nat) == dec_digits(rest as nat) + rev_digit_chars(
                digits@,
            ),
            rest == 0 ==> dec_digits(n as nat) == rev_digit_chars(digits@),
            digits@.len() >= 1,
        decreases rest,
    {
        let d = (rest % 10) as u8;
        let ghost before = digits@;
        let ghost rest_before = rest as nat;
        digits.push(d);
        rest = rest / 10;
        proof {
            assert(rev_digit_chars(before.push(d)) =~= seq![digit_char(d as nat)]
                + rev_digit_chars(before));
            if rest_before < 10 {
                assert(rest == 0);
                assert(dec_digits(rest_before) == seq![digit_char(rest_before)]);
                assert(d as nat == rest_before);
                assert(dec_digits(n as nat) =~= rev_digit_chars(digits@));
            } else {
                assert(dec_digits(rest_before) == dec_digits(rest_before / 10).push(
                    digit_char(rest_before % 10),
                ));
                assert(dec_digits(rest_before / 10) + (seq![digit_char(d as nat)]
                    + rev_digit_chars(before)) =~= (dec_digits(rest_before / 10).push(
                    digit_char(rest_before % 10),
                )) + rev_digit_chars(before));
                assert(dec_digits(n as nat) =~= dec_digits(rest as nat) + rev_digit_chars(
                    digits@,
                ));
            }
        }
    }
    let mut s = String::new();
    let total = digits.len();
    let mut done: usize = 0;
    proof {
        assert(s@ =~= rev_digit_chars(digits@).take(0));
    }
    while done < total
        invariant
            total == digits@.len(),
            done <= total,
            forall|j: int| 0 <= j < digits@.len() ==> digits@[j] < 10,
            dec_digits(n as nat) == rev_digit_chars(digits@),
            s@ == rev_digit_chars(digits@).take(done as int),
        decreases total - done,
    {
        let d = digits[total - 1 - done];
        let piece = digit_str(d);
        s.append(piece);
        done = done + 1;
        proof {
            assert(rev_digit_chars(digits@)[done as int - 1] == digit_char(d as nat));
            assert(s@ =~= rev_digit_chars(digits@).take(done as int));
        }
    }
    proof {
        assert(rev_digit_chars(digits@).take(total as int) =~= rev_digit_chars(digits@));
    }
    s
}

/// The filename of the sprite for a ghost with `player_id`: one of the 19
/// available player sprites, selected deterministically from the id (two
/// ids 19 apart share a sprite).
pub open spec fn sprite_filename_spec(player_id: u64) -> Seq<char> {
    "player_sprites/Charakter"@ + dec_digits((player_id % 19 + 1) as nat) + ".png"@
}

pub fn get_sprite_filename(player_id: u64) -> (name: String)
    ensures
        name@ == sprite_filename_spec(player_id),
{
    let mut name = String::from_str("player_sprites/Charakter");
    let number = u64_to_string(player_id % 19 + 1);
    name.append(number.as_str());
    name.append(".png");
    name
}

} // verus!
