//! Lines of four seen in a mirror, direction by direction.

use vstd::prelude::*;
use crate::masks::{board_of, direction_wins_of, fits, flip_of, vertical_wins_of};

verus! {

/// The cells that complete a vertical or a horizontal line go along with the mirror.
#[verifier::rlimit(100)]
pub proof fn lemma_flip_wins_straight(x: u64, width: u8, height: u8)
    by (bit_vector)
    requires
        fits(width, height),
        x & !board_of(width, height) == 0,
    ensures
        vertical_wins_of(flip_of(x, width, height)) & board_of(width, height) == flip_of(vertical_wins_of(x) & board_of(width, height), width, height),
        direction_wins_of((height + 1) as u8, flip_of(x, width, height)) & board_of(width, height) == flip_of(direction_wins_of((height + 1) as u8, x) & board_of(width, height), width, height),
{
}

/// The cells that complete a rising diagonal are, in the mirror, those that complete a falling one.
#[verifier::rlimit(100)]
pub proof fn lemma_flip_wins_rising(x: u64, width: u8, height: u8)
    by (bit_vector)
    requires
        fits(width, height),
        x & !board_of(width, height) == 0,
    ensures
        direction_wins_of((height + 2) as u8, flip_of(x, width, height)) & board_of(width, height) == flip_of(direction_wins_of(height, x) & board_of(width, height), width, height),
{
}

/// The cells that complete a falling diagonal are, in the mirror, those that complete a rising one.
#[verifier::rlimit(100)]
pub proof fn lemma_flip_wins_falling(x: u64, width: u8, height: u8)
    by (bit_vector)
    requires
        fits(width, height),
        x & !board_of(width, height) == 0,
    ensures
        direction_wins_of(height, flip_of(x, width, height)) & board_of(width, height) == flip_of(direction_wins_of((height + 2) as u8, x) & board_of(width, height), width, height),
{
}

/// What holds of the four directions one by one holds of them together,
/// within the empty cells.
#[verifier::rlimit(100)]
pub proof fn lemma_flip_join(
    a1: u64,
    a2: u64,
    a3: u64,
    a4: u64,
    b1: u64,
    b2: u64,
    b3: u64,
    b4: u64,
    e: u64,
    width: u8,
    height: u8,
)
    by (bit_vector)
    requires
        fits(width, height),
        e & !board_of(width, height) == 0,
        a1 & board_of(width, height) == flip_of(b1 & board_of(width, height), width, height),
        a2 & board_of(width, height) == flip_of(b2 & board_of(width, height), width, height),
        a3 & board_of(width, height) == flip_of(b4 & board_of(width, height), width, height),
        a4 & board_of(width, height) == flip_of(b3 & board_of(width, height), width, height),
    ensures
        (a1 | a2 | a3 | a4) & flip_of(e, width, height) == flip_of((b1 | b2 | b3 | b4) & e, width, height),
        ((b1 | b2 | b3 | b4) & e) & !board_of(width, height) == 0,
{
}

} // verus!
