//! Games played in a mirror: the same key after every move.

use vstd::prelude::*;
use crate::game::state::{lemma_play_then_unplay, replay, replay_ok, StateView};
use crate::masks::{fits, lemma_flip_key};
use crate::mirror::{lemma_flip_move, lemma_flip_options, lemma_flip_packed};
use crate::rules::{
    lemma_empty_board, lemma_packed, moves_of, my_wins_of, packed_of, position_ok,
};
use crate::value::{lemma_mirror_step, Position};

verus! {

/// The counterpart of each column of `moves` in the mirror.
pub open spec fn mirrored(moves: Seq<u16>, width: u8) -> Seq<u16> {
    Seq::new(moves.len(), |i: int| (width - 1 - moves[i]) as u16)
}

/// The empty position of a board of `width` by `height`.
pub open spec fn empty_board(width: u8, height: u8) -> StateView {
    StateView { width, height, player: 0, mask: 0, history: Seq::<u8>::empty() }
}

/// A position and its mirror image have the same key.
pub proof fn lemma_mirror_key(p: Position)
    requires
        p.ok(),
    ensures
        p.mirror().key() == p.key(),
{
    let w = p.width;
    let h = p.height;
    lemma_packed(p.player, p.mask, w, h);
    lemma_flip_packed(p.player, p.mask, w, h);
    lemma_flip_key(packed_of(p.player, p.mask, w, h), w, h);
}

/// A move is accepted in a position exactly if its counterpart is accepted
/// in the mirror image, and the two lead to mirror images of each other.
pub proof fn lemma_mirror_move(p: Position, col: u8)
    requires
        p.ok(),
        col < p.width,
    ensures
        p.mirror().fresh().legal(p.width - 1 - col) <==> p.fresh().legal(col as int),
        p.fresh().legal(col as int) ==> p.mirror().play((p.width - 1 - col) as u8) == p.play(col).mirror(),
{
    let w = p.width;
    let h = p.height;
    let m = p.mirror();
    lemma_mirror_step(p);
    crate::mirror::lemma_sides_on_board(p.player, p.mask, w, h);
    crate::mirror::lemma_flip_position(p.player, p.mask, w, h);
    crate::mirror::lemma_flip_moves(p.mask, w, h);
    crate::mirror::lemma_flip_wins(p.player, p.mask, w, h);
    let moves = moves_of(p.mask, w, h);
    let mine = my_wins_of(p.player, p.mask, w, h);
    lemma_flip_options(moves, mine, w, h);
    lemma_flip_move(p.mask, mine & moves, col, w, h);
}

/// Two games from the empty board of which each move of one is the
/// counterpart in the mirror of the same move of the other: if one is
/// accepted, so is the other, the positions reached are mirror images of each
/// other, and they have the same key.
pub proof fn lemma_mirrored_games(width: u8, height: u8, moves: Seq<u16>)
    requires
        fits(width, height),
        replay_ok(empty_board(width, height), moves),
    ensures
        replay_ok(empty_board(width, height), mirrored(moves, width)),
        replay(empty_board(width, height), moves).ok(),
        replay(empty_board(width, height), mirrored(moves, width)).ok(),
        replay(empty_board(width, height), mirrored(moves, width)).position() == replay(
            empty_board(width, height),
            moves,
        ).position().mirror(),
        replay(empty_board(width, height), mirrored(moves, width)).key() == replay(
            empty_board(width, height),
            moves,
        ).key(),
    decreases moves.len(),
{
    let start = empty_board(width, height);
    let other = mirrored(moves, width);
    lemma_empty_board(width, height);
    if moves.len() == 0 {
        let p = start.position();
        lemma_flip_options(0, 0, width, height);
        assert(p.mirror() == p);
    } else {
        let head = moves.drop_last();
        lemma_mirrored_games(width, height, head);
        assert(other.drop_last() =~= mirrored(head, width));
        let v = replay(start, head);
        let u = replay(start, mirrored(head, width));
        let col = moves.last();
        crate::game::state::lemma_replay_board(start, head);
        crate::game::state::lemma_replay_board(start, mirrored(head, width));
        assert(v.legal(col as int));
        assert(0 <= col < width);
        let c = col as u8;
        let d = (width - 1 - c) as u8;
        let p = v.position();
        lemma_mirror_move(p, c);
        assert(other.last() == d as u16);
        assert(other.last() as int == width - 1 - c);
        assert(u.position() == p.mirror());
        assert(p.fresh().legal(c as int));
        assert(p.mirror().fresh().legal(width - 1 - c));
        assert(u.legal(other.last() as int));
        lemma_play_then_unplay(v, c);
        lemma_play_then_unplay(u, d);
        assert(other.last() as u8 == d);
        assert(u.play(d).position() == p.mirror().play(d));
        assert(v.play(c).position() == p.play(c));
    }
    lemma_mirror_key(replay(start, moves).position());
}

} // verus!
