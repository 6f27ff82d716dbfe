//! Positions as text.

use vstd::prelude::*;
use vstd::string::StringExecFns;
use crate::game::state::{State, StateView};
use crate::masks::{fits, lemma_column_bounds};

verus! {

/// The character of a decimal digit.
pub open spec fn digit_char(d: int) -> char {
    if d == 0 {
        '0'
    } else if d == 1 {
        '1'
    } else if d == 2 {
        '2'
    } else if d == 3 {
        '3'
    } else if d == 4 {
        '4'
    } else if d == 5 {
        '5'
    } else if d == 6 {
        '6'
    } else if d == 7 {
        '7'
    } else if d == 8 {
        '8'
    } else {
        '9'
    }
}

/// The decimal digits of `n`.
pub open spec fn decimal(n: nat) -> Seq<char>
    decreases n,
{
    if n < 10 {
        seq![digit_char(n as int)]
    } else {
        decimal(n / 10).push(digit_char((n % 10) as int))
    }
}

/// The character of bit `off` of a bitboard: `o` if set, `.` if clear.
pub open spec fn bit_char(b: u64, off: int) -> char {
    if (b >> (off as u64)) & 1 == 1 {
        'o'
    } else {
        '.'
    }
}

/// The first `n` characters of row `r` of a bitboard, counted from the top.
pub open spec fn bit_row(b: u64, h: u8, r: int, n: nat) -> Seq<char>
    decreases n,
{
    if n == 0 {
        Seq::empty()
    } else {
        bit_row(b, h, r, (n - 1) as nat).push(bit_char(b, (h - r) + (n - 1) * (h + 1)))
    }
}

/// The first `n` rows of a bitboard of `w` columns, each ended by a line feed.
pub open spec fn bit_rows(b: u64, w: u8, h: u8, n: nat) -> Seq<char>
    decreases n,
{
    if n == 0 {
        Seq::empty()
    } else {
        bit_rows(b, w, h, (n - 1) as nat) + bit_row(b, h, n - 1, w as nat).push('\n')
    }
}

/// The character of the cell at bit `off`: `.` if empty, else `o` for a
/// stone of the side that moved first and `x` for one of the other side.
pub open spec fn stone_char(v: StateView, off: int) -> char {
    let first_to_play = v.history.len() % 2 == 0;
    if (v.mask >> (off as u64)) & 1 == 1 {
        if ((v.player >> (off as u64)) & 1 == 1) == first_to_play {
            'o'
        } else {
            'x'
        }
    } else {
        '.'
    }
}

/// The first `n` characters of row `r` of a position, counted from the top.
pub open spec fn stone_row(v: StateView, r: int, n: nat) -> Seq<char>
    decreases n,
{
    if n == 0 {
        Seq::empty()
    } else {
        stone_row(v, r, (n - 1) as nat).push(
            stone_char(v, (v.height - 1 - r) + (n - 1) * (v.height + 1)),
        )
    }
}

/// The first `n` rows of a position, each ended by a line feed.
pub open spec fn stone_rows(v: StateView, n: nat) -> Seq<char>
    decreases n,
{
    if n == 0 {
        Seq::empty()
    } else {
        stone_rows(v, (n - 1) as nat) + stone_row(v, n - 1, v.width as nat).push('\n')
    }
}

/// The columns of the first `n` moves, each as a digit counted from one.
pub open spec fn log_text(history: Seq<u8>, n: nat) -> Seq<char>
    decreases n,
{
    if n == 0 {
        Seq::empty()
    } else {
        log_text(history, (n - 1) as nat).push(digit_char(history[n - 1] + 1))
    }
}

/// A position as text: the moves, their number, and the board from the top row down.
pub open spec fn text_of(v: StateView) -> Seq<char> {
    seq!['\n', 'L', 'o', 'g', ':', ' '] + log_text(v.history, v.history.len()) + seq![
        '\n',
        'N',
        'u',
        'm',
        ':',
        ' ',
    ] + decimal(v.history.len()) + seq!['\n'] + stone_rows(v, v.height as nat)
}

/// The one-character text of digit `d`.
fn digit_str(d: usize) -> (s: &'static str)
    requires
        d < 10,
    ensures
        s@ == seq![digit_char(d as int)],
{
    proof {
        reveal_strlit("0");
        reveal_strlit("1");
        reveal_strlit("2");
        reveal_strlit("3");
        reveal_strlit("4");
        reveal_strlit("5");
        reveal_strlit("6");
        reveal_strlit("7");
        reveal_strlit("8");
        reveal_strlit("9");
    }
    let s = if d == 0 {
        "0"
    } else if d == 1 {
        "1"
    } else if d == 2 {
        "2"
    } else if d == 3 {
        "3"
    } else if d == 4 {
        "4"
    } else if d == 5 {
        "5"
    } else if d == 6 {
        "6"
    } else if d == 7 {
        "7"
    } else if d == 8 {
        "8"
    } else {
        "9"
    };
    assert(s@ =~= seq![digit_char(d as int)]);
    s
}

/// Puts the decimal digits of `n` behind `s`.
fn push_decimal(s: &mut String, n: usize)
    ensures
        final(s)@ == old(s)@ + decimal(n as nat),
    decreases n,
{
    if n >= 10 {
        push_decimal(s, n / 10);
    }
    s.append(digit_str(n % 10));
    assert(s@ =~= old(s)@ + decimal(n as nat));
}

/// One character per bit of `b`, row by row from the sentinel row down:
/// `o` for a set bit and `.` for a clear one, each row ended by a line feed.
pub fn _format_board(b: u64, w: u8, h: u8) -> (res: String)
    requires
        fits(w, h),
    ensures
        res@ == bit_rows(b, w, h, (h + 1) as nat),
{
    let mut res: String = String::new();
    proof {
        reveal_strlit("o");
        reveal_strlit(".");
        reveal_strlit("\n");
    }
    let mut row_i: u8 = 0;
    while row_i <= h
        invariant
            fits(w, h),
            row_i <= h + 1,
            res@ == bit_rows(b, w, h, row_i as nat),
        decreases h + 1 - row_i,
    {
        let h_offset = h - row_i;
        let ghost start = res@;
        let mut col_i: u8 = 0;
        while col_i < w
            invariant
                fits(w, h),
                row_i <= h,
                h_offset == h - row_i,
                col_i <= w,
                res@ == start + bit_row(b, h, row_i as int, col_i as nat),
            decreases w - col_i,
        {
            proof {
                lemma_column_bounds(0, col_i, w, h);
                reveal_strlit("o");
                reveal_strlit(".");
            }
            let offset = h_offset as u64 + (col_i as u64) * (h as u64 + 1);
            let ghost before = res@;
            if (b >> offset) & 1 == 1 {
                res.append("o");
            } else {
                res.append(".");
            }
            col_i += 1;
            assert(res@ =~= start + bit_row(b, h, row_i as int, col_i as nat));
        }
        proof {
            reveal_strlit("\n");
        }
        res.append("\n");
        row_i += 1;
        assert(res@ =~= bit_rows(b, w, h, row_i as nat));
    }
    res
}

impl State {
    /// The position as text: a line with the columns played, counted from
    /// one; a line with their number; and the board from the top row down,
    /// `o` for the stones of the side that moved first, `x` for the other's.
    pub fn to_text(&self) -> (res: String)
        requires
            self.wf(),
        ensures
            res@ == text_of(self@),
    {
        let g = self.game();
        let w = g.width();
        let h = g.height();
        let moves = self.history();
        let mut res: String = String::new();
        proof {
            reveal_strlit("\nLog: ");
            reveal_strlit("\nNum: ");
            reveal_strlit("o");
            reveal_strlit("x");
            reveal_strlit(".");
            reveal_strlit("\n");
        }
        res.append("\nLog: ");
        let mut i: usize = 0;
        while i < moves.len()
            invariant
                i <= moves.len(),
                moves@ == self@.history,
                forall|j: int| 0 <= j < moves.len() ==> moves[j] < 8,
                res@ == seq!['\n', 'L', 'o', 'g', ':', ' '] + log_text(moves@, i as nat),
            decreases moves.len() - i,
        {
            res.append(digit_str(moves[i] as usize + 1));
            i += 1;
            assert(res@ =~= seq!['\n', 'L', 'o', 'g', ':', ' '] + log_text(moves@, i as nat));
        }
        res.append("\nNum: ");
        push_decimal(&mut res, moves.len());
        res.append("\n");
        let ghost head = res@;
        let first_to_play: bool = moves.len() % 2 == 0;
        let mask = self.mask_bits();
        let player = self.player_bits();
        let mut row_i: u8 = 0;
        while row_i < h
            invariant
                self.wf(),
                w == self@.width,
                h == self@.height,
                mask == self@.mask,
                player == self@.player,
                first_to_play == (self@.history.len() % 2 == 0),
                row_i <= h,
                res@ == head + stone_rows(self@, row_i as nat),
            decreases h - row_i,
        {
            let h_offset = h - 1 - row_i;
            let ghost start = res@;
            let mut col_i: u8 = 0;
            while col_i < w
                invariant
                    self.wf(),
                    w == self@.width,
                    h == self@.height,
                    mask == self@.mask,
                    player == self@.player,
                    first_to_play == (self@.history.len() % 2 == 0),
                    row_i < h,
                    h_offset == h - 1 - row_i,
                    col_i <= w,
                    res@ == start + stone_row(self@, row_i as int, col_i as nat),
                decreases w - col_i,
            {
                proof {
                    lemma_column_bounds(0, col_i, w, h);
                    reveal_strlit("o");
                    reveal_strlit("x");
                    reveal_strlit(".");
                }
                let offset = h_offset as u64 + (col_i as u64) * (h as u64 + 1);
                if (mask >> offset) & 1 == 1 {
                    if ((player >> offset) & 1 == 1) == first_to_play {
                        res.append("o");
                    } else {
                        res.append("x");
                    }
                } else {
                    res.append(".");
                }
                col_i += 1;
                assert(res@ =~= start + stone_row(self@, row_i as int, col_i as nat));
            }
            proof {
                reveal_strlit("\n");
            }
            res.append("\n");
            row_i += 1;
            assert(res@ =~= head + stone_rows(self@, row_i as nat));
        }
        assert(res@ =~= text_of(self@));
        res
    }
}

} // verus!
