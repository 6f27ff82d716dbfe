//! The order in which the search tries the moves of a position.

use vstd::prelude::*;
use crate::game::state::before_in_order;
use crate::value::Position;

verus! {

/// Whether each column of `s` comes before those behind it in the search's order.
pub open spec fn in_order(p: Position, s: Seq<u16>) -> bool {
    forall|i: int, j: int| 0 <= i < j < s.len() ==> before_in_order(p.fresh(), #[trigger] s[i], #[trigger] s[j])
}

/// Whether `s` holds the columns that the search considers in position `p`,
/// each once, in the search's order.
pub open spec fn is_search_order(p: Position, s: Seq<u16>) -> bool {
    &&& forall|c: u16| s.contains(c) <==> p.candidate(c as int)
    &&& in_order(p, s)
}

/// The columns that the search tries in position `p`, in the order in which it tries them.
pub open spec fn ordered_moves(p: Position) -> Seq<u16> {
    choose|s: Seq<u16>| is_search_order(p, s)
}

/// Two sequences in the search's order that hold the same columns are the same sequence.
pub proof fn lemma_one_order(p: Position, s: Seq<u16>, t: Seq<u16>)
    requires
        in_order(p, s),
        in_order(p, t),
        forall|c: u16| s.contains(c) <==> t.contains(c),
    ensures
        s == t,
    decreases s.len(),
{
    if s.len() == 0 {
        if t.len() > 0 {
            assert(t.contains(t[0]));
        }
        assert(s =~= t);
    } else {
        let m = s.last();
        assert(s.contains(m));
        assert(t.contains(m));
        let j = choose|j: int| 0 <= j < t.len() && t[j] == m;
        let n = t.last();
        assert(t.contains(n));
        assert(s.contains(n));
        let i = choose|i: int| 0 <= i < s.len() && s[i] == n;
        if j != t.len() - 1 {
            assert(before_in_order(p.fresh(), t[j], t[t.len() - 1]));
            if i != s.len() - 1 {
                assert(before_in_order(p.fresh(), s[i], s[s.len() - 1]));
            }
        }
        assert(m == n);
        let s1 = s.drop_last();
        let t1 = t.drop_last();
        assert forall|c: u16| s1.contains(c) <==> t1.contains(c) by {
            if s1.contains(c) {
                let k = choose|k: int| 0 <= k < s1.len() && s1[k] == c;
                assert(s[k] == c);
                assert(before_in_order(p.fresh(), s[k], s[s.len() - 1]));
                assert(s.contains(c));
                let l = choose|l: int| 0 <= l < t.len() && t[l] == c;
                assert(l != t.len() - 1);
                assert(t1[l] == c);
            }
            if t1.contains(c) {
                let k = choose|k: int| 0 <= k < t1.len() && t1[k] == c;
                assert(t[k] == c);
                assert(before_in_order(p.fresh(), t[k], t[t.len() - 1]));
                assert(t.contains(c));
                let l = choose|l: int| 0 <= l < s.len() && s[l] == c;
                assert(l != s.len() - 1);
                assert(s1[l] == c);
            }
        }
        assert(in_order(p, s1)) by {
            assert forall|a: int, b: int| 0 <= a < b < s1.len() implies before_in_order(p.fresh(), #[trigger] s1[a], #[trigger] s1[b]) by {
                assert(before_in_order(p.fresh(), s[a], s[b]));
            }
        }
        assert(in_order(p, t1)) by {
            assert forall|a: int, b: int| 0 <= a < b < t1.len() implies before_in_order(p.fresh(), #[trigger] t1[a], #[trigger] t1[b]) by {
                assert(before_in_order(p.fresh(), t[a], t[b]));
            }
        }
        lemma_one_order(p, s1, t1);
        assert(s =~= s1.push(m));
        assert(t =~= t1.push(n));
    }
}

/// A sequence that holds the columns the search considers, in its order, is
/// the sequence of the moves that the search tries.
pub proof fn lemma_search_order(p: Position, s: Seq<u16>)
    requires
        is_search_order(p, s),
    ensures
        s == ordered_moves(p),
{
    let t = ordered_moves(p);
    assert(is_search_order(p, t));
    assert forall|c: u16| s.contains(c) <==> t.contains(c) by {
        assert(s.contains(c) <==> p.candidate(c as int));
        assert(t.contains(c) <==> p.candidate(c as int));
    }
    lemma_one_order(p, s, t);
}

} // verus!
