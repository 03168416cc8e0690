//! Global laws of the engine, stated and proved over the spec-level models.

use vstd::prelude::*;

use crate::board::coord_of;
use crate::board::lemma_coord_index;
use crate::board::nbrs;
use crate::board::on_board;
use crate::board::GoCoordinates;
use crate::board::GoStone;
use crate::game::after_move;
use crate::game::move_captures;
use crate::game::GoGame;
use crate::group::cell_has_liberty;
use crate::group::group_has_liberty;
use crate::group::is_chain;
use crate::group::lemma_reaches_self;
use crate::group::reaches;

verus! {

/// Coordinate-index round trip: every cell index in `[0, 81)` converts to a
/// well-formed coordinate and back to the same index, and every well-formed
/// coordinate converts to its index and back to the same coordinate.
pub proof fn lemma_coordinate_index_round_trip(i: int, c: GoCoordinates)
    requires
        0 <= i < 81,
        c.wf(),
    ensures
        coord_of(i).wf(),
        coord_of(i).idx() == i,
        on_board(c.idx()),
        coord_of(c.idx()) == c,
{
    vstd::arithmetic::div_mod::lemma_fundamental_div_mod(i, 9);
    vstd::arithmetic::div_mod::lemma_mod_bound(i, 9);
    assert(0 <= i / 9 < 9) by {
        assert(9 * (i / 9) == i - i % 9);
    }
    lemma_coord_index(c);
}

/// Neighbor count: corner coordinates have exactly 2 neighbors, edge
/// coordinates that are not corners have exactly 3, and interior coordinates
/// have exactly 4.
pub proof fn lemma_neighbor_count(c: GoCoordinates)
    requires
        c.wf(),
    ensures
        ((c.x == 0 || c.x == 8) && (c.y == 0 || c.y == 8)) ==> nbrs(c.idx()).len() == 2,
        ((c.x == 0 || c.x == 8) && 0 < c.y < 8) ==> nbrs(c.idx()).len() == 3,
        (0 < c.x < 8 && (c.y == 0 || c.y == 8)) ==> nbrs(c.idx()).len() == 3,
        (0 < c.x < 8 && 0 < c.y < 8) ==> nbrs(c.idx()).len() == 4,
{
    lemma_coord_index(c);
    assert(nbrs(c.idx()) == crate::board::neighbor_idxs(c));
}

/// Storage round trip: writing a stone and reading the same cell returns
/// exactly that stone, and no other cell changes.
pub proof fn lemma_storage_round_trip(b: Seq<GoStone>, i: int, s: GoStone)
    requires
        0 <= i < b.len(),
    ensures
        b.update(i, s)[i] == s,
        forall|j: int| 0 <= j < b.len() && j != i ==> b.update(i, s)[j] == b[j],
{
}

/// Liberty invariant: a stone with at least one empty neighbor has a liberty;
/// a stone all of whose neighbors hold the opponent's color forms a group of
/// one with no liberty at all.
pub proof fn lemma_liberty_invariant(b: Seq<GoStone>, i: int)
    requires
        b.len() == 81,
        on_board(i),
        b[i] != GoStone::NONE,
    ensures
        (exists|k: int| #[trigger] nbrs(i).contains(k) && b[k] == GoStone::NONE)
            ==> group_has_liberty(b, i),
        (forall|k: int| #[trigger] nbrs(i).contains(k) ==> b[k] == b[i].spec_opponent())
            ==> !group_has_liberty(b, i),
{
    lemma_reaches_self(b, i);
    if exists|k: int| #[trigger] nbrs(i).contains(k) && b[k] == GoStone::NONE {
        assert(cell_has_liberty(b, i));
        assert(group_has_liberty(b, i));
    }
    if forall|k: int| #[trigger] nbrs(i).contains(k) ==> b[k] == b[i].spec_opponent() {
        assert(b[i].spec_opponent() != b[i] && b[i].spec_opponent() != GoStone::NONE);
        assert(!group_has_liberty(b, i)) by {
            if group_has_liberty(b, i) {
                let j = choose|j: int| #[trigger] reaches(b, i, j) && cell_has_liberty(b, j);
                let p = choose|p: Seq<int>| is_chain(b, p) && p.first() == i && p.last() == j;
                if p.len() > 1 {
                    assert(nbrs(p[0]).contains(p[1]));
                    assert(b[p[1]] == b[p.first()]);
                    assert(false);
                }
                assert(j == i);
                let k = choose|k: int| #[trigger] nbrs(i).contains(k) && b[k] == GoStone::NONE;
                assert(false);
            }
        }
    }
}

/// Undo inverts a successful move: given the state transitions that
/// `play_stone` guarantees on success and that `undo` guarantees when more
/// than the initial position remains, the history, current position and turn
/// counter return exactly to their pre-move values; the capture tallies do so
/// exactly when the move captured nothing.
pub proof fn lemma_play_undo_restores(g0: GoGame, g1: GoGame, g2: GoGame, s: int)
    requires
        g0.wf(),
        g1.history() == g0.history().push(after_move(g0.position(), s, g0.turn_color())),
        g1.turn_counter() == g0.turn_counter() + 1,
        g1.black_caps() == g0.black_caps() + (if g0.turn_color() == GoStone::BLACK {
            move_captures(g0.position(), s, g0.turn_color())
        } else {
            0
        }),
        g1.white_caps() == g0.white_caps() + (if g0.turn_color() == GoStone::WHITE {
            move_captures(g0.position(), s, g0.turn_color())
        } else {
            0
        }),
        g2.history() == g1.history().drop_last(),
        g2.turn_counter() == g1.turn_counter() - 1,
        g2.black_caps() == g1.black_caps(),
        g2.white_caps() == g1.white_caps(),
    ensures
        g2.history() == g0.history(),
        g2.position() == g0.position(),
        g2.turn_counter() == g0.turn_counter(),
        move_captures(g0.position(), s, g0.turn_color()) == 0 ==> g2.black_caps() == g0.black_caps()
            && g2.white_caps() == g0.white_caps(),
{
    assert(g1.history().drop_last() =~= g0.history());
}

} // verus!
