//! Territory estimation: simultaneous two-color growth to a fixed point.

use vstd::prelude::*;

use crate::board::count_color;
use crate::board::lemma_coord_index;
use crate::board::lemma_count_le_len;
use crate::board::nbrs;
use crate::board::on_board;
use crate::board::GoBoard;
use crate::board::GoBoardMask;
use crate::board::GoCoordinates;
use crate::board::GoStone;

verus! {

/// Whether some cell orthogonally adjacent to `j` holds `color`.
pub open spec fn has_neighbor_of(b: Seq<GoStone>, j: int, color: GoStone) -> bool {
    exists|k: int| #[trigger] nbrs(j).contains(k) && on_board(k) && b[k] == color
}

/// One simultaneous growth pass, for a single cell: an empty cell takes a
/// color that is adjacent to it at the start of the pass, unless both or
/// neither colors are adjacent; stones never change.
pub open spec fn grow_cell(b: Seq<GoStone>, j: int) -> GoStone {
    if b[j] != GoStone::NONE {
        b[j]
    } else {
        let to_black = has_neighbor_of(b, j, GoStone::BLACK);
        let to_white = has_neighbor_of(b, j, GoStone::WHITE);
        if to_black && !to_white {
            GoStone::BLACK
        } else if to_white && !to_black {
            GoStone::WHITE
        } else {
            GoStone::NONE
        }
    }
}

/// One full simultaneous growth pass over the board.
pub open spec fn grow_step(b: Seq<GoStone>) -> Seq<GoStone> {
    Seq::new(81, |j: int| grow_cell(b, j))
}

/// Iterated growth passes, stopping at a fixed point or when out of fuel.
pub open spec fn stabilize(b: Seq<GoStone>, fuel: nat) -> Seq<GoStone>
    decreases fuel,
{
    if fuel == 0 || grow_step(b) == b {
        b
    } else {
        stabilize(grow_step(b), (fuel - 1) as nat)
    }
}

/// The stabilized territory map of a position: every pass fills at least one
/// of the at most 81 empty cells, so 82 passes always reach the fixed point.
pub open spec fn territory_closure(b: Seq<GoStone>) -> Seq<GoStone> {
    stabilize(b, 82)
}

/// A pointwise-dominated board holds no more cells of a color.
proof fn lemma_count_pointwise(b1: Seq<GoStone>, b2: Seq<GoStone>, color: GoStone)
    requires
        b1.len() == b2.len(),
        forall|i: int| 0 <= i < b1.len() ==> (b2[i] == color ==> b1[i] == color),
    ensures
        count_color(b2, color) <= count_color(b1, color),
    decreases b1.len(),
{
    if b1.len() > 0 {
        lemma_count_pointwise(b1.drop_last(), b2.drop_last(), color);
    }
}

/// With one witness cell that lost the color, the count strictly drops.
proof fn lemma_count_pointwise_strict(b1: Seq<GoStone>, b2: Seq<GoStone>, color: GoStone, w: int)
    requires
        b1.len() == b2.len(),
        forall|i: int| 0 <= i < b1.len() ==> (b2[i] == color ==> b1[i] == color),
        0 <= w < b1.len(),
        b1[w] == color,
        b2[w] != color,
    ensures
        count_color(b2, color) < count_color(b1, color),
    decreases b1.len(),
{
    if w == b1.len() - 1 {
        lemma_count_pointwise(b1.drop_last(), b2.drop_last(), color);
    } else {
        lemma_count_pointwise_strict(b1.drop_last(), b2.drop_last(), color, w);
    }
}

/// A growth pass never empties a cell, and a changing pass strictly reduces
/// the number of empty cells.
pub proof fn lemma_grow_step_empties(b: Seq<GoStone>)
    requires
        b.len() == 81,
    ensures
        count_color(grow_step(b), GoStone::NONE) <= count_color(b, GoStone::NONE),
        grow_step(b) != b ==> count_color(grow_step(b), GoStone::NONE) < count_color(
            b,
            GoStone::NONE,
        ),
{
    let b2 = grow_step(b);
    assert(forall|i: int| 0 <= i < 81 ==> (b2[i] == GoStone::NONE ==> b[i] == GoStone::NONE));
    lemma_count_pointwise(b, b2, GoStone::NONE);
    if b2 != b {
        assert(!(b2 =~= b));
        let w = choose|i: int| 0 <= i < 81 && b2[i] != b[i];
        assert(b[w] == GoStone::NONE);
        lemma_count_pointwise_strict(b, b2, GoStone::NONE, w);
    }
}

/// With fuel beyond the number of empty cells, the iteration has reached its
/// fixed point and the fuel no longer matters.
pub proof fn lemma_stabilize_fuel(b: Seq<GoStone>, f1: nat, f2: nat)
    requires
        b.len() == 81,
        f1 > count_color(b, GoStone::NONE),
        f2 > count_color(b, GoStone::NONE),
    ensures
        stabilize(b, f1) == stabilize(b, f2),
        grow_step(stabilize(b, f1)) == stabilize(b, f1),
    decreases f1,
{
    if grow_step(b) != b {
        let b1 = grow_step(b);
        lemma_grow_step_empties(b);
        lemma_stabilize_fuel(b1, (f1 - 1) as nat, (f2 - 1) as nat);
    }
}

/// A growth pass does not change where the iteration stabilizes.
pub proof fn lemma_closure_step(b: Seq<GoStone>)
    requires
        b.len() == 81,
    ensures
        territory_closure(grow_step(b)) == territory_closure(b),
{
    lemma_count_le_len(b, GoStone::NONE);
    if grow_step(b) != b {
        lemma_grow_step_empties(b);
        lemma_stabilize_fuel(grow_step(b), 81, 82);
        assert(territory_closure(b) == stabilize(grow_step(b), 81));
    }
}

/// The dilation of one color into every adjacent cell, in a single pass.
pub open spec fn grow_once(b: Seq<GoStone>, color: GoStone) -> Seq<GoStone> {
    Seq::new(
        81,
        |j: int|
            if b[j] != color && has_neighbor_of(b, j, color) {
                color
            } else {
                b[j]
            },
    )
}

impl GoBoard {
    /// One simultaneous growth pass for both colors; returns whether any cell
    /// changed. Neighbor colors are judged as they stood at the start of the
    /// pass, so growth within one pass does not cascade.
    #[verifier::rlimit(50)]
    pub fn grow_both(&mut self) -> (r: bool)
        requires
            old(self).wf(),
        ensures
            final(self).wf(),
            final(self)@ == grow_step(old(self)@),
            r == (grow_step(old(self)@) != old(self)@),
    {
        let mask = GoBoardMask::new_stone_mask(self, GoStone::NONE);
        let ghost b = self@;
        let mut has_grown = false;
        let mut i: usize = 0;
        while i < 81
            invariant
                self.wf(),
                b.len() == 81,
                mask.wf(),
                forall|j: int| 0 <= j < 81 ==> mask@[j] == (b[j] == GoStone::NONE),
                i <= 81,
                forall|j: int| 0 <= j < i ==> self@[j] == grow_cell(b, j),
                forall|j: int| i <= j < 81 ==> self@[j] == b[j],
                has_grown == exists|j: int| 0 <= j < i && #[trigger] grow_cell(b, j) != b[j],
            decreases 81 - i,
        {
            let coordinates = GoCoordinates::from_index(i);
            let here = self.get_stone(coordinates);
            if here.is_none() {
                let neighbors = coordinates.neighbors();
                let ghost ns = neighbors@.map_values(|c: GoCoordinates| c.idx());
                let mut grow_black = false;
                let mut grow_white = false;
                let mut t: usize = 0;
                while t < neighbors.len()
                    invariant
                        self.wf(),
                        b.len() == 81,
                        mask.wf(),
                        forall|j: int| 0 <= j < 81 ==> mask@[j] == (b[j] == GoStone::NONE),
                        i < 81,
                        coordinates.wf(),
                        coordinates.idx() == i,
                        forall|j: int| 0 <= j < i ==> self@[j] == grow_cell(b, j),
                        forall|j: int| i <= j < 81 ==> self@[j] == b[j],
                        ns == neighbors@.map_values(|c: GoCoordinates| c.idx()),
                        ns == nbrs(i as int),
                        t <= neighbors@.len(),
                        forall|u: int| 0 <= u < neighbors@.len() ==> (#[trigger] neighbors@[u]).wf(),
                        grow_black == exists|u: int|
                            0 <= u < t && b[(#[trigger] neighbors@[u]).idx()] == GoStone::BLACK,
                        grow_white == exists|u: int|
                            0 <= u < t && b[(#[trigger] neighbors@[u]).idx()] == GoStone::WHITE,
                    decreases neighbors@.len() - t,
                {
                    let n = neighbors[t];
                    let ghost nj = n.idx();
                    proof {
                        lemma_coord_index(n);
                        assert(ns[t as int] == nj);
                    }
                    if !mask.get(n) {
                        let neighbor_stone = self.get_stone(n);
                        proof {
                            assert(b[nj] != GoStone::NONE);
                            if nj < i as int {
                                assert(self@[nj] == grow_cell(b, nj));
                                assert(grow_cell(b, nj) == b[nj]);
                            }
                            assert(self@[nj] == b[nj]);
                        }
                        if matches!(neighbor_stone, GoStone::BLACK) {
                            grow_black = true;
                            proof {
                                assert(b[neighbors@[t as int].idx()] == GoStone::BLACK);
                            }
                        }
                        if matches!(neighbor_stone, GoStone::WHITE) {
                            grow_white = true;
                            proof {
                                assert(b[neighbors@[t as int].idx()] == GoStone::WHITE);
                            }
                        }
                    }
                    t = t + 1;
                }
                proof {
                    assert(grow_black == has_neighbor_of(b, i as int, GoStone::BLACK)) by {
                        if grow_black {
                            let u = choose|u: int|
                                0 <= u < neighbors@.len() && b[(#[trigger] neighbors@[u]).idx()]
                                    == GoStone::BLACK;
                            lemma_coord_index(neighbors@[u]);
                            assert(ns[u] == neighbors@[u].idx());
                            assert(nbrs(i as int).contains(neighbors@[u].idx()));
                        }
                        if has_neighbor_of(b, i as int, GoStone::BLACK) {
                            let k = choose|k: int|
                                #[trigger] nbrs(i as int).contains(k) && on_board(k) && b[k]
                                    == GoStone::BLACK;
                            let u = choose|u: int| 0 <= u < ns.len() && ns[u] == k;
                            assert(b[neighbors@[u].idx()] == GoStone::BLACK);
                        }
                    }
                    assert(grow_white == has_neighbor_of(b, i as int, GoStone::WHITE)) by {
                        if grow_white {
                            let u = choose|u: int|
                                0 <= u < neighbors@.len() && b[(#[trigger] neighbors@[u]).idx()]
                                    == GoStone::WHITE;
                            lemma_coord_index(neighbors@[u]);
                            assert(ns[u] == neighbors@[u].idx());
                            assert(nbrs(i as int).contains(neighbors@[u].idx()));
                        }
                        if has_neighbor_of(b, i as int, GoStone::WHITE) {
                            let k = choose|k: int|
                                #[trigger] nbrs(i as int).contains(k) && on_board(k) && b[k]
                                    == GoStone::WHITE;
                            let u = choose|u: int| 0 <= u < ns.len() && ns[u] == k;
                            assert(b[neighbors@[u].idx()] == GoStone::WHITE);
                        }
                    }
                }
                if grow_black && !grow_white {
                    self.set_stone(coordinates, GoStone::BLACK);
                    has_grown = true;
                    proof {
                        assert(grow_cell(b, i as int) == GoStone::BLACK);
                    }
                } else if grow_white && !grow_black {
                    self.set_stone(coordinates, GoStone::WHITE);
                    has_grown = true;
                    proof {
                        assert(grow_cell(b, i as int) == GoStone::WHITE);
                    }
                } else {
                    proof {
                        assert(grow_cell(b, i as int) == GoStone::NONE);
                    }
                }
            } else {
                proof {
                    assert(grow_cell(b, i as int) == b[i as int]);
                }
            }
            i = i + 1;
        }
        proof {
            assert(self@ =~= grow_step(b));
            if has_grown {
                assert(grow_step(b) != b) by {
                    let j = choose|j: int| 0 <= j < 81 && #[trigger] grow_cell(b, j) != b[j];
                    assert(grow_step(b)[j] != b[j]);
                }
            } else {
                assert(grow_step(b) =~= b);
            }
        }
        has_grown
    }

    /// One dilation pass of a single color into every adjacent cell; returns
    /// whether any cell changed.
    #[verifier::rlimit(50)]
    pub fn grow(&mut self, color: GoStone) -> (r: bool)
        requires
            old(self).wf(),
        ensures
            final(self).wf(),
            final(self)@ == grow_once(old(self)@, color),
            r == (grow_once(old(self)@, color) != old(self)@),
    {
        let mask = GoBoardMask::new_stone_mask(self, color);
        let ghost b = self@;
        let mut has_grown = false;
        let mut i: usize = 0;
        while i < 81
            invariant
                self.wf(),
                b.len() == 81,
                mask.wf(),
                forall|j: int| 0 <= j < 81 ==> mask@[j] == (b[j] == color),
                i <= 81,
                forall|j: int| 0 <= j < i ==> self@[j] == grow_once(b, color)[j],
                forall|j: int| i <= j < 81 ==> self@[j] == b[j],
                has_grown == exists|j: int| 0 <= j < i && #[trigger] grow_once(b, color)[j] != b[j],
            decreases 81 - i,
        {
            let coordinates = GoCoordinates::from_index(i);
            let here = self.get_stone(coordinates);
            let here_is_color = matches!(
                (here, color),
                (GoStone::NONE, GoStone::NONE) | (GoStone::BLACK, GoStone::BLACK) | (GoStone::WHITE, GoStone::WHITE),
            );
            if !here_is_color {
                let neighbors = coordinates.neighbors();
                let ghost ns = neighbors@.map_values(|c: GoCoordinates| c.idx());
                let mut any = false;
                let mut t: usize = 0;
                while t < neighbors.len()
                    invariant
                        mask.wf(),
                        b.len() == 81,
                        forall|j: int| 0 <= j < 81 ==> mask@[j] == (b[j] == color),
                        coordinates.wf(),
                        coordinates.idx() == i,
                        i < 81,
                        ns == neighbors@.map_values(|c: GoCoordinates| c.idx()),
                        ns == nbrs(i as int),
                        t <= neighbors@.len(),
                        forall|u: int| 0 <= u < neighbors@.len() ==> (#[trigger] neighbors@[u]).wf(),
                        any == exists|u: int|
                            0 <= u < t && b[(#[trigger] neighbors@[u]).idx()] == color,
                    decreases neighbors@.len() - t,
                {
                    let n = neighbors[t];
                    proof {
                        lemma_coord_index(n);
                        assert(ns[t as int] == n.idx());
                    }
                    if mask.get(n) {
                        any = true;
                        proof {
                            assert(b[neighbors@[t as int].idx()] == color);
                        }
                    }
                    t = t + 1;
                }
                proof {
                    assert(any == has_neighbor_of(b, i as int, color)) by {
                        if any {
                            let u = choose|u: int|
                                0 <= u < neighbors@.len() && b[(#[trigger] neighbors@[u]).idx()]
                                    == color;
                            lemma_coord_index(neighbors@[u]);
                            assert(ns[u] == neighbors@[u].idx());
                            assert(nbrs(i as int).contains(neighbors@[u].idx()));
                        }
                        if has_neighbor_of(b, i as int, color) {
                            let k = choose|k: int|
                                #[trigger] nbrs(i as int).contains(k) && on_board(k) && b[k]
                                    == color;
                            let u = choose|u: int| 0 <= u < ns.len() && ns[u] == k;
                            assert(b[neighbors@[u].idx()] == color);
                        }
                    }
                }
                if any {
                    self.set_stone(coordinates, color);
                    has_grown = true;
                    proof {
                        assert(b[i as int] != color);
                        assert(grow_once(b, color)[i as int] == color);
                    }
                } else {
                    proof {
                        assert(grow_once(b, color)[i as int] == b[i as int]);
                    }
                }
            } else {
                proof {
                    assert(b[i as int] == color);
                    assert(grow_once(b, color)[i as int] == b[i as int]);
                }
            }
            i = i + 1;
        }
        proof {
            assert(self@ =~= grow_once(b, color));
            if has_grown {
                assert(grow_once(b, color) != b) by {
                    let j = choose|j: int|
                        0 <= j < 81 && #[trigger] grow_once(b, color)[j] != b[j];
                    assert(grow_once(b, color)[j] != b[j]);
                }
            } else {
                assert(grow_once(b, color) =~= b);
            }
        }
        has_grown
    }

    /// Estimates each side's territory: grows both colors simultaneously on a
    /// private clone until stable, then counts each color's cells. The board
    /// itself is never mutated.
    pub fn voronoi_score(&self) -> (r: (u64, u64))
        requires
            self.wf(),
        ensures
            r.0 == count_color(territory_closure(self@), GoStone::BLACK),
            r.1 == count_color(territory_closure(self@), GoStone::WHITE),
    {
        let mut grow = self.clone_board();
        let mut grew = grow.grow_both();
        proof {
            lemma_closure_step(self@);
        }
        while grew
            invariant
                grow.wf(),
                territory_closure(grow@) == territory_closure(self@),
                !grew ==> grow_step(grow@) == grow@,
            decreases count_color(grow@, GoStone::NONE), (if grew {
                1int
            } else {
                0int
            }),
        {
            let ghost pre = grow@;
            grew = grow.grow_both();
            proof {
                lemma_closure_step(pre);
                lemma_grow_step_empties(pre);
            }
        }
        proof {
            assert(territory_closure(grow@) == grow@);
        }
        let black = grow.count(GoStone::BLACK);
        let white = grow.count(GoStone::WHITE);
        (black as u64, white as u64)
    }
}

} // verus!
