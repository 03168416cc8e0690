//! Connected groups, liberties, and capture mechanics.
//!
//! A group is the edge-connected closure of same-colored stones; it is modeled
//! by `reaches`, the existence of a same-colored chain between two cells.

use vstd::prelude::*;

use crate::board::lemma_coord_index;
use crate::board::lemma_nbrs_on_board;
use crate::board::nbrs;
use crate::board::on_board;
use crate::board::GoBoard;
use crate::board::GoBoardMask;
use crate::board::GoCoordinates;
use crate::board::GoStone;

verus! {

/// A same-colored chain: every cell is on the board and holds the color of the
/// first cell, and consecutive cells are orthogonal neighbors.
pub open spec fn is_chain(b: Seq<GoStone>, p: Seq<int>) -> bool {
    &&& p.len() > 0
    &&& forall|k: int| 0 <= k < p.len() ==> on_board(#[trigger] p[k]) && b[p[k]] == b[p.first()]
    &&& forall|k: int| 0 <= k < p.len() - 1 ==> nbrs(#[trigger] p[k]).contains(p[k + 1])
}

/// Cell `j` belongs to the same-colored group of cell `i`.
pub open spec fn reaches(b: Seq<GoStone>, i: int, j: int) -> bool {
    exists|p: Seq<int>| is_chain(b, p) && p.first() == i && p.last() == j
}

/// The connected group of cell `i`, as a set of cell indices.
pub open spec fn group(b: Seq<GoStone>, i: int) -> Set<int> {
    Set::new(|j: int| reaches(b, i, j))
}

/// Some cell orthogonally adjacent to `j` is empty.
pub open spec fn cell_has_liberty(b: Seq<GoStone>, j: int) -> bool {
    exists|k: int| #[trigger] nbrs(j).contains(k) && b[k] == GoStone::NONE
}

/// The group of cell `i` touches at least one empty cell.
pub open spec fn group_has_liberty(b: Seq<GoStone>, i: int) -> bool {
    exists|j: int| #[trigger] reaches(b, i, j) && cell_has_liberty(b, j)
}

pub proof fn lemma_reaches_self(b: Seq<GoStone>, i: int)
    requires
        on_board(i),
    ensures
        reaches(b, i, i),
{
    let p = seq![i];
    assert(is_chain(b, p));
    assert(p.first() == i && p.last() == i);
}

/// Reaching a cell means it lies on the board and holds the same color.
pub proof fn lemma_reaches_color(b: Seq<GoStone>, i: int, j: int)
    requires
        reaches(b, i, j),
    ensures
        on_board(i),
        on_board(j),
        b[j] == b[i],
{
    let p = choose|p: Seq<int>| is_chain(b, p) && p.first() == i && p.last() == j;
    assert(p[0] == i && p[p.len() - 1] == j);
}

/// A group extends across a same-colored neighbor.
pub proof fn lemma_reaches_step(b: Seq<GoStone>, i: int, j: int, k: int)
    requires
        reaches(b, i, j),
        nbrs(j).contains(k),
        on_board(k),
        b[k] == b[i],
    ensures
        reaches(b, i, k),
{
    let p = choose|p: Seq<int>| is_chain(b, p) && p.first() == i && p.last() == j;
    let q = p.push(k);
    assert(q.first() == i && q.last() == k);
    assert forall|t: int| 0 <= t < q.len() implies on_board(#[trigger] q[t]) && b[q[t]] == b[q.first()] by {
        if t < p.len() {
            assert(q[t] == p[t]);
        }
    }
    assert forall|t: int| 0 <= t < q.len() - 1 implies nbrs(#[trigger] q[t]).contains(
        q[t + 1],
    ) by {
        if t < p.len() - 1 {
            assert(q[t] == p[t] && q[t + 1] == p[t + 1]);
        } else {
            assert(q[t] == p.last() && q[t + 1] == k);
        }
    }
    assert(is_chain(b, q));
}

/// Every cell of a chain, up to position `t`, lies in any set that contains
/// the chain's start and is closed under same-colored neighbors.
proof fn lemma_chain_in_closed_set_at(b: Seq<GoStone>, p: Seq<int>, s: Set<int>, c: GoStone, t: int)
    requires
        is_chain(b, p),
        b[p.first()] == c,
        s.contains(p.first()),
        forall|j: int, k: int|
            #![trigger s.contains(j), nbrs(j).contains(k)]
            s.contains(j) && nbrs(j).contains(k) && on_board(k) && b[k] == c ==> s.contains(k),
        0 <= t < p.len(),
    ensures
        s.contains(p[t]),
    decreases t,
{
    if t > 0 {
        lemma_chain_in_closed_set_at(b, p, s, c, t - 1);
        assert(nbrs(p[t - 1]).contains(p[t]));
        assert(on_board(p[t]) && b[p[t]] == c);
    }
}

/// Every cell of a chain lies in any set that contains the chain's start and
/// is closed under same-colored neighbors.
pub proof fn lemma_chain_in_closed_set(b: Seq<GoStone>, p: Seq<int>, s: Set<int>, c: GoStone)
    requires
        is_chain(b, p),
        b[p.first()] == c,
        s.contains(p.first()),
        forall|j: int, k: int|
            #![trigger s.contains(j), nbrs(j).contains(k)]
            s.contains(j) && nbrs(j).contains(k) && on_board(k) && b[k] == c ==> s.contains(k),
    ensures
        forall|t: int| 0 <= t < p.len() ==> s.contains(#[trigger] p[t]),
{
    assert forall|t: int| 0 <= t < p.len() implies s.contains(#[trigger] p[t]) by {
        lemma_chain_in_closed_set_at(b, p, s, c, t);
    }
}

/// The group of any cell is a finite set of at most 81 cells.
pub proof fn lemma_group_finite(b: Seq<GoStone>, i: int)
    ensures
        group(b, i).finite(),
        group(b, i).len() <= 81,
{
    assert forall|j: int| group(b, i).contains(j) implies vstd::set_lib::set_int_range(
        0,
        81,
    ).contains(j) by {
        lemma_reaches_color(b, i, j);
    }
    vstd::set_lib::lemma_int_range(0, 81);
    vstd::set_lib::lemma_len_subset(group(b, i), vstd::set_lib::set_int_range(0, 81));
}

/// Some element of the queue has cell index `j`.
pub open spec fn in_queue(q: Seq<GoCoordinates>, j: int) -> bool {
    exists|t: int| 0 <= t < q.len() && (#[trigger] q[t]).idx() == j
}

/// A fully processed cell: its same-colored neighbors are all in `visited`
/// and none of its neighbors is empty.
pub open spec fn processed_ok(b: Seq<GoStone>, c: GoStone, visited: Set<int>, j: int) -> bool {
    &&& forall|k: int|
        #[trigger] nbrs(j).contains(k) && on_board(k) && b[k] == c ==> visited.contains(k)
    &&& !cell_has_liberty(b, j)
}

impl GoBoard {
    /// Whether the group of the stone at `coordinates` has any liberty.
    #[verifier::rlimit(100)]
    pub fn group_has_liberties(&self, coordinates: GoCoordinates) -> (r: bool)
        requires
            self.wf(),
            coordinates.wf(),
            self@[coordinates.idx()] != GoStone::NONE,
        ensures
            r == group_has_liberty(self@, coordinates.idx()),
    {
        let color = self.get_stone(coordinates);
        let ghost b = self@;
        let ghost s0 = coordinates.idx();
        proof {
            lemma_coord_index(coordinates);
            lemma_reaches_self(b, s0);
            vstd::set_lib::lemma_int_range(0, 81);
        }

        let mut enqueued = GoBoardMask::new();
        enqueued.set(coordinates, true);
        let mut queue: Vec<GoCoordinates> = Vec::new();
        queue.push(coordinates);
        let ghost mut visited: Set<int> = Set::empty().insert(s0);
        proof {
            assert(visited.subset_of(vstd::set_lib::set_int_range(0, 81)));
            vstd::set_lib::lemma_len_subset(visited, vstd::set_lib::set_int_range(0, 81));
            assert(queue@[0] == coordinates);
            assert(in_queue(queue@, s0));
        }

        while queue.len() != 0
            invariant
                self.wf(),
                b == self@,
                s0 == coordinates.idx(),
                on_board(s0),
                b[s0] == color,
                color != GoStone::NONE,
                enqueued.wf(),
                visited.finite(),
                visited.len() <= 81,
                visited.subset_of(vstd::set_lib::set_int_range(0, 81)),
                visited.contains(s0),
                forall|i: int| 0 <= i < 81 ==> enqueued@[i] == visited.contains(i),
                forall|j: int| #[trigger] visited.contains(j) ==> reaches(b, s0, j),
                forall|t: int|
                    0 <= t < queue@.len() ==> (#[trigger] queue@[t]).wf() && visited.contains(
                        queue@[t].idx(),
                    ),
                forall|t1: int, t2: int|
                    0 <= t1 < t2 < queue@.len() ==> queue@[t1].idx() != queue@[t2].idx(),
                forall|j: int|
                    #[trigger] visited.contains(j) && !in_queue(queue@, j) ==> processed_ok(
                        b,
                        color,
                        visited,
                        j,
                    ),
            decreases 81 - visited.len(), queue.len(),
        {
            let ghost q_pre = queue@;
            let current = queue.pop().unwrap();
            let ghost s_cur = current.idx();
            proof {
                assert(q_pre[q_pre.len() - 1] == current);
                assert(visited.contains(s_cur));
                lemma_reaches_color(b, s0, s_cur);
                assert forall|j: int|
                    #[trigger] visited.contains(j) && !in_queue(queue@, j) && j != s_cur
                        implies processed_ok(b, color, visited, j) by {
                    assert(!in_queue(q_pre, j)) by {
                        if in_queue(q_pre, j) {
                            let u = choose|u: int|
                                0 <= u < q_pre.len() && (#[trigger] q_pre[u]).idx() == j;
                            if u < q_pre.len() - 1 {
                                assert(queue@[u] == q_pre[u]);
                                assert(in_queue(queue@, j));
                            } else {
                                assert(j == s_cur);
                            }
                        }
                    }
                }
            }

            let neighbors = current.neighbors();
            let ghost ns = neighbors@.map_values(|c: GoCoordinates| c.idx());
            let ghost v0 = visited;
            let mut t: usize = 0;
            while t < neighbors.len()
                invariant
                    self.wf(),
                    b == self@,
                    s0 == coordinates.idx(),
                    on_board(s0),
                    b[s0] == color,
                    color != GoStone::NONE,
                    enqueued.wf(),
                    visited.finite(),
                    visited.len() <= 81,
                    visited.subset_of(vstd::set_lib::set_int_range(0, 81)),
                    visited.contains(s0),
                    current.wf(),
                    s_cur == current.idx(),
                    visited.contains(s_cur),
                    ns == neighbors@.map_values(|c: GoCoordinates| c.idx()),
                    ns == nbrs(s_cur),
                    v0.finite(),
                    v0.len() <= visited.len(),
                    queue@.len() + v0.len() == q_pre.len() - 1 + visited.len(),
                    t <= neighbors@.len(),
                    forall|u: int| 0 <= u < neighbors@.len() ==> (#[trigger] neighbors@[u]).wf(),
                    forall|i: int| 0 <= i < 81 ==> enqueued@[i] == visited.contains(i),
                    forall|j: int| #[trigger] visited.contains(j) ==> reaches(b, s0, j),
                    forall|u: int|
                        0 <= u < queue@.len() ==> (#[trigger] queue@[u]).wf() && visited.contains(
                            queue@[u].idx(),
                        ),
                    forall|u1: int, u2: int|
                        0 <= u1 < u2 < queue@.len() ==> queue@[u1].idx() != queue@[u2].idx(),
                    forall|j: int|
                        #[trigger] visited.contains(j) && !in_queue(queue@, j) && j != s_cur
                            ==> processed_ok(b, color, visited, j),
                    forall|u: int| 0 <= u < t ==> b[(#[trigger] neighbors@[u]).idx()] != GoStone::NONE,
                    forall|u: int|
                        0 <= u < t && b[(#[trigger] neighbors@[u]).idx()] == color
                            ==> visited.contains(neighbors@[u].idx()),
                decreases neighbors@.len() - t,
            {
                let n = neighbors[t];
                let ghost nj = n.idx();
                proof {
                    lemma_coord_index(n);
                    assert(ns[t as int] == nj);
                    assert(nbrs(s_cur).contains(nj));
                }
                let ncolor = self.get_stone(n);
                if ncolor.is_none() {
                    proof {
                        assert(cell_has_liberty(b, s_cur));
                        assert(reaches(b, s0, s_cur));
                        assert(group_has_liberty(b, s0));
                    }
                    return true;
                }
                if ncolor == color && !enqueued.get(n) {
                    let ghost visited_pre = visited;
                    let ghost q_mid = queue@;
                    enqueued.set(n, true);
                    queue.push(n);
                    proof {
                        assert(!visited_pre.contains(nj));
                        visited = visited.insert(nj);
                        assert(visited.len() == visited_pre.len() + 1);
                        lemma_reaches_step(b, s0, s_cur, nj);
                        vstd::set_lib::lemma_int_range(0, 81);
                        assert(visited.subset_of(vstd::set_lib::set_int_range(0, 81)));
                        vstd::set_lib::lemma_len_subset(
                            visited,
                            vstd::set_lib::set_int_range(0, 81),
                        );
                        assert(in_queue(queue@, nj)) by {
                            assert(queue@[queue@.len() - 1].idx() == nj);
                        }
                        assert forall|j: int|
                            #[trigger] visited.contains(j) && !in_queue(queue@, j) && j != s_cur
                                implies processed_ok(b, color, visited, j) by {
                            assert(j != nj);
                            assert(visited_pre.contains(j));
                            assert(!in_queue(q_mid, j)) by {
                                if in_queue(q_mid, j) {
                                    let u = choose|u: int|
                                        0 <= u < q_mid.len() && (#[trigger] q_mid[u]).idx() == j;
                                    assert(queue@[u].idx() == j);
                                }
                            }
                            assert(processed_ok(b, color, visited_pre, j));
                        }
                    }
                }
                t = t + 1;
            }
            proof {
                // `current` is now fully processed.
                assert(processed_ok(b, color, visited, s_cur)) by {
                    assert forall|k: int|
                        #[trigger] nbrs(s_cur).contains(k) && on_board(k) && b[k] == color
                            implies visited.contains(k) by {
                        let u = choose|u: int| 0 <= u < ns.len() && ns[u] == k;
                        assert(neighbors@[u].idx() == k);
                    }
                    assert(!cell_has_liberty(b, s_cur)) by {
                        if cell_has_liberty(b, s_cur) {
                            let k = choose|k: int|
                                #[trigger] nbrs(s_cur).contains(k) && b[k] == GoStone::NONE;
                            let u = choose|u: int| 0 <= u < ns.len() && ns[u] == k;
                            assert(neighbors@[u].idx() == k);
                        }
                    }
                }
                // cells processed before stay processed, by the inner invariant.
                assert forall|j: int|
                    #[trigger] visited.contains(j) && !in_queue(queue@, j) implies processed_ok(
                        b,
                        color,
                        visited,
                        j,
                    ) by {
                    if j != s_cur {
                        assert(processed_ok(b, color, visited, j));
                    }
                }
            }
        }
        proof {
            assert(!group_has_liberty(b, s0)) by {
                if group_has_liberty(b, s0) {
                    let j = choose|j: int| #[trigger] reaches(b, s0, j) && cell_has_liberty(b, j);
                    let p = choose|p: Seq<int>| is_chain(b, p) && p.first() == s0 && p.last() == j;
                    assert forall|j2: int, k: int|
                        #![trigger visited.contains(j2), nbrs(j2).contains(k)]
                        visited.contains(j2) && nbrs(j2).contains(k) && on_board(k) && b[k]
                            == color implies visited.contains(k) by {
                        assert(!in_queue(queue@, j2));
                        assert(processed_ok(b, color, visited, j2));
                    }
                    lemma_chain_in_closed_set(b, p, visited, color);
                    assert(visited.contains(j));
                    assert(!in_queue(queue@, j));
                    assert(processed_ok(b, color, visited, j));
                }
            }
        }
        false
    }
}

/// The board with the whole group of cell `i` cleared to empty.
pub open spec fn clear_group(b: Seq<GoStone>, i: int) -> Seq<GoStone> {
    Seq::new(
        81,
        |j: int|
            if reaches(b, i, j) {
                GoStone::NONE
            } else {
                b[j]
            },
    )
}

/// A cell whose same-colored neighbors have all been cleared already.
pub open spec fn removed_ok(b: Seq<GoStone>, c: GoStone, cleared: Set<int>, j: int) -> bool {
    forall|k: int|
        #[trigger] nbrs(j).contains(k) && on_board(k) && b[k] == c ==> cleared.contains(k)
}

impl GoBoard {
    /// Clears the whole group of the stone at `coordinates` and returns how
    /// many stones were removed.
    #[verifier::rlimit(100)]
    pub fn remove_group(&mut self, coordinates: GoCoordinates) -> (r: u64)
        requires
            old(self).wf(),
            coordinates.wf(),
            old(self)@[coordinates.idx()] != GoStone::NONE,
        ensures
            final(self).wf(),
            final(self)@ == clear_group(old(self)@, coordinates.idx()),
            r == group(old(self)@, coordinates.idx()).len(),
    {
        let color = self.get_stone(coordinates);
        let ghost b = self@;
        let ghost s0 = coordinates.idx();
        proof {
            lemma_coord_index(coordinates);
            lemma_reaches_self(b, s0);
            vstd::set_lib::lemma_int_range(0, 81);
        }
        let mut queue: Vec<GoCoordinates> = Vec::new();
        queue.push(coordinates);
        self.set_stone(coordinates, GoStone::NONE);
        let mut result: u64 = 1;
        let ghost mut cleared: Set<int> = Set::empty().insert(s0);
        proof {
            assert(cleared.subset_of(vstd::set_lib::set_int_range(0, 81)));
            vstd::set_lib::lemma_len_subset(cleared, vstd::set_lib::set_int_range(0, 81));
            assert(queue@[0] == coordinates);
            assert(in_queue(queue@, s0));
        }

        while queue.len() != 0
            invariant
                self.wf(),
                b.len() == 81,
                s0 == coordinates.idx(),
                on_board(s0),
                b[s0] == color,
                color != GoStone::NONE,
                cleared.finite(),
                cleared.len() <= 81,
                cleared.subset_of(vstd::set_lib::set_int_range(0, 81)),
                cleared.contains(s0),
                result == cleared.len(),
                forall|i: int|
                    0 <= i < 81 ==> self@[i] == (if cleared.contains(i) {
                        GoStone::NONE
                    } else {
                        b[i]
                    }),
                forall|j: int| #[trigger] cleared.contains(j) ==> reaches(b, s0, j),
                forall|t: int|
                    0 <= t < queue@.len() ==> (#[trigger] queue@[t]).wf() && cleared.contains(
                        queue@[t].idx(),
                    ),
                forall|t1: int, t2: int|
                    0 <= t1 < t2 < queue@.len() ==> queue@[t1].idx() != queue@[t2].idx(),
                forall|j: int|
                    #[trigger] cleared.contains(j) && !in_queue(queue@, j) ==> removed_ok(
                        b,
                        color,
                        cleared,
                        j,
                    ),
            decreases 81 - cleared.len(), queue.len(),
        {
            let ghost q_pre = queue@;
            let current = queue.pop().unwrap();
            let ghost s_cur = current.idx();
            proof {
                assert(q_pre[q_pre.len() - 1] == current);
                assert(cleared.contains(s_cur));
                lemma_reaches_color(b, s0, s_cur);
                assert forall|j: int|
                    #[trigger] cleared.contains(j) && !in_queue(queue@, j) && j != s_cur
                        implies removed_ok(b, color, cleared, j) by {
                    assert(!in_queue(q_pre, j)) by {
                        if in_queue(q_pre, j) {
                            let u = choose|u: int|
                                0 <= u < q_pre.len() && (#[trigger] q_pre[u]).idx() == j;
                            if u < q_pre.len() - 1 {
                                assert(queue@[u] == q_pre[u]);
                                assert(in_queue(queue@, j));
                            } else {
                                assert(j == s_cur);
                            }
                        }
                    }
                }
            }

            let neighbors = current.neighbors();
            let ghost ns = neighbors@.map_values(|c: GoCoordinates| c.idx());
            let ghost v0 = cleared;
            let mut t: usize = 0;
            while t < neighbors.len()
                invariant
                    self.wf(),
                    b.len() == 81,
                    s0 == coordinates.idx(),
                    on_board(s0),
                    b[s0] == color,
                    color != GoStone::NONE,
                    cleared.finite(),
                    cleared.len() <= 81,
                    cleared.subset_of(vstd::set_lib::set_int_range(0, 81)),
                    cleared.contains(s0),
                    result == cleared.len(),
                    current.wf(),
                    s_cur == current.idx(),
                    cleared.contains(s_cur),
                    ns == neighbors@.map_values(|c: GoCoordinates| c.idx()),
                    ns == nbrs(s_cur),
                    v0.finite(),
                    v0.len() <= cleared.len(),
                    queue@.len() + v0.len() == q_pre.len() - 1 + cleared.len(),
                    t <= neighbors@.len(),
                    forall|u: int| 0 <= u < neighbors@.len() ==> (#[trigger] neighbors@[u]).wf(),
                    forall|i: int|
                        0 <= i < 81 ==> self@[i] == (if cleared.contains(i) {
                            GoStone::NONE
                        } else {
                            b[i]
                        }),
                    forall|j: int| #[trigger] cleared.contains(j) ==> reaches(b, s0, j),
                    forall|u: int|
                        0 <= u < queue@.len() ==> (#[trigger] queue@[u]).wf() && cleared.contains(
                            queue@[u].idx(),
                        ),
                    forall|u1: int, u2: int|
                        0 <= u1 < u2 < queue@.len() ==> queue@[u1].idx() != queue@[u2].idx(),
                    forall|j: int|
                        #[trigger] cleared.contains(j) && !in_queue(queue@, j) && j != s_cur
                            ==> removed_ok(b, color, cleared, j),
                    forall|u: int|
                        0 <= u < t && b[(#[trigger] neighbors@[u]).idx()] == color
                            ==> cleared.contains(neighbors@[u].idx()),
                decreases neighbors@.len() - t,
            {
                let n = neighbors[t];
                let ghost nj = n.idx();
                proof {
                    lemma_coord_index(n);
                    assert(ns[t as int] == nj);
                    assert(nbrs(s_cur).contains(nj));
                }
                let ncolor = self.get_stone(n);
                if !ncolor.is_none() && matches!((ncolor, color), (GoStone::BLACK, GoStone::BLACK) | (GoStone::WHITE, GoStone::WHITE)) {
                    proof {
                        assert(!cleared.contains(nj));
                        assert(b[nj] == color);
                    }
                    let ghost cleared_pre = cleared;
                    let ghost q_mid = queue@;
                    self.set_stone(n, GoStone::NONE);
                    result = result + 1;
                    queue.push(n);
                    proof {
                        cleared = cleared.insert(nj);
                        assert(cleared.len() == cleared_pre.len() + 1);
                        lemma_reaches_step(b, s0, s_cur, nj);
                        vstd::set_lib::lemma_int_range(0, 81);
                        assert(cleared.subset_of(vstd::set_lib::set_int_range(0, 81)));
                        vstd::set_lib::lemma_len_subset(
                            cleared,
                            vstd::set_lib::set_int_range(0, 81),
                        );
                        assert(in_queue(queue@, nj)) by {
                            assert(queue@[queue@.len() - 1].idx() == nj);
                        }
                        assert forall|j: int|
                            #[trigger] cleared.contains(j) && !in_queue(queue@, j) && j != s_cur
                                implies removed_ok(b, color, cleared, j) by {
                            assert(j != nj);
                            assert(cleared_pre.contains(j));
                            assert(!in_queue(q_mid, j)) by {
                                if in_queue(q_mid, j) {
                                    let u = choose|u: int|
                                        0 <= u < q_mid.len() && (#[trigger] q_mid[u]).idx() == j;
                                    assert(queue@[u].idx() == j);
                                }
                            }
                            assert(removed_ok(b, color, cleared_pre, j));
                        }
                    }
                }
                t = t + 1;
            }
            proof {
                assert(removed_ok(b, color, cleared, s_cur)) by {
                    assert forall|k: int|
                        #[trigger] nbrs(s_cur).contains(k) && on_board(k) && b[k] == color
                            implies cleared.contains(k) by {
                        let u = choose|u: int| 0 <= u < ns.len() && ns[u] == k;
                        assert(neighbors@[u].idx() == k);
                    }
                }
                assert forall|j: int|
                    #[trigger] cleared.contains(j) && !in_queue(queue@, j) implies removed_ok(
                        b,
                        color,
                        cleared,
                        j,
                    ) by {
                    if j != s_cur {
                        assert(removed_ok(b, color, cleared, j));
                    }
                }
            }
        }
        proof {
            assert forall|j: int| group(b, s0).contains(j) implies cleared.contains(j) by {
                let p = choose|p: Seq<int>| is_chain(b, p) && p.first() == s0 && p.last() == j;
                assert forall|j2: int, k: int|
                    #![trigger cleared.contains(j2), nbrs(j2).contains(k)]
                    cleared.contains(j2) && nbrs(j2).contains(k) && on_board(k) && b[k]
                        == color implies cleared.contains(k) by {
                    assert(!in_queue(queue@, j2));
                    assert(removed_ok(b, color, cleared, j2));
                }
                lemma_chain_in_closed_set(b, p, cleared, color);
                assert(cleared.contains(p[p.len() - 1]));
            }
            assert(cleared =~= group(b, s0));
            assert(self@ =~= clear_group(b, s0));
        }
        result
    }
}

/// One step of the capture pass: if the cell holds the victim's color and its
/// group has no liberty, the whole group is cleared.
pub open spec fn kill_at(b: Seq<GoStone>, j: int, victim: GoStone) -> Seq<GoStone> {
    if on_board(j) && b[j] == victim && !group_has_liberty(b, j) {
        clear_group(b, j)
    } else {
        b
    }
}

/// How many stones one capture step removes.
pub open spec fn kill_count_at(b: Seq<GoStone>, j: int, victim: GoStone) -> nat {
    if on_board(j) && b[j] == victim && !group_has_liberty(b, j) {
        group(b, j).len()
    } else {
        0
    }
}

/// The capture pass over a sequence of cells, each step seeing the board the
/// previous steps left behind.
pub open spec fn kill_fold(b: Seq<GoStone>, ns: Seq<int>, victim: GoStone) -> Seq<GoStone>
    decreases ns.len(),
{
    if ns.len() == 0 {
        b
    } else {
        kill_fold(kill_at(b, ns.first(), victim), ns.drop_first(), victim)
    }
}

/// The total number of stones the capture pass removes.
pub open spec fn kill_fold_count(b: Seq<GoStone>, ns: Seq<int>, victim: GoStone) -> nat
    decreases ns.len(),
{
    if ns.len() == 0 {
        0
    } else {
        kill_count_at(b, ns.first(), victim) + kill_fold_count(
            kill_at(b, ns.first(), victim),
            ns.drop_first(),
            victim,
        )
    }
}

/// Unrolling the capture pass from the right.
pub proof fn lemma_kill_fold_snoc(b: Seq<GoStone>, ns: Seq<int>, j: int, victim: GoStone)
    ensures
        kill_fold(b, ns.push(j), victim) == kill_at(kill_fold(b, ns, victim), j, victim),
        kill_fold_count(b, ns.push(j), victim) == kill_fold_count(b, ns, victim) + kill_count_at(
            kill_fold(b, ns, victim),
            j,
            victim,
        ),
    decreases ns.len(),
{
    let e = ns.push(j);
    if ns.len() == 0 {
        assert(e.first() == j);
        assert(e.drop_first() =~= ns);
        assert(kill_fold(b, ns, victim) == b);
        assert(kill_fold_count(b, ns, victim) == 0);
        assert(kill_fold(kill_at(b, j, victim), ns, victim) == kill_at(b, j, victim));
        assert(kill_fold_count(kill_at(b, j, victim), ns, victim) == 0);
        assert(kill_fold(b, e, victim) == kill_fold(kill_at(b, e.first(), victim), e.drop_first(), victim));
        assert(kill_fold_count(b, e, victim) == kill_count_at(b, e.first(), victim)
            + kill_fold_count(kill_at(b, e.first(), victim), e.drop_first(), victim));
    } else {
        assert(e.first() == ns.first());
        assert(e.drop_first() =~= ns.drop_first().push(j));
        let b1 = kill_at(b, ns.first(), victim);
        lemma_kill_fold_snoc(b1, ns.drop_first(), j, victim);
        assert(kill_fold(b, e, victim) == kill_fold(b1, e.drop_first(), victim));
        assert(kill_fold(b, ns, victim) == kill_fold(b1, ns.drop_first(), victim));
        assert(kill_fold_count(b, e, victim) == kill_count_at(b, e.first(), victim)
            + kill_fold_count(b1, e.drop_first(), victim));
        assert(kill_fold_count(b, ns, victim) == kill_count_at(b, ns.first(), victim)
            + kill_fold_count(b1, ns.drop_first(), victim));
    }
}

/// The capture pass removes at most 81 stones per visited cell.
pub proof fn lemma_kill_fold_count_bound(b: Seq<GoStone>, ns: Seq<int>, victim: GoStone)
    ensures
        kill_fold_count(b, ns, victim) <= 81 * ns.len(),
    decreases ns.len(),
{
    if ns.len() > 0 {
        lemma_group_finite(b, ns.first());
        lemma_kill_fold_count_bound(kill_at(b, ns.first(), victim), ns.drop_first(), victim);
    }
}

/// The capture pass never touches a cell that does not hold the victim's
/// color; in particular the freshly placed stone survives it.
pub proof fn lemma_kill_fold_preserves(b: Seq<GoStone>, ns: Seq<int>, victim: GoStone, j0: int)
    requires
        b.len() == 81,
        on_board(j0),
        b[j0] != victim,
    ensures
        kill_fold(b, ns, victim).len() == 81,
        kill_fold(b, ns, victim)[j0] == b[j0],
    decreases ns.len(),
{
    if ns.len() > 0 {
        let j = ns.first();
        if on_board(j) && b[j] == victim && !group_has_liberty(b, j) {
            if reaches(b, j, j0) {
                lemma_reaches_color(b, j, j0);
            }
            assert(clear_group(b, j)[j0] == b[j0]);
        }
        lemma_kill_fold_preserves(kill_at(b, j, victim), ns.drop_first(), victim, j0);
    }
}

impl GoBoard {
    /// Captures every opponent group left without a liberty next to the stone
    /// just placed at `coordinates`; returns the number of stones removed.
    #[verifier::rlimit(100)]
    pub fn kill_stones(&mut self, coordinates: GoCoordinates) -> (r: u64)
        requires
            old(self).wf(),
            coordinates.wf(),
            old(self)@[coordinates.idx()] != GoStone::NONE,
        ensures
            final(self).wf(),
            final(self)@ == kill_fold(
                old(self)@,
                nbrs(coordinates.idx()),
                old(self)@[coordinates.idx()].spec_opponent(),
            ),
            r == kill_fold_count(
                old(self)@,
                nbrs(coordinates.idx()),
                old(self)@[coordinates.idx()].spec_opponent(),
            ),
    {
        let ghost b0 = self@;
        let killer = self.get_stone(coordinates);
        let killed = killer.opponent_color();
        let ghost victim = b0[coordinates.idx()].spec_opponent();
        proof {
            lemma_coord_index(coordinates);
            lemma_nbrs_on_board(coordinates.idx());
        }
        let mut result: u64 = 0;
        let neighbors = coordinates.neighbors();
        let ghost ns = nbrs(coordinates.idx());
        let mut t: usize = 0;
        while t < neighbors.len()
            invariant
                self.wf(),
                b0.len() == 81,
                killed == victim,
                victim != GoStone::NONE,
                ns == nbrs(coordinates.idx()),
                ns == neighbors@.map_values(|c: GoCoordinates| c.idx()),
                ns.len() <= 4,
                t <= neighbors@.len(),
                forall|u: int| 0 <= u < neighbors@.len() ==> (#[trigger] neighbors@[u]).wf(),
                self@ == kill_fold(b0, ns.take(t as int), victim),
                result == kill_fold_count(b0, ns.take(t as int), victim),
            decreases neighbors@.len() - t,
        {
            let ghost cur = self@;
            let n = neighbors[t];
            let ghost nj = n.idx();
            proof {
                lemma_coord_index(n);
                assert(ns[t as int] == nj);
                lemma_kill_fold_count_bound(b0, ns.take(t as int), victim);
                assert(ns.take(t as int).len() == t);
                assert(ns.take(t as int + 1) =~= ns.take(t as int).push(ns[t as int]));
                lemma_kill_fold_snoc(b0, ns.take(t as int), nj, victim);
            }
            let ncolor = self.get_stone(n);
            let is_victim = !ncolor.is_none() && matches!(
                (ncolor, killed),
                (GoStone::BLACK, GoStone::BLACK) | (GoStone::WHITE, GoStone::WHITE),
            );
            if is_victim {
                if !self.group_has_liberties(n) {
                    proof {
                        lemma_group_finite(cur, nj);
                    }
                    let k = self.remove_group(n);
                    result = result + k;
                    proof {
                        assert(self@ == kill_at(cur, nj, victim));
                    }
                } else {
                    proof {
                        assert(self@ == kill_at(cur, nj, victim));
                    }
                }
            } else {
                proof {
                    assert(cur[nj] != victim);
                    assert(self@ == kill_at(cur, nj, victim));
                }
            }
            t = t + 1;
        }
        proof {
            assert(ns.take(neighbors@.len() as int) =~= ns);
        }
        result
    }
}

} // verus!
