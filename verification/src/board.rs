//! Coordinates, stones, the 9x9 board and its transient bit masks.

use vstd::prelude::*;

use crate::bits::bit_capacity;
use crate::bits::bits_of;
use crate::bits::bv_contains;
use crate::bits::bv_insert;
use crate::bits::bv_new;
use crate::bits::bv_remove;
use crate::tritvector::Trit;
use crate::tritvector::TritVector;

verus! {

/// The three states a board cell can hold.
#[derive(Clone, Copy, Debug, Eq, PartialEq, Structural)]
#[allow(non_camel_case_types)]
pub enum GoStone {
    NONE,
    BLACK,
    WHITE,
}

impl GoStone {
    /// The color of the other player; only Black and White have one.
    pub open spec fn spec_opponent(self) -> GoStone {
        match self {
            GoStone::BLACK => GoStone::WHITE,
            GoStone::WHITE => GoStone::BLACK,
            GoStone::NONE => GoStone::NONE,
        }
    }

    pub fn opponent_color(&self) -> (r: Self)
        requires
            *self != GoStone::NONE,
        ensures
            r == self.spec_opponent(),
    {
        match self {
            GoStone::BLACK => GoStone::WHITE,
            GoStone::WHITE => GoStone::BLACK,
            GoStone::NONE => vstd::pervasive::unreached(),
        }
    }

    pub fn is_none(&self) -> (r: bool)
        ensures
            r == (*self == GoStone::NONE),
    {
        *self == GoStone::NONE
    }
}

/// The stone a packed trit stands for.
pub open spec fn stone_of_trit(t: Trit) -> GoStone {
    match t {
        Trit::ZERO => GoStone::NONE,
        Trit::ONE => GoStone::BLACK,
        Trit::TWO => GoStone::WHITE,
    }
}

/// The packed trit that stands for a stone.
pub open spec fn trit_of_stone(s: GoStone) -> Trit {
    match s {
        GoStone::NONE => Trit::ZERO,
        GoStone::BLACK => Trit::ONE,
        GoStone::WHITE => Trit::TWO,
    }
}

/// A cell index lies on the board.
pub open spec fn on_board(i: int) -> bool {
    0 <= i < 81
}

/// A position on the board: both axes lie in `[0, 9)`.
#[derive(Clone, Copy, Debug, Eq, PartialEq, Structural)]
pub struct GoCoordinates {
    pub x: u8,
    pub y: u8,
}

/// The coordinates of a linear cell index.
pub open spec fn coord_of(i: int) -> GoCoordinates {
    GoCoordinates { x: (i % 9) as u8, y: (i / 9) as u8 }
}

/// The linear indices of a coordinate's orthogonal neighbors, in the stable
/// order left, up, right, down, omitting any that fall off the board.
pub open spec fn neighbor_idxs(c: GoCoordinates) -> Seq<int> {
    (if c.x > 0 {
        seq![c.idx() - 1]
    } else {
        Seq::empty()
    }) + (if c.y > 0 {
        seq![c.idx() - 9]
    } else {
        Seq::empty()
    }) + (if c.x < 8 {
        seq![c.idx() + 1]
    } else {
        Seq::empty()
    }) + (if c.y < 8 {
        seq![c.idx() + 9]
    } else {
        Seq::empty()
    })
}

/// The neighborhood of a cell given by its linear index.
pub open spec fn nbrs(i: int) -> Seq<int> {
    neighbor_idxs(coord_of(i))
}

/// Converting a well-formed coordinate to its index and back is the identity.
pub proof fn lemma_coord_index(c: GoCoordinates)
    requires
        c.wf(),
    ensures
        on_board(c.idx()),
        coord_of(c.idx()) == c,
{
    vstd::arithmetic::div_mod::lemma_fundamental_div_mod_converse(
        c.idx(),
        9,
        c.y as int,
        c.x as int,
    );
}

/// Every neighbor index lies on the board and differs from the cell itself.
pub proof fn lemma_nbrs_on_board(i: int)
    requires
        on_board(i),
    ensures
        forall|j: int| #[trigger] nbrs(i).contains(j) ==> on_board(j) && j != i,
        2 <= nbrs(i).len() <= 4,
{
    vstd::arithmetic::div_mod::lemma_fundamental_div_mod(i, 9);
    vstd::arithmetic::div_mod::lemma_mod_bound(i, 9);
    let c = coord_of(i);
    assert(i == 9 * (i / 9) + i % 9);
    assert(0 <= i / 9 < 9) by {
        assert(9 * (i / 9) == i - i % 9);
    }
    assert(c.idx() == i);
    assert forall|j: int| #[trigger] nbrs(i).contains(j) implies on_board(j) && j != i by {
        let t = choose|t: int| 0 <= t < nbrs(i).len() && nbrs(i)[t] == j;
        assert(j == i - 1 || j == i - 9 || j == i + 1 || j == i + 9);
        if j == i - 1 {
            assert(c.x > 0);
        } else if j == i + 1 {
            assert(c.x < 8);
        } else if j == i - 9 {
            assert(c.y > 0);
        } else {
            assert(c.y < 8);
        }
    }
}

impl GoCoordinates {
    pub open spec fn wf(self) -> bool {
        self.x < 9 && self.y < 9
    }

    /// The linear cell index `x + 9*y`, in `[0, 81)`.
    pub open spec fn idx(self) -> int {
        self.x + 9 * self.y
    }

    pub fn new(x: u8, y: u8) -> (r: Self)
        requires
            x < 9,
            y < 9,
        ensures
            r.wf(),
            r.x == x,
            r.y == y,
    {
        Self { x, y }
    }

    pub fn new_usize(x: usize, y: usize) -> (r: Self)
        requires
            x < 9,
            y < 9,
        ensures
            r.wf(),
            r.x == x,
            r.y == y,
    {
        Self { x: x as u8, y: y as u8 }
    }

    /// The coordinate of a linear cell index.
    pub fn from_index(i: usize) -> (r: Self)
        requires
            i < 81,
        ensures
            r.wf(),
            r == coord_of(i as int),
            r.idx() == i,
    {
        proof {
            vstd::arithmetic::div_mod::lemma_fundamental_div_mod(i as int, 9);
            vstd::arithmetic::div_mod::lemma_mod_bound(i as int, 9);
        }
        Self { x: (i % 9) as u8, y: (i / 9) as u8 }
    }

    /// The linear cell index of this coordinate.
    pub fn to_index(&self) -> (r: usize)
        requires
            self.wf(),
        ensures
            r == self.idx(),
            r < 81,
    {
        (self.x + 9 * self.y) as usize
    }

    /// The orthogonal neighbors, in the stable order left, up, right, down.
    pub fn neighbors(&self) -> (r: Vec<GoCoordinates>)
        requires
            self.wf(),
        ensures
            r@.map_values(|c: GoCoordinates| c.idx()) == nbrs(self.idx()),
            forall|t: int| 0 <= t < r@.len() ==> (#[trigger] r@[t]).wf(),
    {
        proof {
            lemma_coord_index(*self);
        }
        let mut result: Vec<GoCoordinates> = Vec::new();
        if self.x > 0 {
            result.push(GoCoordinates { x: self.x - 1, y: self.y });
        }
        if self.y > 0 {
            result.push(GoCoordinates { x: self.x, y: self.y - 1 });
        }
        if self.x < 8 {
            result.push(GoCoordinates { x: self.x + 1, y: self.y });
        }
        if self.y < 8 {
            result.push(GoCoordinates { x: self.x, y: self.y + 1 });
        }
        proof {
            assert(result@.map_values(|c: GoCoordinates| c.idx()) =~= nbrs(self.idx()));
        }
        result
    }

    pub fn x(&self) -> (r: u8)
        ensures
            r == self.x,
    {
        self.x
    }

    pub fn y(&self) -> (r: u8)
        ensures
            r == self.y,
    {
        self.y
    }
}

/// How many stones of a color a position holds.
pub open spec fn count_color(b: Seq<GoStone>, color: GoStone) -> nat
    decreases b.len(),
{
    if b.len() == 0 {
        0
    } else {
        count_color(b.drop_last(), color) + if b.last() == color {
            1nat
        } else {
            0nat
        }
    }
}

/// A count never exceeds the number of cells.
pub proof fn lemma_count_le_len(b: Seq<GoStone>, color: GoStone)
    ensures
        count_color(b, color) <= b.len(),
    decreases b.len(),
{
    if b.len() > 0 {
        lemma_count_le_len(b.drop_last(), color);
    }
}

/// A snapshot of all 81 cell states, packed two bits per cell.
pub struct GoBoard {
    board: TritVector,
}

impl View for GoBoard {
    type V = Seq<GoStone>;

    closed spec fn view(&self) -> Seq<GoStone> {
        self.board@.map_values(|t: Trit| stone_of_trit(t))
    }
}

impl GoBoard {
    /// The packed storage is well formed.
    pub closed spec fn storage_wf(self) -> bool {
        self.board.wf() && self.board@.len() == 81
    }

    pub open spec fn wf(self) -> bool {
        self.storage_wf() && self@.len() == 81
    }

    /// The empty starting board.
    pub fn new() -> (r: Self)
        ensures
            r.wf(),
            forall|i: int| 0 <= i < 81 ==> r@[i] == GoStone::NONE,
    {
        let r = Self { board: TritVector::new(81) };
        r
    }

    pub fn get_stone(&self, coordinates: GoCoordinates) -> (r: GoStone)
        requires
            self.wf(),
            coordinates.wf(),
        ensures
            r == self@[coordinates.idx()],
    {
        proof {
            lemma_coord_index(coordinates);
        }
        match self.board.get(coordinates.to_index()) {
            Trit::ZERO => GoStone::NONE,
            Trit::ONE => GoStone::BLACK,
            Trit::TWO => GoStone::WHITE,
        }
    }

    pub fn set_stone(&mut self, coordinates: GoCoordinates, stone: GoStone)
        requires
            old(self).wf(),
            coordinates.wf(),
        ensures
            final(self).wf(),
            final(self)@ == old(self)@.update(coordinates.idx(), stone),
    {
        proof {
            lemma_coord_index(coordinates);
        }
        let trit = match stone {
            GoStone::NONE => Trit::ZERO,
            GoStone::BLACK => Trit::ONE,
            GoStone::WHITE => Trit::TWO,
        };
        self.board.set(coordinates.to_index(), trit);
        proof {
            assert(self@ =~= old(self)@.update(coordinates.idx(), stone));
        }
    }

    /// An independent copy: same 81 cells, no shared storage.
    pub fn clone_board(&self) -> (r: Self)
        requires
            self.wf(),
        ensures
            r.wf(),
            r@ == self@,
    {
        Self { board: self.board.clone_trits() }
    }

    /// Full-position equality: true exactly when all 81 cells match.
    pub fn same_position(&self, other: &GoBoard) -> (r: bool)
        requires
            self.wf(),
            other.wf(),
        ensures
            r == (self@ == other@),
    {
        let r = self.board.eq(&other.board);
        proof {
            if self.board@ == other.board@ {
                assert(self@ == other@);
            } else {
                assert(!(self.board@ =~= other.board@));
                let i = choose|i: int|
                    0 <= i < 81 && self.board@[i] != other.board@[i];
                assert(stone_of_trit(self.board@[i]) != stone_of_trit(other.board@[i]));
                assert(self@[i] != other@[i]);
            }
        }
        r
    }

    /// How many cells hold the given color.
    pub fn count(&self, color: GoStone) -> (r: u8)
        requires
            self.wf(),
        ensures
            r == count_color(self@, color),
    {
        let mut result: u8 = 0;
        let mut i: usize = 0;
        while i < 81
            invariant
                self.wf(),
                i <= 81,
                result == count_color(self@.take(i as int), color),
            decreases 81 - i,
        {
            proof {
                lemma_count_le_len(self@.take(i as int), color);
                assert(self@.take(i as int + 1).drop_last() =~= self@.take(i as int));
            }
            let c = GoCoordinates::from_index(i);
            if self.get_stone(c) == color {
                result = result + 1;
            }
            i = i + 1;
        }
        proof {
            assert(self@.take(81) =~= self@);
        }
        result
    }
}

/// A transient set of cells, used for visited tracking and color masks.
pub struct GoBoardMask {
    mask: bitvector::BitVector,
}

impl View for GoBoardMask {
    type V = Seq<bool>;

    closed spec fn view(&self) -> Seq<bool> {
        Seq::new(81, |i: int| bits_of(self.mask).contains(i))
    }
}

impl GoBoardMask {
    pub closed spec fn storage_wf(self) -> bool {
        bit_capacity(self.mask) >= 81
    }

    pub open spec fn wf(self) -> bool {
        self.storage_wf() && self@.len() == 81
    }

    /// The empty mask.
    pub fn new() -> (r: Self)
        ensures
            r.wf(),
            forall|i: int| 0 <= i < 81 ==> !r@[i],
    {
        Self { mask: bv_new(81) }
    }

    /// The mask of all cells that hold the given color on the given board.
    pub fn new_stone_mask(board: &GoBoard, color: GoStone) -> (r: Self)
        requires
            board.wf(),
        ensures
            r.wf(),
            forall|i: int| 0 <= i < 81 ==> r@[i] == (board@[i] == color),
    {
        let mut result = Self::new();
        let mut i: usize = 0;
        while i < 81
            invariant
                board.wf(),
                result.wf(),
                i <= 81,
                forall|j: int| 0 <= j < i ==> result@[j] == (board@[j] == color),
                forall|j: int| i <= j < 81 ==> !result@[j],
            decreases 81 - i,
        {
            let coordinates = GoCoordinates::from_index(i);
            result.set(coordinates, board.get_stone(coordinates) == color);
            i = i + 1;
        }
        result
    }

    pub fn get(&self, c: GoCoordinates) -> (r: bool)
        requires
            self.wf(),
            c.wf(),
        ensures
            r == self@[c.idx()],
    {
        proof {
            lemma_coord_index(c);
        }
        bv_contains(&self.mask, c.to_index())
    }

    pub fn set(&mut self, c: GoCoordinates, value: bool)
        requires
            old(self).wf(),
            c.wf(),
        ensures
            final(self).wf(),
            final(self)@ == old(self)@.update(c.idx(), value),
    {
        proof {
            lemma_coord_index(c);
        }
        if value {
            bv_insert(&mut self.mask, c.to_index());
        } else {
            bv_remove(&mut self.mask, c.to_index());
        }
        proof {
            assert(self@ =~= old(self)@.update(c.idx(), value));
        }
    }
}

} // verus!
