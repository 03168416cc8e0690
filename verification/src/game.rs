//! The game manager: turn alternation, capture tallies, full-history
//! positional-superko checking, and undo.

use vstd::prelude::*;

use crate::board::nbrs;
use crate::board::GoBoard;
use crate::board::GoCoordinates;
use crate::board::GoStone;
use crate::group::group_has_liberty;
use crate::group::kill_fold;
use crate::group::kill_fold_count;
use crate::group::lemma_kill_fold_count_bound;
use crate::group::lemma_kill_fold_preserves;

verus! {

/// Why a move was rejected. All of these are expected, recoverable outcomes.
#[derive(Clone, Copy, Debug, Eq, PartialEq, Structural)]
pub enum PlayError {
    /// The target cell already holds a stone.
    Occupied,
    /// After captures resolve, the placed stone's group has no liberty.
    Suicide,
    /// The resulting position equals one already seen in this game.
    Repetition,
}

/// Why an undo was rejected.
#[derive(Clone, Copy, Debug, Eq, PartialEq, Structural)]
pub enum UndoError {
    /// Only the initial position remains.
    NoHistory,
}

/// The empty starting position.
pub open spec fn empty_position() -> Seq<GoStone> {
    Seq::new(81, |i: int| GoStone::NONE)
}

/// The position after placing `mover` at cell `s` and resolving captures.
pub open spec fn after_move(b: Seq<GoStone>, s: int, mover: GoStone) -> Seq<GoStone> {
    kill_fold(b.update(s, mover), nbrs(s), mover.spec_opponent())
}

/// How many opponent stones the move at cell `s` captures.
pub open spec fn move_captures(b: Seq<GoStone>, s: int, mover: GoStone) -> nat {
    kill_fold_count(b.update(s, mover), nbrs(s), mover.spec_opponent())
}

/// A move is suicide when the placed stone's own group still has no liberty
/// once captures are resolved.
pub open spec fn is_suicide(b: Seq<GoStone>, s: int, mover: GoStone) -> bool {
    !group_has_liberty(after_move(b, s, mover), s)
}

/// The position `b2` already occurs somewhere in the history `h`.
pub open spec fn repeats_history(h: Seq<Seq<GoStone>>, b2: Seq<GoStone>) -> bool {
    exists|i: int| 0 <= i < h.len() && h[i] == b2
}

/// An append-only history of positions with a turn counter and capture tallies.
pub struct GoGame {
    board: Vec<GoBoard>,
    turn: u64,
    black_captures: u64,
    white_captures: u64,
}

impl GoGame {
    /// The history of positions, oldest first; never empty.
    pub closed spec fn history(self) -> Seq<Seq<GoStone>> {
        self.board@.map_values(|b: GoBoard| b@)
    }

    /// The number of moves played (plus one if White started).
    pub closed spec fn turn_counter(self) -> u64 {
        self.turn
    }

    /// Stones Black has captured so far.
    pub closed spec fn black_caps(self) -> u64 {
        self.black_captures
    }

    /// Stones White has captured so far.
    pub closed spec fn white_caps(self) -> u64 {
        self.white_captures
    }

    /// The current position: the last entry of the history.
    pub open spec fn position(self) -> Seq<GoStone> {
        self.history().last()
    }

    /// Whose move it is: Black on even turn counts, White on odd.
    pub open spec fn turn_color(self) -> GoStone {
        if self.turn_counter() % 2 == 0 {
            GoStone::BLACK
        } else {
            GoStone::WHITE
        }
    }

    /// Every stored board snapshot is well formed.
    pub closed spec fn boards_wf(self) -> bool {
        forall|i: int| 0 <= i < self.board@.len() ==> (#[trigger] self.board@[i]).wf()
    }

    pub open spec fn wf(self) -> bool {
        &&& self.boards_wf()
        &&& self.history().len() >= 1
        &&& self.history().len() - 1 <= self.turn_counter() <= self.history().len()
        &&& forall|i: int|
            0 <= i < self.history().len() ==> (#[trigger] self.history()[i]).len() == 81
    }

    /// Both games hold exactly the same observable state.
    pub open spec fn same_game(self, other: GoGame) -> bool {
        &&& self.history() == other.history()
        &&& self.turn_counter() == other.turn_counter()
        &&& self.black_caps() == other.black_caps()
        &&& self.white_caps() == other.white_caps()
    }

    /// A fresh game: the empty board, Black to move, no captures.
    pub fn new() -> (r: Self)
        ensures
            r.wf(),
            r.history().len() == 1,
            r.history()[0] == empty_position(),
            r.turn_counter() == 0,
            r.black_caps() == 0,
            r.white_caps() == 0,
    {
        let board = GoBoard::new();
        proof {
            assert(board@ =~= empty_position());
        }
        let r = Self { board: vec![board], turn: 0, black_captures: 0, white_captures: 0 };
        proof {
            assert(r.history() =~= seq![board@]);
        }
        r
    }

    /// A game starting from a supplied position with an explicit mover.
    pub fn from_board(board: GoBoard, current_turn: GoStone) -> (r: Self)
        requires
            board.wf(),
            current_turn != GoStone::NONE,
        ensures
            r.wf(),
            r.history().len() == 1,
            r.history()[0] == board@,
            r.turn_color() == current_turn,
            r.turn_counter() == (if current_turn == GoStone::BLACK {
                0u64
            } else {
                1u64
            }),
            r.black_caps() == 0,
            r.white_caps() == 0,
    {
        let ghost bv = board@;
        let turn: u64 = if matches!(current_turn, GoStone::BLACK) {
            0
        } else {
            1
        };
        let r = Self { board: vec![board], turn, black_captures: 0, white_captures: 0 };
        proof {
            assert(r.history() =~= seq![bv]);
        }
        r
    }

    /// Whether the candidate position equals any snapshot in the history.
    fn history_contains(&self, candidate: &GoBoard) -> (r: bool)
        requires
            self.wf(),
            candidate.wf(),
        ensures
            r == repeats_history(self.history(), candidate@),
    {
        let mut i: usize = 0;
        while i < self.board.len()
            invariant
                self.wf(),
                candidate.wf(),
                i <= self.board@.len(),
                forall|t: int| 0 <= t < i ==> self.history()[t] != candidate@,
            decreases self.board@.len() - i,
        {
            if self.board[i].same_position(candidate) {
                proof {
                    assert(self.history()[i as int] == candidate@);
                }
                return true;
            }
            i = i + 1;
        }
        false
    }

    /// Plays a stone of the mover's color, enforcing occupancy, suicide and
    /// positional-superko rules; on failure the game is left unchanged.
    pub fn play_stone(&mut self, coordinates: GoCoordinates) -> (r: Result<(), PlayError>)
        requires
            old(self).wf(),
            coordinates.wf(),
            old(self).turn_counter() < u64::MAX,
            old(self).black_caps() <= u64::MAX - 324,
            old(self).white_caps() <= u64::MAX - 324,
        ensures
            final(self).wf(),
            ({
                let s = coordinates.idx();
                let b = old(self).position();
                let mover = old(self).turn_color();
                let b2 = after_move(b, s, mover);
                let k = move_captures(b, s, mover);
                if b[s] != GoStone::NONE {
                    r == Result::<(), PlayError>::Err(PlayError::Occupied) && final(self).same_game(*old(self))
                } else if is_suicide(b, s, mover) {
                    r == Result::<(), PlayError>::Err(PlayError::Suicide) && final(self).same_game(*old(self))
                } else if repeats_history(old(self).history(), b2) {
                    r == Result::<(), PlayError>::Err(PlayError::Repetition) && final(self).same_game(*old(self))
                } else {
                    &&& r == Result::<(), PlayError>::Ok(())
                    &&& final(self).history() == old(self).history().push(b2)
                    &&& final(self).turn_counter() == old(self).turn_counter() + 1
                    &&& final(self).black_caps() == old(self).black_caps() + (
                    if mover == GoStone::BLACK {
                        k
                    } else {
                        0
                    })
                    &&& final(self).white_caps() == old(self).white_caps() + (
                    if mover == GoStone::WHITE {
                        k
                    } else {
                        0
                    })
                }
            }),
    {
        let ghost s = coordinates.idx();
        let ghost b = self.position();
        let ghost mover_spec = self.turn_color();

        if !self.current_board().get_stone(coordinates).is_none() {
            return Err(PlayError::Occupied);
        }

        let mut new_board = self.current_board().clone_board();
        let mover = self.current_turn();
        new_board.set_stone(coordinates, mover);
        let killed_stones = new_board.kill_stones(coordinates);
        proof {
            assert(new_board@ == after_move(b, s, mover_spec));
            assert(killed_stones == move_captures(b, s, mover_spec));
            crate::board::lemma_coord_index(coordinates);
            lemma_kill_fold_preserves(b.update(s, mover_spec), nbrs(s), mover_spec.spec_opponent(), s);
            assert(new_board@[s] == mover_spec);
        }

        if new_board.group_has_liberties(coordinates) {
            if self.history_contains(&new_board) {
                return Err(PlayError::Repetition);
            }
            proof {
                crate::board::lemma_nbrs_on_board(s);
                lemma_kill_fold_count_bound(b.update(s, mover_spec), nbrs(s), mover_spec.spec_opponent());
                assert(killed_stones <= 324);
            }
            if matches!(mover, GoStone::BLACK) {
                self.black_captures = self.black_captures + killed_stones;
            } else {
                self.white_captures = self.white_captures + killed_stones;
            }
            let ghost hist_pre = self.history();
            self.board.push(new_board);
            self.turn = self.turn + 1;
            proof {
                assert(self.history() =~= hist_pre.push(new_board@));
                assert forall|i: int| 0 <= i < self.board@.len() implies (#[trigger] self.board@[i]).wf() by {
                    if i < self.board@.len() - 1 {
                        assert(old(self).board@[i].wf());
                    }
                }
            }
            Ok(())
        } else {
            Err(PlayError::Suicide)
        }
    }

    /// The color whose move is next.
    pub fn current_turn(&self) -> (r: GoStone)
        ensures
            r == self.turn_color(),
    {
        if self.turn % 2 == 0 {
            GoStone::BLACK
        } else {
            GoStone::WHITE
        }
    }

    /// A read-only reference to the current board snapshot.
    pub fn current_board(&self) -> (r: &GoBoard)
        requires
            self.wf(),
        ensures
            r@ == self.position(),
            r.wf(),
    {
        let i = self.board.len() - 1;
        &self.board[i]
    }

    /// Removes the last snapshot, if any move can still be taken back.
    pub fn undo(&mut self) -> (r: Result<(), UndoError>)
        requires
            old(self).wf(),
        ensures
            final(self).wf(),
            if old(self).history().len() > 1 {
                &&& r == Result::<(), UndoError>::Ok(())
                &&& final(self).history() == old(self).history().drop_last()
                &&& final(self).turn_counter() == old(self).turn_counter() - 1
                &&& final(self).black_caps() == old(self).black_caps()
                &&& final(self).white_caps() == old(self).white_caps()
            } else {
                r == Result::<(), UndoError>::Err(UndoError::NoHistory) && final(self).same_game(
                    *old(self),
                )
            },
    {
        if self.board.len() > 1 {
            self.board.pop();
            self.turn = self.turn - 1;
            proof {
                assert(self.history() =~= old(self).history().drop_last());
            }
            Ok(())
        } else {
            Err(UndoError::NoHistory)
        }
    }

    /// How many stones Black has captured in total.
    pub fn black_captures(&self) -> (r: u64)
        ensures
            r == self.black_caps(),
    {
        self.black_captures
    }

    /// How many stones White has captured in total.
    pub fn white_captures(&self) -> (r: u64)
        ensures
            r == self.white_caps(),
    {
        self.white_captures
    }

    /// The turn counter: even means Black to move, odd means White.
    pub fn turn_number(&self) -> (r: u64)
        ensures
            r == self.turn_counter(),
    {
        self.turn
    }

    /// An independent copy of the whole game state.
    pub fn clone_game(&self) -> (r: Self)
        requires
            self.wf(),
        ensures
            r.wf(),
            r.same_game(*self),
    {
        let mut boards: Vec<GoBoard> = Vec::new();
        let mut i: usize = 0;
        while i < self.board.len()
            invariant
                self.wf(),
                i <= self.board@.len(),
                boards@.len() == i,
                forall|t: int| 0 <= t < i ==> (#[trigger] boards@[t]).wf(),
                forall|t: int| 0 <= t < i ==> (#[trigger] boards@[t])@ == self.history()[t],
            decreases self.board@.len() - i,
        {
            boards.push(self.board[i].clone_board());
            i = i + 1;
        }
        let r = Self {
            board: boards,
            turn: self.turn,
            black_captures: self.black_captures,
            white_captures: self.white_captures,
        };
        proof {
            assert(r.history() =~= self.history());
        }
        r
    }
}

} // verus!
