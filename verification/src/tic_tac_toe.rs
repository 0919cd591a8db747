//! Tic-tac-toe: a two-player, perfect-information game implementing the
//! engine's game-state contract over a fixed 3x3 grid.

use vstd::prelude::*;

verus! {

use crate::rng::random_below;
use crate::GameState;
use crate::PlayerState;
use crate::Status;

/// One of the two players, identified by the mark it places.
#[derive(Debug, Copy, Clone, Eq, PartialEq, Structural)]
pub enum Player {
    O,
    X,
}

impl PlayerState for Player {
    open spec fn other(self) -> Self {
        match self {
            Player::O => Player::X,
            Player::X => Player::O,
        }
    }

    fn next(self) -> (r: Self) {
        match self {
            Self::O => Self::X,
            Self::X => Self::O,
        }
    }

    fn eq_player(self, other: Self) -> (r: bool) {
        self == other
    }
}

/// The content of one cell of the grid.
#[derive(Debug, Copy, Clone, Eq, PartialEq, Structural)]
pub enum State {
    Empty,
    X,
    O,
}

/// The mark a player places.
pub open spec fn mark_of(player: Player) -> State {
    match player {
        Player::O => State::O,
        Player::X => State::X,
    }
}

impl From<Player> for State {
    fn from(player: Player) -> (r: State) {
        match player {
            Player::O => State::O,
            Player::X => State::X,
        }
    }
}

impl vstd::std_specs::convert::FromSpecImpl<Player> for State {
    open spec fn obeys_from_spec() -> bool {
        true
    }

    open spec fn from_spec(player: Player) -> State {
        mark_of(player)
    }
}

/// The cell index of position `j` of winning line `k`: lines 0 to 2 are the
/// rows, 3 to 5 the columns, 6 and 7 the diagonals.
pub open spec fn line(k: int, j: int) -> int {
    if k < 3 {
        3 * k + j
    } else if k < 6 {
        (k - 3) + 3 * j
    } else if k == 6 {
        4 * j
    } else {
        2 + 2 * j
    }
}

/// Whether line `k` is filled with `player`'s mark.
pub open spec fn line_won_by(cells: Seq<State>, k: int, player: Player) -> bool {
    &&& cells[line(k, 0)] == mark_of(player)
    &&& cells[line(k, 1)] == mark_of(player)
    &&& cells[line(k, 2)] == mark_of(player)
}

/// Whether `player` owns one of the eight winning lines.
pub open spec fn wins(cells: Seq<State>, player: Player) -> bool {
    exists|k: int| 0 <= k < 8 && #[trigger] line_won_by(cells, k, player)
}

/// The number of empty cells at positions `i` and beyond.
pub open spec fn free_from(cells: Seq<State>, i: int) -> nat
    decreases 9 - i,
{
    if i < 0 || i >= 9 {
        0
    } else {
        (if cells[i] is Empty {
            1nat
        } else {
            0nat
        }) + free_from(cells, i + 1)
    }
}

/// The outcome a grid shows: a winner if either player owns a line, a draw
/// on a full board without one, and a game still in progress otherwise.
pub open spec fn status_of(cells: Seq<State>) -> Status<Player> {
    if wins(cells, Player::X) {
        Status::Winner(Player::X)
    } else if wins(cells, Player::O) {
        Status::Winner(Player::O)
    } else if free_from(cells, 0) == 0 {
        Status::Draw
    } else {
        Status::InProgress
    }
}

/// A full position: the grid and the player who made the last move (so the
/// opposing player is the one to move next).
#[derive(Debug, Copy, Clone, PartialEq, Eq)]
pub struct Board {
    pub active_player: Player,
    pub board: [State; 9],
}

impl Board {
    /// The position after the player to move marks cell `i`.
    pub open spec fn play_at(self, i: int) -> Board {
        Board {
            active_player: self.active_player.other(),
            board: vstd::array::spec_array_update(
                self.board,
                i,
                mark_of(self.active_player.other()),
            ),
        }
    }

    /// The continuations reachable by marking one empty cell at position `i`
    /// or beyond, in increasing cell order.
    pub open spec fn next_states_from(self, i: int) -> Seq<Board>
        decreases 9 - i,
    {
        if i < 0 || i >= 9 {
            Seq::empty()
        } else if self.board@[i] is Empty {
            seq![self.play_at(i)] + self.next_states_from(i + 1)
        } else {
            self.next_states_from(i + 1)
        }
    }

    /// The position after the player who moved last marks cell `i` again:
    /// what one call of `next_random_play` produces, which leaves the turn
    /// marker as it is.
    pub open spec fn play_keeping_turn(self, i: int) -> Board {
        Board {
            active_player: self.active_player,
            board: vstd::array::spec_array_update(self.board, i, mark_of(self.active_player)),
        }
    }

    /// The positions one random play can produce, marking one empty cell at
    /// position `i` or beyond, in increasing cell order.
    pub open spec fn plays_from(self, i: int) -> Seq<Board>
        decreases 9 - i,
    {
        if i < 0 || i >= 9 {
            Seq::empty()
        } else if self.board@[i] is Empty {
            seq![self.play_keeping_turn(i)] + self.plays_from(i + 1)
        } else {
            self.plays_from(i + 1)
        }
    }

    /// An empty grid. `starter` is recorded as the player who moved last, so
    /// the first mark placed through `next_states` belongs to the other one.
    pub fn new(starter: Player) -> (b: Board)
        ensures
            b.active_player == starter,
            forall|i: int| 0 <= i < 9 ==> b.board@[i] is Empty,
    {
        Board { active_player: starter, board: [State::Empty;9] }
    }

    /// The number of empty cells.
    pub fn free_fields(&self) -> (n: usize)
        ensures
            n == free_from(self.board@, 0),
    {
        let mut n: usize = 0;
        let mut i: usize = 9;
        while i > 0
            invariant
                i <= 9,
                n + i <= 9,
                n == free_from(self.board@, i as int),
            decreases i,
    	{
            i = i - 1;
            if matches!(self.board[i], State::Empty) {
                n = n + 1;
            }
        }
        n
    }

    /// Whether `player` owns one of the eight winning lines.
    fn has_line(&self, player: Player) -> (r: bool)
        ensures
            r == wins(self.board@, player),
    {
        let mark = State::from(player);
        let mut k: usize = 0;
        let mut found = false;
        while k < 8
            invariant
                k <= 8,
                mark == mark_of(player),
                found == exists|t: int| 0 <= t < k && #[trigger] line_won_by(self.board@, t, player),
            decreases 8 - k,
        {
            let a = self.board[line_cell(k, 0)];
            let b = self.board[line_cell(k, 1)];
            let c = self.board[line_cell(k, 2)];
            if a == mark && b == mark && c == mark {
                proof {
                    assert(line_won_by(self.board@, k as int, player));
                }
                found = true;
            }
            k = k + 1;
        }
        found
    }

    /// The position after `player` marks the empty cell `pos`; `None` when
    /// the cell is already taken.
    pub fn place(&self, pos: usize, player: Player) -> (r: Option<Board>)
        requires
            pos < 9,
        ensures
            match r {
                Some(b) => {
                    &&& self.board@[pos as int] is Empty
                    &&& b.active_player == player
                    &&& b.board@ == self.board@.update(pos as int, mark_of(player))
                },
                None => !(self.board@[pos as int] is Empty),
            },
    {
        if matches!(self.board[pos], State::Empty) {
            let mut b = *self;
            b.active_player = player;
            b.board[pos] = State::from(player);
            Some(b)
        } else {
            None
        }
    }
}

/// The cell index of position `j` of winning line `k`.
fn line_cell(k: usize, j: usize) -> (r: usize)
    requires
        k < 8,
        j < 3,
    ensures
        r == line(k as int, j as int),
        r < 9,
{
    if k < 3 {
        3 * k + j
    } else if k < 6 {
        (k - 3) + 3 * j
    } else if k == 6 {
        4 * j
    } else {
        2 + 2 * j
    }
}

/// `next_states_from(i)` holds one continuation for each empty cell at `i`
/// or beyond.
proof fn lemma_next_states_len(b: Board, i: int)
    requires
        0 <= i <= 9,
    ensures
        b.next_states_from(i).len() == free_from(b.board@, i),
    decreases 9 - i,
{
    if i < 9 {
        lemma_next_states_len(b, i + 1);
    }
}

/// Marking the empty cell `i` lowers by one the number of empty cells at
/// position `j` or beyond, for every `j` up to `i`.
proof fn lemma_free_from_update(cells: Seq<State>, i: int, mark: State, j: int)
    requires
        cells.len() == 9,
        0 <= i < 9,
        0 <= j <= 9,
        cells[i] is Empty,
        !(mark is Empty),
    ensures
        free_from(cells.update(i, mark), j) == if j <= i {
            free_from(cells, j) - 1
        } else {
            free_from(cells, j) as int
        },
    decreases 9 - j,
{
    if j < 9 {
        lemma_free_from_update(cells, i, mark, j + 1);
    }
}

/// Every continuation at position `i` or beyond marks one empty cell at `i`
/// or beyond.
proof fn lemma_next_states_play_cells(b: Board, i: int)
    requires
        0 <= i <= 9,
    ensures
        forall|t: int|
            0 <= t < b.next_states_from(i).len() ==> exists|c: int|
                i <= c < 9 && b.board@[c] is Empty && (#[trigger] b.next_states_from(i)[t])
                    == b.play_at(c),
    decreases 9 - i,
{
    if i < 9 {
        lemma_next_states_play_cells(b, i + 1);
        let s = b.next_states_from(i);
        let rest = b.next_states_from(i + 1);
        if b.board@[i] is Empty {
            assert forall|t: int| 0 <= t < s.len() implies exists|c: int|
                i <= c < 9 && b.board@[c] is Empty && (#[trigger] s[t]) == b.play_at(c) by {
                if t == 0 {
                    assert(i <= i < 9 && b.board@[i] is Empty && s[0] == b.play_at(i));
                } else {
                    assert(s[t] == rest[t - 1]);
                    let c = choose|c: int|
                        i + 1 <= c < 9 && b.board@[c] is Empty && rest[t - 1] == b.play_at(c);
                    assert(i <= c < 9 && b.board@[c] is Empty && s[t] == b.play_at(c));
                }
            }
        } else {
            assert forall|t: int| 0 <= t < s.len() implies exists|c: int|
                i <= c < 9 && b.board@[c] is Empty && (#[trigger] s[t]) == b.play_at(c) by {
                let c = choose|c: int|
                    i + 1 <= c < 9 && b.board@[c] is Empty && rest[t] == b.play_at(c);
                assert(i <= c < 9 && b.board@[c] is Empty && s[t] == b.play_at(c));
            }
        }
    }
}

proof fn lemma_next_states_from_distinct(b: Board, i: int)
    requires
        0 <= i <= 9,
    ensures
        forall|t1: int, t2: int|
            0 <= t1 < t2 < b.next_states_from(i).len() ==> b.next_states_from(i)[t1]
                != b.next_states_from(i)[t2],
    decreases 9 - i,
{
    if i < 9 {
        lemma_next_states_from_distinct(b, i + 1);
        lemma_next_states_play_cells(b, i + 1);
        if b.board@[i] is Empty {
            let s = b.next_states_from(i);
            let rest = b.next_states_from(i + 1);
            assert forall|t1: int, t2: int| 0 <= t1 < t2 < s.len() implies s[t1] != s[t2] by {
                if t1 == 0 {
                    assert(s[t2] == rest[t2 - 1]);
                    let c = choose|c: int|
                        i + 1 <= c < 9 && b.board@[c] is Empty && rest[t2 - 1] == b.play_at(c);
                    // The first continuation marks cell i; the later one
                    // marks a later cell and leaves cell i empty.
                    assert(b.play_at(i).board@[i] == mark_of(b.active_player.other()));
                    assert(b.play_at(c).board@[i] == b.board@[i]);
                    assert(s[0] == b.play_at(i));
                    assert(s[0].board@[i] != s[t2].board@[i]);
                } else {
                    assert(s[t1] == rest[t1 - 1] && s[t2] == rest[t2 - 1]);
                }
            }
        }
    }
}

/// Expansion completeness, seen from the game's side: no two legal
/// continuations of a position are the same state, so the children an
/// expansion creates from them are pairwise distinct successors.
pub proof fn lemma_next_states_distinct(b: Board)
    ensures
        forall|t1: int, t2: int|
            0 <= t1 < t2 < b.spec_next_states().len() ==> b.spec_next_states()[t1]
                != b.spec_next_states()[t2],
{
    if !wins(b.board@, Player::X) && !wins(b.board@, Player::O) {
        lemma_next_states_from_distinct(b, 0);
    }
}

/// Marking the empty cell `i` yields one of the plays offered at position
/// `j` or before it.
proof fn lemma_plays_from_contains(b: Board, j: int, i: int)
    requires
        0 <= j <= i < 9,
        b.board@[i] is Empty,
    ensures
        b.plays_from(j).contains(b.play_keeping_turn(i)),
    decreases i - j,
{
    let s = b.plays_from(j);
    if j == i {
        assert(s[0] == b.play_keeping_turn(i));
        assert(s.contains(b.play_keeping_turn(i)));
    } else {
        lemma_plays_from_contains(b, j + 1, i);
        let rest = b.plays_from(j + 1);
        let t = choose|t: int| 0 <= t < rest.len() && rest[t] == b.play_keeping_turn(i);
        if b.board@[j] is Empty {
            assert(s[t + 1] == rest[t]);
        }
        assert(s.contains(b.play_keeping_turn(i)));
    }
}

/// After the turn passes, the plays random play can produce are exactly the
/// position's legal continuations, cell by cell.
proof fn lemma_toggled_plays_match(b: Board, j: int)
    requires
        0 <= j <= 9,
    ensures
        b.spec_toggled().plays_from(j) == b.next_states_from(j),
    decreases 9 - j,
{
    let tb = b.spec_toggled();
    if j < 9 {
        lemma_toggled_plays_match(b, j + 1);
        assert(tb.play_keeping_turn(j) == b.play_at(j));
        assert(tb.plays_from(j) =~= b.next_states_from(j));
    } else {
        assert(tb.plays_from(j) =~= b.next_states_from(j));
    }
}

impl GameState for Board {
    type Player = Player;

    open spec fn spec_status(self) -> Status<Player> {
        status_of(self.board@)
    }

    open spec fn spec_next_states(self) -> Seq<Board> {
        if wins(self.board@, Player::X) || wins(self.board@, Player::O) {
            Seq::empty()
        } else {
            self.next_states_from(0)
        }
    }

    open spec fn moves_left(self) -> nat {
        free_from(self.board@, 0)
    }

    open spec fn spec_toggled(self) -> Board {
        Board { active_player: self.active_player.other(), board: self.board }
    }

    open spec fn spec_plays(self) -> Seq<Board> {
        self.plays_from(0)
    }

    fn clone_state(&self) -> (r: Board) {
        *self
    }

    fn next_states(&self) -> (r: Vec<Board>) {
        if self.has_line(Player::X) || self.has_line(Player::O) {
            return Vec::new();
        }
        let mut v: Vec<Board> = Vec::new();
        let mut i: usize = 0;
        while i < 9
            invariant
                i <= 9,
                v@ + self.next_states_from(i as int) == self.next_states_from(0),
            decreases 9 - i,
        {
            if matches!(self.board[i], State::Empty) {
                let mut next = *self;
                next.active_player = self.active_player.next();
                next.board[i] = State::from(next.active_player);
                proof {
                    assert(next.board =~= self.play_at(i as int).board);
                    assert(next == self.play_at(i as int));
                    assert(v@ + self.next_states_from(i as int) == (v@.push(next))
                        + self.next_states_from(i as int + 1)) by {
                        assert(v@ + (seq![next] + self.next_states_from(i as int + 1)) =~= (
                        v@.push(next)) + self.next_states_from(i as int + 1));
                    }
                }
                v.push(next);
            }
            i = i + 1;
        }
        proof {
            assert(v@ + self.next_states_from(9) =~= v@);
        }
        v
    }

    fn status(&self) -> (r: Status<Player>) {
        if self.has_line(Player::X) {
            return Status::Winner(Player::X);
        }
        if self.has_line(Player::O) {
            return Status::Winner(Player::O);
        }
        if self.free_fields() == 0 {
            return Status::Draw;
        }
        Status::InProgress
    }

    fn toggle_player(&mut self) {
        self.active_player = self.active_player.next();
        proof {
            assert(*self == old(self).spec_toggled());
        }
    }

    fn next_random_play(&mut self) {
        let free = self.free_fields();
        let target = random_below(free);
        let mut i: usize = 0;
        let mut seen: usize = 0;
        while i < 9
            invariant
                i <= 9,
                *self == *old(self),
                seen + free_from(self.board@, i as int) == free_from(self.board@, 0),
                seen <= target,
                target < free_from(self.board@, 0),
            decreases 9 - i,
        {
            if matches!(self.board[i], State::Empty) {
                if seen == target {
                    proof {
                        lemma_free_from_update(
                            self.board@,
                            i as int,
                            mark_of(self.active_player),
                            0,
                        );
                        lemma_plays_from_contains(*self, 0, i as int);
                    }
                    self.board[i] = State::from(self.active_player);
                    proof {
                        assert(self.board =~= old(self).play_keeping_turn(i as int).board);
                        assert(*self == old(self).play_keeping_turn(i as int));
                    }
                    return ;
                }
                seen = seen + 1;
            }
            i = i + 1;
        }
        proof {
            assert(false);
        }
    }

    proof fn lemma_in_progress_has_moves(self) {
        lemma_next_states_len(self, 0);
    }

    proof fn lemma_finished_has_no_moves(self) {
        lemma_next_states_len(self, 0);
    }

    proof fn lemma_toggled_play_is_continuation(self) {
        lemma_toggled_plays_match(self, 0);
    }
}

/// The finished-game test a driving loop needs: the winning player if there
/// is one, a marker for a draw on a full grid, and nothing while moves
/// remain.
pub fn is_finished(board: &Board) -> (r: Option<Option<Player>>)
    ensures
        r == match board.spec_status() {
            Status::Winner(w) => Some(Some(w)),
            Status::Draw => Some(None::<Player>),
            Status::InProgress => None::<Option<Player>>,
        },
{
    match board.status() {
        Status::Winner(w) => Some(Some(w)),
        Status::Draw => Some(None),
        Status::InProgress => None,
    }
}

/// The cell a two-character move names: a column letter `a` to `c` and a row
/// digit `1` to `3`, for instance `b2`; `None` for anything else.
pub fn parse_move(col: char, row: char) -> (r: Option<usize>)
    ensures
        match r {
            Some(pos) => {
                &&& pos < 9
                &&& col_index(col) >= 0
                &&& row_index(row) >= 0
                &&& pos == col_index(col) + 3 * row_index(row)
            },
            None => col_index(col) < 0 || row_index(row) < 0,
        },
{
    let c: usize = match col {
        'a' => 0,
        'b' => 1,
        'c' => 2,
        _ => {
            return None;
        },
    };
    let r: usize = match row {
        '1' => 0,
        '2' => 1,
        '3' => 2,
        _ => {
            return None;
        },
    };
    Some(c + 3 * r)
}

/// The column a move letter names, or a negative value for any other letter.
pub open spec fn col_index(col: char) -> int {
    if col == 'a' {
        0
    } else if col == 'b' {
        1
    } else if col == 'c' {
        2
    } else {
        -1
    }
}

/// The row a move digit names, or a negative value for any other digit.
pub open spec fn row_index(row: char) -> int {
    if row == '1' {
        0
    } else if row == '2' {
        1
    } else if row == '3' {
        2
    } else {
        -1
    }
}

} // verus!
