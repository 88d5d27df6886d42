//! Ultimate tic-tac-toe: nine small boards arranged as one large board.

use crate::ai::game::Game;
use vstd::laws_eq::obeys_concrete_eq;
use vstd::prelude::*;
use vstd::std_specs::cmp::PartialEqSpecImpl;

verus! {

/// The two players. X moves first.
#[derive(Clone, Copy, Eq, Hash, Debug)]
pub enum Player {
    X,
    O,
}

impl PartialEq for Player {
    fn eq(&self, other: &Player) -> (same: bool) {
        match (*self, *other) {
            (Player::X, Player::X) => true,
            (Player::O, Player::O) => true,
            _ => false,
        }
    }
}

impl PartialEqSpecImpl for Player {
    open spec fn obeys_eq_spec() -> bool {
        true
    }

    open spec fn eq_spec(&self, other: &Player) -> bool {
        *self == *other
    }
}

/// The player who holds all three cells `a`, `b` and `c`, if one does.
pub open spec fn line_owner(a: Option<Player>, b: Option<Player>, c: Option<Player>) -> Option<
    Player,
> {
    if a is Some && a == b && a == c {
        a
    } else {
        None
    }
}

/// The owner of the first complete line of a board of nine cells. The lines are
/// tried in this order: left column, top row, middle column, middle row, right
/// column, bottom row, main diagonal, anti-diagonal.
pub open spec fn winner_of(cells: Seq<Option<Player>>) -> Option<Player> {
    if line_owner(cells[0], cells[3], cells[6]) is Some {
        line_owner(cells[0], cells[3], cells[6])
    } else if line_owner(cells[0], cells[1], cells[2]) is Some {
        line_owner(cells[0], cells[1], cells[2])
    } else if line_owner(cells[1], cells[4], cells[7]) is Some {
        line_owner(cells[1], cells[4], cells[7])
    } else if line_owner(cells[3], cells[4], cells[5]) is Some {
        line_owner(cells[3], cells[4], cells[5])
    } else if line_owner(cells[2], cells[5], cells[8]) is Some {
        line_owner(cells[2], cells[5], cells[8])
    } else if line_owner(cells[6], cells[7], cells[8]) is Some {
        line_owner(cells[6], cells[7], cells[8])
    } else if line_owner(cells[0], cells[4], cells[8]) is Some {
        line_owner(cells[0], cells[4], cells[8])
    } else {
        line_owner(cells[2], cells[4], cells[6])
    }
}

/// Neither column `j` nor row `j` of a board of nine cells is held by one player.
pub open spec fn cross_is_open(cells: Seq<Option<Player>>, j: int) -> bool {
    &&& line_owner(cells[j], cells[j + 3], cells[j + 6]) is None
    &&& line_owner(cells[3 * j], cells[3 * j + 1], cells[3 * j + 2]) is None
}

/// The player who holds all three cells of a line, if one does.
pub fn check_line(a: Option<Player>, b: Option<Player>, c: Option<Player>) -> (owner: Option<
    Player,
>)
    ensures
        owner == line_owner(a, b, c),
{
    match (a, b, c) {
        (Some(a2), Some(b2), Some(c2)) if a2 == b2 && a2 == c2 => a,
        _ => None,
    }
}

/// The winner of a board of nine cells, numbered line by line from the top
/// left: the owner of its first complete line, columns and rows taken in turn
/// from the left and the top, then the two diagonals.
pub fn check_for_winner(board: [Option<Player>; 9]) -> (winner: Option<Player>)
    ensures
        winner == winner_of(board@),
{
    let mut i: usize = 0;
    while i < 3
        invariant
            i <= 3,
            forall|j: int| 0 <= j < i ==> cross_is_open(board@, j),
        decreases 3 - i,
    {
        assert(i > 0 ==> cross_is_open(board@, 0));
        assert(i > 1 ==> cross_is_open(board@, 1));
        if let Some(player) = check_line(board[i], board[i + 3], board[i + 6]) {
            return Some(player);
        } else if let Some(player) = check_line(board[3 * i], board[3 * i + 1], board[3 * i + 2]) {
            return Some(player);
        }
        i += 1;
    }
    assert(cross_is_open(board@, 0) && cross_is_open(board@, 1) && cross_is_open(board@, 2));
    if let Some(player) = check_line(board[0], board[4], board[8]) {
        return Some(player);
    } else if let Some(player) = check_line(board[2], board[4], board[6]) {
        return Some(player);
    }
    None
}

/// How a cell shows in the rendering of a game.
pub open spec fn mark_text(cell: Option<Player>) -> Seq<char> {
    match cell {
        Some(Player::X) => "X "@,
        Some(Player::O) => "O "@,
        None => "  "@,
    }
}

/// The quotient of `c` by three, rounded down.
pub open spec fn third(c: int) -> int {
    c / 3
}

/// The remainder of `c` by three, with the sign of `c`.
pub open spec fn rest_of_three(c: int) -> int {
    if c >= 0 {
        c % 3
    } else {
        -((-c) % 3)
    }
}

/// The move that a click on column `cell_x`, line `cell_y` of the grid of all
/// cells stands for: a small board and a cell in it. An index that comes out
/// below zero counts as zero.
pub open spec fn clicked(cell_x: int, cell_y: int) -> (int, int) {
    let a = third(cell_x) + 3 * third(cell_y);
    let b = rest_of_three(cell_x) + 3 * rest_of_three(cell_y);
    (
        if a < 0 {
            0
        } else {
            a
        },
        if b < 0 {
            0
        } else {
            b
        },
    )
}

/// The player who is not `p`.
pub open spec fn opponent(p: Player) -> Player {
    match p {
        Player::X => Player::O,
        Player::O => Player::X,
    }
}

/// What a game of ultimate tic-tac-toe holds: nine small boards of nine cells,
/// the owner of each small board that has been won, the small board that the
/// next move is confined to (if it is), the player to move, and whether the
/// large board has been won. Once it has, `player` is the winner.
pub struct Position {
    pub board: Seq<Seq<Option<Player>>>,
    pub winners: Seq<Option<Player>>,
    pub restriction: Option<int>,
    pub player: Player,
    pub game_over: bool,
}

impl Position {
    /// The shape of the boards, and the three facts that play maintains: the
    /// next move is never confined to a board that is won, a small board's
    /// owner is the owner of its first complete line, and the game is over
    /// exactly when the small boards' owners form a line on the large board.
    pub open spec fn well_formed(self) -> bool {
        &&& self.board.len() == 9
        &&& self.winners.len() == 9
        &&& forall|a: int| 0 <= a < 9 ==> (#[trigger] self.board[a]).len() == 9
        &&& forall|a: int| 0 <= a < 9 ==> #[trigger] self.winners[a] == winner_of(self.board[a])
        &&& self.restriction matches Some(r) ==> 0 <= r < 9 && self.winners[r] is None
        &&& self.game_over ==> winner_of(self.winners) == Some(self.player)
        &&& !self.game_over ==> winner_of(self.winners) is None
    }

    /// Whether the player to move may mark cell `b` of small board `a`.
    pub open spec fn open_at(self, a: int, b: int) -> bool {
        &&& !self.game_over
        &&& 0 <= a < 9
        &&& 0 <= b < 9
        &&& self.restriction matches Some(r) ==> a == r
        &&& self.winners[a] is None
        &&& self.board[a][b] is None
    }

    /// The position after the player to move has marked cell `b` of small board `a`.
    /// The mark may win the small board. The next move is confined to small board
    /// `b` unless that board is won. If the large board is won the game is over
    /// and the winner stays in `player`; otherwise the turn passes.
    pub open spec fn after(self, a: int, b: int) -> Position {
        let small = self.board[a].update(b, Some(self.player));
        let winners = match winner_of(small) {
            Some(w) => self.winners.update(a, Some(w)),
            None => self.winners,
        };
        Position {
            board: self.board.update(a, small),
            winners,
            restriction: if winners[b] is None {
                Some(b)
            } else {
                None
            },
            player: match winner_of(winners) {
                Some(w) => w,
                None => opponent(self.player),
            },
            game_over: winner_of(winners) is Some,
        }
    }

    /// Whether the `k`-th cell in reading order is open. Reading order goes small
    /// board by small board, and cell by cell within each.
    pub open spec fn open_index(self, k: int) -> bool {
        self.open_at(k / 9, k % 9)
    }

    /// The open cells among the first `k` cells, in reading order.
    pub open spec fn open_cells(self, k: nat) -> Seq<(usize, usize)>
        decreases k,
    {
        if k == 0 {
            Seq::empty()
        } else {
            let rest = self.open_cells((k - 1) as nat);
            if self.open_index(k - 1) {
                rest.push((((k - 1) / 9) as usize, ((k - 1) % 9) as usize))
            } else {
                rest
            }
        }
    }

    /// The number of empty cells among the first `k` cells in reading order.
    pub open spec fn empty_cells(self, k: nat) -> nat
        decreases k,
    {
        if k == 0 {
            0
        } else if self.board[(k - 1) / 9][(k - 1) % 9] is None {
            self.empty_cells((k - 1) as nat) + 1
        } else {
            self.empty_cells((k - 1) as nat)
        }
    }

    /// Line `x` of the rendering, up to and without its cell `upto`: a blank,
    /// then the cells, each as its mark and a blank, with a bar before the
    /// fourth and the seventh. Cell `y` of line `x` shows cell `y / 3 + 3 * (x / 3)`
    /// of small board `y % 3 + 3 * (x % 3)`.
    pub open spec fn line_text(self, x: int, upto: int) -> Seq<char>
        decreases upto,
    {
        if upto <= 0 {
            " "@
        } else {
            let y = upto - 1;
            self.line_text(x, y) + (if y % 3 == 0 && y != 0 {
                "| "@
            } else {
                Seq::empty()
            }) + mark_text(self.board[y % 3 + 3 * (x % 3)][y / 3 + 3 * (x / 3)])
        }
    }

    /// The first `upto` lines of the rendering, each closed by a line feed, with
    /// a rule before the fourth and the seventh.
    pub open spec fn text(self, upto: int) -> Seq<char>
        decreases upto,
    {
        if upto <= 0 {
            Seq::empty()
        } else {
            let x = upto - 1;
            self.text(x) + (if x % 3 == 0 && x != 0 {
                "-------+-------+-------\n"@
            } else {
                Seq::empty()
            }) + self.line_text(x, 9) + "\n"@
        }
    }

    /// No cell from the `lo`-th to the `hi`-th is open, so the open cells among
    /// the first `hi` are those among the first `lo`.
    pub proof fn lemma_closed_run(self, lo: nat, hi: nat)
        requires
            lo <= hi,
            forall|k: int| lo <= k < hi ==> !self.open_index(k),
        ensures
            self.open_cells(hi) == self.open_cells(lo),
        decreases hi,
    {
        if lo < hi {
            self.lemma_closed_run(lo, (hi - 1) as nat);
            assert(!self.open_index(hi - 1));
        }
    }

    /// What `open_cells` holds: open cells only, in strictly rising reading
    /// order, and every open cell among the first `k`.
    pub proof fn lemma_open_cells(self, k: nat)
        ensures
            forall|i: int|
                0 <= i < self.open_cells(k).len() ==> {
                    let m = #[trigger] self.open_cells(k)[i];
                    self.open_at(m.0 as int, m.1 as int) && 9 * m.0 + m.1 < k
                },
            forall|i: int, j: int|
                0 <= i < j < self.open_cells(k).len() ==> {
                    let m = #[trigger] self.open_cells(k)[i];
                    let n = #[trigger] self.open_cells(k)[j];
                    9 * m.0 + m.1 < 9 * n.0 + n.1
                },
            forall|a: usize, b: usize|
                self.open_at(a as int, b as int) && 9 * a + b < k ==> self.open_cells(k).contains(
                    (a, b),
                ),
        decreases k,
    {
        if k > 0 {
            let rest = self.open_cells((k - 1) as nat);
            self.lemma_open_cells((k - 1) as nat);
            let a = (k - 1) / 9;
            let b = (k - 1) % 9;
            let all = self.open_cells(k);
            if self.open_at(a, b) {
                assert(all == rest.push((a as usize, b as usize)));
                assert forall|x: usize, y: usize|
                    self.open_at(x as int, y as int) && 9 * x + y < k implies all.contains(
                    (x, y),
                ) by {
                    if 9 * x + y < k - 1 {
                        assert(rest.contains((x, y)));
                        let i = choose|i: int| 0 <= i < rest.len() && rest[i] == (x, y);
                        assert(all[i] == (x, y));
                    } else {
                        assert(x == a && y == b);
                        assert(all[rest.len() as int] == (x, y));
                    }
                }
            } else {
                assert forall|x: usize, y: usize|
                    self.open_at(x as int, y as int) && 9 * x + y < k implies all.contains(
                    (x, y),
                ) by {
                    if 9 * x + y == k - 1 {
                        assert(x == a && y == b);
                    }
                    assert(rest.contains((x, y)));
                }
            }
        }
    }

    /// Marking an open cell leaves one empty cell fewer.
    pub proof fn lemma_after_fills_a_cell(self, a: int, b: int, k: nat)
        requires
            self.well_formed(),
            self.open_at(a, b),
            k <= 81,
        ensures
            k <= 9 * a + b ==> self.after(a, b).empty_cells(k) == self.empty_cells(k),
            k > 9 * a + b ==> self.after(a, b).empty_cells(k) + 1 == self.empty_cells(k),
        decreases k,
    {
        if k > 0 {
            self.lemma_after_fills_a_cell(a, b, (k - 1) as nat);
            let x = (k - 1) / 9;
            let y = (k - 1) % 9;
            if x == a {
                assert(self.after(a, b).board[x] == self.board[a].update(b, Some(self.player)));
            } else {
                assert(self.after(a, b).board[x] == self.board[x]);
            }
        }
    }

    /// Play maintains well-formedness.
    pub proof fn lemma_after_well_formed(self, a: int, b: int)
        requires
            self.well_formed(),
            self.open_at(a, b),
        ensures
            self.after(a, b).well_formed(),
    {
        let next = self.after(a, b);
        assert forall|x: int| 0 <= x < 9 implies (#[trigger] next.board[x]).len() == 9
            && next.winners[x] == winner_of(next.board[x]) by {
            if x != a {
                assert(next.board[x] == self.board[x]);
                assert(next.winners[x] == self.winners[x]);
            }
        }
    }
}

#[derive(Debug)]
pub struct TicTacToe {
    board: [[Option<Player>; 9]; 9],
    winners: [Option<Player>; 9],
    move_restriction: Option<usize>,
    player: Player,
    game_over: bool,
}

impl View for TicTacToe {
    type V = Position;

    closed spec fn view(&self) -> Position {
        Position {
            board: Seq::new(9, |a: int| self.board@[a]@),
            winners: self.winners@,
            restriction: match self.move_restriction {
                Some(r) => Some(r as int),
                None => None,
            },
            player: self.player,
            game_over: self.game_over,
        }
    }
}

impl Clone for TicTacToe {
    fn clone(&self) -> (copy: Self)
        ensures
            copy == *self,
    {
        proof {
            use_type_invariant(self);
        }
        TicTacToe {
            board: self.board,
            winners: self.winners,
            move_restriction: self.move_restriction,
            player: self.player,
            game_over: self.game_over,
        }
    }
}

impl TicTacToe {
    #[verifier::type_invariant]
    closed spec fn inv(self) -> bool {
        self@.well_formed()
    }

    /// An empty board, with X to move anywhere.
    pub fn new() -> (game: TicTacToe)
        ensures
            game@.well_formed(),
            !game@.game_over,
            game@.player == Player::X,
            game@.restriction is None,
            forall|a: int| 0 <= a < 9 ==> #[trigger] game@.winners[a] is None,
            forall|a: int, b: int| 0 <= a < 9 && 0 <= b < 9 ==> (#[trigger] game@.board[a][b]) is None,
    {
        let game = TicTacToe {
            board: [[None;9];9],
            winners: [None;9],
            move_restriction: None,
            player: Player::X,
            game_over: false,
        };
        game
    }

    /// The mark in cell `b` of small board `a`; nothing off the board.
    pub fn cell(&self, a: usize, b: usize) -> (mark: Option<Player>)
        ensures
            mark == if a < 9 && b < 9 {
                self@.board[a as int][b as int]
            } else {
                None
            },
    {
        if a < 9 && b < 9 {
            self.board[a][b]
        } else {
            None
        }
    }

    /// The owner of small board `a`, once it is won; nothing off the board.
    pub fn board_winner(&self, a: usize) -> (owner: Option<Player>)
        ensures
            owner == if a < 9 {
                self@.winners[a as int]
            } else {
                None
            },
    {
        if a < 9 {
            self.winners[a]
        } else {
            None
        }
    }

    /// The small board that the next move is confined to, if it is.
    pub fn restriction(&self) -> (board: Option<usize>)
        ensures
            match board {
                Some(r) => self@.restriction == Some(r as int) && r < 9,
                None => self@.restriction is None,
            },
    {
        proof {
            use_type_invariant(self);
        }
        self.move_restriction
    }

    /// Whether the large board has been won.
    pub fn is_over(&self) -> (over: bool)
        ensures
            over == self@.game_over,
    {
        self.game_over
    }

    /// Plays the move that a click on column `cell_x`, line `cell_y` of the grid
    /// of all cells stands for, and returns the move if it was allowed. A click
    /// that stands for no allowed move leaves the game as it was.
    pub fn click_cell(&mut self, cell_x: i64, cell_y: i64) -> (played: Option<(usize, usize)>)
        ensures
            ({
                let at = clicked(cell_x as int, cell_y as int);
                if old(self)@.open_at(at.0, at.1) {
                    played == Some((at.0 as usize, at.1 as usize)) && final(self)@ == old(self)@.after(
                        at.0,
                        at.1,
                    )
                } else {
                    played is None && *final(self) == *old(self)
                }
            }),
    {
        let (third_x, rest_x) = split_by_three(cell_x);
        let (third_y, rest_y) = split_by_three(cell_y);
        let a: i128 = third_x as i128 + 3 * (third_y as i128);
        let b: i128 = rest_x as i128 + 3 * (rest_y as i128);
        if a >= 9 || b >= 9 {
            proof {
                use_type_invariant(&*self);
            }
            return None;
        }
        let index_a: usize = if a < 0 {
            0
        } else {
            a as usize
        };
        let index_b: usize = if b < 0 {
            0
        } else {
            b as usize
        };
        let mv = (index_a, index_b);
        if self.make_move_mut(&mv) {
            Some(mv)
        } else {
            None
        }
    }
}

/// The quotient of `c` by three, rounded down, and the remainder with the sign
/// of `c`.
fn split_by_three(c: i64) -> (parts: (i64, i64))
    ensures
        parts.0 == third(c as int),
        parts.1 == rest_of_three(c as int),
{
    if c >= 0 {
        (c / 3, c % 3)
    } else {
        let n: i64 = -(c + 1);
        (-(n / 3) - 1, if c == i64::MIN {
            -2
        } else {
            -((-c) % 3)
        })
    }
}

impl Game for TicTacToe {
    type Move = (usize, usize);

    type Player = Player;

    open spec fn moves(&self) -> Seq<(usize, usize)> {
        self@.open_cells(81)
    }

    open spec fn allows(&self, m: (usize, usize)) -> bool {
        self@.open_at(m.0 as int, m.1 as int)
    }

    open spec fn leads_to(&self, m: (usize, usize), next: &Self) -> bool {
        next@ == self@.after(m.0 as int, m.1 as int)
    }

    open spec fn to_move(&self) -> Player {
        self@.player
    }

    open spec fn winner(&self) -> Option<Player> {
        if self@.game_over {
            Some(self@.player)
        } else {
            None
        }
    }

    open spec fn horizon(&self) -> nat {
        self@.empty_cells(81)
    }

    proof fn equality_laws() {
        reveal(obeys_concrete_eq);
    }

    fn available_moves(&self) -> (moves: Vec<(usize, usize)>) {
        proof {
            use_type_invariant(self);
            self@.lemma_open_cells(81);
        }
        let mut moves: Vec<(usize, usize)> = Vec::new();
        if self.game_over {
            proof {
                self@.lemma_closed_run(0, 81);
            }
            return moves;
        }
        if let Some(index_a) = self.move_restriction {
            proof {
                self@.lemma_closed_run(0, (9 * index_a) as nat);
            }
            let mut index_b: usize = 0;
            while index_b < 9
                invariant
                    index_a < 9,
                    index_b <= 9,
                    moves@ == self@.open_cells((9 * index_a + index_b) as nat),
                    self@.well_formed(),
                    !self@.game_over,
                    self@.restriction == Some(index_a as int),
                    self.move_restriction == Some(index_a),
                decreases 9 - index_b,
            {
                if self.board[index_a][index_b].is_none() {
                    moves.push((index_a, index_b));
                }
                assert(self@.open_index(9 * index_a + index_b) <==> self@.board[index_a as int][index_b as int] is None);
                index_b += 1;
            }
            proof {
                self@.lemma_closed_run((9 * index_a + 9) as nat, 81);
            }
        } else {
            let mut index_a: usize = 0;
            while index_a < 9
                invariant
                    index_a <= 9,
                    moves@ == self@.open_cells((9 * index_a) as nat),
                    self@.well_formed(),
                    !self@.game_over,
                    self@.restriction is None,
                decreases 9 - index_a,
            {
                if self.winners[index_a].is_none() {
                    let mut index_b: usize = 0;
                    while index_b < 9
                        invariant
                            index_a < 9,
                            index_b <= 9,
                            moves@ == self@.open_cells((9 * index_a + index_b) as nat),
                            self@.well_formed(),
                            !self@.game_over,
                            self@.restriction is None,
                            self@.winners[index_a as int] is None,
                        decreases 9 - index_b,
                    {
                        if self.board[index_a][index_b].is_none() {
                            moves.push((index_a, index_b));
                        }
                        assert(self@.open_index(9 * index_a + index_b) <==> self@.board[index_a as int][index_b as int] is None);
                        index_b += 1;
                    }
                } else {
                    proof {
                        self@.lemma_closed_run((9 * index_a) as nat, (9 * index_a + 9) as nat);
                    }
                }
                index_a += 1;
            }
        }
        assert forall|m: (usize, usize)| moves@.contains(m) <==> self.allows(m) by {
            if moves@.contains(m) {
                let i = choose|i: int| 0 <= i < moves@.len() && moves@[i] == m;
                assert(self@.open_cells(81)[i] == m);
            }
        }
        moves
    }

    fn make_move_mut(&mut self, m: &(usize, usize)) -> (ok: bool) {
        proof {
            use_type_invariant(&*self);
        }
        let (index_a, index_b) = *m;
        if index_a >= 9 || index_b >= 9 {
            return false;
        }
        // can't move if someone has already won
        if self.game_over {
            return false;
        }
        // make sure the move conforms to the move restrictions
        if let Some(r) = self.move_restriction {
            if index_a != r {
                return false;
            }
        }
        // make sure that there isn't already a winner for that board
        if self.winners[index_a].is_some() {
            return false;
        }
        // make sure the cell is empty
        if self.board[index_a][index_b].is_none() {
            let ghost before = self@;
            let mut board = self.board;
            let mut small = board[index_a];
            small[index_b] = Some(self.player);
            board[index_a] = small;
            let mut winners = self.winners;
            if let Some(winner) = check_for_winner(small) {
                winners[index_a] = Some(winner);
            }
            // the next move is confined to the small board that matches the cell,
            // unless that board has been won
            let move_restriction = if winners[index_b].is_none() {
                Some(index_b)
            } else {
                None
            };
            let (player, game_over) = match check_for_winner(winners) {
                Some(winner) => (winner, true),
                None => (
                    match self.player {
                        Player::X => Player::O,
                        Player::O => Player::X,
                    },
                    false,
                ),
            };
            let next = TicTacToe { board, winners, move_restriction, player, game_over };
            proof {
                let after = before.after(index_a as int, index_b as int);
                before.lemma_after_well_formed(index_a as int, index_b as int);
                before.lemma_after_fills_a_cell(index_a as int, index_b as int, 81);
                assert(next@.board =~~= after.board);
                assert(next@.winners =~= after.winners);
                assert(next@ == after);
            }
            *self = next;
            true
        } else {
            false
        }
    }

    fn make_move(&self, m: &(usize, usize)) -> (next: Option<Box<Self>>) {
        let mut c = self.clone();
        if c.make_move_mut(m) {
            Some(Box::new(c))
        } else {
            None
        }
    }

    fn get_cur_player(&self) -> (p: Player) {
        self.player
    }

    fn get_winner(&self) -> (w: Option<Player>) {
        if self.game_over {
            Some(self.player)
        } else {
            None
        }
    }

    /// Nine lines of nine cells, with bars and rules between the blocks of three.
    fn to_str(&self) -> (s: String)
        ensures
            s@ == self@.text(9),
    {
        let mut st = String::new();
        let mut x: usize = 0;
        while x < 9
            invariant
                x <= 9,
                st@ == self@.text(x as int),
            decreases 9 - x,
        {
            if x % 3 == 0 && x != 0 {
                st.append("-------+-------+-------\n");
            }
            let ghost head = st@;
            st.append(" ");
            let mut y: usize = 0;
            while y < 9
                invariant
                    x < 9,
                    y <= 9,
                    st@ == head + self@.line_text(x as int, y as int),
                decreases 9 - y,
            {
                if y % 3 == 0 && y != 0 {
                    st.append("| ");
                }
                let index_a = (y % 3) + 3 * (x % 3);
                let index_b = (y / 3) + 3 * (x / 3);
                st.append(
                    match self.board[index_a][index_b] {
                        Some(Player::X) => "X ",
                        Some(Player::O) => "O ",
                        None => "  ",
                    },
                );
                assert(st@ =~= head + self@.line_text(x as int, y + 1)) by {
                    assert(self@.board[index_a as int][index_b as int] == self.board[index_a as int][index_b as int]);
                }
                y += 1;
            }
            st.append("\n");
            assert(st@ =~= self@.text(x + 1));
            x += 1;
        }
        st
    }
}

} // verus!
