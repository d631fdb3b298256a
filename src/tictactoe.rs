use vstd::prelude::*;

use crate::game::{Game, IllegalMove, Player};

verus! {

/// A tic-tac-toe board: three rows of three cells, each empty or held by a player.
pub type TicTacToeBoard = Vec<Vec<Option<Player>>>;

/// The cell in row `x`, column `y`.
pub open spec fn cell(b: TicTacToeBoard, x: int, y: int) -> Option<Player> {
    b@[x]@[y]
}

/// The board has three rows of three cells.
pub open spec fn square(b: TicTacToeBoard) -> bool {
    &&& b@.len() == 3
    &&& forall|i: int| 0 <= i < 3 ==> (#[trigger] b@[i])@.len() == 3
}

/// Cell `k` in row-major order.
pub open spec fn flat(b: TicTacToeBoard, k: int) -> Option<Player> {
    cell(b, k / 3, k % 3)
}

/// How many of the first `n` cells (row-major) `p` holds.
pub open spec fn count(b: TicTacToeBoard, p: Player, n: nat) -> nat
    decreases n,
{
    if n == 0 {
        0
    } else {
        count(b, p, (n - 1) as nat) + if flat(b, n - 1) == Some(p) {
            1nat
        } else {
            0nat
        }
    }
}

/// Marks of the first player minus marks of the second.
pub open spec fn parity(b: TicTacToeBoard) -> int {
    count(b, Player::One, 9) - count(b, Player::Two, 9)
}

/// The three cells (row-major) of winning line `k`, for `k` in `0..8`.
pub open spec fn combo(k: int) -> (int, int, int) {
    if k == 0 {
        (0, 1, 2)
    } else if k == 1 {
        (3, 4, 5)
    } else if k == 2 {
        (6, 7, 8)
    } else if k == 3 {
        (0, 3, 6)
    } else if k == 4 {
        (1, 4, 7)
    } else if k == 5 {
        (2, 5, 8)
    } else if k == 6 {
        (0, 4, 8)
    } else {
        (2, 4, 6)
    }
}

/// `p` holds all three cells of line `k`.
pub open spec fn line_held(b: TicTacToeBoard, p: Player, k: int) -> bool {
    &&& flat(b, combo(k).0) == Some(p)
    &&& flat(b, combo(k).1) == Some(p)
    &&& flat(b, combo(k).2) == Some(p)
}

/// `p` holds some complete line.
pub open spec fn has_line(b: TicTacToeBoard, p: Player) -> bool {
    exists|k: int| 0 <= k < 8 && #[trigger] line_held(b, p, k)
}

/// The cell `m` exists on the board and is empty.
pub open spec fn open_cell(b: TicTacToeBoard, m: (usize, usize)) -> bool {
    m.0 < 3 && m.1 < 3 && cell(b, m.0 as int, m.1 as int) is None
}

/// `n` is `b` with `p` placed on cell `m`.
pub open spec fn placed(b: TicTacToeBoard, p: Player, m: (usize, usize), n: TicTacToeBoard) -> bool {
    &&& square(n)
    &&& forall|i: int, j: int|
        0 <= i < 3 && 0 <= j < 3 ==> #[trigger] cell(n, i, j) == if i == m.0 && j == m.1 {
            Some(p)
        } else {
            cell(b, i, j)
        }
}

/// The empty cells among the first `n` cells of row `x`, left to right.
pub open spec fn row_open(b: TicTacToeBoard, x: int, n: int) -> Seq<(usize, usize)>
    decreases n,
{
    if n <= 0 {
        seq![]
    } else {
        row_open(b, x, n - 1) + if cell(b, x, n - 1) is None {
            seq![(x as usize, (n - 1) as usize)]
        } else {
            seq![]
        }
    }
}

/// The empty cells of the first `n` rows, in row-major order.
pub open spec fn open_cells(b: TicTacToeBoard, n: int) -> Seq<(usize, usize)>
    decreases n,
{
    if n <= 0 {
        seq![]
    } else {
        open_cells(b, n - 1) + row_open(b, n - 1, 3)
    }
}

/// Row-major position of a cell.
pub open spec fn key(m: (usize, usize)) -> int {
    3 * m.0 + m.1
}

/// Placing is a function of its inputs: two results of placing `p` on `m` in
/// `b` agree on every cell, so evaluating the same move twice gives the
/// same board.
pub proof fn lemma_placement_unique(
    b: TicTacToeBoard,
    p: Player,
    m: (usize, usize),
    n1: TicTacToeBoard,
    n2: TicTacToeBoard,
)
    requires
        placed(b, p, m, n1),
        placed(b, p, m, n2),
    ensures
        n1@.len() == n2@.len(),
        forall|i: int, j: int| 0 <= i < 3 && 0 <= j < 3 ==> #[trigger] cell(n1, i, j) == cell(n2, i, j),
{
}

/// A full board is terminal: it has no legal move, whoever is to play.
pub proof fn lemma_full_board_no_moves(b: TicTacToeBoard, p: Player)
    requires
        square(b),
        forall|i: int, j: int| 0 <= i < 3 && 0 <= j < 3 ==> #[trigger] cell(b, i, j) is Some,
    ensures
        forall|m: (usize, usize)| !TicTacToe::legal(b, p, m),
{
    assert forall|m: (usize, usize)| !TicTacToe::legal(b, p, m) by {
        if m.0 < 3 && m.1 < 3 {
            assert(cell(b, m.0 as int, m.1 as int) is Some);
        }
    }
}

/// Tic-tac-toe: the board of the game in play.
pub struct TicTacToe {
    pub board: TicTacToeBoard,
}

fn line(k: usize) -> (r: (usize, usize, usize))
    requires
        k < 8,
    ensures
        r.0 as int == combo(k as int).0,
        r.1 as int == combo(k as int).1,
        r.2 as int == combo(k as int).2,
{
    if k == 0 {
        (0, 1, 2)
    } else if k == 1 {
        (3, 4, 5)
    } else if k == 2 {
        (6, 7, 8)
    } else if k == 3 {
        (0, 3, 6)
    } else if k == 4 {
        (1, 4, 7)
    } else if k == 5 {
        (2, 5, 8)
    } else if k == 6 {
        (0, 4, 8)
    } else {
        (2, 4, 6)
    }
}

/// Cell `k` of the board, row-major.
fn at(b: &TicTacToeBoard, k: usize) -> (r: Option<Player>)
    requires
        square(*b),
        k < 9,
    ensures
        r == flat(*b, k as int),
{
    let x: usize = k / 3;
    let y: usize = k % 3;
    b[x][y]
}

fn holds(c: Option<Player>, p: Player) -> (r: bool)
    ensures
        r == (c == Some(p)),
{
    match c {
        Some(q) => q == p,
        None => false,
    }
}

proof fn lemma_count_bound(b: TicTacToeBoard, p: Player, n: nat)
    ensures
        count(b, p, n) <= n,
    decreases n,
{
    if n > 0 {
        lemma_count_bound(b, p, (n - 1) as nat);
    }
}

proof fn lemma_count_empty(b: TicTacToeBoard, p: Player, n: nat)
    requires
        n <= 9,
        forall|k: int| 0 <= k < 9 ==> #[trigger] flat(b, k) is None,
    ensures
        count(b, p, n) == 0,
    decreases n,
{
    if n > 0 {
        lemma_count_empty(b, p, (n - 1) as nat);
        assert(flat(b, n - 1) is None);
    }
}

impl TicTacToe {
    /// An empty board, the first player to move.
    pub fn new() -> (g: TicTacToe)
        ensures
            g.inv(),
            forall|i: int, j: int| 0 <= i < 3 && 0 <= j < 3 ==> #[trigger] cell(g.state_spec(), i, j) is None,
            g.player_spec() == Player::One,
    {
        let mut board: TicTacToeBoard = Vec::new();
        let mut x: usize = 0;
        while x < 3
            invariant
                x <= 3,
                board@.len() == x,
                forall|i: int| 0 <= i < x ==> (#[trigger] board@[i])@.len() == 3,
                forall|i: int, j: int| 0 <= i < x && 0 <= j < 3 ==> #[trigger] cell(board, i, j) is None,
            decreases 3 - x,
        {
            let mut row: Vec<Option<Player>> = Vec::new();
            let mut y: usize = 0;
            while y < 3
                invariant
                    x < 3,
                    y <= 3,
                    board@.len() == x,
                    forall|i: int| 0 <= i < x ==> (#[trigger] board@[i])@.len() == 3,
                    forall|i: int, j: int| 0 <= i < x && 0 <= j < 3 ==> #[trigger] cell(board, i, j) is None,
                    row@.len() == y,
                    forall|j: int| 0 <= j < y ==> #[trigger] row@[j] is None,
                decreases 3 - y,
            {
                row.push(None);
                y = y + 1;
            }
            let ghost before = board;
            board.push(row);
            proof {
                assert forall|i: int, j: int| 0 <= i < x + 1 && 0 <= j < 3 implies #[trigger] cell(
                    board,
                    i,
                    j,
                ) is None by {
                    if i < x {
                        assert(board@[i] == before@[i]);
                        assert(cell(before, i, j) is None);
                    } else {
                        assert(board@[i] == row);
                        assert(row@[j] is None);
                    }
                }
            }
            x = x + 1;
        }
        let g = TicTacToe { board };
        proof {
            assert forall|k: int| 0 <= k < 9 implies #[trigger] flat(g.board, k) is None by {
                assert(0 <= k / 3 < 3 && 0 <= k % 3 < 3);
            }
            lemma_count_empty(g.board, Player::One, 9);
            lemma_count_empty(g.board, Player::Two, 9);
        }
        g
    }
}

proof fn lemma_count_after_place(
    b: TicTacToeBoard,
    p: Player,
    m: (usize, usize),
    n: TicTacToeBoard,
    q: Player,
    k: nat,
)
    requires
        square(b),
        open_cell(b, m),
        placed(b, p, m, n),
        k <= 9,
    ensures
        count(n, q, k) == count(b, q, k) + if q == p && key(m) < k {
            1int
        } else {
            0int
        },
    decreases k,
{
    if k > 0 {
        lemma_count_after_place(b, p, m, n, q, (k - 1) as nat);
        let t = k - 1;
        let i = t / 3;
        let j = t % 3;
        assert(0 <= i < 3 && 0 <= j < 3 && t == 3 * i + j);
        assert(cell(n, i, j) == if i == m.0 && j == m.1 {
            Some(p)
        } else {
            cell(b, i, j)
        });
        assert((i == m.0 && j == m.1) <==> t == key(m));
    }
}

/// Turns alternate: the player to move placing a mark on an empty cell
/// leaves a board in play with the other player to move.
pub proof fn lemma_turns_alternate(g: TicTacToe, m: (usize, usize), n: TicTacToeBoard)
    requires
        g.inv(),
        open_cell(g.board, m),
        placed(g.board, g.player_spec(), m, n),
    ensures
        (TicTacToe { board: n }).inv(),
        (TicTacToe { board: n }).player_spec() == g.player_spec().opponent_spec(),
{
    let p = g.player_spec();
    lemma_count_after_place(g.board, p, m, n, Player::One, 9);
    lemma_count_after_place(g.board, p, m, n, Player::Two, 9);
}

impl Game<TicTacToeBoard, (usize, usize)> for TicTacToe {
    open spec fn inv(&self) -> bool {
        square(self.board) && (parity(self.board) == 0 || parity(self.board) == 1)
    }

    open spec fn state_spec(&self) -> TicTacToeBoard {
        self.board
    }

    open spec fn player_spec(&self) -> Player {
        if parity(self.board) == 0 {
            Player::One
        } else {
            Player::Two
        }
    }

    open spec fn valid_state(state: TicTacToeBoard) -> bool {
        square(state)
    }

    open spec fn legal(state: TicTacToeBoard, player: Player, action: (usize, usize)) -> bool {
        open_cell(state, action)
    }

    open spec fn transition(
        state: TicTacToeBoard,
        player: Player,
        action: (usize, usize),
        next: TicTacToeBoard,
    ) -> bool {
        placed(state, player, action, next)
    }

    open spec fn wins(state: TicTacToeBoard, player: Player) -> bool {
        has_line(state, player)
    }

    open spec fn moves_spec(state: TicTacToeBoard, player: Player) -> Seq<(usize, usize)> {
        open_cells(state, 3)
    }

    fn new() -> (g: Self) {
        TicTacToe::new()
    }

    /// The player to move, from how many marks each side has placed.
    fn get_player(&self) -> (p: Player) {
        let mut ct: i64 = 0;
        let mut k: usize = 0;
        while k < 9
            invariant
                k <= 9,
                square(self.board),
                ct == count(self.board, Player::One, k as nat) - count(self.board, Player::Two, k as nat),
                -(k as int) <= ct <= k,
            decreases 9 - k,
        {
            proof {
                lemma_count_bound(self.board, Player::One, k as nat);
                lemma_count_bound(self.board, Player::Two, k as nat);
            }
            match at(&self.board, k) {
                None => {},
                Some(Player::One) => {
                    ct = ct + 1;
                },
                Some(Player::Two) => {
                    ct = ct - 1;
                },
            }
            k = k + 1;
        }
        if ct == 0 {
            Player::One
        } else {
            Player::Two
        }
    }

    fn get_state(&self) -> (s: &TicTacToeBoard) {
        &self.board
    }

    fn set_state(&mut self, state: TicTacToeBoard) {
        self.board = state;
    }

    fn moves(state: &TicTacToeBoard, _player: Player) -> (r: Vec<(usize, usize)>) {
        let mut moves: Vec<(usize, usize)> = Vec::new();
        let mut x: usize = 0;
        while x < 3
            invariant
                x <= 3,
                square(*state),
                moves@ == open_cells(*state, x as int),
                forall|m: (usize, usize)|
                    moves@.contains(m) <==> (open_cell(*state, m) && m.0 < x),
                forall|i: int| 0 <= i < moves@.len() ==> key(#[trigger] moves@[i]) < 3 * x,
                forall|i: int, j: int|
                    0 <= i < j < moves@.len() ==> key(#[trigger] moves@[i]) < key(#[trigger] moves@[j]),
            decreases 3 - x,
        {
            let mut y: usize = 0;
            while y < 3
                invariant
                    x < 3,
                    y <= 3,
                    square(*state),
                    moves@ == open_cells(*state, x as int) + row_open(*state, x as int, y as int),
                    forall|m: (usize, usize)|
                        moves@.contains(m) <==> (open_cell(*state, m) && (m.0 < x || (m.0 == x
                            && m.1 < y))),
                    forall|i: int| 0 <= i < moves@.len() ==> key(#[trigger] moves@[i]) < 3 * x + y,
                    forall|i: int, j: int|
                        0 <= i < j < moves@.len() ==> key(#[trigger] moves@[i]) < key(
                            #[trigger] moves@[j],
                        ),
                decreases 3 - y,
            {
                if state[x][y].is_none() {
                    let ghost before = moves@;
                    moves.push((x, y));
                    proof {
                        assert(moves@ =~= open_cells(*state, x as int) + row_open(
                            *state,
                            x as int,
                            y + 1,
                        ));
                        assert forall|m: (usize, usize)|
                            moves@.contains(m) <==> (open_cell(*state, m) && (m.0 < x || (m.0
                                == x && m.1 < y + 1))) by {
                            if m == (x, y) {
                                assert(moves@[before.len() as int] == m);
                            } else if before.contains(m) {
                                let i = choose|i: int| 0 <= i < before.len() && before[i] == m;
                                assert(moves@[i] == m);
                            } else if moves@.contains(m) {
                                let i = choose|i: int| 0 <= i < moves@.len() && moves@[i] == m;
                                if i < before.len() {
                                    assert(before[i] == m);
                                }
                            }
                        }
                    }
                } else {
                    proof {
                        assert(moves@ =~= open_cells(*state, x as int) + row_open(
                            *state,
                            x as int,
                            y + 1,
                        ));
                        assert forall|m: (usize, usize)|
                            moves@.contains(m) <==> (open_cell(*state, m) && (m.0 < x || (m.0
                                == x && m.1 < y + 1))) by {
                            if m == (x, y) {
                                assert(!open_cell(*state, m));
                            }
                        }
                    }
                }
                y = y + 1;
            }
            assert(moves@ =~= open_cells(*state, x + 1));
            x = x + 1;
        }
        proof {
            assert forall|i: int, j: int|
                0 <= i < moves@.len() && 0 <= j < moves@.len() && i != j implies moves@[i]
                != moves@[j] by {
                if i < j {
                    assert(key(moves@[i]) < key(moves@[j]));
                } else {
                    assert(key(moves@[j]) < key(moves@[i]));
                }
            }
        }
        moves
    }

    fn evaluate(state: &TicTacToeBoard, player: Player, action: (usize, usize)) -> (r: Result<
        TicTacToeBoard,
        IllegalMove,
    >) {
        if action.0 >= 3 || action.1 >= 3 {
            return Err(IllegalMove);
        }
        if state[action.0][action.1].is_some() {
            return Err(IllegalMove);
        }
        let mut next: TicTacToeBoard = Vec::new();
        let mut x: usize = 0;
        while x < 3
            invariant
                x <= 3,
                square(*state),
                next@.len() == x,
                forall|i: int| 0 <= i < x ==> (#[trigger] next@[i])@.len() == 3,
                forall|i: int, j: int|
                    0 <= i < x && 0 <= j < 3 ==> #[trigger] cell(next, i, j) == if i == action.0 && j
                        == action.1 {
                        Some(player)
                    } else {
                        cell(*state, i, j)
                    },
            decreases 3 - x,
        {
            let mut row: Vec<Option<Player>> = Vec::new();
            let mut y: usize = 0;
            while y < 3
                invariant
                    x < 3,
                    y <= 3,
                    square(*state),
                    row@.len() == y,
                    forall|j: int|
                        0 <= j < y ==> #[trigger] row@[j] == if x == action.0 && j == action.1 {
                            Some(player)
                        } else {
                            cell(*state, x as int, j)
                        },
                decreases 3 - y,
            {
                if x == action.0 && y == action.1 {
                    row.push(Some(player));
                } else {
                    row.push(state[x][y]);
                }
                y = y + 1;
            }
            let ghost before = next;
            next.push(row);
            proof {
                assert forall|i: int, j: int| 0 <= i < x + 1 && 0 <= j < 3 implies #[trigger] cell(
                    next,
                    i,
                    j,
                ) == if i == action.0 && j == action.1 {
                    Some(player)
                } else {
                    cell(*state, i, j)
                } by {
                    if i < x {
                        assert(next@[i] == before@[i]);
                        assert(cell(before, i, j) == cell(next, i, j));
                    } else {
                        assert(next@[i] == row);
                        assert(row@[j] == cell(next, i, j));
                    }
                }
            }
            x = x + 1;
        }
        Ok(next)
    }

    fn won(state: &TicTacToeBoard, player: Player) -> (r: bool) {
        let mut k: usize = 0;
        while k < 8
            invariant
                k <= 8,
                square(*state),
                forall|kk: int| 0 <= kk < k ==> !#[trigger] line_held(*state, player, kk),
            decreases 8 - k,
        {
            let c = line(k);
            if holds(at(state, c.0), player) && holds(at(state, c.1), player) && holds(
                at(state, c.2),
                player,
            ) {
                assert(line_held(*state, player, k as int));
                return true;
            }
            k = k + 1;
        }
        false
    }
}

} // verus!
