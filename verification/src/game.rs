//! The game engine: line scanning, win detection, configuration checks and
//! the turn machinery.
//!
//! A *line* is any row, column or diagonal of the board, as a sequence of
//! cells. Win detection scans every line with a run-length counter that
//! resets on an empty cell or a change of player, and reports the first line
//! (rows first, then columns, then the diagonals of each direction) on which
//! some player owns `tokens_to_win` consecutive cells.

use vstd::prelude::*;

use crate::board::{
    cell_view, clone_cell, column_has_empty, column_of, diag_count, diag_tlbr, diag_trbl,
    grid_cols, grid_columns, grid_diags_tlbr, grid_diags_trbl, grid_full, grid_place, grid_wf,
    lemma_lowest_empty_row, lowest_empty_row, row_view, valid_move_at, Board, BoardCell, CellV,
    GridV, MoveError,
};
use crate::player::{player_eq, Player, PlayerV};

verus! {

/// Mathematical view of a game status.
pub ghost enum StatusV {
    Ongoing,
    Draw,
    Win(PlayerV),
}

/// The status of a game: still in progress, ended in a draw, or won.
pub enum GameStatus {
    /// The game is still in progress.
    Ongoing,
    /// The game ended with a full board and no winning line.
    Draw,
    /// A player owns a winning run.
    Win(Player),
}

/// The view of a game status.
pub open spec fn status_view(s: GameStatus) -> StatusV {
    match s {
        GameStatus::Ongoing => StatusV::Ongoing,
        GameStatus::Draw => StatusV::Draw,
        GameStatus::Win(p) => StatusV::Win(p@),
    }
}

/// A winning run of length `k` ends at position `e` of `line`: the `k`
/// cells ending at `e` are all occupied by one player.
pub open spec fn win_at(line: Seq<CellV>, k: int, e: int) -> bool {
    &&& k - 1 <= e < line.len()
    &&& line[e] is Some
    &&& forall|t: int| e - k + 1 <= t <= e ==> (#[trigger] line[t]) == line[e]
}

/// The owner of the first winning run that ends at or after position `e`,
/// or `None` if no run of length `k` completes from there on.
pub open spec fn winner_from(line: Seq<CellV>, k: int, e: int) -> CellV
    decreases line.len() - e,
{
    if e >= line.len() {
        None
    } else if win_at(line, k, e) {
        line[e]
    } else {
        winner_from(line, k, e + 1)
    }
}

/// The winner a run-length scan of `line` reports: the owner of the cell at
/// which a run of length `k` first completes, or `None` if no such run.
pub open spec fn line_winner(line: Seq<CellV>, k: int) -> CellV {
    winner_from(line, k, 0)
}

/// If no run completes in `[a, b)`, scanning from `a` and from `b` agree.
pub proof fn lemma_winner_from_no_win(line: Seq<CellV>, k: int, a: int, b: int)
    requires
        a <= b <= line.len(),
        forall|e: int| a <= e < b ==> !win_at(line, k, e),
    ensures
        winner_from(line, k, a) == winner_from(line, k, b),
    decreases b - a,
{
    if a < b {
        assert(!win_at(line, k, a));
        lemma_winner_from_no_win(line, k, a + 1, b);
    }
}

/// If a run first completes at position `e0`, the scan reports the owner of
/// the cell at `e0`.
pub proof fn lemma_line_winner_found(line: Seq<CellV>, k: int, e0: int)
    requires
        0 <= e0 < line.len(),
        win_at(line, k, e0),
        forall|e: int| 0 <= e < e0 ==> !win_at(line, k, e),
    ensures
        line_winner(line, k) == line[e0],
        line[e0] is Some,
{
    lemma_winner_from_no_win(line, k, 0, e0);
}

/// If no run of length `k` completes anywhere, the scan reports no winner.
pub proof fn lemma_line_winner_none(line: Seq<CellV>, k: int)
    requires
        forall|e: int| 0 <= e < line.len() ==> !win_at(line, k, e),
    ensures
        line_winner(line, k) is None,
{
    lemma_winner_from_no_win(line, k, 0, line.len() as int);
}

/// The scan finds a winner exactly when some `k` consecutive cells of the
/// line are owned by one player: an interruption by an empty cell or by a
/// different player's cell means no run of length `k` completes there.
pub proof fn lemma_line_winner_exists(line: Seq<CellV>, k: int)
    requires
        2 <= k,
    ensures
        (line_winner(line, k) is Some) <==> (exists|e: int| win_at(line, k, e)),
{
    lemma_winner_from_exists(line, k, 0);
    if exists|e: int| win_at(line, k, e) {
        let e = choose|e: int| win_at(line, k, e);
        assert(0 <= e && win_at(line, k, e));
    }
}

/// Helper for [`lemma_line_winner_exists`]: the scan from `e` finds a
/// winner exactly when a run completes at some position at or after `e`.
pub proof fn lemma_winner_from_exists(line: Seq<CellV>, k: int, e: int)
    ensures
        (winner_from(line, k, e) is Some) <==> (exists|e2: int| e <= e2 && win_at(line, k, e2)),
    decreases line.len() - e,
{
    if e >= line.len() {
    } else if win_at(line, k, e) {
    } else {
        lemma_winner_from_exists(line, k, e + 1);
        if exists|e2: int| e <= e2 && win_at(line, k, e2) {
            let e2 = choose|e2: int| e <= e2 && win_at(line, k, e2);
            assert(e + 1 <= e2 && win_at(line, k, e2));
        }
    }
}

/// Every line of the grid, in the order win detection scans them: all
/// rows, then all columns, then the diagonals of each direction.
pub open spec fn grid_lines(g: GridV) -> Seq<Seq<CellV>> {
    g + grid_columns(g) + grid_diags_tlbr(g) + grid_diags_trbl(g)
}

/// The winner of the first line of `lines` on which a run of length `k`
/// completes, or `None` if no line has one.
pub open spec fn first_line_winner(lines: Seq<Seq<CellV>>, k: int) -> CellV
    decreases lines.len(),
{
    if lines.len() == 0 {
        None
    } else if line_winner(lines[0], k) is Some {
        line_winner(lines[0], k)
    } else {
        first_line_winner(lines.drop_first(), k)
    }
}

/// If the first `m` lines have no winner, they do not matter.
pub proof fn lemma_first_line_winner_skip(lines: Seq<Seq<CellV>>, k: int, m: int)
    requires
        0 <= m <= lines.len(),
        forall|t: int| 0 <= t < m ==> line_winner(#[trigger] lines[t], k) is None,
    ensures
        first_line_winner(lines, k) == first_line_winner(lines.skip(m), k),
    decreases m,
{
    if m > 0 {
        assert(line_winner(lines[0], k) is None);
        let rest = lines.drop_first();
        assert forall|t: int| 0 <= t < m - 1 implies line_winner(#[trigger] rest[t], k)
            is None by {
            assert(rest[t] == lines[t + 1]);
        }
        lemma_first_line_winner_skip(rest, k, m - 1);
        assert(rest.skip(m - 1) =~= lines.skip(m));
    } else {
        assert(lines.skip(0) =~= lines);
    }
}

/// If the lines before `t0` have no winner and line `t0` has one, the
/// scan reports the winner of line `t0`.
pub proof fn lemma_first_line_winner_found(lines: Seq<Seq<CellV>>, k: int, t0: int)
    requires
        0 <= t0 < lines.len(),
        forall|t: int| 0 <= t < t0 ==> line_winner(#[trigger] lines[t], k) is None,
        line_winner(lines[t0], k) is Some,
    ensures
        first_line_winner(lines, k) == line_winner(lines[t0], k),
{
    lemma_first_line_winner_skip(lines, k, t0);
    let rest = lines.skip(t0);
    assert(rest[0] == lines[t0]);
}

/// If no line has a winner, the scan reports none.
pub proof fn lemma_first_line_winner_none(lines: Seq<Seq<CellV>>, k: int)
    requires
        forall|t: int| 0 <= t < lines.len() ==> line_winner(#[trigger] lines[t], k) is None,
    ensures
        first_line_winner(lines, k) is None,
{
    lemma_first_line_winner_skip(lines, k, lines.len() as int);
}

/// The views of a sequence of players.
pub open spec fn players_view(ps: Seq<Player>) -> Seq<PlayerV> {
    Seq::new(ps.len(), |i: int| ps[i]@)
}

/// All players carry pairwise distinct tokens.
pub open spec fn tokens_unique(ps: Seq<PlayerV>) -> bool {
    forall|a: int, b: int|
        0 <= a < b < ps.len() ==> (#[trigger] ps[a]).token != (#[trigger] ps[b]).token
}

/// A fatal configuration error, detected before any turn is played.
#[derive(Clone, Copy, Debug, PartialEq, Eq, Structural)]
pub enum ConfigError {
    /// Fewer than two players were supplied.
    NotEnoughPlayers,
    /// Two players share a token.
    DuplicateToken,
    /// The board has zero rows or zero columns.
    InvalidDimensions,
    /// The required run length is less than two.
    TokensToWinTooSmall,
    /// The required run length exceeds the rows or the columns.
    TokensToWinTooLarge,
    /// The players cannot all place a winning run's worth of tokens.
    TooManyPlayers,
}

/// The configuration checks, in the order construction applies them;
/// the first violated check names the error.
pub open spec fn config_check(rows: int, cols: int, k: int, pv: Seq<PlayerV>) -> Result<
    (),
    ConfigError,
> {
    if pv.len() < 2 {
        Err(ConfigError::NotEnoughPlayers)
    } else if !tokens_unique(pv) {
        Err(ConfigError::DuplicateToken)
    } else if rows < 1 || cols < 1 {
        Err(ConfigError::InvalidDimensions)
    } else if k < 2 {
        Err(ConfigError::TokensToWinTooSmall)
    } else if k > rows || k > cols {
        Err(ConfigError::TokensToWinTooLarge)
    } else if pv.len() * k > rows * cols {
        Err(ConfigError::TooManyPlayers)
    } else {
        Ok(())
    }
}

/// The status of a grid under run length `k`: a win for the owner of the
/// first winning line if there is one — a winning line takes precedence
/// over a full board — else a draw once the board is full, else ongoing.
pub open spec fn game_status(g: GridV, k: int) -> StatusV {
    if first_line_winner(grid_lines(g), k) is Some {
        StatusV::Win(first_line_winner(grid_lines(g), k)->0)
    } else if grid_full(g) {
        StatusV::Draw
    } else {
        StatusV::Ongoing
    }
}

/// Where each line sits in [`grid_lines`]: rows first, then columns, then
/// the diagonals of each direction.
pub proof fn lemma_grid_lines_index(g: GridV, t: int)
    requires
        grid_wf(g),
    ensures
        grid_lines(g).len() == g.len() + grid_cols(g) + 2 * diag_count(g),
        0 <= t < g.len() ==> grid_lines(g)[t] == g[t],
        g.len() <= t < g.len() + grid_cols(g) ==> grid_lines(g)[t] == column_of(g, t - g.len()),
        g.len() + grid_cols(g) <= t < g.len() + grid_cols(g) + diag_count(g) ==> grid_lines(g)[t]
            == diag_tlbr(g, t - g.len() - grid_cols(g)),
        g.len() + grid_cols(g) + diag_count(g) <= t < grid_lines(g).len() ==> grid_lines(g)[t]
            == diag_trbl(g, t - g.len() - grid_cols(g) - diag_count(g)),
{
}

/// A game of Connect Four: a board, the players in turn order, the
/// required run length, and the cursor of the player to move.
pub struct Game {
    /// The board state.
    pub board: Board,
    /// The number of consecutive tokens required to win.
    pub tokens_to_win: usize,
    /// The players, in turn order; at least two, with pairwise distinct
    /// tokens.
    pub players: Vec<Player>,
    /// The index of the player to move, cycling through `players`.
    pub current_turn: usize,
}

impl Game {
    /// A well-formed game: a well-formed board whose dimensions the
    /// machine can index, at least two players with distinct tokens, a
    /// run length that fits the board, a player count the board can
    /// accommodate, and a turn cursor inside the player list.
    pub open spec fn wf(&self) -> bool {
        &&& self.board.wf()
        &&& self.board@.len() + grid_cols(self.board@) <= usize::MAX
        &&& self.players@.len() >= 2
        &&& tokens_unique(players_view(self.players@))
        &&& 2 <= self.tokens_to_win
        &&& self.tokens_to_win <= self.board@.len()
        &&& self.tokens_to_win as int <= grid_cols(self.board@)
        &&& self.players@.len() * self.tokens_to_win <= self.board@.len() * grid_cols(self.board@)
        &&& self.current_turn < self.players@.len()
    }

    /// Checks that no two players share a token.
    pub fn validate_players(players: &Vec<Player>) -> (r: Result<(), ConfigError>)
        ensures
            r is Ok <==> tokens_unique(players_view(players@)),
            r is Err ==> r == Err::<(), ConfigError>(ConfigError::DuplicateToken),
    {
        let ghost pv = players_view(players@);
        let n = players.len();
        let mut a: usize = 0;
        while a < n
            invariant
                n == players@.len(),
                pv == players_view(players@),
                a <= n,
                forall|x: int, y: int|
                    0 <= x < y < n && x < a ==> (#[trigger] pv[x]).token != (#[trigger] pv[y]).token,
            decreases n - a,
        {
            let mut b: usize = a + 1;
            while b < n
                invariant
                    n == players@.len(),
                    pv == players_view(players@),
                    a < b <= n,
                    a < n,
                    forall|x: int, y: int|
                        0 <= x < y < n && x < a ==> (#[trigger] pv[x]).token != (
                        #[trigger] pv[y]).token,
                    forall|y: int| a < y < b ==> (#[trigger] pv[y]).token != pv[a as int].token,
                decreases n - b,
            {
                if players[a].token == players[b].token {
                    proof {
                        assert(pv[a as int].token == pv[b as int].token);
                        assert(!tokens_unique(pv));
                    }
                    return Err(ConfigError::DuplicateToken);
                }
                b += 1;
            }
            a += 1;
        }
        Ok(())
    }

    /// Checks the board dimensions and the run length: both dimensions
    /// positive, and a run length of at least two that fits both.
    pub fn validate_game_config(rows: usize, cols: usize, tokens_to_win: usize) -> (r: Result<
        (),
        ConfigError,
    >)
        ensures
            rows < 1 || cols < 1 ==> r == Err::<(), ConfigError>(ConfigError::InvalidDimensions),
            rows >= 1 && cols >= 1 && tokens_to_win < 2 ==> r == Err::<(), ConfigError>(
                ConfigError::TokensToWinTooSmall,
            ),
            rows >= 1 && cols >= 1 && tokens_to_win >= 2 && (tokens_to_win > rows
                || tokens_to_win > cols) ==> r == Err::<(), ConfigError>(
                ConfigError::TokensToWinTooLarge,
            ),
            rows >= 1 && cols >= 1 && 2 <= tokens_to_win <= rows && tokens_to_win <= cols ==> r
                == Ok::<(), ConfigError>(()),
    {
        if rows < 1 || cols < 1 {
            return Err(ConfigError::InvalidDimensions);
        }
        if tokens_to_win < 2 {
            return Err(ConfigError::TokensToWinTooSmall);
        }
        if tokens_to_win > rows || tokens_to_win > cols {
            return Err(ConfigError::TokensToWinTooLarge);
        }
        Ok(())
    }

    /// Creates a game on a fresh `row_count × col_count` board, after
    /// checking the configuration; the first violated check is reported
    /// and nothing is constructed. On success the board is empty and the
    /// first player in the list moves first.
    pub fn new(
        row_count: usize,
        col_count: usize,
        tokens_to_win: usize,
        players: Vec<Player>,
    ) -> (res: Result<Game, ConfigError>)
        requires
            row_count + col_count <= usize::MAX,
        ensures
            ({
                let check = config_check(
                    row_count as int,
                    col_count as int,
                    tokens_to_win as int,
                    players_view(players@),
                );
                match check {
                    Err(e) => res == Err::<Game, ConfigError>(e),
                    Ok(_) => {
                        &&& res matches Ok(game)
                        &&& game.wf()
                        &&& game.board@.len() == row_count
                        &&& grid_cols(game.board@) == col_count
                        &&& forall|i: int, j: int|
                            0 <= i < row_count && 0 <= j < col_count ==> (
                            #[trigger] game.board@[i][j]) is None
                        &&& game.tokens_to_win == tokens_to_win
                        &&& game.players == players
                        &&& game.current_turn == 0
                    },
                }
            }),
    {
        let ghost pv = players_view(players@);
        if players.len() < 2 {
            return Err(ConfigError::NotEnoughPlayers);
        }
        match Self::validate_players(&players) {
            Err(e) => {
                return Err(e);
            },
            Ok(_) => {},
        }
        match Self::validate_game_config(row_count, col_count, tokens_to_win) {
            Err(e) => {
                return Err(e);
            },
            Ok(_) => {},
        }
        let player_count = players.len();
        proof {
            let a = player_count as int;
            let b = tokens_to_win as int;
            let c = row_count as int;
            let d = col_count as int;
            assert(0 <= a <= u64::MAX && 0 <= b <= u64::MAX && 0 <= c <= u64::MAX && 0 <= d
                <= u64::MAX);
            assert(a * b <= u64::MAX * u64::MAX) by (nonlinear_arith)
                requires
                    0 <= a <= u64::MAX,
                    0 <= b <= u64::MAX,
            ;
            assert(c * d <= u64::MAX * u64::MAX) by (nonlinear_arith)
                requires
                    0 <= c <= u64::MAX,
                    0 <= d <= u64::MAX,
            ;
            assert(u64::MAX * u64::MAX < u128::MAX);
        }
        let needed = (player_count as u128) * (tokens_to_win as u128);
        let available = (row_count as u128) * (col_count as u128);
        if needed > available {
            return Err(ConfigError::TooManyPlayers);
        }
        let game = Game {
            board: Board::new(row_count, col_count),
            tokens_to_win,
            players,
            current_turn: 0,
        };
        proof {
            assert(game.board@[0].len() == col_count);
        }
        Ok(game)
    }

    /// Advances the turn cursor to the next player, cycling.
    pub fn next_turn(&mut self)
        requires
            old(self).players@.len() >= 1,
            old(self).current_turn < old(self).players@.len(),
        ensures
            final(self).current_turn == (old(self).current_turn + 1) % (
            old(self).players@.len() as int),
            final(self).board == old(self).board,
            final(self).players == old(self).players,
            final(self).tokens_to_win == old(self).tokens_to_win,
    {
        let player_count = self.players.len();
        self.current_turn = (self.current_turn + 1) % player_count;
    }

    /// Plays one turn: the current player's token is dropped into `col`,
    /// and on success the turn passes to the next player. An invalid
    /// column leaves the game unchanged.
    pub fn take_turn(&mut self, col: usize) -> (res: Result<(), MoveError>)
        requires
            old(self).wf(),
        ensures
            final(self).wf(),
            final(self).players == old(self).players,
            final(self).tokens_to_win == old(self).tokens_to_win,
            !valid_move_at(old(self).board@, col as int) ==> *final(self) == *old(self),
            col as int >= grid_cols(old(self).board@) ==> res == Err::<(), MoveError>(
                MoveError::InvalidColumn,
            ),
            (col as int) < grid_cols(old(self).board@) && !column_has_empty(
                old(self).board@,
                col as int,
            ) ==> res == Err::<(), MoveError>(MoveError::ColumnFull),
            valid_move_at(old(self).board@, col as int) ==> res == Ok::<(), MoveError>(())
                && final(self).board@ == grid_place(
                old(self).board@,
                col as int,
                players_view(old(self).players@)[old(self).current_turn as int],
            ) && final(self).current_turn == (old(self).current_turn + 1) % (
            old(self).players@.len() as int),
    {
        let player = self.players[self.current_turn].clone();
        proof {
            assert(player@ == players_view(self.players@)[self.current_turn as int]);
        }
        match self.board.place_token(col, player) {
            Ok(_) => {
                proof {
                    let g0 = old(self).board@;
                    let g1 = self.board@;
                    let r = lowest_empty_row(g0, col as int);
                    lemma_lowest_empty_row(g0, col as int);
                    assert(g1.len() == g0.len());
                    assert forall|i: int| 0 <= i < g1.len() implies (#[trigger] g1[i]).len()
                        == g1[0].len() by {
                        assert(g1[i].len() == g0[i].len());
                        assert(g1[0].len() == g0[0].len());
                    }
                }
                self.next_turn();
                Ok(())
            },
            Err(e) => Err(e),
        }
    }

    /// Scans `line` left to right, counting consecutive cells of one
    /// player and resetting on an empty cell or a change of player;
    /// reports the owner of the first run that reaches `tokens_to_win`.
    pub fn check_line(line: &Vec<BoardCell>, tokens_to_win: usize) -> (res: BoardCell)
        requires
            2 <= tokens_to_win,
        ensures
            cell_view(res) == line_winner(row_view(*line), tokens_to_win as int),
    {
        let ghost lv = row_view(*line);
        let ghost k = tokens_to_win as int;
        let n = line.len();
        let mut count: usize = 0;
        let mut last_player: BoardCell = None;
        let mut idx: usize = 0;
        while idx < n
            invariant
                2 <= tokens_to_win,
                k == tokens_to_win as int,
                lv == row_view(*line),
                n == line@.len(),
                lv.len() == n,
                idx <= n,
                count < tokens_to_win,
                forall|e: int| 0 <= e < idx ==> !win_at(lv, k, e),
                idx == 0 ==> count == 0 && last_player is None,
                idx > 0 && lv[idx - 1] is None ==> count == 0 && last_player is None,
                idx > 0 && lv[idx - 1] is Some ==> {
                    &&& 1 <= count <= idx
                    &&& cell_view(last_player) == lv[idx - 1]
                    &&& forall|t: int| idx - count <= t < idx ==> (#[trigger] lv[t]) == lv[idx - 1]
                    &&& idx - count - 1 >= 0 ==> lv[idx - count - 1] != lv[idx - 1]
                },
            decreases n - idx,
        {
            proof {
                assert(lv[idx as int] == cell_view(line@[idx as int]));
            }
            match &line[idx] {
                Some(player) => {
                    let same = match &last_player {
                        Some(lp) => player_eq(player, lp),
                        None => false,
                    };
                    if same {
                        proof {
                            assert(lv[idx as int] == lv[idx - 1]);
                        }
                        count += 1;
                        if count == tokens_to_win {
                            proof {
                                assert forall|t: int|
                                    idx - k + 1 <= t <= idx as int implies (#[trigger] lv[t])
                                    == lv[idx as int] by {
                                    if t < idx as int {
                                        assert(lv[t] == lv[idx - 1]);
                                    }
                                }
                                assert(win_at(lv, k, idx as int));
                                lemma_line_winner_found(lv, k, idx as int);
                            }
                            return Some(player.clone());
                        }
                        proof {
                            assert(!win_at(lv, k, idx as int)) by {
                                if win_at(lv, k, idx as int) {
                                    if idx as int - count < 0 {
                                        // the run would have to start before the line does
                                        assert(k <= idx + 1);
                                        assert(count < k);
                                    } else {
                                        // the cell just before the run differs
                                        assert(lv[idx as int - count] != lv[idx - 1]);
                                        assert(idx - k + 1 <= idx as int - count <= idx as int);
                                        assert(lv[idx as int - count] == lv[idx as int]);
                                    }
                                }
                            }
                        }
                    } else {
                        count = 1;
                        last_player = Some(player.clone());
                        proof {
                            assert(cell_view(last_player) == lv[idx as int]);
                            assert(!win_at(lv, k, idx as int)) by {
                                if win_at(lv, k, idx as int) {
                                    assert(idx as int - 1 >= idx - k + 1);
                                    assert(lv[idx - 1] == lv[idx as int]);
                                }
                            }
                        }
                    }
                },
                None => {
                    count = 0;
                    last_player = None;
                    proof {
                        assert(!win_at(lv, k, idx as int));
                    }
                },
            }
            idx += 1;
        }
        proof {
            lemma_line_winner_none(lv, k);
        }
        None
    }

    /// Scans all rows, then all columns, then the diagonals of each
    /// direction, and reports the winner of the first line on which a run
    /// of `tokens_to_win` tokens completes, or `None` if no line has one.
    pub fn find_winner(&self) -> (res: BoardCell)
        requires
            self.wf(),
        ensures
            cell_view(res) == first_line_winner(
                grid_lines(self.board@),
                self.tokens_to_win as int,
            ),
    {
        let ghost g = self.board@;
        let ghost k = self.tokens_to_win as int;
        let ghost lines = grid_lines(g);
        proof {
            lemma_grid_lines_index(g, 0);
        }
        let row_count = self.board.rows.len();
        let col_count = self.board.rows[0].len();

        let mut i: usize = 0;
        while i < row_count
            invariant
                self.wf(),
                g == self.board@,
                k == self.tokens_to_win as int,
                lines == grid_lines(g),
                row_count == g.len(),
                col_count == grid_cols(g),
                lines.len() == g.len() + grid_cols(g) + 2 * diag_count(g),
                i <= row_count,
                forall|t: int| 0 <= t < i ==> line_winner(#[trigger] lines[t], k) is None,
            decreases row_count - i,
        {
            proof {
                assert(g[i as int] == row_view(self.board.rows@[i as int]));
                lemma_grid_lines_index(g, i as int);
            }
            match Self::check_line(&self.board.rows[i], self.tokens_to_win) {
                Some(winner) => {
                    proof {
                        lemma_first_line_winner_found(lines, k, i as int);
                    }
                    return Some(winner);
                },
                None => {},
            }
            i += 1;
        }

        let mut j: usize = 0;
        while j < col_count
            invariant
                self.wf(),
                g == self.board@,
                k == self.tokens_to_win as int,
                lines == grid_lines(g),
                row_count == g.len(),
                col_count == grid_cols(g),
                lines.len() == g.len() + grid_cols(g) + 2 * diag_count(g),
                j <= col_count,
                forall|t: int|
                    0 <= t < row_count + j ==> line_winner(#[trigger] lines[t], k) is None,
            decreases col_count - j,
        {
            let mut column: Vec<BoardCell> = Vec::new();
            let mut r: usize = 0;
            while r < row_count
                invariant
                    self.wf(),
                    g == self.board@,
                    row_count == g.len(),
                    col_count == grid_cols(g),
                    j < col_count,
                    r <= row_count,
                    column@.len() == r,
                    forall|t: int|
                        0 <= t < r ==> cell_view(#[trigger] column@[t]) == g[t][j as int],
                decreases row_count - r,
            {
                proof {
                    assert(g[r as int] == row_view(self.board.rows@[r as int]));
                }
                column.push(clone_cell(&self.board.rows[r][j]));
                r += 1;
            }
            proof {
                assert(row_view(column) =~= column_of(g, j as int));
                lemma_grid_lines_index(g, row_count + j as int);
            }
            match Self::check_line(&column, self.tokens_to_win) {
                Some(winner) => {
                    proof {
                        lemma_first_line_winner_found(lines, k, row_count + j as int);
                    }
                    return Some(winner);
                },
                None => {},
            }
            j += 1;
        }

        let diags_first = self.board.get_diagonals_top_left_to_bottom_right();
        let diag_total = diags_first.len();
        let mut d: usize = 0;
        while d < diag_total
            invariant
                self.wf(),
                g == self.board@,
                k == self.tokens_to_win as int,
                lines == grid_lines(g),
                row_count == g.len(),
                col_count == grid_cols(g),
                lines.len() == g.len() + grid_cols(g) + 2 * diag_count(g),
                diag_total == diag_count(g),
                diags_first@.len() == diag_count(g),
                forall|t: int|
                    0 <= t < diag_count(g) ==> row_view(#[trigger] diags_first@[t]) == diag_tlbr(
                        g,
                        t,
                    ),
                d <= diag_total,
                forall|t: int|
                    0 <= t < row_count + col_count + d ==> line_winner(#[trigger] lines[t], k)
                        is None,
            decreases diag_total - d,
        {
            proof {
                lemma_grid_lines_index(g, row_count + col_count + d as int);
            }
            match Self::check_line(&diags_first[d], self.tokens_to_win) {
                Some(winner) => {
                    proof {
                        lemma_first_line_winner_found(lines, k, row_count + col_count + d as int);
                    }
                    return Some(winner);
                },
                None => {},
            }
            d += 1;
        }

        let diags_second = self.board.get_diagonals_top_right_to_bottom_left();
        let mut d2: usize = 0;
        while d2 < diag_total
            invariant
                self.wf(),
                g == self.board@,
                k == self.tokens_to_win as int,
                lines == grid_lines(g),
                row_count == g.len(),
                col_count == grid_cols(g),
                lines.len() == g.len() + grid_cols(g) + 2 * diag_count(g),
                diag_total == diag_count(g),
                diags_second@.len() == diag_count(g),
                forall|t: int|
                    0 <= t < diag_count(g) ==> row_view(#[trigger] diags_second@[t]) == diag_trbl(
                        g,
                        t,
                    ),
                d2 <= diag_total,
                forall|t: int|
                    0 <= t < row_count + col_count + diag_count(g) + d2 ==> line_winner(
                        #[trigger] lines[t],
                        k,
                    ) is None,
            decreases diag_total - d2,
        {
            proof {
                lemma_grid_lines_index(g, row_count + col_count + diag_count(g) + d2 as int);
            }
            match Self::check_line(&diags_second[d2], self.tokens_to_win) {
                Some(winner) => {
                    proof {
                        lemma_first_line_winner_found(
                            lines,
                            k,
                            row_count + col_count + diag_count(g) + d2 as int,
                        );
                    }
                    return Some(winner);
                },
                None => {},
            }
            d2 += 1;
        }

        proof {
            lemma_first_line_winner_none(lines, k);
        }
        None
    }

    /// The status of the game. A winning line takes precedence over a
    /// full board: the winner is determined first, so a move that both
    /// fills the board and completes a line is a win, not a draw.
    pub fn status(&self) -> (s: GameStatus)
        requires
            self.wf(),
        ensures
            status_view(s) == game_status(self.board@, self.tokens_to_win as int),
    {
        match self.find_winner() {
            Some(winner) => GameStatus::Win(winner),
            None => {
                if self.board.is_board_full() {
                    GameStatus::Draw
                } else {
                    GameStatus::Ongoing
                }
            },
        }
    }
}

} // verus!
