use vstd::prelude::*;
use vstd::string::StringExecFns;
use rand::rngs::StdRng;

verus! {

/// rand's `StdRng`, carried unopened to the coin that draws from it.
#[verifier::external_type_specification]
#[verifier::external_body]
pub struct ExStdRng(StdRng);

/// Relies on rand's `Rng::gen::<bool>`: a fair coin drawn from the generator.
#[verifier::external_body]
fn coin(rng: &mut StdRng) -> bool {
    rand::Rng::gen::<bool>(rng)
}

/// One square of the four-by-four board.
#[derive(Copy, Clone, Debug, PartialEq, Eq, Structural)]
pub enum BoardTile {
    Milk,
    Cookie,
    Empty,
}

pub open spec fn emoji_of(t: BoardTile) -> char {
    match t {
        BoardTile::Cookie => '\u{1F36A}',
        BoardTile::Milk => '\u{1F95B}',
        BoardTile::Empty => '\u{2B1B}',
    }
}

impl BoardTile {
    pub fn is_empty(&self) -> (r: bool)
        ensures
            r == (*self == BoardTile::Empty),
    {
        match self {
            BoardTile::Empty => true,
            _ => false,
        }
    }

    /// The square's picture: a cookie, a glass of milk, or a black square.
    pub fn emoji(&self) -> (r: char)
        ensures
            r == emoji_of(*self),
    {
        match self {
            BoardTile::Cookie => '\u{1F36A}',
            BoardTile::Milk => '\u{1F95B}',
            BoardTile::Empty => '\u{2B1B}',
        }
    }

    fn emoji_str(&self) -> (r: &'static str)
        ensures
            r@ == seq![emoji_of(*self)],
    {
        match self {
            BoardTile::Cookie => {
                let s = "\u{1F36A}";
                proof {
                    reveal_strlit("\u{1F36A}");
                }
                s
            },
            BoardTile::Milk => {
                let s = "\u{1F95B}";
                proof {
                    reveal_strlit("\u{1F95B}");
                }
                s
            },
            BoardTile::Empty => {
                let s = "\u{2B1B}";
                proof {
                    reveal_strlit("\u{2B1B}");
                }
                s
            },
        }
    }
}

/// How a move ended.
#[derive(Debug, Clone, Copy, PartialEq, Eq, Structural)]
pub enum PlayOutcome {
    /// The tile was placed.
    Placed,
    /// An unknown team or a column outside 1 to 4.
    BadMove,
    /// The column has no empty square.
    ColumnFull,
    /// The game already has a result.
    GameOver,
}

/// The game board: rows from top (0) to bottom (3), columns from left (0)
/// to right (3). Tiles fall to the lowest empty square of their column.
pub struct Board {
    board: [[BoardTile; 4]; 4],
}

impl View for Board {
    type V = Seq<Seq<BoardTile>>;

    closed spec fn view(&self) -> Seq<Seq<BoardTile>> {
        Seq::new(4, |i: int| self.board@[i]@)
    }
}

/// Four rows of four squares.
pub open spec fn shaped(v: Seq<Seq<BoardTile>>) -> bool {
    v.len() == 4 && forall|i: int| 0 <= i < 4 ==> #[trigger] v[i].len() == 4
}

/// Every board has four rows of four squares.
pub proof fn lemma_board_shape(b: Board)
    ensures
        shaped(b@),
{
}

pub open spec fn tile_count(t: BoardTile) -> int {
    if t == BoardTile::Empty {
        0
    } else {
        1
    }
}

/// The tile a coin result stands for.
pub open spec fn coin_tile(c: bool) -> BoardTile {
    if c {
        BoardTile::Cookie
    } else {
        BoardTile::Milk
    }
}

/// The tile a team plays.
pub open spec fn team_tile(team: Seq<char>) -> Option<BoardTile> {
    if team == "cookie"@ {
        Some(BoardTile::Cookie)
    } else if team == "milk"@ {
        Some(BoardTile::Milk)
    } else {
        None
    }
}

/// Whether four tiles are all the same.
pub open spec fn same4(a: BoardTile, b: BoardTile, c: BoardTile, d: BoardTile) -> bool {
    a == b && b == c && c == d
}

impl Board {
    /// The square in row `i` and column `j`.
    pub open spec fn cell(&self, i: int, j: int) -> BoardTile {
        self@[i][j]
    }

    /// Whether no tile floats: below every tile there is a tile or the floor.
    pub open spec fn settled(&self) -> bool {
        forall|i: int, j: int|
            0 <= i < 3 && 0 <= j < 4 && #[trigger] self.cell(i, j) != BoardTile::Empty ==> self.cell(
                i + 1,
                j,
            ) != BoardTile::Empty
    }

    pub open spec fn row_filled(&self, i: int) -> int {
        tile_count(self.cell(i, 0)) + tile_count(self.cell(i, 1)) + tile_count(self.cell(i, 2))
            + tile_count(self.cell(i, 3))
    }

    /// Whether the board holds, row by row, the tiles that `coins` stand for.
    pub open spec fn made_of(&self, coins: Seq<bool>) -> bool {
        forall|i: int, j: int|
            0 <= i < 4 && 0 <= j < 4 ==> #[trigger] self.cell(i, j) == coin_tile(coins[4 * i + j])
    }

    /// How many squares hold a tile.
    pub open spec fn filled(&self) -> int {
        self.row_filled(0) + self.row_filled(1) + self.row_filled(2) + self.row_filled(3)
    }

    /// The lowest empty square of column `c`, if any.
    pub open spec fn drop_row(&self, c: int) -> Option<int> {
        if self.cell(3, c) == BoardTile::Empty {
            Some(3)
        } else if self.cell(2, c) == BoardTile::Empty {
            Some(2)
        } else if self.cell(1, c) == BoardTile::Empty {
            Some(1)
        } else if self.cell(0, c) == BoardTile::Empty {
            Some(0)
        } else {
            None
        }
    }

    pub open spec fn column_same(&self, c: int) -> bool {
        same4(self.cell(0, c), self.cell(1, c), self.cell(2, c), self.cell(3, c))
    }

    pub open spec fn row_same(&self, r: int) -> bool {
        same4(self.cell(r, 0), self.cell(r, 1), self.cell(r, 2), self.cell(r, 3))
    }

    /// The first line found whose four squares agree, by the search order:
    /// column `i` then row `i` for `i` from 0 up, then the two diagonals. Its
    /// tile is the winner, which is `Empty` when that line is empty or no
    /// line agrees.
    pub open spec fn winner_from(&self, i: int) -> BoardTile
        decreases 4 - i,
    {
        if i >= 4 {
            if same4(self.cell(0, 0), self.cell(1, 1), self.cell(2, 2), self.cell(3, 3)) {
                self.cell(0, 0)
            } else if same4(self.cell(0, 3), self.cell(1, 2), self.cell(2, 1), self.cell(3, 0)) {
                self.cell(0, 3)
            } else {
                BoardTile::Empty
            }
        } else if self.column_same(i) {
            self.cell(0, i)
        } else if self.row_same(i) {
            self.cell(i, 0)
        } else {
            self.winner_from(i + 1)
        }
    }

    pub open spec fn winner(&self) -> BoardTile {
        self.winner_from(0)
    }

    pub open spec fn has_empty(&self) -> bool {
        exists|i: int, j: int| 0 <= i < 4 && 0 <= j < 4 && self.cell(i, j) == BoardTile::Empty
    }

    /// The game's result: the winner, a draw on a full board, or nothing yet.
    pub open spec fn result(&self) -> Option<Seq<char>> {
        if self.winner() != BoardTile::Empty {
            Some(seq![emoji_of(self.winner())] + " wins!"@)
        } else if self.has_empty() {
            None
        } else {
            Some("No winner."@)
        }
    }
    pub fn new() -> (r: Board)
        ensures
            shaped(r@),
            forall|i: int, j: int| 0 <= i < 4 && 0 <= j < 4 ==> r.cell(i, j) == BoardTile::Empty,
    {
        let r = Board { board: [[BoardTile::Empty; 4]; 4] };
        assert forall|i: int, j: int| 0 <= i < 4 && 0 <= j < 4 implies r.cell(i, j)
            == BoardTile::Empty by {
        }
        r
    }

    /// Drops the team's tile into column `col` (counted from 1), onto the
    /// lowest empty square.
    #[verifier::rlimit(60)]
    pub fn place_tile(&mut self, team: String, col: usize) -> (r: Result<(), String>)
        ensures
            shaped(final(self)@),
            match r {
                Ok(()) => {
                    &&& team_tile(team@) is Some
                    &&& 1 <= col <= 4
                    &&& old(self).drop_row(col - 1) is Some
                    &&& dropped(
                        *old(self),
                        *final(self),
                        old(self).drop_row(col - 1)->Some_0,
                        col - 1,
                        team_tile(team@)->Some_0,
                    )
                    &&& old(self).settled() ==> final(self).settled()
                    &&& final(self).filled() == old(self).filled() + 1
                    &&& final(self)@ == old(self)@.update(
                        old(self).drop_row(col - 1)->Some_0,
                        old(self)@[old(self).drop_row(col - 1)->Some_0].update(
                            col - 1,
                            team_tile(team@)->Some_0,
                        ),
                    )
                },
                Err(e) => {
                    &&& final(self)@ == old(self)@
                    &&& team_tile(team@) is None ==> e@ == "Invalid team"@
                    &&& team_tile(team@) is Some && !(1 <= col <= 4) ==> e@ == "Invalid column"@
                    &&& team_tile(team@) is Some && 1 <= col <= 4 ==> old(self).drop_row(col - 1) is None
                        && e@ == "Column full"@
                },
            },
    {
        proof {
            reveal_strlit("cookie");
            reveal_strlit("milk");
        }
        let cookie = String::from_str("cookie");
        let milk = String::from_str("milk");
        let tile = if team == cookie {
            BoardTile::Cookie
        } else if team == milk {
            BoardTile::Milk
        } else {
            return Err(String::from_str("Invalid team"));
        };
        if col < 1 || col > 4 {
            return Err(String::from_str("Invalid column"));
        }
        assert(team_tile(team@) == Some(tile));
        let c = col - 1;
        let mut i: usize = 4;
        while i > 0
            invariant
                i <= 4,
                c < 4,
                *self == *old(self),
                team_tile(team@) == Some(tile),
                col == c + 1,
                forall|k: int| i <= k < 4 ==> self.cell(k, c as int) != BoardTile::Empty,
            decreases i,
        {
            i = i - 1;
            if self.board[i][c].is_empty() {
                let ghost before = self@;
                assert(self.cell(i as int, c as int) == BoardTile::Empty);
                assert(old(self).drop_row(c as int) == Some(i as int));

                let mut row = self.board[i];
                row[c] = tile;
                self.board[i] = row;
                assert(self@ =~= before.update(i as int, before[i as int].update(c as int, tile)));
                proof {
                    lemma_drop_cells(*old(self), *self, i as int, c as int, tile);
                    lemma_drop_count(*old(self), *self, i as int, c as int, tile);
                    if old(self).settled() {
                        lemma_drop_settled(*old(self), *self, i as int, c as int, tile);
                    }
                }
                return Ok(());
            }
        }
        Err(String::from_str("Column full"))
    }

    fn tile(&self, i: usize, j: usize) -> (r: BoardTile)
        requires
            i < 4,
            j < 4,
        ensures
            r == self.cell(i as int, j as int),
    {
        self.board[i][j]
    }

    /// The winner by the search order of `winner_from`.
    pub fn get_winner(&self) -> (r: BoardTile)
        ensures
            r == self.winner(),
    {
        let mut i: usize = 0;
        while i < 4
            invariant
                i <= 4,
                self.winner() == self.winner_from(i as int),
            decreases 4 - i,
        {
            if self.tile(0, i) == self.tile(1, i) && self.tile(1, i) == self.tile(2, i) && self.tile(
                2,
                i,
            ) == self.tile(3, i) {
                return self.tile(0, i);
            }
            if self.tile(i, 0) == self.tile(i, 1) && self.tile(i, 1) == self.tile(i, 2) && self.tile(
                i,
                2,
            ) == self.tile(i, 3) {
                return self.tile(i, 0);
            }
            i = i + 1;
        }
        if self.tile(0, 0) == self.tile(1, 1) && self.tile(1, 1) == self.tile(2, 2) && self.tile(2, 2)
            == self.tile(3, 3) {
            return self.tile(0, 0);
        }
        if self.tile(0, 3) == self.tile(1, 2) && self.tile(1, 2) == self.tile(2, 1) && self.tile(2, 1)
            == self.tile(3, 0) {
            return self.tile(0, 3);
        }
        BoardTile::Empty
    }

    fn any_empty(&self) -> (r: bool)
        ensures
            r == self.has_empty(),
    {
        let mut i: usize = 0;
        while i < 4
            invariant
                i <= 4,
                forall|a: int, b: int| 0 <= a < i && 0 <= b < 4 ==> self.cell(a, b) != BoardTile::Empty,
            decreases 4 - i,
        {
            let mut j: usize = 0;
            while j < 4
                invariant
                    i < 4,
                    j <= 4,
                    forall|a: int, b: int|
                        0 <= a < i && 0 <= b < 4 ==> self.cell(a, b) != BoardTile::Empty,
                    forall|b: int| 0 <= b < j ==> self.cell(i as int, b) != BoardTile::Empty,
                decreases 4 - j,
            {
                if self.tile(i, j).is_empty() {
                    return true;
                }
                j = j + 1;
            }
            i = i + 1;
        }
        false
    }

    /// The game's result: who won, a draw once the board is full, or `None`
    /// while the game goes on.
    pub fn get_result(&self) -> (r: Option<String>)
        ensures
            opt_text(r) == self.result(),
    {
        let winner = self.get_winner();
        if winner != BoardTile::Empty {
            let s = match winner {
                BoardTile::Cookie => {
                    proof {
                        reveal_strlit("\u{1F36A} wins!");
                        reveal_strlit(" wins!");
                    }
                    String::from_str("\u{1F36A} wins!")
                },
                _ => {
                    proof {
                        reveal_strlit("\u{1F95B} wins!");
                        reveal_strlit(" wins!");
                    }
                    String::from_str("\u{1F95B} wins!")
                },
            };
            assert(s@ =~= seq![emoji_of(winner)] + " wins!"@);
            return Some(s);
        }
        if self.any_empty() {
            None
        } else {
            Some(String::from_str("No winner."))
        }
    }

    /// The board drawn with emoji, followed by the result if there is one.
    pub fn to_string(&self) -> (r: String)
        ensures
            r@ == board_text(*self),
    {
        let mut out = String::new();
        let mut i: usize = 0;
        while i < 4
            invariant
                i <= 4,
                out@ == rows_text(self@, i as int),
            decreases 4 - i,
        {
            let ghost before = out@;
            proof {
                reveal_strlit("\u{2B1C}");
                reveal_strlit("\u{2B1C}\n");
            }
            out.append("\u{2B1C}");
            out.append(self.tile(i, 0).emoji_str());
            out.append(self.tile(i, 1).emoji_str());
            out.append(self.tile(i, 2).emoji_str());
            out.append(self.tile(i, 3).emoji_str());
            out.append("\u{2B1C}\n");
            assert(out@ =~= before + row_text(self@[i as int]));
            i = i + 1;
        }
        out.append("\u{2B1C}\u{2B1C}\u{2B1C}\u{2B1C}\u{2B1C}\u{2B1C}\n");
        match self.get_result() {
            Some(res) => {
                out.append(res.as_str());
                out.append("\n");
            },
            None => {},
        }
        out
    }

    /// One move of the game: refused with `GameOver` once the game has a
    /// result, otherwise a `place_tile`, whose error text tells a bad request
    /// from a full column.
    pub fn play(&mut self, team: String, col: usize) -> (r: PlayOutcome)
        ensures
            shaped(final(self)@),
            old(self).result() is Some ==> r == PlayOutcome::GameOver && final(self)@ == old(self)@,
            old(self).result() is None ==> match r {
                PlayOutcome::Placed => team_tile(team@) is Some && 1 <= col <= 4 && old(self).drop_row(
                    col - 1,
                ) is Some && dropped(
                    *old(self),
                    *final(self),
                    old(self).drop_row(col - 1)->Some_0,
                    col - 1,
                    team_tile(team@)->Some_0,
                ),
                PlayOutcome::BadMove => {
                    &&& team_tile(team@) is None || !(1 <= col <= 4)
                    &&& final(self)@ == old(self)@
                },
                PlayOutcome::ColumnFull => {
                    &&& team_tile(team@) is Some && 1 <= col <= 4
                    &&& old(self).drop_row(col - 1) is None
                    &&& final(self)@ == old(self)@
                },
                PlayOutcome::GameOver => false,
            },
    {
        if self.get_result().is_some() {
            proof {
                lemma_board_shape(*self);
            }
            return PlayOutcome::GameOver;
        }
        match self.place_tile(team, col) {
            Ok(()) => PlayOutcome::Placed,
            Err(e) => {
                proof {
                    reveal_strlit("Column full");
                    reveal_strlit("Invalid team");
                    reveal_strlit("Invalid column");
                    lemma_board_shape(*self);
                }
                let full = String::from_str("Column full");
                assert("Column full"@ != "Invalid team"@ && "Column full"@ != "Invalid column"@) by {
                    assert("Column full"@[0] != "Invalid team"@[0]);
                    assert("Column full"@[0] != "Invalid column"@[0]);
                }
                if e == full {
                    PlayOutcome::ColumnFull
                } else {
                    PlayOutcome::BadMove
                }
            },
        }
    }

    /// The full board that sixteen coin results give, row by row: a cookie
    /// for `true`, milk for `false`.
    pub fn from_coins(coins: [bool; 16]) -> (r: Board)
        ensures
            shaped(r@),
            forall|i: int, j: int|
                0 <= i < 4 && 0 <= j < 4 ==> #[trigger] r.cell(i, j) == coin_tile(coins@[4 * i + j]),
    {
        let mut board = Board::new();
        let mut i: usize = 0;
        while i < 4
            invariant
                i <= 4,
                forall|a: int, b: int|
                    0 <= a < i && 0 <= b < 4 ==> #[trigger] board.cell(a, b) == coin_tile(
                        coins@[4 * a + b],
                    ),
            decreases 4 - i,
        {
            let mut row = [BoardTile::Empty; 4];
            let mut j: usize = 0;
            while j < 4
                invariant
                    i < 4,
                    j <= 4,
                    forall|a: int, b: int|
                        0 <= a < i && 0 <= b < 4 ==> #[trigger] board.cell(a, b) == coin_tile(
                            coins@[4 * a + b],
                        ),
                    forall|b: int| 0 <= b < j ==> row@[b] == coin_tile(coins@[4 * i + b]),
                decreases 4 - j,
            {
                if coins[4 * i + j] {
                    row[j] = BoardTile::Cookie;
                } else {
                    row[j] = BoardTile::Milk;
                }
                j = j + 1;
            }
            let ghost before = board@;
            let ghost old_board = board;
            board.board[i] = row;
            assert(board@ =~= before.update(i as int, row@));
            assert forall|a: int, b: int| 0 <= a < i + 1 && 0 <= b < 4 implies #[trigger] board.cell(
                a,
                b,
            ) == coin_tile(coins@[4 * a + b]) by {
                if a == i {
                    assert(board.cell(a, b) == row@[b]);
                } else {
                    assert(board.cell(a, b) == old_board.cell(a, b));
                }
            }
            i = i + 1;
        }
        board
    }

    /// A full board whose every square is cookie or milk by a fair coin.
    pub fn new_random(rand: &mut StdRng) -> (r: Board)
        ensures
            shaped(r@),
            exists|coins: Seq<bool>| coins.len() == 16 && #[trigger] r.made_of(coins),
            forall|i: int, j: int| 0 <= i < 4 && 0 <= j < 4 ==> r.cell(i, j) != BoardTile::Empty,
    {
        let mut coins = [false; 16];
        let mut k: usize = 0;
        while k < 16
            invariant
                k <= 16,
            decreases 16 - k,
        {
            coins[k] = coin(rand);
            k = k + 1;
        }
        let r = Board::from_coins(coins);
        assert(r.made_of(coins@));
        assert forall|i: int, j: int| 0 <= i < 4 && 0 <= j < 4 implies r.cell(i, j)
            != BoardTile::Empty by {
            assert(r.cell(i, j) == coin_tile(coins@[4 * i + j]));
        }
        r
    }
}

pub open spec fn dropped(o: Board, n: Board, r0: int, c0: int, tile: BoardTile) -> bool {
    forall|a: int, b: int| 0 <= a < 4 && 0 <= b < 4 ==> #[trigger] n.cell(a, b) == if a == r0 && b
        == c0 {
        tile
    } else {
        o.cell(a, b)
    }
}

proof fn lemma_drop_cells(o: Board, n: Board, r0: int, c0: int, tile: BoardTile)
    requires
        0 <= c0 < 4,
        0 <= r0 < 4,
        n@ == o@.update(r0, o@[r0].update(c0, tile)),
    ensures
        dropped(o, n, r0, c0, tile),
{
    lemma_board_shape(o);
}

proof fn lemma_drop_count(o: Board, n: Board, r0: int, c0: int, tile: BoardTile)
    requires
        0 <= c0 < 4,
        0 <= r0 < 4,
        o.cell(r0, c0) == BoardTile::Empty,
        tile != BoardTile::Empty,
        dropped(o, n, r0, c0, tile),
    ensures
        n.filled() == o.filled() + 1,
{
    assert(n.cell(r0, c0) == tile);
    assert(n.row_filled(r0) == o.row_filled(r0) + 1);
    assert(forall|a: int| 0 <= a < 4 && a != r0 ==> n.row_filled(a) == o.row_filled(a));
}

proof fn lemma_drop_settled(o: Board, n: Board, r0: int, c0: int, tile: BoardTile)
    requires
        0 <= c0 < 4,
        o.drop_row(c0) == Some(r0),
        tile != BoardTile::Empty,
        dropped(o, n, r0, c0, tile),
        o.settled(),
    ensures
        n.settled(),
{
    assert forall|a: int, b: int|
        0 <= a < 3 && 0 <= b < 4 && #[trigger] n.cell(a, b) != BoardTile::Empty implies n.cell(
        a + 1,
        b,
    ) != BoardTile::Empty by {
        assert(n.cell(a + 1, b) == if a + 1 == r0 && b == c0 { tile } else { o.cell(a + 1, b) });
        if b == c0 && a < r0 {
            assert(o.cell(a, b) != BoardTile::Empty);
            assert(o.cell(a + 1, b) != BoardTile::Empty);
            if a + 1 < r0 {
                assert(o.cell(a + 2, b) != BoardTile::Empty);
                if a + 2 < r0 {
                    assert(o.cell(a + 3, b) != BoardTile::Empty);
                }
            }
        } else if b != c0 || a > r0 {
            assert(o.cell(a, b) != BoardTile::Empty);
        }
    }
}

/// One printed row: the tiles between two white squares, then a line break.
pub open spec fn row_text(row: Seq<BoardTile>) -> Seq<char> {
    seq!['\u{2B1C}', emoji_of(row[0]), emoji_of(row[1]), emoji_of(row[2]), emoji_of(row[3]), '\u{2B1C}', '\n']
}

/// The first `k` printed rows.
pub open spec fn rows_text(rows: Seq<Seq<BoardTile>>, k: int) -> Seq<char>
    decreases k,
{
    if k <= 0 {
        Seq::empty()
    } else {
        rows_text(rows, k - 1) + row_text(rows[k - 1])
    }
}

/// The printed board: its rows, a floor of white squares, and the result
/// on a line of its own once there is one.
pub open spec fn board_text(b: Board) -> Seq<char> {
    rows_text(b@, 4) + "\u{2B1C}\u{2B1C}\u{2B1C}\u{2B1C}\u{2B1C}\u{2B1C}\n"@ + match b.result() {
        Some(r) => r + "\n"@,
        None => Seq::empty(),
    }
}

pub open spec fn opt_text(o: Option<String>) -> Option<Seq<char>> {
    match o {
        Some(s) => Some(s@),
        None => None,
    }
}

} // verus!
