//! The board: cells, players, coordinates, and piece counting.

use vstd::prelude::*;

verus! {

/// The two sides of the game.
#[derive(Copy, Clone, PartialEq, Eq, Structural, Debug)]
pub enum Player {
    Black,
    White,
}

/// The side opposing `p`.
pub open spec fn flip_player(p: Player) -> Player {
    match p {
        Player::Black => Player::White,
        Player::White => Player::Black,
    }
}

impl Player {
    /// The opposing side; applying it twice gives the original side back.
    pub fn opposite(self) -> (r: Player)
        ensures
            r == flip_player(self),
            flip_player(r) == self,
    {
        match self {
            Player::Black => Player::White,
            Player::White => Player::Black,
        }
    }
}

/// One cell of the board: its owner, if any, and a `last_move` highlight that
/// marks the cells changed by the most recent placement. The highlight is
/// display metadata only; the rules never read it.
#[derive(Copy, Clone, PartialEq, Eq, Structural, Debug)]
pub struct Spot {
    pub owner: Option<Player>,
    pub last_move: bool,
}

/// An unowned, unhighlighted cell.
pub open spec fn empty_spot() -> Spot {
    Spot { owner: None, last_move: false }
}

impl Spot {
    /// The same cell with its owner switched to the opposing side.
    pub fn get_flip(self) -> (r: Spot)
        ensures
            r.owner == (match self.owner {
                Some(p) => Some(flip_player(p)),
                None => None::<Player>,
            }),
            r.last_move == self.last_move,
    {
        match self.owner {
            Some(p) => Spot { owner: Some(p.opposite()), last_move: self.last_move },
            None => self,
        }
    }

    /// The same cell with the highlight set (occupied cells only).
    pub fn get_true(self) -> (r: Spot)
        ensures
            r.owner == self.owner,
            r.last_move == self.owner is Some,
    {
        Spot { owner: self.owner, last_move: self.owner.is_some() }
    }

    /// The same cell with the highlight cleared.
    pub fn get_false(self) -> (r: Spot)
        ensures
            r.owner == self.owner,
            !r.last_move,
    {
        Spot { owner: self.owner, last_move: false }
    }

    /// The piece drawn for this cell.
    pub fn to_string(self) -> (r: &'static str)
        ensures
            self.owner == Some(Player::Black) ==> r@ == "X"@,
            self.owner == Some(Player::White) ==> r@ == "O"@,
            self.owner is None ==> r@ == " "@,
    {
        match self.owner {
            Some(Player::Black) => "X",
            Some(Player::White) => "O",
            None => " ",
        }
    }

    /// Whether the cell is owned by `p`.
    pub fn owned_by(self, p: Player) -> (r: bool)
        ensures
            r == (self.owner == Some(p)),
    {
        match self.owner {
            Some(q) => q == p,
            None => false,
        }
    }
}

/// A board coordinate: column and row, each in `0..8`.
#[derive(Copy, Clone, PartialEq, Eq, Structural, Debug)]
pub struct Pos {
    pub col: usize,
    pub row: usize,
}

impl Pos {
    /// The coordinate lies on the board.
    pub open spec fn valid(self) -> bool {
        self.col < 8 && self.row < 8
    }
}

/// `v` is a coordinate component on the 8-wide board.
pub open spec fn in_range(v: int) -> bool {
    0 <= v < 8
}

/// Flat index of the cell at column `c`, row `r` (column-major).
pub open spec fn idx_of(c: int, r: int) -> int {
    c * 8 + r
}

/// The cell of grid `g` at column `c`, row `r`.
pub open spec fn spot_at(g: Seq<Spot>, c: int, r: int) -> Spot {
    g[idx_of(c, r)]
}

/// The owner of the cell of grid `g` at column `c`, row `r`.
pub open spec fn owner_at(g: Seq<Spot>, c: int, r: int) -> Option<Player> {
    spot_at(g, c, r).owner
}

/// The 8-by-8 grid of cells, stored column-major.
#[derive(PartialEq, Eq, Debug)]
pub struct Board {
    cells: Vec<Spot>,
}

impl Board {
    /// The cells as a sequence, indexed by `idx_of`.
    pub closed spec fn grid(self) -> Seq<Spot> {
        self.cells@
    }

    /// The board holds exactly 64 cells.
    pub open spec fn wf(self) -> bool {
        self.grid().len() == 64
    }

    /// A board of 64 empty cells.
    pub fn blank() -> (b: Board)
        ensures
            b.wf(),
            forall|k: int| 0 <= k < 64 ==> b.grid()[k] == empty_spot(),
    {
        let mut cells: Vec<Spot> = Vec::new();
        let mut i: usize = 0;
        while i < 64
            invariant
                i <= 64,
                cells@.len() == i,
                forall|k: int| 0 <= k < i ==> cells@[k] == empty_spot(),
            decreases 64 - i,
        {
            cells.push(Spot { owner: None, last_move: false });
            i += 1;
        }
        Board { cells }
    }

    /// The cell at `pos`.
    pub fn get(&self, pos: Pos) -> (s: Spot)
        requires
            self.wf(),
            pos.valid(),
        ensures
            s == spot_at(self.grid(), pos.col as int, pos.row as int),
    {
        self.cells[pos.col * 8 + pos.row]
    }

    /// Replaces the cell at `pos` with `s`.
    pub fn set_spot(&mut self, pos: Pos, s: Spot)
        requires
            old(self).wf(),
            pos.valid(),
        ensures
            final(self).wf(),
            final(self).grid() == old(self).grid().update(
                idx_of(pos.col as int, pos.row as int),
                s,
            ),
    {
        let i = pos.col * 8 + pos.row;
        self.cells.set(i, s);
    }

    /// A copy of the board with every highlight cleared.
    pub fn cleared(&self) -> (b: Board)
        requires
            self.wf(),
        ensures
            b.wf(),
            forall|k: int| 0 <= k < 64 ==> b.grid()[k] == (#[trigger] self.grid()[k]).get_false_spec(),
    {
        let mut cells: Vec<Spot> = Vec::new();
        let mut i: usize = 0;
        while i < 64
            invariant
                self.wf(),
                i <= 64,
                cells@.len() == i,
                forall|k: int| 0 <= k < i ==> cells@[k] == (#[trigger] self.grid()[k]).get_false_spec(),
            decreases 64 - i,
        {
            let s = self.cells[i];
            cells.push(Spot { owner: s.owner, last_move: false });
            i += 1;
        }
        Board { cells }
    }
}

impl Spot {
    /// The same cell with the highlight cleared (specification form).
    pub open spec fn get_false_spec(self) -> Spot {
        Spot { owner: self.owner, last_move: false }
    }
}

/// How many pieces the cell `s` contributes to `p`'s count.
pub open spec fn spot_counts(s: Spot, p: Player) -> int {
    if s.owner == Some(p) {
        1
    } else {
        0
    }
}

/// How many cells of `g` are owned by `p`.
pub open spec fn count_in(g: Seq<Spot>, p: Player) -> int
    decreases g.len(),
{
    if g.len() == 0 {
        0
    } else {
        count_in(g.drop_last(), p) + spot_counts(g.last(), p)
    }
}

/// How many cells of `g` are owned at all.
pub open spec fn occupied_count(g: Seq<Spot>) -> int {
    count_in(g, Player::Black) + count_in(g, Player::White)
}

/// Extending a prefix by one cell adds that cell's contribution.
pub proof fn lemma_count_take_step(g: Seq<Spot>, p: Player, n: int)
    requires
        0 <= n < g.len(),
    ensures
        count_in(g.take(n + 1), p) == count_in(g.take(n), p) + spot_counts(g[n], p),
{
    assert(g.take(n + 1).drop_last() =~= g.take(n));
    assert(g.take(n + 1).last() == g[n]);
}

/// A grid without cells owned by `p` counts zero for `p`.
pub proof fn lemma_count_none(g: Seq<Spot>, p: Player)
    requires
        forall|i: int| 0 <= i < g.len() ==> (#[trigger] g[i]).owner != Some(p),
    ensures
        count_in(g, p) == 0,
    decreases g.len(),
{
    if g.len() > 0 {
        lemma_count_none(g.drop_last(), p);
    }
}

/// Replacing one cell changes the count by the difference of contributions.
pub proof fn lemma_count_update(g: Seq<Spot>, p: Player, j: int, s: Spot)
    requires
        0 <= j < g.len(),
    ensures
        count_in(g.update(j, s), p) == count_in(g, p) - spot_counts(g[j], p) + spot_counts(
            s,
            p,
        ),
    decreases g.len(),
{
    let g2 = g.update(j, s);
    if j == g.len() - 1 {
        assert(g2.drop_last() =~= g.drop_last());
    } else {
        assert(g2.drop_last() =~= g.drop_last().update(j, s));
        lemma_count_update(g.drop_last(), p, j, s);
    }
}

/// The cell a fresh game places at column `c`, row `r`: White in the
/// north-west and south-east centre cells, Black in the other two, all
/// other cells empty.
pub open spec fn starting_spot(c: int, r: int) -> Spot {
    if (c == 3 && r == 3) || (c == 4 && r == 4) {
        Spot { owner: Some(Player::White), last_move: false }
    } else if (c == 3 && r == 4) || (c == 4 && r == 3) {
        Spot { owner: Some(Player::Black), last_move: false }
    } else {
        empty_spot()
    }
}

/// The board a game starts from: exactly two Black and two White pieces in
/// the four centre cells.
pub fn create_board() -> (b: Board)
    ensures
        b.wf(),
        forall|c: int, r: int|
            in_range(c) && in_range(r) ==> #[trigger] spot_at(b.grid(), c, r) == starting_spot(
                c,
                r,
            ),
        count_in(b.grid(), Player::Black) == 2,
        count_in(b.grid(), Player::White) == 2,
{
    let white = Spot { owner: Some(Player::White), last_move: false };
    let black = Spot { owner: Some(Player::Black), last_move: false };
    let mut b = Board::blank();
    let ghost g0 = b.grid();
    b.set_spot(Pos { col: 3, row: 3 }, white);
    let ghost g1 = b.grid();
    b.set_spot(Pos { col: 3, row: 4 }, black);
    let ghost g2 = b.grid();
    b.set_spot(Pos { col: 4, row: 3 }, black);
    let ghost g3 = b.grid();
    b.set_spot(Pos { col: 4, row: 4 }, white);
    let ghost g4 = b.grid();
    proof {
        lemma_count_none(g0, Player::Black);
        lemma_count_none(g0, Player::White);
        lemma_count_update(g0, Player::Black, 27, white);
        lemma_count_update(g0, Player::White, 27, white);
        lemma_count_update(g1, Player::Black, 28, black);
        lemma_count_update(g1, Player::White, 28, black);
        lemma_count_update(g2, Player::Black, 35, black);
        lemma_count_update(g2, Player::White, 35, black);
        lemma_count_update(g3, Player::Black, 36, white);
        lemma_count_update(g3, Player::White, 36, white);
    }
    b
}

/// How many pieces each side owns on `board`: `(Black's, White's)`.
pub fn count_pieces(board: &Board) -> (r: (u32, u32))
    requires
        board.wf(),
    ensures
        r.0 == count_in(board.grid(), Player::Black),
        r.1 == count_in(board.grid(), Player::White),
{
    let mut black: u32 = 0;
    let mut white: u32 = 0;
    let mut i: usize = 0;
    while i < 64
        invariant
            board.wf(),
            i <= 64,
            black == count_in(board.grid().take(i as int), Player::Black),
            white == count_in(board.grid().take(i as int), Player::White),
            black <= i,
            white <= i,
        decreases 64 - i,
    {
        let s = board.cells[i];
        proof {
            lemma_count_take_step(board.grid(), Player::Black, i as int);
            lemma_count_take_step(board.grid(), Player::White, i as int);
        }
        match s.owner {
            Some(Player::Black) => {
                black += 1;
            },
            Some(Player::White) => {
                white += 1;
            },
            None => {},
        }
        i += 1;
    }
    proof {
        assert(board.grid().take(64) =~= board.grid());
    }
    (black, white)
}

} // verus!
