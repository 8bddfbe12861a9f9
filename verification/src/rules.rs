//! Move legality and capture resolution.
//!
//! A move is legal on an empty cell when, in at least one of the eight
//! compass directions, a non-empty run of opponent cells starting right next
//! to the cell is bounded by a cell of the mover. Applying a move places the
//! mover's piece and converts every such bounded run, all directions judged
//! against the board as it stood before the move.

use vstd::prelude::*;

use crate::board::{
    Board, Player, Pos, Spot, count_in, flip_player, idx_of, in_range, lemma_count_take_step,
    occupied_count, owner_at, spot_at,
};

verus! {

/// Column offset of compass direction `d` (directions are numbered 0 to 7).
pub open spec fn dir_dc(d: int) -> int {
    if d == 0 {
        -1
    } else if d == 1 {
        -1
    } else if d == 2 {
        -1
    } else if d == 3 {
        0
    } else if d == 4 {
        0
    } else if d == 5 {
        1
    } else if d == 6 {
        1
    } else {
        1
    }
}

/// Row offset of compass direction `d`.
pub open spec fn dir_dr(d: int) -> int {
    if d == 0 {
        -1
    } else if d == 1 {
        0
    } else if d == 2 {
        1
    } else if d == 3 {
        -1
    } else if d == 4 {
        1
    } else if d == 5 {
        -1
    } else if d == 6 {
        0
    } else {
        1
    }
}

/// Column reached after `i` steps from column `c` in direction `d`.
pub open spec fn ray_col(c: int, d: int, i: int) -> int {
    c + i * dir_dc(d)
}

/// Row reached after `i` steps from row `r` in direction `d`.
pub open spec fn ray_row(r: int, d: int, i: int) -> int {
    r + i * dir_dr(d)
}

/// The cell `i` steps from `(c, r)` in direction `d` is on the board and
/// owned by `q`.
pub open spec fn ray_owned(g: Seq<Spot>, c: int, r: int, d: int, i: int, q: Player) -> bool {
    &&& in_range(ray_col(c, d, i))
    &&& in_range(ray_row(r, d, i))
    &&& owner_at(g, ray_col(c, d, i), ray_row(r, d, i)) == Some(q)
}

/// The first step count at or after `i` whose cell, walking from `(c, r)` in
/// direction `d`, is not an on-board cell of `p`'s opponent.
pub open spec fn run_end(g: Seq<Spot>, c: int, r: int, d: int, p: Player, i: int) -> int
    decreases 8 - i,
{
    if i < 8 && ray_owned(g, c, r, d, i, flip_player(p)) {
        run_end(g, c, r, d, p, i + 1)
    } else {
        i
    }
}

/// Placing `p` at `(c, r)` captures in direction `d`: the adjacent run of
/// opponent cells is non-empty and bounded by a cell of `p`.
pub open spec fn captures(g: Seq<Spot>, c: int, r: int, d: int, p: Player) -> bool {
    let e = run_end(g, c, r, d, p, 1);
    e > 1 && ray_owned(g, c, r, d, e, p)
}

/// Placing `p` at `(c, r)` is a legal move on `g`: the cell is empty and at
/// least one direction captures.
pub open spec fn legal_spec(g: Seq<Spot>, c: int, r: int, p: Player) -> bool {
    &&& owner_at(g, c, r) is None
    &&& exists|d: int| 0 <= d < 8 && #[trigger] captures(g, c, r, d, p)
}

/// One step extends a ray by one direction offset.
proof fn lemma_ray_extend(c: int, r: int, d: int, i: int)
    ensures
        ray_col(c, d, i + 1) == ray_col(c, d, i) + dir_dc(d),
        ray_row(r, d, i + 1) == ray_row(r, d, i) + dir_dr(d),
{
    assert((i + 1) * dir_dc(d) == i * dir_dc(d) + dir_dc(d)) by (nonlinear_arith);
    assert((i + 1) * dir_dr(d) == i * dir_dr(d) + dir_dr(d)) by (nonlinear_arith);
}

/// From an on-board origin, at most 7 steps of a ray stay on the board.
proof fn lemma_ray_in_board(c: int, r: int, d: int, i: int)
    requires
        in_range(c),
        in_range(r),
        0 <= d < 8,
        1 <= i,
        in_range(ray_col(c, d, i)),
        in_range(ray_row(r, d, i)),
    ensures
        i <= 7,
{
    let dc = dir_dc(d);
    let dr = dir_dr(d);
    assert(-1 <= dc <= 1 && -1 <= dr <= 1 && !(dc == 0 && dr == 0));
    assert(i <= 7) by (nonlinear_arith)
        requires
            -1 <= dc <= 1,
            -1 <= dr <= 1,
            !(dc == 0 && dr == 0),
            0 <= c < 8,
            0 <= r < 8,
            1 <= i,
            0 <= c + i * dc < 8,
            0 <= r + i * dr < 8,
    ;
}

/// A ray never returns to its origin.
proof fn lemma_ray_off_origin(c: int, r: int, d: int, i: int)
    requires
        0 <= d < 8,
        1 <= i,
    ensures
        !(ray_col(c, d, i) == c && ray_row(r, d, i) == r),
{
    let dc = dir_dc(d);
    let dr = dir_dr(d);
    assert(-1 <= dc <= 1 && -1 <= dr <= 1 && !(dc == 0 && dr == 0));
    assert(!(c + i * dc == c && r + i * dr == r)) by (nonlinear_arith)
        requires
            !(dc == 0 && dr == 0),
            1 <= i,
    ;
}

/// Every cell strictly inside a run is an on-board opponent cell.
proof fn lemma_run_cells(g: Seq<Spot>, c: int, r: int, d: int, p: Player, i: int, j: int)
    requires
        1 <= i <= j < run_end(g, c, r, d, p, i),
    ensures
        ray_owned(g, c, r, d, j, flip_player(p)),
    decreases j - i,
{
    if j > i {
        lemma_run_cells(g, c, r, d, p, i + 1, j);
    }
}

/// The exec offsets of direction `d`.
fn dir_delta(d: usize) -> (dd: (i8, i8))
    requires
        d < 8,
    ensures
        dd.0 as int == dir_dc(d as int),
        dd.1 as int == dir_dr(d as int),
{
    match d {
        0 => (-1, -1),
        1 => (-1, 0),
        2 => (-1, 1),
        3 => (0, -1),
        4 => (0, 1),
        5 => (1, -1),
        6 => (1, 0),
        _ => (1, 1),
    }
}

/// One step from `pos` in direction `d`, or `None` when it leaves the board.
fn step_dir(pos: Pos, d: usize) -> (r: Option<Pos>)
    requires
        pos.valid(),
        d < 8,
    ensures
        match r {
            Some(q) => q.valid() && q.col as int == pos.col as int + dir_dc(d as int)
                && q.row as int == pos.row as int + dir_dr(d as int),
            None => !(in_range(pos.col as int + dir_dc(d as int)) && in_range(
                pos.row as int + dir_dr(d as int),
            )),
        },
{
    let (dc, dr) = dir_delta(d);
    let nc = pos.col as i16 + dc as i16;
    let nr = pos.row as i16 + dr as i16;
    if 0 <= nc && nc < 8 && 0 <= nr && nr < 8 {
        Some(Pos { col: nc as usize, row: nr as usize })
    } else {
        None
    }
}

/// Walks direction `d` from `pos`: returns whether the direction captures
/// for `p`, and where the adjacent opponent run ends.
fn scan_dir(board: &Board, pos: Pos, d: usize, p: Player) -> (res: (bool, usize))
    requires
        board.wf(),
        pos.valid(),
        d < 8,
    ensures
        res.1 as int == run_end(board.grid(), pos.col as int, pos.row as int, d as int, p, 1),
        res.0 == captures(board.grid(), pos.col as int, pos.row as int, d as int, p),
        1 <= res.1 <= 8,
{
    let ghost g = board.grid();
    let ghost c = pos.col as int;
    let ghost r = pos.row as int;
    let opp = p.opposite();
    let mut dist: usize = 1;
    let mut cur: Option<Pos> = step_dir(pos, d);
    loop
        invariant
            board.wf(),
            pos.valid(),
            d < 8,
            g == board.grid(),
            c == pos.col as int,
            r == pos.row as int,
            opp == flip_player(p),
            1 <= dist <= 8,
            run_end(g, c, r, d as int, p, 1) == run_end(g, c, r, d as int, p, dist as int),
            match cur {
                Some(q) => q.valid() && q.col as int == ray_col(c, d as int, dist as int)
                    && q.row as int == ray_row(r, d as int, dist as int),
                None => !(in_range(ray_col(c, d as int, dist as int)) && in_range(
                    ray_row(r, d as int, dist as int),
                )),
            },
        ensures
            1 <= dist <= 8,
            run_end(g, c, r, d as int, p, 1) == dist as int,
            match cur {
                Some(q) => q.valid() && q.col as int == ray_col(c, d as int, dist as int)
                    && q.row as int == ray_row(r, d as int, dist as int),
                None => !(in_range(ray_col(c, d as int, dist as int)) && in_range(
                    ray_row(r, d as int, dist as int),
                )),
            },
        decreases 8 - dist,
    {
        match cur {
            None => {
                break ;
            },
            Some(q) => {
                let s = board.get(q);
                if !s.owned_by(opp) {
                    break ;
                }
                proof {
                    lemma_ray_in_board(c, r, d as int, dist as int);
                    lemma_ray_extend(c, r, d as int, dist as int);
                }
                let next = step_dir(q, d);
                dist = dist + 1;
                cur = next;
            },
        }
    }
    let found = if dist >= 2 {
        match cur {
            Some(q) => board.get(q).owned_by(p),
            None => false,
        }
    } else {
        false
    };
    (found, dist)
}

/// Whether placing `current_turn` at `pos` is a legal move on `board`.
pub fn is_valid_move(board: &Board, pos: Pos, current_turn: Player) -> (r: bool)
    requires
        board.wf(),
        pos.valid(),
    ensures
        r == legal_spec(board.grid(), pos.col as int, pos.row as int, current_turn),
{
    let s = board.get(pos);
    if s.owner.is_some() {
        return false;
    }
    let mut d: usize = 0;
    while d < 8
        invariant
            board.wf(),
            pos.valid(),
            d <= 8,
            owner_at(board.grid(), pos.col as int, pos.row as int) is None,
            forall|d2: int|
                0 <= d2 < d ==> !#[trigger] captures(
                    board.grid(),
                    pos.col as int,
                    pos.row as int,
                    d2,
                    current_turn,
                ),
        decreases 8 - d,
    {
        let (found, _e) = scan_dir(board, pos, d, current_turn);
        if found {
            return true;
        }
        d += 1;
    }
    false
}

/// `p` has at least one legal move on `g`.
pub open spec fn has_legal_move(g: Seq<Spot>, p: Player) -> bool {
    exists|c: int, r: int| in_range(c) && in_range(r) && #[trigger] legal_spec(g, c, r, p)
}

/// `s` lists exactly `p`'s legal moves on `g`, in ascending column-major
/// order.
pub open spec fn legal_move_list(g: Seq<Spot>, p: Player, s: Seq<Pos>) -> bool {
    &&& forall|k: int|
        0 <= k < s.len() ==> (#[trigger] s[k]).valid() && legal_spec(
            g,
            s[k].col as int,
            s[k].row as int,
            p,
        )
    &&& forall|c: int, r: int|
        in_range(c) && in_range(r) && #[trigger] legal_spec(g, c, r, p) ==> s.contains(
            Pos { col: c as usize, row: r as usize },
        )
    &&& forall|k1: int, k2: int|
        0 <= k1 < k2 < s.len() ==> idx_of(#[trigger] s[k1].col as int, s[k1].row as int) < idx_of(
            #[trigger] s[k2].col as int,
            s[k2].row as int,
        )
}

/// All legal moves of `current_turn` on `board`, scanned column by column.
pub fn find_valid_moves(board: &Board, current_turn: Player) -> (moves: Vec<Pos>)
    requires
        board.wf(),
    ensures
        legal_move_list(board.grid(), current_turn, moves@),
        moves@.len() == 0 <==> !has_legal_move(board.grid(), current_turn),
{
    let ghost g = board.grid();
    let mut moves: Vec<Pos> = Vec::new();
    let mut i: usize = 0;
    while i < 64
        invariant
            board.wf(),
            g == board.grid(),
            i <= 64,
            forall|k: int|
                0 <= k < moves@.len() ==> (#[trigger] moves@[k]).valid() && legal_spec(
                    g,
                    moves@[k].col as int,
                    moves@[k].row as int,
                    current_turn,
                ) && idx_of(moves@[k].col as int, moves@[k].row as int) < i,
            forall|c: int, r: int|
                in_range(c) && in_range(r) && idx_of(c, r) < i && #[trigger] legal_spec(
                    g,
                    c,
                    r,
                    current_turn,
                ) ==> moves@.contains(Pos { col: c as usize, row: r as usize }),
            forall|k1: int, k2: int|
                0 <= k1 < k2 < moves@.len() ==> idx_of(
                    #[trigger] moves@[k1].col as int,
                    moves@[k1].row as int,
                ) < idx_of(#[trigger] moves@[k2].col as int, moves@[k2].row as int),
        decreases 64 - i,
    {
        let pos = Pos { col: i / 8, row: i % 8 };
        let ghost before = moves@;
        if is_valid_move(board, pos, current_turn) {
            moves.push(pos);
            assert forall|c: int, r: int|
                in_range(c) && in_range(r) && idx_of(c, r) < i + 1 && #[trigger] legal_spec(
                    g,
                    c,
                    r,
                    current_turn,
                ) implies moves@.contains(Pos { col: c as usize, row: r as usize }) by {
                let q = Pos { col: c as usize, row: r as usize };
                if idx_of(c, r) < i {
                    let k = choose|k: int| 0 <= k < before.len() && before[k] == q;
                    assert(moves@[k] == q);
                } else {
                    assert(moves@[moves@.len() - 1] == q);
                }
            }
        } else {
            assert forall|c: int, r: int|
                in_range(c) && in_range(r) && idx_of(c, r) < i + 1 && #[trigger] legal_spec(
                    g,
                    c,
                    r,
                    current_turn,
                ) implies moves@.contains(Pos { col: c as usize, row: r as usize }) by {
                if idx_of(c, r) == i {
                    assert(c == i / 8 && r == i % 8);
                    assert(false);
                }
            }
        }
        i += 1;
    }
    proof {
        if moves@.len() > 0 {
            assert(legal_spec(g, moves@[0].col as int, moves@[0].row as int, current_turn));
        }
        if moves@.len() == 0 {
            assert forall|c: int, r: int|
                in_range(c) && in_range(r) implies !#[trigger] legal_spec(
                g,
                c,
                r,
                current_turn,
            ) by {
                if legal_spec(g, c, r, current_turn) {
                    let q = Pos { col: c as usize, row: r as usize };
                    assert(moves@.contains(q));
                }
            }
        }
    }
    moves
}

/// Turns a 64-entry column-major legality mask into the list of marked
/// coordinates, in ascending column-major order.
pub fn valid_moves_to_vec(valid_moves: &Vec<bool>) -> (list: Vec<Pos>)
    requires
        valid_moves@.len() == 64,
    ensures
        forall|k: int|
            0 <= k < list@.len() ==> (#[trigger] list@[k]).valid() && valid_moves@[idx_of(
                list@[k].col as int,
                list@[k].row as int,
            )],
        forall|c: int, r: int|
            in_range(c) && in_range(r) && valid_moves@[#[trigger] idx_of(c, r)] ==> list@.contains(
                Pos { col: c as usize, row: r as usize },
            ),
        forall|k1: int, k2: int|
            0 <= k1 < k2 < list@.len() ==> idx_of(
                #[trigger] list@[k1].col as int,
                list@[k1].row as int,
            ) < idx_of(#[trigger] list@[k2].col as int, list@[k2].row as int),
{
    let mut list: Vec<Pos> = Vec::new();
    let mut i: usize = 0;
    while i < 64
        invariant
            valid_moves@.len() == 64,
            i <= 64,
            forall|k: int|
                0 <= k < list@.len() ==> (#[trigger] list@[k]).valid() && valid_moves@[idx_of(
                    list@[k].col as int,
                    list@[k].row as int,
                )] && idx_of(list@[k].col as int, list@[k].row as int) < i,
            forall|c: int, r: int|
                in_range(c) && in_range(r) && idx_of(c, r) < i && valid_moves@[#[trigger] idx_of(
                    c,
                    r,
                )] ==> list@.contains(Pos { col: c as usize, row: r as usize }),
            forall|k1: int, k2: int|
                0 <= k1 < k2 < list@.len() ==> idx_of(
                    #[trigger] list@[k1].col as int,
                    list@[k1].row as int,
                ) < idx_of(#[trigger] list@[k2].col as int, list@[k2].row as int),
        decreases 64 - i,
    {
        let pos = Pos { col: i / 8, row: i % 8 };
        let ghost before = list@;
        if valid_moves[i] {
            list.push(pos);
            assert forall|c: int, r: int|
                in_range(c) && in_range(r) && idx_of(c, r) < i + 1 && valid_moves@[#[trigger] idx_of(
                    c,
                    r,
                )] implies list@.contains(Pos { col: c as usize, row: r as usize }) by {
                let q = Pos { col: c as usize, row: r as usize };
                if idx_of(c, r) < i {
                    let k = choose|k: int| 0 <= k < before.len() && before[k] == q;
                    assert(list@[k] == q);
                } else {
                    assert(list@[list@.len() - 1] == q);
                }
            }
        } else {
            assert forall|c: int, r: int|
                in_range(c) && in_range(r) && idx_of(c, r) < i + 1 && valid_moves@[#[trigger] idx_of(
                    c,
                    r,
                )] implies list@.contains(Pos { col: c as usize, row: r as usize }) by {
                if idx_of(c, r) == i {
                    assert(c == i / 8 && r == i % 8);
                    assert(false);
                }
            }
        }
        i += 1;
    }
    list
}

/// Whether placing `current_turn` at `pos` is a legal move on `board`.
pub fn valid_move(board: &Board, pos: Pos, current_turn: Player) -> (r: bool)
    requires
        board.wf(),
        pos.valid(),
    ensures
        r == legal_spec(board.grid(), pos.col as int, pos.row as int, current_turn),
{
    is_valid_move(board, pos, current_turn)
}

/// The cell a move leaves behind where it placed or flipped a piece.
pub open spec fn placed_spot(p: Player) -> Spot {
    Spot { owner: Some(p), last_move: true }
}

/// `(tc, tr)` lies strictly inside the opponent run that walking direction
/// `d` from `(c, r)` crosses.
pub open spec fn on_run(g: Seq<Spot>, c: int, r: int, d: int, p: Player, tc: int, tr: int) -> bool {
    exists|j: int|
        1 <= j < run_end(g, c, r, d, p, 1) && tc == #[trigger] ray_col(c, d, j) && tr == ray_row(
            r,
            d,
            j,
        )
}

/// `on_run` restricted to run cells before step `ilim`.
spec fn on_run_upto(
    g: Seq<Spot>,
    c: int,
    r: int,
    d: int,
    p: Player,
    ilim: int,
    tc: int,
    tr: int,
) -> bool
    decreases ilim,
{
    if ilim <= 1 {
        false
    } else {
        on_run_upto(g, c, r, d, p, ilim - 1, tc, tr) || (ilim - 1 < run_end(g, c, r, d, p, 1)
            && tc == ray_col(c, d, ilim - 1) && tr == ray_row(r, d, ilim - 1))
    }
}

/// `(tc, tr)` is captured by the move of `p` at `(c, r)` through one of the
/// directions below `dlim`.
pub open spec fn touched_upto(
    g: Seq<Spot>,
    c: int,
    r: int,
    p: Player,
    dlim: int,
    tc: int,
    tr: int,
) -> bool
    decreases dlim,
{
    if dlim <= 0 {
        false
    } else {
        touched_upto(g, c, r, p, dlim - 1, tc, tr) || (captures(g, c, r, dlim - 1, p) && on_run(
            g,
            c,
            r,
            dlim - 1,
            p,
            tc,
            tr,
        ))
    }
}

/// `(tc, tr)` is one of the cells the move of `p` at `(c, r)` converts.
pub open spec fn flipped(g: Seq<Spot>, c: int, r: int, p: Player, tc: int, tr: int) -> bool {
    touched_upto(g, c, r, p, 8, tc, tr)
}

/// The cell at `(tc, tr)` after `p` moves at `(c, r)`: the placed and the
/// captured cells carry `p` and the highlight, every other cell keeps its
/// owner with the highlight cleared.
pub open spec fn result_spot(
    g: Seq<Spot>,
    c: int,
    r: int,
    p: Player,
    tc: int,
    tr: int,
) -> Spot {
    if tc == c && tr == r {
        placed_spot(p)
    } else if flipped(g, c, r, p, tc, tr) {
        placed_spot(p)
    } else {
        spot_at(g, tc, tr).get_false_spec()
    }
}

/// The whole grid after `p` moves at `(c, r)`.
pub open spec fn place_result(g: Seq<Spot>, c: int, r: int, p: Player) -> Seq<Spot> {
    Seq::new(64, |k: int| result_spot(g, c, r, p, k / 8, k % 8))
}

/// A cell reached before step `ilim` lies inside the run.
proof fn lemma_on_run_upto_sound(
    g: Seq<Spot>,
    c: int,
    r: int,
    d: int,
    p: Player,
    ilim: int,
    tc: int,
    tr: int,
)
    requires
        on_run_upto(g, c, r, d, p, ilim, tc, tr),
    ensures
        on_run(g, c, r, d, p, tc, tr),
    decreases ilim,
{
    if ilim > 1 {
        if on_run_upto(g, c, r, d, p, ilim - 1, tc, tr) {
            lemma_on_run_upto_sound(g, c, r, d, p, ilim - 1, tc, tr);
        } else {
            assert(tc == ray_col(c, d, ilim - 1));
        }
    }
}

/// A run cell at step `j` is reached once `ilim` passes `j`.
proof fn lemma_on_run_upto_complete(
    g: Seq<Spot>,
    c: int,
    r: int,
    d: int,
    p: Player,
    ilim: int,
    tc: int,
    tr: int,
    j: int,
)
    requires
        1 <= j < run_end(g, c, r, d, p, 1),
        j < ilim,
        tc == ray_col(c, d, j),
        tr == ray_row(r, d, j),
    ensures
        on_run_upto(g, c, r, d, p, ilim, tc, tr),
    decreases ilim,
{
    if j < ilim - 1 {
        lemma_on_run_upto_complete(g, c, r, d, p, ilim - 1, tc, tr, j);
    }
}

/// Once `ilim` covers the whole run, `on_run_upto` and `on_run` agree.
proof fn lemma_on_run_upto_equiv(
    g: Seq<Spot>,
    c: int,
    r: int,
    d: int,
    p: Player,
    ilim: int,
    tc: int,
    tr: int,
)
    requires
        ilim >= run_end(g, c, r, d, p, 1),
    ensures
        on_run_upto(g, c, r, d, p, ilim, tc, tr) == on_run(g, c, r, d, p, tc, tr),
{
    if on_run_upto(g, c, r, d, p, ilim, tc, tr) {
        lemma_on_run_upto_sound(g, c, r, d, p, ilim, tc, tr);
    }
    if on_run(g, c, r, d, p, tc, tr) {
        let j = choose|j: int|
            1 <= j < run_end(g, c, r, d, p, 1) && tc == #[trigger] ray_col(c, d, j) && tr
                == ray_row(r, d, j);
        lemma_on_run_upto_complete(g, c, r, d, p, ilim, tc, tr, j);
    }
}

/// The board after `current_turn` plays the legal move `pos`: the piece is
/// placed, every bounded opponent run is converted, and exactly the changed
/// cells carry the `last_move` highlight.
pub fn place_piece(board: &Board, pos: Pos, current_turn: Player) -> (nb: Board)
    requires
        board.wf(),
        pos.valid(),
        legal_spec(board.grid(), pos.col as int, pos.row as int, current_turn),
    ensures
        nb.wf(),
        nb.grid() == place_result(board.grid(), pos.col as int, pos.row as int, current_turn),
{
    let ghost g = board.grid();
    let ghost c = pos.col as int;
    let ghost rr = pos.row as int;
    let p = current_turn;
    let mut nb = board.cleared();
    nb.set_spot(pos, Spot { owner: Some(p), last_move: true });
    proof {
        assert forall|tc: int, tr: int| in_range(tc) && in_range(tr) implies #[trigger] spot_at(
            nb.grid(),
            tc,
            tr,
        ) == (if tc == c && tr == rr {
            placed_spot(p)
        } else if touched_upto(g, c, rr, p, 0, tc, tr) {
            placed_spot(p)
        } else {
            spot_at(g, tc, tr).get_false_spec()
        }) by {
            if idx_of(tc, tr) == idx_of(c, rr) {
                assert(tc == c && tr == rr);
            }
        }
    }
    let mut d: usize = 0;
    while d < 8
        invariant
            board.wf(),
            nb.wf(),
            pos.valid(),
            d <= 8,
            g == board.grid(),
            c == pos.col as int,
            rr == pos.row as int,
            p == current_turn,
            forall|tc: int, tr: int|
                in_range(tc) && in_range(tr) ==> #[trigger] spot_at(nb.grid(), tc, tr) == (
                if tc == c && tr == rr {
                    placed_spot(p)
                } else if touched_upto(g, c, rr, p, d as int, tc, tr) {
                    placed_spot(p)
                } else {
                    spot_at(g, tc, tr).get_false_spec()
                }),
        decreases 8 - d,
    {
        let (found, e) = scan_dir(board, pos, d, p);
        if found {
            let mut i: usize = 1;
            let mut cur: Pos = pos;
            while i < e
                invariant
                    board.wf(),
                    nb.wf(),
                    pos.valid(),
                    d < 8,
                    g == board.grid(),
                    c == pos.col as int,
                    rr == pos.row as int,
                    p == current_turn,
                    captures(g, c, rr, d as int, p),
                    e as int == run_end(g, c, rr, d as int, p, 1),
                    e <= 8,
                    1 <= i <= e,
                    cur.valid(),
                    cur.col as int == ray_col(c, d as int, i - 1),
                    cur.row as int == ray_row(rr, d as int, i - 1),
                    forall|tc: int, tr: int|
                        in_range(tc) && in_range(tr) ==> #[trigger] spot_at(nb.grid(), tc, tr)
                            == (if tc == c && tr == rr {
                            placed_spot(p)
                        } else if touched_upto(g, c, rr, p, d as int, tc, tr) || on_run_upto(
                            g,
                            c,
                            rr,
                            d as int,
                            p,
                            i as int,
                            tc,
                            tr,
                        ) {
                            placed_spot(p)
                        } else {
                            spot_at(g, tc, tr).get_false_spec()
                        }),
                decreases e - i,
            {
                proof {
                    lemma_run_cells(g, c, rr, d as int, p, 1, i as int);
                    lemma_ray_extend(c, rr, d as int, i - 1);
                }
                let next = step_dir(cur, d);
                let q = match next {
                    Some(q) => q,
                    None => {
                        proof {
                            assert(false);
                        }
                        cur
                    },
                };
                let ghost before = nb.grid();
                nb.set_spot(q, Spot { owner: Some(p), last_move: true });
                proof {
                    lemma_ray_off_origin(c, rr, d as int, i as int);
                    let qc = q.col as int;
                    let qr = q.row as int;
                    assert forall|tc: int, tr: int|
                        in_range(tc) && in_range(tr) implies #[trigger] spot_at(nb.grid(), tc, tr)
                        == (if tc == c && tr == rr {
                        placed_spot(p)
                    } else if touched_upto(g, c, rr, p, d as int, tc, tr) || on_run_upto(
                        g,
                        c,
                        rr,
                        d as int,
                        p,
                        i + 1,
                        tc,
                        tr,
                    ) {
                        placed_spot(p)
                    } else {
                        spot_at(g, tc, tr).get_false_spec()
                    }) by {
                        if idx_of(tc, tr) == idx_of(qc, qr) {
                            assert(tc == qc && tr == qr);
                            assert(spot_at(nb.grid(), tc, tr) == placed_spot(p));
                            assert(on_run_upto(g, c, rr, d as int, p, i + 1, tc, tr));
                        } else {
                            assert(!(tc == qc && tr == qr));
                            assert(spot_at(nb.grid(), tc, tr) == spot_at(before, tc, tr));
                        }
                    }
                }
                cur = q;
                i += 1;
            }
            proof {
                assert forall|tc: int, tr: int|
                    in_range(tc) && in_range(tr) implies #[trigger] spot_at(nb.grid(), tc, tr)
                    == (if tc == c && tr == rr {
                    placed_spot(p)
                } else if touched_upto(g, c, rr, p, d as int + 1, tc, tr) {
                    placed_spot(p)
                } else {
                    spot_at(g, tc, tr).get_false_spec()
                }) by {
                    lemma_on_run_upto_equiv(g, c, rr, d as int, p, e as int, tc, tr);
                }
            }
        } else {
            proof {
                assert forall|tc: int, tr: int|
                    in_range(tc) && in_range(tr) implies #[trigger] spot_at(nb.grid(), tc, tr)
                    == (if tc == c && tr == rr {
                    placed_spot(p)
                } else if touched_upto(g, c, rr, p, d as int + 1, tc, tr) {
                    placed_spot(p)
                } else {
                    spot_at(g, tc, tr).get_false_spec()
                }) by {}
            }
        }
        d += 1;
    }
    proof {
        assert forall|k: int| 0 <= k < 64 implies nb.grid()[k] == place_result(g, c, rr, p)[k] by {
            let tc = k / 8;
            let tr = k % 8;
            assert(in_range(tc) && in_range(tr));
            assert(idx_of(tc, tr) == k);
            assert(spot_at(nb.grid(), tc, tr) == result_spot(g, c, rr, p, tc, tr));
        }
        assert(nb.grid() =~= place_result(g, c, rr, p));
    }
    nb
}

/// How many of the flat indices below `n` hold cells flipped by `p`'s move
/// at `(c, r)`.
pub open spec fn flip_count_upto(g: Seq<Spot>, c: int, r: int, p: Player, n: int) -> int
    decreases n,
{
    if n <= 0 {
        0
    } else {
        flip_count_upto(g, c, r, p, n - 1) + (if flipped(g, c, r, p, (n - 1) / 8, (n - 1) % 8) {
            1int
        } else {
            0
        })
    }
}

/// How many cells `p`'s move at `(c, r)` flips.
pub open spec fn flip_count(g: Seq<Spot>, c: int, r: int, p: Player) -> int {
    flip_count_upto(g, c, r, p, 64)
}

/// Every cell a move touches held an opponent piece on the board.
proof fn lemma_touched_is_opponent(
    g: Seq<Spot>,
    c: int,
    r: int,
    p: Player,
    dlim: int,
    tc: int,
    tr: int,
)
    requires
        touched_upto(g, c, r, p, dlim, tc, tr),
    ensures
        in_range(tc),
        in_range(tr),
        owner_at(g, tc, tr) == Some(flip_player(p)),
    decreases dlim,
{
    if dlim > 0 {
        if touched_upto(g, c, r, p, dlim - 1, tc, tr) {
            lemma_touched_is_opponent(g, c, r, p, dlim - 1, tc, tr);
        } else {
            let d = dlim - 1;
            let j = choose|j: int|
                1 <= j < run_end(g, c, r, d, p, 1) && tc == #[trigger] ray_col(c, d, j) && tr
                    == ray_row(r, d, j);
            lemma_run_cells(g, c, r, d, p, 1, j);
        }
    }
}

/// A move never touches the cell it is placed on.
proof fn lemma_origin_not_touched(g: Seq<Spot>, c: int, r: int, p: Player, dlim: int)
    requires
        dlim <= 8,
    ensures
        !touched_upto(g, c, r, p, dlim, c, r),
    decreases dlim,
{
    if dlim > 0 {
        lemma_origin_not_touched(g, c, r, p, dlim - 1);
        let d = dlim - 1;
        if on_run(g, c, r, d, p, c, r) {
            let j = choose|j: int|
                1 <= j < run_end(g, c, r, d, p, 1) && c == #[trigger] ray_col(c, d, j) && r
                    == ray_row(r, d, j);
            lemma_ray_off_origin(c, r, d, j);
        }
    }
}

/// A capturing direction below `dlim` makes its run cells touched.
proof fn lemma_touched_intro(
    g: Seq<Spot>,
    c: int,
    r: int,
    p: Player,
    d: int,
    dlim: int,
    tc: int,
    tr: int,
)
    requires
        0 <= d < dlim,
        captures(g, c, r, d, p),
        on_run(g, c, r, d, p, tc, tr),
    ensures
        touched_upto(g, c, r, p, dlim, tc, tr),
    decreases dlim,
{
    if d < dlim - 1 {
        lemma_touched_intro(g, c, r, p, d, dlim - 1, tc, tr);
    }
}

/// Flip counts never go negative.
proof fn lemma_flip_count_nonneg(g: Seq<Spot>, c: int, r: int, p: Player, n: int)
    ensures
        flip_count_upto(g, c, r, p, n) >= 0,
    decreases n,
{
    if n > 0 {
        lemma_flip_count_nonneg(g, c, r, p, n - 1);
    }
}

/// A flipped cell below `n` makes the flip count positive.
proof fn lemma_flip_count_pos(g: Seq<Spot>, c: int, r: int, p: Player, k: int, n: int)
    requires
        0 <= k < n,
        flipped(g, c, r, p, k / 8, k % 8),
    ensures
        flip_count_upto(g, c, r, p, n) >= 1,
    decreases n,
{
    if k == n - 1 {
        lemma_flip_count_nonneg(g, c, r, p, n - 1);
    } else {
        lemma_flip_count_pos(g, c, r, p, k, n - 1);
    }
}

/// Piece counts over the first `n` cells before and after a move.
proof fn lemma_place_counts_upto(g: Seq<Spot>, c: int, r: int, p: Player, n: int)
    requires
        g.len() == 64,
        in_range(c),
        in_range(r),
        owner_at(g, c, r) is None,
        0 <= n <= 64,
    ensures
        count_in(place_result(g, c, r, p).take(n), p) == count_in(g.take(n), p) + (if idx_of(
            c,
            r,
        ) < n {
            1int
        } else {
            0
        }) + flip_count_upto(g, c, r, p, n),
        count_in(place_result(g, c, r, p).take(n), flip_player(p)) == count_in(
            g.take(n),
            flip_player(p),
        ) - flip_count_upto(g, c, r, p, n),
    decreases n,
{
    let h = place_result(g, c, r, p);
    if n > 0 {
        lemma_place_counts_upto(g, c, r, p, n - 1);
        lemma_count_take_step(h, p, n - 1);
        lemma_count_take_step(h, flip_player(p), n - 1);
        lemma_count_take_step(g, p, n - 1);
        lemma_count_take_step(g, flip_player(p), n - 1);
        let tc = (n - 1) / 8;
        let tr = (n - 1) % 8;
        assert(in_range(tc) && in_range(tr));
        assert(idx_of(tc, tr) == n - 1);
        assert(h[n - 1] == result_spot(g, c, r, p, tc, tr));
        if tc == c && tr == r {
            lemma_origin_not_touched(g, c, r, p, 8);
        } else if flipped(g, c, r, p, tc, tr) {
            lemma_touched_is_opponent(g, c, r, p, 8, tc, tr);
        }
    }
}

/// After a legal move the mover gains the placed piece plus every flipped
/// cell, the opponent loses exactly the flipped cells, at least one cell is
/// flipped, and the number of occupied cells grows by exactly one.
pub proof fn lemma_place_piece_counts(g: Seq<Spot>, c: int, r: int, p: Player)
    requires
        g.len() == 64,
        in_range(c),
        in_range(r),
        legal_spec(g, c, r, p),
    ensures
        count_in(place_result(g, c, r, p), p) == count_in(g, p) + 1 + flip_count(g, c, r, p),
        count_in(place_result(g, c, r, p), flip_player(p)) == count_in(g, flip_player(p))
            - flip_count(g, c, r, p),
        occupied_count(place_result(g, c, r, p)) == occupied_count(g) + 1,
        flip_count(g, c, r, p) >= 1,
{
    lemma_place_counts_upto(g, c, r, p, 64);
    assert(place_result(g, c, r, p).take(64) =~= place_result(g, c, r, p));
    assert(g.take(64) =~= g);
    assert(0 <= idx_of(c, r) < 64);
    let d = choose|d: int| 0 <= d < 8 && #[trigger] captures(g, c, r, d, p);
    lemma_run_cells(g, c, r, d, p, 1, 1);
    let tc = ray_col(c, d, 1);
    let tr = ray_row(r, d, 1);
    assert(tc == ray_col(c, d, 1));
    assert(on_run(g, c, r, d, p, tc, tr));
    lemma_touched_intro(g, c, r, p, d, 8, tc, tr);
    let k = idx_of(tc, tr);
    assert(0 <= k < 64);
    assert(k / 8 == tc && k % 8 == tr);
    lemma_flip_count_pos(g, c, r, p, k, 64);
}

/// Applying a move is deterministic: the resulting grid is a function of the
/// grid, the coordinate and the player alone, so two boards produced by the
/// same move on the same board are equal.
pub proof fn lemma_place_piece_deterministic(
    b1: Board,
    b2: Board,
    g: Seq<Spot>,
    c: int,
    r: int,
    p: Player,
)
    requires
        b1.grid() == place_result(g, c, r, p),
        b2.grid() == place_result(g, c, r, p),
    ensures
        b1.grid() == b2.grid(),
{
}

} // verus!
