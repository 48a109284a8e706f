//! The automated player: heuristic evaluation of positions and alpha-beta
//! minimax search over the game tree.

use rayon::iter::IntoParallelRefIterator;
use rayon::iter::ParallelIterator;
use vstd::prelude::*;
use crate::board::{
    Board, BoardModel, board_after, cdn_of, disc_count, empty_count, legal_seq,
    spec_legal, spec_winner, lemma_cdn_of_idx, lemma_legal_seq_characterization,
};
use crate::color::Color;

verus! {

/// Scores at or beyond this magnitude stand for a decided game; it dominates
/// every heuristic score produced with ordinary weights.
pub const WIN_SCORE: i128 = 1048576;

/// The six weights that configure the heuristic evaluation.
pub struct Setting {
    /// Weight of the mobility difference.
    pub puttable: i32,
    /// Weight of the corner-occupation difference.
    pub corner: i32,
    /// Penalty weight of the corner-adjacent danger cells.
    pub aroundcorner: i32,
    /// Weight of the non-corner edge cells.
    pub wall: i32,
    /// Weight of the raw disc-count difference in the endgame phase.
    pub all: i32,
    /// Number of empty cells below which scoring switches from positional
    /// heuristics to raw disc counting.
    pub emptynum: usize,
}

impl Setting {
    /// Bundle the six evaluation weights.
    pub fn new(
        puttable: i32,
        corner: i32,
        aroundcorner: i32,
        wall: i32,
        all: i32,
        emptynum: usize,
    ) -> (r: Setting)
        ensures
            r.puttable == puttable,
            r.corner == corner,
            r.aroundcorner == aroundcorner,
            r.wall == wall,
            r.all == all,
            r.emptynum == emptynum,
    {
        Setting { puttable, corner, aroundcorner, wall, all, emptynum }
    }
}

/// The positional classes that the evaluation counts separately.
#[derive(Clone, Copy)]
pub enum CellClass {
    Corner,
    Danger,
    Wall,
}

/// One of the up to four corner cells.
pub open spec fn corner_cell(b: BoardModel, x: int, y: int) -> bool {
    (x == 0 || x == b.width - 1) && (y == 0 || y == b.height - 1)
}

/// A danger cell: orthogonally or diagonally touching a corner without being
/// one (up to twelve cells).
pub open spec fn danger_cell(b: BoardModel, x: int, y: int) -> bool {
    &&& !corner_cell(b, x, y)
    &&& (x <= 1 || x >= b.width - 2)
    &&& (y <= 1 || y >= b.height - 2)
}

/// A wall cell: on the edge of the board, excluding corners and danger cells.
pub open spec fn wall_cell(b: BoardModel, x: int, y: int) -> bool {
    &&& (x == 0 || x == b.width - 1 || y == 0 || y == b.height - 1)
    &&& !corner_cell(b, x, y)
    &&& !danger_cell(b, x, y)
}

/// Whether `(x, y)` belongs to the positional class `cl`.
pub open spec fn in_class(b: BoardModel, cl: CellClass, x: int, y: int) -> bool {
    match cl {
        CellClass::Corner => corner_cell(b, x, y),
        CellClass::Danger => danger_cell(b, x, y),
        CellClass::Wall => wall_cell(b, x, y),
    }
}

/// Number of discs of color `c` on cells of class `cl`, among the cells of
/// index below `k`.
pub open spec fn class_count_upto(b: BoardModel, cl: CellClass, c: Color, k: int) -> nat
    decreases k,
{
    if k <= 0 {
        0
    } else {
        class_count_upto(b, cl, c, k - 1) + if in_class(
            b,
            cl,
            cdn_of(b, k - 1).0 as int,
            cdn_of(b, k - 1).1 as int,
        ) && b.cells[k - 1] == Some(c) {
            1nat
        } else {
            0nat
        }
    }
}

/// Number of discs of color `c` on cells of class `cl`.
pub open spec fn class_count(b: BoardModel, cl: CellClass, c: Color) -> nat {
    class_count_upto(b, cl, c, b.cells.len() as int)
}

/// Number of legal moves of `c`, the mobility of that side.
pub open spec fn mobility(b: BoardModel, c: Color) -> int {
    legal_seq(b, c).len() as int
}

/// The heuristic score of a position, from `player`'s point of view, larger
/// is better. While at least `emptynum` cells are empty the score is
/// positional (mobility, corners, danger cells, walls); with fewer empty
/// cells the danger term is replaced by the raw disc-count difference.
pub open spec fn spec_eval(b: BoardModel, player: Color, cs: Setting) -> int {
    let opp = player.spec_rev();
    let mob = mobility(b, player) - mobility(b, opp);
    let cor = class_count(b, CellClass::Corner, player) - class_count(b, CellClass::Corner, opp);
    let wal = class_count(b, CellClass::Wall, player) - class_count(b, CellClass::Wall, opp);
    if empty_count(b) < cs.emptynum {
        mob * cs.puttable + cor * cs.corner + wal * cs.wall + (disc_count(b, player) - disc_count(
            b,
            opp,
        )) * cs.all
    } else {
        let dan = class_count(b, CellClass::Danger, opp) - class_count(
            b,
            CellClass::Danger,
            player,
        );
        mob * cs.puttable + cor * cs.corner + dan * cs.aroundcorner + wal * cs.wall
    }
}

/// `|a * b| <= aa * bb` when `|a| <= aa` and `|b| <= bb`.
pub proof fn lemma_mul_bound(a: int, b: int, aa: int, bb: int)
    requires
        -aa <= a <= aa,
        -bb <= b <= bb,
        0 <= aa,
        0 <= bb,
    ensures
        -(aa * bb) <= a * b <= aa * bb,
{
    assert(-(aa * bb) <= a * b <= aa * bb) by (nonlinear_arith)
        requires
            -aa <= a <= aa,
            -bb <= b <= bb,
            0 <= aa,
            0 <= bb,
    ;
}

/// Whether `(x, y)` belongs to `cl`, decided executably.
fn is_in_class(board: &Board, cl: CellClass, x: usize, y: usize) -> (r: bool)
    requires
        board.wf(),
        x < board.size.0,
        y < board.size.1,
    ensures
        r == in_class(board@, cl, x as int, y as int),
{
    let w = board.size.0;
    let h = board.size.1;
    let corner = (x == 0 || x == w - 1) && (y == 0 || y == h - 1);
    match cl {
        CellClass::Corner => corner,
        CellClass::Danger => !corner && (x <= 1 || w - x <= 2) && (y <= 1 || h - y <= 2),
        CellClass::Wall => {
            let edge = x == 0 || x == w - 1 || y == 0 || y == h - 1;
            let danger = !corner && (x <= 1 || w - x <= 2) && (y <= 1 || h - y <= 2);
            edge && !corner && !danger
        },
    }
}

/// Count `col`'s discs on cells of class `cl`.
fn count_class(board: &Board, cl: CellClass, col: Color) -> (r: usize)
    requires
        board.wf(),
    ensures
        r == class_count(board@, cl, col),
        r <= board@.cells.len(),
{
    let height = board.size.1;
    let mut cnt: usize = 0;
    let mut i: usize = 0;
    while i < board.colors.len()
        invariant
            board.wf(),
            height == board.size.1,
            i <= board.colors.len(),
            cnt == class_count_upto(board@, cl, col, i as int),
            cnt <= i,
        decreases board.colors.len() - i,
    {
        let x = i / height;
        let y = i % height;
        proof {
            lemma_cdn_of_idx(board@, i as int);
            assert(cdn_of(board@, i as int) == (x, y));
        }
        if board.colors[i].is_some() {
            let is_col = match board.colors[i] {
                Some(c) => c == col,
                None => false,
            };
            if is_col && is_in_class(board, cl, x, y) {
                cnt = cnt + 1;
            }
        }
        i = i + 1;
    }
    cnt
}

/// The value of a branch on which the game is over: a win for the root
/// player dominates everything, a loss is its negation, a draw is zero.
pub open spec fn terminal_value(b: BoardModel, root: Color) -> int {
    match spec_winner(b) {
        Some(w) => if w == root {
            WIN_SCORE as int
        } else {
            -(WIN_SCORE as int)
        },
        None => 0,
    }
}

/// The value that the alpha-beta search assigns to a position with `turn` to
/// move inside the window `(alpha, beta)` and `depth` remaining plies.
/// When neither side can move the branch is decided by `terminal_value`;
/// when only `turn` cannot move, or the depth is exhausted, the position is
/// evaluated statically; otherwise the children are visited in move order,
/// maximizing (and raising `alpha`) when `turn` is the root player,
/// minimizing (and lowering `beta`) otherwise, and the remaining siblings
/// are pruned as soon as the window closes.
pub open spec fn ab_spec(
    b: BoardModel,
    root: Color,
    turn: Color,
    alpha: int,
    beta: int,
    depth: nat,
    cs: Setting,
) -> int
    decreases depth, legal_seq(b, turn).len() + 1,
{
    let moves = legal_seq(b, turn);
    if moves.len() == 0 && legal_seq(b, turn.spec_rev()).len() == 0 {
        terminal_value(b, root)
    } else if moves.len() == 0 || depth == 0 {
        spec_eval(b, root, cs)
    } else if turn == root {
        ab_max(b, root, turn, alpha, beta, (depth - 1) as nat, cs, moves, 0)
    } else {
        ab_min(b, root, turn, alpha, beta, (depth - 1) as nat, cs, moves, 0)
    }
}

/// The maximizing visit of `moves[k..]`: `a` is the best value seen so far
/// (at least the original `alpha`); stop as soon as `a` reaches `beta`.
/// `cdepth` is the children's remaining depth.
pub open spec fn ab_max(
    b: BoardModel,
    root: Color,
    turn: Color,
    a: int,
    beta: int,
    cdepth: nat,
    cs: Setting,
    moves: Seq<(usize, usize)>,
    k: int,
) -> int
    decreases cdepth + 1, moves.len() - k,
{
    if k < 0 || k >= moves.len() {
        a
    } else {
        let v = ab_spec(
            board_after(b, turn, moves[k]),
            root,
            turn.spec_rev(),
            a,
            beta,
            cdepth,
            cs,
        );
        let a2 = if v > a {
            v
        } else {
            a
        };
        if a2 >= beta {
            a2
        } else {
            ab_max(b, root, turn, a2, beta, cdepth, cs, moves, k + 1)
        }
    }
}

/// The minimizing visit of `moves[k..]`: `bt` is the worst value seen so far
/// (at most the original `beta`); stop as soon as `bt` falls to `alpha`.
pub open spec fn ab_min(
    b: BoardModel,
    root: Color,
    turn: Color,
    alpha: int,
    bt: int,
    cdepth: nat,
    cs: Setting,
    moves: Seq<(usize, usize)>,
    k: int,
) -> int
    decreases cdepth + 1, moves.len() - k,
{
    if k < 0 || k >= moves.len() {
        bt
    } else {
        let v = ab_spec(
            board_after(b, turn, moves[k]),
            root,
            turn.spec_rev(),
            alpha,
            bt,
            cdepth,
            cs,
        );
        let b2 = if v < bt {
            v
        } else {
            bt
        };
        if alpha >= b2 {
            b2
        } else {
            ab_min(b, root, turn, alpha, b2, cdepth, cs, moves, k + 1)
        }
    }
}

/// The heuristic score of a position from `player`'s point of view.
pub fn eval(board: &Board, player: &Color, cs: &Setting) -> (r: i128)
    requires
        board.wf(),
    ensures
        r == spec_eval(board@, *player, *cs),
{
    let opp = player.rev();
    let p = board.putable_cdns(player).len();
    let o = board.putable_cdns(&opp).len();
    let cp = count_class(board, CellClass::Corner, *player);
    let co = count_class(board, CellClass::Corner, opp);
    let wp = count_class(board, CellClass::Wall, *player);
    let wo = count_class(board, CellClass::Wall, opp);
    let en = board.count_empty();
    let mob: i128 = p as i128 - o as i128;
    let cor: i128 = cp as i128 - co as i128;
    let wal: i128 = wp as i128 - wo as i128;
    proof {
        lemma_mul_bound(mob as int, cs.puttable as int, 0x1_0000_0000_0000_0000, 0x8000_0000);
        lemma_mul_bound(cor as int, cs.corner as int, 0x1_0000_0000_0000_0000, 0x8000_0000);
        lemma_mul_bound(wal as int, cs.wall as int, 0x1_0000_0000_0000_0000, 0x8000_0000);
    }
    let base: i128 = mob * (cs.puttable as i128) + cor * (cs.corner as i128) + wal * (
    cs.wall as i128);
    if en < cs.emptynum {
        let pn = board.count_color(*player);
        let on = board.count_color(opp);
        let dsc: i128 = pn as i128 - on as i128;
        proof {
            lemma_mul_bound(dsc as int, cs.all as int, 0x1_0000_0000_0000_0000, 0x8000_0000);
        }
        base + dsc * (cs.all as i128)
    } else {
        let ncp = count_class(board, CellClass::Danger, *player);
        let nco = count_class(board, CellClass::Danger, opp);
        let dan: i128 = nco as i128 - ncp as i128;
        proof {
            lemma_mul_bound(dan as int, cs.aroundcorner as int, 0x1_0000_0000_0000_0000, 0x8000_0000);
        }
        base + dan * (cs.aroundcorner as i128)
    }
}

/// The alpha-beta minimax value of the position with `turn` to move, for
/// `player` as the root, inside the window `ev = (alpha, beta)`, exploring
/// `depth` further plies. Equal to `ab_spec` on the same arguments.
pub fn alpha_beta(
    board: &Board,
    player: &Color,
    turn: Color,
    ev: (i128, i128),
    depth: usize,
    cs: &Setting,
) -> (r: i128)
    requires
        board.wf(),
    ensures
        r == ab_spec(board@, *player, turn, ev.0 as int, ev.1 as int, depth as nat, *cs),
    decreases depth,
{
    let putable = board.putable(&turn);
    if !putable && !board.putable(&turn.rev()) {
        match board.winner() {
            Some(w) => {
                if w == *player {
                    WIN_SCORE
                } else {
                    -WIN_SCORE
                }
            },
            None => 0,
        }
    } else if !putable || depth == 0 {
        eval(board, player, cs)
    } else if turn == *player {
        let moves = board.putable_cdns(&turn);
        let ghost answer = ab_spec(
            board@,
            *player,
            turn,
            ev.0 as int,
            ev.1 as int,
            depth as nat,
            *cs,
        );
        let mut a = ev.0;
        let mut k: usize = 0;
        while k < moves.len()
            invariant_except_break
                board.wf(),
                moves@ == legal_seq(board@, turn),
                moves@.len() > 0,
                depth >= 1,
                k <= moves.len(),
                turn == *player,
                ab_max(
                    board@,
                    *player,
                    turn,
                    a as int,
                    ev.1 as int,
                    (depth - 1) as nat,
                    *cs,
                    moves@,
                    k as int,
                ) == answer,
            ensures
                a as int == answer,
            decreases moves.len() - k,
        {
            let cdn = moves[k];
            proof {
                lemma_legal_seq_characterization(board@, turn);
                assert(moves@.contains(cdn));
                assert(spec_legal(board@, turn, cdn));
            }
            let mut child = board.clone();
            let ok = child.put(cdn, &turn);
            proof {
                assert(child@ == board_after(board@, turn, cdn));
            }
            let v = alpha_beta(&child, player, turn.rev(), (a, ev.1), depth - 1, cs);
            let ghost a_old = a as int;
            if v > a {
                a = v;
            }
            proof {
                assert(ab_max(
                    board@,
                    *player,
                    turn,
                    a_old,
                    ev.1 as int,
                    (depth - 1) as nat,
                    *cs,
                    moves@,
                    k as int,
                ) == (if a as int >= ev.1 as int {
                    a as int
                } else {
                    ab_max(
                        board@,
                        *player,
                        turn,
                        a as int,
                        ev.1 as int,
                        (depth - 1) as nat,
                        *cs,
                        moves@,
                        k as int + 1,
                    )
                }));
            }
            if a >= ev.1 {
                break;
            }
            k = k + 1;
        }
        a
    } else {
        let moves = board.putable_cdns(&turn);
        let ghost answer = ab_spec(
            board@,
            *player,
            turn,
            ev.0 as int,
            ev.1 as int,
            depth as nat,
            *cs,
        );
        let mut bt = ev.1;
        let mut k: usize = 0;
        while k < moves.len()
            invariant_except_break
                board.wf(),
                moves@ == legal_seq(board@, turn),
                moves@.len() > 0,
                depth >= 1,
                k <= moves.len(),
                turn != *player,
                ab_min(
                    board@,
                    *player,
                    turn,
                    ev.0 as int,
                    bt as int,
                    (depth - 1) as nat,
                    *cs,
                    moves@,
                    k as int,
                ) == answer,
            ensures
                bt as int == answer,
            decreases moves.len() - k,
        {
            let cdn = moves[k];
            proof {
                lemma_legal_seq_characterization(board@, turn);
                assert(moves@.contains(cdn));
                assert(spec_legal(board@, turn, cdn));
            }
            let mut child = board.clone();
            let ok = child.put(cdn, &turn);
            proof {
                assert(child@ == board_after(board@, turn, cdn));
            }
            let v = alpha_beta(&child, player, turn.rev(), (ev.0, bt), depth - 1, cs);
            let ghost bt_old = bt as int;
            if v < bt {
                bt = v;
            }
            proof {
                assert(ab_min(
                    board@,
                    *player,
                    turn,
                    ev.0 as int,
                    bt_old,
                    (depth - 1) as nat,
                    *cs,
                    moves@,
                    k as int,
                ) == (if ev.0 as int >= bt as int {
                    bt as int
                } else {
                    ab_min(
                        board@,
                        *player,
                        turn,
                        ev.0 as int,
                        bt as int,
                        (depth - 1) as nat,
                        *cs,
                        moves@,
                        k as int + 1,
                    )
                }));
            }
            if ev.0 >= bt {
                break;
            }
            k = k + 1;
        }
        bt
    }
}

/// The plain minimax value of the position, without any pruning: the same
/// recursion as `ab_spec`, but every child is visited.
pub open spec fn game_value(b: BoardModel, root: Color, turn: Color, depth: nat, cs: Setting) -> int
    decreases depth, legal_seq(b, turn).len() + 1,
{
    let moves = legal_seq(b, turn);
    if moves.len() == 0 && legal_seq(b, turn.spec_rev()).len() == 0 {
        terminal_value(b, root)
    } else if moves.len() == 0 || depth == 0 {
        spec_eval(b, root, cs)
    } else if turn == root {
        gv_max(b, root, turn, (depth - 1) as nat, cs, moves, 0)
    } else {
        gv_min(b, root, turn, (depth - 1) as nat, cs, moves, 0)
    }
}

/// The largest minimax value among the children `moves[k..]`.
pub open spec fn gv_max(
    b: BoardModel,
    root: Color,
    turn: Color,
    cdepth: nat,
    cs: Setting,
    moves: Seq<(usize, usize)>,
    k: int,
) -> int
    decreases cdepth + 1, moves.len() - k,
{
    let v = game_value(board_after(b, turn, moves[k]), root, turn.spec_rev(), cdepth, cs);
    if k < 0 || k + 1 >= moves.len() {
        v
    } else {
        let rest = gv_max(b, root, turn, cdepth, cs, moves, k + 1);
        if v >= rest {
            v
        } else {
            rest
        }
    }
}

/// The smallest minimax value among the children `moves[k..]`.
pub open spec fn gv_min(
    b: BoardModel,
    root: Color,
    turn: Color,
    cdepth: nat,
    cs: Setting,
    moves: Seq<(usize, usize)>,
    k: int,
) -> int
    decreases cdepth + 1, moves.len() - k,
{
    let v = game_value(board_after(b, turn, moves[k]), root, turn.spec_rev(), cdepth, cs);
    if k < 0 || k + 1 >= moves.len() {
        v
    } else {
        let rest = gv_min(b, root, turn, cdepth, cs, moves, k + 1);
        if v <= rest {
            v
        } else {
            rest
        }
    }
}

/// Soundness of the pruning at a maximizing node: `ab_max` with best-so-far
/// `a` relates to the true maximum `gv_max` of the remaining children as the
/// fail-hard alpha-beta theorem states.
proof fn lemma_ab_max_sound(
    b: BoardModel,
    root: Color,
    turn: Color,
    a: int,
    beta: int,
    cdepth: nat,
    cs: Setting,
    moves: Seq<(usize, usize)>,
    k: int,
)
    requires
        a < beta,
        0 <= k < moves.len(),
    ensures
        ({
            let m = gv_max(b, root, turn, cdepth, cs, moves, k);
            let r = ab_max(b, root, turn, a, beta, cdepth, cs, moves, k);
            &&& (m <= a ==> r == a)
            &&& (a < m < beta ==> r == m)
            &&& (m >= beta ==> beta <= r <= m)
        }),
    decreases cdepth + 1, moves.len() - k,
{
    let m = gv_max(b, root, turn, cdepth, cs, moves, k);
    let r = ab_max(b, root, turn, a, beta, cdepth, cs, moves, k);
    let child = board_after(b, turn, moves[k]);
    let g = game_value(child, root, turn.spec_rev(), cdepth, cs);
    lemma_ab_sound(child, root, turn.spec_rev(), a, beta, cdepth, cs);
    let rk = ab_spec(child, root, turn.spec_rev(), a, beta, cdepth, cs);
    let a2: int = if rk > a {
        rk
    } else {
        a
    };
    if k + 1 >= moves.len() {
        assert(m == g);
        assert(ab_max(b, root, turn, a2, beta, cdepth, cs, moves, k + 1) == a2);
        assert(r == a2);
        if g <= a {
            assert(g <= rk <= a);
            assert(r == a);
        } else if g < beta {
            assert(rk == g);
        } else {
            assert(beta <= rk <= g);
        }
    } else {
        let mrest = gv_max(b, root, turn, cdepth, cs, moves, k + 1);
        assert(m == (if g >= mrest {
            g
        } else {
            mrest
        }));
        if g <= a {
            assert(g <= rk <= a);
            assert(a2 == a);
            assert(r == ab_max(b, root, turn, a, beta, cdepth, cs, moves, k + 1));
            lemma_ab_max_sound(b, root, turn, a, beta, cdepth, cs, moves, k + 1);
        } else if g < beta {
            assert(rk == g);
            assert(a2 == g);
            assert(r == ab_max(b, root, turn, g, beta, cdepth, cs, moves, k + 1));
            lemma_ab_max_sound(b, root, turn, g, beta, cdepth, cs, moves, k + 1);
        } else {
            assert(beta <= rk <= g);
            assert(a2 == rk);
            assert(r == rk);
            assert(m >= g);
        }
    }
}

/// Soundness of the pruning at a minimizing node, the mirror image of
/// `lemma_ab_max_sound`.
proof fn lemma_ab_min_sound(
    b: BoardModel,
    root: Color,
    turn: Color,
    alpha: int,
    bt: int,
    cdepth: nat,
    cs: Setting,
    moves: Seq<(usize, usize)>,
    k: int,
)
    requires
        alpha < bt,
        0 <= k < moves.len(),
    ensures
        ({
            let m = gv_min(b, root, turn, cdepth, cs, moves, k);
            let r = ab_min(b, root, turn, alpha, bt, cdepth, cs, moves, k);
            &&& (m >= bt ==> r == bt)
            &&& (alpha < m < bt ==> r == m)
            &&& (m <= alpha ==> alpha >= r >= m)
        }),
    decreases cdepth + 1, moves.len() - k,
{
    let m = gv_min(b, root, turn, cdepth, cs, moves, k);
    let r = ab_min(b, root, turn, alpha, bt, cdepth, cs, moves, k);
    let child = board_after(b, turn, moves[k]);
    let g = game_value(child, root, turn.spec_rev(), cdepth, cs);
    lemma_ab_sound(child, root, turn.spec_rev(), alpha, bt, cdepth, cs);
    let rk = ab_spec(child, root, turn.spec_rev(), alpha, bt, cdepth, cs);
    let b2: int = if rk < bt {
        rk
    } else {
        bt
    };
    if k + 1 >= moves.len() {
        assert(m == g);
        assert(ab_min(b, root, turn, alpha, b2, cdepth, cs, moves, k + 1) == b2);
        assert(r == b2);
        if g >= bt {
            assert(bt <= rk <= g);
            assert(r == bt);
        } else if g > alpha {
            assert(rk == g);
        } else {
            assert(g <= rk <= alpha);
        }
    } else {
        let mrest = gv_min(b, root, turn, cdepth, cs, moves, k + 1);
        assert(m == (if g <= mrest {
            g
        } else {
            mrest
        }));
        if g >= bt {
            assert(bt <= rk <= g);
            assert(b2 == bt);
            assert(r == ab_min(b, root, turn, alpha, bt, cdepth, cs, moves, k + 1));
            lemma_ab_min_sound(b, root, turn, alpha, bt, cdepth, cs, moves, k + 1);
        } else if g > alpha {
            assert(rk == g);
            assert(b2 == g);
            assert(r == ab_min(b, root, turn, alpha, g, cdepth, cs, moves, k + 1));
            lemma_ab_min_sound(b, root, turn, alpha, g, cdepth, cs, moves, k + 1);
        } else {
            assert(g <= rk <= alpha);
            assert(b2 == rk);
            assert(r == rk);
            assert(m <= g);
        }
    }
}

/// Alpha-beta pruning is sound: inside the window `(alpha, beta)` the pruned
/// search returns exactly the plain minimax value of the position, and when
/// the true value lies outside the window the result fails on the same side
/// of the window, between the bound and the true value.
pub proof fn lemma_ab_sound(
    b: BoardModel,
    root: Color,
    turn: Color,
    alpha: int,
    beta: int,
    depth: nat,
    cs: Setting,
)
    requires
        alpha < beta,
    ensures
        ({
            let v = game_value(b, root, turn, depth, cs);
            let r = ab_spec(b, root, turn, alpha, beta, depth, cs);
            &&& (v <= alpha ==> v <= r <= alpha)
            &&& (v >= beta ==> beta <= r <= v)
            &&& (alpha < v < beta ==> r == v)
        }),
    decreases depth, legal_seq(b, turn).len() + 1,
{
    let moves = legal_seq(b, turn);
    if moves.len() == 0 && legal_seq(b, turn.spec_rev()).len() == 0 {
    } else if moves.len() == 0 || depth == 0 {
    } else if turn == root {
        lemma_ab_max_sound(b, root, turn, alpha, beta, (depth - 1) as nat, cs, moves, 0);
    } else {
        lemma_ab_min_sound(b, root, turn, alpha, beta, (depth - 1) as nat, cs, moves, 0);
    }
}

/// The depth at which `select` searches each candidate's subtree: one ply
/// fewer than requested, and zero stays zero (a direct static evaluation).
pub open spec fn child_depth(depth: nat) -> nat {
    if depth == 0 {
        0
    } else {
        (depth - 1) as nat
    }
}

/// The value `select` assigns to playing `c`: apply the candidate, then run
/// the alpha-beta search from the opponent's perspective over the full
/// window.
pub open spec fn cand_value(
    b: BoardModel,
    player: Color,
    cdepth: nat,
    cs: Setting,
    c: (usize, usize),
) -> int {
    ab_spec(
        board_after(b, player, c),
        player,
        player.spec_rev(),
        -(WIN_SCORE as int),
        WIN_SCORE as int,
        cdepth,
        cs,
    )
}

/// The running best over `moves[k..]`: a later candidate displaces the
/// current best only with a strictly greater value, so among equal values
/// the first-enumerated coordinate is retained.
pub open spec fn select_best(
    b: BoardModel,
    player: Color,
    cdepth: nat,
    cs: Setting,
    moves: Seq<(usize, usize)>,
    k: int,
    best: (usize, usize),
    best_v: int,
) -> (usize, usize)
    decreases moves.len() - k,
{
    if k < 0 || k >= moves.len() {
        best
    } else {
        let v = cand_value(b, player, cdepth, cs, moves[k]);
        if v > best_v {
            select_best(b, player, cdepth, cs, moves, k + 1, moves[k], v)
        } else {
            select_best(b, player, cdepth, cs, moves, k + 1, best, best_v)
        }
    }
}

/// The move that `select` chooses: `None` when `player` has no legal move,
/// otherwise the first-enumerated legal move whose candidate value is
/// maximal.
pub open spec fn spec_select(
    b: BoardModel,
    player: Color,
    depth: nat,
    cs: Setting,
) -> Option<(usize, usize)> {
    let moves = legal_seq(b, player);
    if moves.len() == 0 {
        None
    } else {
        Some(
            select_best(
                b,
                player,
                child_depth(depth),
                cs,
                moves,
                1,
                moves[0],
                cand_value(b, player, child_depth(depth), cs, moves[0]),
            ),
        )
    }
}

/// The chosen move is always one of the candidates.
pub proof fn lemma_select_best_member(
    b: BoardModel,
    player: Color,
    cdepth: nat,
    cs: Setting,
    moves: Seq<(usize, usize)>,
    k: int,
    best: (usize, usize),
    best_v: int,
)
    requires
        moves.contains(best),
    ensures
        moves.contains(select_best(b, player, cdepth, cs, moves, k, best, best_v)),
    decreases moves.len() - k,
{
    if 0 <= k < moves.len() {
        let v = cand_value(b, player, cdepth, cs, moves[k]);
        if v > best_v {
            assert(moves.contains(moves[k]));
            lemma_select_best_member(b, player, cdepth, cs, moves, k + 1, moves[k], v);
        } else {
            lemma_select_best_member(b, player, cdepth, cs, moves, k + 1, best, best_v);
        }
    }
}

/// `select` never returns a coordinate absent from the legal moves of
/// `player`: whenever it returns a coordinate at all, that coordinate is a
/// legal move on the board it was given.
pub proof fn lemma_select_in_legal_moves(b: BoardModel, player: Color, depth: nat, cs: Setting)
    requires
        b.wf(),
    ensures
        (spec_select(b, player, depth, cs) matches Some(c) ==> legal_seq(b, player).contains(c)
            && spec_legal(b, player, c)),
{
    let moves = legal_seq(b, player);
    if moves.len() > 0 {
        assert(moves.contains(moves[0]));
        lemma_select_best_member(
            b,
            player,
            child_depth(depth),
            cs,
            moves,
            1,
            moves[0],
            cand_value(b, player, child_depth(depth), cs, moves[0]),
        );
        lemma_legal_seq_characterization(b, player);
    }
}

/// For a fixed board, player, weights and depth the chosen move is a pure
/// function of those inputs: two results of `select` on the same inputs are
/// the same coordinate, however the candidate evaluations were scheduled.
pub proof fn lemma_select_deterministic(
    b: BoardModel,
    player: Color,
    depth: nat,
    cs: Setting,
    r1: Option<(usize, usize)>,
    r2: Option<(usize, usize)>,
)
    requires
        r1 == spec_select(b, player, depth, cs),
        r2 == spec_select(b, player, depth, cs),
    ensures
        r1 == r2,
{
}

/// The running best never loses value: the result of `select_best` scores at
/// least the incumbent and at least every remaining candidate.
pub proof fn lemma_select_best_max(
    b: BoardModel,
    player: Color,
    cdepth: nat,
    cs: Setting,
    moves: Seq<(usize, usize)>,
    k: int,
    best: (usize, usize),
    best_v: int,
)
    requires
        0 <= k,
        best_v == cand_value(b, player, cdepth, cs, best),
    ensures
        ({
            let res = select_best(b, player, cdepth, cs, moves, k, best, best_v);
            &&& cand_value(b, player, cdepth, cs, res) >= best_v
            &&& forall|j: int| k <= j < moves.len() ==> cand_value(b, player, cdepth, cs, res)
                >= cand_value(b, player, cdepth, cs, #[trigger] moves[j])
        }),
    decreases moves.len() - k,
{
    if 0 <= k < moves.len() {
        let v = cand_value(b, player, cdepth, cs, moves[k]);
        if v > best_v {
            lemma_select_best_max(b, player, cdepth, cs, moves, k + 1, moves[k], v);
        } else {
            lemma_select_best_max(b, player, cdepth, cs, moves, k + 1, best, best_v);
        }
    }
}

/// What the search achieves: as long as every candidate's true minimax value
/// lies strictly inside the search window, the move that `select` chooses
/// maximizes the plain (pruning-free) minimax value `game_value` over all
/// legal moves. Follows from `lemma_ab_sound`, since inside the window the
/// pruned candidate values coincide with the true ones.
pub proof fn lemma_select_maximizes(b: BoardModel, player: Color, depth: nat, cs: Setting)
    requires
        b.wf(),
        forall|c: (usize, usize)| #[trigger] legal_seq(b, player).contains(c) ==> -(
        WIN_SCORE as int) < game_value(
            board_after(b, player, c),
            player,
            player.spec_rev(),
            child_depth(depth),
            cs,
        ) < WIN_SCORE as int,
    ensures
        (spec_select(b, player, depth, cs) matches Some(c0) ==> forall|c: (usize, usize)|
            #[trigger] legal_seq(b, player).contains(c) ==> game_value(
                board_after(b, player, c0),
                player,
                player.spec_rev(),
                child_depth(depth),
                cs,
            ) >= game_value(
                board_after(b, player, c),
                player,
                player.spec_rev(),
                child_depth(depth),
                cs,
            )),
{
    let moves = legal_seq(b, player);
    let cdepth = child_depth(depth);
    if moves.len() > 0 {
        assert forall|c: (usize, usize)| #[trigger] moves.contains(c) implies cand_value(
            b,
            player,
            cdepth,
            cs,
            c,
        ) == game_value(board_after(b, player, c), player, player.spec_rev(), cdepth, cs) by {
            lemma_ab_sound(
                board_after(b, player, c),
                player,
                player.spec_rev(),
                -(WIN_SCORE as int),
                WIN_SCORE as int,
                cdepth,
                cs,
            );
        }
        let c0 = spec_select(b, player, depth, cs)->0;
        assert(moves.contains(moves[0]));
        lemma_select_best_member(
            b,
            player,
            cdepth,
            cs,
            moves,
            1,
            moves[0],
            cand_value(b, player, cdepth, cs, moves[0]),
        );
        lemma_select_best_max(
            b,
            player,
            cdepth,
            cs,
            moves,
            1,
            moves[0],
            cand_value(b, player, cdepth, cs, moves[0]),
        );
        assert forall|c: (usize, usize)| #[trigger] moves.contains(c) implies game_value(
            board_after(b, player, c0),
            player,
            player.spec_rev(),
            cdepth,
            cs,
        ) >= game_value(board_after(b, player, c), player, player.spec_rev(), cdepth, cs) by {
            let j = choose|j: int| 0 <= j < moves.len() && moves[j] == c;
            if j == 0 {
                assert(cand_value(b, player, cdepth, cs, c0) >= cand_value(
                    b,
                    player,
                    cdepth,
                    cs,
                    moves[0],
                ));
            }
        }
    }
}

/// Relies on rayon's `par_iter().map(..).collect::<Vec<_>>()`: collecting an
/// indexed parallel map yields one result per input, in input order, each
/// produced by the closure from the input at the same position. The closure
/// only calls this library's verified `clone`, `put`, `rev` and `alpha_beta`,
/// whose contracts pin each result to `cand_value` of the candidate.
#[verifier::external_body]
fn par_candidate_values(
    board: &Board,
    player: &Color,
    cdepth: usize,
    cs: &Setting,
    cdns: &Vec<(usize, usize)>,
) -> (r: Vec<i128>)
    requires
        board.wf(),
        forall|k: int| 0 <= k < cdns@.len() ==> spec_legal(board@, *player, #[trigger] cdns@[k]),
    ensures
        r@.len() == cdns@.len(),
        forall|k: int| 0 <= k < cdns@.len() ==> r@[k] == cand_value(
            board@,
            *player,
            cdepth as nat,
            *cs,
            #[trigger] cdns@[k],
        ),
{
    cdns.par_iter().map(|cdn| {
        let mut child = board.clone();
        child.put(*cdn, player);
        alpha_beta(&child, player, player.rev(), (-WIN_SCORE, WIN_SCORE), cdepth, cs)
    }).collect()
}

/// Choose a move for `player`: evaluate every legal move independently (the
/// candidates are explored in parallel on disposable clones) and return the
/// first-enumerated coordinate of maximal value, or `None` when no legal
/// move exists.
pub fn select(player: &Color, board: &Board, depth: usize, cs: &Setting) -> (r: Option<
    (usize, usize),
>)
    requires
        board.wf(),
    ensures
        r == spec_select(board@, *player, depth as nat, *cs),
{
    let cdns = board.putable_cdns(player);
    if cdns.len() == 0 {
        return None;
    }
    let d: usize = if depth == 0 {
        0
    } else {
        depth - 1
    };
    proof {
        lemma_legal_seq_characterization(board@, *player);
        assert(forall|k: int| 0 <= k < cdns@.len() ==> legal_seq(board@, *player).contains(
            #[trigger] cdns@[k],
        ));
    }
    let vals = par_candidate_values(board, player, d, cs, &cdns);
    let mut best = cdns[0];
    let mut best_v = vals[0];
    let ghost answer = select_best(
        board@,
        *player,
        d as nat,
        *cs,
        cdns@,
        1,
        cdns@[0],
        cand_value(board@, *player, d as nat, *cs, cdns@[0]),
    );
    let mut k: usize = 1;
    while k < cdns.len()
        invariant
            1 <= k <= cdns.len(),
            cdns@.len() > 0,
            vals@.len() == cdns@.len(),
            forall|k2: int| 0 <= k2 < cdns@.len() ==> vals@[k2] == cand_value(
                board@,
                *player,
                d as nat,
                *cs,
                #[trigger] cdns@[k2],
            ),
            select_best(board@, *player, d as nat, *cs, cdns@, k as int, best, best_v as int)
                == answer,
        decreases cdns.len() - k,
    {
        let v = vals[k];
        if v > best_v {
            best = cdns[k];
            best_v = v;
        }
        k = k + 1;
    }
    Some(best)
}

} // verus!
