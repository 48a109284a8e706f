//! The board: a dense rectangular grid of cells, each empty or holding a
//! disc, together with the move-legality and capture logic.
//!
//! The mathematical model of a board is [`BoardModel`]: a total sequence of
//! `width * height` cells in column-major order (cell `(x, y)` lives at index
//! `x * height + y`), so the mapping from coordinates to cells is total over
//! exactly the rectangle, always.

use vstd::prelude::*;
use vstd::seq_lib::*;
use crate::color::Color;

verus! {

/// The mathematical model of a board: the cell sequence and the dimensions.
pub struct BoardModel {
    pub cells: Seq<Option<Color>>,
    pub width: nat,
    pub height: nat,
}

impl BoardModel {
    /// A board is well formed when it is non-degenerate and its cell
    /// sequence covers the whole rectangle, one entry per coordinate.
    pub open spec fn wf(self) -> bool {
        &&& self.width >= 1
        &&& self.height >= 1
        &&& self.width <= usize::MAX
        &&& self.height <= usize::MAX
        &&& self.cells.len() == self.width * self.height
    }

    /// Index of coordinate `(x, y)` in the cell sequence.
    pub open spec fn idx(self, x: int, y: int) -> int {
        x * self.height + y
    }

    /// Whether `(x, y)` lies on the board.
    pub open spec fn in_range(self, x: int, y: int) -> bool {
        0 <= x < self.width && 0 <= y < self.height
    }

    /// The cell at `(x, y)` (meaningful only when `in_range(x, y)`).
    pub open spec fn at(self, x: int, y: int) -> Option<Color> {
        self.cells[self.idx(x, y)]
    }

    /// The same board with the cell at `(x, y)` replaced by `v`.
    pub open spec fn with_cell(self, x: int, y: int, v: Option<Color>) -> BoardModel {
        BoardModel { cells: self.cells.update(self.idx(x, y), v), ..self }
    }
}

/// Number of cells among the first `k` of `cells` that hold exactly `v`.
pub open spec fn count_opt_upto(cells: Seq<Option<Color>>, v: Option<Color>, k: int) -> nat
    decreases k,
{
    if k <= 0 {
        0
    } else {
        count_opt_upto(cells, v, k - 1) + if cells[k - 1] == v { 1nat } else { 0nat }
    }
}

/// Number of discs of color `c` on the board.
pub open spec fn disc_count(b: BoardModel, c: Color) -> nat {
    count_opt_upto(b.cells, Some(c), b.cells.len() as int)
}

/// Number of empty cells on the board.
pub open spec fn empty_count(b: BoardModel) -> nat {
    count_opt_upto(b.cells, None, b.cells.len() as int)
}

/// The winner of a finished position: the color with strictly more discs,
/// `None` on an exact tie.
pub open spec fn spec_winner(b: BoardModel) -> Option<Color> {
    if disc_count(b, Color::White) > disc_count(b, Color::Black) {
        Some(Color::White)
    } else if disc_count(b, Color::White) < disc_count(b, Color::Black) {
        Some(Color::Black)
    } else {
        None
    }
}

/// The cell that `initial_model` puts at index `i`: the standard four-disc
/// opening around the center, every other cell empty.
pub open spec fn initial_cell(width: nat, height: nat, i: int) -> Option<Color> {
    let x = i / height as int;
    let y = i % height as int;
    if (x == width / 2 - 1 && y == height / 2 - 1) || (x == width / 2 && y == height / 2) {
        Some(Color::White)
    } else if (x == width / 2 - 1 && y == height / 2) || (x == width / 2 && y == height / 2 - 1) {
        Some(Color::Black)
    } else {
        None
    }
}

/// The model of a freshly created `width` by `height` board.
pub open spec fn initial_model(width: nat, height: nat) -> BoardModel {
    BoardModel {
        cells: Seq::new(width * height, |i: int| initial_cell(width, height, i)),
        width,
        height,
    }
}

/// `0 <= x*h + y < w*h` whenever `(x, y)` lies inside the `w` by `h` rectangle.
pub proof fn lemma_idx_in_bounds(x: int, y: int, w: int, h: int)
    requires
        0 <= x < w,
        0 <= y < h,
    ensures
        0 <= x * h + y < w * h,
{
    assert(0 <= x * h + y < w * h) by (nonlinear_arith)
        requires
            0 <= x < w,
            0 <= y < h,
    ;
}

/// How one cell update changes the count of cells equal to `v`.
pub proof fn lemma_count_opt_update(
    cells: Seq<Option<Color>>,
    v: Option<Color>,
    j: int,
    nv: Option<Color>,
    k: int,
)
    requires
        0 <= j < cells.len(),
        k <= cells.len(),
    ensures
        count_opt_upto(cells.update(j, nv), v, k) == count_opt_upto(cells, v, k)
            + (if j < k && nv == v && cells[j] != v { 1int } else { 0int })
            - (if j < k && cells[j] == v && nv != v { 1int } else { 0int }),
    decreases k,
{
    if k > 0 {
        lemma_count_opt_update(cells, v, j, nv, k - 1);
    }
}

/// Every cell is empty, black, or white, so the three counts add up to the
/// number of cells.
pub proof fn lemma_counts_total_upto(cells: Seq<Option<Color>>, k: int)
    requires
        0 <= k <= cells.len(),
    ensures
        count_opt_upto(cells, Some(Color::Black), k) + count_opt_upto(cells, Some(Color::White), k)
            + count_opt_upto(cells, None, k) == k,
    decreases k,
{
    if k > 0 {
        lemma_counts_total_upto(cells, k - 1);
        let c = cells[k - 1];
        assert(c is None || c == Some(Color::Black) || c == Some(Color::White));
    }
}

/// `discCount(Black) + discCount(White) + emptyCount()` always equals the
/// number of cells of the board, `width * height`.
pub proof fn lemma_counts_total(b: BoardModel)
    requires
        b.wf(),
    ensures
        disc_count(b, Color::Black) + disc_count(b, Color::White) + empty_count(b)
            == b.width * b.height,
{
    lemma_counts_total_upto(b.cells, b.cells.len() as int);
}

/// The eight direction vectors used by the capture scan.
pub open spec fn is_dir(dx: int, dy: int) -> bool {
    -1 <= dx <= 1 && -1 <= dy <= 1 && !(dx == 0 && dy == 0)
}

/// Whether the cell `j` steps from `(cx, cy)` along `(dx, dy)` is on the board.
pub open spec fn ray_in_range(b: BoardModel, cx: int, cy: int, dx: int, dy: int, j: int) -> bool {
    b.in_range(cx + j * dx, cy + j * dy)
}

/// The cell `j` steps from `(cx, cy)` along `(dx, dy)`.
pub open spec fn on_ray(b: BoardModel, cx: int, cy: int, dx: int, dy: int, j: int) -> Option<
    Color,
> {
    b.at(cx + j * dx, cy + j * dy)
}

/// The cell `j` steps out holds a disc of `player`'s opponent.
pub open spec fn ray_opp(
    b: BoardModel,
    player: Color,
    cx: int,
    cy: int,
    dx: int,
    dy: int,
    j: int,
) -> bool {
    ray_in_range(b, cx, cy, dx, dy, j) && on_ray(b, cx, cy, dx, dy, j) == Some(player.spec_rev())
}

/// A bracket of length `n` along `(dx, dy)`: the `n` cells nearest to
/// `(cx, cy)` in that direction all hold the opponent, and the cell just
/// beyond them holds `player`'s own color. For a fixed board and direction at
/// most one `n` satisfies this.
pub open spec fn bracket(
    b: BoardModel,
    player: Color,
    cx: int,
    cy: int,
    dx: int,
    dy: int,
    n: int,
) -> bool {
    &&& n >= 1
    &&& forall|j: int| 1 <= j <= n ==> #[trigger] ray_opp(b, player, cx, cy, dx, dy, j)
    &&& ray_in_range(b, cx, cy, dx, dy, n + 1)
    &&& on_ray(b, cx, cy, dx, dy, n + 1) == Some(player)
}

/// The cell `i` steps out along `(dx, dy)` is inside some bracket, hence
/// would be flipped by a move of `player` at `(cx, cy)`.
pub open spec fn captured_via(
    b: BoardModel,
    player: Color,
    cx: int,
    cy: int,
    dx: int,
    dy: int,
    i: int,
) -> bool {
    exists|n: int| #[trigger] bracket(b, player, cx, cy, dx, dy, n) && 1 <= i <= n
}

/// `(x, y)` lies inside a bracket of some direction around `(cx, cy)`.
pub open spec fn spec_captured(
    b: BoardModel,
    player: Color,
    cx: int,
    cy: int,
    x: int,
    y: int,
) -> bool {
    exists|dx: int, dy: int, i: int|
        is_dir(dx, dy) && #[trigger] captured_via(b, player, cx, cy, dx, dy, i) && x == cx + i * dx
            && y == cy + i * dy
}

/// Some direction around `(cx, cy)` holds a bracket for `player`.
pub open spec fn spec_has_capture(b: BoardModel, player: Color, cx: int, cy: int) -> bool {
    exists|dx: int, dy: int, i: int|
        is_dir(dx, dy) && #[trigger] captured_via(b, player, cx, cy, dx, dy, i)
}

/// A move of `player` at `cdn` would flip the disc at `c`: the target cell is
/// an empty cell of the board and `c` lies inside a bracket around it.
pub open spec fn captures(
    b: BoardModel,
    player: Color,
    cdn: (usize, usize),
    c: (usize, usize),
) -> bool {
    &&& b.in_range(cdn.0 as int, cdn.1 as int)
    &&& b.at(cdn.0 as int, cdn.1 as int) is None
    &&& spec_captured(b, player, cdn.0 as int, cdn.1 as int, c.0 as int, c.1 as int)
}

/// The set of coordinates that a move of `player` at `cdn` would flip;
/// empty when the target cell is occupied or off the board.
pub open spec fn captured_set(b: BoardModel, player: Color, cdn: (usize, usize)) -> Set<
    (usize, usize),
> {
    Set::new(|c: (usize, usize)| captures(b, player, cdn, c))
}

/// A cell of `player`'s opponent adjacent to `(x, y)` in direction `(dx, dy)`.
pub open spec fn neighbor_opp(
    b: BoardModel,
    player: Color,
    x: int,
    y: int,
    dx: int,
    dy: int,
) -> bool {
    b.in_range(x + dx, y + dy) && b.at(x + dx, y + dy) == Some(player.spec_rev())
}

/// Whether any of the up to eight neighbors of `(x, y)` holds the opponent.
pub open spec fn has_opponent_neighbor(b: BoardModel, player: Color, x: int, y: int) -> bool {
    exists|dx: int, dy: int| is_dir(dx, dy) && #[trigger] neighbor_opp(b, player, x, y, dx, dy)
}

/// A legal move for `player`: an empty cell of the board whose occupation
/// would flip at least one opposing disc.
pub open spec fn spec_legal(b: BoardModel, player: Color, cdn: (usize, usize)) -> bool {
    &&& b.in_range(cdn.0 as int, cdn.1 as int)
    &&& b.at(cdn.0 as int, cdn.1 as int) is None
    &&& spec_has_capture(b, player, cdn.0 as int, cdn.1 as int)
}

/// The coordinate stored at index `i` of the cell sequence.
pub open spec fn cdn_of(b: BoardModel, i: int) -> (usize, usize) {
    ((i / b.height as int) as usize, (i % b.height as int) as usize)
}

/// The coordinate `i` steps from `(cx, cy)` along `(dx, dy)`, as it appears
/// in executable code.
pub open spec fn ray_cdn(cx: int, cy: int, dx: int, dy: int, i: int) -> (usize, usize) {
    ((cx + i * dx) as usize, (cy + i * dy) as usize)
}

/// The legal moves of `player` among the cells of index below `k`, in index
/// order (that is, in lexicographic coordinate order).
pub open spec fn legal_seq_upto(b: BoardModel, player: Color, k: int) -> Seq<(usize, usize)>
    decreases k,
{
    if k <= 0 {
        Seq::empty()
    } else if spec_legal(b, player, cdn_of(b, k - 1)) {
        legal_seq_upto(b, player, k - 1).push(cdn_of(b, k - 1))
    } else {
        legal_seq_upto(b, player, k - 1)
    }
}

/// All legal moves of `player`, in lexicographic coordinate order.
pub open spec fn legal_seq(b: BoardModel, player: Color) -> Seq<(usize, usize)> {
    legal_seq_upto(b, player, b.cells.len() as int)
}

/// The game is over for `player` to move: the board is full, or neither side
/// has a legal move.
pub open spec fn spec_finished(b: BoardModel, player: Color) -> bool {
    empty_count(b) == 0 || (legal_seq(b, player).len() == 0 && legal_seq(
        b,
        player.spec_rev(),
    ).len() == 0)
}

/// The board after `player` moves at `cdn`: the target cell and every
/// captured cell hold `player`'s color, every other cell is unchanged.
pub open spec fn board_after(b: BoardModel, player: Color, cdn: (usize, usize)) -> BoardModel {
    BoardModel {
        cells: Seq::new(
            b.cells.len(),
            |i: int|
                if i == b.idx(cdn.0 as int, cdn.1 as int) || captures(b, player, cdn, cdn_of(b, i)) {
                    Some(player)
                } else {
                    b.cells[i]
                },
        ),
        ..b
    }
}

/// All indices touched by `put` lie inside the cell sequence.
pub open spec fn caps_in_bounds(
    b: BoardModel,
    cdn: (usize, usize),
    caps: Seq<(usize, usize)>,
) -> bool {
    &&& 0 <= b.idx(cdn.0 as int, cdn.1 as int) < b.cells.len()
    &&& forall|k2: int| 0 <= k2 < caps.len() ==> 0 <= b.idx(
        #[trigger] caps[k2].0 as int,
        caps[k2].1 as int,
    ) < b.cells.len()
}

/// The cell sequence during `put`, after the placement at `cdn` and the
/// flips of the first `k` captured coordinates.
pub open spec fn cells_after_upto(
    b: BoardModel,
    player: Color,
    cdn: (usize, usize),
    caps: Seq<(usize, usize)>,
    k: int,
) -> Seq<Option<Color>>
    decreases k,
{
    if k <= 0 {
        b.cells.update(b.idx(cdn.0 as int, cdn.1 as int), Some(player))
    } else {
        cells_after_upto(b, player, cdn, caps, k - 1).update(
            b.idx(caps[k - 1].0 as int, caps[k - 1].1 as int),
            Some(player),
        )
    }
}

/// Placement and flips do not change the length of the cell sequence.
pub proof fn lemma_cells_after_upto_len(
    b: BoardModel,
    player: Color,
    cdn: (usize, usize),
    caps: Seq<(usize, usize)>,
    k: int,
)
    requires
        caps_in_bounds(b, cdn, caps),
        k <= caps.len(),
    ensures
        cells_after_upto(b, player, cdn, caps, k).len() == b.cells.len(),
    decreases k,
{
    if k > 0 {
        lemma_cells_after_upto_len(b, player, cdn, caps, k - 1);
    }
}

/// The target cell holds `player`'s disc from the placement on.
pub proof fn lemma_cells_after_upto_target(
    b: BoardModel,
    player: Color,
    cdn: (usize, usize),
    caps: Seq<(usize, usize)>,
    k: int,
)
    requires
        caps_in_bounds(b, cdn, caps),
        k <= caps.len(),
    ensures
        cells_after_upto(b, player, cdn, caps, k)[b.idx(cdn.0 as int, cdn.1 as int)] == Some(
            player,
        ),
    decreases k,
{
    if k > 0 {
        lemma_cells_after_upto_target(b, player, cdn, caps, k - 1);
        lemma_cells_after_upto_len(b, player, cdn, caps, k - 1);
    }
}

/// A flipped cell holds `player`'s disc from its flip on.
pub proof fn lemma_cells_after_upto_set(
    b: BoardModel,
    player: Color,
    cdn: (usize, usize),
    caps: Seq<(usize, usize)>,
    k: int,
    k2: int,
)
    requires
        caps_in_bounds(b, cdn, caps),
        0 <= k2 < k <= caps.len(),
    ensures
        cells_after_upto(b, player, cdn, caps, k)[b.idx(caps[k2].0 as int, caps[k2].1 as int)]
            == Some(player),
    decreases k,
{
    lemma_cells_after_upto_len(b, player, cdn, caps, k - 1);
    if k2 < k - 1 {
        lemma_cells_after_upto_set(b, player, cdn, caps, k - 1, k2);
    }
}

/// A cell that is neither the target nor one of the first `k` captured
/// coordinates still holds its original content.
pub proof fn lemma_cells_after_upto_untouched(
    b: BoardModel,
    player: Color,
    cdn: (usize, usize),
    caps: Seq<(usize, usize)>,
    k: int,
    j: int,
)
    requires
        caps_in_bounds(b, cdn, caps),
        k <= caps.len(),
        0 <= j < b.cells.len(),
        j != b.idx(cdn.0 as int, cdn.1 as int),
        forall|k2: int| 0 <= k2 < k ==> b.idx(#[trigger] caps[k2].0 as int, caps[k2].1 as int)
            != j,
    ensures
        cells_after_upto(b, player, cdn, caps, k)[j] == b.cells[j],
    decreases k,
{
    if k > 0 {
        lemma_cells_after_upto_untouched(b, player, cdn, caps, k - 1, j);
        lemma_cells_after_upto_len(b, player, cdn, caps, k - 1);
    }
}

/// Distinct in-range coordinates have distinct indices in the cell sequence.
pub proof fn lemma_idx_injective(b: BoardModel, x1: int, y1: int, x2: int, y2: int)
    requires
        b.in_range(x1, y1),
        b.in_range(x2, y2),
        b.idx(x1, y1) == b.idx(x2, y2),
    ensures
        x1 == x2 && y1 == y2,
{
    assert(x1 == x2 && y1 == y2) by (nonlinear_arith)
        requires
            0 <= y1 < b.height,
            0 <= y2 < b.height,
            x1 * b.height + y1 == x2 * b.height + y2,
    ;
}

/// `cdn_of` is a two-sided inverse of `idx` on the board's rectangle.
pub proof fn lemma_cdn_of_idx(b: BoardModel, i: int)
    requires
        b.wf(),
        0 <= i < b.cells.len(),
    ensures
        b.in_range(cdn_of(b, i).0 as int, cdn_of(b, i).1 as int),
        b.idx(cdn_of(b, i).0 as int, cdn_of(b, i).1 as int) == i,
{
    let h = b.height as int;
    let w = b.width as int;
    vstd::arithmetic::div_mod::lemma_fundamental_div_mod(i, h);
    assert(0 <= i % h < h) by (nonlinear_arith)
        requires
            h > 0,
            0 <= i,
    ;
    assert(0 <= i / h < w) by (nonlinear_arith)
        requires
            h > 0,
            0 <= i < w * h,
            i == h * (i / h) + i % h,
            0 <= i % h < h,
    ;
    let x = cdn_of(b, i).0 as int;
    let y = cdn_of(b, i).1 as int;
    assert(x == i / h && y == i % h);
    assert(x * h + y == i) by (nonlinear_arith)
        requires
            x == i / h,
            y == i % h,
            i == h * (i / h) + i % h,
    ;
}

/// Round trip the other way: the coordinate of a cell's index is the cell's
/// coordinate.
pub proof fn lemma_idx_cdn_of(b: BoardModel, x: int, y: int)
    requires
        b.wf(),
        b.in_range(x, y),
    ensures
        0 <= b.idx(x, y) < b.cells.len(),
        cdn_of(b, b.idx(x, y)) == (x as usize, y as usize),
{
    lemma_idx_in_bounds(x, y, b.width as int, b.height as int);
    let i = b.idx(x, y);
    lemma_cdn_of_idx(b, i);
    lemma_idx_injective(b, cdn_of(b, i).0 as int, cdn_of(b, i).1 as int, x, y);
}

/// What holds of every captured cell: it is on the board, it holds the
/// opponent's disc, and it is not the target cell itself.
pub proof fn lemma_captured_cell_facts(
    b: BoardModel,
    player: Color,
    cdn: (usize, usize),
    c: (usize, usize),
)
    requires
        b.wf(),
        captures(b, player, cdn, c),
    ensures
        b.in_range(c.0 as int, c.1 as int),
        b.at(c.0 as int, c.1 as int) == Some(player.spec_rev()),
        c != cdn,
        b.idx(c.0 as int, c.1 as int) != b.idx(cdn.0 as int, cdn.1 as int),
{
    let cx = cdn.0 as int;
    let cy = cdn.1 as int;
    let (dx, dy, i) = choose|dx: int, dy: int, i: int|
        is_dir(dx, dy) && #[trigger] captured_via(b, player, cx, cy, dx, dy, i) && c.0 as int == cx
            + i * dx && c.1 as int == cy + i * dy;
    let n = choose|n: int| #[trigger] bracket(b, player, cx, cy, dx, dy, n) && 1 <= i <= n;
    assert(ray_opp(b, player, cx, cy, dx, dy, i));
    assert(c.0 as int != cx || c.1 as int != cy) by (nonlinear_arith)
        requires
            is_dir(dx, dy),
            i >= 1,
            c.0 as int == cx + i * dx,
            c.1 as int == cy + i * dy,
    ;
    if b.idx(c.0 as int, c.1 as int) == b.idx(cx, cy) {
        lemma_idx_injective(b, c.0 as int, c.1 as int, cx, cy);
    }
}

/// A cell with a capture has an opposing neighbor (the first cell of the
/// bracket), so the cheap neighbor pre-filter never discards a legal move.
pub proof fn lemma_capture_needs_neighbor(b: BoardModel, player: Color, cx: int, cy: int)
    requires
        spec_has_capture(b, player, cx, cy),
    ensures
        has_opponent_neighbor(b, player, cx, cy),
{
    let (dx, dy, i) = choose|dx: int, dy: int, i: int|
        is_dir(dx, dy) && #[trigger] captured_via(b, player, cx, cy, dx, dy, i);
    let n = choose|n: int| #[trigger] bracket(b, player, cx, cy, dx, dy, n) && 1 <= i <= n;
    assert(ray_opp(b, player, cx, cy, dx, dy, 1));
    assert(neighbor_opp(b, player, cx, cy, dx, dy));
}

/// The position of a direction vector in the scan order of `rev_cdns`.
pub open spec fn dir_index(dx: int, dy: int) -> int {
    if dx == -1 && dy == -1 {
        0
    } else if dx == 0 && dy == -1 {
        1
    } else if dx == 1 && dy == -1 {
        2
    } else if dx == -1 && dy == 0 {
        3
    } else if dx == 1 && dy == 0 {
        4
    } else if dx == -1 && dy == 1 {
        5
    } else if dx == 0 && dy == 1 {
        6
    } else {
        7
    }
}

/// Inside a bracket every cell holds the opponent; in particular the cell `i`
/// steps out is an in-range opponent cell.
pub proof fn lemma_captured_via_cell(
    b: BoardModel,
    player: Color,
    cx: int,
    cy: int,
    dx: int,
    dy: int,
    i: int,
)
    requires
        captured_via(b, player, cx, cy, dx, dy, i),
    ensures
        ray_opp(b, player, cx, cy, dx, dy, i),
{
    let n = choose|n: int| #[trigger] bracket(b, player, cx, cy, dx, dy, n) && 1 <= i <= n;
    assert(ray_opp(b, player, cx, cy, dx, dy, i));
}

/// A cell with a bracket around `(cdn)` yields at least one captured cell
/// (the nearest cell of the bracket).
pub proof fn lemma_capture_gives_captured_cell(b: BoardModel, player: Color, cdn: (usize, usize))
    requires
        b.wf(),
        b.in_range(cdn.0 as int, cdn.1 as int),
        b.at(cdn.0 as int, cdn.1 as int) is None,
        spec_has_capture(b, player, cdn.0 as int, cdn.1 as int),
    ensures
        exists|c: (usize, usize)| #[trigger] captures(b, player, cdn, c),
{
    let cx = cdn.0 as int;
    let cy = cdn.1 as int;
    let (dx, dy, i) = choose|dx: int, dy: int, i: int|
        is_dir(dx, dy) && #[trigger] captured_via(b, player, cx, cy, dx, dy, i);
    lemma_captured_via_cell(b, player, cx, cy, dx, dy, i);
    let c = ray_cdn(cx, cy, dx, dy, i);
    assert(is_dir(dx, dy) && captured_via(b, player, cx, cy, dx, dy, i) && c.0 as int == cx + i
        * dx && c.1 as int == cy + i * dy);
    assert(spec_captured(b, player, cx, cy, c.0 as int, c.1 as int));
    assert(captures(b, player, cdn, c));
}

/// Conversely, a captured cell witnesses a bracket.
pub proof fn lemma_captured_cell_gives_capture(
    b: BoardModel,
    player: Color,
    cdn: (usize, usize),
    c: (usize, usize),
)
    requires
        captures(b, player, cdn, c),
    ensures
        spec_has_capture(b, player, cdn.0 as int, cdn.1 as int),
        spec_legal(b, player, cdn),
{
    let cx = cdn.0 as int;
    let cy = cdn.1 as int;
    let (dx, dy, i) = choose|dx: int, dy: int, i: int|
        is_dir(dx, dy) && #[trigger] captured_via(b, player, cx, cy, dx, dy, i) && c.0 as int == cx
            + i * dx && c.1 as int == cy + i * dy;
    assert(is_dir(dx, dy) && captured_via(b, player, cx, cy, dx, dy, i));
}

/// Which coordinates the prefix `legal_seq_upto(b, player, k)` holds: exactly
/// the legal moves whose cell index lies below `k`.
pub proof fn lemma_legal_seq_upto_char(b: BoardModel, player: Color, k: int)
    requires
        b.wf(),
        0 <= k <= b.cells.len(),
    ensures
        forall|c: (usize, usize)| #[trigger] legal_seq_upto(b, player, k).contains(c)
            <==> (spec_legal(b, player, c) && b.idx(c.0 as int, c.1 as int) < k),
    decreases k,
{
    if k == 0 {
        assert forall|c: (usize, usize)| #[trigger] legal_seq_upto(b, player, 0).contains(c)
            implies false by {
            let j = choose|j: int|
                0 <= j < legal_seq_upto(b, player, 0).len() && legal_seq_upto(b, player, 0)[j]
                    == c;
        }
        assert forall|c: (usize, usize)| spec_legal(b, player, c) implies b.idx(
            c.0 as int,
            c.1 as int,
        ) >= 0 by {
            lemma_idx_in_bounds(c.0 as int, c.1 as int, b.width as int, b.height as int);
        }
    } else {
        lemma_legal_seq_upto_char(b, player, k - 1);
        let prev = legal_seq_upto(b, player, k - 1);
        let cur = legal_seq_upto(b, player, k);
        let kc = cdn_of(b, k - 1);
        lemma_cdn_of_idx(b, k - 1);
        assert forall|c: (usize, usize)| #[trigger] cur.contains(c) implies (spec_legal(
            b,
            player,
            c,
        ) && b.idx(c.0 as int, c.1 as int) < k) by {
            let j = choose|j: int| 0 <= j < cur.len() && cur[j] == c;
            if spec_legal(b, player, kc) {
                if j < prev.len() {
                    assert(prev[j] == c);
                    assert(prev.contains(c));
                } else {
                    assert(c == kc);
                }
            } else {
                assert(prev[j] == c);
                assert(prev.contains(c));
            }
        }
        assert forall|c: (usize, usize)| (spec_legal(b, player, c) && b.idx(
            c.0 as int,
            c.1 as int,
        ) < k) implies #[trigger] cur.contains(c) by {
            if b.idx(c.0 as int, c.1 as int) < k - 1 {
                assert(prev.contains(c));
                let j = choose|j: int| 0 <= j < prev.len() && prev[j] == c;
                if spec_legal(b, player, kc) {
                    assert(cur[j] == c);
                } else {
                    assert(cur[j] == c);
                }
            } else {
                lemma_idx_cdn_of(b, c.0 as int, c.1 as int);
                assert(b.idx(c.0 as int, c.1 as int) == k - 1);
                assert(c == kc);
                assert(cur[cur.len() - 1] == c);
            }
        }
    }
}

/// A coordinate stands in `legal_seq` exactly when it is a legal move.
pub proof fn lemma_legal_seq_characterization(b: BoardModel, player: Color)
    requires
        b.wf(),
    ensures
        forall|c: (usize, usize)| #[trigger] legal_seq(b, player).contains(c) <==> spec_legal(
            b,
            player,
            c,
        ),
{
    lemma_legal_seq_upto_char(b, player, b.cells.len() as int);
    assert forall|c: (usize, usize)| spec_legal(b, player, c) implies b.idx(
        c.0 as int,
        c.1 as int,
    ) < b.cells.len() by {
        lemma_idx_in_bounds(c.0 as int, c.1 as int, b.width as int, b.height as int);
    }
}

/// Every coordinate in `legal_seq(player)` is an empty cell of the board.
pub proof fn lemma_legal_moves_are_empty(b: BoardModel, player: Color)
    requires
        b.wf(),
    ensures
        forall|c: (usize, usize)| #[trigger] legal_seq(b, player).contains(c) ==> b.in_range(
            c.0 as int,
            c.1 as int,
        ) && b.at(c.0 as int, c.1 as int) is None,
{
    lemma_legal_seq_characterization(b, player);
}

/// When the opponent run from `(cx, cy)` along `(dx, dy)` ends without a
/// same-color terminator (board edge, empty cell, or an own disc right next
/// to the start), no bracket exists in that direction.
pub proof fn lemma_no_bracket(
    b: BoardModel,
    player: Color,
    cx: int,
    cy: int,
    dx: int,
    dy: int,
    m: int,
)
    requires
        m >= 0,
        forall|j: int| 1 <= j <= m ==> #[trigger] ray_opp(b, player, cx, cy, dx, dy, j),
        !ray_opp(b, player, cx, cy, dx, dy, m + 1),
        m == 0 || !(ray_in_range(b, cx, cy, dx, dy, m + 1) && on_ray(b, cx, cy, dx, dy, m + 1)
            == Some(player)),
    ensures
        forall|i: int| !captured_via(b, player, cx, cy, dx, dy, i),
{
    assert forall|i: int| !captured_via(b, player, cx, cy, dx, dy, i) by {
        if captured_via(b, player, cx, cy, dx, dy, i) {
            let n = choose|n: int|
                #[trigger] bracket(b, player, cx, cy, dx, dy, n) && 1 <= i <= n;
            assert(player.spec_rev() != player);
            if n + 1 <= m {
                assert(ray_opp(b, player, cx, cy, dx, dy, n + 1));
            } else if n == m {
                assert(n >= 1);
            } else {
                assert(ray_opp(b, player, cx, cy, dx, dy, m + 1));
            }
            assert(false);
        }
    }
}

/// The board: dimensions fixed at construction and one cell per coordinate,
/// stored densely in column-major order.
pub struct Board {
    pub colors: Vec<Option<Color>>,
    pub size: (usize, usize),
}

impl View for Board {
    type V = BoardModel;

    open spec fn view(&self) -> BoardModel {
        BoardModel {
            cells: self.colors@,
            width: self.size.0 as nat,
            height: self.size.1 as nat,
        }
    }
}

impl Clone for Board {
    /// A clone has exactly the same model as the original.
    fn clone(&self) -> (res: Self)
        ensures
            res@ == self@,
    {
        let mut cells: Vec<Option<Color>> = Vec::new();
        let mut i: usize = 0;
        while i < self.colors.len()
            invariant
                i <= self.colors.len(),
                cells@ =~= self.colors@.take(i as int),
            decreases self.colors.len() - i,
        {
            cells.push(self.colors[i]);
            i = i + 1;
        }
        proof {
            assert(cells@ =~= self.colors@);
        }
        Board { colors: cells, size: self.size }
    }
}

impl Board {
    /// The well-formedness invariant: the cell vector covers the whole
    /// rectangle. Established by `new` and preserved by every method.
    pub open spec fn wf(&self) -> bool {
        self@.wf()
    }

    /// Position of coordinate `(x, y)` in the cell vector.
    fn index(&self, x: usize, y: usize) -> (r: usize)
        requires
            self.wf(),
            x < self.size.0,
            y < self.size.1,
        ensures
            r == self@.idx(x as int, y as int),
            r < self.colors.len(),
    {
        proof {
            assert(self.colors.len() == self.colors@.len());
            lemma_idx_in_bounds(x as int, y as int, self.size.0 as int, self.size.1 as int);
        }
        x * self.size.1 + y
    }

    /// A new board with the standard four-disc opening: on the center 2 by 2
    /// block, one diagonal is White and the other is Black.
    pub fn new(size: (usize, usize)) -> (r: Board)
        requires
            size.0 >= 2,
            size.1 >= 2,
            size.0 * size.1 <= usize::MAX,
        ensures
            r@ == initial_model(size.0 as nat, size.1 as nat),
            r.wf(),
            r.size == size,
    {
        let (width, height) = size;
        let n = width * height;
        let mut colors: Vec<Option<Color>> = Vec::new();
        let mut i: usize = 0;
        while i < n
            invariant
                i <= n,
                n == width * height,
                width >= 2,
                height >= 2,
                colors@.len() == i as int,
                forall|j: int| 0 <= j < i as int
                    ==> colors@[j] == initial_cell(width as nat, height as nat, j),
            decreases n - i,
        {
            let x = i / height;
            let y = i % height;
            let cell: Option<Color> = if (x == width / 2 - 1 && y == height / 2 - 1)
                || (x == width / 2 && y == height / 2) {
                Some(Color::White)
            } else if (x == width / 2 - 1 && y == height / 2)
                || (x == width / 2 && y == height / 2 - 1) {
                Some(Color::Black)
            } else {
                None
            };
            colors.push(cell);
            i = i + 1;
        }
        let r = Board { colors, size };
        proof {
            assert(r@.cells =~= initial_model(width as nat, height as nat).cells);
            assert(r@ == initial_model(width as nat, height as nat));
        }
        r
    }

    /// The cell at a coordinate: `None` if empty, `Some(color)` if occupied.
    pub fn color_at(&self, cdn: (usize, usize)) -> (r: Option<Color>)
        requires
            self.wf(),
            cdn.0 < self.size.0,
            cdn.1 < self.size.1,
        ensures
            r == self@.at(cdn.0 as int, cdn.1 as int),
    {
        let i = self.index(cdn.0, cdn.1);
        self.colors[i]
    }

    /// Flip the disc at a coordinate to the opposite color; a no-op on an
    /// empty or out-of-range coordinate.
    pub fn rev(&mut self, cdn: (usize, usize))
        requires
            old(self).wf(),
        ensures
            final(self).wf(),
            final(self).size == old(self).size,
            ({
                let x = cdn.0 as int;
                let y = cdn.1 as int;
                if old(self)@.in_range(x, y) && old(self)@.at(x, y) is Some {
                    final(self)@ == old(self)@.with_cell(
                        x,
                        y,
                        Some(old(self)@.at(x, y)->0.spec_rev()),
                    )
                } else {
                    final(self)@ == old(self)@
                }
            }),
    {
        if cdn.0 < self.size.0 && cdn.1 < self.size.1 {
            let i = self.index(cdn.0, cdn.1);
            match self.colors[i] {
                Some(c) => {
                    self.colors.set(i, Some(c.rev()));
                },
                None => {},
            }
        }
    }

    /// The neighbor of `(x, y)` one step along `(dx, dy)`, or `None` when
    /// that step leaves the board.
    fn step_dir(&self, x: usize, y: usize, dx: i8, dy: i8) -> (r: Option<(usize, usize)>)
        requires
            self.wf(),
            x < self.size.0,
            y < self.size.1,
            -1 <= dx <= 1,
            -1 <= dy <= 1,
        ensures
            r is Some <==> self@.in_range(x + dx as int, y + dy as int),
            (r matches Some(p) ==> p.0 as int == x + dx as int && p.1 as int == y + dy as int),
    {
        let nx_opt: Option<usize> = if dx < 0 {
            if x == 0 {
                None
            } else {
                Some(x - 1)
            }
        } else if dx > 0 {
            if x + 1 < self.size.0 {
                Some(x + 1)
            } else {
                None
            }
        } else {
            Some(x)
        };
        let ny_opt: Option<usize> = if dy < 0 {
            if y == 0 {
                None
            } else {
                Some(y - 1)
            }
        } else if dy > 0 {
            if y + 1 < self.size.1 {
                Some(y + 1)
            } else {
                None
            }
        } else {
            Some(y)
        };
        match (nx_opt, ny_opt) {
            (Some(nx), Some(ny)) => Some((nx, ny)),
            _ => None,
        }
    }

    /// Whether any of the up to eight neighbors of `cdn` holds a disc of
    /// `player`'s opponent.
    pub fn exist_nextto(&self, cdn: (usize, usize), player: &Color) -> (r: bool)
        requires
            self.wf(),
            cdn.0 < self.size.0,
            cdn.1 < self.size.1,
        ensures
            r == has_opponent_neighbor(self@, *player, cdn.0 as int, cdn.1 as int),
    {
        let dirs: Vec<(i8, i8)> = vec![
            (-1, -1),
            (0, -1),
            (1, -1),
            (-1, 0),
            (1, 0),
            (-1, 1),
            (0, 1),
            (1, 1),
        ];
        let opp = player.rev();
        let mut d: usize = 0;
        while d < dirs.len()
            invariant
                self.wf(),
                cdn.0 < self.size.0,
                cdn.1 < self.size.1,
                opp == player.spec_rev(),
                d <= dirs.len(),
                dirs.len() == 8,
                dirs@ =~= seq![
                    (-1i8, -1i8),
                    (0i8, -1i8),
                    (1i8, -1i8),
                    (-1i8, 0i8),
                    (1i8, 0i8),
                    (-1i8, 1i8),
                    (0i8, 1i8),
                    (1i8, 1i8),
                ],
                forall|k: int| #![trigger dirs@[k]] 0 <= k < d as int
                    ==> !neighbor_opp(
                        self@,
                        *player,
                        cdn.0 as int,
                        cdn.1 as int,
                        dirs@[k].0 as int,
                        dirs@[k].1 as int,
                    ),
            decreases dirs.len() - d,
        {
            let (dx, dy) = dirs[d];
            match self.step_dir(cdn.0, cdn.1, dx, dy) {
                Some((nx, ny)) => {
                    let i = self.index(nx, ny);
                    match self.colors[i] {
                        Some(c) => {
                            if c == opp {
                                proof {
                                    assert(neighbor_opp(
                                        self@,
                                        *player,
                                        cdn.0 as int,
                                        cdn.1 as int,
                                        dirs@[d as int].0 as int,
                                        dirs@[d as int].1 as int,
                                    ));
                                    assert(is_dir(dirs@[d as int].0 as int, dirs@[d as int].1 as int));
                                }
                                return true;
                            }
                        },
                        None => {},
                    }
                },
                None => {},
            }
            d = d + 1;
        }
        proof {
            assert forall|dx: int, dy: int| is_dir(dx, dy) implies !neighbor_opp(
                self@,
                *player,
                cdn.0 as int,
                cdn.1 as int,
                dx,
                dy,
            ) by {
                let k: int = if dx == -1 && dy == -1 {
                    0
                } else if dx == 0 && dy == -1 {
                    1
                } else if dx == 1 && dy == -1 {
                    2
                } else if dx == -1 && dy == 0 {
                    3
                } else if dx == 1 && dy == 0 {
                    4
                } else if dx == -1 && dy == 1 {
                    5
                } else if dx == 0 && dy == 1 {
                    6
                } else {
                    7
                };
                assert(dirs@[k].0 as int == dx && dirs@[k].1 as int == dy);
            }
        }
        false
    }

    /// Scan one direction from `cdn` for `player`: walk outward over the
    /// maximal run of opponent discs; if an own disc terminates the run, the
    /// run is the capture of this direction, otherwise nothing is captured.
        fn scan_dir(&self, cdn: (usize, usize), player: &Color, dx: i8, dy: i8) -> (seg: Vec<
        (usize, usize),
    >)
        requires
            self.wf(),
            cdn.0 < self.size.0,
            cdn.1 < self.size.1,
            self@.at(cdn.0 as int, cdn.1 as int) is None,
            -1 <= dx <= 1,
            -1 <= dy <= 1,
            !(dx == 0 && dy == 0),
        ensures
            forall|k: int| 0 <= k < seg@.len() ==> captured_via(
                self@,
                *player,
                cdn.0 as int,
                cdn.1 as int,
                dx as int,
                dy as int,
                k + 1,
            ) && #[trigger] seg@[k] == ray_cdn(cdn.0 as int, cdn.1 as int, dx as int, dy as int, k + 1),
            forall|i: int| #[trigger] captured_via(
                self@,
                *player,
                cdn.0 as int,
                cdn.1 as int,
                dx as int,
                dy as int,
                i,
            ) ==> 1 <= i <= seg@.len(),
    {
        let opp = player.rev();
        let mut seg: Vec<(usize, usize)> = Vec::new();
        let mut x = cdn.0;
        let mut y = cdn.1;
        loop
            invariant
                self.wf(),
                cdn.0 < self.size.0,
                cdn.1 < self.size.1,
                self@.at(cdn.0 as int, cdn.1 as int) is None,
                -1 <= dx <= 1,
                -1 <= dy <= 1,
                !(dx == 0 && dy == 0),
                opp == player.spec_rev(),
                x as int == cdn.0 + seg@.len() * (dx as int),
                y as int == cdn.1 + seg@.len() * (dy as int),
                self@.in_range(x as int, y as int),
                forall|j: int| 1 <= j <= seg@.len() ==> #[trigger] ray_opp(
                    self@,
                    *player,
                    cdn.0 as int,
                    cdn.1 as int,
                    dx as int,
                    dy as int,
                    j,
                ),
                forall|k: int| 0 <= k < seg@.len() ==> #[trigger] seg@[k] == ray_cdn(
                    cdn.0 as int,
                    cdn.1 as int,
                    dx as int,
                    dy as int,
                    k + 1,
                ),
            decreases (if dx > 0 {
                self.size.0 - x
            } else {
                x as int
            }) + (if dy > 0 {
                self.size.1 - y
            } else {
                y as int
            }),
        {
            let ghost m = seg@.len() as int;
            proof {
                assert((m + 1) * (dx as int) == m * (dx as int) + dx as int) by (nonlinear_arith);
                assert((m + 1) * (dy as int) == m * (dy as int) + dy as int) by (nonlinear_arith);
            }
            match self.step_dir(x, y, dx, dy) {
                None => {
                    proof {
                        lemma_no_bracket(
                            self@,
                            *player,
                            cdn.0 as int,
                            cdn.1 as int,
                            dx as int,
                            dy as int,
                            m,
                        );
                    }
                    return Vec::new();
                },
                Some((nx, ny)) => {
                    let ci = self.index(nx, ny);
                    match self.colors[ci] {
                        None => {
                            proof {
                                lemma_no_bracket(
                                    self@,
                                    *player,
                                    cdn.0 as int,
                                    cdn.1 as int,
                                    dx as int,
                                    dy as int,
                                    m,
                                );
                            }
                            return Vec::new();
                        },
                        Some(c) => {
                            if c == opp {
                                seg.push((nx, ny));
                                x = nx;
                                y = ny;
                            } else {
                                proof {
                                    assert(c == *player);
                                    assert(on_ray(
                                        self@,
                                        cdn.0 as int,
                                        cdn.1 as int,
                                        dx as int,
                                        dy as int,
                                        m + 1,
                                    ) == Some(*player));
                                }
                                if seg.len() > 0 {
                                    proof {
                                        assert(bracket(
                                            self@,
                                            *player,
                                            cdn.0 as int,
                                            cdn.1 as int,
                                            dx as int,
                                            dy as int,
                                            m,
                                        ));
                                        assert forall|i: int| #[trigger] captured_via(
                                            self@,
                                            *player,
                                            cdn.0 as int,
                                            cdn.1 as int,
                                            dx as int,
                                            dy as int,
                                            i,
                                        ) implies 1 <= i <= m by {
                                            let n = choose|n: int|
                                                #[trigger] bracket(
                                                    self@,
                                                    *player,
                                                    cdn.0 as int,
                                                    cdn.1 as int,
                                                    dx as int,
                                                    dy as int,
                                                    n,
                                                ) && 1 <= i <= n;
                                            assert(player.spec_rev() != *player);
                                            if n < m {
                                                assert(ray_opp(
                                                    self@,
                                                    *player,
                                                    cdn.0 as int,
                                                    cdn.1 as int,
                                                    dx as int,
                                                    dy as int,
                                                    n + 1,
                                                ));
                                            } else if n > m {
                                                assert(ray_opp(
                                                    self@,
                                                    *player,
                                                    cdn.0 as int,
                                                    cdn.1 as int,
                                                    dx as int,
                                                    dy as int,
                                                    m + 1,
                                                ));
                                            }
                                        }
                                    }
                                    return seg;
                                } else {
                                    proof {
                                        assert(player.spec_rev() != *player);
                                        lemma_no_bracket(
                                            self@,
                                            *player,
                                            cdn.0 as int,
                                            cdn.1 as int,
                                            dx as int,
                                            dy as int,
                                            0,
                                        );
                                    }
                                    return Vec::new();
                                }
                            }
                        },
                    }
                },
            }
        }
    }

    /// Whether `v` already holds the coordinate `c`.
    fn contains_cdn(v: &Vec<(usize, usize)>, c: (usize, usize)) -> (r: bool)
        ensures
            r == v@.contains(c),
    {
        let mut i: usize = 0;
        while i < v.len()
            invariant
                i <= v.len(),
                forall|k: int| 0 <= k < i as int ==> v@[k] != c,
            decreases v.len() - i,
        {
            let e = v[i];
            if e.0 == c.0 && e.1 == c.1 {
                proof {
                    assert(v@[i as int] == c);
                }
                return true;
            }
            i = i + 1;
        }
        proof {
            if v@.contains(c) {
                let k = choose|k: int| 0 <= k < v@.len() && v@[k] == c;
                assert(false);
            }
        }
        false
    }

    /// The set of coordinates that a move of `player` at `cdn` would flip:
    /// the union over the eight directions of the bracketed opponent runs.
    /// Empty when `cdn` is occupied or off the board.
    pub fn rev_cdns(&self, cdn: (usize, usize), player: &Color) -> (r: Vec<(usize, usize)>)
        requires
            self.wf(),
        ensures
            r@.no_duplicates(),
            forall|k: int| 0 <= k < r@.len() ==> captures(self@, *player, cdn, #[trigger] r@[k]),
            forall|c: (usize, usize)| #[trigger] captures(self@, *player, cdn, c)
                ==> r@.contains(c),
    {
        let mut r: Vec<(usize, usize)> = Vec::new();
        if !(cdn.0 < self.size.0 && cdn.1 < self.size.1) {
            return r;
        }
        let ti = self.index(cdn.0, cdn.1);
        if self.colors[ti].is_some() {
            return r;
        }
        let dirs: Vec<(i8, i8)> = vec![
            (-1, -1),
            (0, -1),
            (1, -1),
            (-1, 0),
            (1, 0),
            (-1, 1),
            (0, 1),
            (1, 1),
        ];
        let mut d: usize = 0;
        while d < dirs.len()
            invariant
                self.wf(),
                cdn.0 < self.size.0,
                cdn.1 < self.size.1,
                self@.at(cdn.0 as int, cdn.1 as int) is None,
                d <= dirs.len(),
                dirs.len() == 8,
                dirs@ =~= seq![
                    (-1i8, -1i8),
                    (0i8, -1i8),
                    (1i8, -1i8),
                    (-1i8, 0i8),
                    (1i8, 0i8),
                    (-1i8, 1i8),
                    (0i8, 1i8),
                    (1i8, 1i8),
                ],
                r@.no_duplicates(),
                forall|k: int| 0 <= k < r@.len() ==> captures(self@, *player, cdn, #[trigger] r@[k]),
                forall|dx: int, dy: int, i: int|
                    is_dir(dx, dy) && dir_index(dx, dy) < d as int && #[trigger] captured_via(
                        self@,
                        *player,
                        cdn.0 as int,
                        cdn.1 as int,
                        dx,
                        dy,
                        i,
                    ) ==> r@.contains(ray_cdn(cdn.0 as int, cdn.1 as int, dx, dy, i)),
            decreases dirs.len() - d,
        {
            let (dx, dy) = dirs[d];
            let seg = self.scan_dir(cdn, player, dx, dy);
            proof {
                assert(dir_index(dx as int, dy as int) == d as int);
                assert forall|k2: int| 0 <= k2 < seg@.len() implies #[trigger] captured_via(
                    self@, *player, cdn.0 as int, cdn.1 as int, dx as int, dy as int, k2 + 1,
                ) by {
                    assert(seg@[k2] == ray_cdn(cdn.0 as int, cdn.1 as int, dx as int, dy as int, k2 + 1));
                }
            }
            let ghost r_before = r@;
            let mut k: usize = 0;
            while k < seg.len()
                invariant
                    self.wf(),
                    cdn.0 < self.size.0,
                    cdn.1 < self.size.1,
                    self@.at(cdn.0 as int, cdn.1 as int) is None,
                    k <= seg.len(),
                    -1 <= dx <= 1,
                    -1 <= dy <= 1,
                    !(dx == 0 && dy == 0),
                    forall|k2: int| 0 <= k2 < seg@.len() ==> #[trigger] seg@[k2] == ray_cdn(
                        cdn.0 as int,
                        cdn.1 as int,
                        dx as int,
                        dy as int,
                        k2 + 1,
                    ),
                    forall|k2: int| 0 <= k2 < seg@.len() ==> #[trigger] captured_via(
                        self@,
                        *player,
                        cdn.0 as int,
                        cdn.1 as int,
                        dx as int,
                        dy as int,
                        k2 + 1,
                    ),
                    r@.no_duplicates(),
                    forall|k2: int| 0 <= k2 < r@.len() ==> captures(
                        self@,
                        *player,
                        cdn,
                        #[trigger] r@[k2],
                    ),
                    forall|k2: int| 0 <= k2 < k as int ==> r@.contains(#[trigger] seg@[k2]),
                    forall|c: (usize, usize)| r_before.contains(c) ==> r@.contains(c),
                decreases seg.len() - k,
            {
                let e = seg[k];
                proof {
                    lemma_captured_via_cell(
                        self@,
                        *player,
                        cdn.0 as int,
                        cdn.1 as int,
                        dx as int,
                        dy as int,
                        k as int + 1,
                    );
                    assert(ray_opp(
                        self@, *player, cdn.0 as int, cdn.1 as int, dx as int, dy as int,
                        k as int + 1,
                    ));
                    assert(spec_captured(
                        self@, *player, cdn.0 as int, cdn.1 as int, e.0 as int, e.1 as int,
                    )) by {
                        assert(is_dir(dx as int, dy as int) && captured_via(
                            self@, *player, cdn.0 as int, cdn.1 as int, dx as int, dy as int,
                            k as int + 1,
                        ) && e.0 as int == cdn.0 as int + (k as int + 1) * (dx as int)
                            && e.1 as int == cdn.1 as int + (k as int + 1) * (dy as int));
                    }
                    assert(captures(self@, *player, cdn, e));
                }
                let ghost r_mid = r@;
                if !Self::contains_cdn(&r, e) {
                    r.push(e);
                    proof {
                        assert forall|c: (usize, usize)| r_mid.contains(c) implies r@.contains(
                            c,
                        ) by {
                            let j = choose|j: int| 0 <= j < r_mid.len() && r_mid[j] == c;
                            assert(r@[j] == c);
                        }
                        assert(r@.contains(e)) by {
                            assert(r@[r@.len() - 1] == e);
                        }
                    }
                }
                k = k + 1;
            }
            proof {
                assert forall|dx2: int, dy2: int, i: int|
                    is_dir(dx2, dy2) && dir_index(dx2, dy2) < d as int + 1 && #[trigger] captured_via(
                        self@,
                        *player,
                        cdn.0 as int,
                        cdn.1 as int,
                        dx2,
                        dy2,
                        i,
                    ) implies r@.contains(ray_cdn(cdn.0 as int, cdn.1 as int, dx2, dy2, i)) by {
                    if dir_index(dx2, dy2) == d as int {
                        assert(dx2 == dx as int && dy2 == dy as int);
                        assert(1 <= i <= seg@.len());
                        assert(r@.contains(seg@[i - 1]));
                    }
                }
            }
            d = d + 1;
        }
        proof {
            assert forall|c: (usize, usize)| #[trigger] captures(self@, *player, cdn, c)
                implies r@.contains(c) by {
                let cx = cdn.0 as int;
                let cy = cdn.1 as int;
                let (dx, dy, i) = choose|dx: int, dy: int, i: int|
                    is_dir(dx, dy) && #[trigger] captured_via(self@, *player, cx, cy, dx, dy, i)
                        && c.0 as int == cx + i * dx && c.1 as int == cy + i * dy;
                lemma_captured_via_cell(self@, *player, cx, cy, dx, dy, i);
                assert(dir_index(dx, dy) < 8);
                assert(r@.contains(ray_cdn(cx, cy, dx, dy, i)));
                assert(ray_cdn(cx, cy, dx, dy, i) == c);
            }
        }
        r
    }

    /// All legal moves of `player`, in lexicographic coordinate order: the
    /// empty cells with an opposing neighbor (a cheap necessary pre-filter)
    /// whose capture set is non-empty.
    pub fn putable_cdns(&self, player: &Color) -> (r: Vec<(usize, usize)>)
        requires
            self.wf(),
        ensures
            r@ == legal_seq(self@, *player),
    {
        let mut r: Vec<(usize, usize)> = Vec::new();
        let height = self.size.1;
        let mut i: usize = 0;
        while i < self.colors.len()
            invariant
                self.wf(),
                height == self.size.1,
                i <= self.colors.len(),
                r@ == legal_seq_upto(self@, *player, i as int),
            decreases self.colors.len() - i,
        {
            let x = i / height;
            let y = i % height;
            proof {
                lemma_cdn_of_idx(self@, i as int);
                assert(cdn_of(self@, i as int) == (x, y));
                assert(self@.at(x as int, y as int) == self.colors@[i as int]);
            }
            if self.colors[i].is_none() {
                if self.exist_nextto((x, y), player) {
                    let caps = self.rev_cdns((x, y), player);
                    if caps.len() > 0 {
                        proof {
                            lemma_captured_cell_gives_capture(
                                self@,
                                *player,
                                (x, y),
                                caps@[0],
                            );
                        }
                        r.push((x, y));
                    } else {
                        proof {
                            if spec_has_capture(self@, *player, x as int, y as int) {
                                lemma_capture_gives_captured_cell(self@, *player, (x, y));
                                let c = choose|c: (usize, usize)|
                                    #[trigger] captures(self@, *player, (x, y), c);
                                assert(caps@.contains(c));
                            }
                        }
                    }
                } else {
                    proof {
                        if spec_has_capture(self@, *player, x as int, y as int) {
                            lemma_capture_needs_neighbor(self@, *player, x as int, y as int);
                        }
                    }
                }
            }
            i = i + 1;
        }
        r
    }

    /// Whether `player` has at least one legal move.
    pub fn putable(&self, player: &Color) -> (r: bool)
        requires
            self.wf(),
        ensures
            r == (legal_seq(self@, *player).len() > 0),
    {
        self.putable_cdns(player).len() > 0
    }

    /// Whether the game is over with `player` to move: the board is full, or
    /// neither `player` nor the opponent has a legal move.
    pub fn finished(&self, player: &Color) -> (r: bool)
        requires
            self.wf(),
        ensures
            r == spec_finished(self@, *player),
    {
        if self.count_empty() == 0 {
            true
        } else {
            !self.putable(player) && !self.putable(&player.rev())
        }
    }

    /// Apply `player`'s move at `cdn`. When the move captures something the
    /// disc is placed, every captured cell is flipped to `player`'s color and
    /// the call reports success; otherwise the board is left unchanged, byte
    /// for byte, and the call reports failure. Success raises
    /// `discCount(player)` by one more than the number of captured cells,
    /// lowers `discCount(opponent)` by that number, and fills exactly one
    /// empty cell.
    pub fn put(&mut self, cdn: (usize, usize), player: &Color) -> (r: bool)
        requires
            old(self).wf(),
        ensures
            final(self).wf(),
            final(self).size == old(self).size,
            r == spec_legal(old(self)@, *player, cdn),
            !r ==> final(self)@ == old(self)@,
            r ==> final(self)@ == board_after(old(self)@, *player, cdn),
            r ==> disc_count(final(self)@, *player) == disc_count(old(self)@, *player) + 1
                + captured_set(old(self)@, *player, cdn).len(),
            r ==> disc_count(final(self)@, player.spec_rev()) + captured_set(
                old(self)@,
                *player,
                cdn,
            ).len() == disc_count(old(self)@, player.spec_rev()),
            r ==> empty_count(final(self)@) + 1 == empty_count(old(self)@),
    {
        let ghost b0 = old(self)@;
        let caps = self.rev_cdns(cdn, player);
        if caps.len() == 0 {
            proof {
                if spec_legal(b0, *player, cdn) {
                    lemma_capture_gives_captured_cell(b0, *player, cdn);
                    let c = choose|c: (usize, usize)| #[trigger] captures(b0, *player, cdn, c);
                    assert(caps@.contains(c));
                }
            }
            return false;
        }
        proof {
            lemma_captured_cell_gives_capture(b0, *player, cdn, caps@[0]);
            assert forall|k2: int| 0 <= k2 < caps@.len() implies 0 <= b0.idx(
                #[trigger] caps@[k2].0 as int,
                caps@[k2].1 as int,
            ) < b0.cells.len() by {
                lemma_captured_cell_facts(b0, *player, cdn, caps@[k2]);
                lemma_idx_in_bounds(
                    caps@[k2].0 as int,
                    caps@[k2].1 as int,
                    b0.width as int,
                    b0.height as int,
                );
            }
            lemma_idx_in_bounds(cdn.0 as int, cdn.1 as int, b0.width as int, b0.height as int);
            assert(caps_in_bounds(b0, cdn, caps@));
        }
        let ti = self.index(cdn.0, cdn.1);
        proof {
            assert(b0.cells[ti as int] is None);
            assert(player.spec_rev() != *player);
            lemma_count_opt_update(
                b0.cells,
                Some(*player),
                ti as int,
                Some(*player),
                b0.cells.len() as int,
            );
            lemma_count_opt_update(
                b0.cells,
                Some(player.spec_rev()),
                ti as int,
                Some(*player),
                b0.cells.len() as int,
            );
            lemma_count_opt_update(
                b0.cells,
                None,
                ti as int,
                Some(*player),
                b0.cells.len() as int,
            );
        }
        self.colors.set(ti, Some(*player));
        let mut k: usize = 0;
        while k < caps.len()
            invariant
                self.wf(),
                b0.wf(),
                self@.width == b0.width,
                self@.height == b0.height,
                self.size == old(self).size,
                self@.cells.len() == b0.cells.len(),
                k <= caps.len(),
                caps@.no_duplicates(),
                caps_in_bounds(b0, cdn, caps@),
                forall|k2: int| 0 <= k2 < caps@.len() ==> captures(
                    b0,
                    *player,
                    cdn,
                    #[trigger] caps@[k2],
                ),
                b0.in_range(cdn.0 as int, cdn.1 as int),
                b0.at(cdn.0 as int, cdn.1 as int) is None,
                ti as int == b0.idx(cdn.0 as int, cdn.1 as int),
                self@.cells == cells_after_upto(b0, *player, cdn, caps@, k as int),
                count_opt_upto(self@.cells, Some(*player), self@.cells.len() as int)
                    == disc_count(b0, *player) + 1 + k,
                count_opt_upto(self@.cells, Some(player.spec_rev()), self@.cells.len() as int)
                    + k == disc_count(b0, player.spec_rev()),
                count_opt_upto(self@.cells, None, self@.cells.len() as int) + 1 == empty_count(
                    b0,
                ),
            decreases caps.len() - k,
        {
            let c = caps[k];
            let ghost cj = b0.idx(c.0 as int, c.1 as int);
            let ghost before = self@.cells;
            proof {
                lemma_captured_cell_facts(b0, *player, cdn, c);
                assert forall|k2: int| 0 <= k2 < k as int implies b0.idx(
                    #[trigger] caps@[k2].0 as int,
                    caps@[k2].1 as int,
                ) != cj by {
                    lemma_captured_cell_facts(b0, *player, cdn, caps@[k2]);
                    if b0.idx(caps@[k2].0 as int, caps@[k2].1 as int) == cj {
                        lemma_idx_injective(
                            b0,
                            caps@[k2].0 as int,
                            caps@[k2].1 as int,
                            c.0 as int,
                            c.1 as int,
                        );
                        assert(caps@[k2] == caps@[k as int]);
                        assert(false);
                    }
                }
                lemma_cells_after_upto_untouched(b0, *player, cdn, caps@, k as int, cj);
                assert(self@.cells[cj] == Some(player.spec_rev()));
                assert(self@.in_range(c.0 as int, c.1 as int));
                assert(self@.at(c.0 as int, c.1 as int) == Some(player.spec_rev()));
                assert(player.spec_rev().spec_rev() == *player);
                lemma_count_opt_update(
                    before,
                    Some(*player),
                    cj,
                    Some(*player),
                    before.len() as int,
                );
                lemma_count_opt_update(
                    before,
                    Some(player.spec_rev()),
                    cj,
                    Some(*player),
                    before.len() as int,
                );
                lemma_count_opt_update(before, None, cj, Some(*player), before.len() as int);
            }
            self.rev(c);
            proof {
                assert(self@.cells == before.update(cj, Some(*player)));
                assert(self@.cells == cells_after_upto(b0, *player, cdn, caps@, k as int + 1));
            }
            k = k + 1;
        }
        proof {
            lemma_captured_cell_gives_capture(b0, *player, cdn, caps@[0]);
            assert forall|j: int| 0 <= j < self@.cells.len() implies self@.cells[j]
                == board_after(b0, *player, cdn).cells[j] by {
                lemma_cdn_of_idx(b0, j);
                let cj = cdn_of(b0, j);
                if j == ti as int {
                    lemma_cells_after_upto_target(b0, *player, cdn, caps@, caps@.len() as int);
                } else if captures(b0, *player, cdn, cj) {
                    assert(caps@.contains(cj));
                    let k2 = choose|k2: int| 0 <= k2 < caps@.len() && caps@[k2] == cj;
                    lemma_cells_after_upto_set(b0, *player, cdn, caps@, caps@.len() as int, k2);
                } else {
                    assert forall|k2: int| 0 <= k2 < caps@.len() implies b0.idx(
                        #[trigger] caps@[k2].0 as int,
                        caps@[k2].1 as int,
                    ) != j by {
                        if b0.idx(caps@[k2].0 as int, caps@[k2].1 as int) == j {
                            lemma_captured_cell_facts(b0, *player, cdn, caps@[k2]);
                            lemma_idx_cdn_of(b0, caps@[k2].0 as int, caps@[k2].1 as int);
                            assert(cdn_of(b0, j) == caps@[k2]);
                            assert(captures(b0, *player, cdn, cj));
                            assert(false);
                        }
                    }
                    lemma_cells_after_upto_untouched(
                        b0,
                        *player,
                        cdn,
                        caps@,
                        caps@.len() as int,
                        j,
                    );
                }
            }
            assert(self@.cells =~= board_after(b0, *player, cdn).cells);
            assert(self@ == board_after(b0, *player, cdn));
            assert(caps@.to_set() =~= captured_set(b0, *player, cdn));
            caps@.unique_seq_to_set();
            assert(captured_set(b0, *player, cdn).len() == caps@.len());
        }
        true
    }

    /// Number of discs of color `col` on the board.
    pub fn count_color(&self, col: Color) -> (r: usize)
        requires
            self.wf(),
        ensures
            r == disc_count(self@, col),
    {
        let mut cnt: usize = 0;
        let mut i: usize = 0;
        while i < self.colors.len()
            invariant
                i <= self.colors.len(),
                cnt == count_opt_upto(self.colors@, Some(col), i as int),
                cnt <= i,
            decreases self.colors.len() - i,
        {
            match self.colors[i] {
                Some(c) => {
                    if c == col {
                        cnt = cnt + 1;
                    }
                },
                None => {},
            }
            i = i + 1;
        }
        cnt
    }

    /// Number of empty cells on the board.
    pub fn count_empty(&self) -> (r: usize)
        requires
            self.wf(),
        ensures
            r == empty_count(self@),
    {
        let mut cnt: usize = 0;
        let mut i: usize = 0;
        while i < self.colors.len()
            invariant
                i <= self.colors.len(),
                cnt == count_opt_upto(self.colors@, None, i as int),
                cnt <= i,
            decreases self.colors.len() - i,
        {
            if self.colors[i].is_none() {
                cnt = cnt + 1;
            }
            i = i + 1;
        }
        cnt
    }

    /// The color with strictly more discs on the board; `None` on a tie.
    pub fn winner(&self) -> (r: Option<Color>)
        requires
            self.wf(),
        ensures
            r == spec_winner(self@),
    {
        let white_num = self.count_color(Color::White);
        let black_num = self.count_color(Color::Black);
        if white_num > black_num {
            Some(Color::White)
        } else if white_num < black_num {
            Some(Color::Black)
        } else {
            None
        }
    }
}

} // verus!
