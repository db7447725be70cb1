//! The board: a fixed 8x8 grid of cells, each `Black`, `White` or `Empty`.
//!
//! The board is stored row-major from the highest rank down (the same order
//! as the serialized form): cell `(x, y)` lives at index
//! `(BOARD_SIZE - y) * BOARD_SIZE + (x - 1)`. All rule logic is specified
//! against the spec-level view `Seq<OccupyType>` of length
//! `BOARD_SIZE * BOARD_SIZE`.

use vstd::prelude::*;

use crate::occupytype::OccupyType;
use crate::occupytype::char_cell;
use crate::occupytype::opposite;
use crate::occupytype::sym_char;
use crate::occupytype::sym_str;
use crate::point::BOARD_SIZE;
use crate::point::Point;
use crate::point::coord_in_bounds;
use crate::point::digit_char;
use crate::point::digit_str;

verus! {

/// Cells on the board, row-major from rank `BOARD_SIZE` down to rank 1.
pub const N_CELLS: u8 = 64;

/// The storage index of cell `(x, y)`.
pub open spec fn cell_index(x: int, y: int) -> int {
    (BOARD_SIZE - y) * BOARD_SIZE + (x - 1)
}

/// The `x` coordinate of the cell stored at index `i`.
pub open spec fn cell_x(i: int) -> int {
    i % (BOARD_SIZE as int) + 1
}

/// The `y` coordinate of the cell stored at index `i`.
pub open spec fn cell_y(i: int) -> int {
    BOARD_SIZE - i / (BOARD_SIZE as int)
}

/// A board view holds exactly one cell state per board cell.
pub open spec fn board_wf(v: Seq<OccupyType>) -> bool {
    v.len() == N_CELLS
}

/// The state of cell `(x, y)`; positions off the board read as `Empty`.
pub open spec fn at(v: Seq<OccupyType>, x: int, y: int) -> OccupyType {
    if coord_in_bounds(x, y) { v[cell_index(x, y)] } else { OccupyType::Empty }
}

/// Storage indices and coordinates are inverse to each other.
pub proof fn lemma_cell_index_bijective()
    ensures
        forall|x: int, y: int|
            coord_in_bounds(x, y) ==> 0 <= #[trigger] cell_index(x, y) < N_CELLS
                && cell_x(cell_index(x, y)) == x && cell_y(cell_index(x, y)) == y,
        forall|i: int|
            0 <= i < N_CELLS ==> coord_in_bounds(#[trigger] cell_x(i), cell_y(i))
                && cell_index(cell_x(i), cell_y(i)) == i,
{
    assert forall|x: int, y: int| coord_in_bounds(x, y) implies 0 <= #[trigger] cell_index(x, y)
        < N_CELLS && cell_x(cell_index(x, y)) == x && cell_y(cell_index(x, y)) == y by {
        let i = cell_index(x, y);
        assert(i == (8 - y) * 8 + (x - 1));
        assert(0 <= i < 64) by (nonlinear_arith)
            requires 1 <= x <= 8 && 1 <= y <= 8 && i == (8 - y) * 8 + (x - 1);
        assert(i % 8 == x - 1 && i / 8 == 8 - y) by (nonlinear_arith)
            requires 1 <= x <= 8 && 1 <= y <= 8 && i == (8 - y) * 8 + (x - 1);
    }
    assert forall|i: int| 0 <= i < N_CELLS implies coord_in_bounds(#[trigger] cell_x(i), cell_y(i))
        && cell_index(cell_x(i), cell_y(i)) == i by {
        assert(0 <= i % 8 < 8 && 0 <= i / 8 < 8 && i == (i / 8) * 8 + i % 8) by (nonlinear_arith)
            requires 0 <= i < 64;
    }
}

/// How many of the first `n` cells of `v` hold state `c`.
pub open spec fn count_upto(v: Seq<OccupyType>, c: OccupyType, n: int) -> int
    decreases n,
{
    if n <= 0 {
        0
    } else {
        count_upto(v, c, n - 1) + if v[n - 1] == c { 1int } else { 0int }
    }
}

/// How many cells of the whole board hold state `c`.
pub open spec fn count_color(v: Seq<OccupyType>, c: OccupyType) -> int {
    count_upto(v, c, N_CELLS as int)
}

/// A prefix count never exceeds the prefix length.
pub proof fn lemma_count_upto_bounds(v: Seq<OccupyType>, c: OccupyType, n: int)
    requires
        0 <= n,
    ensures
        0 <= count_upto(v, c, n) <= n,
    decreases n,
{
    if n > 0 {
        lemma_count_upto_bounds(v, c, n - 1);
    }
}

/// A direction of the line scan: one of the eight unit steps away from a
/// cell.
pub open spec fn is_dir(dx: int, dy: int) -> bool {
    -1 <= dx <= 1 && -1 <= dy <= 1 && !(dx == 0 && dy == 0)
}

/// The `x` step of scan direction number `d` (directions are numbered
/// `0..9` in scan order; number 4 is the null step, which never captures).
pub open spec fn dir_dx(d: int) -> int {
    d / 3 - 1
}

/// The `y` step of scan direction number `d`.
pub open spec fn dir_dy(d: int) -> int {
    d % 3 - 1
}

/// The cell `k` steps away from `(x, y)` in direction `(dx, dy)`.
pub open spec fn cell_in_dir(
    v: Seq<OccupyType>,
    x: int,
    y: int,
    dx: int,
    dy: int,
    k: int,
) -> OccupyType {
    at(v, x + k * dx, y + k * dy)
}

/// Placing `c` at `(x, y)` captures a run of exactly `n` discs in direction
/// `(dx, dy)`: the `n` cells after `(x, y)` hold the opposing color and the
/// next cell holds `c` itself (the anchoring disc).
pub open spec fn captures(
    v: Seq<OccupyType>,
    x: int,
    y: int,
    dx: int,
    dy: int,
    c: OccupyType,
    n: int,
) -> bool {
    &&& 1 <= n
    &&& (forall|k: int| 1 <= k <= n ==> #[trigger] cell_in_dir(v, x, y, dx, dy, k) == opposite(c))
    &&& cell_in_dir(v, x, y, dx, dy, n + 1) == c
}

/// Some run is captured in direction `(dx, dy)`.
pub open spec fn dir_captured(
    v: Seq<OccupyType>,
    x: int,
    y: int,
    dx: int,
    dy: int,
    c: OccupyType,
) -> bool {
    exists|n: int| captures(v, x, y, dx, dy, c, n)
}

/// The length of the captured run in direction `(dx, dy)`, 0 when nothing
/// is captured there.
pub open spec fn run_len(
    v: Seq<OccupyType>,
    x: int,
    y: int,
    dx: int,
    dy: int,
    c: OccupyType,
) -> int {
    if dir_captured(v, x, y, dx, dy, c) {
        choose|n: int| captures(v, x, y, dx, dy, c, n)
    } else {
        0
    }
}

/// `i` is the coordinate `k` steps from `x` with step `dx`.
pub open spec fn stepped(x: int, dx: int, k: int, i: int) -> bool {
    i == x + k * dx
}

/// Cell `(i, j)` lies on the captured run of direction `(dx, dy)`.
pub open spec fn flips_dir_at(
    v: Seq<OccupyType>,
    x: int,
    y: int,
    dx: int,
    dy: int,
    c: OccupyType,
    i: int,
    j: int,
) -> bool {
    exists|k: int|
        1 <= k <= run_len(v, x, y, dx, dy, c) && #[trigger] stepped(x, dx, k, i) && stepped(
            y,
            dy,
            k,
            j,
        )
}

/// Cell `(i, j)` would flip if `c` were placed at `(x, y)`: it lies on a
/// captured run in some direction. No cell flips when `(x, y)` is occupied.
pub open spec fn flips(v: Seq<OccupyType>, x: int, y: int, c: OccupyType, i: int, j: int) -> bool {
    &&& at(v, x, y) == OccupyType::Empty
    &&& exists|dx: int, dy: int| is_dir(dx, dy) && #[trigger] flips_dir_at(v, x, y, dx, dy, c, i, j)
}

/// The total run length over scan directions `0..d`.
pub open spec fn run_sum(v: Seq<OccupyType>, x: int, y: int, c: OccupyType, d: int) -> int
    decreases d,
{
    if d <= 0 {
        0
    } else {
        run_sum(v, x, y, c, d - 1) + run_len(v, x, y, dir_dx(d - 1), dir_dy(d - 1), c)
    }
}

/// How many discs placing `c` at `(x, y)` would flip: the sum of the
/// captured run lengths over all eight directions, and 0 on an occupied
/// cell.
pub open spec fn flip_count(v: Seq<OccupyType>, x: int, y: int, c: OccupyType) -> int {
    if at(v, x, y) == OccupyType::Empty {
        run_sum(v, x, y, c, 9)
    } else {
        0
    }
}

/// Placing `c` at `(x, y)` is a legal move for `c`: the cell is on the
/// board and empty, and at least one disc flips.
pub open spec fn legal(v: Seq<OccupyType>, x: int, y: int, c: OccupyType) -> bool {
    &&& coord_in_bounds(x, y)
    &&& at(v, x, y) == OccupyType::Empty
    &&& exists|dx: int, dy: int, n: int| is_dir(dx, dy) && #[trigger] captures(v, x, y, dx, dy, c, n)
}

/// `c` has at least one legal move on `v`.
pub open spec fn has_move(v: Seq<OccupyType>, c: OccupyType) -> bool {
    exists|x: int, y: int| #[trigger] legal(v, x, y, c)
}

/// At most one run length is captured per direction (for a real color, a
/// cell cannot hold both `c` and its opposite).
pub proof fn lemma_captures_unique(
    v: Seq<OccupyType>,
    x: int,
    y: int,
    dx: int,
    dy: int,
    c: OccupyType,
    n1: int,
    n2: int,
)
    requires
        c != OccupyType::Empty,
        captures(v, x, y, dx, dy, c, n1),
        captures(v, x, y, dx, dy, c, n2),
    ensures
        n1 == n2,
{
    if n1 < n2 {
        assert(cell_in_dir(v, x, y, dx, dy, n1 + 1) == opposite(c));
    }
    if n2 < n1 {
        assert(cell_in_dir(v, x, y, dx, dy, n2 + 1) == opposite(c));
    }
}

/// The basic facts about `run_len`: it is non-negative, and it is the
/// captured run length exactly when a run is captured.
pub proof fn lemma_run_len_props(
    v: Seq<OccupyType>,
    x: int,
    y: int,
    dx: int,
    dy: int,
    c: OccupyType,
)
    requires
        c != OccupyType::Empty,
    ensures
        run_len(v, x, y, dx, dy, c) >= 0,
        dir_captured(v, x, y, dx, dy, c) ==> captures(v, x, y, dx, dy, c, run_len(v, x, y, dx, dy, c))
            && run_len(v, x, y, dx, dy, c) >= 1,
        !dir_captured(v, x, y, dx, dy, c) ==> run_len(v, x, y, dx, dy, c) == 0,
        forall|n: int|
            #[trigger] captures(v, x, y, dx, dy, c, n) ==> run_len(v, x, y, dx, dy, c) == n,
{
    if dir_captured(v, x, y, dx, dy, c) {
        let n0 = choose|n: int| captures(v, x, y, dx, dy, c, n);
        assert forall|n: int| #[trigger] captures(v, x, y, dx, dy, c, n) implies run_len(
            v,
            x,
            y,
            dx,
            dy,
            c,
        ) == n by {
            lemma_captures_unique(v, x, y, dx, dy, c, n0, n);
        }
    }
}

/// Stepping `k >= 1` cells along two directions cannot land on the same
/// cell unless the directions and the step counts agree.
pub proof fn lemma_step_injective(
    d1x: int,
    d1y: int,
    k1: int,
    d2x: int,
    d2y: int,
    k2: int,
)
    requires
        is_dir(d1x, d1y),
        is_dir(d2x, d2y),
        1 <= k1,
        1 <= k2,
        k1 * d1x == k2 * d2x,
        k1 * d1y == k2 * d2y,
    ensures
        d1x == d2x,
        d1y == d2y,
        k1 == k2,
{
    assert(d1x == d2x && d1y == d2y && k1 == k2) by (nonlinear_arith)
        requires
            is_dir(d1x, d1y),
            is_dir(d2x, d2y),
            1 <= k1,
            1 <= k2,
            k1 * d1x == k2 * d2x,
            k1 * d1y == k2 * d2y,
    ;
}

/// Direction numbers map bijectively onto the unit steps.
pub proof fn lemma_dir_numbering()
    ensures
        forall|d: int|
            0 <= d < 9 ==> -1 <= #[trigger] dir_dx(d) <= 1 && -1 <= #[trigger] dir_dy(d) <= 1,
        forall|d: int| 0 <= d < 9 && d != 4 ==> is_dir(#[trigger] dir_dx(d), dir_dy(d)),
        dir_dx(4) == 0 && dir_dy(4) == 0,
        forall|d1: int, d2: int|
            0 <= d1 < 9 && 0 <= d2 < 9 && #[trigger] dir_dx(d1) == #[trigger] dir_dx(d2)
                && dir_dy(d1) == dir_dy(d2) ==> d1 == d2,
{
    assert forall|d: int| 0 <= d < 9 implies -1 <= #[trigger] dir_dx(d) <= 1 && -1
        <= #[trigger] dir_dy(d) <= 1 by {
        assert(0 <= d / 3 <= 2 && 0 <= d % 3 <= 2) by (nonlinear_arith)
            requires 0 <= d < 9;
    }
    assert forall|d1: int, d2: int|
        0 <= d1 < 9 && 0 <= d2 < 9 && #[trigger] dir_dx(d1) == #[trigger] dir_dx(d2) && dir_dy(d1)
            == dir_dy(d2) implies d1 == d2 by {
        assert(d1 == (d1 / 3) * 3 + d1 % 3 && d2 == (d2 / 3) * 3 + d2 % 3) by (nonlinear_arith)
            requires 0 <= d1 < 9 && 0 <= d2 < 9;
    }
    assert(dir_dx(4) == 0 && dir_dy(4) == 0) by (nonlinear_arith);
}

/// Every unit step is direction number `(dx + 1) * 3 + (dy + 1)`.
pub proof fn lemma_dir_number_of(dx: int, dy: int)
    requires
        -1 <= dx <= 1,
        -1 <= dy <= 1,
    ensures
        0 <= (dx + 1) * 3 + (dy + 1) < 9,
        dir_dx((dx + 1) * 3 + (dy + 1)) == dx,
        dir_dy((dx + 1) * 3 + (dy + 1)) == dy,
{
    let d = (dx + 1) * 3 + (dy + 1);
    assert(0 <= d < 9 && d / 3 == dx + 1 && d % 3 == dy + 1) by (nonlinear_arith)
        requires -1 <= dx <= 1 && -1 <= dy <= 1 && d == (dx + 1) * 3 + (dy + 1);
}

/// A line walk that stopped without finding an anchoring disc of the
/// mover's color captures nothing: cells `1..step` held the opposing
/// color, and the walk stopped at a cell that cannot end a run.
proof fn lemma_no_captures(
    v: Seq<OccupyType>,
    sx: int,
    sy: int,
    idx: int,
    idy: int,
    color: OccupyType,
    step: int,
)
    requires
        color != OccupyType::Empty,
        1 <= step,
        forall|k: int|
            1 <= k < step ==> #[trigger] cell_in_dir(v, sx, sy, idx, idy, k) == opposite(color),
        cell_in_dir(v, sx, sy, idx, idy, step) != opposite(color),
        cell_in_dir(v, sx, sy, idx, idy, step) == color ==> step == 1,
    ensures
        forall|n: int| !(#[trigger] captures(v, sx, sy, idx, idy, color, n)),
{
    assert forall|n: int| !(#[trigger] captures(v, sx, sy, idx, idy, color, n)) by {
        if captures(v, sx, sy, idx, idy, color, n) {
            if n + 1 < step {
                assert(cell_in_dir(v, sx, sy, idx, idy, n + 1) == opposite(color));
                assert(cell_in_dir(v, sx, sy, idx, idy, n + 1) == color);
            } else if n + 1 == step {
                assert(cell_in_dir(v, sx, sy, idx, idy, step) == color);
            } else {
                assert(1 <= step <= n);
                assert(cell_in_dir(v, sx, sy, idx, idy, step) == opposite(color));
            }
        }
    }
}

/// The null step captures nothing: its first cell is the placement cell
/// itself, which is empty.
proof fn lemma_null_dir_no_flips(v: Seq<OccupyType>, sx: int, sy: int, color: OccupyType)
    requires
        color != OccupyType::Empty,
        at(v, sx, sy) == OccupyType::Empty,
    ensures
        run_len(v, sx, sy, 0, 0, color) == 0,
        forall|i: int, j: int| !#[trigger] flips_dir_at(v, sx, sy, 0, 0, color, i, j),
{
    assert forall|n: int| !(#[trigger] captures(v, sx, sy, 0, 0, color, n)) by {
        if captures(v, sx, sy, 0, 0, color, n) {
            assert(cell_in_dir(v, sx, sy, 0, 0, 1) == opposite(color));
            assert(at(v, sx + 1 * 0, sy + 1 * 0) == opposite(color));
        }
    }
    assert(!dir_captured(v, sx, sy, 0, 0, color));
}

/// A flipped cell holds the opposing color on the board as it stands (in
/// particular, it is occupied and on the board).
pub proof fn lemma_flip_cell_holds_opposite(
    v: Seq<OccupyType>,
    x: int,
    y: int,
    c: OccupyType,
    i: int,
    j: int,
)
    requires
        c != OccupyType::Empty,
        flips(v, x, y, c, i, j),
    ensures
        at(v, i, j) == opposite(c),
        coord_in_bounds(i, j),
        !(i == x && j == y),
{
    let (dx, dy) = choose|dx: int, dy: int|
        is_dir(dx, dy) && #[trigger] flips_dir_at(v, x, y, dx, dy, c, i, j);
    let k = choose|k: int|
        1 <= k <= run_len(v, x, y, dx, dy, c) && #[trigger] stepped(x, dx, k, i) && stepped(
            y,
            dy,
            k,
            j,
        );
    lemma_run_len_props(v, x, y, dx, dy, c);
    if !dir_captured(v, x, y, dx, dy, c) {
        assert(false);
    }
    assert(captures(v, x, y, dx, dy, c, run_len(v, x, y, dx, dy, c)));
    assert(cell_in_dir(v, x, y, dx, dy, k) == opposite(c));
    assert(at(v, i, j) == opposite(c));
    if i == x && j == y {
        assert(k * dx == 0 && k * dy == 0);
        assert(false) by (nonlinear_arith)
            requires 1 <= k && k * dx == 0 && k * dy == 0 && !(dx == 0 && dy == 0);
    }
}

/// The board after `c` is placed at `(x, y)`: the placement cell and every
/// flipped cell hold `c`, every other cell is unchanged.
pub open spec fn apply_move(v: Seq<OccupyType>, x: int, y: int, c: OccupyType) -> Seq<OccupyType> {
    Seq::new(
        N_CELLS as nat,
        |i: int|
            if (cell_x(i) == x && cell_y(i) == y) || flips(v, x, y, c, cell_x(i), cell_y(i)) {
                c
            } else {
                v[i]
            },
    )
}

/// What `apply_move` does to each cell, read through coordinates.
pub proof fn lemma_apply_move_at(v: Seq<OccupyType>, x: int, y: int, c: OccupyType)
    requires
        board_wf(v),
    ensures
        board_wf(apply_move(v, x, y, c)),
        forall|i: int, j: int|
            coord_in_bounds(i, j) ==> #[trigger] at(apply_move(v, x, y, c), i, j) == (
            if (i == x && j == y) || flips(v, x, y, c, i, j) {
                c
            } else {
                at(v, i, j)
            }),
{
    lemma_cell_index_bijective();
}

/// Partial direction sums are non-negative.
proof fn lemma_run_sum_nonneg(v: Seq<OccupyType>, x: int, y: int, c: OccupyType, d: int)
    requires
        c != OccupyType::Empty,
        0 <= d,
    ensures
        run_sum(v, x, y, c, d) >= 0,
    decreases d,
{
    if d > 0 {
        lemma_run_sum_nonneg(v, x, y, c, d - 1);
        lemma_run_len_props(v, x, y, dir_dx(d - 1), dir_dy(d - 1), c);
    }
}

/// The total over all directions dominates each single direction.
proof fn lemma_run_sum_lower(v: Seq<OccupyType>, x: int, y: int, c: OccupyType, d0: int, d: int)
    requires
        c != OccupyType::Empty,
        0 <= d0 < d,
    ensures
        run_sum(v, x, y, c, d) >= run_len(v, x, y, dir_dx(d0), dir_dy(d0), c),
    decreases d,
{
    if d0 == d - 1 {
        lemma_run_sum_nonneg(v, x, y, c, d - 1);
    } else {
        lemma_run_sum_lower(v, x, y, c, d0, d - 1);
        lemma_run_len_props(v, x, y, dir_dx(d - 1), dir_dy(d - 1), c);
    }
}

/// A positive total needs a positive direction.
proof fn lemma_run_sum_pos(v: Seq<OccupyType>, x: int, y: int, c: OccupyType, d: int)
    requires
        c != OccupyType::Empty,
        0 <= d,
        run_sum(v, x, y, c, d) > 0,
    ensures
        exists|d0: int|
            0 <= d0 < d && run_len(v, x, y, #[trigger] dir_dx(d0), dir_dy(d0), c) > 0,
    decreases d,
{
    if run_sum(v, x, y, c, d - 1) > 0 {
        lemma_run_sum_pos(v, x, y, c, d - 1);
        let d0 = choose|d0: int|
            0 <= d0 < d - 1 && run_len(v, x, y, #[trigger] dir_dx(d0), dir_dy(d0), c) > 0;
        assert(0 <= d0 < d && run_len(v, x, y, dir_dx(d0), dir_dy(d0), c) > 0);
    } else {
        assert(run_len(v, x, y, dir_dx(d - 1), dir_dy(d - 1), c) > 0);
    }
}

/// A move is legal exactly when it is on an empty board cell and flips a
/// positive number of discs; equally, exactly when some cell flips.
pub proof fn lemma_legal_iff_count(v: Seq<OccupyType>, x: int, y: int, c: OccupyType)
    requires
        c != OccupyType::Empty,
    ensures
        legal(v, x, y, c) <==> (coord_in_bounds(x, y) && at(v, x, y) == OccupyType::Empty
            && flip_count(v, x, y, c) > 0),
        legal(v, x, y, c) <==> (coord_in_bounds(x, y) && exists|i: int, j: int|
            #[trigger] flips(v, x, y, c, i, j)),
        flip_count(v, x, y, c) >= 0,
{
    if at(v, x, y) == OccupyType::Empty {
        lemma_run_sum_nonneg(v, x, y, c, 9);
    }
    if legal(v, x, y, c) {
        let (dx, dy, n) = choose|dx: int, dy: int, n: int|
            is_dir(dx, dy) && #[trigger] captures(v, x, y, dx, dy, c, n);
        lemma_run_len_props(v, x, y, dx, dy, c);
        assert(dir_captured(v, x, y, dx, dy, c));
        let rl = run_len(v, x, y, dx, dy, c);
        assert(rl >= 1);
        lemma_dir_number_of(dx, dy);
        let d0 = (dx + 1) * 3 + (dy + 1);
        lemma_run_sum_lower(v, x, y, c, d0, 9);
        assert(flip_count(v, x, y, c) > 0);
        // some cell flips: the first cell of the captured run
        assert(stepped(x, dx, 1, x + 1 * dx) && stepped(y, dy, 1, y + 1 * dy));
        assert(flips_dir_at(v, x, y, dx, dy, c, x + 1 * dx, y + 1 * dy));
        assert(flips(v, x, y, c, x + 1 * dx, y + 1 * dy));
    }
    if coord_in_bounds(x, y) && at(v, x, y) == OccupyType::Empty && flip_count(v, x, y, c) > 0 {
        lemma_run_sum_pos(v, x, y, c, 9);
        let d0 = choose|d0: int|
            0 <= d0 < 9 && run_len(v, x, y, #[trigger] dir_dx(d0), dir_dy(d0), c) > 0;
        lemma_run_len_props(v, x, y, dir_dx(d0), dir_dy(d0), c);
        assert(dir_captured(v, x, y, dir_dx(d0), dir_dy(d0), c));
        assert(captures(
            v, x, y, dir_dx(d0), dir_dy(d0), c, run_len(v, x, y, dir_dx(d0), dir_dy(d0), c),
        ));
        if dir_dx(d0) == 0 && dir_dy(d0) == 0 {
            lemma_null_dir_no_flips(v, x, y, c);
        }
        lemma_dir_numbering();
        assert(is_dir(dir_dx(d0), dir_dy(d0)));
        assert(legal(v, x, y, c));
    }
    if coord_in_bounds(x, y) && (exists|i: int, j: int| #[trigger] flips(v, x, y, c, i, j)) {
        let (i, j) = choose|i: int, j: int| #[trigger] flips(v, x, y, c, i, j);
        let (dx, dy) = choose|dx: int, dy: int|
            is_dir(dx, dy) && #[trigger] flips_dir_at(v, x, y, dx, dy, c, i, j);
        let k = choose|k: int|
            1 <= k <= run_len(v, x, y, dx, dy, c) && #[trigger] stepped(x, dx, k, i) && stepped(
                y, dy, k, j,
            );
        lemma_run_len_props(v, x, y, dx, dy, c);
        if !dir_captured(v, x, y, dx, dy, c) {
            assert(false);
        }
        assert(captures(v, x, y, dx, dy, c, run_len(v, x, y, dx, dy, c)));
        assert(legal(v, x, y, c));
    }
}

/// Appending a committed capture run to the cells gathered from the
/// directions already scanned extends the gathered flip set by exactly
/// that run's direction, and keeps the cells distinct.
proof fn lemma_commit_run(
    v: Seq<OccupyType>,
    sx: int,
    sy: int,
    dd: int,
    color: OccupyType,
    old_result: Seq<Point>,
    cur: Seq<Point>,
    res: Seq<Point>,
)
    requires
        color != OccupyType::Empty,
        0 <= dd < 9,
        at(v, sx, sy) == OccupyType::Empty,
        captures(v, sx, sy, dir_dx(dd), dir_dy(dd), color, cur.len() as int),
        cur.len() >= 1,
        forall|m: int|
            0 <= m < cur.len() ==> (#[trigger] cur[m]).wf() && cur[m].x as int == sx + (m + 1)
                * dir_dx(dd) && cur[m].y as int == sy + (m + 1) * dir_dy(dd),
        res == old_result + cur,
        forall|q: Point| #[trigger] old_result.contains(q) <==> exists|d2: int|
            0 <= d2 < dd && #[trigger] flips_dir_at(
                v, sx, sy, dir_dx(d2), dir_dy(d2), color, q.x as int, q.y as int,
            ),
        old_result.no_duplicates(),
        forall|m: int| 0 <= m < old_result.len() ==> (#[trigger] old_result[m]).wf(),
    ensures
        run_len(v, sx, sy, dir_dx(dd), dir_dy(dd), color) == cur.len(),
        forall|q: Point| #[trigger] res.contains(q) <==> exists|d2: int|
            0 <= d2 < dd + 1 && #[trigger] flips_dir_at(
                v, sx, sy, dir_dx(d2), dir_dy(d2), color, q.x as int, q.y as int,
            ),
        res.no_duplicates(),
        forall|m: int| 0 <= m < res.len() ==> (#[trigger] res[m]).wf(),
{
    let idx = dir_dx(dd);
    let idy = dir_dy(dd);
    lemma_run_len_props(v, sx, sy, idx, idy, color);
    assert(dir_captured(v, sx, sy, idx, idy, color));
    assert(run_len(v, sx, sy, idx, idy, color) == cur.len());
    assert(!(idx == 0 && idy == 0)) by {
        if idx == 0 && idy == 0 {
            lemma_null_dir_no_flips(v, sx, sy, color);
        }
    }
    assert(is_dir(idx, idy));
    // every element of the grown list flips in some scanned direction
    assert forall|q: Point| #[trigger] res.contains(q) implies exists|d2: int|
        0 <= d2 < dd + 1 && #[trigger] flips_dir_at(
            v, sx, sy, dir_dx(d2), dir_dy(d2), color, q.x as int, q.y as int,
        ) by {
        let m = choose|m: int| 0 <= m < res.len() && res[m] == q;
        if m < old_result.len() {
            assert(old_result[m] == q);
            assert(old_result.contains(q));
        } else {
            let k = m - old_result.len() + 1;
            assert(cur[m - old_result.len()] == q);
            assert(stepped(sx, idx, k, q.x as int));
            assert(stepped(sy, idy, k, q.y as int));
            assert(flips_dir_at(v, sx, sy, idx, idy, color, q.x as int, q.y as int));
            assert(flips_dir_at(v, sx, sy, dir_dx(dd), dir_dy(dd), color, q.x as int, q.y as int));
        }
    }
    // and conversely, every such cell is listed
    assert forall|q: Point| (exists|d2: int|
        0 <= d2 < dd + 1 && #[trigger] flips_dir_at(
            v, sx, sy, dir_dx(d2), dir_dy(d2), color, q.x as int, q.y as int,
        )) implies #[trigger] res.contains(q) by {
        let d2 = choose|d2: int|
            0 <= d2 < dd + 1 && flips_dir_at(
                v, sx, sy, dir_dx(d2), dir_dy(d2), color, q.x as int, q.y as int,
            );
        if d2 < dd {
            assert(old_result.contains(q));
            let m = choose|m: int| 0 <= m < old_result.len() && old_result[m] == q;
            assert(res[m] == q);
        } else {
            let k = choose|k: int|
                1 <= k <= run_len(v, sx, sy, idx, idy, color) && #[trigger] stepped(
                    sx, idx, k, q.x as int,
                ) && stepped(sy, idy, k, q.y as int);
            assert(cur[k - 1].x as int == q.x as int);
            assert(cur[k - 1].y as int == q.y as int);
            assert(cur[k - 1] == q);
            assert(res[old_result.len() + k - 1] == q);
        }
    }
    // the new cells are distinct among themselves and from the cells of
    // earlier directions
    assert forall|m1: int, m2: int| 0 <= m1 < m2 < res.len() implies res[m1] != res[m2] by {
        if m2 >= old_result.len() {
            let k2 = m2 - old_result.len() + 1;
            if m1 >= old_result.len() {
                let k1 = m1 - old_result.len() + 1;
                if res[m1] == res[m2] {
                    assert(sx + k1 * idx == sx + k2 * idx);
                    assert(sy + k1 * idy == sy + k2 * idy);
                    lemma_step_injective(idx, idy, k1, idx, idy, k2);
                }
            } else {
                if res[m1] == res[m2] {
                    let q = old_result[m1];
                    assert(old_result.contains(q));
                    let d2 = choose|d2: int|
                        0 <= d2 < dd && flips_dir_at(
                            v, sx, sy, dir_dx(d2), dir_dy(d2), color, q.x as int, q.y as int,
                        );
                    if dir_dx(d2) == 0 && dir_dy(d2) == 0 {
                        lemma_null_dir_no_flips(v, sx, sy, color);
                    } else {
                        let k1 = choose|k: int|
                            1 <= k <= run_len(v, sx, sy, dir_dx(d2), dir_dy(d2), color)
                                && #[trigger] stepped(sx, dir_dx(d2), k, q.x as int) && stepped(
                                sy, dir_dy(d2), k, q.y as int,
                            );
                        assert(sx + k1 * dir_dx(d2) == sx + k2 * idx);
                        assert(sy + k1 * dir_dy(d2) == sy + k2 * idy);
                        lemma_step_injective(dir_dx(d2), dir_dy(d2), k1, idx, idy, k2);
                        lemma_dir_numbering();
                    }
                }
            }
        }
    }
}

/// An occupied cell admits no flips, for every board, cell and mover: the
/// flip set of a move onto an occupied cell is empty and its flip count is
/// zero.
pub proof fn lemma_occupied_no_flips(v: Seq<OccupyType>, x: int, y: int, c: OccupyType)
    requires
        at(v, x, y) != OccupyType::Empty,
    ensures
        forall|i: int, j: int| !flips(v, x, y, c, i, j),
        flip_count(v, x, y, c) == 0,
{
}

/// Applying a legal move occupies the placement cell with the mover's
/// color, turns every cell of the prior flip set to the mover's color, and
/// changes no other cell.
pub proof fn lemma_apply_move_effect(v: Seq<OccupyType>, x: int, y: int, c: OccupyType)
    requires
        board_wf(v),
        c != OccupyType::Empty,
        legal(v, x, y, c),
    ensures
        at(apply_move(v, x, y, c), x, y) == c,
        forall|i: int, j: int|
            #[trigger] flips(v, x, y, c, i, j) ==> at(apply_move(v, x, y, c), i, j) == c,
        forall|i: int, j: int|
            coord_in_bounds(i, j) && !(i == x && j == y) && !flips(v, x, y, c, i, j)
                ==> #[trigger] at(apply_move(v, x, y, c), i, j) == at(v, i, j),
{
    lemma_apply_move_at(v, x, y, c);
    assert forall|i: int, j: int| #[trigger] flips(v, x, y, c, i, j) implies at(
        apply_move(v, x, y, c), i, j,
    ) == c by {
        lemma_flip_cell_holds_opposite(v, x, y, c, i, j);
    }
}

/// The serialized form of a board: one symbol per cell, row-major from the
/// highest rank down, left to right within a rank.
pub open spec fn serial_chars(v: Seq<OccupyType>) -> Seq<char> {
    Seq::new(N_CELLS as nat, |i: int| sym_char(v[i]))
}

/// The board a serialized string denotes: one cell per character, in the
/// same fixed order.
pub open spec fn parse_cells(s: Seq<char>) -> Seq<OccupyType> {
    Seq::new(N_CELLS as nat, |i: int| char_cell(s[i]))
}

/// Serialization round-trips: parsing a board's serialized form yields the
/// board back, occupancy and colors unchanged.
pub proof fn lemma_serialize_roundtrip(v: Seq<OccupyType>)
    requires
        board_wf(v),
    ensures
        serial_chars(v).len() == N_CELLS,
        parse_cells(serial_chars(v)) == v,
{
    assert(parse_cells(serial_chars(v)) =~= v);
}

/// The column-label line of the rendered board.
pub open spec fn label_chars() -> Seq<char> {
    "   | 1 | 2 | 3 | 4 | 5 | 6 | 7 | 8 |\n"@
}

/// The separator line of the rendered board.
pub open spec fn sep_chars() -> Seq<char> {
    "---|---|---|---|---|---|---|---|---|---\n"@
}

/// The rendered cells of rank `y`, from file `x` rightward.
pub open spec fn render_cells(v: Seq<OccupyType>, y: int, x: int) -> Seq<char>
    decreases 9 - x,
{
    if x < 1 || x > 8 {
        Seq::empty()
    } else {
        seq![' ', sym_char(at(v, x, y)), ' ', '|'] + render_cells(v, y, x + 1)
    }
}

/// The trailing label and separator of a rendered rank.
pub open spec fn row_tail(y: int) -> Seq<char> {
    seq![' ', digit_char(y), ' ', ' ', '\n'] + sep_chars()
}

/// One rendered rank: its label, its cells, the label again, a separator.
pub open spec fn render_row(v: Seq<OccupyType>, y: int) -> Seq<char> {
    seq![' ', digit_char(y), ' ', '|'] + render_cells(v, y, 1) + row_tail(y)
}

/// The rendered ranks from `y` down to 1.
pub open spec fn render_rows(v: Seq<OccupyType>, y: int) -> Seq<char>
    decreases y,
{
    if y < 1 {
        Seq::empty()
    } else {
        render_row(v, y) + render_rows(v, y - 1)
    }
}

/// The full rendered board: header, the eight ranks from the top down,
/// footer.
pub open spec fn render_board(v: Seq<OccupyType>) -> Seq<char> {
    seq!['\n'] + label_chars() + sep_chars() + render_rows(v, 8) + label_chars() + seq!['\n']
}

/// The cell state a character of a setup sketch denotes.
pub open spec fn setup_char_cell(c: char) -> OccupyType {
    if c == '*' || c == '#' || c == 'X' || c == 'x' {
        OccupyType::Black
    } else if c == '0' || c == 'o' || c == 'O' {
        OccupyType::White
    } else {
        OccupyType::Empty
    }
}

/// The effect of one sketch character at text position (`line`, `col`):
/// sketch line `l` (the first line is line 0 and is skipped) holds rank
/// `9 - l`, and column `c` holds file `c + 1`. Characters outside the
/// board window, and non-disc characters, change nothing.
pub open spec fn place_char(v: Seq<OccupyType>, c: char, line: int, col: int) -> Seq<OccupyType> {
    if 1 <= line <= 8 && 0 <= col <= 7 && setup_char_cell(c) != OccupyType::Empty {
        v.update(cell_index(col + 1, 9 - line), setup_char_cell(c))
    } else {
        v
    }
}

/// The board after the sketch characters from position `i` on are applied
/// to `v`, with the walk currently at text position (`line`, `col`).
pub open spec fn board_after_setup(
    v: Seq<OccupyType>,
    s: Seq<char>,
    i: int,
    line: int,
    col: int,
) -> Seq<OccupyType>
    decreases s.len() - i,
{
    if i < 0 || i >= s.len() {
        v
    } else if s[i] == '\n' {
        board_after_setup(v, s, i + 1, line + 1, 0)
    } else {
        board_after_setup(place_char(v, s[i], line, col), s, i + 1, line, col + 1)
    }
}

/// The size-mismatch condition reported by `deserialize` when the input
/// string does not hold exactly one character per board cell.
#[derive(Debug, PartialEq, Eq, Structural, Copy, Clone)]
pub enum FieldError {
    SizeMismatch,
}

/// The storage index of an on-board cell, as a `usize`.
fn cell_idx(x: u8, y: u8) -> (i: usize)
    requires
        coord_in_bounds(x as int, y as int),
    ensures
        i == cell_index(x as int, y as int),
        i < N_CELLS as usize,
{
    let row: u8 = BOARD_SIZE - y;
    let col: u8 = x - 1;
    assert(row <= 7 && col <= 7);
    let i: u8 = row * 8 + col;
    assert(i as int == cell_index(x as int, y as int));
    i as usize
}

/// The game board.
#[derive(Debug, Clone)]
pub struct Field {
    cells: Vec<OccupyType>,
}

impl View for Field {
    type V = Seq<OccupyType>;

    closed spec fn view(&self) -> Seq<OccupyType> {
        self.cells@
    }
}

impl Field {
    /// The board representation is well-formed.
    pub open spec fn wf(&self) -> bool {
        board_wf(self@)
    }

    /// An empty board: every cell `Empty`.
    pub fn new() -> (r: Field)
        ensures
            r.wf(),
            forall|x: int, y: int| at(r@, x, y) == OccupyType::Empty,
    {
        let mut cells: Vec<OccupyType> = Vec::new();
        let mut i: u8 = 0;
        while i < N_CELLS
            invariant
                i <= N_CELLS,
                cells@.len() == i,
                forall|j: int| 0 <= j < i ==> cells@[j] == OccupyType::Empty,
            decreases N_CELLS - i,
        {
            cells.push(OccupyType::Empty);
            i = i + 1;
        }
        let field = Field { cells };
        field
    }

    /// A copy of the board with the same cells.
    pub fn duplicate(&self) -> (r: Field)
        requires
            self.wf(),
        ensures
            r.wf(),
            r@ == self@,
    {
        let mut cells: Vec<OccupyType> = Vec::new();
        let mut i: usize = 0;
        while i < N_CELLS as usize
            invariant
                self.wf(),
                i <= N_CELLS,
                cells@.len() == i,
                forall|j: int| 0 <= j < i ==> cells@[j] == self@[j],
            decreases N_CELLS - i,
        {
            cells.push(self.cells[i]);
            i = i + 1;
        }
        proof {
            assert(cells@ =~= self@);
        }
        Field { cells }
    }

    /// The state of the cell at `p`.
    pub fn get_type(&self, p: &Point) -> (r: OccupyType)
        requires
            self.wf(),
            p.wf(),
        ensures
            r == at(self@, p.x as int, p.y as int),
    {
        let idx = cell_idx(p.x, p.y);
        self.cells[idx]
    }

    /// Writes cell `(x, y)`; the board is otherwise unchanged.
    fn set_cell(&mut self, x: u8, y: u8, t: OccupyType)
        requires
            old(self).wf(),
            coord_in_bounds(x as int, y as int),
        ensures
            final(self).wf(),
            final(self)@ == old(self)@.update(cell_index(x as int, y as int), t),
    {
        let idx = cell_idx(x, y);
        self.cells.set(idx, t);
    }

    /// Places a disc of color `bw` on the empty cell `p`. Placing on an
    /// occupied cell is a contract violation, ruled out up front; callers
    /// gate arbitrary moves through `is_valid_move`.
    pub fn add(&mut self, p: &Point, bw: OccupyType) -> (r: bool)
        requires
            old(self).wf(),
            p.wf(),
            bw != OccupyType::Empty,
            at(old(self)@, p.x as int, p.y as int) == OccupyType::Empty,
        ensures
            final(self).wf(),
            r,
            final(self)@ == old(self)@.update(cell_index(p.x as int, p.y as int), bw),
            at(final(self)@, p.x as int, p.y as int) == bw,
            forall|x: int, y: int|
                !(x == p.x as int && y == p.y as int) ==> #[trigger] at(final(self)@, x, y)
                    == at(old(self)@, x, y),
    {
        proof {
            lemma_cell_index_bijective();
        }
        self.set_cell(p.x, p.y, bw);
        true
    }

    /// Flips the disc at `p` to `bw`: the cell must currently hold the
    /// opposing color. Flipping an empty or same-colored cell is a contract
    /// violation, ruled out up front.
    pub fn change(&mut self, p: &Point, bw: OccupyType) -> (r: bool)
        requires
            old(self).wf(),
            p.wf(),
            bw != OccupyType::Empty,
            at(old(self)@, p.x as int, p.y as int) == opposite(bw),
        ensures
            final(self).wf(),
            r,
            final(self)@ == old(self)@.update(cell_index(p.x as int, p.y as int), bw),
            at(final(self)@, p.x as int, p.y as int) == bw,
            forall|x: int, y: int|
                !(x == p.x as int && y == p.y as int) ==> #[trigger] at(final(self)@, x, y)
                    == at(old(self)@, x, y),
    {
        proof {
            lemma_cell_index_bijective();
        }
        self.set_cell(p.x, p.y, bw);
        true
    }

    /// Places the four standard center discs of the starting position on
    /// their empty cells; every other cell keeps its state.
    pub fn init(&mut self)
        requires
            old(self).wf(),
            at(old(self)@, 4, 4) == OccupyType::Empty,
            at(old(self)@, 5, 5) == OccupyType::Empty,
            at(old(self)@, 4, 5) == OccupyType::Empty,
            at(old(self)@, 5, 4) == OccupyType::Empty,
        ensures
            final(self).wf(),
            at(final(self)@, 4, 4) == OccupyType::Black,
            at(final(self)@, 5, 5) == OccupyType::Black,
            at(final(self)@, 4, 5) == OccupyType::White,
            at(final(self)@, 5, 4) == OccupyType::White,
            forall|x: int, y: int|
                !((x == 4 || x == 5) && (y == 4 || y == 5)) ==> #[trigger] at(final(self)@, x, y)
                    == at(old(self)@, x, y),
    {
        let middle: u8 = BOARD_SIZE / 2;
        self.add(&Point::new(middle, middle), OccupyType::Black);
        self.add(&Point::new(middle + 1, middle + 1), OccupyType::Black);
        self.add(&Point::new(middle, middle + 1), OccupyType::White);
        self.add(&Point::new(middle + 1, middle), OccupyType::White);
    }

    /// The score as `(white discs, black discs)`.
    pub fn get_score_wb(&self) -> (r: (u8, u8))
        requires
            self.wf(),
        ensures
            r.0 == count_color(self@, OccupyType::White),
            r.1 == count_color(self@, OccupyType::Black),
    {
        let mut black: u8 = 0;
        let mut white: u8 = 0;
        let mut i: usize = 0;
        while i < N_CELLS as usize
            invariant
                self.wf(),
                i <= N_CELLS,
                black == count_upto(self@, OccupyType::Black, i as int),
                white == count_upto(self@, OccupyType::White, i as int),
            decreases N_CELLS - i,
        {
            proof {
                lemma_count_upto_bounds(self@, OccupyType::Black, i as int);
                lemma_count_upto_bounds(self@, OccupyType::White, i as int);
            }
            let val = self.cells[i];
            if val == OccupyType::Black {
                black = black + 1;
            } else if val == OccupyType::White {
                white = white + 1;
            }
            i = i + 1;
        }
        (white, black)
    }

    /// All occupied cells, split by owner: `(white positions, black
    /// positions)`, each listed once.
    pub fn get_position_wb(&self) -> (r: (Vec<Point>, Vec<Point>))
        requires
            self.wf(),
        ensures
            forall|j: int|
                0 <= j < r.0@.len() ==> (#[trigger] r.0@[j]).wf()
                    && at(self@, r.0@[j].x as int, r.0@[j].y as int) == OccupyType::White,
            forall|j: int|
                0 <= j < r.1@.len() ==> (#[trigger] r.1@[j]).wf()
                    && at(self@, r.1@[j].x as int, r.1@[j].y as int) == OccupyType::Black,
            forall|x: int, y: int|
                coord_in_bounds(x, y) && #[trigger] at(self@, x, y) == OccupyType::White
                    ==> r.0@.contains(Point { x: x as u8, y: y as u8 }),
            forall|x: int, y: int|
                coord_in_bounds(x, y) && #[trigger] at(self@, x, y) == OccupyType::Black
                    ==> r.1@.contains(Point { x: x as u8, y: y as u8 }),
            forall|j1: int, j2: int|
                0 <= j1 < j2 < r.0@.len() ==> r.0@[j1] != r.0@[j2],
            forall|j1: int, j2: int|
                0 <= j1 < j2 < r.1@.len() ==> r.1@[j1] != r.1@[j2],
    {
        proof {
            lemma_cell_index_bijective();
        }
        let mut white: Vec<Point> = Vec::new();
        let mut black: Vec<Point> = Vec::new();
        let mut i: usize = 0;
        while i < N_CELLS as usize
            invariant
                self.wf(),
                i <= N_CELLS,
                forall|j: int|
                    0 <= j < white@.len() ==> (#[trigger] white@[j]).wf()
                        && at(self@, white@[j].x as int, white@[j].y as int) == OccupyType::White
                        && cell_index(white@[j].x as int, white@[j].y as int) < i,
                forall|j: int|
                    0 <= j < black@.len() ==> (#[trigger] black@[j]).wf()
                        && at(self@, black@[j].x as int, black@[j].y as int) == OccupyType::Black
                        && cell_index(black@[j].x as int, black@[j].y as int) < i,
                forall|x: int, y: int|
                    coord_in_bounds(x, y) && cell_index(x, y) < i && #[trigger] at(self@, x, y)
                        == OccupyType::White ==> white@.contains(Point { x: x as u8, y: y as u8 }),
                forall|x: int, y: int|
                    coord_in_bounds(x, y) && cell_index(x, y) < i && #[trigger] at(self@, x, y)
                        == OccupyType::Black ==> black@.contains(Point { x: x as u8, y: y as u8 }),
                forall|j1: int, j2: int|
                    0 <= j1 < j2 < white@.len() ==> white@[j1] != white@[j2],
                forall|j1: int, j2: int|
                    0 <= j1 < j2 < black@.len() ==> black@[j1] != black@[j2],
            decreases N_CELLS - i,
        {
            proof {
                lemma_cell_index_bijective();
            }
            let x: u8 = (i % BOARD_SIZE as usize) as u8 + 1;
            let y: u8 = BOARD_SIZE - (i / BOARD_SIZE as usize) as u8;
            let p = Point::new(x, y);
            assert(cell_index(x as int, y as int) == i);
            let t = self.cells[i];
            assert(t == at(self@, x as int, y as int));
            let ghost old_white = white@;
            let ghost old_black = black@;
            if t == OccupyType::White {
                assert(forall|j: int|
                    0 <= j < white@.len() ==> #[trigger] white@[j] != p);
                white.push(p);
            } else if t == OccupyType::Black {
                assert(forall|j: int|
                    0 <= j < black@.len() ==> #[trigger] black@[j] != p);
                black.push(p);
            }
            proof {
                assert forall|x2: int, y2: int|
                    coord_in_bounds(x2, y2) && cell_index(x2, y2) < i + 1
                        && #[trigger] at(self@, x2, y2) == OccupyType::White
                    implies white@.contains(Point { x: x2 as u8, y: y2 as u8 }) by {
                    let q = Point { x: x2 as u8, y: y2 as u8 };
                    if cell_index(x2, y2) < i {
                        let j = choose|j: int| 0 <= j < old_white.len() && old_white[j] == q;
                        assert(white@[j] == q);
                    } else {
                        assert(x2 == cell_x(i as int) && y2 == cell_y(i as int));
                        assert(q == p);
                        assert(white@[white@.len() - 1] == p);
                    }
                }
                assert forall|x2: int, y2: int|
                    coord_in_bounds(x2, y2) && cell_index(x2, y2) < i + 1
                        && #[trigger] at(self@, x2, y2) == OccupyType::Black
                    implies black@.contains(Point { x: x2 as u8, y: y2 as u8 }) by {
                    let q = Point { x: x2 as u8, y: y2 as u8 };
                    if cell_index(x2, y2) < i {
                        let j = choose|j: int| 0 <= j < old_black.len() && old_black[j] == q;
                        assert(black@[j] == q);
                    } else {
                        assert(x2 == cell_x(i as int) && y2 == cell_y(i as int));
                        assert(q == p);
                        assert(black@[black@.len() - 1] == p);
                    }
                }
            }
            i = i + 1;
        }
        (white, black)
    }

    /// The set of opposing discs that would flip if `color` were placed at
    /// `p`: for each of the eight directions, the contiguous run of
    /// opposing discs anchored by a disc of `color`. Empty exactly when the
    /// move is not legal at `p` (in particular, whenever `p` is occupied).
    #[verifier::rlimit(50)]
    pub fn get_opposite_points(&self, p: &Point, color: OccupyType) -> (r: Vec<Point>)
        requires
            self.wf(),
            p.wf(),
            color != OccupyType::Empty,
        ensures
            forall|m: int| 0 <= m < r@.len() ==> (#[trigger] r@[m]).wf(),
            forall|q: Point| #[trigger] r@.contains(q) <==> flips(
                self@,
                p.x as int,
                p.y as int,
                color,
                q.x as int,
                q.y as int,
            ),
            r@.no_duplicates(),
            r@.len() == flip_count(self@, p.x as int, p.y as int, color),
            r@.len() <= 63,
    {
        let ghost v = self@;
        let ghost sx = p.x as int;
        let ghost sy = p.y as int;
        let pt = self.get_type(p);
        if pt != OccupyType::Empty {
            let r: Vec<Point> = Vec::new();
            return r;
        }
        let x: u8 = p.x;
        let y: u8 = p.y;
        let opp_color = OccupyType::get_opposite_type(color);
        let mut result: Vec<Point> = Vec::new();
        let mut d: u8 = 0;
        while d < 9
            invariant
                self.wf(),
                p.wf(),
                color != OccupyType::Empty,
                opp_color == opposite(color),
                v == self@,
                sx == p.x as int,
                sy == p.y as int,
                x == p.x,
                y == p.y,
                at(v, sx, sy) == OccupyType::Empty,
                d <= 9,
                result@.len() == run_sum(v, sx, sy, color, d as int),
                result@.len() <= 7 * (d as int),
                forall|m: int| 0 <= m < result@.len() ==> (#[trigger] result@[m]).wf(),
                forall|q: Point| #[trigger] result@.contains(q) <==> exists|d2: int|
                    0 <= d2 < d as int && #[trigger] flips_dir_at(
                        v,
                        sx,
                        sy,
                        dir_dx(d2),
                        dir_dy(d2),
                        color,
                        q.x as int,
                        q.y as int,
                    ),
                result@.no_duplicates(),
            decreases 9 - d,
        {
            let dx: i8 = (d / 3) as i8 - 1;
            let dy: i8 = (d % 3) as i8 - 1;
            let ghost idx = dx as int;
            let ghost idy = dy as int;
            proof {
                assert(idx == dir_dx(d as int) && idy == dir_dy(d as int));
                assert(-1 <= idx <= 1 && -1 <= idy <= 1);
            }
            let mut step: u8 = 1;
            let mut cx: i8 = x as i8 + dx;
            let mut cy: i8 = y as i8 + dy;
            let mut current: Vec<Point> = Vec::new();
            let mut committed = false;
            proof {
                assert(cx as int == sx + 1 * idx && cy as int == sy + 1 * idy);
            }
            loop
                invariant_except_break
                    self.wf(),
                    p.wf(),
                    color != OccupyType::Empty,
                    opp_color == opposite(color),
                    v == self@,
                    sx == p.x as int,
                    sy == p.y as int,
                    at(v, sx, sy) == OccupyType::Empty,
                    -1 <= idx <= 1,
                    -1 <= idy <= 1,
                    dx as int == idx,
                    dy as int == idy,
                    1 <= sx <= 8,
                    1 <= sy <= 8,
                    1 <= step <= 8,
                    cx as int == sx + (step as int) * idx,
                    cy as int == sy + (step as int) * idy,
                    forall|k: int|
                        1 <= k < step as int ==> #[trigger] cell_in_dir(v, sx, sy, idx, idy, k)
                            == opposite(color),
                    current@.len() == step as int - 1,
                    forall|m: int|
                        0 <= m < current@.len() ==> (#[trigger] current@[m]).wf()
                            && current@[m].x as int == sx + (m + 1) * idx
                            && current@[m].y as int == sy + (m + 1) * idy,
                    committed == false,
                ensures
                    v == self@,
                    current@.len() <= 7,
                    forall|m: int|
                        0 <= m < current@.len() ==> (#[trigger] current@[m]).wf()
                            && current@[m].x as int == sx + (m + 1) * idx
                            && current@[m].y as int == sy + (m + 1) * idy,
                    committed ==> captures(v, sx, sy, idx, idy, color, current@.len() as int)
                        && current@.len() >= 1,
                    !committed ==> forall|n: int|
                        !(#[trigger] captures(v, sx, sy, idx, idy, color, n)),
                decreases 9 - step,
            {
                if !Point::check_point(cx, cy) {
                    proof {
                        assert(cell_in_dir(v, sx, sy, idx, idy, step as int)
                            == OccupyType::Empty);
                        lemma_no_captures(v, sx, sy, idx, idy, color, step as int);
                    }
                    break;
                }
                let cp = Point::new(cx as u8, cy as u8);
                let ct = self.get_type(&cp);
                proof {
                    assert(cell_in_dir(v, sx, sy, idx, idy, step as int) == ct);
                }
                if ct != opp_color {
                    if ct == color && step >= 2 {
                        committed = true;
                        proof {
                            assert(captures(v, sx, sy, idx, idy, color, step as int - 1));
                        }
                    } else {
                        proof {
                            lemma_no_captures(v, sx, sy, idx, idy, color, step as int);
                        }
                    }
                    break;
                }
                current.push(cp);
                proof {
                    assert(coord_in_bounds(sx + (step as int) * idx, sy + (step as int) * idy));
                    assert(!(idx == 0 && idy == 0)) by {
                        if idx == 0 && idy == 0 {
                            assert(cell_in_dir(v, sx, sy, 0, 0, step as int) == at(
                                v,
                                sx + (step as int) * 0,
                                sy + (step as int) * 0,
                            ));
                            assert((step as int) * 0 == 0) by (nonlinear_arith);
                        }
                    }
                    assert(step as int <= 7) by (nonlinear_arith)
                        requires
                            -1 <= idx <= 1,
                            -1 <= idy <= 1,
                            !(idx == 0 && idy == 0),
                            1 <= sx <= 8,
                            1 <= sy <= 8,
                            1 <= step as int,
                            coord_in_bounds(sx + (step as int) * idx, sy + (step as int) * idy),
                    ;
                    assert((step as int + 1) * idx == (step as int) * idx + idx)
                        by (nonlinear_arith);
                    assert((step as int + 1) * idy == (step as int) * idy + idy)
                        by (nonlinear_arith);
                }
                step = step + 1;
                cx = cx + dx;
                cy = cy + dy;
            }
            let ghost old_result = result@;
            let ghost cur = current@;
            if committed {
                result.append(&mut current);
                proof {
                    lemma_commit_run(v, sx, sy, d as int, color, old_result, cur, result@);
                    assert(run_sum(v, sx, sy, color, d as int + 1) == run_sum(
                        v, sx, sy, color, d as int,
                    ) + run_len(v, sx, sy, dir_dx(d as int), dir_dy(d as int), color));
                }
            } else {
                proof {
                    lemma_run_len_props(v, sx, sy, idx, idy, color);
                    assert(!dir_captured(v, sx, sy, idx, idy, color));
                    assert(run_len(v, sx, sy, idx, idy, color) == 0);
                    let ghost dd = d as int;
                    assert forall|q: Point| #[trigger] result@.contains(q) implies exists|d2: int|
                        0 <= d2 < dd + 1 && #[trigger] flips_dir_at(
                            v, sx, sy, dir_dx(d2), dir_dy(d2), color, q.x as int, q.y as int,
                        ) by {}
                    assert forall|q: Point| (exists|d2: int|
                        0 <= d2 < dd + 1 && #[trigger] flips_dir_at(
                            v, sx, sy, dir_dx(d2), dir_dy(d2), color, q.x as int, q.y as int,
                        )) implies #[trigger] result@.contains(q) by {
                        let d2 = choose|d2: int|
                            0 <= d2 < dd + 1 && flips_dir_at(
                                v, sx, sy, dir_dx(d2), dir_dy(d2), color, q.x as int, q.y as int,
                            );
                        if d2 == dd {
                            assert(false);
                        }
                    }
                }
            }
            d = d + 1;
        }
        proof {
            lemma_dir_numbering();
            assert forall|q: Point| #[trigger] result@.contains(q) implies flips(
                v, sx, sy, color, q.x as int, q.y as int,
            ) by {
                let d2 = choose|d2: int|
                    0 <= d2 < 9 && flips_dir_at(
                        v, sx, sy, dir_dx(d2), dir_dy(d2), color, q.x as int, q.y as int,
                    );
                if dir_dx(d2) == 0 && dir_dy(d2) == 0 {
                    lemma_null_dir_no_flips(v, sx, sy, color);
                } else {
                    assert(is_dir(dir_dx(d2), dir_dy(d2)));
                }
            }
            assert forall|q: Point| flips(v, sx, sy, color, q.x as int, q.y as int)
                implies #[trigger] result@.contains(q) by {
                let (dx2, dy2) = choose|dx2: int, dy2: int|
                    is_dir(dx2, dy2) && #[trigger] flips_dir_at(
                        v, sx, sy, dx2, dy2, color, q.x as int, q.y as int,
                    );
                lemma_dir_number_of(dx2, dy2);
                let d2 = (dx2 + 1) * 3 + (dy2 + 1);
                assert(flips_dir_at(
                    v, sx, sy, dir_dx(d2), dir_dy(d2), color, q.x as int, q.y as int,
                ));
            }
        }
        result
    }

    /// Whether placing `bw` at `p` is a legal move, together with the
    /// number of discs it would flip. Legal exactly when the cell is empty
    /// and the flip count is positive.
    pub fn is_valid_move(&self, p: &Point, bw: OccupyType) -> (r: (bool, u8))
        requires
            self.wf(),
            p.wf(),
            bw != OccupyType::Empty,
        ensures
            r.0 == legal(self@, p.x as int, p.y as int, bw),
            r.1 == flip_count(self@, p.x as int, p.y as int, bw),
            r.0 == (r.1 > 0),
    {
        proof {
            lemma_legal_iff_count(self@, p.x as int, p.y as int, bw);
        }
        let pt = self.get_type(p);
        if pt != OccupyType::Empty {
            return (false, 0);
        }
        let points = self.get_opposite_points(p, bw);
        let n = points.len();
        (n > 0, n as u8)
    }

    /// Every legal move for `bw`, with its flip count, in row-major board
    /// scan order: the highest rank first, left to right within a rank —
    /// the same fixed order the serialized form uses.
    pub fn get_list_of_moves(&self, bw: OccupyType) -> (r: Vec<(Point, u8)>)
        requires
            self.wf(),
            bw != OccupyType::Empty,
        ensures
            forall|m: int|
                0 <= m < r@.len() ==> (#[trigger] r@[m]).0.wf() && legal(
                    self@, r@[m].0.x as int, r@[m].0.y as int, bw,
                ) && r@[m].1 == flip_count(self@, r@[m].0.x as int, r@[m].0.y as int, bw)
                    && r@[m].1 >= 1,
            forall|x: int, y: int|
                #[trigger] legal(self@, x, y, bw) ==> exists|m: int|
                    0 <= m < r@.len() && #[trigger] r@[m].0 == (Point { x: x as u8, y: y as u8 }),
            forall|m1: int, m2: int|
                0 <= m1 < m2 < r@.len() ==> cell_index(r@[m1].0.x as int, r@[m1].0.y as int)
                    < cell_index(r@[m2].0.x as int, r@[m2].0.y as int),
    {
        proof {
            lemma_cell_index_bijective();
        }
        let mut result: Vec<(Point, u8)> = Vec::new();
        let mut i: u8 = 0;
        while i < N_CELLS
            invariant
                self.wf(),
                bw != OccupyType::Empty,
                i <= N_CELLS,
                forall|m: int|
                    0 <= m < result@.len() ==> (#[trigger] result@[m]).0.wf() && legal(
                        self@, result@[m].0.x as int, result@[m].0.y as int, bw,
                    ) && result@[m].1 == flip_count(
                        self@, result@[m].0.x as int, result@[m].0.y as int, bw,
                    ) && result@[m].1 >= 1 && cell_index(
                        result@[m].0.x as int, result@[m].0.y as int,
                    ) < i as int,
                forall|x: int, y: int|
                    #[trigger] legal(self@, x, y, bw) && cell_index(x, y) < i as int
                        ==> exists|m: int|
                        0 <= m < result@.len() && #[trigger] result@[m].0 == (Point {
                            x: x as u8,
                            y: y as u8,
                        }),
                forall|m1: int, m2: int|
                    0 <= m1 < m2 < result@.len() ==> cell_index(
                        result@[m1].0.x as int, result@[m1].0.y as int,
                    ) < cell_index(result@[m2].0.x as int, result@[m2].0.y as int),
            decreases N_CELLS - i,
        {
            proof {
                lemma_cell_index_bijective();
            }
            let x: u8 = i % 8 + 1;
            let y: u8 = 8 - i / 8;
            proof {
                assert(x as int == cell_x(i as int) && y as int == cell_y(i as int));
                assert(cell_index(x as int, y as int) == i as int);
            }
            let p = Point::new(x, y);
            let ghost old_result = result@;
            let pt = self.get_type(&p);
            if pt == OccupyType::Empty {
                let (valid, score) = self.is_valid_move(&p, bw);
                if valid {
                    result.push((p, score));
                }
            }
            proof {
                assert forall|x2: int, y2: int|
                    #[trigger] legal(self@, x2, y2, bw) && cell_index(x2, y2) < i as int + 1
                    implies exists|m: int|
                    0 <= m < result@.len() && #[trigger] result@[m].0 == (Point {
                        x: x2 as u8,
                        y: y2 as u8,
                    }) by {
                    if cell_index(x2, y2) < i as int {
                        let m = choose|m: int|
                            0 <= m < old_result.len() && #[trigger] old_result[m].0 == (Point {
                                x: x2 as u8,
                                y: y2 as u8,
                            });
                        assert(result@[m].0 == (Point { x: x2 as u8, y: y2 as u8 }));
                    } else {
                        // only one on-board cell has this scan position
                        assert(x2 == cell_x(i as int) && y2 == cell_y(i as int));
                        assert(x2 == x as int && y2 == y as int);
                        assert(result@[result@.len() - 1].0 == (Point {
                            x: x2 as u8,
                            y: y2 as u8,
                        }));
                    }
                }
            }
            i = i + 1;
        }
        result
    }

    /// Applies the legal move `p` for `bw`: flips every captured disc to
    /// `bw`, places `bw` at `p`, and reports how many discs flipped. This
    /// is the only mutation path for game moves; callers gate arbitrary
    /// moves through `is_valid_move`.
    pub fn move_in_game(&mut self, p: &Point, bw: OccupyType) -> (r: u8)
        requires
            old(self).wf(),
            p.wf(),
            bw != OccupyType::Empty,
            legal(old(self)@, p.x as int, p.y as int, bw),
        ensures
            final(self).wf(),
            final(self)@ == apply_move(old(self)@, p.x as int, p.y as int, bw),
            r == flip_count(old(self)@, p.x as int, p.y as int, bw),
            r >= 1,
    {
        let ghost v = self@;
        let ghost sx = p.x as int;
        let ghost sy = p.y as int;
        proof {
            lemma_legal_iff_count(v, sx, sy, bw);
        }
        let points = self.get_opposite_points(p, bw);
        let num = points.len() as u8;
        let mut i: usize = 0;
        while i < points.len()
            invariant
                self.wf(),
                p.wf(),
                bw != OccupyType::Empty,
                sx == p.x as int,
                sy == p.y as int,
                board_wf(v),
                at(v, sx, sy) == OccupyType::Empty,
                i <= points@.len(),
                forall|m: int| 0 <= m < points@.len() ==> (#[trigger] points@[m]).wf(),
                forall|q: Point| #[trigger] points@.contains(q) <==> flips(
                    v, sx, sy, bw, q.x as int, q.y as int,
                ),
                points@.no_duplicates(),
                forall|x2: int, y2: int|
                    coord_in_bounds(x2, y2) ==> #[trigger] at(self@, x2, y2) == (
                    if exists|m: int|
                        0 <= m < i && #[trigger] points@[m] == (Point { x: x2 as u8, y: y2 as u8 }) {
                        bw
                    } else {
                        at(v, x2, y2)
                    }),
            decreases points@.len() - i,
        {
            let cp = points[i];
            proof {
                assert(points@.contains(cp));
                lemma_flip_cell_holds_opposite(v, sx, sy, bw, cp.x as int, cp.y as int);
                if exists|m: int|
                    0 <= m < i && #[trigger] points@[m] == (Point { x: cp.x, y: cp.y }) {
                    let m = choose|m: int|
                        0 <= m < i && #[trigger] points@[m] == (Point { x: cp.x, y: cp.y });
                    assert(points@[m] == points@[i as int]);
                    assert(false);
                }
                assert(at(self@, cp.x as int, cp.y as int) == opposite(bw));
            }
            let ghost before = self@;
            self.change(&cp, bw);
            proof {
                assert forall|x2: int, y2: int| coord_in_bounds(x2, y2)
                    implies #[trigger] at(self@, x2, y2) == (
                    if exists|m: int|
                        0 <= m < i + 1 && #[trigger] points@[m] == (Point {
                            x: x2 as u8,
                            y: y2 as u8,
                        }) {
                        bw
                    } else {
                        at(v, x2, y2)
                    }) by {
                    let q = Point { x: x2 as u8, y: y2 as u8 };
                    if x2 == cp.x as int && y2 == cp.y as int {
                        assert(q == points@[i as int]);
                        assert(at(self@, x2, y2) == bw);
                    } else {
                        assert(at(self@, x2, y2) == at(before, x2, y2));
                        if exists|m: int| 0 <= m < i + 1 && #[trigger] points@[m] == q {
                            let m = choose|m: int| 0 <= m < i + 1 && #[trigger] points@[m] == q;
                            assert(m < i);
                            assert(exists|m2: int| 0 <= m2 < i && #[trigger] points@[m2] == q);
                        }
                    }
                }
            }
            i = i + 1;
        }
        proof {
            if exists|m: int|
                0 <= m < points@.len() && #[trigger] points@[m] == (Point { x: p.x, y: p.y }) {
                let m = choose|m: int|
                    0 <= m < points@.len() && #[trigger] points@[m] == (Point { x: p.x, y: p.y });
                assert(points@.contains(points@[m]));
                lemma_flip_cell_holds_opposite(v, sx, sy, bw, sx, sy);
            }
            assert(at(self@, sx, sy) == OccupyType::Empty);
        }
        self.add(p, bw);
        proof {
            lemma_cell_index_bijective();
            lemma_apply_move_at(v, sx, sy, bw);
            assert forall|i0: int| 0 <= i0 < 64 implies self@[i0] == apply_move(v, sx, sy, bw)[i0]
                by {
                let x2 = cell_x(i0);
                let y2 = cell_y(i0);
                assert(coord_in_bounds(x2, y2) && cell_index(x2, y2) == i0);
                assert(at(self@, x2, y2) == self@[i0]);
                assert(at(apply_move(v, sx, sy, bw), x2, y2) == apply_move(v, sx, sy, bw)[i0]);
                if x2 == sx && y2 == sy {
                } else if flips(v, sx, sy, bw, x2, y2) {
                    let q = Point { x: x2 as u8, y: y2 as u8 };
                    assert(points@.contains(q));
                    let m = choose|m: int| 0 <= m < points@.len() && points@[m] == q;
                    assert(exists|m2: int|
                        0 <= m2 < points@.len() && #[trigger] points@[m2] == q);
                } else {
                    let q = Point { x: x2 as u8, y: y2 as u8 };
                    if exists|m2: int| 0 <= m2 < points@.len() && #[trigger] points@[m2] == q {
                        let m = choose|m2: int|
                            0 <= m2 < points@.len() && #[trigger] points@[m2] == q;
                        assert(points@.contains(points@[m]));
                        assert(flips(v, sx, sy, bw, x2, y2));
                    }
                }
            }
            assert(self@ =~= apply_move(v, sx, sy, bw));
        }
        num
    }

    /// Renders the board as a text table with rank and file labels; the
    /// exact text is `render_board` of the board's cells.
    pub fn to_string(&self) -> (r: String)
        requires
            self.wf(),
        ensures
            r@ == render_board(self@),
    {
        proof {
            reveal_strlit("\n");
            reveal_strlit(" ");
            reveal_strlit(" |");
            reveal_strlit("  \n");
        }
        let ghost v = self@;
        let mut ret = String::new();
        ret.append("\n");
        ret.append("   | 1 | 2 | 3 | 4 | 5 | 6 | 7 | 8 |\n");
        ret.append("---|---|---|---|---|---|---|---|---|---\n");
        let ghost head = seq!['\n'] + label_chars() + sep_chars();
        proof {
            assert(ret@ =~= head);
        }
        let ghost target = head + render_rows(v, 8);
        let mut y: u8 = 8;
        while y >= 1
            invariant
                self.wf(),
                v == self@,
                y <= 8,
                ret@ + render_rows(v, y as int) =~= target,
            decreases y,
        {
            let ghost ret0 = ret@;
            ret.append(" ");
            ret.append(digit_str(y));
            ret.append(" |");
            proof {
                reveal_strlit(" ");
                reveal_strlit(" |");
                assert(ret@ =~= ret0 + seq![' ', digit_char(y as int), ' ', '|']);
                assert(render_rows(v, y as int) == render_row(v, y as int) + render_rows(
                    v, y as int - 1,
                ));
                assert(ret@ + render_cells(v, y as int, 1) + row_tail(y as int) + render_rows(
                    v, y as int - 1,
                ) =~= target);
            }
            let mut x: u8 = 1;
            while x <= 8
                invariant
                    self.wf(),
                    v == self@,
                    1 <= y <= 8,
                    1 <= x <= 9,
                    ret@ + render_cells(v, y as int, x as int) + row_tail(y as int) + render_rows(
                        v, y as int - 1,
                    ) =~= target,
                decreases 9 - x,
            {
                let ghost retx = ret@;
                let idx = cell_idx(x, y);
                ret.append(" ");
                ret.append(sym_str(self.cells[idx]));
                ret.append(" |");
                proof {
                    reveal_strlit(" ");
                    reveal_strlit(" |");
                    assert(ret@ =~= retx + seq![
                        ' ', sym_char(at(v, x as int, y as int)), ' ', '|',
                    ]);
                    assert(render_cells(v, y as int, x as int) == seq![
                        ' ', sym_char(at(v, x as int, y as int)), ' ', '|',
                    ] + render_cells(v, y as int, x as int + 1));
                    assert(ret@ + render_cells(v, y as int, x as int + 1) + row_tail(y as int)
                        + render_rows(v, y as int - 1) =~= target);
                }
                x = x + 1;
            }
            let ghost rety = ret@;
            ret.append(" ");
            ret.append(digit_str(y));
            ret.append("  \n");
            ret.append("---|---|---|---|---|---|---|---|---|---\n");
            proof {
                reveal_strlit(" ");
                reveal_strlit("  \n");
                assert(ret@ =~= rety + row_tail(y as int));
                assert(ret@ + render_rows(v, y as int - 1) =~= target);
            }
            y = y - 1;
        }
        ret.append("   | 1 | 2 | 3 | 4 | 5 | 6 | 7 | 8 |\n");
        ret.append("\n");
        proof {
            assert(ret@ =~= render_board(v));
        }
        ret
    }

    /// The serialized board: exactly one symbol per cell, row-major from
    /// the highest rank down, left to right within a rank.
    pub fn serialize(&self) -> (r: String)
        requires
            self.wf(),
        ensures
            r@ == serial_chars(self@),
    {
        let mut ret = String::new();
        let mut i: usize = 0;
        while i < N_CELLS as usize
            invariant
                self.wf(),
                i <= N_CELLS,
                ret@.len() == i,
                forall|j: int| 0 <= j < i ==> ret@[j] == sym_char(self@[j]),
            decreases N_CELLS - i,
        {
            ret.append(sym_str(self.cells[i]));
            i = i + 1;
        }
        proof {
            assert(ret@ =~= serial_chars(self@));
        }
        ret
    }

    /// Rebuilds the board from its serialized form. A string that does not
    /// hold exactly one character per board cell is rejected with
    /// `SizeMismatch` and the board is left unchanged; otherwise every cell
    /// is set from its character.
    pub fn deserialize(&mut self, s: &String) -> (r: Result<(), FieldError>)
        requires
            old(self).wf(),
        ensures
            final(self).wf(),
            s@.len() == N_CELLS ==> r is Ok && final(self)@ == parse_cells(s@),
            s@.len() != N_CELLS ==> r == Err::<(), FieldError>(FieldError::SizeMismatch)
                && final(self)@ == old(self)@,
    {
        if s.as_str().unicode_len() != N_CELLS as usize {
            return Err(FieldError::SizeMismatch);
        }
        let mut i: usize = 0;
        while i < N_CELLS as usize
            invariant
                self.wf(),
                s@.len() == N_CELLS,
                i <= N_CELLS,
                forall|j: int| 0 <= j < i ==> self@[j] == char_cell(s@[j]),
                forall|j: int| i <= j < N_CELLS ==> self@[j] == old(self)@[j],
            decreases N_CELLS - i,
        {
            let c = s.as_str().get_char(i);
            let t = if c == '#' {
                OccupyType::Black
            } else if c == 'O' {
                OccupyType::White
            } else {
                OccupyType::Empty
            };
            self.cells.set(i, t);
            i = i + 1;
        }
        proof {
            assert(self@ =~= parse_cells(s@));
        }
        Ok(())
    }

    /// Fills the board from a text sketch, for tests and debugging: the
    /// first sketch line is skipped, the next eight lines are the ranks
    /// from 8 down to 1, and within a line the first eight columns are the
    /// files; `*`, `#`, `X` and `x` put a black disc, `0`, `o` and `O` a
    /// white one, and everything else leaves the cell as it was.
    pub fn setup_field(&mut self, string_field: &str)
        requires
            old(self).wf(),
        ensures
            final(self).wf(),
            final(self)@ == board_after_setup(old(self)@, string_field@, 0, 0, 0),
    {
        let ghost v0 = old(self)@;
        let ghost s = string_field@;
        let n = string_field.unicode_len();
        let mut i: usize = 0;
        let mut line: usize = 0;
        let mut col: usize = 0;
        while i < n
            invariant
                self.wf(),
                s == string_field@,
                n == s.len(),
                i <= n,
                line <= i,
                col <= i,
                board_after_setup(v0, s, 0, 0, 0) == board_after_setup(
                    self@, s, i as int, line as int, col as int,
                ),
            decreases n - i,
        {
            let c = string_field.get_char(i);
            let ghost before = self@;
            if c == '\n' {
                line = line + 1;
                col = 0;
            } else {
                if line >= 1 && line <= 8 && col <= 7 {
                    let t = if c == '*' || c == '#' || c == 'X' || c == 'x' {
                        OccupyType::Black
                    } else if c == '0' || c == 'o' || c == 'O' {
                        OccupyType::White
                    } else {
                        OccupyType::Empty
                    };
                    if t != OccupyType::Empty {
                        self.set_cell((col + 1) as u8, (9 - line) as u8, t);
                    }
                }
                proof {
                    assert(self@ == place_char(before, s[i as int], line as int, col as int));
                }
                col = col + 1;
            }
            i = i + 1;
        }
    }
}

} // verus!
