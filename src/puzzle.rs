use vstd::prelude::*;
use vstd::arithmetic::div_mod::lemma_fundamental_div_mod_converse;
use crate::vector::{Vector2, abs};
use ndarray_rand::rand::seq::SliceRandom;

verus! {

/// The direction in which the blank travels.
#[derive(Clone, Copy, PartialEq, Eq, Structural, Debug)]
pub enum ActionType {
    NoMove,
    Up,
    Down,
    Left,
    Right,
}

/// Why a tile arrangement was rejected.
#[derive(Clone, Copy, PartialEq, Eq, Structural, Debug)]
pub enum PuzzleError {
    InvalidArrangement,
}

/// The mathematical content of a grid: its size, its tiles in row-major
/// order, and the row and column of the blank (label 0).
pub ghost struct GridView {
    pub rows: int,
    pub cols: int,
    pub tiles: Seq<u8>,
    pub blank_row: int,
    pub blank_col: int,
}

/// Label `v` occurs somewhere in `t`.
pub open spec fn has_label(t: Seq<u8>, v: int) -> bool {
    exists|i: int| 0 <= i < t.len() && t[i] as int == v
}

/// `t` holds each label `0..t.len()` exactly once.
pub open spec fn is_arrangement(t: Seq<u8>) -> bool {
    &&& forall|i: int| 0 <= i < t.len() ==> (#[trigger] t[i] as int) < t.len()
    &&& forall|i: int, j: int| 0 <= i < j < t.len() ==> #[trigger] t[i] != #[trigger] t[j]
    &&& forall|v: int| 0 <= v < t.len() ==> #[trigger] has_label(t, v)
}

/// The flat row-major index of a cell.
pub open spec fn cell(row: int, col: int, cols: int) -> int {
    row * cols + col
}

impl GridView {
    pub open spec fn wf(self) -> bool {
        &&& 1 <= self.rows
        &&& 1 <= self.cols
        &&& self.tiles.len() == self.rows * self.cols
        &&& is_arrangement(self.tiles)
        &&& 0 <= self.blank_row < self.rows
        &&& 0 <= self.blank_col < self.cols
        &&& self.tiles[cell(self.blank_row, self.blank_col, self.cols)] == 0
    }

    /// The cell the blank moves to; the blank's own cell when the move would
    /// leave the grid.
    pub open spec fn target(self, m: ActionType) -> (int, int) {
        let r = self.blank_row;
        let c = self.blank_col;
        match m {
            ActionType::NoMove => (r, c),
            ActionType::Up => if r > 0 { (r - 1, c) } else { (r, c) },
            ActionType::Down => if r < self.rows - 1 { (r + 1, c) } else { (r, c) },
            ActionType::Left => if c > 0 { (r, c - 1) } else { (r, c) },
            ActionType::Right => if c < self.cols - 1 { (r, c + 1) } else { (r, c) },
        }
    }

    /// The grid after the blank travels one step in direction `m`.
    pub open spec fn step(self, m: ActionType) -> GridView {
        let (r, c) = self.target(m);
        let from = cell(self.blank_row, self.blank_col, self.cols);
        let to = cell(r, c, self.cols);
        GridView {
            rows: self.rows,
            cols: self.cols,
            tiles: self.tiles.update(from, self.tiles[to]).update(to, 0u8),
            blank_row: r,
            blank_col: c,
        }
    }
}

/// A sliding-tile grid. Immutable: every move yields a new value.
#[derive(Clone, Debug)]
pub struct Puzzle {
    tiles: Vec<u8>,
    blank: Vector2,
    dimension: Vector2,
}

impl View for Puzzle {
    type V = GridView;

    closed spec fn view(&self) -> GridView {
        GridView {
            rows: self.dimension.x as int,
            cols: self.dimension.y as int,
            tiles: self.tiles@,
            blank_row: self.blank.x as int,
            blank_col: self.blank.y as int,
        }
    }
}

proof fn lemma_cell_bounds(row: int, col: int, rows: int, cols: int)
    requires
        0 <= row < rows,
        0 <= col < cols,
    ensures
        0 <= cell(row, col, cols) < rows * cols,
{
    assert(0 <= row * cols + col < rows * cols) by (nonlinear_arith)
        requires
            0 <= row < rows,
            0 <= col < cols,
    ;
}

/// The row and column of flat index `k` are its quotient and remainder by `cols`.
proof fn lemma_cell_split(k: int, row: int, col: int, cols: int)
    requires
        0 <= col < cols,
        k == cell(row, col, cols),
    ensures
        row == k / cols,
        col == k % cols,
{
    assert(k == row * cols + col);
    lemma_fundamental_div_mod_converse(k, cols, row, col);
}

/// Swapping two entries of an arrangement keeps it an arrangement.
proof fn lemma_swap_arrangement(t: Seq<u8>, i: int, j: int)
    requires
        is_arrangement(t),
        0 <= i < t.len(),
        0 <= j < t.len(),
    ensures
        is_arrangement(t.update(i, t[j]).update(j, t[i])),
{
    let s = t.update(i, t[j]).update(j, t[i]);
    assert forall|a: int| 0 <= a < s.len() implies (#[trigger] s[a] as int) < s.len() by {
        if a == j {
            assert(s[a] == t[i]);
        } else if a == i {
            assert(s[a] == t[j]);
        } else {
            assert(s[a] == t[a]);
        }
    }
    assert forall|a: int, b: int| 0 <= a < b < s.len() implies #[trigger] s[a] != #[trigger] s[b] by {
        let pa = if a == j { i } else if a == i { j } else { a };
        let pb = if b == j { i } else if b == i { j } else { b };
        assert(s[a] == t[pa]);
        assert(s[b] == t[pb]);
        assert(pa != pb);
        if pa < pb {
            assert(t[pa] != t[pb]);
        } else {
            assert(t[pb] != t[pa]);
        }
    }
    assert forall|v: int| 0 <= v < s.len() implies #[trigger] has_label(s, v) by {
        assert(has_label(t, v));
        let k = choose|k: int| 0 <= k < t.len() && t[k] as int == v;
        let pk = if k == i { j } else if k == j { i } else { k };
        assert(s[pk] == t[k]);
    }
}

/// A move keeps a grid well formed.
pub proof fn lemma_step_wf(g: GridView, m: ActionType)
    requires
        g.wf(),
    ensures
        g.step(m).wf(),
{
    let (r, c) = g.target(m);
    let from = cell(g.blank_row, g.blank_col, g.cols);
    let to = cell(r, c, g.cols);
    lemma_cell_bounds(g.blank_row, g.blank_col, g.rows, g.cols);
    lemma_cell_bounds(r, c, g.rows, g.cols);
    assert(g.tiles.update(from, g.tiles[to]).update(to, 0u8) =~= g.tiles.update(
        from,
        g.tiles[to],
    ).update(to, g.tiles[from]));
    lemma_swap_arrangement(g.tiles, from, to);
}

/// Whether `t` holds each label `0..t.len()` exactly once.
fn check_arrangement(t: &Vec<u8>) -> (r: bool)
    ensures
        r == is_arrangement(t@),
{
    let n = t.len();
    let mut seen: Vec<bool> = Vec::new();
    let mut k: usize = 0;
    while k < n
        invariant
            k <= n,
            seen@.len() == k,
            forall|x: int| 0 <= x < k ==> !(#[trigger] seen@[x]),
        decreases n - k,
    {
        seen.push(false);
        k = k + 1;
    }
    let mut i: usize = 0;
    while i < n
        invariant
            n == t@.len(),
            i <= n,
            seen@.len() == n,
            forall|a: int| 0 <= a < i ==> (#[trigger] t@[a] as int) < n,
            forall|a: int, b: int| 0 <= a < b < i ==> #[trigger] t@[a] != #[trigger] t@[b],
            forall|a: int| 0 <= a < i ==> seen@[#[trigger] t@[a] as int],
            forall|x: int|
                0 <= x < n && #[trigger] seen@[x] ==> exists|a: int| 0 <= a < i && t@[a] as int == x,
        decreases n - i,
    {
        let v = t[i] as usize;
        if v >= n {
            return false;
        }
        if seen[v] {
            let ghost a = choose|a: int| 0 <= a < i && t@[a] as int == v;
            assert(t@[a] == t@[i as int]);
            return false;
        }
        seen.set(v, true);
        i = i + 1;
    }
    let mut x: usize = 0;
    while x < n
        invariant
            n == t@.len(),
            x <= n,
            seen@.len() == n,
            forall|a: int| 0 <= a < n ==> (#[trigger] t@[a] as int) < n,
            forall|a: int, b: int| 0 <= a < b < n ==> #[trigger] t@[a] != #[trigger] t@[b],
            forall|a: int| 0 <= a < n ==> seen@[#[trigger] t@[a] as int],
            forall|y: int| 0 <= y < n && #[trigger] seen@[y] ==> has_label(t@, y),
            forall|y: int| 0 <= y < x ==> #[trigger] has_label(t@, y),
        decreases n - x,
    {
        if !seen[x] {
            assert(!has_label(t@, x as int)) by {
                if has_label(t@, x as int) {
                    let a = choose|a: int| 0 <= a < n && t@[a] as int == x;
                    assert(seen@[t@[a] as int]);
                }
            }
            return false;
        }
        assert(has_label(t@, x as int));
        x = x + 1;
    }
    true
}

/// An arrangement of `n` distinct labels below `n` holds at most 256 tiles,
/// since every label is a `u8`.
proof fn lemma_arrangement_len(t: Seq<u8>)
    requires
        is_arrangement(t),
    ensures
        t.len() <= 256,
{
    if t.len() > 256 {
        assert(has_label(t, 256));
        let i = choose|i: int| 0 <= i < t.len() && t[i] as int == 256;
        assert(t[i] <= 255);
    }
}

/// The size and the tiles form a well-formed grid.
pub open spec fn valid_layout(rows: int, cols: int, t: Seq<u8>) -> bool {
    &&& 1 <= rows
    &&& 1 <= cols
    &&& t.len() == rows * cols
    &&& is_arrangement(t)
}

/// Finds the first cell of `tiles`, read as rows of `cols` cells, that holds `value`.
fn find_value(tiles: &Vec<u8>, cols: i32, value: u8) -> (r: Option<Vector2>)
    requires
        cols >= 1,
        tiles@.len() <= i32::MAX,
    ensures
        match r {
            Some(p) => {
                &&& 0 <= p.x
                &&& 0 <= p.y < cols
                &&& 0 <= cell(p.x as int, p.y as int, cols as int) < tiles@.len()
                &&& tiles@[cell(p.x as int, p.y as int, cols as int)] == value
                &&& p.x == cell(p.x as int, p.y as int, cols as int) / (cols as int)
                &&& p.y == cell(p.x as int, p.y as int, cols as int) % (cols as int)
                &&& forall|a: int|
                    0 <= a < cell(p.x as int, p.y as int, cols as int) ==> tiles@[a] != value
            },
            None => forall|a: int| 0 <= a < tiles@.len() ==> tiles@[a] != value,
        },
{
    let mut k: usize = 0;
    let mut row: i32 = 0;
    let mut col: i32 = 0;
    while k < tiles.len()
        invariant
            cols >= 1,
            tiles@.len() <= i32::MAX,
            k <= tiles@.len(),
            k as int == cell(row as int, col as int, cols as int),
            0 <= col < cols,
            0 <= row <= k,
            forall|a: int| 0 <= a < k ==> tiles@[a] != value,
        decreases tiles@.len() - k,
    {
        if tiles[k] == value {
            proof {
                lemma_cell_split(k as int, row as int, col as int, cols as int);
            }
            return Some(Vector2::new(row, col));
        }
        proof {
            let (r, c, w) = (row as int, col as int, cols as int);
            assert((r + 1) * w == r * w + w) by (nonlinear_arith);
            assert(r <= r * w) by (nonlinear_arith)
                requires
                    r >= 0,
                    w >= 1,
            ;
        }
        k = k + 1;
        if col == cols - 1 {
            col = 0;
            row = row + 1;
        } else {
            col = col + 1;
        }
    }
    None
}

impl Puzzle {
    /// The grid is well formed: a valid arrangement with the blank where recorded.
    pub open spec fn wf(&self) -> bool {
        self@.wf()
    }

    /// Builds a grid of the given size (rows `x`, columns `y`) from its tiles
    /// in row-major order.
    pub fn from_vec(dimension: Vector2, vec: Vec<u8>) -> (r: Result<Puzzle, PuzzleError>)
        ensures
            r is Ok <==> valid_layout(dimension.x as int, dimension.y as int, vec@),
            r matches Ok(p) ==> p.wf() && p@.tiles == vec@ && p@.rows == dimension.x
                && p@.cols == dimension.y,
            r matches Err(e) ==> e == PuzzleError::InvalidArrangement,
    {
        if dimension.x < 1 || dimension.y < 1 {
            return Err(PuzzleError::InvalidArrangement);
        }
        let (x, y) = (dimension.x as u64, dimension.y as u64);
        assert(x * y <= 0x1_0000_0000_0000_0000u128 - 1) by (nonlinear_arith)
            requires
                x <= i32::MAX,
                y <= i32::MAX,
        ;
        let n: u64 = x * y;
        if vec.len() as u64 != n {
            return Err(PuzzleError::InvalidArrangement);
        }
        if !check_arrangement(&vec) {
            return Err(PuzzleError::InvalidArrangement);
        }
        proof {
            lemma_arrangement_len(vec@);
            assert(x * y >= 1) by (nonlinear_arith)
                requires
                    x >= 1,
                    y >= 1,
            ;
            assert(has_label(vec@, 0));
        }
        match find_value(&vec, dimension.y, 0) {
            Some(blank) => {
                proof {
                    let (bx, by, rows, cols) = (
                        blank.x as int,
                        blank.y as int,
                        dimension.x as int,
                        dimension.y as int,
                    );
                    assert(bx < rows) by (nonlinear_arith)
                        requires
                            0 <= bx,
                            0 <= by < cols,
                            bx * cols + by < rows * cols,
                    ;
                }
                Ok(Puzzle { tiles: vec, blank, dimension })
            },
            None => {
                proof {
                    let i = choose|i: int| 0 <= i < vec@.len() && vec@[i] as int == 0;
                    assert(vec@[i] == 0u8);
                }
                Err(PuzzleError::InvalidArrangement)
            },
        }
    }

    /// A copy of this grid.
    pub fn duplicate(&self) -> (r: Puzzle)
        ensures
            r@ == self@,
    {
        let tiles = self.tiles.clone();
        assert(tiles@ =~= self.tiles@);
        Puzzle { tiles, blank: self.blank, dimension: self.dimension }
    }

    /// The grid after the blank travels one step in direction `action`; an
    /// unchanged copy when the step would leave the grid.
    pub fn act(&self, action: ActionType) -> (r: Puzzle)
        requires
            self.wf(),
        ensures
            r.wf(),
            r@ == self@.step(action),
    {
        let rows = self.dimension.x;
        let cols = self.dimension.y;
        let br = self.blank.x;
        let bc = self.blank.y;
        assert(self.tiles.len() == self.tiles@.len());
        let (tr, tc): (i32, i32) = match action {
            ActionType::NoMove => (br, bc),
            ActionType::Up => if br > 0 { (br - 1, bc) } else { (br, bc) },
            ActionType::Down => if br < rows - 1 { (br + 1, bc) } else { (br, bc) },
            ActionType::Left => if bc > 0 { (br, bc - 1) } else { (br, bc) },
            ActionType::Right => if bc < cols - 1 { (br, bc + 1) } else { (br, bc) },
        };
        proof {
            lemma_cell_bounds(br as int, bc as int, rows as int, cols as int);
            lemma_cell_bounds(tr as int, tc as int, rows as int, cols as int);
            lemma_step_wf(self@, action);
        }
        let from: usize = (br as usize) * (cols as usize) + (bc as usize);
        let to: usize = (tr as usize) * (cols as usize) + (tc as usize);
        let mut tiles = self.tiles.clone();
        assert(tiles@ =~= self.tiles@);
        let moved = tiles[to];
        tiles.set(from, moved);
        tiles.set(to, 0);
        let r = Puzzle { tiles, blank: Vector2::new(tr, tc), dimension: self.dimension };
        assert(r@.tiles =~= self@.step(action).tiles);
        r
    }

    /// The label at row `pos.x`, column `pos.y`.
    pub fn read_at_pos(&self, pos: Vector2) -> (r: u8)
        requires
            self.wf(),
            0 <= pos.x < self@.rows,
            0 <= pos.y < self@.cols,
        ensures
            r == self@.tiles[cell(pos.x as int, pos.y as int, self@.cols)],
    {
        proof {
            lemma_cell_bounds(pos.x as int, pos.y as int, self@.rows, self@.cols);
        }
        assert(self.tiles.len() == self.tiles@.len());
        let (i, j) = pos.index();
        self.tiles[i * (self.dimension.y as usize) + j]
    }

    /// The arrangement equals the goal's, tile for tile.
    pub fn is_goal(&self, goal: &Puzzle) -> (r: bool)
        ensures
            r == (self@.tiles == goal@.tiles),
    {
        let n = self.tiles.len();
        if n != goal.tiles.len() {
            return false;
        }
        let mut i: usize = 0;
        while i < n
            invariant
                n == self.tiles@.len(),
                n == goal.tiles@.len(),
                i <= n,
                forall|a: int| 0 <= a < i ==> self.tiles@[a] == goal.tiles@[a],
            decreases n - i,
        {
            if self.tiles[i] != goal.tiles[i] {
                return false;
            }
            i = i + 1;
        }
        assert(self.tiles@ =~= goal.tiles@);
        true
    }
}

impl PartialEq for Puzzle {
    fn eq(&self, other: &Puzzle) -> (r: bool) {
        self.is_goal(other)
    }
}

impl vstd::std_specs::cmp::PartialEqSpecImpl for Puzzle {
    open spec fn obeys_eq_spec() -> bool {
        true
    }

    open spec fn eq_spec(&self, other: &Puzzle) -> bool {
        self@.tiles == other@.tiles
    }
}

impl Eq for Puzzle {

}

/// The number of cells below `n` whose label is not blank and differs from
/// the goal's label there.
pub open spec fn misplaced_upto(s: Seq<u8>, g: Seq<u8>, n: int) -> int
    decreases n,
{
    if n <= 0 {
        0
    } else {
        misplaced_upto(s, g, n - 1) + if s[n - 1] != g[n - 1] && s[n - 1] != 0 {
            1int
        } else {
            0int
        }
    }
}

/// The misplaced-tile count of `s` against the goal `g`.
pub open spec fn misplaced(s: Seq<u8>, g: Seq<u8>) -> int {
    misplaced_upto(s, g, s.len() as int)
}

/// The cell at which label `v` stands in `g`.
pub open spec fn label_index(g: Seq<u8>, v: u8) -> int {
    choose|k: int| 0 <= k < g.len() && g[k] == v
}

/// How far the tile in cell `k` of `s` is from its cell in `g`, in rows plus columns.
pub open spec fn tile_distance(s: Seq<u8>, g: Seq<u8>, cols: int, k: int) -> int {
    let gk = label_index(g, s[k]);
    abs(k / cols - gk / cols) + abs(k % cols - gk % cols)
}

/// The summed distances of the non-blank tiles in the cells below `n`.
pub open spec fn distance_upto(s: Seq<u8>, g: Seq<u8>, cols: int, n: int) -> int
    decreases n,
{
    if n <= 0 {
        0
    } else {
        distance_upto(s, g, cols, n - 1) + if s[n - 1] == 0 {
            0int
        } else {
            tile_distance(s, g, cols, n - 1)
        }
    }
}

/// The Manhattan distance of grid `s` to the goal `g`.
pub open spec fn manhattan(s: Seq<u8>, g: Seq<u8>, cols: int) -> int {
    distance_upto(s, g, cols, s.len() as int)
}

/// 1 when the labels in cells `i` and `j` are both non-blank and out of order.
pub open spec fn inversion_pair(s: Seq<u8>, i: int, j: int) -> int {
    if s[i] != 0 && s[j] != 0 && s[i] > s[j] {
        1
    } else {
        0
    }
}

/// Pairs `(i, j)` with `i < j < n` of non-blank labels where `s[i] > s[j]`.
pub open spec fn inversions_at(s: Seq<u8>, i: int, n: int) -> int
    decreases n - i,
{
    if n <= i + 1 {
        0
    } else {
        inversions_at(s, i, n - 1) + inversion_pair(s, i, n - 1)
    }
}

/// Inversions whose first cell lies below `n`.
pub open spec fn inversions_before(s: Seq<u8>, n: int) -> int
    decreases n,
{
    if n <= 0 {
        0
    } else {
        inversions_before(s, n - 1) + inversions_at(s, n - 1, s.len() as int)
    }
}

/// The number of out-of-order pairs of non-blank labels in row-major order.
pub open spec fn inversion_count(s: Seq<u8>) -> int {
    inversions_before(s, s.len() as int)
}

impl Puzzle {
    /// The number of non-blank tiles that are not where the goal has them.
    pub fn heuristic_misplaced(&self, goal: &Puzzle) -> (r: u8)
        requires
            self.wf(),
            goal.wf(),
            self@.rows == goal@.rows,
            self@.cols == goal@.cols,
        ensures
            r == misplaced(self@.tiles, goal@.tiles),
    {
        let n = self.tiles.len();
        let ghost b = cell(self@.blank_row, self@.blank_col, self@.cols);
        proof {
            lemma_arrangement_len(self@.tiles);
            lemma_cell_bounds(self@.blank_row, self@.blank_col, self@.rows, self@.cols);
        }
        let mut count: u8 = 0;
        let mut i: usize = 0;
        while i < n
            invariant
                n == self@.tiles.len(),
                n == goal@.tiles.len(),
                n <= 256,
                0 <= b < n,
                self@.tiles[b] == 0,
                i <= n,
                count == misplaced_upto(self@.tiles, goal@.tiles, i as int),
                count <= i - (if b < i { 1int } else { 0int }),
            decreases n - i,
        {
            if self.tiles[i] != goal.tiles[i] && self.tiles[i] != 0 {
                count = count + 1;
            }
            i = i + 1;
        }
        count
    }

    /// The summed row-plus-column distances of each non-blank tile from its
    /// cell in the goal.
    pub fn heuristic_distances(&self, goal: &Puzzle) -> (r: u32)
        requires
            self.wf(),
            goal.wf(),
            self@.rows == goal@.rows,
            self@.cols == goal@.cols,
        ensures
            r == manhattan(self@.tiles, goal@.tiles, self@.cols),
    {
        let n = self.tiles.len();
        let cols = self.dimension.y;
        let ghost (rows_i, cols_i) = (self@.rows, self@.cols);
        proof {
            lemma_arrangement_len(self@.tiles);
            assert(rows_i <= 256 && cols_i <= 256) by (nonlinear_arith)
                requires
                    rows_i >= 1,
                    cols_i >= 1,
                    rows_i * cols_i <= 256,
            ;
        }
        let mut count: u32 = 0;
        let mut k: usize = 0;
        let mut row: i32 = 0;
        let mut col: i32 = 0;
        while k < n
            invariant
                self.wf(),
                goal.wf(),
                rows_i == self@.rows == goal@.rows,
                cols == cols_i == self@.cols == goal@.cols,
                n == self@.tiles.len() == goal@.tiles.len(),
                n <= 256,
                rows_i <= 256,
                cols_i <= 256,
                k <= n,
                k as int == cell(row as int, col as int, cols as int),
                0 <= col < cols,
                0 <= row,
                k < n ==> row < rows_i,
                count == distance_upto(self@.tiles, goal@.tiles, cols as int, k as int),
                count <= 510 * k,
            decreases n - k,
        {
            proof {
                lemma_cell_split(k as int, row as int, col as int, cols as int);
            }
            let v = self.tiles[k];
            if v != 0 {
                proof {
                    assert(has_label(goal@.tiles, v as int));
                }
                let found = find_value(&goal.tiles, cols, v);
                match found {
                    Some(other) => {
                        proof {
                            let gk = cell(other.x as int, other.y as int, cols as int);
                            let ck = label_index(goal@.tiles, v);
                            if gk != ck {
                                if gk < ck {
                                    assert(goal@.tiles[gk] != goal@.tiles[ck]);
                                } else {
                                    assert(goal@.tiles[ck] != goal@.tiles[gk]);
                                }
                            }
                            assert(other.x < rows_i) by (nonlinear_arith)
                                requires
                                    0 <= other.x,
                                    0 <= other.y,
                                    cols_i >= 1,
                                    other.x * cols_i + other.y < rows_i * cols_i,
                            ;
                        }
                        let position = Vector2::new(row, col);
                        let d = position.distance_ortho(&other);
                        count = count + d;
                    },
                    None => {
                        proof {
                            let i = choose|i: int|
                                0 <= i < goal@.tiles.len() && goal@.tiles[i] as int == v as int;
                            assert(goal@.tiles[i] == v);
                        }
                    },
                }
            }
            proof {
                let (r, c, w) = (row as int, col as int, cols as int);
                assert((r + 1) * w == r * w + w) by (nonlinear_arith);
                assert(k + 1 < n && c == w - 1 ==> r + 1 < rows_i) by (nonlinear_arith)
                    requires
                        k == r * w + c,
                        n == rows_i * w,
                        w >= 1,
                ;
            }
            k = k + 1;
            if col == cols - 1 {
                col = 0;
                row = row + 1;
            } else {
                col = col + 1;
            }
        }
        count
    }

    /// The number of pairs of non-blank labels that stand in the wrong order
    /// when the grid is read row by row.
    pub fn inversions(&self) -> (r: u32)
        requires
            self.wf(),
        ensures
            r == inversion_count(self@.tiles),
    {
        let n = self.tiles.len();
        proof {
            lemma_arrangement_len(self@.tiles);
        }
        let mut counter: u32 = 0;
        let mut i: usize = 0;
        while i < n
            invariant
                n == self@.tiles.len(),
                n <= 256,
                i <= n,
                counter == inversions_before(self@.tiles, i as int),
                counter <= 256 * i,
            decreases n - i,
        {
            let mut j: usize = i + 1;
            let ghost base = counter as int;
            while j < n
                invariant
                    n == self@.tiles.len(),
                    n <= 256,
                    i < n,
                    i + 1 <= j <= n,
                    base == inversions_before(self@.tiles, i as int),
                    base <= 256 * i,
                    counter == base + inversions_at(self@.tiles, i as int, j as int),
                    inversions_at(self@.tiles, i as int, j as int) <= j,
                decreases n - j,
            {
                if self.tiles[i] != 0 && self.tiles[j] != 0 && self.tiles[i] > self.tiles[j] {
                    counter = counter + 1;
                }
                j = j + 1;
            }
            i = i + 1;
        }
        counter
    }

    /// Whether the number of inversions is even.
    pub fn test_solvable(&self) -> (r: bool)
        requires
            self.wf(),
        ensures
            r == (inversion_count(self@.tiles) % 2 == 0),
    {
        self.inversions() % 2 == 0
    }
}

/// The modulus of the arrangement key.
pub const KEY_MODULUS: u64 = 1_000_000_007;

/// The key of the first `n` labels of `t`: a polynomial hash in base 31.
pub open spec fn key_upto(t: Seq<u8>, n: int) -> int
    decreases n,
{
    if n <= 0 {
        0
    } else {
        (key_upto(t, n - 1) * 31 + t[n - 1]) % (KEY_MODULUS as int)
    }
}

/// The key of an arrangement.
pub open spec fn key_of(t: Seq<u8>) -> int {
    key_upto(t, t.len() as int)
}

impl Puzzle {
    /// A hash of the arrangement, below `KEY_MODULUS`.
    pub fn key(&self) -> (r: u64)
        ensures
            r == key_of(self@.tiles),
            r < KEY_MODULUS,
    {
        let mut k: u64 = 0;
        let mut i: usize = 0;
        while i < self.tiles.len()
            invariant
                i <= self.tiles@.len(),
                k == key_upto(self@.tiles, i as int),
                k < KEY_MODULUS,
            decreases self.tiles@.len() - i,
        {
            k = (k * 31 + self.tiles[i] as u64) % KEY_MODULUS;
            i = i + 1;
        }
        k
    }

    /// The labels in row-major order.
    pub fn to_vec(&self) -> (r: Vec<u8>)
        ensures
            r@ == self@.tiles,
    {
        let r = self.tiles.clone();
        assert(r@ =~= self.tiles@);
        r
    }

    /// The number of rows and of columns.
    pub fn dimension(&self) -> (r: Vector2)
        ensures
            r.x == self@.rows,
            r.y == self@.cols,
    {
        self.dimension
    }
}

/// Relies on rand's `SliceRandom::shuffle`, with the thread-local generator:
/// the result holds the same labels in some order.
#[verifier::external_body]
fn shuffled(v: Vec<u8>) -> (r: Vec<u8>)
    ensures
        r@.to_multiset() == v@.to_multiset(),
{
    let mut v = v;
    v.shuffle(&mut ndarray_rand::rand::rng());
    v
}

/// A reordering of the labels `0..n` is an arrangement.
proof fn lemma_reordering_is_arrangement(s: Seq<u8>, r: Seq<u8>)
    requires
        forall|i: int| 0 <= i < s.len() ==> #[trigger] s[i] as int == i,
        r.to_multiset() == s.to_multiset(),
    ensures
        r.len() == s.len(),
        is_arrangement(r),
{
    broadcast use vstd::seq_lib::to_multiset_contains, vstd::seq_lib::to_multiset_len;

    assert(r.len() == r.to_multiset().len());
    assert(s.len() == s.to_multiset().len());
    assert(s.no_duplicates()) by {
        assert forall|i: int, j: int| 0 <= i < s.len() && 0 <= j < s.len() && i != j implies s[i]
            != s[j] by {
            assert(s[i] as int == i && s[j] as int == j);
        }
    }
    s.lemma_multiset_has_no_duplicates();
    r.lemma_multiset_has_no_duplicates_conv();
    assert forall|i: int| 0 <= i < r.len() implies (#[trigger] r[i] as int) < r.len() by {
        assert(r.contains(r[i]));
        assert(r.to_multiset().count(r[i]) > 0);
        assert(s.contains(r[i]));
        let j = choose|j: int| 0 <= j < s.len() && s[j] == r[i];
        assert(s[j] as int == j);
    }
    assert forall|i: int, j: int| 0 <= i < j < r.len() implies #[trigger] r[i] != #[trigger] r[j] by {
        assert(r.no_duplicates());
    }
    assert forall|v: int| 0 <= v < r.len() implies #[trigger] has_label(r, v) by {
        assert(s[v] as int == v);
        assert(s.contains(s[v]));
        assert(s.to_multiset().count(s[v]) > 0);
        assert(r.contains(s[v]));
        let i = choose|i: int| 0 <= i < r.len() && r[i] == s[v];
        assert(r[i] as int == v);
    }
}

impl Puzzle {
    /// A grid of the given size (rows `x`, columns `y`) holding the labels
    /// `0..x*y` in a random order; it may or may not be solvable.
    pub fn new(dimension: Vector2) -> (r: Puzzle)
        requires
            dimension.x >= 1,
            dimension.y >= 1,
            dimension.x * dimension.y <= 256,
        ensures
            r.wf(),
            r@.rows == dimension.x,
            r@.cols == dimension.y,
    {
        let n: usize = (dimension.x as usize) * (dimension.y as usize);
        let mut labels: Vec<u8> = Vec::new();
        let mut i: usize = 0;
        while i < n
            invariant
                n <= 256,
                i <= n,
                labels@.len() == i,
                forall|k: int| 0 <= k < i ==> #[trigger] labels@[k] as int == k,
            decreases n - i,
        {
            labels.push(i as u8);
            i = i + 1;
        }
        let tiles = shuffled(labels);
        proof {
            lemma_reordering_is_arrangement(labels@, tiles@);
        }
        Puzzle::from_vec(dimension, tiles).unwrap()
    }
}

/// A move that would push the blank off the grid leaves the grid as it is.
pub proof fn lemma_boundary_move_is_noop(g: GridView, m: ActionType)
    requires
        g.wf(),
        g.target(m) == (g.blank_row, g.blank_col),
    ensures
        g.step(m) == g,
{
    let b = cell(g.blank_row, g.blank_col, g.cols);
    lemma_cell_bounds(g.blank_row, g.blank_col, g.rows, g.cols);
    assert(g.step(m).tiles =~= g.tiles);
}

/// Undoing a move that was not a boundary no-op by the opposite move gives
/// back the grid: for Up and Down, and for Left and Right, in either order.
pub proof fn lemma_move_inverse(g: GridView)
    requires
        g.wf(),
    ensures
        g.blank_row > 0 ==> g.step(ActionType::Up).step(ActionType::Down) == g,
        g.blank_row < g.rows - 1 ==> g.step(ActionType::Down).step(ActionType::Up) == g,
        g.blank_col > 0 ==> g.step(ActionType::Left).step(ActionType::Right) == g,
        g.blank_col < g.cols - 1 ==> g.step(ActionType::Right).step(ActionType::Left) == g,
{
    let (r, c, w) = (g.blank_row, g.blank_col, g.cols);
    lemma_cell_bounds(r, c, g.rows, w);
    assert((r - 1) * w == r * w - w) by (nonlinear_arith);
    assert((r + 1) * w == r * w + w) by (nonlinear_arith);
    if r > 0 {
        lemma_cell_bounds(r - 1, c, g.rows, w);
        assert(g.step(ActionType::Up).step(ActionType::Down).tiles =~= g.tiles);
    }
    if r < g.rows - 1 {
        lemma_cell_bounds(r + 1, c, g.rows, w);
        assert(g.step(ActionType::Down).step(ActionType::Up).tiles =~= g.tiles);
    }
    if c > 0 {
        lemma_cell_bounds(r, c - 1, g.rows, w);
        assert(g.step(ActionType::Left).step(ActionType::Right).tiles =~= g.tiles);
    }
    if c < w - 1 {
        lemma_cell_bounds(r, c + 1, g.rows, w);
        assert(g.step(ActionType::Right).step(ActionType::Left).tiles =~= g.tiles);
    }
}

/// Two arrangements of one size that agree on every non-blank tile of `s`
/// are equal.
proof fn lemma_nonblank_agree(s: Seq<u8>, g: Seq<u8>)
    requires
        is_arrangement(s),
        is_arrangement(g),
        s.len() == g.len(),
        s.len() >= 1,
        forall|i: int| 0 <= i < s.len() && s[i] != 0 ==> #[trigger] s[i] == g[i],
    ensures
        s == g,
{
    assert(has_label(s, 0));
    assert(has_label(g, 0));
    let b = choose|i: int| 0 <= i < s.len() && s[i] as int == 0;
    let j = choose|i: int| 0 <= i < g.len() && g[i] as int == 0;
    if j != b {
        if j < b {
            assert(s[j] != s[b]);
        } else {
            assert(s[b] != s[j]);
        }
        assert(s[j] == g[j]);
    }
    assert forall|i: int| 0 <= i < s.len() implies s[i] == g[i] by {
        if s[i] == 0 {
            if i != b {
                if i < b {
                    assert(s[i] != s[b]);
                } else {
                    assert(s[b] != s[i]);
                }
            }
        }
    }
    assert(s =~= g);
}

proof fn lemma_misplaced_zero(s: Seq<u8>, g: Seq<u8>, n: int)
    requires
        0 <= n <= s.len(),
        n <= g.len(),
    ensures
        misplaced_upto(s, g, n) >= 0,
        misplaced_upto(s, g, n) == 0 <==> forall|i: int|
            0 <= i < n ==> !(#[trigger] s[i] != g[i] && s[i] != 0),
    decreases n,
{
    if n > 0 {
        lemma_misplaced_zero(s, g, n - 1);
    }
}

/// The misplaced-tile count is zero exactly at the goal.
pub proof fn lemma_misplaced_zero_iff_goal(s: GridView, g: GridView)
    requires
        s.wf(),
        g.wf(),
        s.rows == g.rows,
        s.cols == g.cols,
    ensures
        misplaced(s.tiles, g.tiles) == 0 <==> s.tiles == g.tiles,
{
    lemma_cell_bounds(s.blank_row, s.blank_col, s.rows, s.cols);
    lemma_misplaced_zero(s.tiles, g.tiles, s.tiles.len() as int);
    if misplaced(s.tiles, g.tiles) == 0 {
        assert forall|i: int| 0 <= i < s.tiles.len() && s.tiles[i] != 0 implies #[trigger] s.tiles[i]
            == g.tiles[i] by {
            assert(!(s.tiles[i] != g.tiles[i] && s.tiles[i] != 0));
        }
        lemma_nonblank_agree(s.tiles, g.tiles);
    }
}

proof fn lemma_distance_zero(s: Seq<u8>, g: Seq<u8>, cols: int, n: int)
    requires
        0 <= n <= s.len(),
    ensures
        distance_upto(s, g, cols, n) >= 0,
        distance_upto(s, g, cols, n) == 0 <==> forall|i: int|
            0 <= i < n && s[i] != 0 ==> #[trigger] tile_distance(s, g, cols, i) == 0,
    decreases n,
{
    if n > 0 {
        lemma_distance_zero(s, g, cols, n - 1);
        assert(tile_distance(s, g, cols, n - 1) >= 0);
    }
}

/// In an arrangement, the cell of a label is the one cell that holds it.
proof fn lemma_label_index(g: Seq<u8>, k: int)
    requires
        is_arrangement(g),
        0 <= k < g.len(),
    ensures
        label_index(g, g[k]) == k,
{
    let j = label_index(g, g[k]);
    assert(0 <= j < g.len() && g[j] == g[k]);
    if j < k {
        assert(g[j] != g[k]);
    } else if k < j {
        assert(g[k] != g[j]);
    }
}

/// The Manhattan distance is zero exactly at the goal.
pub proof fn lemma_manhattan_zero_iff_goal(s: GridView, g: GridView)
    requires
        s.wf(),
        g.wf(),
        s.rows == g.rows,
        s.cols == g.cols,
    ensures
        manhattan(s.tiles, g.tiles, s.cols) == 0 <==> s.tiles == g.tiles,
{
    let (t, u, w) = (s.tiles, g.tiles, s.cols);
    lemma_cell_bounds(s.blank_row, s.blank_col, s.rows, s.cols);
    lemma_distance_zero(t, u, w, t.len() as int);
    if t == u {
        assert forall|i: int| 0 <= i < t.len() && t[i] != 0 implies #[trigger] tile_distance(
            t,
            u,
            w,
            i,
        ) == 0 by {
            lemma_label_index(u, i);
        }
    }
    if manhattan(t, u, w) == 0 {
        assert forall|i: int| 0 <= i < t.len() && t[i] != 0 implies #[trigger] t[i] == u[i] by {
            assert(tile_distance(t, u, w, i) == 0);
            assert(has_label(u, t[i] as int));
            let j = label_index(u, t[i]);
            let k = choose|k: int| 0 <= k < u.len() && u[k] as int == t[i] as int;
            assert(u[k] == t[i]);
            assert(0 <= j < u.len() && u[j] == t[i]);
            assert(i / w == j / w && i % w == j % w);
            vstd::arithmetic::div_mod::lemma_fundamental_div_mod(i, w);
            vstd::arithmetic::div_mod::lemma_fundamental_div_mod(j, w);
            assert(i == j);
        }
        lemma_nonblank_agree(t, u);
    }
}

/// `t` is `s` with the entries at `b` and `b + 1` exchanged.
pub open spec fn adjacent_swap(s: Seq<u8>, t: Seq<u8>, b: int) -> bool {
    &&& 0 <= b
    &&& b + 1 < s.len()
    &&& t == s.update(b, s[b + 1]).update(b + 1, s[b])
}

/// Rows other than `b` and `b + 1` count the same inversions before and after
/// the exchange, over any prefix that holds both cells or neither.
proof fn lemma_other_row_unchanged(s: Seq<u8>, t: Seq<u8>, b: int, i: int, n: int)
    requires
        adjacent_swap(s, t, b),
        0 <= i < s.len(),
        i != b && i != b + 1,
        n <= s.len(),
        n <= b || n >= b + 2,
    ensures
        inversions_at(t, i, n) == inversions_at(s, i, n),
    decreases n - i,
{
    if n > i + 1 {
        if n == b + 2 {
            if b > i + 1 {
                lemma_other_row_unchanged(s, t, b, i, b);
            }
            assert(inversions_at(t, i, b + 1) == inversions_at(t, i, b) + inversion_pair(t, i, b));
            assert(inversions_at(s, i, b + 1) == inversions_at(s, i, b) + inversion_pair(s, i, b));
            assert(inversions_at(t, i, b + 2) == inversions_at(t, i, b + 1) + inversion_pair(
                t,
                i,
                b + 1,
            ));
            assert(inversions_at(s, i, b + 2) == inversions_at(s, i, b + 1) + inversion_pair(
                s,
                i,
                b + 1,
            ));
        } else {
            lemma_other_row_unchanged(s, t, b, i, n - 1);
        }
    }
}

/// Rows `b` and `b + 1` trade their counts, but for the pair of the two
/// exchanged cells themselves.
proof fn lemma_moved_rows(s: Seq<u8>, t: Seq<u8>, b: int, n: int)
    requires
        adjacent_swap(s, t, b),
        b + 2 <= n <= s.len(),
    ensures
        inversions_at(t, b, n) == inversions_at(s, b + 1, n) + inversion_pair(t, b, b + 1),
        inversions_at(t, b + 1, n) + inversion_pair(s, b, b + 1) == inversions_at(s, b, n),
    decreases n,
{
    if n > b + 2 {
        lemma_moved_rows(s, t, b, n - 1);
        assert(inversions_at(t, b, n) == inversions_at(t, b, n - 1) + inversion_pair(t, b, n - 1));
        assert(inversions_at(s, b + 1, n) == inversions_at(s, b + 1, n - 1) + inversion_pair(
            s,
            b + 1,
            n - 1,
        ));
        assert(inversions_at(s, b, n) == inversions_at(s, b, n - 1) + inversion_pair(s, b, n - 1));
        assert(inversions_at(t, b + 1, n) == inversions_at(t, b + 1, n - 1) + inversion_pair(
            t,
            b + 1,
            n - 1,
        ));
    } else {
        assert(inversions_at(t, b, b + 1) == 0);
        assert(inversions_at(s, b, b + 1) == 0);
        assert(inversions_at(t, b, b + 2) == inversion_pair(t, b, b + 1));
        assert(inversions_at(s, b, b + 2) == inversion_pair(s, b, b + 1));
        assert(inversions_at(s, b + 1, b + 2) == 0);
        assert(inversions_at(t, b + 1, b + 2) == 0);
    }
}

proof fn lemma_rows_before_swap(s: Seq<u8>, t: Seq<u8>, b: int, m: int)
    requires
        adjacent_swap(s, t, b),
        0 <= m <= s.len(),
        m <= b || m >= b + 2,
    ensures
        inversions_before(t, m) == inversions_before(s, m) + if m >= b + 2 {
            inversion_pair(t, b, b + 1) - inversion_pair(s, b, b + 1)
        } else {
            0
        },
    decreases m,
{
    let n = s.len() as int;
    if m > 0 {
        if m == b + 2 {
            lemma_rows_before_swap(s, t, b, b);
            lemma_moved_rows(s, t, b, n);
            assert(inversions_before(t, b + 1) == inversions_before(t, b) + inversions_at(t, b, n));
            assert(inversions_before(s, b + 1) == inversions_before(s, b) + inversions_at(s, b, n));
            assert(inversions_before(t, b + 2) == inversions_before(t, b + 1) + inversions_at(
                t,
                b + 1,
                n,
            ));
            assert(inversions_before(s, b + 2) == inversions_before(s, b + 1) + inversions_at(
                s,
                b + 1,
                n,
            ));
        } else {
            lemma_rows_before_swap(s, t, b, m - 1);
            lemma_other_row_unchanged(s, t, b, m - 1, n);
        }
    }
}

/// Exchanging two neighbouring cells changes the inversion count only by
/// the pair those two cells form.
pub proof fn lemma_swap_inversions(s: Seq<u8>, t: Seq<u8>, b: int)
    requires
        adjacent_swap(s, t, b),
    ensures
        inversion_count(t) == inversion_count(s) + inversion_pair(t, b, b + 1) - inversion_pair(
            s,
            b,
            b + 1,
        ),
{
    lemma_rows_before_swap(s, t, b, s.len() as int);
}

/// Sliding a tile along its row, into the blank beside it, keeps the number
/// of inversions, and so keeps the parity that decides solvability.
pub proof fn lemma_row_move_keeps_inversions(g: GridView, m: ActionType)
    requires
        g.wf(),
        m == ActionType::Left || m == ActionType::Right,
    ensures
        inversion_count(g.step(m).tiles) == inversion_count(g.tiles),
{
    let (r, c) = g.target(m);
    let from = cell(g.blank_row, g.blank_col, g.cols);
    let to = cell(r, c, g.cols);
    let s = g.tiles;
    lemma_cell_bounds(g.blank_row, g.blank_col, g.rows, g.cols);
    lemma_cell_bounds(r, c, g.rows, g.cols);
    if (r, c) == (g.blank_row, g.blank_col) {
        lemma_boundary_move_is_noop(g, m);
    } else if m == ActionType::Left {
        let b = to;
        assert(from == b + 1);
        let t = g.step(m).tiles;
        assert(t =~= s.update(b, s[b + 1]).update(b + 1, s[b]));
        lemma_swap_inversions(s, t, b);
    } else {
        let b = from;
        assert(to == b + 1);
        let t = g.step(m).tiles;
        assert(t =~= s.update(b, s[b + 1]).update(b + 1, s[b]));
        lemma_swap_inversions(s, t, b);
    }
}

/// `s` after the label in cell `a` has travelled `k` cells to the right,
/// each cell it passed moving one to the left.
pub open spec fn carried(s: Seq<u8>, a: int, k: int) -> Seq<u8> {
    Seq::new(
        s.len(),
        |i: int|
            if i == a + k {
                s[a]
            } else if a <= i < a + k {
                s[i + 1]
            } else {
                s[i]
            },
    )
}

/// `s` with the label of cell `a` placed in the blank cell `b`, and the blank
/// travelled back `k + 1` cells to the left from `b`.
pub open spec fn settled(s: Seq<u8>, a: int, b: int, k: int) -> Seq<u8> {
    Seq::new(
        s.len(),
        |i: int|
            if i == b {
                s[a]
            } else if i == b - 1 - k {
                0u8
            } else if a <= i < b - 1 - k {
                s[i + 1]
            } else {
                s[i]
            },
    )
}

/// Carrying a label right past `k` non-blank labels changes the inversion
/// count by `k`, modulo 2.
proof fn lemma_carry_parity(s: Seq<u8>, a: int, b: int, k: int)
    requires
        is_arrangement(s),
        0 <= a < b < s.len(),
        s[b] == 0,
        0 <= k < b - a,
    ensures
        (inversion_count(carried(s, a, k)) - inversion_count(s) - k) % 2 == 0,
        abs(inversion_count(carried(s, a, k)) - inversion_count(s)) <= k,
    decreases k,
{
    if k == 0 {
        assert(carried(s, a, 0) =~= s);
    } else {
        lemma_carry_parity(s, a, b, k - 1);
        let p = carried(s, a, k - 1);
        let q = carried(s, a, k);
        let j = a + k - 1;
        assert(q =~= p.update(j, p[j + 1]).update(j + 1, p[j]));
        lemma_swap_inversions(p, q, j);
        assert(p[j] == s[a] && p[j + 1] == s[a + k]);
        assert(s[a] != 0) by {
            assert(s[a] != s[b]);
        }
        assert(s[a + k] != 0) by {
            assert(s[a + k] != s[b]);
        }
        assert(s[a] != s[a + k]);
        assert(inversion_pair(q, j, j + 1) + inversion_pair(p, j, j + 1) == 1);
    }
}

/// Walking the blank back left past non-blank labels keeps the inversion count.
proof fn lemma_settle_count(s: Seq<u8>, a: int, b: int, k: int)
    requires
        is_arrangement(s),
        0 <= a < b < s.len(),
        s[b] == 0,
        0 <= k < b - a,
    ensures
        inversion_count(settled(s, a, b, k)) == inversion_count(carried(s, a, b - a - 1)),
    decreases k,
{
    if k == 0 {
        let p = carried(s, a, b - a - 1);
        let q = settled(s, a, b, 0);
        assert(q =~= p.update(b - 1, p[b]).update(b, p[b - 1]));
        lemma_swap_inversions(p, q, b - 1);
        assert(inversion_pair(q, b - 1, b) == 0);
        assert(inversion_pair(p, b - 1, b) == 0);
    } else {
        lemma_settle_count(s, a, b, k - 1);
        let p = settled(s, a, b, k - 1);
        let q = settled(s, a, b, k);
        let j = b - 1 - k;
        assert(q =~= p.update(j, p[j + 1]).update(j + 1, p[j]));
        lemma_swap_inversions(p, q, j);
        assert(inversion_pair(q, j, j + 1) == 0);
        assert(inversion_pair(p, j, j + 1) == 0);
    }
}

/// An upward move that is not a no-op changes the inversion count by the
/// number of columns less one, modulo 2.
proof fn lemma_up_move_parity(g: GridView)
    requires
        g.wf(),
    ensures
        g.blank_row == 0 ==> g.step(ActionType::Up) == g,
        g.blank_row > 0 ==> (inversion_count(g.step(ActionType::Up).tiles) - inversion_count(g.tiles)
            - (g.cols - 1)) % 2 == 0,
        abs(inversion_count(g.step(ActionType::Up).tiles) - inversion_count(g.tiles)) <= g.cols - 1,
{
    let (r, c, w) = (g.blank_row, g.blank_col, g.cols);
    if r == 0 {
        lemma_boundary_move_is_noop(g, ActionType::Up);
    } else {
        let s = g.tiles;
        let b = cell(r, c, w);
        let a = cell(r - 1, c, w);
        lemma_cell_bounds(r, c, g.rows, w);
        lemma_cell_bounds(r - 1, c, g.rows, w);
        assert((r - 1) * w == r * w - w) by (nonlinear_arith);
        assert(a == b - w);
        lemma_carry_parity(s, a, b, w - 1);
        lemma_settle_count(s, a, b, w - 1);
        assert(settled(s, a, b, w - 1) =~= g.step(ActionType::Up).tiles);
    }
}

/// A vertical move changes the inversion count by at most the number of
/// columns less one: the moved tile passes that many other cells.
pub proof fn lemma_vertical_move_bound(g: GridView, m: ActionType)
    requires
        g.wf(),
        m == ActionType::Up || m == ActionType::Down,
    ensures
        abs(inversion_count(g.step(m).tiles) - inversion_count(g.tiles)) <= g.cols - 1,
{
    if m == ActionType::Up {
        lemma_up_move_parity(g);
    } else {
        lemma_step_wf(g, m);
        lemma_move_inverse(g);
        if g.blank_row < g.rows - 1 {
            lemma_up_move_parity(g.step(m));
        } else {
            lemma_boundary_move_is_noop(g, m);
        }
    }
}

/// On a grid with an odd number of columns, every move keeps the parity of
/// the inversion count, so the solvability test gives the same answer for
/// every grid reachable from a given one.
pub proof fn lemma_move_keeps_parity(g: GridView, m: ActionType)
    requires
        g.wf(),
        g.cols % 2 == 1,
    ensures
        inversion_count(g.step(m).tiles) % 2 == inversion_count(g.tiles) % 2,
{
    match m {
        ActionType::NoMove => {
            lemma_boundary_move_is_noop(g, m);
        },
        ActionType::Up => {
            lemma_up_move_parity(g);
        },
        ActionType::Down => {
            lemma_step_wf(g, m);
            lemma_move_inverse(g);
            let h = g.step(m);
            if g.blank_row < g.rows - 1 {
                lemma_up_move_parity(h);
            } else {
                lemma_boundary_move_is_noop(g, m);
            }
        },
        _ => {
            lemma_row_move_keeps_inversions(g, m);
        },
    }
}

/// On a grid with an even number of columns, a vertical move that is not a
/// no-op flips the parity of the inversion count: there the solvability test
/// is not a property of the grids reachable from a given one, as it ignores
/// the blank's row.
pub proof fn lemma_even_width_vertical_move_flips_parity(g: GridView, m: ActionType)
    requires
        g.wf(),
        g.cols % 2 == 0,
        m == ActionType::Up || m == ActionType::Down,
        g.target(m) != (g.blank_row, g.blank_col),
    ensures
        inversion_count(g.step(m).tiles) % 2 != inversion_count(g.tiles) % 2,
{
    if m == ActionType::Up {
        lemma_up_move_parity(g);
    } else {
        lemma_step_wf(g, m);
        lemma_move_inverse(g);
        lemma_up_move_parity(g.step(m));
    }
}

/// Relies on `String::push`: the character is appended at the end.
pub assume_specification[ String::push ](s: &mut String, ch: char)
    ensures
        final(s)@ == old(s)@.push(ch),
;

/// The character of decimal digit `d`.
pub open spec fn digit_char(d: int) -> char {
    if d == 0 {
        '0'
    } else if d == 1 {
        '1'
    } else if d == 2 {
        '2'
    } else if d == 3 {
        '3'
    } else if d == 4 {
        '4'
    } else if d == 5 {
        '5'
    } else if d == 6 {
        '6'
    } else if d == 7 {
        '7'
    } else if d == 8 {
        '8'
    } else {
        '9'
    }
}

/// The decimal digits of `v`, most significant first.
pub open spec fn decimal(v: nat) -> Seq<char>
    decreases v,
{
    if v < 10 {
        seq![digit_char(v as int)]
    } else {
        decimal(v / 10).push(digit_char((v % 10) as int))
    }
}

/// How a label is shown: the blank as `_`, any other label in decimal.
pub open spec fn label_text(v: u8) -> Seq<char> {
    if v == 0 {
        seq!['_']
    } else {
        decimal(v as nat)
    }
}

/// A label's text followed by a space; on grids of ten or more cells a
/// one-character text is first padded to two.
pub open spec fn cell_text(v: u8, wide: bool) -> Seq<char> {
    let t = label_text(v);
    let pad: Seq<char> = if wide && t.len() < 2 {
        seq![' ']
    } else {
        seq![]
    };
    pad + t + seq![' ']
}

/// The text of the first `n` cells, with a line break after each full row.
pub open spec fn render_upto(t: Seq<u8>, cols: int, n: int) -> Seq<char>
    decreases n,
{
    if n <= 0 {
        seq![]
    } else {
        let row_end: Seq<char> = if n % cols == 0 {
            seq!['\n']
        } else {
            seq![]
        };
        render_upto(t, cols, n - 1) + cell_text(t[n - 1], t.len() >= 10) + row_end
    }
}

fn digit(d: u8) -> (r: char)
    requires
        d < 10,
    ensures
        r == digit_char(d as int),
{
    match d {
        0 => '0',
        1 => '1',
        2 => '2',
        3 => '3',
        4 => '4',
        5 => '5',
        6 => '6',
        7 => '7',
        8 => '8',
        _ => '9',
    }
}

fn push_cell(s: &mut String, v: u8, wide: bool)
    ensures
        final(s)@ == old(s)@ + cell_text(v, wide),
{
    let ghost start = s@;
    if v == 0 {
        if wide {
            s.push(' ');
        }
        s.push('_');
    } else if v < 10 {
        if wide {
            s.push(' ');
        }
        s.push(digit(v));
    } else if v < 100 {
        s.push(digit(v / 10));
        s.push(digit(v % 10));
        proof {
            let n = v as nat;
            assert(decimal(n / 10) == seq![digit_char((n / 10) as int)]);
            assert(decimal(n) == decimal(n / 10).push(digit_char((n % 10) as int)));
        }
    } else {
        s.push(digit(v / 100));
        s.push(digit((v / 10) % 10));
        s.push(digit(v % 10));
        proof {
            let n = v as nat;
            assert(n / 10 / 10 == n / 100);
            assert(decimal(n / 100) == seq![digit_char((n / 100) as int)]);
            assert(decimal(n / 10) == decimal(n / 10 / 10).push(digit_char((n / 10 % 10) as int)));
            assert(decimal(n) == decimal(n / 10).push(digit_char((n % 10) as int)));
        }
    }
    s.push(' ');
    assert(s@ =~= start + cell_text(v, wide));
}

impl Puzzle {
    /// The grid as text: one line per row, each cell's label followed by a
    /// space, the blank shown as `_`.
    pub fn to_string(&self) -> (r: String)
        requires
            self.wf(),
        ensures
            r@ == render_upto(self@.tiles, self@.cols, self@.tiles.len() as int),
    {
        let n = self.tiles.len();
        let cols = self.dimension.y as usize;
        let wide = n >= 10;
        let mut s = String::new();
        let mut k: usize = 0;
        let mut col: usize = 0;
        while k < n
            invariant
                n == self@.tiles.len(),
                cols == self@.cols,
                cols >= 1,
                wide == (n >= 10),
                k <= n,
                col < cols,
                col as int == (k as int) % (cols as int),
                s@ == render_upto(self@.tiles, cols as int, k as int),
            decreases n - k,
        {
            push_cell(&mut s, self.tiles[k], wide);
            proof {
                let (ki, w) = (k as int, cols as int);
                vstd::arithmetic::div_mod::lemma_fundamental_div_mod(ki, w);
                assert(ki == (ki / w) * w + col) by (nonlinear_arith)
                    requires
                        ki == w * (ki / w) + ki % w,
                        col == ki % w,
                ;
                assert((ki / w + 1) * w == (ki / w) * w + w) by (nonlinear_arith);
                if col + 1 == cols {
                    lemma_fundamental_div_mod_converse(ki + 1, w, ki / w + 1, 0);
                } else {
                    lemma_fundamental_div_mod_converse(ki + 1, w, ki / w, col + 1);
                }
            }
            if col + 1 == cols {
                s.push('\n');
                col = 0;
            } else {
                col = col + 1;
            }
            k = k + 1;
            assert(s@ =~= render_upto(self@.tiles, cols as int, k as int));
        }
        s
    }
}

} // verus!
