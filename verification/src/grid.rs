//! The uniform grid that narrows collision tests to nearby bodies.
//!
//! Space is cut into `size_x * size_y * size_z` cells, numbered row by row
//! (`(x * size_y + y) * size_z + z`). Each body is filed under the cell that
//! its integer coordinates number; bodies whose number falls outside the grid
//! are left out. Each cell is then tested against itself and against the
//! seven cells that lie one step further along any of the three axes.
use vstd::prelude::*;

verus! {

/// The extent of the grid, in cells along each axis.
#[derive(Clone, Copy, Debug, PartialEq, Eq, Structural)]
pub struct Grid {
    pub size_x: usize,
    pub size_y: usize,
    pub size_z: usize,
}

/// The number of the cell at `(x, y, z)` in a grid of `sy` by `sz` cells in
/// each `x` slice.
pub open spec fn flat_index(x: int, y: int, z: int, sy: int, sz: int) -> int {
    (x * sy + y) * sz + z
}

impl Grid {
    /// The number of cells.
    pub open spec fn cells(self) -> int {
        self.size_x * self.size_y * self.size_z
    }

    pub open spec fn flat(self, x: int, y: int, z: int) -> int {
        flat_index(x, y, z, self.size_y as int, self.size_z as int)
    }

    pub open spec fn contains(self, x: int, y: int, z: int) -> bool {
        0 <= x < self.size_x && 0 <= y < self.size_y && 0 <= z < self.size_z
    }
}

/// The cell number of body `k`, whose integer coordinates are `coords[k]`.
pub open spec fn cell_of(g: Grid, coords: Seq<(usize, usize, usize)>, k: int) -> int {
    g.flat(coords[k].0 as int, coords[k].1 as int, coords[k].2 as int)
}

/// The bodies among the first `n` that are filed under cell `c`, in order.
pub open spec fn bucket(g: Grid, coords: Seq<(usize, usize, usize)>, c: int, n: int) -> Seq<usize>
    decreases n,
{
    if n <= 0 {
        seq![]
    } else {
        let b = bucket(g, coords, c, n - 1);
        if cell_of(g, coords, n - 1) == c {
            b.push((n - 1) as usize)
        } else {
            b
        }
    }
}

/// The bodies filed under cell `c`, in order.
pub open spec fn members(g: Grid, coords: Seq<(usize, usize, usize)>, c: int) -> Seq<usize> {
    bucket(g, coords, c, coords.len() as int)
}

/// Body `i` paired with each of `js` in turn; within one cell only with the
/// bodies that come after `i`.
pub open spec fn row_pairs(i: usize, js: Seq<usize>, same: bool) -> Seq<(usize, usize)>
    decreases js.len(),
{
    if js.len() == 0 {
        seq![]
    } else {
        let r = row_pairs(i, js.drop_last(), same);
        if same && i >= js.last() {
            r
        } else {
            r.push((i, js.last()))
        }
    }
}

/// The pairs between the bodies `is` of one cell and the bodies `js` of a
/// neighbouring cell (`same` when both are the one cell).
pub open spec fn block_pairs(is: Seq<usize>, js: Seq<usize>, same: bool) -> Seq<(usize, usize)>
    decreases is.len(),
{
    if is.len() == 0 {
        seq![]
    } else {
        block_pairs(is.drop_last(), js, same) + row_pairs(is.last(), js, same)
    }
}

/// The `d`-th of the eight forward offsets, `(0,0,0)` to `(1,1,1)`, with the
/// `z` step varying fastest.
pub open spec fn offset(d: int) -> (int, int, int) {
    (d / 4, (d / 2) % 2, d % 2)
}

/// The pairs between cell `(x, y, z)` and its neighbour at offset `d`.
pub open spec fn neighbour_pairs(
    g: Grid,
    coords: Seq<(usize, usize, usize)>,
    x: int,
    y: int,
    z: int,
    d: int,
) -> Seq<(usize, usize)> {
    let (dx, dy, dz) = offset(d);
    if !g.contains(x + dx, y + dy, z + dz) {
        seq![]
    } else {
        let c = g.flat(x, y, z);
        let m = g.flat(x + dx, y + dy, z + dz);
        block_pairs(members(g, coords, c), members(g, coords, m), m == c)
    }
}

/// The pairs for cell `(x, y, z)` and its first `n` neighbours.
pub open spec fn cell_pairs_upto(
    g: Grid,
    coords: Seq<(usize, usize, usize)>,
    x: int,
    y: int,
    z: int,
    n: int,
) -> Seq<(usize, usize)>
    decreases n,
{
    if n <= 0 {
        seq![]
    } else {
        cell_pairs_upto(g, coords, x, y, z, n - 1) + neighbour_pairs(g, coords, x, y, z, n - 1)
    }
}

pub open spec fn cell_pairs(g: Grid, coords: Seq<(usize, usize, usize)>, x: int, y: int, z: int) -> Seq<
    (usize, usize),
> {
    cell_pairs_upto(g, coords, x, y, z, 8)
}

/// The pairs for the first `n` cells of the column at `(x, y)`.
pub open spec fn column_pairs(g: Grid, coords: Seq<(usize, usize, usize)>, x: int, y: int, n: int) -> Seq<
    (usize, usize),
>
    decreases n,
{
    if n <= 0 {
        seq![]
    } else {
        column_pairs(g, coords, x, y, n - 1) + cell_pairs(g, coords, x, y, n - 1)
    }
}

/// The pairs for the first `n` columns of slice `x`.
pub open spec fn slice_pairs(g: Grid, coords: Seq<(usize, usize, usize)>, x: int, n: int) -> Seq<
    (usize, usize),
>
    decreases n,
{
    if n <= 0 {
        seq![]
    } else {
        slice_pairs(g, coords, x, n - 1) + column_pairs(g, coords, x, n - 1, g.size_z as int)
    }
}

/// The pairs for the first `n` slices.
pub open spec fn grid_pairs(g: Grid, coords: Seq<(usize, usize, usize)>, n: int) -> Seq<
    (usize, usize),
>
    decreases n,
{
    if n <= 0 {
        seq![]
    } else {
        grid_pairs(g, coords, n - 1) + slice_pairs(g, coords, n - 1, g.size_y as int)
    }
}

/// Every candidate pair, in the order in which the cells, the offsets and the
/// bodies of each cell are visited.
pub open spec fn collision_pairs_of(g: Grid, coords: Seq<(usize, usize, usize)>) -> Seq<
    (usize, usize),
> {
    grid_pairs(g, coords, g.size_x as int)
}

pub proof fn lemma_flat_bounds(x: int, y: int, z: int, sx: int, sy: int, sz: int)
    requires
        0 <= x < sx,
        0 <= y < sy,
        0 <= z < sz,
    ensures
        0 <= x * sy,
        x * sy + y < sx * sy,
        sx * sy <= sx * sy * sz,
        0 <= (x * sy + y) * sz,
        (x * sy + y) * sz + z < sx * sy * sz,
{
    assert(0 <= x * sy) by (nonlinear_arith)
        requires
            0 <= x,
            0 <= sy,
    ;
    assert(x * sy + y < sx * sy) by (nonlinear_arith)
        requires
            0 <= x < sx,
            0 <= y < sy,
    ;
    assert(sx * sy <= sx * sy * sz) by (nonlinear_arith)
        requires
            0 <= sx,
            0 <= sy,
            1 <= sz,
    ;
    let a = x * sy + y;
    assert(0 <= a * sz) by (nonlinear_arith)
        requires
            0 <= a,
            0 <= sz,
    ;
    assert(a * sz + z < sx * sy * sz) by (nonlinear_arith)
        requires
            0 <= a < sx * sy,
            0 <= z < sz,
    ;
}

proof fn lemma_mul_ge(a: int, b: int)
    requires
        0 <= a,
        1 <= b,
    ensures
        a <= a * b,
{
    assert(a <= a * b) by (nonlinear_arith)
        requires
            0 <= a,
            1 <= b,
    ;
}

/// The number of cells, saturated at `usize::MAX`.
pub fn cell_count(g: &Grid) -> (r: usize)
    ensures
        r == (if g.cells() <= usize::MAX {
            g.cells()
        } else {
            usize::MAX as int
        }),
{
    let sx = g.size_x;
    let sy = g.size_y;
    let sz = g.size_z;
    match sx.checked_mul(sy) {
        Some(p) => match p.checked_mul(sz) {
            Some(q) => q,
            None => usize::MAX,
        },
        None => {
            if sz == 0 {
                assert(g.cells() == 0);
                0
            } else {
                proof {
                    lemma_mul_ge(sx * sy, sz as int);
                }
                usize::MAX
            }
        },
    }
}

/// The cell number of the coordinates `(x, y, z)`, when it is below `total`.
fn cell_index(g: &Grid, x: usize, y: usize, z: usize, total: usize) -> (r: Option<usize>)
    requires
        total == g.cells(),
    ensures
        r == (if 0 <= g.flat(x as int, y as int, z as int) < total {
            Some(g.flat(x as int, y as int, z as int) as usize)
        } else {
            None
        }),
{
    let sy = g.size_y;
    let sz = g.size_z;
    if sz == 0 {
        assert(g.cells() == 0) by (nonlinear_arith)
            requires
                g.size_z == 0,
                g.cells() == g.size_x * g.size_y * g.size_z,
        ;
        return None;
    }
    assert(0 <= x * sy) by (nonlinear_arith)
        requires
            0 <= x,
            0 <= sy,
    ;
    let a = match x.checked_mul(sy) {
        Some(a) => a,
        None => {
            proof {
                lemma_mul_ge(x * sy + y, sz as int);
            }
            return None;
        },
    };
    let b = match a.checked_add(y) {
        Some(b) => b,
        None => {
            proof {
                lemma_mul_ge(x * sy + y, sz as int);
            }
            return None;
        },
    };
    assert(0 <= b * sz) by (nonlinear_arith)
        requires
            0 <= b,
            0 <= sz,
    ;
    let c = match b.checked_mul(sz) {
        Some(c) => c,
        None => {
            return None;
        },
    };
    let f = match c.checked_add(z) {
        Some(f) => f,
        None => {
            return None;
        },
    };
    if f < total {
        Some(f)
    } else {
        None
    }
}

/// Files each body under its cell: entry `c` lists, in order, the bodies
/// filed under cell `c`.
fn build_cells(g: &Grid, coords: &Vec<(usize, usize, usize)>, total: usize) -> (cells: Vec<
    Vec<usize>,
>)
    requires
        total == g.cells(),
    ensures
        cells.len() == total,
        forall|c: int| 0 <= c < total ==> (#[trigger] cells@[c])@ == members(*g, coords@, c),
{
    let mut cells: Vec<Vec<usize>> = Vec::new();
    while cells.len() < total
        invariant
            cells.len() <= total,
            forall|c: int| 0 <= c < cells.len() ==> (#[trigger] cells@[c])@ == Seq::<usize>::empty(),
        decreases total - cells.len(),
    {
        cells.push(Vec::new());
    }
    let n = coords.len();
    let mut k: usize = 0;
    while k < n
        invariant
            k <= n == coords.len(),
            total == g.cells(),
            cells.len() == total,
            forall|c: int| 0 <= c < total ==> (#[trigger] cells@[c])@ == bucket(*g, coords@, c, k as int),
        decreases n - k,
    {
        let (x, y, z) = coords[k];
        let ghost before = cells@;
        match cell_index(g, x, y, z, total) {
            Some(idx) => {
                cells[idx].push(k);
                assert forall|c: int| 0 <= c < total implies (#[trigger] cells@[c])@ == bucket(
                    *g,
                    coords@,
                    c,
                    k + 1,
                ) by {
                    if c != idx {
                        assert(cells@[c] == before[c]);
                    }
                }
            },
            None => {
                assert forall|c: int| 0 <= c < total implies (#[trigger] cells@[c])@ == bucket(
                    *g,
                    coords@,
                    c,
                    k + 1,
                ) by {
                    assert(cells@[c] == before[c]);
                }
            },
        }
        k = k + 1;
    }
    cells
}

proof fn lemma_block_empty_rows(is: Seq<usize>, js: Seq<usize>, same: bool)
    requires
        js.len() == 0,
    ensures
        block_pairs(is, js, same) == Seq::<(usize, usize)>::empty(),
    decreases is.len(),
{
    if is.len() > 0 {
        lemma_block_empty_rows(is.drop_last(), js, same);
    }
}

proof fn lemma_empty_cell(g: Grid, coords: Seq<(usize, usize, usize)>, x: int, y: int, z: int, n: int)
    requires
        members(g, coords, g.flat(x, y, z)).len() == 0,
    ensures
        cell_pairs_upto(g, coords, x, y, z, n) == Seq::<(usize, usize)>::empty(),
    decreases n,
{
    if n > 0 {
        lemma_empty_cell(g, coords, x, y, z, n - 1);
        assert(cell_pairs_upto(g, coords, x, y, z, n) =~= Seq::<(usize, usize)>::empty());
    }
}

/// Appends the pairs between the bodies `is` and the bodies `js`.
fn push_block_pairs(pairs: &mut Vec<(usize, usize)>, is: &Vec<usize>, js: &Vec<usize>, same: bool)
    ensures
        final(pairs)@ == old(pairs)@ + block_pairs(is@, js@, same),
{
    let ghost start = pairs@;
    let mut a: usize = 0;
    while a < is.len()
        invariant
            a <= is.len(),
            pairs@ == start + block_pairs(is@.take(a as int), js@, same),
        decreases is.len() - a,
    {
        let i = is[a];
        let ghost mid = pairs@;
        let mut b: usize = 0;
        while b < js.len()
            invariant
                b <= js.len(),
                i == is@[a as int],
                pairs@ == mid + row_pairs(i, js@.take(b as int), same),
            decreases js.len() - b,
        {
            let j = js[b];
            assert(js@.take(b + 1).drop_last() =~= js@.take(b as int));
            if !(same && i >= j) {
                pairs.push((i, j));
            }
            b = b + 1;
        }
        assert(js@.take(js.len() as int) =~= js@);
        assert(is@.take(a + 1).drop_last() =~= is@.take(a as int));
        a = a + 1;
    }
    assert(is@.take(is.len() as int) =~= is@);
}

/// Appends the pairs for cell `(x, y, z)` and its eight forward neighbours.
fn push_cell_pairs(
    pairs: &mut Vec<(usize, usize)>,
    g: &Grid,
    coords: &Vec<(usize, usize, usize)>,
    cells: &Vec<Vec<usize>>,
    x: usize,
    y: usize,
    z: usize,
)
    requires
        cells.len() == g.cells(),
        forall|c: int| 0 <= c < cells.len() ==> (#[trigger] cells@[c])@ == members(*g, coords@, c),
        g.contains(x as int, y as int, z as int),
    ensures
        final(pairs)@ == old(pairs)@ + cell_pairs(*g, coords@, x as int, y as int, z as int),
{
    let sx = g.size_x;
    let sy = g.size_y;
    let sz = g.size_z;
    proof {
        lemma_flat_bounds(x as int, y as int, z as int, sx as int, sy as int, sz as int);
    }
    let cell_idx = (x * sy + y) * sz + z;
    let indices = &cells[cell_idx];
    if indices.len() == 0 {
        proof {
            lemma_empty_cell(*g, coords@, x as int, y as int, z as int, 8);
        }
        assert(pairs@ =~= old(pairs)@ + cell_pairs(*g, coords@, x as int, y as int, z as int));
        return;
    }
    let ghost start = pairs@;
    let mut d: usize = 0;
    while d < 8
        invariant
            d <= 8,
            cells.len() == g.cells(),
            forall|c: int| 0 <= c < cells.len() ==> (#[trigger] cells@[c])@ == members(*g, coords@, c),
            g.contains(x as int, y as int, z as int),
            sx == g.size_x && sy == g.size_y && sz == g.size_z,
            cell_idx == g.flat(x as int, y as int, z as int),
            0 <= cell_idx < cells.len(),
            indices == cells@[cell_idx as int],
            pairs@ == start + cell_pairs_upto(*g, coords@, x as int, y as int, z as int, d as int),
        decreases 8 - d,
    {
        let dx = d / 4;
        let dy = (d / 2) % 2;
        let dz = d % 2;
        let nx = x + dx;
        let ny = y + dy;
        let nz = z + dz;
        if nx < sx && ny < sy && nz < sz {
            proof {
                lemma_flat_bounds(nx as int, ny as int, nz as int, sx as int, sy as int, sz as int);
            }
            let neighbor_idx = (nx * sy + ny) * sz + nz;
            let neighbor_indices = &cells[neighbor_idx];
            if neighbor_indices.len() == 0 {
                proof {
                    lemma_block_empty_rows(indices@, neighbor_indices@, neighbor_idx == cell_idx);
                }
            } else {
                push_block_pairs(pairs, indices, neighbor_indices, neighbor_idx == cell_idx);
            }
        }
        d = d + 1;
    }
}

/// Every pair of bodies that the collision pass tests, in order: for each cell
/// (by `x`, then `y`, then `z`), for each of its forward neighbours inside the
/// grid, each body of the cell with each body of the neighbour, where within a
/// single cell a body is paired only with the bodies after it.
///
/// `coords[k]` holds the integer cell coordinates of body `k`.
pub fn collision_pairs(g: &Grid, coords: &Vec<(usize, usize, usize)>) -> (r: Vec<(usize, usize)>)
    requires
        g.cells() <= usize::MAX,
    ensures
        r@ == collision_pairs_of(*g, coords@),
{
    let mut pairs: Vec<(usize, usize)> = Vec::new();
    let total = cell_count(g);
    if total == 0 {
        proof {
            lemma_no_cells(*g, coords@);
        }
        return pairs;
    }
    let cells = build_cells(g, coords, total);
    let sx = g.size_x;
    let sy = g.size_y;
    let sz = g.size_z;
    let mut x: usize = 0;
    while x < sx
        invariant
            x <= sx == g.size_x,
            sy == g.size_y,
            sz == g.size_z,
            cells.len() == g.cells(),
            forall|c: int| 0 <= c < cells.len() ==> (#[trigger] cells@[c])@ == members(*g, coords@, c),
            pairs@ == grid_pairs(*g, coords@, x as int),
        decreases sx - x,
    {
        let mut y: usize = 0;
        while y < sy
            invariant
                x < sx == g.size_x,
                y <= sy == g.size_y,
                sz == g.size_z,
                cells.len() == g.cells(),
                forall|c: int| 0 <= c < cells.len() ==> (#[trigger] cells@[c])@ == members(*g, coords@, c),
                pairs@ == grid_pairs(*g, coords@, x as int) + slice_pairs(*g, coords@, x as int, y as int),
            decreases sy - y,
        {
            let mut z: usize = 0;
            while z < sz
                invariant
                    x < sx == g.size_x,
                    y < sy == g.size_y,
                    z <= sz == g.size_z,
                    cells.len() == g.cells(),
                    forall|c: int| 0 <= c < cells.len() ==> (#[trigger] cells@[c])@ == members(*g, coords@, c),
                    pairs@ == grid_pairs(*g, coords@, x as int) + slice_pairs(*g, coords@, x as int, y as int)
                        + column_pairs(*g, coords@, x as int, y as int, z as int),
                decreases sz - z,
            {
                push_cell_pairs(&mut pairs, g, coords, &cells, x, y, z);
                z = z + 1;
            }
            y = y + 1;
        }
        x = x + 1;
    }
    pairs
}

proof fn lemma_flat_slices_empty(g: Grid, coords: Seq<(usize, usize, usize)>, x: int, n: int)
    requires
        g.size_z == 0,
    ensures
        slice_pairs(g, coords, x, n) == Seq::<(usize, usize)>::empty(),
    decreases n,
{
    if n > 0 {
        lemma_flat_slices_empty(g, coords, x, n - 1);
        assert(slice_pairs(g, coords, x, n) =~= Seq::<(usize, usize)>::empty());
    }
}

proof fn lemma_flat_grid_empty(g: Grid, coords: Seq<(usize, usize, usize)>, n: int)
    requires
        g.size_y == 0 || g.size_z == 0,
    ensures
        grid_pairs(g, coords, n) == Seq::<(usize, usize)>::empty(),
    decreases n,
{
    if n > 0 {
        lemma_flat_grid_empty(g, coords, n - 1);
        if g.size_z == 0 {
            lemma_flat_slices_empty(g, coords, n - 1, g.size_y as int);
        }
        assert(grid_pairs(g, coords, n) =~= Seq::<(usize, usize)>::empty());
    }
}

proof fn lemma_no_cells(g: Grid, coords: Seq<(usize, usize, usize)>)
    requires
        g.cells() == 0,
    ensures
        collision_pairs_of(g, coords) == Seq::<(usize, usize)>::empty(),
{
    assert(g.size_x == 0 || g.size_y == 0 || g.size_z == 0) by (nonlinear_arith)
        requires
            g.size_x * g.size_y * g.size_z == 0,
    ;
    if g.size_x != 0 {
        lemma_flat_grid_empty(g, coords, g.size_x as int);
    }
}

} // verus!
