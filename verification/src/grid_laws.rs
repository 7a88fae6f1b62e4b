//! What the candidate pairs of the collision grid amount to: exactly the pairs
//! of bodies in a cell and a forward neighbour of it, each tested once.
use vstd::prelude::*;
use vstd::seq_lib::lemma_no_dup_in_concat;
use vstd::seq_lib::lemma_seq_concat_contains_all_elements;
use vstd::seq_lib::lemma_seq_contains_after_push;

use crate::grid::{
    block_pairs, bucket, cell_of, cell_pairs, cell_pairs_upto, collision_pairs_of, column_pairs,
    grid_pairs, members, neighbour_pairs, offset, row_pairs, slice_pairs, Grid,
};

verus! {

/// `(x + dx, y + dy, z + dz)` is a forward step of at most one cell along
/// each axis from `(x, y, z)`, both inside the grid, numbered `c` and `m`.
pub open spec fn forward_step(
    g: Grid,
    x: int,
    y: int,
    z: int,
    dx: int,
    dy: int,
    dz: int,
    c: int,
    m: int,
) -> bool {
    &&& 0 <= dx <= 1 && 0 <= dy <= 1 && 0 <= dz <= 1
    &&& g.contains(x, y, z)
    &&& g.contains(x + dx, y + dy, z + dz)
    &&& c == g.flat(x, y, z)
    &&& m == g.flat(x + dx, y + dy, z + dz)
}

/// Cell `m` is cell `c` itself or one of the seven cells one step further
/// along one or more axes.
pub open spec fn forward_neighbour(g: Grid, c: int, m: int) -> bool {
    exists|x: int, y: int, z: int, dx: int, dy: int, dz: int| #[trigger]
        forward_step(g, x, y, z, dx, dy, dz, c, m)
}

/// Body `i` is tested against body `j`: both exist, `j` lies in a forward
/// neighbour of the cell of `i`, and within one cell `i` comes first.
pub open spec fn tested(g: Grid, coords: Seq<(usize, usize, usize)>, i: int, j: int) -> bool {
    &&& 0 <= i < coords.len()
    &&& 0 <= j < coords.len()
    &&& forward_neighbour(g, cell_of(g, coords, i), cell_of(g, coords, j))
    &&& (cell_of(g, coords, i) == cell_of(g, coords, j) ==> i < j)
}

pub open spec fn sorted_strictly(s: Seq<usize>) -> bool {
    forall|a: int, b: int| 0 <= a < b < s.len() ==> s[a] < s[b]
}

/// Pair `q` comes from cell `(x, y, z)` and its neighbour at offset `d`.
pub open spec fn hit(
    g: Grid,
    coords: Seq<(usize, usize, usize)>,
    x: int,
    y: int,
    z: int,
    d: int,
    q: (usize, usize),
) -> bool {
    let (dx, dy, dz) = offset(d);
    &&& g.contains(x + dx, y + dy, z + dz)
    &&& q.0 < coords.len()
    &&& q.1 < coords.len()
    &&& cell_of(g, coords, q.0 as int) == g.flat(x, y, z)
    &&& cell_of(g, coords, q.1 as int) == g.flat(x + dx, y + dy, z + dz)
    &&& !(g.flat(x + dx, y + dy, z + dz) == g.flat(x, y, z) && q.0 >= q.1)
}

/// Pair `q` comes from cell `(x, y, z)` and one of its neighbours.
pub open spec fn cell_hit(
    g: Grid,
    coords: Seq<(usize, usize, usize)>,
    x: int,
    y: int,
    z: int,
    q: (usize, usize),
) -> bool {
    exists|d: int| 0 <= d < 8 && #[trigger] hit(g, coords, x, y, z, d, q)
}

proof fn lemma_div_unique(a: int, r: int, a2: int, r2: int, s: int)
    requires
        0 <= a,
        0 <= a2,
        0 <= r < s,
        0 <= r2 < s,
        a * s + r == a2 * s + r2,
    ensures
        a == a2,
        r == r2,
{
    assert((a2 - a) * s == r - r2) by (nonlinear_arith)
        requires
            a * s + r == a2 * s + r2,
    ;
    if a2 > a {
        assert((a2 - a) * s >= s) by (nonlinear_arith)
            requires
                a2 - a >= 1,
                s >= 0,
        ;
    } else if a > a2 {
        assert((a - a2) * s >= s) by (nonlinear_arith)
            requires
                a - a2 >= 1,
                s >= 0,
        ;
        assert((a2 - a) * s == -((a - a2) * s)) by (nonlinear_arith);
    }
}

/// Distinct cells of the grid have distinct numbers.
pub proof fn lemma_flat_injective(g: Grid, x: int, y: int, z: int, x2: int, y2: int, z2: int)
    requires
        g.contains(x, y, z),
        g.contains(x2, y2, z2),
        g.flat(x, y, z) == g.flat(x2, y2, z2),
    ensures
        x == x2 && y == y2 && z == z2,
{
    let sy = g.size_y as int;
    let sz = g.size_z as int;
    assert(0 <= x * sy && 0 <= x2 * sy) by (nonlinear_arith)
        requires
            0 <= x,
            0 <= x2,
            0 <= sy,
    ;
    lemma_div_unique(x * sy + y, z, x2 * sy + y2, z2, sz);
    lemma_div_unique(x, y, x2, y2, sy);
}

proof fn lemma_offset(d: int)
    requires
        0 <= d < 8,
    ensures
        0 <= offset(d).0 <= 1,
        0 <= offset(d).1 <= 1,
        0 <= offset(d).2 <= 1,
        d == 4 * offset(d).0 + 2 * offset(d).1 + offset(d).2,
{
}

proof fn lemma_bucket(g: Grid, coords: Seq<(usize, usize, usize)>, c: int, n: int)
    requires
        0 <= n <= coords.len() <= usize::MAX,
    ensures
        sorted_strictly(bucket(g, coords, c, n)),
        forall|k: usize| #[trigger]
            bucket(g, coords, c, n).contains(k) <==> (k < n && cell_of(g, coords, k as int) == c),
    decreases n,
{
    broadcast use lemma_seq_contains_after_push;

    if n > 0 {
        lemma_bucket(g, coords, c, n - 1);
        let b = bucket(g, coords, c, n - 1);
        assert forall|a: int| 0 <= a < b.len() implies b[a] < n - 1 by {
            assert(b.contains(b[a]));
        }
        if cell_of(g, coords, n - 1) == c {
            let v = (n - 1) as usize;
            assert(bucket(g, coords, c, n) == b.push(v));
            assert forall|a: int, a2: int| 0 <= a < a2 < b.push(v).len() implies b.push(v)[a]
                < b.push(v)[a2] by {
                if a2 == b.len() {
                    assert(b.push(v)[a] == b[a]);
                }
            }
        } else {
            assert(bucket(g, coords, c, n) == b);
        }
    }
}

proof fn lemma_row(i: usize, js: Seq<usize>, same: bool)
    requires
        sorted_strictly(js),
    ensures
        forall|q: (usize, usize)| #[trigger]
            row_pairs(i, js, same).contains(q) <==> (q.0 == i && js.contains(q.1) && !(same && i
                >= q.1)),
        row_pairs(i, js, same).no_duplicates(),
    decreases js.len(),
{
    broadcast use lemma_seq_contains_after_push;

    if js.len() > 0 {
        let e = js.drop_last();
        lemma_row(i, e, same);
        assert(js =~= e.push(js.last()));
        let r = row_pairs(i, e, same);
        let v = (i, js.last());
        if !(same && i >= js.last()) {
            assert forall|a: int, b: int| 0 <= a < r.len() && 0 <= b < 1 implies r[a] != seq![
                v,
            ][b] by {
                assert(r.contains(r[a]));
                let k = choose|k: int| 0 <= k < e.len() && e[k] == r[a].1;
                assert(js[k] == e[k]);
            }
            lemma_no_dup_in_concat(r, seq![v]);
            assert(r.push(v) =~= r + seq![v]);
        }
    }
}

proof fn lemma_block(is: Seq<usize>, js: Seq<usize>, same: bool)
    requires
        sorted_strictly(is),
        sorted_strictly(js),
    ensures
        forall|q: (usize, usize)| #[trigger]
            block_pairs(is, js, same).contains(q) <==> (is.contains(q.0) && js.contains(q.1) && !(
            same && q.0 >= q.1)),
        block_pairs(is, js, same).no_duplicates(),
    decreases is.len(),
{
    broadcast use lemma_seq_contains_after_push, lemma_seq_concat_contains_all_elements;

    if is.len() > 0 {
        let e = is.drop_last();
        lemma_block(e, js, same);
        lemma_row(is.last(), js, same);
        assert(is =~= e.push(is.last()));
        let b = block_pairs(e, js, same);
        let r = row_pairs(is.last(), js, same);
        assert forall|a: int, c: int| 0 <= a < b.len() && 0 <= c < r.len() implies b[a] != r[c] by {
            assert(b.contains(b[a]));
            assert(r.contains(r[c]));
            let k = choose|k: int| 0 <= k < e.len() && e[k] == b[a].0;
            assert(is[k] == e[k]);
        }
        lemma_no_dup_in_concat(b, r);
    }
}

proof fn lemma_neighbour(g: Grid, coords: Seq<(usize, usize, usize)>, x: int, y: int, z: int, d: int)
    requires
        coords.len() <= usize::MAX,
    ensures
        forall|q: (usize, usize)| #[trigger]
            neighbour_pairs(g, coords, x, y, z, d).contains(q) <==> hit(g, coords, x, y, z, d, q),
        neighbour_pairs(g, coords, x, y, z, d).no_duplicates(),
{
    let (dx, dy, dz) = offset(d);
    if g.contains(x + dx, y + dy, z + dz) {
        let c = g.flat(x, y, z);
        let m = g.flat(x + dx, y + dy, z + dz);
        lemma_bucket(g, coords, c, coords.len() as int);
        lemma_bucket(g, coords, m, coords.len() as int);
        lemma_block(members(g, coords, c), members(g, coords, m), m == c);
    }
}

proof fn lemma_cell_upto(g: Grid, coords: Seq<(usize, usize, usize)>, x: int, y: int, z: int, n: int)
    requires
        coords.len() <= usize::MAX,
        g.contains(x, y, z),
        0 <= n <= 8,
    ensures
        forall|q: (usize, usize)| #[trigger]
            cell_pairs_upto(g, coords, x, y, z, n).contains(q) <==> exists|d: int|
                0 <= d < n && #[trigger] hit(g, coords, x, y, z, d, q),
        cell_pairs_upto(g, coords, x, y, z, n).no_duplicates(),
    decreases n,
{
    broadcast use lemma_seq_concat_contains_all_elements;

    if n > 0 {
        lemma_cell_upto(g, coords, x, y, z, n - 1);
        lemma_neighbour(g, coords, x, y, z, n - 1);
        let a = cell_pairs_upto(g, coords, x, y, z, n - 1);
        let b = neighbour_pairs(g, coords, x, y, z, n - 1);
        assert forall|q: (usize, usize)| #[trigger]
            cell_pairs_upto(g, coords, x, y, z, n).contains(q) <==> exists|d: int|
                0 <= d < n && #[trigger] hit(g, coords, x, y, z, d, q) by {
            if exists|d: int| 0 <= d < n && #[trigger] hit(g, coords, x, y, z, d, q) {
                let d = choose|d: int| 0 <= d < n && #[trigger] hit(g, coords, x, y, z, d, q);
                if d < n - 1 {
                    assert(a.contains(q));
                } else {
                    assert(b.contains(q));
                }
            }
        }
        assert forall|i: int, j: int| 0 <= i < a.len() && 0 <= j < b.len() implies a[i] != b[j] by {
            assert(a.contains(a[i]));
            assert(b.contains(b[j]));
            if a[i] == b[j] {
                let q = a[i];
                let d = choose|d: int| 0 <= d < n - 1 && #[trigger] hit(g, coords, x, y, z, d, q);
                lemma_offset(d);
                lemma_offset(n - 1);
                let o = offset(d);
                let o2 = offset(n - 1);
                lemma_flat_injective(g, x + o.0, y + o.1, z + o.2, x + o2.0, y + o2.1, z + o2.2);
            }
        }
        lemma_no_dup_in_concat(a, b);
    }
}

proof fn lemma_cell(g: Grid, coords: Seq<(usize, usize, usize)>, x: int, y: int, z: int)
    requires
        coords.len() <= usize::MAX,
        g.contains(x, y, z),
    ensures
        forall|q: (usize, usize)| #[trigger]
            cell_pairs(g, coords, x, y, z).contains(q) <==> cell_hit(g, coords, x, y, z, q),
        cell_pairs(g, coords, x, y, z).no_duplicates(),
        forall|q: (usize, usize)| #[trigger]
            cell_hit(g, coords, x, y, z, q) ==> cell_of(g, coords, q.0 as int) == g.flat(x, y, z),
{
    lemma_cell_upto(g, coords, x, y, z, 8);
}

proof fn lemma_column(g: Grid, coords: Seq<(usize, usize, usize)>, x: int, y: int, n: int)
    requires
        coords.len() <= usize::MAX,
        0 <= x < g.size_x,
        0 <= y < g.size_y,
        0 <= n <= g.size_z,
    ensures
        forall|q: (usize, usize)| #[trigger]
            column_pairs(g, coords, x, y, n).contains(q) <==> exists|z: int|
                0 <= z < n && #[trigger] cell_hit(g, coords, x, y, z, q),
        column_pairs(g, coords, x, y, n).no_duplicates(),
    decreases n,
{
    broadcast use lemma_seq_concat_contains_all_elements;

    if n > 0 {
        lemma_column(g, coords, x, y, n - 1);
        lemma_cell(g, coords, x, y, n - 1);
        let a = column_pairs(g, coords, x, y, n - 1);
        let b = cell_pairs(g, coords, x, y, n - 1);
        assert forall|q: (usize, usize)| #[trigger]
            column_pairs(g, coords, x, y, n).contains(q) <==> exists|z: int|
                0 <= z < n && #[trigger] cell_hit(g, coords, x, y, z, q) by {
            if exists|z: int| 0 <= z < n && #[trigger] cell_hit(g, coords, x, y, z, q) {
                let z = choose|z: int| 0 <= z < n && #[trigger] cell_hit(g, coords, x, y, z, q);
                if z < n - 1 {
                    assert(a.contains(q));
                } else {
                    assert(b.contains(q));
                }
            }
        }
        assert forall|i: int, j: int| 0 <= i < a.len() && 0 <= j < b.len() implies a[i] != b[j] by {
            assert(a.contains(a[i]));
            assert(b.contains(b[j]));
            if a[i] == b[j] {
                let q = a[i];
                let z = choose|z: int| 0 <= z < n - 1 && #[trigger] cell_hit(g, coords, x, y, z, q);
                lemma_cell(g, coords, x, y, z);
                lemma_flat_injective(g, x, y, z, x, y, n - 1);
            }
        }
        lemma_no_dup_in_concat(a, b);
    }
}

/// Pair `q` comes from some cell of the column at `(x, y)`.
pub open spec fn column_hit(g: Grid, coords: Seq<(usize, usize, usize)>, x: int, y: int, q: (
    usize,
    usize,
)) -> bool {
    exists|z: int| 0 <= z < g.size_z && #[trigger] cell_hit(g, coords, x, y, z, q)
}

/// Pair `q` comes from some cell of slice `x`.
pub open spec fn slice_hit(g: Grid, coords: Seq<(usize, usize, usize)>, x: int, q: (
    usize,
    usize,
)) -> bool {
    exists|y: int| 0 <= y < g.size_y && #[trigger] column_hit(g, coords, x, y, q)
}

proof fn lemma_column_label(
    g: Grid,
    coords: Seq<(usize, usize, usize)>,
    x: int,
    y: int,
    q: (usize, usize),
) -> (z: int)
    requires
        coords.len() <= usize::MAX,
        0 <= x < g.size_x,
        0 <= y < g.size_y,
        column_hit(g, coords, x, y, q),
    ensures
        0 <= z < g.size_z,
        cell_of(g, coords, q.0 as int) == g.flat(x, y, z),
{
    let z = choose|z: int| 0 <= z < g.size_z && #[trigger] cell_hit(g, coords, x, y, z, q);
    lemma_cell(g, coords, x, y, z);
    z
}

proof fn lemma_slice(g: Grid, coords: Seq<(usize, usize, usize)>, x: int, n: int)
    requires
        coords.len() <= usize::MAX,
        0 <= x < g.size_x,
        0 <= n <= g.size_y,
    ensures
        forall|q: (usize, usize)| #[trigger]
            slice_pairs(g, coords, x, n).contains(q) <==> exists|y: int|
                0 <= y < n && #[trigger] column_hit(g, coords, x, y, q),
        slice_pairs(g, coords, x, n).no_duplicates(),
    decreases n,
{
    broadcast use lemma_seq_concat_contains_all_elements;

    if n > 0 {
        lemma_slice(g, coords, x, n - 1);
        lemma_column(g, coords, x, n - 1, g.size_z as int);
        let a = slice_pairs(g, coords, x, n - 1);
        let b = column_pairs(g, coords, x, n - 1, g.size_z as int);
        assert forall|q: (usize, usize)| #[trigger]
            slice_pairs(g, coords, x, n).contains(q) <==> exists|y: int|
                0 <= y < n && #[trigger] column_hit(g, coords, x, y, q) by {
            if b.contains(q) {
                assert(column_hit(g, coords, x, n - 1, q));
            }
            if exists|y: int| 0 <= y < n && #[trigger] column_hit(g, coords, x, y, q) {
                let y = choose|y: int| 0 <= y < n && #[trigger] column_hit(g, coords, x, y, q);
                if y < n - 1 {
                    assert(a.contains(q));
                } else {
                    assert(b.contains(q));
                }
            }
        }
        assert forall|i: int, j: int| 0 <= i < a.len() && 0 <= j < b.len() implies a[i] != b[j] by {
            assert(a.contains(a[i]));
            assert(b.contains(b[j]));
            if a[i] == b[j] {
                let q = a[i];
                let y = choose|y: int| 0 <= y < n - 1 && #[trigger] column_hit(g, coords, x, y, q);
                let z1 = lemma_column_label(g, coords, x, y, q);
                assert(column_hit(g, coords, x, n - 1, q));
                let z2 = lemma_column_label(g, coords, x, n - 1, q);
                lemma_flat_injective(g, x, y, z1, x, n - 1, z2);
            }
        }
        lemma_no_dup_in_concat(a, b);
    }
}

proof fn lemma_slice_label(g: Grid, coords: Seq<(usize, usize, usize)>, x: int, q: (usize, usize)) -> (r: (
    int,
    int,
))
    requires
        coords.len() <= usize::MAX,
        0 <= x < g.size_x,
        slice_hit(g, coords, x, q),
    ensures
        0 <= r.0 < g.size_y,
        0 <= r.1 < g.size_z,
        cell_of(g, coords, q.0 as int) == g.flat(x, r.0, r.1),
{
    let y = choose|y: int| 0 <= y < g.size_y && #[trigger] column_hit(g, coords, x, y, q);
    let z = lemma_column_label(g, coords, x, y, q);
    (y, z)
}

proof fn lemma_grid(g: Grid, coords: Seq<(usize, usize, usize)>, n: int)
    requires
        coords.len() <= usize::MAX,
        0 <= n <= g.size_x,
    ensures
        forall|q: (usize, usize)| #[trigger]
            grid_pairs(g, coords, n).contains(q) <==> exists|x: int|
                0 <= x < n && #[trigger] slice_hit(g, coords, x, q),
        grid_pairs(g, coords, n).no_duplicates(),
    decreases n,
{
    broadcast use lemma_seq_concat_contains_all_elements;

    if n > 0 {
        lemma_grid(g, coords, n - 1);
        lemma_slice(g, coords, n - 1, g.size_y as int);
        let a = grid_pairs(g, coords, n - 1);
        let b = slice_pairs(g, coords, n - 1, g.size_y as int);
        assert forall|q: (usize, usize)| #[trigger]
            grid_pairs(g, coords, n).contains(q) <==> exists|x: int|
                0 <= x < n && #[trigger] slice_hit(g, coords, x, q) by {
            if b.contains(q) {
                assert(slice_hit(g, coords, n - 1, q));
            }
            if exists|x: int| 0 <= x < n && #[trigger] slice_hit(g, coords, x, q) {
                let x = choose|x: int| 0 <= x < n && #[trigger] slice_hit(g, coords, x, q);
                if x < n - 1 {
                    assert(a.contains(q));
                } else {
                    assert(b.contains(q));
                }
            }
        }
        assert forall|i: int, j: int| 0 <= i < a.len() && 0 <= j < b.len() implies a[i] != b[j] by {
            assert(a.contains(a[i]));
            assert(b.contains(b[j]));
            if a[i] == b[j] {
                let q = a[i];
                let x = choose|x: int| 0 <= x < n - 1 && #[trigger] slice_hit(g, coords, x, q);
                let (y1, z1) = lemma_slice_label(g, coords, x, q);
                assert(slice_hit(g, coords, n - 1, q));
                let (y2, z2) = lemma_slice_label(g, coords, n - 1, q);
                lemma_flat_injective(g, x, y1, z1, n - 1, y2, z2);
            }
        }
        lemma_no_dup_in_concat(a, b);
    }
}

proof fn lemma_offset_of_steps(dx: int, dy: int, dz: int)
    requires
        0 <= dx <= 1,
        0 <= dy <= 1,
        0 <= dz <= 1,
    ensures
        0 <= 4 * dx + 2 * dy + dz < 8,
        offset(4 * dx + 2 * dy + dz) == (dx, dy, dz),
{
}

/// A pair of bodies is among the candidate pairs exactly when the second lies
/// in the cell of the first or in a forward neighbour of it, and, within one
/// cell, comes after the first.
pub proof fn lemma_collision_pairs_exact(
    g: Grid,
    coords: Seq<(usize, usize, usize)>,
    i: usize,
    j: usize,
)
    requires
        coords.len() <= usize::MAX,
    ensures
        collision_pairs_of(g, coords).contains((i, j)) <==> tested(g, coords, i as int, j as int),
{
    let q = (i, j);
    lemma_grid(g, coords, g.size_x as int);
    let ci = cell_of(g, coords, i as int);
    let cj = cell_of(g, coords, j as int);
    if collision_pairs_of(g, coords).contains(q) {
        let x = choose|x: int| 0 <= x < g.size_x && #[trigger] slice_hit(g, coords, x, q);
        let y = choose|y: int| 0 <= y < g.size_y && #[trigger] column_hit(g, coords, x, y, q);
        let z = choose|z: int| 0 <= z < g.size_z && #[trigger] cell_hit(g, coords, x, y, z, q);
        let d = choose|d: int| 0 <= d < 8 && #[trigger] hit(g, coords, x, y, z, d, q);
        lemma_offset(d);
        let (dx, dy, dz) = offset(d);
        assert(forward_step(g, x, y, z, dx, dy, dz, ci, cj));
        assert(forward_neighbour(g, ci, cj));
    }
    if tested(g, coords, i as int, j as int) {
        let (x, y, z, dx, dy, dz) = choose|x: int, y: int, z: int, dx: int, dy: int, dz: int| #[trigger]
            forward_step(g, x, y, z, dx, dy, dz, ci, cj);
        lemma_offset_of_steps(dx, dy, dz);
        let d = 4 * dx + 2 * dy + dz;
        assert(hit(g, coords, x, y, z, d, q));
        assert(cell_hit(g, coords, x, y, z, q));
        assert(column_hit(g, coords, x, y, q));
        assert(slice_hit(g, coords, x, q));
    }
}

/// No pair of bodies is tested twice: no candidate pair repeats, and the two
/// orders of one pair of bodies never both occur.
pub proof fn lemma_collision_pairs_once(g: Grid, coords: Seq<(usize, usize, usize)>)
    requires
        coords.len() <= usize::MAX,
    ensures
        collision_pairs_of(g, coords).no_duplicates(),
        forall|i: usize, j: usize| #[trigger]
            collision_pairs_of(g, coords).contains((i, j)) ==> !collision_pairs_of(
                g,
                coords,
            ).contains((j, i)),
{
    lemma_grid(g, coords, g.size_x as int);
    assert forall|i: usize, j: usize| #[trigger]
        collision_pairs_of(g, coords).contains((i, j)) implies !collision_pairs_of(
        g,
        coords,
    ).contains((j, i)) by {
        lemma_collision_pairs_exact(g, coords, i, j);
        lemma_collision_pairs_exact(g, coords, j, i);
        if collision_pairs_of(g, coords).contains((j, i)) {
            let ci = cell_of(g, coords, i as int);
            let cj = cell_of(g, coords, j as int);
            let (x, y, z, dx, dy, dz) = choose|x: int, y: int, z: int, dx: int, dy: int, dz: int|
                #[trigger] forward_step(g, x, y, z, dx, dy, dz, ci, cj);
            let (x2, y2, z2, ex, ey, ez) = choose|
                x: int,
                y: int,
                z: int,
                dx: int,
                dy: int,
                dz: int,
            | #[trigger] forward_step(g, x, y, z, dx, dy, dz, cj, ci);
            lemma_flat_injective(g, x, y, z, x2 + ex, y2 + ey, z2 + ez);
            lemma_flat_injective(g, x + dx, y + dy, z + dz, x2, y2, z2);
        }
    }
}

/// Any two bodies filed under the same cell of the grid are tested, the
/// earlier one first.
pub proof fn lemma_same_cell_tested(
    g: Grid,
    coords: Seq<(usize, usize, usize)>,
    i: usize,
    j: usize,
    x: int,
    y: int,
    z: int,
)
    requires
        coords.len() <= usize::MAX,
        i < j < coords.len(),
        g.contains(x, y, z),
        cell_of(g, coords, i as int) == g.flat(x, y, z),
        cell_of(g, coords, j as int) == g.flat(x, y, z),
    ensures
        collision_pairs_of(g, coords).contains((i, j)),
{
    assert(forward_step(g, x, y, z, 0, 0, 0, g.flat(x, y, z), g.flat(x, y, z)));
    lemma_collision_pairs_exact(g, coords, i, j);
}

/// With fewer than two bodies there is nothing to test.
pub proof fn lemma_fewer_than_two_bodies(g: Grid, coords: Seq<(usize, usize, usize)>)
    requires
        coords.len() < 2,
    ensures
        collision_pairs_of(g, coords).len() == 0,
{
    let s = collision_pairs_of(g, coords);
    if s.len() > 0 {
        assert(s.contains(s[0]));
        lemma_collision_pairs_exact(g, coords, s[0].0, s[0].1);
    }
}

} // verus!
