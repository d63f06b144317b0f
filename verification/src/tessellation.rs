//! Connectivity of regular-grid surface tessellation: the vertices of a
//! `(u_steps + 1) x (v_steps + 1)` parameter grid are numbered row by row,
//! and each grid cell is split into two triangles.
use vstd::prelude::*;
use vstd::arithmetic::div_mod::{
    lemma_fundamental_div_mod_converse_div, lemma_fundamental_div_mod_converse_mod,
};

verus! {

/// Triangle `w` (0 or 1) of the grid cell at column `i` and row `j`, on a
/// grid with `row` vertices per row.
pub open spec fn grid_triangle(row: int, i: int, j: int, w: int) -> [u32; 3] {
    let a = j * row + i;
    let c = (j + 1) * row + i;
    if w == 0 {
        [a as u32, (a + 1) as u32, (c + 1) as u32]
    } else {
        [a as u32, (c + 1) as u32, c as u32]
    }
}

/// The triangles of a grid of `u_steps` by `v_steps` cells, cell by cell
/// along each row, rows in order.
pub open spec fn grid_triangles(u_steps: nat, v_steps: nat) -> Seq<[u32; 3]> {
    Seq::new(
        2 * (u_steps * v_steps),
        |m: int|
            grid_triangle(
                u_steps + 1int,
                (m / 2) % (u_steps as int),
                (m / 2) / (u_steps as int),
                m % 2,
            ),
    )
}

/// Position `2 * (u * j + i) + w` of the grid triangles is triangle `w` of
/// cell `(i, j)`.
pub proof fn lemma_grid_index(u: int, i: int, j: int, w: int)
    requires
        0 <= i < u,
        0 <= j,
        0 <= w < 2,
    ensures
        (2 * (u * j + i) + w) / 2 == u * j + i,
        (2 * (u * j + i) + w) % 2 == w,
        (u * j + i) / u == j,
        (u * j + i) % u == i,
{
    let x = u * j + i;
    assert(x >= 0) by (nonlinear_arith)
        requires
            0 <= i < u,
            0 <= j,
            x == u * j + i,
    ;
    lemma_fundamental_div_mod_converse_div(2 * x + w, 2, x, w);
    lemma_fundamental_div_mod_converse_mod(2 * x + w, 2, x, w);
    assert(u * j + i == j * u + i) by (nonlinear_arith);
    lemma_fundamental_div_mod_converse_div(u * j + i, u, j, i);
    lemma_fundamental_div_mod_converse_mod(u * j + i, u, j, i);
}

/// Position of the first triangle of grid cell `(i, j)` on a grid `u` cells
/// wide.
pub open spec fn cell_first(u: int, i: int, j: int) -> int {
    2 * (u * j + i)
}

proof fn lemma_cell_bounds(u: int, v: int, i: int, j: int)
    requires
        0 <= i < u,
        0 <= j < v,
    ensures
        0 <= j * (u + 1) + i,
        (j + 1) * (u + 1) + i + 1 < (u + 1) * (v + 1),
        j * (u + 1) + i + 1 <= (j + 1) * (u + 1) + i + 1,
        0 <= cell_first(u, i, j),
        cell_first(u, i, j) + 1 < 2 * (u * v),
{
    assert(0 <= j * (u + 1) + i) by (nonlinear_arith)
        requires
            0 <= i,
            0 <= j,
            0 <= u,
    ;
    assert((j + 1) * (u + 1) + i + 1 < (u + 1) * (v + 1)) by (nonlinear_arith)
        requires
            0 <= i < u,
            0 <= j < v,
    ;
    assert(j * (u + 1) + i + 1 <= (j + 1) * (u + 1) + i + 1) by (nonlinear_arith)
        requires
            0 <= u,
    ;
    assert(0 <= u * j + i && u * j + i + 1 <= u * v) by (nonlinear_arith)
        requires
            0 <= i < u,
            0 <= j < v,
    ;
}

/// The grid's triangles: two per cell, cell `(i, j)` at positions
/// `2 * (u * j + i)` and one more. With `a` the cell's lower-left vertex
/// `j * (u + 1) + i` in a row of `u + 1` vertices, and `c = a + u + 1` the
/// vertex above it, they are `[a, a + 1, c + 1]` and `[a, c + 1, c]`. Every
/// index is a vertex of the `(u + 1) x (v + 1)` grid.
pub proof fn lemma_grid_triangles_cells(u: nat, v: nat)
    requires
        u >= 1,
        (u + 1) * (v + 1) <= u32::MAX,
    ensures
        grid_triangles(u, v).len() == 2 * (u * v),
        forall|i: int, j: int|
            0 <= i < u && 0 <= j < v ==> {
                let a = j * (u + 1) + i;
                let c = (j + 1) * (u + 1) + i;
                &&& #[trigger] grid_triangles(u, v)[cell_first(u as int, i, j)] == [a as u32, (a + 1) as u32, (c + 1) as u32]
                &&& grid_triangles(u, v)[cell_first(u as int, i, j) + 1] == [a as u32, (c + 1) as u32, c as u32]
            },
        forall|m: int, k: int|
            0 <= m < grid_triangles(u, v).len() && 0 <= k < 3 ==> (#[trigger] grid_triangles(u, v)[m][k]) < (u + 1)
                * (v + 1),
{
    let ui = u as int;
    let vi = v as int;
    let all = grid_triangles(u, v);
    assert forall|i: int, j: int| 0 <= i < u && 0 <= j < v implies {
        let a = j * (u + 1) + i;
        let c = (j + 1) * (u + 1) + i;
        &&& #[trigger] all[cell_first(u as int, i, j)] == [a as u32, (a + 1) as u32, (c + 1) as u32]
        &&& all[cell_first(u as int, i, j) + 1] == [a as u32, (c + 1) as u32, c as u32]
    } by {
        lemma_grid_index(ui, i, j, 0);
        lemma_grid_index(ui, i, j, 1);
        lemma_cell_bounds(ui, vi, i, j);
    }
    assert forall|m: int, k: int| 0 <= m < all.len() && 0 <= k < 3 implies (#[trigger] all[m][k]) < (u + 1) * (v
        + 1) by {
        let q = m / 2;
        let w = m % 2;
        let i = q % ui;
        let j = q / ui;
        assert(m == 2 * q + w);
        assert(q == ui * j + i) by {
            vstd::arithmetic::div_mod::lemma_fundamental_div_mod(q, ui);
        }
        assert(0 <= i < ui);
        assert(0 <= j);
        assert(j < vi) by (nonlinear_arith)
            requires
                q == ui * j + i,
                0 <= i,
                2 * q + w < 2 * (ui * vi),
                0 <= w,
                ui >= 1,
        ;
        lemma_cell_bounds(ui, vi, i, j);
        lemma_grid_index(ui, i, j, w);
    }
}

/// Regular-grid step count: at least one.
pub fn grid_steps(steps: usize) -> (n: usize)
    ensures
        n == if steps < 1 {
            1
        } else {
            steps
        },
{
    if steps < 1 {
        1
    } else {
        steps
    }
}

/// The triangle indices of a regular grid of `u_steps` by `v_steps` cells
/// over vertices numbered row by row.
pub fn grid_triangle_indices(u_steps: usize, v_steps: usize) -> (t: Vec<[u32; 3]>)
    requires
        u_steps >= 1,
        (u_steps + 1) * (v_steps + 1) <= u32::MAX,
    ensures
        t@ == grid_triangles(u_steps as nat, v_steps as nat),
        t@.len() == 2 * (u_steps * v_steps),
        forall|i: int, j: int|
            0 <= i < u_steps && 0 <= j < v_steps ==> {
                let a = j * (u_steps + 1) + i;
                let c = (j + 1) * (u_steps + 1) + i;
                &&& #[trigger] t@[cell_first(u_steps as int, i, j)] == [a as u32, (a + 1) as u32, (c + 1) as u32]
                &&& t@[cell_first(u_steps as int, i, j) + 1] == [a as u32, (c + 1) as u32, c as u32]
            },
        forall|m: int, k: int|
            0 <= m < t@.len() && 0 <= k < 3 ==> (#[trigger] t@[m][k]) < (u_steps + 1) * (v_steps + 1),
{
    proof {
        lemma_grid_triangles_cells(u_steps as nat, v_steps as nat);
    }
    let ghost all = grid_triangles(u_steps as nat, v_steps as nat);
    let ghost u = u_steps as int;
    assert(u_steps + 1 <= (u_steps + 1) * (v_steps + 1)) by (nonlinear_arith);
    let row = u_steps + 1;
    let mut t: Vec<[u32; 3]> = Vec::new();
    let mut j: usize = 0;
    assert(u * (v_steps as int) <= (u_steps + 1) * (v_steps + 1)) by (nonlinear_arith)
        requires
            u == u_steps,
            u >= 1,
    ;
    while j < v_steps
        invariant
            0 <= j <= v_steps,
            u == u_steps as int,
            u_steps >= 1,
            row == u_steps + 1,
            (u_steps + 1) * (v_steps + 1) <= u32::MAX,
            all == grid_triangles(u_steps as nat, v_steps as nat),
            t@ == all.subrange(0, 2 * (u * j)),
        decreases v_steps - j,
    {
        let mut i: usize = 0;
        while i < u_steps
            invariant
                0 <= i <= u_steps,
                0 <= j < v_steps,
                u == u_steps as int,
                u_steps >= 1,
                row == u_steps + 1,
                (u_steps + 1) * (v_steps + 1) <= u32::MAX,
                all == grid_triangles(u_steps as nat, v_steps as nat),
                t@ == all.subrange(0, 2 * (u * j + i)),
            decreases u_steps - i,
        {
            assert((j + 1) * row + i + 1 <= (u_steps + 1) * (v_steps + 1)) by (nonlinear_arith)
                requires
                    row == u_steps + 1,
                    0 <= i < u_steps,
                    0 <= j < v_steps,
            ;
            assert(j * row + i + 1 <= (j + 1) * row + i + 1) by (nonlinear_arith)
                requires
                    row == u_steps + 1,
            ;
            let a = (j * row + i) as u32;
            let b = a + 1;
            let c = ((j + 1) * row + i) as u32;
            let d = c + 1;
            t.push([a, b, d]);
            t.push([a, d, c]);
            proof {
                assert(u * j + i + 1 <= u * (v_steps as int)) by (nonlinear_arith)
                    requires
                        0 <= i < u,
                        0 <= j < v_steps,
                ;
                lemma_grid_index(u, i as int, j as int, 0);
                lemma_grid_index(u, i as int, j as int, 1);
                let m0 = 2 * (u * j + i);
                assert(all[m0] == grid_triangle(u + 1, i as int, j as int, 0));
                assert(all[m0 + 1] == grid_triangle(u + 1, i as int, j as int, 1));
                assert(t@ =~= all.subrange(0, 2 * (u * j + i + 1)));
            }
            i = i + 1;
        }
        assert(u * j + u == u * (j + 1)) by (nonlinear_arith);
        j = j + 1;
    }
    assert(all.subrange(0, 2 * (u * (v_steps as int))) =~= all);
    t
}

} // verus!
