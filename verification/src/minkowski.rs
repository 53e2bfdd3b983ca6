//! The integer parts of the Minkowski functionals of a pixelated random set:
//! the occupied area, the exposed cell sides, and the Euler characteristic
//! (4-connected clusters minus enclosed holes).
use vstd::prelude::*;
use vstd::set_lib::lemma_set_disjoint_lens;
use crate::grid::{
    Cell, grid_wf, valid_labeling, components_listed, label_components, in_grid, label_of,
    count_cells, grid_count, row_count, lemma_grid_count_bound, lemma_labeling_unique, component_count,
    lemma_component_count_unique,
};

verus! {

/// A cell of the first or last row or column of the `n × m` grid.
pub open spec fn on_border(n: int, m: int, c: Cell) -> bool {
    c.0 == 0 || c.0 == n - 1 || c.1 == 0 || c.1 == m - 1
}

/// No cell labelled `a` lies on the border.
pub open spec fn enclosed(n: int, m: int, l: Seq<Vec<usize>>, a: int) -> bool {
    forall|c: Cell| in_grid(n, m, c) && #[trigger] label_of(l, c) == a ==> !on_border(n, m, c)
}

/// The labels among `1..=k` whose cells avoid the border.
pub open spec fn enclosed_labels(n: int, m: int, l: Seq<Vec<usize>>, k: int) -> Set<int> {
    Set::new(|a: int| 1 <= a <= k && enclosed(n, m, l, a))
}

/// The number of holes of the set of `true` cells of the grid.
pub open spec fn hole_count(g: Seq<Vec<bool>>) -> int {
    choose|holes: int| is_hole_count(g, holes)
}

/// A grid has one number of holes.
pub proof fn lemma_hole_count_unique(g: Seq<Vec<bool>>, holes: int)
    requires
        is_hole_count(g, holes),
        g.len() <= usize::MAX,
        g.len() > 0 ==> 0 <= first_width(g) <= usize::MAX,
    ensures
        hole_count(g) == holes,
{
    let h2 = hole_count(g);
    assert(is_hole_count(g, h2));
    if g.len() >= 3 && first_width(g) >= 3 {
        let n = g.len() as int;
        let m = first_width(g);
        let (l1, k1) = choose|l: Seq<Vec<usize>>, count: int|
            {
                &&& valid_labeling(g, m, false, l, count)
                &&& holes == enclosed_labels(n, m, l, count).len()
            };
        let (l2, k2) = choose|l: Seq<Vec<usize>>, count: int|
            {
                &&& valid_labeling(g, m, false, l, count)
                &&& h2 == enclosed_labels(n, m, l, count).len()
            };
        lemma_labeling_unique(g, m, false, l1, k1, l2, k2);
        assert forall|a: int| enclosed(n, m, l1, a) == enclosed(n, m, l2, a) by {
            assert forall|c: Cell| in_grid(n, m, c) implies (#[trigger] label_of(l1, c) == a) == (label_of(l2, c) == a) by {
            }
            if enclosed(n, m, l1, a) {
                assert forall|c: Cell| in_grid(n, m, c) && #[trigger] label_of(l2, c) == a implies !on_border(n, m, c) by {
                    assert(label_of(l1, c) == a);
                }
            }
            if enclosed(n, m, l2, a) {
                assert forall|c: Cell| in_grid(n, m, c) && #[trigger] label_of(l1, c) == a implies !on_border(n, m, c) by {
                    assert(label_of(l2, c) == a);
                }
            }
        }
        assert(enclosed_labels(n, m, l1, k1) =~= enclosed_labels(n, m, l2, k2));
    }
}

/// `holes` is the number of holes of the set of `true` cells of the grid,
/// read on the width of its first row.
pub open spec fn is_hole_count(g: Seq<Vec<bool>>, holes: int) -> bool {
    if g.len() < 3 || first_width(g) < 3 {
        holes == 0
    } else {
        exists|l: Seq<Vec<usize>>, count: int|
            {
                &&& valid_labeling(g, first_width(g), false, l, count)
                &&& holes == enclosed_labels(g.len() as int, first_width(g), l, count).len()
            }
    }
}

/// The width of a grid, read from its first row.
pub open spec fn first_width(g: Seq<Vec<bool>>) -> int {
    g[0]@.len() as int
}

/// Counts the 4-connected components of the cells of `grid` that hold
/// `target`; the width is that of the first row.
pub fn count_components(grid: &Vec<Vec<bool>>, target: bool) -> (count: usize)
    requires
        grid@.len() > 0,
        grid_wf(grid@, first_width(grid@)),
        grid@.len() * first_width(grid@) < usize::MAX,
    ensures
        count == component_count(grid@, first_width(grid@), target),
        count <= grid@.len() * first_width(grid@),
{
    let n = grid.len();
    let m = grid[0].len();
    let (components, labels) = label_components(grid, m, target);
    proof {
        assert(valid_labeling(grid@, first_width(grid@), target, labels@, components@.len() as int));
        lemma_component_count_unique(grid@, first_width(grid@), target, components@.len() as int);
    }
    components.len()
}

/// Counts the holes of the set of `true` cells: the 4-connected components
/// of `false` cells that do not touch the border of the grid. Grids with
/// fewer than three rows or columns have none.
pub fn count_holes(grid: &Vec<Vec<bool>>) -> (holes: usize)
    requires
        grid@.len() > 0,
        grid_wf(grid@, first_width(grid@)),
        grid@.len() * first_width(grid@) < usize::MAX,
    ensures
        holes == hole_count(grid@),
        holes <= grid@.len() * first_width(grid@),
{
    let n = grid.len();
    let m = grid[0].len();
    if n < 3 || m < 3 {
        proof {
            lemma_hole_count_unique(grid@, 0);
        }
        return 0;
    }
    let ghost ni = n as int;
    let ghost mi = m as int;
    let (components, labels) = label_components(grid, m, false);
    let ghost l = labels@;
    let mut holes: usize = 0;
    let mut k: usize = 0;
    proof {
        assert(enclosed_labels(ni, mi, l, 0) =~= Set::empty());
    }
    while k < components.len()
        invariant
            0 <= k <= components@.len(),
            ni == n as int,
            mi == m as int,
            ni >= 3,
            mi >= 3,
            l == labels@,
            components_listed(ni, mi, l, components@),
            components@.len() <= ni * mi,
            enclosed_labels(ni, mi, l, k as int).finite(),
            holes == enclosed_labels(ni, mi, l, k as int).len(),
            holes <= k,
        decreases components@.len() - k,
    {
        let ghost cs = components@[k as int]@;
        let mut touches_border = false;
        let mut x: usize = 0;
        let clen = components[k].len();
        while x < clen
            invariant
                0 <= x <= clen,
                k < components@.len(),
                n >= 3,
                m >= 3,
                clen == cs.len(),
                cs == components@[k as int]@,
                ni == n as int,
                mi == m as int,
                touches_border == exists|y: int| 0 <= y < x && #[trigger] on_border(ni, mi, cs[y]),
            decreases clen - x,
        {
            let (ci, cj) = components[k][x];
            if ci == 0 || ci == n - 1 || cj == 0 || cj == m - 1 {
                touches_border = true;
            }
            proof {
                if on_border(ni, mi, cs[x as int]) {
                    assert(touches_border);
                }
            }
            x += 1;
        }
        proof {
            let a = k + 1;
            assert(touches_border == !enclosed(ni, mi, l, a)) by {
                if touches_border {
                    let y = choose|y: int| 0 <= y < clen && #[trigger] on_border(ni, mi, cs[y]);
                    assert(cs.contains(cs[y]));
                    assert(label_of(l, cs[y]) == a);
                } else {
                    assert forall|c: Cell| in_grid(ni, mi, c) && #[trigger] label_of(l, c) == a implies !on_border(ni, mi, c) by {
                        assert(components@[k as int]@.contains(c));
                        let y = choose|y: int| 0 <= y < cs.len() && cs[y] == c;
                        assert(on_border(ni, mi, cs[y]) == on_border(ni, mi, c));
                    }
                }
            }
            if enclosed(ni, mi, l, a) {
                assert(enclosed_labels(ni, mi, l, a) =~= enclosed_labels(ni, mi, l, k as int).insert(a));
            } else {
                assert(enclosed_labels(ni, mi, l, a) =~= enclosed_labels(ni, mi, l, k as int));
            }
        }
        if !touches_border {
            holes += 1;
        }
        k += 1;
    }
    proof {
        assert(is_hole_count(grid@, holes as int));
        lemma_hole_count_unique(grid@, holes as int);
    }
    holes
}

/// The Euler characteristic of the set of `true` cells: its 4-connected
/// components minus its holes (0 for a grid without rows or columns).
pub fn count_euler_characteristic(grid: &Vec<Vec<bool>>) -> (euler: i64)
    requires
        grid@.len() > 0 ==> grid_wf(grid@, first_width(grid@)),
        grid@.len() > 0 ==> grid@.len() * first_width(grid@) < usize::MAX,
        grid@.len() > 0 ==> grid@.len() * first_width(grid@) <= i64::MAX,
    ensures
        grid@.len() == 0 || first_width(grid@) == 0 ==> euler == 0,
        grid@.len() > 0 && first_width(grid@) > 0 ==> euler == component_count(
            grid@,
            first_width(grid@),
            true,
        ) - hole_count(grid@),
{
    let n = grid.len();
    if n == 0 {
        return 0;
    }
    let m = grid[0].len();
    if m == 0 {
        return 0;
    }
    let components = count_components(grid, true);
    let holes = count_holes(grid);
    let euler = components as i64 - holes as i64;
    euler
}

/// Counts the occupied cells of the square grid `grid` (`n` rows, read on
/// their first `n` columns).
pub fn count_occupied(grid: &Vec<Vec<bool>>) -> (occupied: u64)
    requires
        grid_wf(grid@, grid@.len() as int),
        grid@.len() * grid@.len() <= usize::MAX,
        grid@.len() * grid@.len() <= u64::MAX,
    ensures
        occupied == grid_count(grid@, grid@.len() as int, true, grid@.len() as int),
{
    let c = count_cells(grid, grid.len(), true);
    proof {
        lemma_grid_count_bound(grid@, grid@.len() as int, true, grid@.len() as int);
    }
    c as u64
}

/// 1 when `b` holds, else 0.
pub open spec fn ind(b: bool) -> nat {
    if b {
        1
    } else {
        0
    }
}

/// The number of sides of cell `c` of the square `n × n` grid that face the
/// border or an empty cell, when `c` is occupied; 0 when it is empty.
pub open spec fn exposed_sides(g: Seq<Vec<bool>>, n: int, c: Cell) -> nat {
    let i = c.0 as int;
    let j = c.1 as int;
    if !g[i]@[j] {
        0
    } else {
        ind(i == 0 || !g[i - 1]@[j]) + ind(i == n - 1 || !g[i + 1]@[j]) + ind(j == 0 || !g[i]@[j - 1])
            + ind(j == n - 1 || !g[i]@[j + 1])
    }
}

/// The exposed sides of the first `j` cells of row `i`.
pub open spec fn row_boundary(g: Seq<Vec<bool>>, n: int, i: int, j: int) -> nat
    decreases j,
{
    if j <= 0 {
        0
    } else {
        row_boundary(g, n, i, j - 1) + exposed_sides(g, n, (i as usize, (j - 1) as usize))
    }
}

/// The exposed sides of the first `i` rows.
pub open spec fn grid_boundary(g: Seq<Vec<bool>>, n: int, i: int) -> nat
    decreases i,
{
    if i <= 0 {
        0
    } else {
        grid_boundary(g, n, i - 1) + row_boundary(g, n, i - 1, n)
    }
}

proof fn lemma_row_boundary_bound(g: Seq<Vec<bool>>, n: int, i: int, j: int)
    requires
        0 <= i < n,
        0 <= j <= n,
        n <= usize::MAX,
    ensures
        row_boundary(g, n, i, j) <= 4 * row_count(g, true, i, j),
    decreases j,
{
    if j > 0 {
        lemma_row_boundary_bound(g, n, i, j - 1);
    }
}

/// Every occupied cell has at most four exposed sides: the boundary of the
/// first `i` rows is at most four times their occupied cells.
pub proof fn lemma_boundary_at_most_four_per_cell(g: Seq<Vec<bool>>, n: int, i: int)
    requires
        0 <= i <= n,
        n <= usize::MAX,
    ensures
        grid_boundary(g, n, i) <= 4 * grid_count(g, n, true, i),
    decreases i,
{
    if i > 0 {
        lemma_boundary_at_most_four_per_cell(g, n, i - 1);
        lemma_row_boundary_bound(g, n, i - 1, n);
    }
}

/// The sides of cell `c` facing its neighbours in the previous and next row
/// (`i - 1` and `i + 1`) that lie on the border or face an empty cell, when
/// `c` is occupied (`across_rows`); otherwise those facing the previous and
/// next column (`j - 1` and `j + 1`). Empty cells expose nothing.
pub open spec fn exposed_along(g: Seq<Vec<bool>>, n: int, c: Cell, across_rows: bool) -> nat {
    let i = c.0 as int;
    let j = c.1 as int;
    if !g[i]@[j] {
        0
    } else if across_rows {
        ind(i == 0 || !g[i - 1]@[j]) + ind(i == n - 1 || !g[i + 1]@[j])
    } else {
        ind(j == 0 || !g[i]@[j - 1]) + ind(j == n - 1 || !g[i]@[j + 1])
    }
}

/// The sides of one orientation exposed by the first `j` cells of row `i`.
pub open spec fn row_sides(g: Seq<Vec<bool>>, n: int, i: int, j: int, across_rows: bool) -> nat
    decreases j,
{
    if j <= 0 {
        0
    } else {
        row_sides(g, n, i, j - 1, across_rows) + exposed_along(
            g,
            n,
            (i as usize, (j - 1) as usize),
            across_rows,
        )
    }
}

/// The sides of one orientation exposed by the first `i` rows.
pub open spec fn grid_sides(g: Seq<Vec<bool>>, n: int, i: int, across_rows: bool) -> nat
    decreases i,
{
    if i <= 0 {
        0
    } else {
        grid_sides(g, n, i - 1, across_rows) + row_sides(g, n, i - 1, n, across_rows)
    }
}

proof fn lemma_row_sides_split(g: Seq<Vec<bool>>, n: int, i: int, j: int)
    ensures
        row_boundary(g, n, i, j) == row_sides(g, n, i, j, true) + row_sides(g, n, i, j, false),
    decreases j,
{
    if j > 0 {
        lemma_row_sides_split(g, n, i, j - 1);
    }
}

/// The exposed sides split into those facing rows and those facing columns.
pub proof fn lemma_boundary_split(g: Seq<Vec<bool>>, n: int, i: int)
    ensures
        grid_boundary(g, n, i) == grid_sides(g, n, i, true) + grid_sides(g, n, i, false),
    decreases i,
{
    if i > 0 {
        lemma_boundary_split(g, n, i - 1);
        lemma_row_sides_split(g, n, i - 1, n);
    }
}

/// Counts the sides of occupied cells of the square grid `grid` that lie on
/// the border or face an empty cell, by orientation: first the sides facing
/// the previous or next row, then those facing the previous or next column.
pub fn count_boundary_sides(grid: &Vec<Vec<bool>>) -> (sides: (u64, u64))
    requires
        grid_wf(grid@, grid@.len() as int),
        4 * grid@.len() * grid@.len() <= u64::MAX,
    ensures
        sides.0 == grid_sides(grid@, grid@.len() as int, grid@.len() as int, true),
        sides.1 == grid_sides(grid@, grid@.len() as int, grid@.len() as int, false),
        sides.0 + sides.1 <= 4 * grid@.len() * grid@.len(),
{
    let n = grid.len();
    let ghost g = grid@;
    let ghost ni = n as int;
    let mut across_rows: u64 = 0;
    let mut across_cols: u64 = 0;
    let mut i: usize = 0;
    while i < n
        invariant
            0 <= i <= n,
            g == grid@,
            ni == n as int,
            ni == g.len(),
            grid_wf(g, ni),
            4 * ni * ni <= u64::MAX,
            across_rows == grid_sides(g, ni, i as int, true),
            across_cols == grid_sides(g, ni, i as int, false),
            across_rows <= 2 * i * ni,
            across_cols <= 2 * i * ni,
        decreases n - i,
    {
        let mut j: usize = 0;
        assert(g[i as int]@.len() >= n);
        while j < n
            invariant
                0 <= i < n,
                0 <= j <= n,
                g == grid@,
                ni == n as int,
                ni == g.len(),
                grid_wf(g, ni),
                4 * ni * ni <= u64::MAX,
                across_rows == grid_sides(g, ni, i as int, true) + row_sides(g, ni, i as int, j as int, true),
                across_cols == grid_sides(g, ni, i as int, false) + row_sides(g, ni, i as int, j as int, false),
                across_rows <= 2 * i * ni + 2 * j,
                across_cols <= 2 * i * ni + 2 * j,
            decreases n - j,
        {
            proof {
                assert(2 * i * ni + 2 * j + 2 <= 2 * ni * ni) by (nonlinear_arith)
                    requires i + 1 <= ni, j + 1 <= ni;
                assert(2 * ni * ni <= 4 * ni * ni) by (nonlinear_arith);
                assert(across_rows + 2 <= u64::MAX);
                assert(across_cols + 2 <= u64::MAX);
                if i > 0 {
                    assert(g[i - 1]@.len() >= n);
                }
                if i + 1 < n {
                    assert(g[i + 1]@.len() >= n);
                }
            }
            if grid[i][j] {
                if i == 0 || !grid[i - 1][j] {
                    across_rows += 1;
                }
                if i == n - 1 || !grid[i + 1][j] {
                    across_rows += 1;
                }
                if j == 0 || !grid[i][j - 1] {
                    across_cols += 1;
                }
                if j == n - 1 || !grid[i][j + 1] {
                    across_cols += 1;
                }
            }
            j += 1;
        }
        proof {
            assert(2 * i * ni + 2 * ni == 2 * (i + 1) * ni) by (nonlinear_arith);
        }
        i += 1;
    }
    proof {
        assert(2 * ni * ni + 2 * ni * ni == 4 * ni * ni) by (nonlinear_arith);
    }
    (across_rows, across_cols)
}

/// Counts the sides of occupied cells of the square grid `grid` that face
/// the border or an empty cell.
pub fn count_boundary_edges(grid: &Vec<Vec<bool>>) -> (edges: u64)
    requires
        grid_wf(grid@, grid@.len() as int),
        4 * grid@.len() * grid@.len() <= u64::MAX,
    ensures
        edges == grid_boundary(grid@, grid@.len() as int, grid@.len() as int),
{
    let (across_rows, across_cols) = count_boundary_sides(grid);
    proof {
        lemma_boundary_split(grid@, grid@.len() as int, grid@.len() as int);
    }
    across_rows + across_cols
}

proof fn lemma_empty_rows(g: Seq<Vec<bool>>, n: int, i: int, j: int)
    requires
        0 <= i < n,
        0 <= j <= n,
        n <= usize::MAX,
        forall|c: Cell| in_grid(n, n, c) ==> !#[trigger] crate::grid::cell_value(g, c),
    ensures
        row_count(g, true, i, j) == 0,
    decreases j,
{
    if j > 0 {
        lemma_empty_rows(g, n, i, j - 1);
        let c: Cell = (i as usize, (j - 1) as usize);
        assert(!crate::grid::cell_value(g, c));
    }
}

/// A grid with no occupied cell has no area and no boundary.
pub proof fn lemma_empty_grid_no_area(g: Seq<Vec<bool>>, n: int, i: int)
    requires
        0 <= i <= n,
        n <= usize::MAX,
        forall|c: Cell| in_grid(n, n, c) ==> !#[trigger] crate::grid::cell_value(g, c),
    ensures
        grid_count(g, n, true, i) == 0,
        grid_boundary(g, n, i) == 0,
    decreases i,
{
    if i > 0 {
        lemma_empty_grid_no_area(g, n, i - 1);
        lemma_empty_rows(g, n, i - 1, n);
        lemma_boundary_at_most_four_per_cell(g, n, i);
    }
}


/// The cell on the other side of one side of cell `c`: across the row
/// boundary (`across_rows`) or the column boundary, towards the higher
/// index (`upper`) or the lower one.
pub open spec fn facing_cell(c: Cell, across_rows: bool, upper: bool) -> (int, int) {
    let i = c.0 as int;
    let j = c.1 as int;
    if across_rows {
        if upper { (i + 1, j) } else { (i - 1, j) }
    } else {
        if upper { (i, j + 1) } else { (i, j - 1) }
    }
}

/// Side `upper` of orientation `across_rows` of cell `c` is open: `c` is an
/// occupied cell of the `n × n` grid and the cell it faces is outside the
/// grid or empty.
pub open spec fn open_side(g: Seq<Vec<bool>>, n: int, c: Cell, across_rows: bool, upper: bool) -> bool {
    let d = facing_cell(c, across_rows, upper);
    &&& in_grid(n, n, c)
    &&& g[c.0 as int]@[c.1 as int]
    &&& !(0 <= d.0 < n && 0 <= d.1 < n && g[d.0]@[d.1])
}

/// The open sides of one orientation, as (cell, upper) pairs.
pub open spec fn open_sides(g: Seq<Vec<bool>>, n: int, across_rows: bool) -> Set<(Cell, bool)> {
    Set::new(|p: (Cell, bool)| open_side(g, n, p.0, across_rows, p.1))
}

spec fn open_sides_rows(g: Seq<Vec<bool>>, n: int, across_rows: bool, i: int) -> Set<(Cell, bool)> {
    Set::new(|p: (Cell, bool)| open_side(g, n, p.0, across_rows, p.1) && p.0.0 < i)
}

spec fn open_sides_row(g: Seq<Vec<bool>>, n: int, across_rows: bool, i: int, j: int) -> Set<(Cell, bool)> {
    Set::new(|p: (Cell, bool)| open_side(g, n, p.0, across_rows, p.1) && p.0.0 == i && p.0.1 < j)
}

proof fn lemma_open_sides_row(g: Seq<Vec<bool>>, n: int, across_rows: bool, i: int, j: int)
    requires
        0 <= i < n,
        0 <= j <= n,
        n <= usize::MAX,
    ensures
        open_sides_row(g, n, across_rows, i, j).finite(),
        open_sides_row(g, n, across_rows, i, j).len() == row_sides(g, n, i, j, across_rows),
    decreases j,
{
    if j == 0 {
        assert(open_sides_row(g, n, across_rows, i, j) =~= Set::empty());
    } else {
        lemma_open_sides_row(g, n, across_rows, i, j - 1);
        let c: Cell = (i as usize, (j - 1) as usize);
        let prev = open_sides_row(g, n, across_rows, i, j - 1);
        let lo = (c, false);
        let hi = (c, true);
        let a = if open_side(g, n, c, across_rows, false) { set![lo] } else { Set::<(Cell, bool)>::empty() };
        let b = if open_side(g, n, c, across_rows, true) { set![hi] } else { Set::<(Cell, bool)>::empty() };
        assert(open_sides_row(g, n, across_rows, i, j) =~= prev.union(a).union(b));
        assert(prev.disjoint(a));
        lemma_set_disjoint_lens(prev, a);
        assert(prev.union(a).disjoint(b));
        lemma_set_disjoint_lens(prev.union(a), b);
        assert(exposed_along(g, n, c, across_rows) == (if open_side(g, n, c, across_rows, false) { 1nat } else { 0nat })
            + (if open_side(g, n, c, across_rows, true) { 1nat } else { 0nat }));
    }
}

proof fn lemma_open_sides_rows(g: Seq<Vec<bool>>, n: int, across_rows: bool, i: int)
    requires
        0 <= i <= n,
        n <= usize::MAX,
    ensures
        open_sides_rows(g, n, across_rows, i).finite(),
        open_sides_rows(g, n, across_rows, i).len() == grid_sides(g, n, i, across_rows),
    decreases i,
{
    if i == 0 {
        assert(open_sides_rows(g, n, across_rows, i) =~= Set::empty());
    } else {
        lemma_open_sides_rows(g, n, across_rows, i - 1);
        lemma_open_sides_row(g, n, across_rows, i - 1, n);
        let prev = open_sides_rows(g, n, across_rows, i - 1);
        let row = open_sides_row(g, n, across_rows, i - 1, n);
        assert(open_sides_rows(g, n, across_rows, i) =~= prev.union(row));
        assert(prev.disjoint(row));
        lemma_set_disjoint_lens(prev, row);
    }
}

/// Each count of `count_boundary_sides` is the number of open sides of that
/// orientation: sides of occupied cells whose facing cell, one row (or one
/// column) up or down, is outside the grid or empty.
pub proof fn lemma_sides_are_open_sides(g: Seq<Vec<bool>>, across_rows: bool)
    requires
        g.len() <= usize::MAX,
    ensures
        open_sides(g, g.len() as int, across_rows).finite(),
        grid_sides(g, g.len() as int, g.len() as int, across_rows) == open_sides(
            g,
            g.len() as int,
            across_rows,
        ).len(),
{
    let n = g.len() as int;
    lemma_open_sides_rows(g, n, across_rows, n);
    assert(open_sides_rows(g, n, across_rows, n) =~= open_sides(g, n, across_rows));
}

} // verus!
