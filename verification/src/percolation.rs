//! Percolation of a discretised random set: does one 4-connected cluster of
//! occupied cells join two opposite sides of the grid?
use vstd::prelude::*;
use std::collections::HashSet;
use crate::grid::{
    Cell, grid_wf, valid_labeling, components_listed, components_traversed, components_in_flood_order, label_components, in_grid, label_of,
    count_cells, grid_count, rows_targets, lemma_grid_count_card, cell_value, is_component_count,
    component_count, lemma_component_count_unique, connected, is_path, is_target,
    lemma_connected_same_label, adjacent,
};

verus! {

broadcast use vstd::std_specs::hash::group_hash_axioms;

/// Which pair of opposite sides a spanning cluster must join.
#[derive(Clone, Copy, Debug, PartialEq, Eq, Structural)]
pub enum PercolationDirection {
    /// From the left edge (row 0) to the right edge (row n - 1).
    Horizontal,
    /// From the bottom edge (column 0) to the top edge (column n - 1).
    Vertical,
    /// Either of the two.
    Both,
}

/// Percolation detector on an `n × n` occupancy grid.
#[derive(Clone, Copy, Debug)]
pub struct PercolationDetector {
    /// Grid resolution for discretisation.
    pub grid_res: usize,
    /// Direction to check for percolation.
    pub direction: PercolationDirection,
}

/// A label of the left edge (row 0) is also found on the right edge (row n - 1).
pub open spec fn spans_horizontally(l: Seq<Vec<usize>>) -> bool {
    let n = l.len() as int;
    exists|j: int, k: int|
        0 <= j < n && 0 <= k < n && #[trigger] l[0]@[j] > 0 && #[trigger] l[n - 1]@[k] == l[0]@[j]
}

/// A label of the bottom edge (column 0) is also found on the top edge (column n - 1).
pub open spec fn spans_vertically(l: Seq<Vec<usize>>) -> bool {
    let n = l.len() as int;
    exists|i: int, k: int|
        0 <= i < n && 0 <= k < n && #[trigger] l[i]@[0] > 0 && #[trigger] l[k]@[n - 1] == l[i]@[0]
}

/// Whether the labelled grid percolates in direction `dir`.
pub open spec fn percolates(dir: PercolationDirection, l: Seq<Vec<usize>>) -> bool {
    &&& l.len() > 0
    &&& {
        ||| (dir == PercolationDirection::Horizontal || dir == PercolationDirection::Both)
            && spans_horizontally(l)
        ||| (dir == PercolationDirection::Vertical || dir == PercolationDirection::Both)
            && spans_vertically(l)
    }
}

/// An occupied cell of the left edge (row 0) is joined by occupied cells to
/// one of the right edge (row n - 1).
pub open spec fn joins_left_right(g: Seq<Vec<bool>>) -> bool {
    let n = g.len() as int;
    exists|a: Cell, b: Cell|
        a.0 == 0 && b.0 == n - 1 && in_grid(n, n, a) && in_grid(n, n, b) && cell_value(g, a)
            && #[trigger] connected(g, n, true, a, b)
}

/// An occupied cell of the bottom edge (column 0) is joined by occupied cells
/// to one of the top edge (column n - 1).
pub open spec fn joins_bottom_top(g: Seq<Vec<bool>>) -> bool {
    let n = g.len() as int;
    exists|a: Cell, b: Cell|
        a.1 == 0 && b.1 == n - 1 && in_grid(n, n, a) && in_grid(n, n, b) && cell_value(g, a)
            && #[trigger] connected(g, n, true, a, b)
}

/// Whether the occupied cells of the square grid `g` form a cluster that
/// joins two opposite sides, in direction `dir`.
pub open spec fn grid_percolates(dir: PercolationDirection, g: Seq<Vec<bool>>) -> bool {
    ||| (dir == PercolationDirection::Horizontal || dir == PercolationDirection::Both)
        && joins_left_right(g)
    ||| (dir == PercolationDirection::Vertical || dir == PercolationDirection::Both)
        && joins_bottom_top(g)
}

/// Read through a valid labelling, percolation is the spanning of the grid by
/// a cluster of occupied cells.
pub proof fn lemma_labels_percolate_iff_grid_does(
    g: Seq<Vec<bool>>,
    l: Seq<Vec<usize>>,
    count: int,
    dir: PercolationDirection,
)
    requires
        valid_labeling(g, g.len() as int, true, l, count),
        g.len() <= usize::MAX,
    ensures
        percolates(dir, l) == grid_percolates(dir, g),
{
    let n = g.len() as int;
    if spans_horizontally(l) {
        let (j, k) = choose|j: int, k: int|
            0 <= j < n && 0 <= k < n && #[trigger] l[0]@[j] > 0 && #[trigger] l[n - 1]@[k] == l[0]@[j];
        let a: Cell = (0usize, j as usize);
        let b: Cell = ((n - 1) as usize, k as usize);
        assert(label_of(l, a) == l[0]@[j] && label_of(l, b) == l[n - 1]@[k]);
        assert(connected(g, n, true, a, b));
        assert(joins_left_right(g));
    }
    if joins_left_right(g) {
        let (a, b) = choose|a: Cell, b: Cell|
            a.0 == 0 && b.0 == n - 1 && in_grid(n, n, a) && in_grid(n, n, b) && cell_value(g, a)
                && #[trigger] connected(g, n, true, a, b);
        lemma_connected_same_label(g, n, true, l, count, a, b);
        assert(label_of(l, a) == l[0]@[a.1 as int] && label_of(l, b) == l[n - 1]@[b.1 as int]);
        assert(spans_horizontally(l));
    }
    if spans_vertically(l) {
        let (i, k) = choose|i: int, k: int|
            0 <= i < n && 0 <= k < n && #[trigger] l[i]@[0] > 0 && #[trigger] l[k]@[n - 1] == l[i]@[0];
        let a: Cell = (i as usize, 0usize);
        let b: Cell = (k as usize, (n - 1) as usize);
        assert(label_of(l, a) == l[i]@[0] && label_of(l, b) == l[k]@[n - 1]);
        assert(connected(g, n, true, a, b));
        assert(joins_bottom_top(g));
    }
    if joins_bottom_top(g) {
        let (a, b) = choose|a: Cell, b: Cell|
            a.1 == 0 && b.1 == n - 1 && in_grid(n, n, a) && in_grid(n, n, b) && cell_value(g, a)
                && #[trigger] connected(g, n, true, a, b);
        lemma_connected_same_label(g, n, true, l, count, a, b);
        assert(label_of(l, a) == l[a.0 as int]@[0] && label_of(l, b) == l[b.0 as int]@[n - 1]);
        assert(spans_vertically(l));
    }
}

/// Every row of the labels is at least as long as there are rows.
pub open spec fn square_labels(l: Seq<Vec<usize>>) -> bool {
    forall|i: int| 0 <= i < l.len() ==> #[trigger] l[i]@.len() >= l.len()
}

/// The counts behind a percolation result on an occupancy grid.
#[derive(Clone, Copy, Debug)]
pub struct GridSummary {
    /// Whether a cluster joins opposite sides in the detector's direction.
    pub percolates: bool,
    /// Number of clusters.
    pub num_components: usize,
    /// Number of cells in the largest cluster (0 when there is none).
    pub largest_component: usize,
    /// Number of occupied cells.
    pub occupied: usize,
}

/// The cells that carry label `a`.
pub open spec fn class_cells(n: int, m: int, l: Seq<Vec<usize>>, a: int) -> Set<Cell> {
    Set::new(|c: Cell| in_grid(n, m, c) && label_of(l, c) == a)
}

/// `size` is the number of cells of the largest of the labels `1..=count` (0 if none).
pub open spec fn is_largest_class(n: int, m: int, l: Seq<Vec<usize>>, count: int, size: int) -> bool {
    &&& forall|a: int| 1 <= a <= count ==> #[trigger] class_cells(n, m, l, a).len() <= size
    &&& count == 0 ==> size == 0
    &&& count > 0 ==> exists|a: int| 1 <= a <= count && #[trigger] class_cells(n, m, l, a).len() == size
}

impl PercolationDetector {
    /// A detector on a `grid_res × grid_res` grid that checks both directions.
    pub fn new(grid_res: usize) -> (d: Self)
        ensures
            d.grid_res == grid_res,
            d.direction == PercolationDirection::Both,
    {
        PercolationDetector { grid_res, direction: PercolationDirection::Both }
    }

    /// The same detector, checking direction `dir`.
    pub fn with_direction(self, dir: PercolationDirection) -> (d: Self)
        ensures
            d.grid_res == self.grid_res,
            d.direction == dir,
    {
        let mut s = self;
        s.direction = dir;
        s
    }

    /// Labels the 4-connected clusters of occupied cells of the square grid
    /// `grid` (`n` rows, read on their first `n` columns) by flood fill.
    /// Returns the cells of each cluster, each in the order in which the
    /// flood fill from its first cell visits them, and the labels (0 for
    /// empty cells).
    pub fn find_components(&self, grid: &Vec<Vec<bool>>) -> (res: (Vec<Vec<Cell>>, Vec<Vec<usize>>))
        requires
            grid_wf(grid@, grid@.len() as int),
            grid@.len() * grid@.len() < usize::MAX,
        ensures
            valid_labeling(grid@, grid@.len() as int, true, res.1@, res.0@.len() as int),
            components_listed(grid@.len() as int, grid@.len() as int, res.1@, res.0@),
            components_traversed(grid@.len() as int, grid@.len() as int, res.1@, res.0@),
            components_in_flood_order(grid@, grid@.len() as int, true, res.0@),
            res.0@.len() <= grid@.len() * grid@.len(),
    {
        label_components(grid, grid.len(), true)
    }

    /// Whether some cluster joins two opposite sides, in the detector's direction.
    #[verifier::loop_isolation(false)]
    pub fn check_percolation(&self, labels: &Vec<Vec<usize>>) -> (r: bool)
        requires
            square_labels(labels@),
        ensures
            r == percolates(self.direction, labels@),
    {
        let n = labels.len();
        if n == 0 {
            return false;
        }
        let horizontal = match self.direction {
            PercolationDirection::Horizontal => true,
            PercolationDirection::Vertical => false,
            PercolationDirection::Both => true,
        };
        let vertical = match self.direction {
            PercolationDirection::Horizontal => false,
            PercolationDirection::Vertical => true,
            PercolationDirection::Both => true,
        };
        let ghost l = labels@;
        let ghost ni = n as int;
        assert(horizontal == (self.direction == PercolationDirection::Horizontal
            || self.direction == PercolationDirection::Both));
        assert(vertical == (self.direction == PercolationDirection::Vertical
            || self.direction == PercolationDirection::Both));
        assert(l[0]@.len() >= n && l[ni - 1]@.len() >= n);
        if horizontal {
            let mut left_labels: HashSet<usize> = HashSet::new();
            let mut j: usize = 0;
            while j < n
                invariant
                    0 <= j <= n,
                    l == labels@,
                    ni == l.len(),
                    ni == n as int,
                    n > 0,
                    l[0]@.len() >= n,
                    forall|x: usize|
                        left_labels@.contains(x) <==> exists|j2: int|
                            0 <= j2 < j && #[trigger] l[0]@[j2] > 0 && x == l[0]@[j2],
                decreases n - j,
            {
                if labels[0][j] > 0 {
                    left_labels.insert(labels[0][j]);
                }
                proof {
                    assert forall|x: usize|
                        left_labels@.contains(x) <==> exists|j2: int|
                            0 <= j2 < j + 1 && #[trigger] l[0]@[j2] > 0 && x == l[0]@[j2] by {
                        if x == l[0]@[j as int] && l[0]@[j as int] > 0 {
                            assert(left_labels@.contains(x));
                        }
                    }
                }
                j += 1;
            }
            let mut k: usize = 0;
            while k < n
                invariant
                    0 <= k <= n,
                    l == labels@,
                    ni == l.len(),
                    ni == n as int,
                    n > 0,
                    l[0]@.len() >= n,
                    l[ni - 1]@.len() >= n,
                    forall|x: usize|
                        left_labels@.contains(x) <==> exists|j2: int|
                            0 <= j2 < n && #[trigger] l[0]@[j2] > 0 && x == l[0]@[j2],
                    forall|k2: int|
                        0 <= k2 < k ==> !(#[trigger] l[ni - 1]@[k2] > 0 && left_labels@.contains(
                            l[ni - 1]@[k2],
                        )),
                decreases n - k,
            {
                if labels[n - 1][k] > 0 && left_labels.contains(&labels[n - 1][k]) {
                    proof {
                        let x = l[ni - 1]@[k as int];
                        let j2 = choose|j2: int| 0 <= j2 < n && #[trigger] l[0]@[j2] > 0 && x == l[0]@[j2];
                        assert(l[0]@[j2] > 0 && l[ni - 1]@[k as int] == l[0]@[j2]);
                        assert(spans_horizontally(l));
                    }
                    return true;
                }
                k += 1;
            }
            proof {
                assert forall|j2: int, k2: int|
                    0 <= j2 < ni && 0 <= k2 < ni && #[trigger] l[0]@[j2] > 0 implies #[trigger] l[ni - 1]@[k2] != l[0]@[j2] by {
                    if l[ni - 1]@[k2] == l[0]@[j2] {
                        assert(left_labels@.contains(l[0]@[j2]));
                    }
                }
            }
        }
        if vertical {
            let mut bottom_labels: HashSet<usize> = HashSet::new();
            let mut i: usize = 0;
            while i < n
                invariant
                    0 <= i <= n,
                    l == labels@,
                    ni == l.len(),
                    ni == n as int,
                    n > 0,
                    square_labels(l),
                    forall|x: usize|
                        bottom_labels@.contains(x) <==> exists|i2: int|
                            0 <= i2 < i && #[trigger] l[i2]@[0] > 0 && x == l[i2]@[0],
                decreases n - i,
            {
                assert(l[i as int]@.len() >= n);
                if labels[i][0] > 0 {
                    bottom_labels.insert(labels[i][0]);
                }
                proof {
                    assert forall|x: usize|
                        bottom_labels@.contains(x) <==> exists|i2: int|
                            0 <= i2 < i + 1 && #[trigger] l[i2]@[0] > 0 && x == l[i2]@[0] by {
                        if x == l[i as int]@[0] && l[i as int]@[0] > 0 {
                            assert(bottom_labels@.contains(x));
                        }
                    }
                }
                i += 1;
            }
            let mut k: usize = 0;
            while k < n
                invariant
                    0 <= k <= n,
                    l == labels@,
                    ni == l.len(),
                    ni == n as int,
                    n > 0,
                    square_labels(l),
                    forall|x: usize|
                        bottom_labels@.contains(x) <==> exists|i2: int|
                            0 <= i2 < n && #[trigger] l[i2]@[0] > 0 && x == l[i2]@[0],
                    forall|k2: int|
                        0 <= k2 < k ==> !(#[trigger] l[k2]@[ni - 1] > 0 && bottom_labels@.contains(
                            l[k2]@[ni - 1],
                        )),
                decreases n - k,
            {
                assert(l[k as int]@.len() >= n);
                if labels[k][n - 1] > 0 && bottom_labels.contains(&labels[k][n - 1]) {
                    proof {
                        let x = l[k as int]@[ni - 1];
                        let i2 = choose|i2: int| 0 <= i2 < n && #[trigger] l[i2]@[0] > 0 && x == l[i2]@[0];
                        assert(l[i2]@[0] > 0 && l[k as int]@[ni - 1] == l[i2]@[0]);
                        assert(spans_vertically(l));
                    }
                    return true;
                }
                k += 1;
            }
            proof {
                assert forall|i2: int, k2: int|
                    0 <= i2 < ni && 0 <= k2 < ni && #[trigger] l[i2]@[0] > 0 implies #[trigger] l[k2]@[ni - 1] != l[i2]@[0] by {
                    if l[k2]@[ni - 1] == l[i2]@[0] {
                        assert(bottom_labels@.contains(l[i2]@[0]));
                    }
                }
            }
        }
        false
    }

    /// The integer summary of a percolation check on the occupancy grid
    /// `grid` (`n` rows, read on their first `n` columns): whether it
    /// percolates, the number of clusters, the size of the largest cluster
    /// and the number of occupied cells.
    pub fn check_grid(&self, grid: &Vec<Vec<bool>>) -> (s: GridSummary)
        requires
            grid_wf(grid@, grid@.len() as int),
            grid@.len() * grid@.len() < usize::MAX,
        ensures
            exists|l: Seq<Vec<usize>>|
                {
                    &&& valid_labeling(grid@, grid@.len() as int, true, l, s.num_components as int)
                    &&& s.percolates == percolates(self.direction, l)
                    &&& is_largest_class(
                        grid@.len() as int,
                        grid@.len() as int,
                        l,
                        s.num_components as int,
                        s.largest_component as int,
                    )
                },
            s.num_components == component_count(grid@, grid@.len() as int, true),
            s.percolates == grid_percolates(self.direction, grid@),
            s.occupied == grid_count(grid@, grid@.len() as int, true, grid@.len() as int),
            s.largest_component <= s.occupied,
    {
        let n = grid.len();
        let ghost ni = n as int;
        let (components, labels) = self.find_components(grid);
        let ghost l = labels@;
        let mut largest: usize = 0;
        let mut k: usize = 0;
        proof {
            lemma_grid_count_card(grid@, ni, true, ni);
        }
        while k < components.len()
            invariant
                0 <= k <= components@.len(),
                ni == grid@.len(),
                l == labels@,
                components_listed(ni, ni, l, components@),
                forall|a: int| 1 <= a <= k ==> #[trigger] class_cells(ni, ni, l, a).len() <= largest,
                k == 0 ==> largest == 0,
                k > 0 ==> exists|a: int| 1 <= a <= k && #[trigger] class_cells(ni, ni, l, a).len() == largest,
                largest <= rows_targets(grid@, ni, true, ni).len(),
                valid_labeling(grid@, ni, true, l, components@.len() as int),
                rows_targets(grid@, ni, true, ni).finite(),
            decreases components@.len() - k,
        {
            let size = components[k].len();
            proof {
                let cs = components@[k as int]@;
                let cl = class_cells(ni, ni, l, k + 1);
                cs.unique_seq_to_set();
                assert(cs.to_set() =~= cl);
                assert(cl.subset_of(rows_targets(grid@, ni, true, ni))) by {
                    assert forall|c: Cell| cl.contains(c) implies rows_targets(grid@, ni, true, ni).contains(c) by {
                        assert(in_grid(ni, ni, c));
                    }
                }
                vstd::set_lib::lemma_len_subset(cl, rows_targets(grid@, ni, true, ni));
            }
            if size > largest {
                largest = size;
            }
            k += 1;
        }
        let percolates = self.check_percolation(&labels);
        let occupied = count_cells(grid, n, true);
        let s = GridSummary {
            percolates,
            num_components: components.len(),
            largest_component: largest,
            occupied,
        };
        proof {
            assert(is_largest_class(ni, ni, l, s.num_components as int, s.largest_component as int));
            assert(is_component_count(grid@, ni, true, s.num_components as int));
            lemma_labels_percolate_iff_grid_does(grid@, l, s.num_components as int, self.direction);
            lemma_component_count_unique(grid@, ni, true, s.num_components as int);
        }
        s
    }
}


// ---------------------------------------------------------------------------
// Laws
// ---------------------------------------------------------------------------

/// Checking both directions percolates exactly when checking the horizontal
/// or the vertical direction alone does.
pub proof fn lemma_both_directions(l: Seq<Vec<usize>>)
    ensures
        percolates(PercolationDirection::Both, l) == (percolates(PercolationDirection::Horizontal, l)
            || percolates(PercolationDirection::Vertical, l)),
{
}

/// Every cell of the grid holds `true`.
pub open spec fn all_occupied(g: Seq<Vec<bool>>) -> bool {
    forall|c: Cell| in_grid(g.len() as int, g.len() as int, c) ==> #[trigger] cell_value(g, c)
}

/// No cell of the grid holds `true`.
pub open spec fn none_occupied(g: Seq<Vec<bool>>) -> bool {
    forall|c: Cell| in_grid(g.len() as int, g.len() as int, c) ==> !#[trigger] cell_value(g, c)
}

proof fn lemma_full_grid_same_label(g: Seq<Vec<bool>>, l: Seq<Vec<usize>>, count: int, c: Cell)
    requires
        valid_labeling(g, g.len() as int, true, l, count),
        all_occupied(g),
        in_grid(g.len() as int, g.len() as int, c),
    ensures
        label_of(l, c) == label_of(l, (0usize, 0usize)),
    decreases c.0, c.1,
{
    let n = g.len() as int;
    if c.1 > 0 {
        let d: Cell = (c.0, (c.1 - 1) as usize);
        lemma_full_grid_same_label(g, l, count, d);
        assert(adjacent(d, c) && cell_value(g, d) && cell_value(g, c));
        assert(label_of(l, d) == label_of(l, c));
    } else if c.0 > 0 {
        let d: Cell = ((c.0 - 1) as usize, c.1);
        lemma_full_grid_same_label(g, l, count, d);
        assert(adjacent(d, c) && cell_value(g, d) && cell_value(g, c));
        assert(label_of(l, d) == label_of(l, c));
    }
}

/// A fully occupied grid is a single cluster, and it percolates in every direction.
pub proof fn lemma_full_grid_percolates(
    g: Seq<Vec<bool>>,
    l: Seq<Vec<usize>>,
    count: int,
    dir: PercolationDirection,
)
    requires
        valid_labeling(g, g.len() as int, true, l, count),
        all_occupied(g),
        1 <= g.len() <= usize::MAX,
    ensures
        count == 1,
        percolates(dir, l),
{
    let n = g.len() as int;
    let o: Cell = (0usize, 0usize);
    assert(cell_value(g, o));
    let a = label_of(l, o) as int;
    assert(1 <= a <= count);
    if count != 1 {
        let b = if a == 1 { 2int } else { 1int };
        assert(crate::grid::label_used(n, n, l, b));
        let c = choose|c: Cell| in_grid(n, n, c) && #[trigger] label_of(l, c) == b;
        lemma_full_grid_same_label(g, l, count, c);
    }
    let last: usize = (n - 1) as usize;
    let right: Cell = (last, 0usize);
    let top: Cell = (0usize, last);
    lemma_full_grid_same_label(g, l, count, right);
    lemma_full_grid_same_label(g, l, count, top);
    assert(l[0]@[0] == label_of(l, o));
    assert(l[n - 1]@[0] == label_of(l, right));
    assert(l[0]@[n - 1] == label_of(l, top));
    assert(spans_horizontally(l));
    assert(spans_vertically(l));
}

/// An empty grid has no cluster and does not percolate.
pub proof fn lemma_empty_grid_does_not_percolate(
    g: Seq<Vec<bool>>,
    l: Seq<Vec<usize>>,
    count: int,
    dir: PercolationDirection,
)
    requires
        valid_labeling(g, g.len() as int, true, l, count),
        none_occupied(g),
        g.len() <= usize::MAX,
    ensures
        count == 0,
        !percolates(dir, l),
{
    let n = g.len() as int;
    if count > 0 {
        assert(crate::grid::label_used(n, n, l, 1));
        let c = choose|c: Cell| in_grid(n, n, c) && #[trigger] label_of(l, c) == 1;
        assert(!cell_value(g, c));
    }
    if spans_horizontally(l) {
        let (j, k) = choose|j: int, k: int|
            0 <= j < n && 0 <= k < n && #[trigger] l[0]@[j] > 0 && #[trigger] l[n - 1]@[k] == l[0]@[j];
        let c: Cell = (0usize, j as usize);
        assert(label_of(l, c) == l[0]@[j]);
        assert(!cell_value(g, c));
    }
    if spans_vertically(l) {
        let (i, k) = choose|i: int, k: int|
            0 <= i < n && 0 <= k < n && #[trigger] l[i]@[0] > 0 && #[trigger] l[k]@[n - 1] == l[i]@[0];
        let c: Cell = (i as usize, 0usize);
        assert(label_of(l, c) == l[i]@[0]);
        assert(!cell_value(g, c));
    }
}

/// Every cell occupied in `g1` is occupied in `g2`.
pub open spec fn occupied_within(g1: Seq<Vec<bool>>, g2: Seq<Vec<bool>>) -> bool {
    &&& g1.len() == g2.len()
    &&& forall|c: Cell| in_grid(g1.len() as int, g1.len() as int, c) && #[trigger] cell_value(g1, c) ==> cell_value(g2, c)
}

proof fn lemma_connected_grows(g1: Seq<Vec<bool>>, g2: Seq<Vec<bool>>, a: Cell, b: Cell)
    requires
        occupied_within(g1, g2),
        connected(g1, g1.len() as int, true, a, b),
    ensures
        connected(g2, g2.len() as int, true, a, b),
{
    let n = g1.len() as int;
    let p = choose|p: Seq<Cell>| #[trigger] is_path(g1, n, true, p) && p[0] == a && p.last() == b;
    assert forall|k: int| 0 <= k < p.len() implies is_target(g2, n, true, #[trigger] p[k]) by {
        assert(is_target(g1, n, true, p[k]));
    }
    assert(is_path(g2, n, true, p));
}

/// Percolation is monotone: occupying more cells never stops a grid from percolating.
pub proof fn lemma_percolation_monotone(
    g1: Seq<Vec<bool>>,
    g2: Seq<Vec<bool>>,
    dir: PercolationDirection,
)
    requires
        occupied_within(g1, g2),
        grid_percolates(dir, g1),
    ensures
        grid_percolates(dir, g2),
{
    let n = g1.len() as int;
    if (dir == PercolationDirection::Horizontal || dir == PercolationDirection::Both) && joins_left_right(g1) {
        let (a, b) = choose|a: Cell, b: Cell|
            a.0 == 0 && b.0 == n - 1 && in_grid(n, n, a) && in_grid(n, n, b) && cell_value(g1, a)
                && #[trigger] connected(g1, n, true, a, b);
        lemma_connected_grows(g1, g2, a, b);
        assert(cell_value(g2, a));
        assert(joins_left_right(g2));
    } else {
        let (a, b) = choose|a: Cell, b: Cell|
            a.1 == 0 && b.1 == n - 1 && in_grid(n, n, a) && in_grid(n, n, b) && cell_value(g1, a)
                && #[trigger] connected(g1, n, true, a, b);
        lemma_connected_grows(g1, g2, a, b);
        assert(cell_value(g2, a));
        assert(joins_bottom_top(g2));
    }
}

/// Occupying more cells never lowers the occupied count.
pub proof fn lemma_occupied_count_monotone(g1: Seq<Vec<bool>>, g2: Seq<Vec<bool>>)
    requires
        occupied_within(g1, g2),
        g1.len() <= usize::MAX,
    ensures
        grid_count(g1, g1.len() as int, true, g1.len() as int) <= grid_count(
            g2,
            g2.len() as int,
            true,
            g2.len() as int,
        ),
{
    let n = g1.len() as int;
    lemma_grid_count_card(g1, n, true, n);
    lemma_grid_count_card(g2, n, true, n);
    let s1 = rows_targets(g1, n, true, n);
    let s2 = rows_targets(g2, n, true, n);
    assert forall|c: Cell| s1.contains(c) implies s2.contains(c) by {
        assert(in_grid(n, n, c) && cell_value(g1, c));
    }
    vstd::set_lib::lemma_len_subset(s1, s2);
}

/// What `check_grid` reports can only grow with the occupied set: a grid
/// whose occupied cells stay occupied in another has at most as many
/// occupied cells, and if it percolates so does the other.
pub proof fn lemma_summary_monotone(g1: Seq<Vec<bool>>, g2: Seq<Vec<bool>>, dir: PercolationDirection)
    requires
        occupied_within(g1, g2),
        g1.len() <= usize::MAX,
    ensures
        grid_count(g1, g1.len() as int, true, g1.len() as int) <= grid_count(
            g2,
            g2.len() as int,
            true,
            g2.len() as int,
        ),
        grid_percolates(dir, g1) ==> grid_percolates(dir, g2),
{
    lemma_occupied_count_monotone(g1, g2);
    if grid_percolates(dir, g1) {
        lemma_percolation_monotone(g1, g2, dir);
    }
}

} // verus!
