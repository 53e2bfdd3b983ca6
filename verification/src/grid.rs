//! Occupancy grids and their 4-connected components.
//!
//! A grid is a `Vec<Vec<bool>>` of `n` rows, read on the first `width`
//! columns of each row. A labelling gives every cell that holds the target
//! value a positive label, shared exactly by the cells that are joined to it
//! by a 4-connected path of target cells; labels count up from 1 in the
//! row-major order in which components are first met.
use vstd::prelude::*;
use vstd::set_lib::*;

verus! {

/// A grid cell, as (row, column).
pub type Cell = (usize, usize);

/// `c` lies in the grid of `n` rows and `m` columns.
pub open spec fn in_grid(n: int, m: int, c: Cell) -> bool {
    c.0 < n && c.1 < m
}

/// Every row of `g` is at least `m` cells long.
pub open spec fn grid_wf(g: Seq<Vec<bool>>, m: int) -> bool {
    forall|i: int| 0 <= i < g.len() ==> #[trigger] g[i]@.len() >= m
}

/// The value held by cell `c`.
pub open spec fn cell_value(g: Seq<Vec<bool>>, c: Cell) -> bool {
    g[c.0 as int]@[c.1 as int]
}

/// `c` lies in the grid and holds the value `t`.
pub open spec fn is_target(g: Seq<Vec<bool>>, m: int, t: bool, c: Cell) -> bool {
    in_grid(g.len() as int, m, c) && cell_value(g, c) == t
}

/// The two cells share a side.
pub open spec fn adjacent(a: Cell, b: Cell) -> bool {
    ||| a.0 == b.0 && (a.1 + 1 == b.1 || b.1 + 1 == a.1)
    ||| a.1 == b.1 && (a.0 + 1 == b.0 || b.0 + 1 == a.0)
}

/// Row-major order: `a` is scanned strictly before `b`.
pub open spec fn before(a: Cell, b: Cell) -> bool {
    a.0 < b.0 || (a.0 == b.0 && a.1 < b.1)
}

/// `p` is a non-empty walk through target cells, each step to a side neighbour.
pub open spec fn is_path(g: Seq<Vec<bool>>, m: int, t: bool, p: Seq<Cell>) -> bool {
    &&& p.len() >= 1
    &&& forall|k: int| 0 <= k < p.len() ==> is_target(g, m, t, #[trigger] p[k])
    &&& forall|k: int| 0 <= k < p.len() - 1 ==> adjacent(#[trigger] p[k], p[k + 1])
}

/// `a` and `b` are joined by a path of target cells.
pub open spec fn connected(g: Seq<Vec<bool>>, m: int, t: bool, a: Cell, b: Cell) -> bool {
    exists|p: Seq<Cell>| #[trigger] is_path(g, m, t, p) && p[0] == a && p.last() == b
}

/// The label that `l` gives to cell `c`.
pub open spec fn label_of(l: Seq<Vec<usize>>, c: Cell) -> usize {
    l[c.0 as int]@[c.1 as int]
}

/// `l` has `n` rows of exactly `m` labels.
pub open spec fn labels_shape(l: Seq<Vec<usize>>, n: int, m: int) -> bool {
    &&& l.len() == n
    &&& forall|i: int| 0 <= i < n ==> #[trigger] l[i]@.len() == m
}

/// `l` labels the `t`-components of `g` with the labels `1..=count`:
/// exactly the target cells are labelled, side neighbours among them share
/// a label, cells with one label are connected, every label is used, and
/// each label other than 1 is first met after the label before it.
pub open spec fn valid_labeling(
    g: Seq<Vec<bool>>,
    m: int,
    t: bool,
    l: Seq<Vec<usize>>,
    count: int,
) -> bool {
    let n = g.len() as int;
    &&& count >= 0
    &&& labels_shape(l, n, m)
    &&& forall|c: Cell| #[trigger]
        in_grid(n, m, c) ==> ((label_of(l, c) != 0) == (cell_value(g, c) == t) && label_of(l, c)
            <= count)
    &&& forall|c: Cell, d: Cell|
        in_grid(n, m, c) && in_grid(n, m, d) && adjacent(c, d) && cell_value(g, c) == t
            && cell_value(g, d) == t ==> #[trigger] label_of(l, c) == #[trigger] label_of(l, d)
    &&& forall|c: Cell, d: Cell|
        in_grid(n, m, c) && in_grid(n, m, d) && #[trigger] label_of(l, c) != 0 && label_of(l, c)
            == #[trigger] label_of(l, d) ==> connected(g, m, t, c, d)
    &&& forall|a: int| 1 <= a <= count ==> #[trigger] label_used(n, m, l, a)
    &&& forall|c: Cell| #[trigger]
        in_grid(n, m, c) && label_of(l, c) > 1 ==> exists|d: Cell|
            in_grid(n, m, d) && before(d, c) && #[trigger] label_of(l, d) == label_of(l, c) - 1
}

/// Some cell of the grid carries label `a`.
pub open spec fn label_used(n: int, m: int, l: Seq<Vec<usize>>, a: int) -> bool {
    exists|c: Cell| in_grid(n, m, c) && #[trigger] label_of(l, c) == a
}

/// `comps[k]` lists, each once, exactly the cells labelled `k + 1`.
pub open spec fn components_listed(
    n: int,
    m: int,
    l: Seq<Vec<usize>>,
    comps: Seq<Vec<Cell>>,
) -> bool {
    forall|k: int|
        0 <= k < comps.len() ==> {
            &&& (#[trigger] comps[k])@.no_duplicates()
            &&& forall|c: Cell| #![trigger comps[k]@.contains(c)] #![trigger label_of(l, c)]
                comps[k]@.contains(c) <==> in_grid(n, m, c) && label_of(l, c) == k + 1
        }
}

/// Cell `x` of `comp` is a side neighbour of an earlier cell of `comp`.
pub open spec fn linked_back(comp: Seq<Cell>, x: int) -> bool {
    exists|y: int| 0 <= y < x && adjacent(comp[y], comp[x])
}

/// `comp` starts at `seed`, and every later cell is a side neighbour of an
/// earlier one.
pub open spec fn traversal_from(comp: Seq<Cell>, seed: Cell) -> bool {
    &&& comp.len() >= 1
    &&& comp[0] == seed
    &&& forall|x: int| 1 <= x < comp.len() ==> #[trigger] linked_back(comp, x)
}

/// Each listed component is the visit order of the flood fill from its first cell.
pub open spec fn components_in_flood_order(g: Seq<Vec<bool>>, m: int, t: bool, comps: Seq<Vec<Cell>>) -> bool {
    forall|k: int|
        0 <= k < comps.len() ==> (#[trigger] comps[k])@.len() >= 1 && flood_order(g, m, t, comps[k]@[0], comps[k]@)
}

/// Each listed component is a traversal from its first cell in row-major order.
pub open spec fn components_traversed(n: int, m: int, l: Seq<Vec<usize>>, comps: Seq<Vec<Cell>>) -> bool {
    forall|k: int|
        0 <= k < comps.len() ==> {
            &&& traversal_from((#[trigger] comps[k])@, comps[k]@[0])
            &&& forall|c: Cell|
                in_grid(n, m, c) && #[trigger] label_of(l, c) == k + 1 ==> !before(c, comps[k]@[0])
        }
}

/// All cells of the grid of `n` rows and `m` columns.
pub open spec fn grid_cells(n: int, m: int) -> Set<Cell> {
    Set::new(|c: Cell| in_grid(n, m, c))
}

/// The cells of row `r` left of column `j`.
pub open spec fn row_prefix(r: int, j: int) -> Set<Cell> {
    Set::new(|c: Cell| c.0 == r && c.1 < j)
}

proof fn lemma_row_prefix_card(r: int, j: int)
    requires
        0 <= r <= usize::MAX,
        0 <= j <= usize::MAX + 1,
    ensures
        row_prefix(r, j).finite(),
        row_prefix(r, j).len() == j,
    decreases j,
{
    if j == 0 {
        assert(row_prefix(r, j) =~= Set::empty());
    } else {
        lemma_row_prefix_card(r, j - 1);
        let c: Cell = (r as usize, (j - 1) as usize);
        assert(row_prefix(r, j) =~= row_prefix(r, j - 1).insert(c));
    }
}

/// The grid of `n` rows and `m` columns has `n * m` cells.
pub proof fn lemma_grid_cells_card(n: int, m: int)
    requires
        0 <= n <= usize::MAX + 1,
        0 <= m <= usize::MAX + 1,
    ensures
        grid_cells(n, m).finite(),
        grid_cells(n, m).len() == n * m,
    decreases n,
{
    if n == 0 {
        assert(grid_cells(n, m) =~= Set::empty());
    } else {
        lemma_grid_cells_card(n - 1, m);
        lemma_row_prefix_card(n - 1, m);
        assert(grid_cells(n, m) =~= grid_cells(n - 1, m).union(row_prefix(n - 1, m)));
        assert(grid_cells(n - 1, m).disjoint(row_prefix(n - 1, m)));
        lemma_set_disjoint_lens(grid_cells(n - 1, m), row_prefix(n - 1, m));
        assert(n * m == (n - 1) * m + m) by (nonlinear_arith);
    }
}


// ---------------------------------------------------------------------------
// Paths
// ---------------------------------------------------------------------------

/// A target cell is connected to itself.
pub proof fn lemma_connected_refl(g: Seq<Vec<bool>>, m: int, t: bool, a: Cell)
    requires
        is_target(g, m, t, a),
    ensures
        connected(g, m, t, a, a),
{
    let p = seq![a];
    assert(is_path(g, m, t, p));
}

/// A path to `c` extends by one step to a target neighbour `d`.
pub proof fn lemma_connected_step(g: Seq<Vec<bool>>, m: int, t: bool, a: Cell, c: Cell, d: Cell)
    requires
        connected(g, m, t, a, c),
        is_target(g, m, t, d),
        adjacent(c, d),
    ensures
        connected(g, m, t, a, d),
{
    let p = choose|p: Seq<Cell>| #[trigger] is_path(g, m, t, p) && p[0] == a && p.last() == c;
    let q = p.push(d);
    assert forall|k: int| 0 <= k < q.len() implies is_target(g, m, t, #[trigger] q[k]) by {
        if k < p.len() {
            assert(q[k] == p[k]);
        }
    }
    assert forall|k: int| 0 <= k < q.len() - 1 implies adjacent(#[trigger] q[k], q[k + 1]) by {
        if k < p.len() - 1 {
            assert(q[k] == p[k] && q[k + 1] == p[k + 1]);
        }
    }
    assert(is_path(g, m, t, q));
}

/// Connection is symmetric.
pub proof fn lemma_connected_symm(g: Seq<Vec<bool>>, m: int, t: bool, a: Cell, b: Cell)
    requires
        connected(g, m, t, a, b),
    ensures
        connected(g, m, t, b, a),
{
    let p = choose|p: Seq<Cell>| #[trigger] is_path(g, m, t, p) && p[0] == a && p.last() == b;
    let q = p.reverse();
    assert forall|k: int| 0 <= k < q.len() implies is_target(g, m, t, #[trigger] q[k]) by {
        assert(q[k] == p[p.len() - 1 - k]);
    }
    assert forall|k: int| 0 <= k < q.len() - 1 implies adjacent(#[trigger] q[k], q[k + 1]) by {
        assert(q[k] == p[p.len() - 1 - k]);
        assert(q[k + 1] == p[p.len() - 1 - (k + 1)]);
        assert(adjacent(p[p.len() - 2 - k], p[p.len() - 2 - k + 1]));
    }
    assert(is_path(g, m, t, q));
}

/// Connection is transitive.
pub proof fn lemma_connected_trans(g: Seq<Vec<bool>>, m: int, t: bool, a: Cell, b: Cell, c: Cell)
    requires
        connected(g, m, t, a, b),
        connected(g, m, t, b, c),
    ensures
        connected(g, m, t, a, c),
{
    let p = choose|p: Seq<Cell>| #[trigger] is_path(g, m, t, p) && p[0] == a && p.last() == b;
    let r = choose|r: Seq<Cell>| #[trigger] is_path(g, m, t, r) && r[0] == b && r.last() == c;
    let q = p + r.drop_first();
    assert forall|k: int| 0 <= k < q.len() implies is_target(g, m, t, #[trigger] q[k]) by {
        if k >= p.len() {
            assert(q[k] == r[k - p.len() + 1]);
        }
    }
    assert forall|k: int| 0 <= k < q.len() - 1 implies adjacent(#[trigger] q[k], q[k + 1]) by {
        if k < p.len() - 1 {
            assert(q[k] == p[k] && q[k + 1] == p[k + 1]);
        } else if k == p.len() - 1 {
            assert(q[k] == b && q[k + 1] == r[1]);
            assert(r[0] == b);
        } else {
            assert(q[k] == r[k - p.len() + 1]);
            assert(q[k + 1] == r[k - p.len() + 2]);
        }
    }
    if r.len() == 1 {
        assert(q =~= p);
    }
    assert(is_path(g, m, t, q));
}

// ---------------------------------------------------------------------------
// Flood fill
// ---------------------------------------------------------------------------

/// The side neighbours of `c` inside the grid, in the order the flood fill
/// visits them: up, down, left, right.
pub open spec fn neighbors(c: Cell, n: int, m: int) -> Seq<Cell> {
    let up: Seq<Cell> = if c.0 > 0 { seq![((c.0 - 1) as usize, c.1)] } else { seq![] };
    let down: Seq<Cell> = if c.0 + 1 < n { seq![((c.0 + 1) as usize, c.1)] } else { seq![] };
    let left: Seq<Cell> = if c.1 > 0 { seq![(c.0, (c.1 - 1) as usize)] } else { seq![] };
    let right: Seq<Cell> = if c.1 + 1 < m { seq![(c.0, (c.1 + 1) as usize)] } else { seq![] };
    up + down + left + right
}

proof fn lemma_neighbors(c: Cell, n: int, m: int)
    requires
        in_grid(n, m, c),
        n <= usize::MAX,
        m <= usize::MAX,
    ensures
        forall|x: Cell| #[trigger]
            neighbors(c, n, m).contains(x) <==> in_grid(n, m, x) && adjacent(c, x),
{
    let s = neighbors(c, n, m);
    let up: Seq<Cell> = if c.0 > 0 { seq![((c.0 - 1) as usize, c.1)] } else { seq![] };
    let down: Seq<Cell> = if c.0 + 1 < n { seq![((c.0 + 1) as usize, c.1)] } else { seq![] };
    let left: Seq<Cell> = if c.1 > 0 { seq![(c.0, (c.1 - 1) as usize)] } else { seq![] };
    let right: Seq<Cell> = if c.1 + 1 < m { seq![(c.0, (c.1 + 1) as usize)] } else { seq![] };
    assert(s =~= up + down + left + right);
    assert forall|x: Cell| #[trigger] s.contains(x) implies in_grid(n, m, x) && adjacent(c, x) by {
        let k = choose|k: int| 0 <= k < s.len() && s[k] == x;
        if k < up.len() {
            assert(x == up[k]);
        } else if k < up.len() + down.len() {
            assert(x == down[k - up.len()]);
        } else if k < up.len() + down.len() + left.len() {
            assert(x == left[k - up.len() - down.len()]);
        } else {
            assert(x == right[k - up.len() - down.len() - left.len()]);
        }
    }
    assert forall|x: Cell| in_grid(n, m, x) && adjacent(c, x) implies #[trigger] s.contains(x) by {
        let up: Seq<Cell> = if c.0 > 0 { seq![((c.0 - 1) as usize, c.1)] } else { seq![] };
        let down: Seq<Cell> = if c.0 + 1 < n { seq![((c.0 + 1) as usize, c.1)] } else { seq![] };
        let left: Seq<Cell> = if c.1 > 0 { seq![(c.0, (c.1 - 1) as usize)] } else { seq![] };
        let right: Seq<Cell> = if c.1 + 1 < m { seq![(c.0, (c.1 + 1) as usize)] } else { seq![] };
        if x.0 + 1 == c.0 {
            assert(up[0] == x);
            assert(s[0] == x);
        } else if x.0 == c.0 + 1 {
            assert(s[up.len() as int] == x);
        } else if x.1 + 1 == c.1 {
            assert(s[(up.len() + down.len()) as int] == x);
        } else {
            assert(s[(up.len() + down.len() + left.len()) as int] == x);
        }
    }
}

fn push_neighbors(stack: &mut Vec<Cell>, c: Cell, n: usize, m: usize)
    requires
        in_grid(n as int, m as int, c),
    ensures
        final(stack)@ == old(stack)@ + neighbors(c, n as int, m as int),
{
    let ghost s0 = stack@;
    let (ci, cj) = c;
    if ci > 0 {
        stack.push((ci - 1, cj));
    }
    let ghost s1 = stack@;
    if ci + 1 < n {
        stack.push((ci + 1, cj));
    }
    let ghost s2 = stack@;
    if cj > 0 {
        stack.push((ci, cj - 1));
    }
    let ghost s3 = stack@;
    if cj + 1 < m {
        stack.push((ci, cj + 1));
    }
    proof {
        let up: Seq<Cell> = if c.0 > 0 { seq![((c.0 - 1) as usize, c.1)] } else { seq![] };
        let down: Seq<Cell> = if c.0 + 1 < n { seq![((c.0 + 1) as usize, c.1)] } else { seq![] };
        let left: Seq<Cell> = if c.1 > 0 { seq![(c.0, (c.1 - 1) as usize)] } else { seq![] };
        let right: Seq<Cell> = if c.1 + 1 < m { seq![(c.0, (c.1 + 1) as usize)] } else { seq![] };
        assert(s1 =~= s0 + up);
        assert(s2 =~= s0 + up + down);
        assert(s3 =~= s0 + up + down + left);
        assert(stack@ =~= s0 + up + down + left + right);
        assert(neighbors(c, n as int, m as int) =~= up + down + left + right);
    }
}

fn set_label(labels: &mut Vec<Vec<usize>>, c: Cell, v: usize)
    requires
        c.0 < old(labels)@.len(),
        c.1 < old(labels)@[c.0 as int]@.len(),
    ensures
        final(labels)@.len() == old(labels)@.len(),
        forall|i: int|
            0 <= i < old(labels)@.len() ==> #[trigger] final(labels)@[i]@.len() == old(
                labels,
            )@[i]@.len(),
        forall|x: Cell|
            x.0 < old(labels)@.len() && x.1 < old(labels)@[x.0 as int]@.len() ==> #[trigger] label_of(
                final(labels)@,
                x,
            ) == if x == c {
                v
            } else {
                label_of(old(labels)@, x)
            },
{
    labels[c.0][c.1] = v;
}


// ---------------------------------------------------------------------------
// Invariants of the scan
// ---------------------------------------------------------------------------

/// Labels `1..=seeds.len()` are in use; label `a` was started at `seeds[a - 1]`,
/// which is its first cell in row-major order and joins every cell of the label.
pub open spec fn labels_ok(g: Seq<Vec<bool>>, m: int, t: bool, l: Seq<Vec<usize>>, seeds: Seq<Cell>) -> bool {
    let n = g.len() as int;
    &&& labels_shape(l, n, m)
    &&& forall|c: Cell| #[trigger]
        in_grid(n, m, c) ==> (label_of(l, c) != 0 ==> cell_value(g, c) == t) && label_of(l, c)
            <= seeds.len()
    &&& forall|a: int|
        0 <= a < seeds.len() ==> in_grid(n, m, #[trigger] seeds[a]) && label_of(l, seeds[a]) == a
            + 1
    &&& forall|c: Cell| #[trigger]
        in_grid(n, m, c) && label_of(l, c) != 0 ==> connected(
            g,
            m,
            t,
            seeds[label_of(l, c) - 1],
            c,
        ) && !before(c, seeds[label_of(l, c) - 1])
    &&& forall|a: int| 0 < a < seeds.len() ==> before(seeds[a - 1], #[trigger] seeds[a])
}

/// Labels below `bound` are closed: a target neighbour of such a cell shares its label.
pub open spec fn closed_below(g: Seq<Vec<bool>>, m: int, t: bool, l: Seq<Vec<usize>>, bound: int) -> bool {
    let n = g.len() as int;
    forall|c: Cell, d: Cell|
        in_grid(n, m, c) && in_grid(n, m, d) && adjacent(c, d) && 0 < #[trigger] label_of(l, c)
            < bound && cell_value(g, d) == t ==> #[trigger] label_of(l, d) == label_of(l, c)
}

/// Every cell scanned before `pos` carries a label below `bound`, and a
/// positive one when it holds the target value.
pub open spec fn scanned(g: Seq<Vec<bool>>, m: int, t: bool, l: Seq<Vec<usize>>, pos: Cell, bound: int) -> bool {
    let n = g.len() as int;
    forall|c: Cell| #[trigger]
        in_grid(n, m, c) && before(c, pos) ==> label_of(l, c) < bound && (cell_value(g, c) == t
            ==> label_of(l, c) != 0)
}

/// The cells still unlabelled.
pub open spec fn zeros(l: Seq<Vec<usize>>, n: int, m: int) -> Set<Cell> {
    Set::new(|c: Cell| in_grid(n, m, c) && label_of(l, c) == 0)
}

/// Labels only ever move from 0 to `v`.
pub open spec fn grows_to(l0: Seq<Vec<usize>>, l1: Seq<Vec<usize>>, n: int, m: int, v: int) -> bool {
    forall|c: Cell| #[trigger]
        in_grid(n, m, c) ==> label_of(l1, c) == label_of(l0, c) || (label_of(l0, c) == 0
            && label_of(l1, c) == v)
}

/// One step of the flood fill from state `(stack, order)`: pop the top cell;
/// unless it was already visited or does not hold `t`, visit it and push its
/// neighbours up, down, left, right. An empty stack is left as it is.
pub open spec fn flood_step(
    g: Seq<Vec<bool>>,
    m: int,
    t: bool,
    s: (Seq<Cell>, Seq<Cell>),
) -> (Seq<Cell>, Seq<Cell>) {
    let (stack, order) = s;
    if stack.len() == 0 {
        s
    } else {
        let top = stack.last();
        let rest = stack.drop_last();
        if order.contains(top) || !is_target(g, m, t, top) {
            (rest, order)
        } else {
            (rest + neighbors(top, g.len() as int, m), order.push(top))
        }
    }
}

/// The state after `k` steps of the flood fill.
pub open spec fn flood_iter(
    g: Seq<Vec<bool>>,
    m: int,
    t: bool,
    s: (Seq<Cell>, Seq<Cell>),
    k: nat,
) -> (Seq<Cell>, Seq<Cell>)
    decreases k,
{
    if k == 0 {
        s
    } else {
        flood_iter(g, m, t, flood_step(g, m, t, s), (k - 1) as nat)
    }
}

/// `order` is the order in which the flood fill started with `seed` alone on
/// the stack visits cells, once its stack has run empty.
#[verifier::opaque]
pub open spec fn flood_order(g: Seq<Vec<bool>>, m: int, t: bool, seed: Cell, order: Seq<Cell>) -> bool {
    exists|k: nat|
        #![trigger flood_iter(g, m, t, (seq![seed], Seq::<Cell>::empty()), k)]
        flood_iter(g, m, t, (seq![seed], Seq::<Cell>::empty()), k).0.len() == 0 && flood_iter(
            g,
            m,
            t,
            (seq![seed], Seq::<Cell>::empty()),
            k,
        ).1 == order
}

/// A step after `k` steps is step `k + 1`.
pub proof fn lemma_flood_iter_succ(g: Seq<Vec<bool>>, m: int, t: bool, s: (Seq<Cell>, Seq<Cell>), k: nat)
    ensures
        flood_iter(g, m, t, s, k + 1) == flood_step(g, m, t, flood_iter(g, m, t, s, k)),
    decreases k,
{
    let s1 = flood_step(g, m, t, s);
    assert(flood_iter(g, m, t, s, k + 1) == flood_iter(g, m, t, s1, k));
    if k > 0 {
        lemma_flood_iter_succ(g, m, t, s1, (k - 1) as nat);
        assert(flood_iter(g, m, t, s, k) == flood_iter(g, m, t, s1, (k - 1) as nat));
        assert((k - 1) as nat + 1 == k);
    } else {
        assert(flood_iter(g, m, t, s1, 0) == s1);
    }
}

proof fn lemma_flood_iter_done(g: Seq<Vec<bool>>, m: int, t: bool, s: (Seq<Cell>, Seq<Cell>), k: nat, j: nat)
    requires
        flood_iter(g, m, t, s, k).0.len() == 0,
    ensures
        flood_iter(g, m, t, s, k + j) == flood_iter(g, m, t, s, k),
    decreases j,
{
    if j > 0 {
        lemma_flood_iter_done(g, m, t, s, k, (j - 1) as nat);
        lemma_flood_iter_succ(g, m, t, s, (k + j - 1) as nat);
        assert((k + j - 1) as nat + 1 == k + j);
    }
}

/// The flood fill has one outcome: once its stack has run empty, the visit
/// order no longer changes.
pub proof fn lemma_flood_order_unique(
    g: Seq<Vec<bool>>,
    m: int,
    t: bool,
    seed: Cell,
    o1: Seq<Cell>,
    o2: Seq<Cell>,
)
    requires
        flood_order(g, m, t, seed, o1),
        flood_order(g, m, t, seed, o2),
    ensures
        o1 == o2,
{
    reveal(flood_order);
    let s = (seq![seed], Seq::<Cell>::empty());
    let k1 = choose|k: nat|
        #![trigger flood_iter(g, m, t, s, k)]
        flood_iter(g, m, t, s, k).0.len() == 0 && flood_iter(g, m, t, s, k).1 == o1;
    let k2 = choose|k: nat|
        #![trigger flood_iter(g, m, t, s, k)]
        flood_iter(g, m, t, s, k).0.len() == 0 && flood_iter(g, m, t, s, k).1 == o2;
    if k1 <= k2 {
        lemma_flood_iter_done(g, m, t, s, k1, (k2 - k1) as nat);
        assert(k1 + (k2 - k1) as nat == k2);
    } else {
        lemma_flood_iter_done(g, m, t, s, k2, (k1 - k2) as nat);
        assert(k2 + (k1 - k2) as nat == k1);
    }
}

/// A popped cell that holds the target and is labelled carries the current label.
proof fn lemma_popped_labelled(
    g: Seq<Vec<bool>>,
    m: int,
    t: bool,
    l: Seq<Vec<usize>>,
    seeds: Seq<Cell>,
    seed: Cell,
    cur: int,
    stack: Seq<Cell>,
    comp: Seq<Cell>,
    l0: Seq<Vec<usize>>,
)
    requires
        flood_inv(g, m, t, l, seeds, seed, cur, stack, comp, l0),
        stack.len() > 0,
        label_of(l, stack.last()) != 0,
        cell_value(g, stack.last()) == t,
    ensures
        label_of(l, stack.last()) == cur,
{
    let n = g.len() as int;
    let top = stack.last();
    assert(stack[stack.len() - 1] == top);
    assert(in_grid(n, m, top));
    let w = choose|c: Cell| in_grid(n, m, c) && label_of(l, c) == cur && adjacent(c, top);
    assert(label_of(l, top) <= cur);
    if label_of(l, top) < cur {
        assert(adjacent(top, w));
        assert(label_of(l, w) == label_of(l, top));
    }
}

/// The state of the flood fill of label `cur`, started at `seed`.
pub open spec fn flood_inv(
    g: Seq<Vec<bool>>,
    m: int,
    t: bool,
    l: Seq<Vec<usize>>,
    seeds: Seq<Cell>,
    seed: Cell,
    cur: int,
    stack: Seq<Cell>,
    comp: Seq<Cell>,
    l0: Seq<Vec<usize>>,
) -> bool {
    let n = g.len() as int;
    &&& seeds.len() == cur
    &&& seeds.last() == seed
    &&& labels_ok(g, m, t, l, seeds)
    &&& closed_below(g, m, t, l, cur)
    &&& scanned(g, m, t, l, seed, cur)
    &&& grows_to(l0, l, n, m, cur)
    &&& label_of(l, seed) == cur
    &&& forall|k: int| 0 <= k < stack.len() ==> in_grid(n, m, #[trigger] stack[k])
    &&& forall|k: int|
        0 <= k < stack.len() ==> exists|c: Cell|
            in_grid(n, m, c) && label_of(l, c) == cur && adjacent(c, #[trigger] stack[k])
    &&& forall|c: Cell, d: Cell|
        in_grid(n, m, c) && in_grid(n, m, d) && adjacent(c, d) && #[trigger] label_of(l, c) == cur
            && cell_value(g, d) == t ==> #[trigger] label_of(l, d) == cur || stack.contains(d)
    &&& comp.no_duplicates()
    &&& forall|c: Cell| comp.contains(c) <==> in_grid(n, m, c) && label_of(l, c) == cur
    &&& traversal_from(comp, seed)
}

/// Popping a cell that is already labelled, or does not hold the target, keeps the state.
proof fn lemma_flood_skip(
    g: Seq<Vec<bool>>,
    m: int,
    t: bool,
    l: Seq<Vec<usize>>,
    seeds: Seq<Cell>,
    seed: Cell,
    cur: int,
    stack: Seq<Cell>,
    comp: Seq<Cell>,
    l0: Seq<Vec<usize>>,
)
    requires
        flood_inv(g, m, t, l, seeds, seed, cur, stack, comp, l0),
        stack.len() > 0,
        label_of(l, stack.last()) != 0 || cell_value(g, stack.last()) != t,
    ensures
        flood_inv(g, m, t, l, seeds, seed, cur, stack.drop_last(), comp, l0),
{
    let n = g.len() as int;
    let top = stack.last();
    let rest = stack.drop_last();
    assert(in_grid(n, m, stack[stack.len() - 1]));
    assert forall|k: int| 0 <= k < rest.len() implies in_grid(n, m, #[trigger] rest[k]) by {
        assert(rest[k] == stack[k]);
    }
    assert forall|k: int|
        0 <= k < rest.len() implies exists|c: Cell|
            in_grid(n, m, c) && label_of(l, c) == cur && adjacent(c, #[trigger] rest[k]) by {
        assert(rest[k] == stack[k]);
    }
    assert forall|c: Cell, d: Cell|
        in_grid(n, m, c) && in_grid(n, m, d) && adjacent(c, d) && #[trigger] label_of(l, c) == cur
            && cell_value(g, d) == t implies #[trigger] label_of(l, d) == cur || rest.contains(d) by {
        if !(label_of(l, d) == cur) && !rest.contains(d) {
            assert(stack.contains(d));
            let k = choose|k: int| 0 <= k < stack.len() && stack[k] == d;
            if k < rest.len() {
                assert(rest[k] == d);
            }
            assert(d == top);
            assert(label_of(l, d) <= cur);
            assert(adjacent(d, c));
            assert(label_of(l, c) == label_of(l, d));
        }
    }
}

/// Labelling the popped target cell and pushing its neighbours keeps the state.
proof fn lemma_flood_label(
    g: Seq<Vec<bool>>,
    m: int,
    t: bool,
    l: Seq<Vec<usize>>,
    l1: Seq<Vec<usize>>,
    seeds: Seq<Cell>,
    seed: Cell,
    cur: int,
    stack: Seq<Cell>,
    stack1: Seq<Cell>,
    comp: Seq<Cell>,
    comp1: Seq<Cell>,
    l0: Seq<Vec<usize>>,
)
    requires
        flood_inv(g, m, t, l, seeds, seed, cur, stack, comp, l0),
        grid_wf(g, m),
        stack.len() > 0,
        label_of(l, stack.last()) == 0,
        cell_value(g, stack.last()) == t,
        l1.len() == l.len(),
        forall|i: int| 0 <= i < l.len() ==> #[trigger] l1[i]@.len() == l[i]@.len(),
        forall|x: Cell|
            x.0 < l.len() && x.1 < l[x.0 as int]@.len() ==> #[trigger] label_of(l1, x) == if x
                == stack.last() {
                cur as usize
            } else {
                label_of(l, x)
            },
        0 < cur <= usize::MAX,
        stack1 == stack.drop_last() + neighbors(stack.last(), g.len() as int, m),
        forall|x: Cell| #[trigger]
            neighbors(stack.last(), g.len() as int, m).contains(x) <==> in_grid(
                g.len() as int,
                m,
                x,
            ) && adjacent(stack.last(), x),
        comp1 == comp.push(stack.last()),
    ensures
        flood_inv(g, m, t, l1, seeds, seed, cur, stack1, comp1, l0),
{
    let n = g.len() as int;
    let top = stack.last();
    let rest = stack.drop_last();
    let nb = neighbors(top, n, m);
    assert(in_grid(n, m, stack[stack.len() - 1]));
    assert(labels_shape(l1, n, m));
    // the popped cell is reached from a cell of the current label
    assert(stack[stack.len() - 1] == top);
    let w = choose|c: Cell| in_grid(n, m, c) && label_of(l, c) == cur && adjacent(c, top);
    assert(label_of(l1, w) == cur);
    assert(label_of(l, seeds[cur - 1]) == cur);
    assert(connected(g, m, t, seeds[cur - 1], w));
    lemma_connected_step(g, m, t, seeds[cur - 1], w, top);
    // the popped cell is not scanned yet
    assert(!before(top, seed));
    // labels_ok
    assert forall|c: Cell| #[trigger] in_grid(n, m, c) implies (label_of(l1, c) != 0 ==> cell_value(g, c) == t)
        && label_of(l1, c) <= seeds.len() by {
    }
    assert forall|a: int| 0 <= a < seeds.len() implies in_grid(n, m, #[trigger] seeds[a]) && label_of(l1, seeds[a]) == a + 1 by {
        assert(label_of(l, seeds[a]) == a + 1);
    }
    assert forall|c: Cell| #[trigger] in_grid(n, m, c) && label_of(l1, c) != 0 implies connected(
        g,
        m,
        t,
        seeds[label_of(l1, c) - 1],
        c,
    ) && !before(c, seeds[label_of(l1, c) - 1]) by {
        if c != top {
            assert(label_of(l1, c) == label_of(l, c));
        }
    }
    assert(labels_ok(g, m, t, l1, seeds));
    // closed_below
    assert forall|c: Cell, d: Cell|
        in_grid(n, m, c) && in_grid(n, m, d) && adjacent(c, d) && 0 < #[trigger] label_of(l1, c)
            < cur && cell_value(g, d) == t implies #[trigger] label_of(l1, d) == label_of(l1, c) by {
        assert(c != top);
        assert(label_of(l1, c) == label_of(l, c));
        assert(label_of(l, d) == label_of(l, c));
        assert(d != top);
    }
    // scanned
    assert forall|c: Cell| #[trigger] in_grid(n, m, c) && before(c, seed) implies label_of(l1, c) < cur && (cell_value(g, c) == t
            ==> label_of(l1, c) != 0) by {
        assert(c != top);
        assert(label_of(l1, c) == label_of(l, c));
    }
    // grows_to
    assert forall|c: Cell| #[trigger] in_grid(n, m, c) implies label_of(l1, c) == label_of(l0, c) || (label_of(l0, c) == 0
            && label_of(l1, c) == cur) by {
        if c == top {
            assert(label_of(l, c) == label_of(l0, c) || (label_of(l0, c) == 0 && label_of(l, c) == cur));
        }
    }
    // stack cells
    assert forall|k: int| 0 <= k < stack1.len() implies in_grid(n, m, #[trigger] stack1[k]) by {
        if k < rest.len() {
            assert(stack1[k] == stack[k]);
        } else {
            assert(stack1[k] == nb[k - rest.len()]);
            assert(nb.contains(nb[k - rest.len()]));
        }
    }
    assert forall|k: int|
        0 <= k < stack1.len() implies exists|c: Cell|
            in_grid(n, m, c) && label_of(l1, c) == cur && adjacent(c, #[trigger] stack1[k]) by {
        if k < rest.len() {
            assert(stack1[k] == stack[k]);
            let c = choose|c: Cell| in_grid(n, m, c) && label_of(l, c) == cur && adjacent(c, stack[k]);
            assert(label_of(l1, c) == cur);
        } else {
            assert(stack1[k] == nb[k - rest.len()]);
            assert(nb.contains(nb[k - rest.len()]));
            assert(label_of(l1, top) == cur);
        }
    }
    assert forall|c: Cell, d: Cell|
        in_grid(n, m, c) && in_grid(n, m, d) && adjacent(c, d) && #[trigger] label_of(l1, c) == cur
            && cell_value(g, d) == t implies #[trigger] label_of(l1, d) == cur || stack1.contains(d) by {
        if c == top {
            assert(nb.contains(d));
            let k = choose|k: int| 0 <= k < nb.len() && nb[k] == d;
            assert(stack1[rest.len() + k] == d);
        } else if d != top {
            assert(label_of(l1, c) == label_of(l, c));
            assert(label_of(l1, d) == label_of(l, d));
            if !(label_of(l, d) == cur) {
                assert(stack.contains(d));
                let k = choose|k: int| 0 <= k < stack.len() && stack[k] == d;
                assert(k < rest.len());
                assert(stack1[k] == d);
            }
        }
    }
    // component listing
    assert(!comp.contains(top));
    assert forall|c: Cell| comp1.contains(c) <==> in_grid(n, m, c) && label_of(l1, c) == cur by {
        if c != top {
            if in_grid(n, m, c) {
                assert(label_of(l1, c) == label_of(l, c));
            }
            if comp1.contains(c) {
                let k = choose|k: int| 0 <= k < comp1.len() && comp1[k] == c;
                assert(comp[k] == c);
            }
            if comp.contains(c) {
                let k = choose|k: int| 0 <= k < comp.len() && comp[k] == c;
                assert(comp1[k] == c);
            }
        } else {
            assert(comp1[comp.len() as int] == top);
        }
    }
    assert(traversal_from(comp1, seed)) by {
        assert(comp.contains(w));
        let yw = choose|y: int| 0 <= y < comp.len() && comp[y] == w;
        assert forall|x: int| 1 <= x < comp1.len() implies #[trigger] linked_back(comp1, x) by {
            if x < comp.len() {
                assert(comp1[x] == comp[x]);
                assert(linked_back(comp, x));
                let y = choose|y: int| 0 <= y < x && adjacent(comp[y], comp[x]);
                assert(comp1[y] == comp[y]);
            } else {
                assert(comp1[x] == top);
                assert(comp1[yw] == w);
            }
        }
        assert(comp1[0] == comp[0]);
    }
    assert(comp1.no_duplicates()) by {
        assert forall|i: int, j: int| 0 <= i < comp1.len() && 0 <= j < comp1.len() && i != j implies comp1[i] != comp1[j] by {
            if i < comp.len() && j < comp.len() {
                assert(comp1[i] == comp[i] && comp1[j] == comp[j]);
            } else if i < comp.len() {
                assert(comp.contains(comp1[i]));
            } else if j < comp.len() {
                assert(comp.contains(comp1[j]));
            }
        }
    }
}

/// Labels every `t`-cell connected to `seed` with `cur`, and returns those cells.
fn flood_component(
    grid: &Vec<Vec<bool>>,
    width: usize,
    target: bool,
    labels: &mut Vec<Vec<usize>>,
    seed: Cell,
    cur: usize,
    Ghost(seeds): Ghost<Seq<Cell>>,
) -> (component: Vec<Cell>)
    requires
        grid_wf(grid@, width as int),
        labels_ok(grid@, width as int, target, old(labels)@, seeds),
        seeds.len() == cur - 1,
        cur >= 1,
        seeds.len() > 0 ==> before(seeds.last(), seed),
        closed_below(grid@, width as int, target, old(labels)@, cur as int),
        scanned(grid@, width as int, target, old(labels)@, seed, cur as int),
        in_grid(grid@.len() as int, width as int, seed),
        cell_value(grid@, seed) == target,
        label_of(old(labels)@, seed) == 0,
        zeros(old(labels)@, grid@.len() as int, width as int).finite(),
    ensures
        labels_ok(grid@, width as int, target, final(labels)@, seeds.push(seed)),
        closed_below(grid@, width as int, target, final(labels)@, cur + 1),
        scanned(grid@, width as int, target, final(labels)@, seed, cur as int),
        grows_to(old(labels)@, final(labels)@, grid@.len() as int, width as int, cur as int),
        label_of(final(labels)@, seed) == cur,
        component@.no_duplicates(),
        forall|c: Cell|
            component@.contains(c) <==> in_grid(grid@.len() as int, width as int, c) && label_of(
                final(labels)@,
                c,
            ) == cur,
        traversal_from(component@, seed),
        flood_order(grid@, width as int, target, seed, component@),
        zeros(final(labels)@, grid@.len() as int, width as int).finite(),
        zeros(final(labels)@, grid@.len() as int, width as int).len() < zeros(
            old(labels)@,
            grid@.len() as int,
            width as int,
        ).len(),
{
    let n = grid.len();
    let ghost g = grid@;
    let ghost m = width as int;
    let ghost ni = n as int;
    let ghost l0 = labels@;
    let ghost seeds1 = seeds.push(seed);
    let ghost z0 = zeros(l0, ni, m);

    set_label(labels, seed, cur);
    let mut component: Vec<Cell> = Vec::new();
    component.push(seed);
    let mut stack: Vec<Cell> = Vec::new();
    push_neighbors(&mut stack, seed, n, width);
    proof {
        lemma_neighbors(seed, ni, m);
        lemma_connected_refl(g, m, target, seed);
        assert(zeros(labels@, ni, m) =~= z0.remove(seed));
        assert forall|c: Cell| #[trigger] in_grid(ni, m, c) && label_of(labels@, c) != 0 implies connected(
            g,
            m,
            target,
            seeds1[label_of(labels@, c) - 1],
            c,
        ) && !before(c, seeds1[label_of(labels@, c) - 1]) by {
            if c != seed {
                assert(label_of(labels@, c) == label_of(l0, c));
            }
        }
        assert forall|c: Cell, d: Cell|
            in_grid(ni, m, c) && in_grid(ni, m, d) && adjacent(c, d) && 0 < #[trigger] label_of(labels@, c)
                < cur && cell_value(g, d) == target implies #[trigger] label_of(labels@, d) == label_of(labels@, c) by {
            assert(label_of(labels@, c) == label_of(l0, c));
            if d == seed {
                assert(label_of(l0, d) == label_of(l0, c));
            }
        }
    }
    proof {
        assert forall|c: Cell| in_grid(ni, m, c) && label_of(labels@, c) == cur implies c == seed by {
            if c != seed {
                assert(label_of(labels@, c) == label_of(l0, c));
            }
        }
        assert(component@ =~= seq![seed]);
        assert forall|c: Cell| component@.contains(c) <==> in_grid(ni, m, c) && label_of(labels@, c) == cur by {
            if component@.contains(c) {
                let k = choose|k: int| 0 <= k < component@.len() && component@[k] == c;
                assert(c == seed);
            }
            if c == seed {
                assert(component@[0] == seed);
            }
        }
        assert(component@.no_duplicates());
        assert(traversal_from(component@, seed));
        let s_init = (seq![seed], Seq::<Cell>::empty());
        assert(seq![seed].drop_last() =~= Seq::<Cell>::empty());
        assert(Seq::<Cell>::empty().push(seed) =~= component@);
        lemma_flood_iter_succ(g, m, target, s_init, 0);
        let nb = neighbors(seed, ni, m);
        assert(stack@ =~= nb);
        assert(seeds1.last() == seed);
        assert(labels_ok(g, m, target, labels@, seeds1));
        assert(closed_below(g, m, target, labels@, cur as int));
        assert forall|c: Cell| #[trigger] in_grid(ni, m, c) && before(c, seed) implies label_of(labels@, c) < cur && (cell_value(g, c) == target
                ==> label_of(labels@, c) != 0) by {
            assert(c != seed);
        }
        assert forall|k: int| 0 <= k < stack@.len() implies in_grid(ni, m, #[trigger] stack@[k]) by {
            assert(nb.contains(nb[k]));
        }
        assert forall|k: int|
            0 <= k < stack@.len() implies exists|c: Cell|
                in_grid(ni, m, c) && label_of(labels@, c) == cur && adjacent(c, #[trigger] stack@[k]) by {
            assert(nb.contains(nb[k]));
        }
        assert forall|c: Cell, d: Cell|
            in_grid(ni, m, c) && in_grid(ni, m, d) && adjacent(c, d) && #[trigger] label_of(labels@, c) == cur
                && cell_value(g, d) == target implies #[trigger] label_of(labels@, d) == cur || stack@.contains(d) by {
            assert(c == seed);
            assert(nb.contains(d));
        }
        assert forall|c: Cell| #[trigger] in_grid(ni, m, c) implies label_of(labels@, c) == label_of(l0, c) || (label_of(l0, c) == 0
                && label_of(labels@, c) == cur) by {
        }
    }
    let ghost mut steps: nat = 1;
    proof {
        let s_init = (seq![seed], Seq::<Cell>::empty());
        assert(flood_iter(g, m, target, s_init, steps).0 =~= stack@);
        assert(flood_iter(g, m, target, s_init, steps).1 =~= component@);
    }
    while stack.len() > 0
        invariant
            grid_wf(g, m),
            g == grid@,
            m == width as int,
            ni == n as int,
            ni == g.len(),
            in_grid(ni, m, seed),
            seeds1 == seeds.push(seed),
            cur >= 1,
            flood_iter(g, m, target, (seq![seed], Seq::<Cell>::empty()), steps).0 == stack@,
            flood_iter(g, m, target, (seq![seed], Seq::<Cell>::empty()), steps).1 == component@,
            flood_inv(g, m, target, labels@, seeds1, seed, cur as int, stack@, component@, l0),
            zeros(labels@, ni, m).finite(),
            zeros(labels@, ni, m).len() < z0.len(),
        decreases zeros(labels@, ni, m).len(), stack.len(),
    {
        let ghost s0 = stack@;
        let top = stack.pop().unwrap();
        let (ci, cj) = top;
        proof {
            assert(s0 == stack@.push(top));
            assert(in_grid(ni, m, s0[s0.len() - 1]));
        }
        proof {
            lemma_flood_iter_succ(g, m, target, (seq![seed], Seq::<Cell>::empty()), steps);
        }
        if labels[ci][cj] != 0 || grid[ci][cj] != target {
            proof {
                if cell_value(g, top) == target {
                    lemma_popped_labelled(g, m, target, labels@, seeds1, seed, cur as int, s0, component@, l0);
                    assert(component@.contains(top));
                }
                assert(s0.drop_last() =~= stack@);
                lemma_flood_skip(g, m, target, labels@, seeds1, seed, cur as int, s0, component@, l0);
                steps = steps + 1;
            }
            continue;
        }
        let ghost lb = labels@;
        let ghost cb = component@;
        set_label(labels, top, cur);
        component.push(top);
        push_neighbors(&mut stack, top, n, width);
        proof {
            lemma_neighbors(top, ni, m);
            lemma_flood_label(g, m, target, lb, labels@, seeds1, seed, cur as int, s0, stack@, cb, component@, l0);
            assert(zeros(labels@, ni, m) =~= zeros(lb, ni, m).remove(top));
            assert(!cb.contains(top));
            assert(s0.drop_last() + neighbors(top, ni, m) =~= stack@);
            steps = steps + 1;
        }
    }
    proof {
        let s_init = (seq![seed], Seq::<Cell>::empty());
        assert(flood_iter(g, m, target, s_init, steps).0.len() == 0);
        reveal(flood_order);
    }
    component
}


/// The state of the row-major scan at position `pos`.
pub open spec fn scan_inv(
    g: Seq<Vec<bool>>,
    m: int,
    t: bool,
    l: Seq<Vec<usize>>,
    seeds: Seq<Cell>,
    cur: int,
    comps: Seq<Vec<Cell>>,
    pos: Cell,
) -> bool {
    let n = g.len() as int;
    &&& labels_ok(g, m, t, l, seeds)
    &&& seeds.len() == cur - 1
    &&& cur >= 1
    &&& closed_below(g, m, t, l, cur)
    &&& scanned(g, m, t, l, pos, cur)
    &&& seeds.len() > 0 ==> before(seeds.last(), pos)
    &&& components_listed(n, m, l, comps)
    &&& comps.len() == cur - 1
    &&& forall|k: int|
        0 <= k < comps.len() ==> traversal_from((#[trigger] comps[k])@, seeds[k]) && flood_order(
            g,
            m,
            t,
            seeds[k],
            comps[k]@,
        )
    &&& zeros(l, n, m).finite()
    &&& cur - 1 + zeros(l, n, m).len() <= n * m
}

proof fn lemma_scan_before_flood(
    g: Seq<Vec<bool>>,
    m: int,
    t: bool,
    l: Seq<Vec<usize>>,
    seeds: Seq<Cell>,
    cur: int,
    comps: Seq<Vec<Cell>>,
    pos: Cell,
)
    requires
        scan_inv(g, m, t, l, seeds, cur, comps, pos),
        in_grid(g.len() as int, m, pos),
        label_of(l, pos) == 0,
    ensures
        cur <= g.len() * m,
        zeros(l, g.len() as int, m).len() >= 1,
{
    let z = zeros(l, g.len() as int, m);
    assert(z.contains(pos));
    if z.len() == 0 {
        assert(z =~= Set::empty());
    }
}

proof fn lemma_scan_after_flood(
    g: Seq<Vec<bool>>,
    m: int,
    t: bool,
    lb: Seq<Vec<usize>>,
    l1: Seq<Vec<usize>>,
    seeds: Seq<Cell>,
    cur: int,
    cb: Seq<Vec<Cell>>,
    cv: Seq<Cell>,
    comps: Seq<Vec<Cell>>,
    pos: Cell,
)
    requires
        scan_inv(g, m, t, lb, seeds, cur, cb, pos),
        in_grid(g.len() as int, m, pos),
        pos.1 + 1 <= usize::MAX,
        labels_ok(g, m, t, l1, seeds.push(pos)),
        closed_below(g, m, t, l1, cur + 1),
        scanned(g, m, t, l1, pos, cur),
        grows_to(lb, l1, g.len() as int, m, cur),
        label_of(l1, pos) == cur,
        cv.no_duplicates(),
        forall|c: Cell| cv.contains(c) <==> in_grid(g.len() as int, m, c) && label_of(l1, c) == cur,
        zeros(l1, g.len() as int, m).finite(),
        zeros(l1, g.len() as int, m).len() < zeros(lb, g.len() as int, m).len(),
        comps.len() == cb.len() + 1,
        forall|k: int| 0 <= k < cb.len() ==> comps[k] == cb[k],
        comps[cb.len() as int]@ == cv,
        traversal_from(cv, pos),
        flood_order(g, m, t, pos, cv),
    ensures
        scan_inv(g, m, t, l1, seeds.push(pos), cur + 1, comps, (pos.0, (pos.1 + 1) as usize)),
{
    let ni = g.len() as int;
    assert forall|k: int| 0 <= k < comps.len() implies {
        &&& (#[trigger] comps[k])@.no_duplicates()
        &&& forall|c: Cell| comps[k]@.contains(c) <==> in_grid(ni, m, c) && label_of(l1, c) == k + 1
    } by {
        if k == cb.len() {
            assert forall|c: Cell| comps[k]@.contains(c) <==> in_grid(ni, m, c) && label_of(l1, c) == k + 1 by {
                assert(cv.contains(c) <==> in_grid(ni, m, c) && label_of(l1, c) == cur);
            }
        } else {
            assert(comps[k] == cb[k]);
            assert forall|c: Cell| comps[k]@.contains(c) <==> in_grid(ni, m, c) && label_of(l1, c) == k + 1 by {
                assert(cb[k]@.contains(c) <==> in_grid(ni, m, c) && label_of(lb, c) == k + 1);
                if in_grid(ni, m, c) {
                    assert(label_of(l1, c) == label_of(lb, c) || (label_of(lb, c) == 0 && label_of(l1, c) == cur));
                }
            }
        }
    }
    assert forall|c: Cell| #[trigger]
        in_grid(ni, m, c) && before(c, (pos.0, (pos.1 + 1) as usize)) implies label_of(l1, c) < cur + 1 && (cell_value(g, c) == t
            ==> label_of(l1, c) != 0) by {
        if c != pos {
            assert(before(c, pos));
        }
    }
}

proof fn lemma_scan_skip(
    g: Seq<Vec<bool>>,
    m: int,
    t: bool,
    l: Seq<Vec<usize>>,
    seeds: Seq<Cell>,
    cur: int,
    comps: Seq<Vec<Cell>>,
    pos: Cell,
)
    requires
        scan_inv(g, m, t, l, seeds, cur, comps, pos),
        in_grid(g.len() as int, m, pos),
        pos.1 + 1 <= usize::MAX,
        !(cell_value(g, pos) == t && label_of(l, pos) == 0),
    ensures
        scan_inv(g, m, t, l, seeds, cur, comps, (pos.0, (pos.1 + 1) as usize)),
{
    let ni = g.len() as int;
    assert forall|c: Cell| #[trigger]
        in_grid(ni, m, c) && before(c, (pos.0, (pos.1 + 1) as usize)) implies label_of(l, c) < cur && (cell_value(g, c) == t
            ==> label_of(l, c) != 0) by {
        if c != pos {
            assert(before(c, pos));
        }
    }
}

proof fn lemma_scan_next_row(
    g: Seq<Vec<bool>>,
    m: int,
    t: bool,
    l: Seq<Vec<usize>>,
    seeds: Seq<Cell>,
    cur: int,
    comps: Seq<Vec<Cell>>,
    i: int,
)
    requires
        0 <= i < usize::MAX,
        0 <= m <= usize::MAX,
        scan_inv(g, m, t, l, seeds, cur, comps, (i as usize, m as usize)),
    ensures
        scan_inv(g, m, t, l, seeds, cur, comps, ((i + 1) as usize, 0usize)),
{
    let ni = g.len() as int;
    assert forall|c: Cell| #[trigger]
        in_grid(ni, m, c) && before(c, ((i + 1) as usize, 0usize)) implies label_of(l, c) < cur && (cell_value(g, c) == t
            ==> label_of(l, c) != 0) by {
        assert(before(c, (i as usize, m as usize)));
    }
}

/// Once every cell is scanned, the scan state is a valid labelling.
proof fn lemma_scan_complete(
    g: Seq<Vec<bool>>,
    m: int,
    t: bool,
    l: Seq<Vec<usize>>,
    seeds: Seq<Cell>,
)
    requires
        labels_ok(g, m, t, l, seeds),
        closed_below(g, m, t, l, seeds.len() + 1int),
        forall|c: Cell| #[trigger]
            in_grid(g.len() as int, m, c) ==> (cell_value(g, c) == t ==> label_of(l, c) != 0),
    ensures
        valid_labeling(g, m, t, l, seeds.len() as int),
{
    let n = g.len() as int;
    let count = seeds.len() as int;
    assert forall|c: Cell, d: Cell|
        in_grid(n, m, c) && in_grid(n, m, d) && adjacent(c, d) && cell_value(g, c) == t
            && cell_value(g, d) == t implies #[trigger] label_of(l, c) == #[trigger] label_of(l, d) by {
        assert(label_of(l, c) != 0);
    }
    assert forall|c: Cell, d: Cell|
        in_grid(n, m, c) && in_grid(n, m, d) && #[trigger] label_of(l, c) != 0 && label_of(l, c)
            == #[trigger] label_of(l, d) implies connected(g, m, t, c, d) by {
        let s = seeds[label_of(l, c) - 1];
        assert(connected(g, m, t, s, c));
        assert(connected(g, m, t, s, d));
        lemma_connected_symm(g, m, t, s, c);
        lemma_connected_trans(g, m, t, c, s, d);
    }
    assert forall|a: int| 1 <= a <= count implies #[trigger] label_used(n, m, l, a) by {
        assert(in_grid(n, m, seeds[a - 1]) && label_of(l, seeds[a - 1]) == a);
    }
    assert forall|c: Cell| #[trigger]
        in_grid(n, m, c) && label_of(l, c) > 1 implies exists|d: Cell|
            in_grid(n, m, d) && before(d, c) && #[trigger] label_of(l, d) == label_of(l, c) - 1 by {
        let a = label_of(l, c) as int;
        let d = seeds[a - 2];
        assert(before(seeds[a - 2], seeds[a - 1]));
        assert(label_of(l, d) == a - 1);
    }
}

/// At the end of the scan the labels are valid and each listed component
/// is the flood fill from its first cell.
proof fn lemma_scan_done(
    g: Seq<Vec<bool>>,
    m: int,
    t: bool,
    l: Seq<Vec<usize>>,
    seeds: Seq<Cell>,
    cur: int,
    comps: Seq<Vec<Cell>>,
    i: usize,
)
    requires
        scan_inv(g, m, t, l, seeds, cur, comps, (i, 0usize)),
        i == g.len(),
    ensures
        valid_labeling(g, m, t, l, comps.len() as int),
        components_listed(g.len() as int, m, l, comps),
        components_traversed(g.len() as int, m, l, comps),
        components_in_flood_order(g, m, t, comps),
{
    let ni = g.len() as int;
    assert forall|c: Cell| #[trigger]
        in_grid(ni, m, c) && cell_value(g, c) == t implies label_of(l, c) != 0 by {
        assert(before(c, (i, 0usize)));
    }
    lemma_scan_complete(g, m, t, l, seeds);
    assert forall|k: int| 0 <= k < comps.len() implies {
        &&& traversal_from((#[trigger] comps[k])@, comps[k]@[0])
        &&& forall|c: Cell|
            in_grid(ni, m, c) && #[trigger] label_of(l, c) == k + 1 ==> !before(c, comps[k]@[0])
    } by {
        assert(traversal_from(comps[k]@, seeds[k]));
        assert forall|c: Cell|
            in_grid(ni, m, c) && #[trigger] label_of(l, c) == k + 1 implies !before(c, comps[k]@[0]) by {
            assert(label_of(l, c) != 0);
        }
    }
    assert forall|k: int| 0 <= k < comps.len() implies (#[trigger] comps[k])@.len() >= 1 && flood_order(
        g,
        m,
        t,
        comps[k]@[0],
        comps[k]@,
    ) by {
        assert(traversal_from(comps[k]@, seeds[k]));
    }
}

/// Labels the `target`-components of the first `width` columns of `grid`
/// by a row-major scan with a flood fill from each unlabelled target cell.
/// Returns the cells of each component, in flood-fill visit order, and the labels.
pub fn label_components(grid: &Vec<Vec<bool>>, width: usize, target: bool) -> (res: (
    Vec<Vec<Cell>>,
    Vec<Vec<usize>>,
))
    requires
        grid_wf(grid@, width as int),
        grid@.len() * width < usize::MAX,
    ensures
        valid_labeling(grid@, width as int, target, res.1@, res.0@.len() as int),
        components_listed(grid@.len() as int, width as int, res.1@, res.0@),
        components_traversed(grid@.len() as int, width as int, res.1@, res.0@),
        components_in_flood_order(grid@, width as int, target, res.0@),
        res.0@.len() <= grid@.len() * width,
{
    let n = grid.len();
    let ghost g = grid@;
    let ghost m = width as int;
    let ghost ni = n as int;
    let mut labels: Vec<Vec<usize>> = Vec::new();
    let mut r: usize = 0;
    while r < n
        invariant
            0 <= r <= n,
            labels@.len() == r,
            forall|i: int| 0 <= i < r ==> #[trigger] labels@[i]@.len() == width,
            forall|c: Cell| c.0 < r && c.1 < width ==> #[trigger] label_of(labels@, c) == 0,
        decreases n - r,
    {
        let mut row: Vec<usize> = Vec::new();
        let mut k: usize = 0;
        while k < width
            invariant
                0 <= k <= width,
                row@.len() == k,
                forall|x: int| 0 <= x < k ==> #[trigger] row@[x] == 0,
            decreases width - k,
        {
            row.push(0);
            k += 1;
        }
        let ghost lb = labels@;
        let ghost rv = row@;
        labels.push(row);
        proof {
            assert forall|c: Cell| c.0 < r + 1 && c.1 < width implies #[trigger] label_of(labels@, c) == 0 by {
                if c.0 < r {
                    assert(labels@[c.0 as int] == lb[c.0 as int]);
                    assert(label_of(lb, c) == 0);
                } else {
                    assert(c.0 == r);
                    assert(labels@[c.0 as int]@ == rv);
                    assert(rv[c.1 as int] == 0);
                    assert(label_of(labels@, c) == rv[c.1 as int]);
                }
            }
        }
        r += 1;
    }
    let mut components: Vec<Vec<Cell>> = Vec::new();
    let mut cur: usize = 1;
    let ghost mut seeds: Seq<Cell> = Seq::empty();
    proof {
        lemma_grid_cells_card(ni, m);
        assert(zeros(labels@, ni, m) =~= grid_cells(ni, m));
        assert(scan_inv(g, m, target, labels@, seeds, cur as int, components@, (0usize, 0usize)));
    }
    let mut i: usize = 0;
    while i < n
        invariant
            0 <= i <= n,
            g == grid@,
            grid_wf(g, m),
            m == width as int,
            ni == n as int,
            ni == g.len(),
            ni * m < usize::MAX,
            scan_inv(g, m, target, labels@, seeds, cur as int, components@, (i, 0usize)),
        decreases n - i,
    {
        let mut j: usize = 0;
        while j < width
            invariant
                0 <= i < n,
                0 <= j <= width,
                g == grid@,
                grid_wf(g, m),
                m == width as int,
                ni == n as int,
                ni == g.len(),
                ni * m < usize::MAX,
                scan_inv(g, m, target, labels@, seeds, cur as int, components@, (i, j)),
            decreases width - j,
        {
            let ghost pos: Cell = (i, j);
            assert(g[i as int]@.len() >= width);
            if grid[i][j] == target && labels[i][j] == 0 {
                let ghost lb = labels@;
                proof {
                    lemma_scan_before_flood(g, m, target, lb, seeds, cur as int, components@, pos);
                }
                let component = flood_component(grid, width, target, &mut labels, (i, j), cur, Ghost(seeds));
                let ghost cb = components@;
                let ghost cv = component@;
                components.push(component);
                proof {
                    lemma_scan_after_flood(g, m, target, lb, labels@, seeds, cur as int, cb, cv, components@, pos);
                    seeds = seeds.push(pos);
                }
                cur += 1;
            } else {
                proof {
                    lemma_scan_skip(g, m, target, labels@, seeds, cur as int, components@, pos);
                }
            }
            j += 1;
        }
        proof {
            lemma_scan_next_row(g, m, target, labels@, seeds, cur as int, components@, i as int);
        }
        i += 1;
    }
    proof {
        lemma_scan_done(g, m, target, labels@, seeds, cur as int, components@, i);
    }
    (components, labels)
}


// ---------------------------------------------------------------------------
// Counting cells
// ---------------------------------------------------------------------------

/// The number of cells holding `t` among the first `j` columns of row `i`.
pub open spec fn row_count(g: Seq<Vec<bool>>, t: bool, i: int, j: int) -> nat
    decreases j,
{
    if j <= 0 {
        0
    } else {
        row_count(g, t, i, j - 1) + if g[i]@[j - 1] == t {
            1nat
        } else {
            0nat
        }
    }
}

/// The number of cells holding `t` in the first `i` rows, `m` columns wide.
pub open spec fn grid_count(g: Seq<Vec<bool>>, m: int, t: bool, i: int) -> nat
    decreases i,
{
    if i <= 0 {
        0
    } else {
        grid_count(g, m, t, i - 1) + row_count(g, t, i - 1, m)
    }
}

proof fn lemma_row_count_bound(g: Seq<Vec<bool>>, t: bool, i: int, j: int)
    ensures
        row_count(g, t, i, j) <= if j < 0 {
            0
        } else {
            j
        },
    decreases j,
{
    if j > 0 {
        lemma_row_count_bound(g, t, i, j - 1);
    }
}

/// At most `i * m` of the first `i` rows hold `t`.
pub proof fn lemma_grid_count_bound(g: Seq<Vec<bool>>, m: int, t: bool, i: int)
    requires
        0 <= i,
        0 <= m,
    ensures
        grid_count(g, m, t, i) <= i * m,
    decreases i,
{
    if i > 0 {
        lemma_grid_count_bound(g, m, t, i - 1);
        lemma_row_count_bound(g, t, i - 1, m);
        assert(i * m == (i - 1) * m + m) by (nonlinear_arith);
    }
}

/// The cells of row `i`, left of column `j`, that hold `t`.
pub open spec fn row_targets(g: Seq<Vec<bool>>, t: bool, i: int, j: int) -> Set<Cell> {
    Set::new(|c: Cell| c.0 == i && c.1 < j && cell_value(g, c) == t)
}

/// The cells of the first `i` rows, `m` columns wide, that hold `t`.
pub open spec fn rows_targets(g: Seq<Vec<bool>>, m: int, t: bool, i: int) -> Set<Cell> {
    Set::new(|c: Cell| c.0 < i && c.1 < m && cell_value(g, c) == t)
}

proof fn lemma_row_count_card(g: Seq<Vec<bool>>, t: bool, i: int, j: int)
    requires
        0 <= i <= usize::MAX,
        0 <= j <= usize::MAX + 1,
    ensures
        row_targets(g, t, i, j).finite(),
        row_targets(g, t, i, j).len() == row_count(g, t, i, j),
    decreases j,
{
    if j == 0 {
        assert(row_targets(g, t, i, j) =~= Set::empty());
    } else {
        lemma_row_count_card(g, t, i, j - 1);
        let c: Cell = (i as usize, (j - 1) as usize);
        if g[i]@[j - 1] == t {
            assert(row_targets(g, t, i, j) =~= row_targets(g, t, i, j - 1).insert(c));
        } else {
            assert(row_targets(g, t, i, j) =~= row_targets(g, t, i, j - 1));
        }
    }
}

/// The counted cells are exactly the target cells of the grid.
pub proof fn lemma_grid_count_card(g: Seq<Vec<bool>>, m: int, t: bool, i: int)
    requires
        0 <= i <= usize::MAX + 1,
        0 <= m <= usize::MAX + 1,
    ensures
        rows_targets(g, m, t, i).finite(),
        rows_targets(g, m, t, i).len() == grid_count(g, m, t, i),
    decreases i,
{
    if i == 0 {
        assert(rows_targets(g, m, t, i) =~= Set::empty());
    } else {
        lemma_grid_count_card(g, m, t, i - 1);
        lemma_row_count_card(g, t, i - 1, m);
        assert(rows_targets(g, m, t, i) =~= rows_targets(g, m, t, i - 1).union(row_targets(g, t, i - 1, m)));
        assert(rows_targets(g, m, t, i - 1).disjoint(row_targets(g, t, i - 1, m)));
        lemma_set_disjoint_lens(rows_targets(g, m, t, i - 1), row_targets(g, t, i - 1, m));
    }
}

/// Counts the cells of the first `width` columns of `grid` that hold `target`.
pub fn count_cells(grid: &Vec<Vec<bool>>, width: usize, target: bool) -> (count: usize)
    requires
        grid_wf(grid@, width as int),
        grid@.len() * width <= usize::MAX,
    ensures
        count == grid_count(grid@, width as int, target, grid@.len() as int),
{
    let n = grid.len();
    let mut count: usize = 0;
    let mut i: usize = 0;
    while i < n
        invariant
            0 <= i <= n,
            n == grid@.len(),
            grid_wf(grid@, width as int),
            n * width <= usize::MAX,
            count == grid_count(grid@, width as int, target, i as int),
        decreases n - i,
    {
        let mut j: usize = 0;
        assert(grid@[i as int]@.len() >= width);
        while j < width
            invariant
                0 <= i < n,
                0 <= j <= width,
                n == grid@.len(),
                grid@[i as int]@.len() >= width,
                n * width <= usize::MAX,
                count == grid_count(grid@, width as int, target, i as int) + row_count(grid@, target, i as int, j as int),
            decreases width - j,
        {
            proof {
                lemma_grid_count_bound(grid@, width as int, target, i as int);
                lemma_row_count_bound(grid@, target, i as int, j as int);
                assert((i + 1) * width <= n * width) by (nonlinear_arith)
                    requires i + 1 <= n;
                assert((i + 1) * width == i * width + width) by (nonlinear_arith);
            }
            if grid[i][j] == target {
                count += 1;
            }
            j += 1;
        }
        i += 1;
    }
    count
}


// ---------------------------------------------------------------------------
// The labelling is determined by the grid
// ---------------------------------------------------------------------------

/// Along a path of target cells a valid labelling is constant.
pub proof fn lemma_path_same_label(
    g: Seq<Vec<bool>>,
    m: int,
    t: bool,
    l: Seq<Vec<usize>>,
    count: int,
    p: Seq<Cell>,
)
    requires
        valid_labeling(g, m, t, l, count),
        is_path(g, m, t, p),
    ensures
        forall|k: int| 0 <= k < p.len() ==> #[trigger] label_of(l, p[k]) == label_of(l, p[0]),
    decreases p.len(),
{
    if p.len() > 1 {
        let q = p.drop_last();
        assert(is_path(g, m, t, q)) by {
            assert forall|k: int| 0 <= k < q.len() implies is_target(g, m, t, #[trigger] q[k]) by {
                assert(q[k] == p[k]);
            }
            assert forall|k: int| 0 <= k < q.len() - 1 implies adjacent(#[trigger] q[k], q[k + 1]) by {
                assert(q[k] == p[k] && q[k + 1] == p[k + 1]);
            }
        }
        lemma_path_same_label(g, m, t, l, count, q);
        let z = p.len() - 1;
        assert(is_target(g, m, t, p[z - 1]));
        assert(is_target(g, m, t, p[z]));
        assert(adjacent(p[z - 1], p[z]));
        assert(label_of(l, p[z - 1]) == label_of(l, p[z]));
        assert forall|k: int| 0 <= k < p.len() implies #[trigger] label_of(l, p[k]) == label_of(l, p[0]) by {
            if k < z {
                assert(q[k] == p[k]);
            } else {
                assert(q[z - 1] == p[z - 1]);
            }
        }
    }
}

/// Connected cells carry the same label.
pub proof fn lemma_connected_same_label(
    g: Seq<Vec<bool>>,
    m: int,
    t: bool,
    l: Seq<Vec<usize>>,
    count: int,
    c: Cell,
    d: Cell,
)
    requires
        valid_labeling(g, m, t, l, count),
        connected(g, m, t, c, d),
    ensures
        label_of(l, c) == label_of(l, d),
{
    let p = choose|p: Seq<Cell>| #[trigger] is_path(g, m, t, p) && p[0] == c && p.last() == d;
    lemma_path_same_label(g, m, t, l, count, p);
    assert(label_of(l, p[p.len() - 1]) == label_of(l, p[0]));
}

/// Every label from 1 up to that of `d` is met at `d` or before it.
pub proof fn lemma_label_chain(
    g: Seq<Vec<bool>>,
    m: int,
    t: bool,
    l: Seq<Vec<usize>>,
    count: int,
    d: Cell,
    a: int,
)
    requires
        valid_labeling(g, m, t, l, count),
        in_grid(g.len() as int, m, d),
        1 <= a <= label_of(l, d),
    ensures
        exists|e: Cell|
            in_grid(g.len() as int, m, e) && #[trigger] label_of(l, e) == a && (e == d || before(e, d)),
    decreases label_of(l, d) - a,
{
    if a < label_of(l, d) {
        let n = g.len() as int;
        assert(in_grid(n, m, d) && label_of(l, d) > 1);
        let e1 = choose|e1: Cell|
            in_grid(n, m, e1) && before(e1, d) && #[trigger] label_of(l, e1) == label_of(l, d) - 1;
        lemma_label_chain(g, m, t, l, count, e1, a);
        let e = choose|e: Cell| in_grid(n, m, e) && #[trigger] label_of(l, e) == a && (e == e1 || before(e, e1));
        assert(before(e, d));
    } else {
        assert(in_grid(g.len() as int, m, d) && label_of(l, d) == a);
    }
}

/// Two valid labellings that agree before the first cell `pos` of its
/// component agree at `pos`: both give it the next label after those seen.
proof fn lemma_first_cell_agree(
    g: Seq<Vec<bool>>,
    m: int,
    t: bool,
    l1: Seq<Vec<usize>>,
    c1: int,
    l2: Seq<Vec<usize>>,
    c2: int,
    pos: Cell,
)
    requires
        valid_labeling(g, m, t, l1, c1),
        valid_labeling(g, m, t, l2, c2),
        in_grid(g.len() as int, m, pos),
        cell_value(g, pos) == t,
        forall|d: Cell|
            in_grid(g.len() as int, m, d) && before(d, pos) ==> #[trigger] label_of(l1, d) == label_of(l2, d),
        !exists|d: Cell|
            in_grid(g.len() as int, m, d) && before(d, pos) && #[trigger] label_of(l1, d) == label_of(l1, pos),
    ensures
        label_of(l1, pos) == label_of(l2, pos),
{
    let n = g.len() as int;
    let a1 = label_of(l1, pos) as int;
    let a2 = label_of(l2, pos) as int;
    assert forall|d: Cell| in_grid(n, m, d) && before(d, pos) implies #[trigger] label_of(l2, d) != a2 by {
        if label_of(l2, d) == a2 {
            assert(connected(g, m, t, d, pos));
            lemma_connected_same_label(g, m, t, l1, c1, d, pos);
            assert(label_of(l1, d) == label_of(l2, d));
        }
    }
    if a1 < a2 {
        assert(label_of(l2, pos) > 1);
        let d = choose|d: Cell|
            in_grid(n, m, d) && before(d, pos) && #[trigger] label_of(l2, d) == label_of(l2, pos) - 1;
        assert(label_of(l1, d) == label_of(l2, d));
        lemma_label_chain(g, m, t, l1, c1, d, a1);
        let e = choose|e: Cell| in_grid(n, m, e) && #[trigger] label_of(l1, e) == a1 && (e == d || before(e, d));
        assert(before(e, pos));
    } else if a2 < a1 {
        assert(label_of(l1, pos) > 1);
        let d = choose|d: Cell|
            in_grid(n, m, d) && before(d, pos) && #[trigger] label_of(l1, d) == label_of(l1, pos) - 1;
        assert(label_of(l1, d) == label_of(l2, d));
        lemma_label_chain(g, m, t, l2, c2, d, a2);
        let e = choose|e: Cell| in_grid(n, m, e) && #[trigger] label_of(l2, e) == a2 && (e == d || before(e, d));
        assert(before(e, pos));
    }
}

/// Two valid labellings agree on every cell scanned before `(i, j)`.
proof fn lemma_agree_before(
    g: Seq<Vec<bool>>,
    m: int,
    t: bool,
    l1: Seq<Vec<usize>>,
    c1: int,
    l2: Seq<Vec<usize>>,
    c2: int,
    i: int,
    j: int,
)
    requires
        valid_labeling(g, m, t, l1, c1),
        valid_labeling(g, m, t, l2, c2),
        0 <= i <= usize::MAX,
        0 <= j <= m,
        m <= usize::MAX,
    ensures
        forall|c: Cell|
            in_grid(g.len() as int, m, c) && (c.0 < i || (c.0 == i && c.1 < j)) ==> #[trigger] label_of(l1, c)
                == label_of(l2, c),
    decreases i, j,
{
    let n = g.len() as int;
    if j == 0 {
        if i > 0 {
            lemma_agree_before(g, m, t, l1, c1, l2, c2, i - 1, m);
        }
    } else {
        lemma_agree_before(g, m, t, l1, c1, l2, c2, i, j - 1);
        let pos: Cell = (i as usize, (j - 1) as usize);
        if in_grid(n, m, pos) && cell_value(g, pos) == t {
            let a1 = label_of(l1, pos) as int;
            let a2 = label_of(l2, pos) as int;
            if exists|d: Cell| in_grid(n, m, d) && before(d, pos) && #[trigger] label_of(l1, d) == a1 {
                let d = choose|d: Cell| in_grid(n, m, d) && before(d, pos) && #[trigger] label_of(l1, d) == a1;
                assert(label_of(l1, d) == label_of(l2, d));
                assert(connected(g, m, t, d, pos));
                lemma_connected_same_label(g, m, t, l2, c2, d, pos);
            } else {
                assert forall|d: Cell| in_grid(n, m, d) && before(d, pos) implies #[trigger] label_of(l1, d)
                    == label_of(l2, d) by {
                    assert(d.0 < i || (d.0 == i && d.1 < j - 1));
                }
                lemma_first_cell_agree(g, m, t, l1, c1, l2, c2, pos);
            }
        }
        assert forall|c: Cell|
            in_grid(n, m, c) && (c.0 < i || (c.0 == i && c.1 < j)) implies #[trigger] label_of(l1, c)
                == label_of(l2, c) by {
            if c != pos {
                assert(c.0 < i || (c.0 == i && c.1 < j - 1));
            } else if cell_value(g, c) != t {
                assert(label_of(l1, c) == 0 && label_of(l2, c) == 0);
            }
        }
    }
}

/// A grid has exactly one valid labelling of its `t`-components: any two
/// give every cell the same label and use the same number of labels.
pub proof fn lemma_labeling_unique(
    g: Seq<Vec<bool>>,
    m: int,
    t: bool,
    l1: Seq<Vec<usize>>,
    c1: int,
    l2: Seq<Vec<usize>>,
    c2: int,
)
    requires
        valid_labeling(g, m, t, l1, c1),
        valid_labeling(g, m, t, l2, c2),
        g.len() <= usize::MAX,
        0 <= m <= usize::MAX,
    ensures
        c1 == c2,
        forall|c: Cell| in_grid(g.len() as int, m, c) ==> #[trigger] label_of(l1, c) == label_of(l2, c),
{
    let n = g.len() as int;
    lemma_agree_before(g, m, t, l1, c1, l2, c2, n, 0);
    assert forall|c: Cell| in_grid(n, m, c) implies #[trigger] label_of(l1, c) == label_of(l2, c) by {
        assert(c.0 < n);
    }
    if c1 > 0 && c1 != c2 {
        assert(label_used(n, m, l1, c1));
        let c = choose|c: Cell| in_grid(n, m, c) && #[trigger] label_of(l1, c) == c1;
        assert(label_of(l2, c) <= c2);
    }
    if c2 > 0 && c1 != c2 {
        assert(label_used(n, m, l2, c2));
        let c = choose|c: Cell| in_grid(n, m, c) && #[trigger] label_of(l2, c) == c2;
        assert(label_of(l1, c) <= c1);
    }
}


/// `count` is the number of `t`-components of the grid, `m` columns wide.
pub open spec fn is_component_count(g: Seq<Vec<bool>>, m: int, t: bool, count: int) -> bool {
    exists|l: Seq<Vec<usize>>| valid_labeling(g, m, t, l, count)
}

/// The number of `t`-components of the grid, `m` columns wide.
pub open spec fn component_count(g: Seq<Vec<bool>>, m: int, t: bool) -> int {
    choose|count: int| is_component_count(g, m, t, count)
}

/// A grid has one number of components.
pub proof fn lemma_component_count_unique(g: Seq<Vec<bool>>, m: int, t: bool, count: int)
    requires
        is_component_count(g, m, t, count),
        g.len() <= usize::MAX,
        0 <= m <= usize::MAX,
    ensures
        component_count(g, m, t) == count,
{
    let c2 = component_count(g, m, t);
    assert(is_component_count(g, m, t, c2));
    let l1 = choose|l: Seq<Vec<usize>>| valid_labeling(g, m, t, l, count);
    let l2 = choose|l: Seq<Vec<usize>>| valid_labeling(g, m, t, l, c2);
    lemma_labeling_unique(g, m, t, l1, count, l2, c2);
}

} // verus!
