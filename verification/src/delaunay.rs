//! The combinatorial side of the Bowyer-Watson Delaunay triangulation:
//! triangles as triples of point indices, the cavity left by the triangles
//! whose circumcircle holds a new point, its re-triangulation, and the
//! distinct edges of a triangulation.
use vstd::prelude::*;

verus! {

/// A triangle given by the indices of its three vertices.
#[derive(Clone, Copy, Debug, PartialEq, Eq, Structural)]
pub struct Triangle {
    pub i: usize,
    pub j: usize,
    pub k: usize,
}

/// An edge, as a pair of point indices.
pub type Edge = (usize, usize);

/// The edges of a triangle, in the order i-j, j-k, k-i.
pub open spec fn tri_edges(t: Triangle) -> Seq<Edge> {
    seq![(t.i, t.j), (t.j, t.k), (t.k, t.i)]
}

/// The two edges join the same two points, in either direction.
pub open spec fn same_edge(a: Edge, b: Edge) -> bool {
    (a.0 == b.0 && a.1 == b.1) || (a.0 == b.1 && a.1 == b.0)
}

/// Edge `e` is also an edge of some flagged triangle other than triangle `ti`.
pub open spec fn shared_edge(tris: Seq<Triangle>, flags: Seq<bool>, ti: int, e: Edge) -> bool {
    exists|tj: int, f: int|
        0 <= tj < tris.len() && tj != ti && #[trigger] flags[tj] && 0 <= f < 3 && same_edge(
            e,
            #[trigger] tri_edges(tris[tj])[f],
        )
}

/// The edges of triangle `ti` that no other flagged triangle has, in order.
pub open spec fn own_edges(tris: Seq<Triangle>, flags: Seq<bool>, ti: int) -> Seq<Edge> {
    let es = tri_edges(tris[ti]);
    let s0: Seq<Edge> = if shared_edge(tris, flags, ti, es[0]) { seq![] } else { seq![es[0]] };
    let s1: Seq<Edge> = if shared_edge(tris, flags, ti, es[1]) { seq![] } else { seq![es[1]] };
    let s2: Seq<Edge> = if shared_edge(tris, flags, ti, es[2]) { seq![] } else { seq![es[2]] };
    s0 + s1 + s2
}

/// The boundary of the cavity formed by the flagged triangles among the
/// first `upto`: their edges that no other flagged triangle has, in order.
pub open spec fn cavity_boundary(tris: Seq<Triangle>, flags: Seq<bool>, upto: int) -> Seq<Edge>
    decreases upto,
{
    if upto <= 0 {
        seq![]
    } else {
        cavity_boundary(tris, flags, upto - 1) + if flags[upto - 1] {
            own_edges(tris, flags, upto - 1)
        } else {
            seq![]
        }
    }
}

/// The unflagged triangles among the first `upto`, in order.
pub open spec fn kept_triangles(tris: Seq<Triangle>, flags: Seq<bool>, upto: int) -> Seq<Triangle>
    decreases upto,
{
    if upto <= 0 {
        seq![]
    } else {
        kept_triangles(tris, flags, upto - 1) + if flags[upto - 1] {
            seq![]
        } else {
            seq![tris[upto - 1]]
        }
    }
}

/// The triangles joining each boundary edge to point `p`.
pub open spec fn fan(edges: Seq<Edge>, p: usize) -> Seq<Triangle> {
    edges.map_values(|e: Edge| Triangle { i: e.0, j: e.1, k: p })
}

/// Whether edge `e` is an edge of triangle `t`.
fn has_edge(t: &Triangle, e: Edge) -> (r: bool)
    ensures
        r == exists|f: int| 0 <= f < 3 && same_edge(e, #[trigger] tri_edges(*t)[f]),
{
    let (a, b) = e;
    let r = (a == t.i && b == t.j) || (a == t.j && b == t.i) || (a == t.j && b == t.k) || (a == t.k
        && b == t.j) || (a == t.k && b == t.i) || (a == t.i && b == t.k);
    proof {
        let es = tri_edges(*t);
        if r {
            if same_edge(e, es[0]) {
            } else if same_edge(e, es[1]) {
            } else {
                assert(same_edge(e, es[2]));
            }
        }
    }
    r
}

/// Whether edge `e` of triangle `ti` is an edge of another flagged triangle.
fn is_shared(triangles: &Vec<Triangle>, in_circle: &Vec<bool>, ti: usize, e: Edge) -> (r: bool)
    requires
        triangles@.len() == in_circle@.len(),
    ensures
        r == shared_edge(triangles@, in_circle@, ti as int, e),
{
    let mut tj: usize = 0;
    while tj < triangles.len()
        invariant
            0 <= tj <= triangles@.len(),
            triangles@.len() == in_circle@.len(),
            forall|u: int, f: int|
                0 <= u < tj && u != ti && #[trigger] in_circle@[u] && 0 <= f < 3 ==> !same_edge(
                    e,
                    #[trigger] tri_edges(triangles@[u])[f],
                ),
        decreases triangles@.len() - tj,
    {
        if tj != ti && in_circle[tj] && has_edge(&triangles[tj], e) {
            return true;
        }
        tj += 1;
    }
    false
}

/// The boundary edges of the cavity made by the flagged triangles.
pub fn cavity_edges(triangles: &Vec<Triangle>, in_circle: &Vec<bool>) -> (polygon: Vec<Edge>)
    requires
        triangles@.len() == in_circle@.len(),
    ensures
        polygon@ == cavity_boundary(triangles@, in_circle@, triangles@.len() as int),
{
    let mut polygon: Vec<Edge> = Vec::new();
    let mut ti: usize = 0;
    while ti < triangles.len()
        invariant
            0 <= ti <= triangles@.len(),
            triangles@.len() == in_circle@.len(),
            polygon@ == cavity_boundary(triangles@, in_circle@, ti as int),
        decreases triangles@.len() - ti,
    {
        let ghost before = polygon@;
        if in_circle[ti] {
            let t = triangles[ti];
            let e0 = (t.i, t.j);
            let e1 = (t.j, t.k);
            let e2 = (t.k, t.i);
            if !is_shared(triangles, in_circle, ti, e0) {
                polygon.push(e0);
            }
            if !is_shared(triangles, in_circle, ti, e1) {
                polygon.push(e1);
            }
            if !is_shared(triangles, in_circle, ti, e2) {
                polygon.push(e2);
            }
            proof {
                assert(polygon@ =~= before + own_edges(triangles@, in_circle@, ti as int));
            }
        } else {
            proof {
                assert(polygon@ =~= before + Seq::<Edge>::empty());
            }
        }
        ti += 1;
    }
    polygon
}

/// One insertion step of Bowyer-Watson: `in_circle[t]` tells whether the new
/// point `p` lies in the circumcircle of triangle `t`. Those triangles are
/// removed, and each edge of the cavity they leave is joined to `p`.
pub fn insert_point(triangles: &mut Vec<Triangle>, in_circle: &Vec<bool>, p: usize)
    requires
        old(triangles)@.len() == in_circle@.len(),
    ensures
        final(triangles)@ == kept_triangles(old(triangles)@, in_circle@, old(triangles)@.len() as int)
            + fan(cavity_boundary(old(triangles)@, in_circle@, old(triangles)@.len() as int), p),
{
    let polygon = cavity_edges(triangles, in_circle);
    let ghost tris = triangles@;
    let mut kept: Vec<Triangle> = Vec::new();
    let mut t: usize = 0;
    while t < triangles.len()
        invariant
            0 <= t <= tris.len(),
            tris == triangles@,
            tris.len() == in_circle@.len(),
            kept@ == kept_triangles(tris, in_circle@, t as int),
        decreases tris.len() - t,
    {
        let ghost before = kept@;
        if !in_circle[t] {
            kept.push(triangles[t]);
            proof {
                assert(kept@ =~= before + seq![tris[t as int]]);
            }
        } else {
            proof {
                assert(kept@ =~= before + Seq::<Triangle>::empty());
            }
        }
        t += 1;
    }
    let ghost base = kept@;
    let mut x: usize = 0;
    while x < polygon.len()
        invariant
            0 <= x <= polygon@.len(),
            kept@ == base + fan(polygon@.take(x as int), p),
        decreases polygon@.len() - x,
    {
        let (a, b) = polygon[x];
        kept.push(Triangle { i: a, j: b, k: p });
        proof {
            assert(polygon@.take(x + 1) =~= polygon@.take(x as int).push(polygon@[x as int]));
            assert(fan(polygon@.take(x + 1), p) =~= fan(polygon@.take(x as int), p).push(
                Triangle { i: a, j: b, k: p },
            ));
        }
        x += 1;
    }
    proof {
        assert(polygon@.take(polygon@.len() as int) =~= polygon@);
    }
    *triangles = kept;
}


/// The triangle joining the three super-triangle vertices, appended after
/// the `n_orig` input points.
pub fn super_triangle(n_orig: usize) -> (t: Triangle)
    requires
        n_orig + 2 <= usize::MAX,
    ensures
        t == (Triangle { i: n_orig, j: (n_orig + 1) as usize, k: (n_orig + 2) as usize }),
{
    Triangle { i: n_orig, j: n_orig + 1, k: n_orig + 2 }
}

/// All three vertices are input points, indexed below `n`.
pub open spec fn within(t: Triangle, n: int) -> bool {
    t.i < n && t.j < n && t.k < n
}

/// The triangles among the first `upto` whose vertices are all below `n`, in order.
pub open spec fn real_triangles(tris: Seq<Triangle>, n: int, upto: int) -> Seq<Triangle>
    decreases upto,
{
    if upto <= 0 {
        seq![]
    } else {
        real_triangles(tris, n, upto - 1) + if within(tris[upto - 1], n) {
            seq![tris[upto - 1]]
        } else {
            seq![]
        }
    }
}

/// Drops every triangle with a super-triangle vertex (an index `>= n_orig`).
pub fn discard_super_triangles(triangles: &mut Vec<Triangle>, n_orig: usize)
    ensures
        final(triangles)@ == real_triangles(old(triangles)@, n_orig as int, old(triangles)@.len() as int),
        forall|x: int| 0 <= x < final(triangles)@.len() ==> within(#[trigger] final(triangles)@[x], n_orig as int),
{
    let ghost tris = triangles@;
    let mut kept: Vec<Triangle> = Vec::new();
    let mut t: usize = 0;
    while t < triangles.len()
        invariant
            0 <= t <= tris.len(),
            tris == triangles@,
            kept@ == real_triangles(tris, n_orig as int, t as int),
            forall|x: int| 0 <= x < kept@.len() ==> within(#[trigger] kept@[x], n_orig as int),
        decreases tris.len() - t,
    {
        let ghost before = kept@;
        let tri = triangles[t];
        if tri.i < n_orig && tri.j < n_orig && tri.k < n_orig {
            kept.push(tri);
            proof {
                assert(kept@ =~= before + seq![tris[t as int]]);
            }
        } else {
            proof {
                assert(kept@ =~= before + Seq::<Triangle>::empty());
            }
        }
        t += 1;
    }
    *triangles = kept;
}

/// An edge written with its smaller index first.
pub open spec fn edge_key(e: Edge) -> Edge {
    if e.0 < e.1 {
        e
    } else {
        (e.1, e.0)
    }
}

/// The keys of the edges of the first `upto` triangles, in order.
pub open spec fn edge_keys(tris: Seq<Triangle>, upto: int) -> Seq<Edge>
    decreases upto,
{
    if upto <= 0 {
        seq![]
    } else {
        let t = tris[upto - 1];
        edge_keys(tris, upto - 1) + seq![
            edge_key((t.i, t.j)),
            edge_key((t.j, t.k)),
            edge_key((t.k, t.i)),
        ]
    }
}

/// The first occurrence of each element of `s`, in order.
pub open spec fn first_occurrences(s: Seq<Edge>) -> Seq<Edge>
    decreases s.len(),
{
    if s.len() == 0 {
        seq![]
    } else {
        let d = first_occurrences(s.drop_last());
        if d.contains(s.last()) {
            d
        } else {
            d.push(s.last())
        }
    }
}

/// Keeping first occurrences drops repeats and loses no element.
pub proof fn lemma_first_occurrences(s: Seq<Edge>)
    ensures
        first_occurrences(s).no_duplicates(),
        first_occurrences(s).to_set() == s.to_set(),
    decreases s.len(),
{
    if s.len() > 0 {
        let r = s.drop_last();
        lemma_first_occurrences(r);
        let d = first_occurrences(r);
        assert(s =~= r.push(s.last()));
        r.lemma_push_to_set_commute(s.last());
        if d.contains(s.last()) {
            assert(d.to_set().contains(s.last()));
            assert(s.to_set() =~= r.to_set().insert(s.last()));
        } else {
            d.lemma_push_to_set_commute(s.last());
            assert forall|x: int, y: int| 0 <= x < y < d.push(s.last()).len() implies d.push(s.last())[x] != d.push(s.last())[y] by {
                if y == d.len() {
                    assert(d.contains(d[x]));
                }
            }
        }
    }
}

/// Appends `key` unless it is already listed: the list holds the first
/// occurrences of the keys seen so far, in order.
fn push_key(result: &mut Vec<Edge>, key: Edge, Ghost(seen): Ghost<Seq<Edge>>)
    requires
        old(result)@ == first_occurrences(seen),
    ensures
        final(result)@ == first_occurrences(seen.push(key)),
{
    let mut found = false;
    let mut x: usize = 0;
    while x < result.len()
        invariant
            0 <= x <= result@.len(),
            found == exists|y: int| 0 <= y < x && #[trigger] result@[y] == key,
        decreases result@.len() - x,
    {
        if result[x].0 == key.0 && result[x].1 == key.1 {
            found = true;
        }
        x += 1;
    }
    proof {
        assert(seen.push(key).drop_last() =~= seen);
    }
    if !found {
        result.push(key);
    }
}

/// The distinct edges of a triangulation, each written with its smaller
/// index first, in the order they are first met.
pub fn unique_edges(triangles: &Vec<Triangle>) -> (edges: Vec<Edge>)
    ensures
        edges@ == first_occurrences(edge_keys(triangles@, triangles@.len() as int)),
        edges@.no_duplicates(),
        edges@.to_set() == edge_keys(triangles@, triangles@.len() as int).to_set(),
{
    let mut edges: Vec<Edge> = Vec::new();
    let mut t: usize = 0;
    while t < triangles.len()
        invariant
            0 <= t <= triangles@.len(),
            edges@ == first_occurrences(edge_keys(triangles@, t as int)),
        decreases triangles@.len() - t,
    {
        let tri = triangles[t];
        let ghost s0 = edge_keys(triangles@, t as int);
        let k0 = if tri.i < tri.j { (tri.i, tri.j) } else { (tri.j, tri.i) };
        let k1 = if tri.j < tri.k { (tri.j, tri.k) } else { (tri.k, tri.j) };
        let k2 = if tri.k < tri.i { (tri.k, tri.i) } else { (tri.i, tri.k) };
        push_key(&mut edges, k0, Ghost(s0));
        push_key(&mut edges, k1, Ghost(s0.push(k0)));
        push_key(&mut edges, k2, Ghost(s0.push(k0).push(k1)));
        proof {
            assert(edge_keys(triangles@, t + 1) =~= s0.push(k0).push(k1).push(k2));
        }
        t += 1;
    }
    proof {
        lemma_first_occurrences(edge_keys(triangles@, triangles@.len() as int));
    }
    edges
}

/// The number of distinct edges of a triangulation.
pub fn num_edges(triangles: &Vec<Triangle>) -> (count: usize)
    ensures
        count == edge_keys(triangles@, triangles@.len() as int).to_set().len(),
{
    let edges = unique_edges(triangles);
    proof {
        edges@.unique_seq_to_set();
    }
    edges.len()
}


// ---------------------------------------------------------------------------
// Laws
// ---------------------------------------------------------------------------

/// Every triangle of `tris` has its vertices below `bound`.
pub open spec fn all_within(tris: Seq<Triangle>, bound: int) -> bool {
    forall|x: int| 0 <= x < tris.len() ==> within(#[trigger] tris[x], bound)
}

proof fn lemma_kept_within(tris: Seq<Triangle>, flags: Seq<bool>, upto: int, bound: int)
    requires
        all_within(tris, bound),
        0 <= upto <= tris.len(),
    ensures
        all_within(kept_triangles(tris, flags, upto), bound),
    decreases upto,
{
    if upto > 0 {
        lemma_kept_within(tris, flags, upto - 1, bound);
        let prev = kept_triangles(tris, flags, upto - 1);
        let cur = kept_triangles(tris, flags, upto);
        assert forall|x: int| 0 <= x < cur.len() implies within(#[trigger] cur[x], bound) by {
            if x < prev.len() {
                assert(cur[x] == prev[x]);
            } else {
                assert(cur[x] == tris[upto - 1]);
            }
        }
    }
}

proof fn lemma_boundary_within(tris: Seq<Triangle>, flags: Seq<bool>, upto: int, bound: int)
    requires
        all_within(tris, bound),
        0 <= upto <= tris.len(),
    ensures
        forall|x: int|
            0 <= x < cavity_boundary(tris, flags, upto).len() ==> #[trigger] cavity_boundary(
                tris,
                flags,
                upto,
            )[x].0 < bound && cavity_boundary(tris, flags, upto)[x].1 < bound,
    decreases upto,
{
    if upto > 0 {
        lemma_boundary_within(tris, flags, upto - 1, bound);
        let prev = cavity_boundary(tris, flags, upto - 1);
        let cur = cavity_boundary(tris, flags, upto);
        let t = tris[upto - 1];
        assert(within(t, bound));
        let own = own_edges(tris, flags, upto - 1);
        assert forall|y: int| 0 <= y < own.len() implies #[trigger] own[y].0 < bound && own[y].1 < bound by {
            let es = tri_edges(t);
            assert(own.contains(own[y]));
            assert(own[y] == es[0] || own[y] == es[1] || own[y] == es[2]);
        }
        assert forall|x: int| 0 <= x < cur.len() implies #[trigger] cur[x].0 < bound && cur[x].1 < bound by {
            if x < prev.len() {
                assert(cur[x] == prev[x]);
            } else {
                assert(cur[x] == own[x - prev.len()]);
            }
        }
    }
}

/// An insertion step only uses known points: when every triangle has its
/// vertices below `bound` and so does the new point, the same holds after.
pub proof fn lemma_insert_point_within(tris: Seq<Triangle>, flags: Seq<bool>, p: usize, bound: int)
    requires
        all_within(tris, bound),
        p < bound,
        flags.len() == tris.len(),
    ensures
        all_within(
            kept_triangles(tris, flags, tris.len() as int) + fan(
                cavity_boundary(tris, flags, tris.len() as int),
                p,
            ),
            bound,
        ),
{
    let n = tris.len() as int;
    lemma_kept_within(tris, flags, n, bound);
    lemma_boundary_within(tris, flags, n, bound);
    let kept = kept_triangles(tris, flags, n);
    let edges = cavity_boundary(tris, flags, n);
    let all = kept + fan(edges, p);
    assert forall|x: int| 0 <= x < all.len() implies within(#[trigger] all[x], bound) by {
        if x < kept.len() {
            assert(all[x] == kept[x]);
        } else {
            assert(all[x] == fan(edges, p)[x - kept.len()]);
            assert(edges[x - kept.len()].0 < bound);
        }
    }
}

/// Every new triangle of an insertion step has the new point as its third
/// vertex, and its first two vertices form an edge of a removed triangle
/// that no other removed triangle has.
pub proof fn lemma_fan_from_cavity(tris: Seq<Triangle>, flags: Seq<bool>, p: usize)
    requires
        flags.len() == tris.len(),
    ensures
        forall|x: int|
            0 <= x < fan(cavity_boundary(tris, flags, tris.len() as int), p).len() ==> {
                let nt = #[trigger] fan(cavity_boundary(tris, flags, tris.len() as int), p)[x];
                nt.k == p && from_flagged(tris, flags, (nt.i, nt.j))
            },
{
    let edges = cavity_boundary(tris, flags, tris.len() as int);
    lemma_boundary_from_flagged(tris, flags, tris.len() as int);
    assert forall|x: int| 0 <= x < fan(edges, p).len() implies {
        let nt = #[trigger] fan(edges, p)[x];
        nt.k == p && from_flagged(tris, flags, (nt.i, nt.j))
    } by {
        let nt = fan(edges, p)[x];
        assert(nt == (Triangle { i: edges[x].0, j: edges[x].1, k: p }));
        assert((nt.i, nt.j) == edges[x]);
        assert(from_flagged(tris, flags, edges[x]));
    }
}

/// `e` is an edge of a flagged triangle that no other flagged triangle has.
pub open spec fn from_flagged(tris: Seq<Triangle>, flags: Seq<bool>, e: Edge) -> bool {
    exists|ti: int, f: int|
        0 <= ti < tris.len() && flags[ti] && 0 <= f < 3 && #[trigger] tri_edges(tris[ti])[f] == e
            && !shared_edge(tris, flags, ti, e)
}

proof fn lemma_boundary_from_flagged(tris: Seq<Triangle>, flags: Seq<bool>, upto: int)
    requires
        0 <= upto <= tris.len(),
        flags.len() == tris.len(),
    ensures
        forall|x: int|
            0 <= x < cavity_boundary(tris, flags, upto).len() ==> #[trigger] from_flagged(
                tris,
                flags,
                cavity_boundary(tris, flags, upto)[x],
            ),
    decreases upto,
{
    if upto > 0 {
        lemma_boundary_from_flagged(tris, flags, upto - 1);
        let prev = cavity_boundary(tris, flags, upto - 1);
        let cur = cavity_boundary(tris, flags, upto);
        let ti = upto - 1;
        let es = tri_edges(tris[ti]);
        let own = own_edges(tris, flags, ti);
        assert forall|x: int| 0 <= x < cur.len() implies #[trigger] from_flagged(tris, flags, cur[x]) by {
            if x < prev.len() {
                assert(cur[x] == prev[x]);
                assert(from_flagged(tris, flags, prev[x]));
            } else {
                let y = x - prev.len();
                assert(flags[ti]);
                assert(cur[x] == own[y]);
                let s0: Seq<Edge> = if shared_edge(tris, flags, ti, es[0]) { seq![] } else { seq![es[0]] };
                let s1: Seq<Edge> = if shared_edge(tris, flags, ti, es[1]) { seq![] } else { seq![es[1]] };
                if y < s0.len() {
                    assert(own[y] == es[0]);
                    assert(tri_edges(tris[ti])[0] == cur[x]);
                } else if y < s0.len() + s1.len() {
                    assert(own[y] == es[1]);
                    assert(tri_edges(tris[ti])[1] == cur[x]);
                } else {
                    assert(own[y] == es[2]);
                    assert(tri_edges(tris[ti])[2] == cur[x]);
                }
            }
        }
    }
}


proof fn lemma_boundary_grows(tris: Seq<Triangle>, flags: Seq<bool>, a: int, b: int, e: Edge)
    requires
        0 <= a <= b,
        cavity_boundary(tris, flags, a).contains(e),
    ensures
        cavity_boundary(tris, flags, b).contains(e),
    decreases b - a,
{
    if b > a {
        lemma_boundary_grows(tris, flags, a, b - 1, e);
        let prev = cavity_boundary(tris, flags, b - 1);
        let x = choose|x: int| 0 <= x < prev.len() && prev[x] == e;
        assert(cavity_boundary(tris, flags, b)[x] == e);
    }
}

/// The cavity boundary is complete: an edge of a flagged triangle that no
/// other flagged triangle has, in either direction, is on the boundary,
/// whatever edges the unflagged triangles share with it.
pub proof fn lemma_cavity_complete(tris: Seq<Triangle>, flags: Seq<bool>, ti: int, f: int)
    requires
        flags.len() == tris.len(),
        0 <= ti < tris.len(),
        flags[ti],
        0 <= f < 3,
        forall|tj: int, h: int|
            0 <= tj < tris.len() && tj != ti && flags[tj] && 0 <= h < 3 ==> {
                let e = tri_edges(tris[ti])[f];
                let d = #[trigger] tri_edges(tris[tj])[h];
                !((e.0 == d.0 && e.1 == d.1) || (e.0 == d.1 && e.1 == d.0))
            },
    ensures
        cavity_boundary(tris, flags, tris.len() as int).contains(tri_edges(tris[ti])[f]),
{
    let es = tri_edges(tris[ti]);
    let e = es[f];
    assert(!shared_edge(tris, flags, ti, e));
    let own = own_edges(tris, flags, ti);
    let s0: Seq<Edge> = if shared_edge(tris, flags, ti, es[0]) { seq![] } else { seq![es[0]] };
    let s1: Seq<Edge> = if shared_edge(tris, flags, ti, es[1]) { seq![] } else { seq![es[1]] };
    let s2: Seq<Edge> = if shared_edge(tris, flags, ti, es[2]) { seq![] } else { seq![es[2]] };
    assert(own == s0 + s1 + s2);
    if f == 0 {
        assert(own[0] == e);
    } else if f == 1 {
        assert(own[s0.len() as int] == e);
    } else {
        assert(own[(s0.len() + s1.len()) as int] == e);
    }
    assert(own.contains(e));
    let prev = cavity_boundary(tris, flags, ti);
    let y = choose|y: int| 0 <= y < own.len() && own[y] == e;
    assert(cavity_boundary(tris, flags, ti + 1) == prev + own);
    assert(cavity_boundary(tris, flags, ti + 1)[prev.len() + y] == e);
    lemma_boundary_grows(tris, flags, ti + 1, tris.len() as int, e);
}

/// Discarding the super-triangle triangles keeps exactly the triangles whose
/// three vertices are all input points, in their order.
pub proof fn lemma_discard_is_filter(tris: Seq<Triangle>, n: int)
    ensures
        real_triangles(tris, n, tris.len() as int) == tris.filter(
            |t: Triangle| t.i < n && t.j < n && t.k < n,
        ),
{
    lemma_real_prefix(tris, n, tris.len() as int);
    assert(tris.take(tris.len() as int) =~= tris);
}

proof fn lemma_real_prefix(tris: Seq<Triangle>, n: int, upto: int)
    requires
        0 <= upto <= tris.len(),
    ensures
        real_triangles(tris, n, upto) == tris.take(upto).filter(
            |t: Triangle| t.i < n && t.j < n && t.k < n,
        ),
    decreases upto,
{
    let pred = |t: Triangle| t.i < n && t.j < n && t.k < n;
    if upto == 0 {
        reveal(Seq::filter);
        assert(tris.take(0) =~= Seq::<Triangle>::empty());
    } else {
        lemma_real_prefix(tris, n, upto - 1);
        assert(tris.take(upto) =~= tris.take(upto - 1).push(tris[upto - 1]));
        tris.take(upto - 1).lemma_filter_push(tris[upto - 1], pred);
        if pred(tris[upto - 1]) {
            assert(real_triangles(tris, n, upto) =~= real_triangles(tris, n, upto - 1).push(tris[upto - 1]));
        } else {
            assert(real_triangles(tris, n, upto) =~= real_triangles(tris, n, upto - 1));
        }
    }
}

/// The unordered vertex pairs `(a, b)`, `a <= b`, that are edges of some
/// triangle, in either direction.
pub open spec fn undirected_edges(tris: Seq<Triangle>) -> Set<Edge> {
    Set::new(
        |e: Edge|
            e.0 <= e.1 && exists|t: int, f: int|
                0 <= t < tris.len() && 0 <= f < 3 && {
                    let d = #[trigger] tri_edges(tris[t])[f];
                    (e.0 == d.0 && e.1 == d.1) || (e.0 == d.1 && e.1 == d.0)
                },
    )
}

proof fn lemma_edge_keys_members(tris: Seq<Triangle>, upto: int)
    requires
        0 <= upto <= tris.len(),
    ensures
        forall|e: Edge|
            edge_keys(tris, upto).contains(e) <==> e.0 <= e.1 && exists|t: int, f: int|
                0 <= t < upto && 0 <= f < 3 && {
                    let d = #[trigger] tri_edges(tris[t])[f];
                    (e.0 == d.0 && e.1 == d.1) || (e.0 == d.1 && e.1 == d.0)
                },
    decreases upto,
{
    if upto > 0 {
        lemma_edge_keys_members(tris, upto - 1);
        let prev = edge_keys(tris, upto - 1);
        let cur = edge_keys(tris, upto);
        let tt = tris[upto - 1];
        let ds = tri_edges(tt);
        let add = seq![edge_key((tt.i, tt.j)), edge_key((tt.j, tt.k)), edge_key((tt.k, tt.i))];
        assert(cur == prev + add);
        assert forall|e: Edge|
            cur.contains(e) <==> e.0 <= e.1 && exists|t: int, f: int|
                0 <= t < upto && 0 <= f < 3 && {
                    let d = #[trigger] tri_edges(tris[t])[f];
                    (e.0 == d.0 && e.1 == d.1) || (e.0 == d.1 && e.1 == d.0)
                } by {
            if cur.contains(e) {
                let x = choose|x: int| 0 <= x < cur.len() && cur[x] == e;
                if x < prev.len() {
                    assert(prev.contains(e));
                } else {
                    let f = x - prev.len();
                    assert(add[f] == e);
                    assert(ds[f] == tri_edges(tris[upto - 1])[f]);
                }
            }
            if e.0 <= e.1 && exists|t: int, f: int|
                0 <= t < upto && 0 <= f < 3 && {
                    let d = #[trigger] tri_edges(tris[t])[f];
                    (e.0 == d.0 && e.1 == d.1) || (e.0 == d.1 && e.1 == d.0)
                } {
                let (t, f) = choose|t: int, f: int|
                    0 <= t < upto && 0 <= f < 3 && {
                        let d = #[trigger] tri_edges(tris[t])[f];
                        (e.0 == d.0 && e.1 == d.1) || (e.0 == d.1 && e.1 == d.0)
                    };
                if t < upto - 1 {
                    assert(prev.contains(e));
                    let x = choose|x: int| 0 <= x < prev.len() && prev[x] == e;
                    assert(cur[x] == e);
                } else {
                    assert(tri_edges(tris[t])[f] == ds[f]);
                    assert(add[f] == e);
                    assert(cur[prev.len() + f] == e);
                }
            }
        }
    }
}

/// The distinct edges of a triangulation are its unordered vertex pairs:
/// each is written with its smaller index first, no two of them join the
/// same two points in either direction, and they are exactly the pairs
/// that are edges of some triangle. Their number is the number of such pairs.
pub proof fn lemma_unique_edges_exact(tris: Seq<Triangle>)
    ensures
        ({
            let es = first_occurrences(edge_keys(tris, tris.len() as int));
            &&& forall|x: int| 0 <= x < es.len() ==> (#[trigger] es[x]).0 <= es[x].1
            &&& forall|x: int, y: int|
                0 <= x < es.len() && 0 <= y < es.len() && x != y ==> !same_edge(
                    #[trigger] es[x],
                    #[trigger] es[y],
                )
            &&& es.to_set() == undirected_edges(tris)
        }),
        edge_keys(tris, tris.len() as int).to_set() == undirected_edges(tris),
        edge_keys(tris, tris.len() as int).to_set().len() == undirected_edges(tris).len(),
{
    let n = tris.len() as int;
    let ks = edge_keys(tris, n);
    let es = first_occurrences(ks);
    lemma_edge_keys_members(tris, n);
    lemma_first_occurrences(ks);
    assert forall|e: Edge| ks.to_set().contains(e) <==> undirected_edges(tris).contains(e) by {
        assert(ks.to_set().contains(e) <==> ks.contains(e));
    }
    assert(ks.to_set() =~= undirected_edges(tris));
    assert forall|x: int| 0 <= x < es.len() implies (#[trigger] es[x]).0 <= es[x].1 by {
        assert(es.to_set().contains(es[x]));
        assert(ks.to_set().contains(es[x]));
        assert(ks.contains(es[x]));
    }
    assert forall|x: int, y: int|
        0 <= x < es.len() && 0 <= y < es.len() && x != y implies !same_edge(
            #[trigger] es[x],
            #[trigger] es[y],
        ) by {
        assert(es.to_set().contains(es[x]) && es.to_set().contains(es[y]));
        assert(ks.contains(es[x]) && ks.contains(es[y]));
    }
}

/// An insertion step keeps exactly the unflagged triangles, in their order:
/// those at the positions `x` with `!flags[x]`.
pub proof fn lemma_kept_is_filter(tris: Seq<Triangle>, flags: Seq<bool>)
    requires
        flags.len() == tris.len(),
    ensures
        kept_triangles(tris, flags, tris.len() as int) == Seq::new(tris.len(), |x: int| x).filter(
            |x: int| !flags[x],
        ).map_values(|x: int| tris[x]),
{
    lemma_kept_prefix(tris, flags, tris.len() as int);
}

proof fn lemma_kept_prefix(tris: Seq<Triangle>, flags: Seq<bool>, upto: int)
    requires
        0 <= upto <= tris.len(),
    ensures
        kept_triangles(tris, flags, upto) == Seq::new(upto as nat, |x: int| x).filter(|x: int| !flags[x]).map_values(
            |x: int| tris[x],
        ),
    decreases upto,
{
    let pred = |x: int| !flags[x];
    let get = |x: int| tris[x];
    if upto == 0 {
        reveal(Seq::filter);
        assert(Seq::new(0nat, |x: int| x) =~= Seq::<int>::empty());
        assert(Seq::<int>::empty().filter(pred).map_values(get) =~= Seq::<Triangle>::empty());
    } else {
        lemma_kept_prefix(tris, flags, upto - 1);
        let prev = Seq::new((upto - 1) as nat, |x: int| x);
        assert(Seq::new(upto as nat, |x: int| x) =~= prev.push(upto - 1));
        prev.lemma_filter_push(upto - 1, pred);
        let fp = prev.filter(pred);
        if pred(upto - 1) {
            assert(fp.push(upto - 1).map_values(get) =~= fp.map_values(get).push(tris[upto - 1]));
            assert(kept_triangles(tris, flags, upto) =~= kept_triangles(tris, flags, upto - 1).push(tris[upto - 1]));
        } else {
            assert(kept_triangles(tris, flags, upto) =~= kept_triangles(tris, flags, upto - 1));
        }
    }
}

/// Edge `x % 3` of triangle `x / 3`, numbering the edges of all triangles in turn.
pub open spec fn nth_edge(tris: Seq<Triangle>, x: int) -> Edge {
    tri_edges(tris[x / 3])[x % 3]
}

/// Edge number `x` belongs to a flagged triangle and no other flagged
/// triangle has it, in either direction.
pub open spec fn cavity_side(tris: Seq<Triangle>, flags: Seq<bool>, x: int) -> bool {
    &&& flags[x / 3]
    &&& forall|tj: int, h: int|
        0 <= tj < tris.len() && tj != x / 3 && flags[tj] && 0 <= h < 3 ==> {
            let e = nth_edge(tris, x);
            let d = #[trigger] tri_edges(tris[tj])[h];
            !((e.0 == d.0 && e.1 == d.1) || (e.0 == d.1 && e.1 == d.0))
        }
}

/// The cavity boundary lists, in order and once each, the edges of the
/// flagged triangles that no other flagged triangle has: walking the
/// triangles in order and the edges of each as i-j, j-k, k-i.
pub proof fn lemma_cavity_exact(tris: Seq<Triangle>, flags: Seq<bool>)
    requires
        flags.len() == tris.len(),
    ensures
        cavity_boundary(tris, flags, tris.len() as int) == Seq::new(3 * tris.len(), |x: int| x).filter(
            |x: int| cavity_side(tris, flags, x),
        ).map_values(|x: int| nth_edge(tris, x)),
{
    lemma_cavity_prefix(tris, flags, tris.len() as int);
}

proof fn lemma_cavity_prefix(tris: Seq<Triangle>, flags: Seq<bool>, upto: int)
    requires
        flags.len() == tris.len(),
        0 <= upto <= tris.len(),
    ensures
        cavity_boundary(tris, flags, upto) == Seq::new((3 * upto) as nat, |x: int| x).filter(
            |x: int| cavity_side(tris, flags, x),
        ).map_values(|x: int| nth_edge(tris, x)),
    decreases upto,
{
    let pred = |x: int| cavity_side(tris, flags, x);
    let get = |x: int| nth_edge(tris, x);
    if upto == 0 {
        reveal(Seq::filter);
        assert(Seq::new(0nat, |x: int| x) =~= Seq::<int>::empty());
        assert(Seq::<int>::empty().filter(pred).map_values(get) =~= Seq::<Edge>::empty());
    } else {
        lemma_cavity_prefix(tris, flags, upto - 1);
        let u = upto - 1;
        let b = 3 * u;
        let prev = Seq::new(b as nat, |x: int| x);
        assert(Seq::new((3 * upto) as nat, |x: int| x) =~= prev.push(b).push(b + 1).push(b + 2));
        prev.lemma_filter_push(b, pred);
        prev.push(b).lemma_filter_push(b + 1, pred);
        prev.push(b).push(b + 1).lemma_filter_push(b + 2, pred);
        assert(b / 3 == u && b % 3 == 0);
        assert((b + 1) / 3 == u && (b + 1) % 3 == 1);
        assert((b + 2) / 3 == u && (b + 2) % 3 == 2);
        let es = tri_edges(tris[u]);
        assert forall|f: int| 0 <= f < 3 implies pred(b + f) == (flags[u] && !shared_edge(tris, flags, u, es[f])) by {
            assert((b + f) / 3 == u && (b + f) % 3 == f);
            assert(nth_edge(tris, b + f) == es[f]);
            if shared_edge(tris, flags, u, es[f]) {
                let (tj, h) = choose|tj: int, h: int|
                    0 <= tj < tris.len() && tj != u && #[trigger] flags[tj] && 0 <= h < 3 && same_edge(
                        es[f],
                        #[trigger] tri_edges(tris[tj])[h],
                    );
                assert(!pred(b + f));
            }
            if flags[u] && !shared_edge(tris, flags, u, es[f]) {
                assert forall|tj: int, h: int|
                    0 <= tj < tris.len() && tj != (b + f) / 3 && flags[tj] && 0 <= h < 3 implies {
                        let e = nth_edge(tris, b + f);
                        let d = #[trigger] tri_edges(tris[tj])[h];
                        !((e.0 == d.0 && e.1 == d.1) || (e.0 == d.1 && e.1 == d.0))
                    } by {
                    if same_edge(es[f], tri_edges(tris[tj])[h]) {
                        assert(shared_edge(tris, flags, u, es[f]));
                    }
                }
            }
        }
        let f0 = prev.filter(pred);
        let f1 = prev.push(b).filter(pred);
        let f2 = prev.push(b).push(b + 1).filter(pred);
        let f3 = prev.push(b).push(b + 1).push(b + 2).filter(pred);
        let s0: Seq<Edge> = if shared_edge(tris, flags, u, es[0]) { seq![] } else { seq![es[0]] };
        let s1: Seq<Edge> = if shared_edge(tris, flags, u, es[1]) { seq![] } else { seq![es[1]] };
        let s2: Seq<Edge> = if shared_edge(tris, flags, u, es[2]) { seq![] } else { seq![es[2]] };
        assert(pred(b) == (flags[u] && !shared_edge(tris, flags, u, es[0])));
        assert(pred(b + 1) == (flags[u] && !shared_edge(tris, flags, u, es[1])));
        assert(pred(b + 2) == (flags[u] && !shared_edge(tris, flags, u, es[2])));
        assert(get(b) == es[0] && get(b + 1) == es[1] && get(b + 2) == es[2]);
        assert(f1.map_values(get) =~= f0.map_values(get) + if pred(b) { seq![es[0]] } else { Seq::<Edge>::empty() });
        assert(f2.map_values(get) =~= f1.map_values(get) + if pred(b + 1) { seq![es[1]] } else { Seq::<Edge>::empty() });
        assert(f3.map_values(get) =~= f2.map_values(get) + if pred(b + 2) { seq![es[2]] } else { Seq::<Edge>::empty() });
        if flags[u] {
            assert(f3.map_values(get) =~= f0.map_values(get) + (s0 + s1 + s2));
            assert(cavity_boundary(tris, flags, upto) == cavity_boundary(tris, flags, u) + own_edges(tris, flags, u));
        } else {
            assert(f3.map_values(get) =~= f0.map_values(get));
            assert(cavity_boundary(tris, flags, upto) =~= cavity_boundary(tris, flags, u));
        }
    }
}

} // verus!
