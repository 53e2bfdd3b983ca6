//! The combinatorial skeleton of Sutherland-Hodgman clipping of a polygon
//! by a half-plane: which vertices are kept and which edges cross the
//! clipping line, in the order the clipped polygon lists them.
use vstd::prelude::*;

verus! {

/// One vertex of a clipped polygon.
#[derive(Clone, Copy, Debug, PartialEq, Eq, Structural)]
pub enum ClipStep {
    /// Vertex `i` of the input polygon, which lies in the half-plane.
    Keep(usize),
    /// The point where edge `i -> j` of the input polygon crosses the clipping line.
    Cross(usize, usize),
}

/// The vertex after vertex `i` of a polygon with `n` vertices.
pub open spec fn next_vertex(i: int, n: int) -> int {
    (i + 1) % n
}

/// The steps contributed by edge `i -> i + 1` (cyclically): vertex `i` when
/// inside, and the crossing when the edge leaves or enters the half-plane.
pub open spec fn edge_steps(inside: Seq<bool>, i: int) -> Seq<ClipStep> {
    let n = inside.len() as int;
    let j = next_vertex(i, n);
    if inside[i] {
        seq![ClipStep::Keep(i as usize)] + if !inside[j] {
            seq![ClipStep::Cross(i as usize, j as usize)]
        } else {
            seq![]
        }
    } else if inside[j] {
        seq![ClipStep::Cross(i as usize, j as usize)]
    } else {
        seq![]
    }
}

/// The steps of the first `k` edges.
pub open spec fn clip_steps(inside: Seq<bool>, k: int) -> Seq<ClipStep>
    decreases k,
{
    if k <= 0 {
        seq![]
    } else {
        clip_steps(inside, k - 1) + edge_steps(inside, k - 1)
    }
}

/// Plans the clipping of a polygon whose vertex `i` lies in the half-plane
/// exactly when `inside[i]` holds.
pub fn clip_plan(inside: &Vec<bool>) -> (plan: Vec<ClipStep>)
    ensures
        plan@ == clip_steps(inside@, inside@.len() as int),
{
    let n = inside.len();
    let mut plan: Vec<ClipStep> = Vec::new();
    if n == 0 {
        return plan;
    }
    let mut i: usize = 0;
    while i < n
        invariant
            0 <= i <= n,
            n == inside@.len(),
            plan@ == clip_steps(inside@, i as int),
        decreases n - i,
    {
        let j = (i + 1) % n;
        let ghost before = plan@;
        if inside[i] {
            plan.push(ClipStep::Keep(i));
            if !inside[j] {
                plan.push(ClipStep::Cross(i, j));
            }
        } else if inside[j] {
            plan.push(ClipStep::Cross(i, j));
        }
        proof {
            assert(plan@ =~= before + edge_steps(inside@, i as int));
        }
        i += 1;
    }
    plan
}


/// The number of crossing steps in `s`.
pub open spec fn crossings(s: Seq<ClipStep>) -> nat
    decreases s.len(),
{
    if s.len() == 0 {
        0
    } else {
        crossings(s.drop_last()) + if s.last() is Cross {
            1nat
        } else {
            0nat
        }
    }
}

proof fn lemma_crossings_add(a: Seq<ClipStep>, b: Seq<ClipStep>)
    ensures
        crossings(a + b) == crossings(a) + crossings(b),
    decreases b.len(),
{
    if b.len() > 0 {
        lemma_crossings_add(a, b.drop_last());
        assert((a + b).drop_last() =~= a + b.drop_last());
    } else {
        assert(a + b =~= a);
    }
}

/// 1 when the polygon changes side between vertices `i` and `j`, else 0.
pub open spec fn side_change(inside: Seq<bool>, i: int, j: int) -> nat {
    if inside[i] != inside[j] {
        1
    } else {
        0
    }
}

proof fn lemma_edge_crossings(inside: Seq<bool>, i: int)
    requires
        0 <= i < inside.len(),
    ensures
        crossings(edge_steps(inside, i)) == side_change(inside, i, next_vertex(i, inside.len() as int)),
{
    let n = inside.len() as int;
    let j = next_vertex(i, n);
    reveal_with_fuel(crossings, 3);
    if inside[i] {
        let tail: Seq<ClipStep> = if !inside[j] {
            seq![ClipStep::Cross(i as usize, j as usize)]
        } else {
            seq![]
        };
        lemma_crossings_add(seq![ClipStep::Keep(i as usize)], tail);
    }
}

proof fn lemma_open_crossings(inside: Seq<bool>, k: int)
    requires
        1 <= k <= inside.len(),
    ensures
        crossings(clip_steps(inside, k - 1)) % 2 == side_change(inside, 0, k - 1),
    decreases k,
{
    let n = inside.len() as int;
    if k > 1 {
        lemma_open_crossings(inside, k - 1);
        lemma_crossings_add(clip_steps(inside, k - 2), edge_steps(inside, k - 2));
        lemma_edge_crossings(inside, k - 2);
        assert(next_vertex(k - 2, n) == k - 1) by {
            vstd::arithmetic::div_mod::lemma_small_mod((k - 1) as nat, n as nat);
        }
    }
}

/// A closed polygon crosses a line an even number of times: the plan of a
/// clipping has an even number of crossing steps.
pub proof fn lemma_crossings_even(inside: Seq<bool>)
    ensures
        crossings(clip_steps(inside, inside.len() as int)) % 2 == 0,
{
    let n = inside.len() as int;
    if n > 0 {
        lemma_open_crossings(inside, n);
        lemma_crossings_add(clip_steps(inside, n - 1), edge_steps(inside, n - 1));
        lemma_edge_crossings(inside, n - 1);
        assert(next_vertex(n - 1, n) == 0) by {
            vstd::arithmetic::div_mod::lemma_mod_self_0(n);
        }
    }
}


/// The position of a step in the walk round the polygon: vertex `i` comes
/// just before the crossing of edge `i -> i + 1`.
pub open spec fn step_rank(s: ClipStep) -> int {
    match s {
        ClipStep::Keep(i) => 2 * i,
        ClipStep::Cross(i, _) => 2 * i + 1,
    }
}

/// Step `s` belongs in the clipped polygon: a kept vertex is inside, and a
/// crossing is an edge to the next vertex whose ends lie on opposite sides.
pub open spec fn step_valid(inside: Seq<bool>, s: ClipStep) -> bool {
    let n = inside.len() as int;
    match s {
        ClipStep::Keep(i) => i < n && inside[i as int],
        ClipStep::Cross(i, j) => i < n && j == (i + 1) % n && inside[i as int] != inside[j as int],
    }
}

proof fn lemma_clip_prefix(inside: Seq<bool>, k: int)
    requires
        0 <= k <= inside.len(),
        inside.len() <= usize::MAX,
    ensures
        ({
            let p = clip_steps(inside, k);
            &&& forall|x: int| 0 <= x < p.len() ==> step_valid(inside, #[trigger] p[x]) && step_rank(p[x]) < 2 * k
            &&& forall|x: int, y: int| 0 <= x < y < p.len() ==> step_rank(#[trigger] p[x]) < step_rank(#[trigger] p[y])
            &&& forall|i: int| 0 <= i < k && inside[i] ==> #[trigger] p.contains(ClipStep::Keep(i as usize))
            &&& forall|i: int|
                0 <= i < k && inside[i] != inside[(i + 1) % (inside.len() as int)] ==> #[trigger] p.contains(
                    ClipStep::Cross(i as usize, ((i + 1) % (inside.len() as int)) as usize),
                )
        }),
    decreases k,
{
    if k > 0 {
        lemma_clip_prefix(inside, k - 1);
        let n = inside.len() as int;
        let i = k - 1;
        let j = next_vertex(i, n);
        let prev = clip_steps(inside, k - 1);
        let es = edge_steps(inside, i);
        let p = clip_steps(inside, k);
        assert(p == prev + es);
        assert(0 <= j < n);
        assert forall|x: int| 0 <= x < es.len() implies step_valid(inside, #[trigger] es[x]) && (step_rank(es[x]) == 2 * i
            || step_rank(es[x]) == 2 * i + 1) && (x == 1 ==> step_rank(es[0]) < step_rank(es[1])) by {
        }
        assert forall|x: int| 0 <= x < p.len() implies step_valid(inside, #[trigger] p[x]) && step_rank(p[x]) < 2 * k by {
            if x < prev.len() {
                assert(p[x] == prev[x]);
            } else {
                assert(p[x] == es[x - prev.len()]);
            }
        }
        assert forall|x: int, y: int| 0 <= x < y < p.len() implies step_rank(#[trigger] p[x]) < step_rank(#[trigger] p[y]) by {
            if y < prev.len() {
                assert(p[x] == prev[x] && p[y] == prev[y]);
            } else if x < prev.len() {
                assert(p[x] == prev[x] && p[y] == es[y - prev.len()]);
            } else {
                assert(p[x] == es[x - prev.len()] && p[y] == es[y - prev.len()]);
            }
        }
        assert forall|a: int| 0 <= a < k && inside[a] implies #[trigger] p.contains(ClipStep::Keep(a as usize)) by {
            if a < k - 1 {
                assert(prev.contains(ClipStep::Keep(a as usize)));
                let x = choose|x: int| 0 <= x < prev.len() && prev[x] == ClipStep::Keep(a as usize);
                assert(p[x] == prev[x]);
            } else {
                assert(es[0] == ClipStep::Keep(a as usize));
                assert(p[prev.len() as int] == es[0]);
            }
        }
        assert forall|a: int|
            0 <= a < k && inside[a] != inside[(a + 1) % n] implies #[trigger] p.contains(
                ClipStep::Cross(a as usize, ((a + 1) % n) as usize),
            ) by {
            if a < k - 1 {
                assert(prev.contains(ClipStep::Cross(a as usize, ((a + 1) % n) as usize)));
                let x = choose|x: int| 0 <= x < prev.len() && prev[x] == ClipStep::Cross(a as usize, ((a + 1) % n) as usize);
                assert(p[x] == prev[x]);
            } else if inside[a] {
                assert(es[1] == ClipStep::Cross(a as usize, ((a + 1) % n) as usize));
                assert(p[(prev.len() + 1) as int] == es[1]);
            } else {
                assert(es[0] == ClipStep::Cross(a as usize, ((a + 1) % n) as usize));
                assert(p[prev.len() as int] == es[0]);
            }
        }
    }
}

/// The clipping plan is exactly the walk round the polygon: every inside
/// vertex is kept and every edge whose ends lie on opposite sides is
/// crossed; nothing else appears; and the steps come in the order of the
/// walk, each vertex before the crossing of the edge leaving it. In
/// particular the kept vertices are the inside vertices, in order.
pub proof fn lemma_clip_plan_exact(inside: Seq<bool>)
    requires
        inside.len() <= usize::MAX,
    ensures
        ({
            let n = inside.len() as int;
            let p = clip_steps(inside, n);
            &&& forall|x: int| 0 <= x < p.len() ==> step_valid(inside, #[trigger] p[x])
            &&& forall|x: int, y: int| 0 <= x < y < p.len() ==> step_rank(#[trigger] p[x]) < step_rank(#[trigger] p[y])
            &&& forall|i: int| 0 <= i < n && inside[i] ==> #[trigger] p.contains(ClipStep::Keep(i as usize))
            &&& forall|i: int|
                0 <= i < n && inside[i] != inside[(i + 1) % n] ==> #[trigger] p.contains(
                    ClipStep::Cross(i as usize, ((i + 1) % n) as usize),
                )
        }),
{
    lemma_clip_prefix(inside, inside.len() as int);
}

} // verus!
