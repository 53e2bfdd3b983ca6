# lau-stochastic-geometry

Stochastic geometry for agent uncertainty quantification: Poisson point
processes, Boolean models, Voronoi and Delaunay tessellations, Ripley's K and
L functions, Minkowski functionals, percolation and Gaussian random fields.

## Layout

- `src/` — the verified library (Verus). It holds the discrete core:
  - `grid`: occupancy grids, 4-connected paths, the flood-fill labelling of
    components, and the proof that a grid has exactly one valid labelling;
  - `percolation`: the percolation detector (labels, spanning test, summary
    counts) and its laws (both directions, monotonicity, full and empty grids);
  - `minkowski`: occupied cells, exposed sides (in total and by orientation),
    components, holes and the
    Euler characteristic of a pixelated set;
  - `delaunay`: the Bowyer-Watson insertion step (cavity boundary and
    re-triangulation), removal of super-triangle triangles and distinct edges;
  - `voronoi`: the Sutherland-Hodgman clipping plan.
- `tests/` — tests of the library.
- `app/` — ordinary Rust around the library: the floating-point models,
  random sampling (`rand`, `rand_distr`), matrices (`nalgebra`) and serde
  types, which call into the library for the discrete steps.
