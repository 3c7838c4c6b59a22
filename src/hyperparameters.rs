use vstd::prelude::*;

verus! {

/// The lattice spacing of the A* search, in bit units (1.27 mm rounded to
/// the fixed-point grid, plus one `DELTA`). It is even, so every lattice
/// vertex has even coordinates.
pub const ASTAR_STRIDE: i32 = 326;

/// Bound on the magnitude of every router coordinate, in bit units.
pub const COORD_LIMIT: i32 = 1048576;

/// The coefficient `c` of the A* key `f = g + h * c`. Costs are exact
/// integers in `axis + diagonal * sqrt(2)` form, so it is a whole number;
/// at 1 the octile estimate never exceeds the true remaining length.
pub const ESTIMATE_COEFFICIENT: i64 = 1;

/// Maximum number of node expansions of one A* search.
pub const ASTAR_MAX_TRIALS: usize = 200;

/// Maximum number of generation attempts in one sampling round.
pub const MAX_GENERATION_ATTEMPTS: usize = 10;

/// The number of sampling rounds of a full solve.
pub const MAX_ITERATION: usize = 4;

/// Posterior-update steps after each sampling round.
pub const POSTERIOR_UPDATES_PER_ROUND: usize = 10;

} // verus!
