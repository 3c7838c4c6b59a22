//! A printed-circuit-board auto-router: a geometric A* path-finder on a
//! stride-aligned eight-direction lattice, trace-path modelling, candidate
//! bookkeeping for the probabilistic model, and a backtracking solver.
//!
//! Coordinates are signed fixed-point numbers with eight fractional bits,
//! held as their raw bit patterns (`i32`), so that lattice alignment and
//! parity tests are exact. One bit, the smallest positive value, is called
//! `DELTA` in the documentation.
//!
//! Obstacles are not modelled here: the search and the solver ask a
//! collision oracle, a closure, about each candidate segment, and their
//! contracts say what they did with its answers.

pub mod hyperparameters;
pub mod vec2;
pub mod trace_path;
pub mod astar;
pub mod pcb_problem;
