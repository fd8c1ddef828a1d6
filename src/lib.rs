//! The verified core of a 2D particle simulator: a structure-of-arrays particle store, the
//! removal and emission steps that keep it consistent, a quadtree whose build and Barnes-Hut
//! traversal are proved to account for every particle exactly once, a sorted event queue,
//! and timers.

pub mod areas;
pub mod generators;
pub mod particles;
pub mod perf_logger;
pub mod quadtree;
pub mod sorted_vec;
pub mod systems;
pub mod timer;
