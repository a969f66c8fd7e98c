//! Inter-league game scheduling: a greedy opponent-matrix builder and a
//! backtracking day-assignment search.
//!
//! The builder (`teams`) decides, for a roster of teams grouped into leagues
//! with pairwise league travel distances, how many times each pair of teams
//! plays under a per-team game cap, producing a symmetric team-game count
//! matrix (`matrix`) and a flat game list sorted by travel distance. The
//! search (`interleague_schedule`) places those games onto calendar days so
//! that no team plays twice on one day, pruning partial schedules whose
//! future days can no longer be paired off. `sample_data` holds the fixed
//! rosters and calendars the library ships for trying the scheduler out.

pub mod interleague_schedule;
pub mod matrix;
pub mod pairs;
pub mod sample_data;
pub mod teams;
