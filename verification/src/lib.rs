//! Covering-array search by a harmony search whose improvisation step is a
//! particle-swarm move.
//!
//! A covering array of strength `t_value` over `p_num` parameters with
//! `p_values` symbols each is a set of test cases in which every choice of
//! `t_value` parameters takes every joint assignment of symbols at least
//! once. The search keeps a population of candidate suites, the harmonies,
//! and improves on them until one covers every assignment.
//!
//! Every function of the library is verified. What is taken on trust is the
//! behaviour of two calls into other crates: the list of subsets in
//! `encoder` and the random draw in `random`.

pub mod config;
pub mod counting;
pub mod coverage;
pub mod encoder;
pub mod harmony;
pub mod model;
pub mod orchestrate;
pub mod population;
pub mod random;
pub mod ranking;
pub mod search;
pub mod swarm;
