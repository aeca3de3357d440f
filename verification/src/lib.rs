//! Neuroevolution of tank controllers on a deterministic fixed-point arena.
//!
//! Tanks steered by small feed-forward networks fight timed battles; kills
//! and survival time become the fitness of the genomes that hold the network
//! weights; selection, crossover and mutation breed the next generation.
//!
//! Every real quantity (weights, positions, angles, seconds, health) is a
//! signed fixed-point number with six decimal places: the integer `1_000_000`
//! stands for `1.0`. The crate computes in integers only. The hyperbolic
//! tangent, the sine and the cosine are handed in by the caller as
//! functions on fixed-point numbers, and the contracts say what is fed to
//! them and what becomes of their results. Randomness comes from a seedable
//! generator that the caller owns.

pub mod fixed;
pub mod rng;
pub mod components;
pub mod ai;
pub mod map;
pub mod systems;
pub mod genetics;
pub mod battle;
