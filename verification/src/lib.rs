//! A toolkit around a small expression language: its wire syntax, an evaluator,
//! a let-bound surface language that compiles to it, and a two-dimensional
//! time-travelling tape simulator.

pub mod base94;
pub mod bigint;
pub mod comms;
pub mod compression;
pub mod geometry;
pub mod icfp;
pub mod lambdaman;
pub mod lasm;
pub mod runner;
pub mod spaceship;
pub mod text;
pub mod three_d;
