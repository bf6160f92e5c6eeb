//! Sentinel-delimited recipe blocks in `justfile`s and `Taskfile.yml`s, the
//! recipe registry's index and manifest model, community taps, and the
//! text surgery that installs, updates and removes recipes.
//!
//! Every function states its result over `Seq<char>` models of the texts it
//! reads and writes; [`properties`], [`resolve`] and [`checksum_fix`] prove
//! the laws that tie the functions together (what parsing gives back of a
//! rendered block, what reading a block gives back of a write, that
//! installing twice is installing once, that installing and removing keep the
//! file's own lines, that removing undoes installing, that removing twice is
//! removing once, that a removed block is gone and the others parse as
//! before, that an install plan puts
//! every recipe after its dependencies and exists for every acyclic graph,
//! and that a checksum written by `lint --fix` reads back).
pub mod text;
pub mod target;
pub mod markers;
pub mod managed;
pub mod taps;
pub mod manifest;
pub mod sources;
pub mod install;
pub mod resolve;
pub mod lint;
pub mod checksum_fix;
pub mod diff;
pub mod index;
pub mod scaffold;
pub mod actions;
pub mod properties;
