//! A caching and consistency core for a package dependency resolver.
//!
//! Two components make up the library. The registry distribution index
//! ([`registry_wheel_index::RegistryWheelIndex`]) lazily builds, per package
//! name, a map from configured index to the best locally cached distribution
//! of each version, filtered by platform compatibility and by the active
//! hash-verification policy. The fork-local index tracker
//! ([`fork_indexes::ForkIndexes`]) enforces that one resolution branch never
//! draws the same package from two different indexes.

pub mod bytes;
pub mod cache;
pub mod dist;
pub mod fork_indexes;
pub mod hashes;
pub mod name;
pub mod registry_wheel_index;
pub mod tags;
