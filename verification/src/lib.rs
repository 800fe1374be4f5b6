//! A package manager's core for native libraries: given a manifest of
//! named, ranged version needs, it locates a satisfying artifact — locally
//! cached, remotely indexed, pre-built, or buildable from source —
//! materialises it, and installs it, recursively, across target platforms.
//!
//! This crate holds the verified engine: the version and range algebra, the
//! canonical file-name codec, the four-tier cache-and-registry fallback,
//! version-conflict collapsing, and the build-from-source escape hatch. All
//! input and output — file systems, networks, archives, subprocesses — is
//! performed by the surrounding application, which the engine directs
//! through explicit decisions and records.

pub mod error;
pub mod text;
pub mod version;
pub mod arch;
pub mod os;
pub mod distribution;
pub mod dependency;
pub mod config;
pub mod template;
pub mod artifactory;
pub mod cache;
pub mod manifest;
pub mod environment;
pub mod resolver;
pub mod recipe;
pub mod pack;
pub mod toolchain;
pub mod helper_types;
pub mod cli;
