//! A Node package manager core: registry version selection, dependency
//! resolution, lock files and their importers, verified with Verus.
use vstd::prelude::*;

pub mod commands;
pub mod config;
pub mod fetch;
pub mod install;
pub mod lockfile;
pub mod lockfile_import;
pub mod manifest;
pub mod registry;
pub mod resolver;
pub mod strmap;
pub mod text;
pub mod value;

verus! {
} // verus!
