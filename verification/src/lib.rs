//! The verified core of the `fiducia` command-line client for fiducia.cloud.
//!
//! | module | job |
//! | --- | --- |
//! | [`flags`] | the flags parser's output and the environment, to a validated [`flags::CliArgs`] |
//! | [`env_map`] | the environment snapshot and the layering of flags over it |
//! | [`regions`] | region normalization, selection and latency ranking |
//! | [`probe`] | what the latency probe requests and which probes count |
//! | [`commands`] | the command vocabulary, and each command's rules and rendering |
//! | [`output`] | human table versus `--json` |
//! | [`error`] | [`error::CliError`] and the exit codes it maps to |
//! | [`text`] | character-level text helpers |

pub mod commands;
pub mod env_map;
pub mod error;
pub mod flags;
pub mod output;
pub mod probe;
pub mod regions;
pub mod text;

pub use env_map::{env_value, get_env_map, EnvMap};
pub use error::CliError;
pub use output::{Format, Report};
pub use regions::{closest_index, normalize_regions, rank_order, select_regions, truthy, Region};

use vstd::prelude::*;

verus! {

/// The program name used in diagnostics.
pub const PROGRAM: &'static str = "fiducia";

} // verus!
