//! Verified building blocks of the diffutils family (diff, cmp, diff3, sdiff):
//! line splitting, the line-level edit script, and the output formats.

pub mod lines;
pub mod script;
pub mod text;
pub mod unicode;
pub mod utils;
pub mod params;
pub mod normal_diff;
pub mod ed_diff;
pub mod diff3;
pub mod diff3_regions;
pub mod diff3_output;
pub mod diff3_compute;
pub mod side_diff;
pub mod arg_parser;
pub mod unified_diff;
pub mod unified_patch;
pub mod context_diff;
pub mod context_patch;
pub mod engine;
pub mod cmp;
pub mod compare;
pub mod outcome;
pub mod bench;
pub mod params_sdiff;
pub mod diff3_params;
pub mod clap_args;
