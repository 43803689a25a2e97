use vstd::prelude::*;

pub mod text;
pub mod keyed;
pub mod model;
pub mod filter;
pub mod xpath;
pub mod xpath_laws;
pub mod attributes;
pub mod output;
pub mod config;
pub mod capture;
pub mod args;
pub mod backend;
pub mod run;
pub mod pattern;
pub mod py_config;
pub mod spy_cli;
pub mod win32;

verus! {
} // verus!
