//! Keeps hand-installed tools up to date: folders holding update scripts are
//! tracked, their scripts run on demand, and their output is followed line by
//! line. This crate holds the decisions; the terminal, the processes and the
//! files are handled by the program around it.
use vstd::prelude::*;

pub mod install;
pub mod text;
pub mod ui;

verus! {

} // verus!
