//! Batch image sorting: a log of filing decisions over a list of discovered
//! images, the key bindings that name destination directories, the walk that
//! discovers images, and the shell script that carries the decisions out.

pub mod action;
pub mod bindings;
pub mod discovery;
pub mod path;
pub mod script;
pub mod state;
