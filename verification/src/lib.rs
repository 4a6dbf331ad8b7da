//! ttr: a keyboard-driven task launcher.
//!
//! The library holds the verified core: the task/group tree model, the
//! merge of several configuration sources into one tree, the interactive
//! navigation state machine, the execution-controller decisions, and the
//! pure path, environment and layout computations that the surrounding
//! program relies on.

pub mod grid;
pub mod iter;
pub mod merge;
pub mod model;
pub mod nav;
pub mod paths;
pub mod run;
