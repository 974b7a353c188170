//! Flattening of a Solidity-style source file: its import graph is resolved
//! and ordered, and the files are merged into one text without imports, with
//! each distinct license and pragma once at the top.

pub mod flatten;
pub mod graph;
pub mod merge;
pub mod order;
pub mod path;
pub mod resolve;
pub mod scan;
