//! Enumeration of the 5-state, 2-symbol Turing machines relevant to the
//! Busy Beaver 5 problem: a typed machine model, a bounded-tape interpreter,
//! a decision procedure combining bounded simulation with structural pruning,
//! a tree-normal-form enumerator, and the pure core of the parallel driver
//! (task expansion, statistics, log lines, and the resume-file codec).

pub mod decider;
pub mod driver;
pub mod enumerate;
pub mod format;
pub mod normalize;
pub mod ordering;
pub mod resume;
pub mod run;
pub mod states;
