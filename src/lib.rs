//! Finds cross-process object wrapper ("CPOW") uses in browser test harness
//! logs: lines are turned into events, events are grouped by test, each
//! captured stack is classified, and the results are assembled per test.

pub mod path;
pub mod tokenizer;
pub mod finder;
pub mod order;
pub mod report;
pub mod laws;
