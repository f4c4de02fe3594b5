//! A worst-case-optimal (generic) join evaluator over the function relations
//! of an e-graph, with primitive filters and seminaive evaluation by
//! timestamp ranges.
//!
//! A conjunctive query (relational atoms plus primitive filters) is compiled
//! to a variable-elimination program; per-atom prefix tries are built for the
//! chosen variable order; a multi-way intersection recursion enumerates every
//! satisfying variable assignment and collects it as one output tuple.

pub mod value;
pub mod primitive;
pub mod query;
pub mod egraph;
pub mod trie;
pub mod gj;
pub mod sorts;
