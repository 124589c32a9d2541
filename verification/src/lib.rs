//! Two algorithms of a compiler back end, with proofs.
//!
//! [`sequentialize_register`] turns a batch of register copies that are meant
//! to run at once, as they arise at the joins of a control-flow graph or in
//! the shuffling of arguments before a call, into a list of copies that does
//! the same when its copies run one after another. It needs one spare
//! register, which it uses to break the cycles of the batch. The modules
//! [`semantics`] and [`batch`] say what the batch and the list do and which
//! batches are valid; [`machine`] states the algorithm step by step;
//! [`consistency`], [`cycles`], [`bound`] and [`order`] prove that what it
//! emits is equivalent to the batch, how long it is, and that it does not
//! depend on the order in which the batch is written down.
//!
//! [`dfs_search`] walks a control-flow graph depth first from its root and
//! numbers the nodes as it enters and leaves them. The module [`walk`] states
//! the walk and proves what the numbers are.

pub mod batch;
pub mod bound;
pub mod consistency;
pub mod cycles;
pub mod dfs;
mod least;
pub mod machine;
pub mod order;
pub mod register;
pub mod semantics;
pub mod sequentialize;
pub mod walk;

pub use batch::{validate_batch, BatchError};
pub use dfs::{dfs_search, CfgGraph, Node, VisitOrder};
pub use register::{Register, RegisterCopy};
pub use semantics::{execute_parallel, execute_sequential};
pub use sequentialize::{sequentialize_register, try_sequentialize_register};
