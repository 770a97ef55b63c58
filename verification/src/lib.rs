//! Execution core of an expression language for remapping structured event
//! records: a tagged value model, a static type lattice, typing environments,
//! single-record and batch execution contexts, and the block expression that
//! sequences sub-expressions with fail-fast semantics in both backends, plus
//! an ahead-of-time lowering of blocks to basic-block control flow. Beside
//! the engine stand the decision core of the unit-test sink that replays
//! fixture events through compiled programs, and the counter arithmetic of
//! the deduplication drop report.

pub mod value;
pub mod type_def;
pub mod env;
pub mod context;
pub mod expression;
pub mod codegen;
pub mod harness;
pub mod internal_events;

pub use value::{Value, Error, Resolved};
pub use type_def::TypeDef;
pub use env::{LocalEnv, ExternalEnv};
pub use context::{Context, BatchContext};
pub use expression::{Expr, Block, CompileError};
pub use codegen::{CodegenContext, Inst};
pub use harness::{UnitTestSinkCheck, UnitTestSinkResult, TestError, run_unit_test_sink};
pub use internal_events::DedupeEventsDropped;
