use vstd::prelude::*;

mod fxmap;
pub mod input;
pub mod query;
pub mod query_stack;
pub mod revision;
pub mod runtime;

pub use input::{InputIndex, InputStorage, KeyIndex};
pub use query::{QueryCache, QueryContext, QueryType};
pub use query_stack::Cycle;
pub use runtime::Runtime;

verus! {

} // verus!
