//! A small task-list library: an ordered store of tasks with sequential
//! identifiers, mutation operations that renumber the survivors after any
//! deletion, and a JSON codec for the on-disk document.

pub mod codec;
pub mod store;

pub use codec::ParseError;
pub use store::CompleteResult;
pub use store::RemoveResult;
pub use store::Task;
pub use store::TaskManager;
pub use store::TaskView;
pub use store::UncompleteResult;
