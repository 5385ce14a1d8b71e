//! A small todo-list library: an ordered list of text items, each with a
//! completion flag, together with the textual storage format the list is
//! persisted in.  Every operation carries a contract that pins down the
//! resulting list, and the storage codec is proved to round-trip.

use vstd::prelude::*;

mod error;
pub mod codec;
pub mod text;
pub mod todo;

pub use error::TodoError;
pub use todo::Todo;
pub use todo::TodoItem;
pub use todo::TodoItemState;
pub use todo::TodoList;

verus! {

} // verus!
