//! A fixed-capacity stack allocator ("arena cursor") together with a frame
//! stack for tagged values that may reference values stored below them.
//!
//! The caller supplies one block of storage of a fixed capacity; nothing here
//! ever allocates beyond it, grows it, or frees it. An arena cursor turns the
//! block into a bounds-checked stack with a single write position separating
//! committed slots from free ones. Two growth orientations share one
//! push/pop/peek contract. The frame stack groups committed slots into frames
//! delimited by size markers and maintains the ordering invariant that a value
//! may only reference data in frames strictly below its own.

pub mod rev_stack;
pub mod stack;
pub mod value;

pub use rev_stack::RevStackRef;
pub use stack::make_storage;
pub use stack::take_last;
pub use stack::take_last_mut;
pub use stack::StackRef;
pub use stack::Storage;
pub use value::swap_things;
pub use value::Value;
pub use value::ValueStack;
