//! A doubly linked list whose nodes live in a generational arena instead of
//! being individually heap-allocated and pointer-linked.
//!
//! Every node is addressed by a [`LinkedListIndex`]: an opaque handle pairing
//! a slot position with a generation counter. Freeing a slot bumps its
//! generation, so a handle taken before the slot was reused can never resolve
//! against the new occupant. Lookups through a stale handle deterministically
//! report absence instead of returning unrelated data.
//!
//! The list keeps `head`/`tail` handles and per-node `next`/`prev` handles
//! over the arena, and every structural operation is verified to preserve the
//! doubly-linked invariants: `head`/`tail`/emptiness agree, neighbour links
//! are mutually consistent, and no handle appears twice in a traversal.

pub mod arena;
pub mod linked_list;
pub mod walker;

pub use arena::Arena;
pub use arena::LinkedListIndex;
pub use arena::SecondaryMap;
pub use arena::SparseSecondaryMap;
pub use linked_list::LinkedList;
pub use linked_list::LinkedListItem;
pub use walker::LinkedListWalker;
pub use walker::Walker;
pub use walker::WalkerIter;
