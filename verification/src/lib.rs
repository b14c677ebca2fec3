//! A doubly-linked list with cursor-based traversal and editing.
//!
//! Nodes live in a slot arena inside the list, linked to their neighbours
//! by stable slot indices, and the whole structure is tied together by a
//! verified bidirectional-consistency invariant: the forward links and the
//! backward links always name the same order of nodes, `head` and `tail`
//! point at its two ends, and the length counts exactly the live nodes.

mod laws;
mod list;

pub use laws::appended;
pub use laws::lemma_backward_visits_reverse;
pub use laws::lemma_backward_walk;
pub use laws::lemma_boundaries_absorb;
pub use laws::lemma_forward_walk;
pub use laws::lemma_next_then_prev;
pub use laws::lemma_push_back_queue_order;
pub use laws::lemma_push_front_stack_order;
pub use laws::pos_after_nexts;
pub use laws::pos_after_prevs;
pub use laws::prepended;
pub use list::Cursor;
pub use list::CursorMut;
pub use list::LinkedList;
pub use list::Pos;
pub use list::lemma_live_slot_count;
pub use list::pos_after_next;
pub use list::pos_after_prev;
