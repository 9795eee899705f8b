//! An arena of doubly-linked lists addressed by integer handles.
//!
//! Every node lives in one slot of a shared arena; a handle names the slot.
//! Links are stored as handles, with a reserved value meaning "no link", and
//! removed slots are recycled through a last-in, first-out free list.

mod container;
mod index;
mod laws;
mod model;

pub use container::{encode, ListContainer};
pub use index::{slot_of, Index, NO_LINK};
pub use laws::{
    lemma_freed_slot_reused_first, lemma_insert_after_keeps_order, lemma_links_symmetric,
    lemma_other_lists_untouched, lemma_remove_relinks, lemma_started_list_reads_value,
};
pub use model::ContainerView;
