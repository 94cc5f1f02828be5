//! Modifying documents: in place on random-access [`Storage`], or while copying a stream.
//!
//! Every modification is a [`Patch`]: "replace bytes `start..end` with new content". The
//! content is encoded straight to its destination; its length is measured beforehand
//! with [`encoded_len`], so the tail of the document can be moved exactly once.
//!
//! - [`Editor`]: edits a document in [`Storage`] (a RAM buffer via [`MemStorage`], a file,
//!   flash, ...) in place: locate, measure, move the tail, write. Memory used: the parser
//!   plus a caller-provided scratch buffer of any size.
//! - [`copy_edit`]: single pass over a stream, writing the modified document to a
//!   [`Write`]r (replace / set / insert / push).
//! - [`plan`] / [`plan_remove`] + [`apply_copy`]: two passes over any [`Source`], for
//!   all operations including removal.
//!
//! In-place edits are not atomic: if interrupted (power loss) while the tail is being
//! moved, the document is corrupted. Use the copy functions to write a new file and swap
//! it in when that matters.
//!
//! Storages and writers that are taken by value are handed back, so that what became of
//! them can be stated.

mod apply;
mod editor;
mod plan;
mod storage;

pub use apply::{
    applicable, applied, applies, apply, apply_copy, comma, content, content_json, copy_edit,
    copy_of, copy_size, edited, followed, law_edit_local, law_ways_agree, least,
    lemma_new_name_utf8, makes_room, new_name, patched, pointer_name, room_requests, step_valid,
    writes_within,
};
pub use editor::{edits, looked, looked_and, Editor};
pub use plan::{
    at_token, at_value, change, change_of, child_spot, count, cut, cut_element, cut_item,
    cut_member, element_spot, end_spot, insert_spot, law_change_within, law_removal_within,
    member_spot, no_spot, one_less, plan, plan_remove, push_spot, removal, spot, try_member,
    value_spot, whole, Change, Op, Patch, Shape, Spot,
};
pub use storage::{
    but_reads, law_moved, law_overwritten, moved, moves, noted, noted_all, overwritten,
    storage_feed, within, CapacityError, MemStorage, Request, Storage, StorageSource,
};
