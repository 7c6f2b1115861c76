//! Interact with POSIX file system Access Control Lists (ACL) through a
//! map-like interface: the key is a [`Qualifier`] (the subject of a grant)
//! and the value is a `u32` of permission bits.
//!
//! The in-memory ACL object, its mask recomputation, its structural
//! validation and its textual rendering are implemented and verified here;
//! reading an ACL from a path and writing one back go through the
//! platform's C library and live in the surrounding application layer.

use vstd::prelude::*;

mod acl;
mod entry;
mod error;
mod text;

pub use acl::PosixACL;
pub use entry::ACLEntry;
pub use entry::Qualifier;
pub use error::ACLError;
pub use error::ErrorKind;
pub use error::IoErrorDetail;
pub use error::ValidationErrorDetail;
pub use error::ACL_TYPE_ACCESS;
pub use error::ACL_TYPE_DEFAULT;
pub use error::FLAG_WRITE;

pub use acl::contains_qual;
pub use acl::entries_wf;
pub use acl::has_named;
pub use acl::mask_of;
pub use acl::spec_get;
pub use acl::spec_remove;
pub use acl::spec_set;
pub use acl::spec_set_all;
pub use acl::spec_valid;
pub use entry::lemma_order_total;
pub use entry::lemma_order_trans;
pub use error::flags_valid;
pub use error::kind_of_code;
pub use error::msg_prefix;
pub use error::op_display;
pub use error::op_word;
pub use error::type_word;
pub use text::acl_text;
pub use text::dec_digit;
pub use text::dec_text;
pub use text::line_text;
pub use text::perm_text;
pub use text::subject_text;
pub use text::tag_text;

pub use acl::lemma_fix_mask_idempotent;
pub use acl::lemma_get_contains;
pub use acl::lemma_get_set_other;
pub use acl::lemma_get_set_same;
pub use acl::lemma_mask_le7;
pub use acl::lemma_mask_set_mask;
pub use acl::lemma_remove_effect;
pub use acl::lemma_remove_wf;
pub use acl::lemma_set_all_id;
pub use acl::lemma_set_len;
pub use acl::lemma_set_overwrite;
pub use acl::lemma_set_wf;

verus! {

/// Read permission
pub const ACL_READ: u32 = 4;
/// Write permission
pub const ACL_WRITE: u32 = 2;
/// Execute permission
pub const ACL_EXECUTE: u32 = 1;
/// All possible permissions combined: `ACL_READ | ACL_WRITE | ACL_EXECUTE`
pub const ACL_RWX: u32 = 7;

} // verus!
