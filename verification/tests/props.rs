//! Tests for the documented behaviour of the in-memory ACL: the mode
//! constructor, mask recomputation, validation, the map-like update
//! operations, rebuild from an entry snapshot, and the error taxonomy.

use posix_acl::Qualifier::{Group, GroupObj, Mask, Other, User, UserObj};
use posix_acl::{
    ACLEntry, ACLError, ErrorKind, PosixACL, ACL_TYPE_ACCESS, ACL_TYPE_DEFAULT, FLAG_WRITE,
};

/// A mode constructor result holds exactly the three base entries, with
/// the three mode bit groups, and validates without a mask.
#[test]
fn mode_constructor_entries() {
    let acl = PosixACL::new(0o640);
    assert_eq!(
        acl.entries(),
        [
            ACLEntry {
                qual: UserObj,
                perm: 6
            },
            ACLEntry {
                qual: GroupObj,
                perm: 4
            },
            ACLEntry {
                qual: Other,
                perm: 0
            }
        ]
    );
    assert_eq!(acl.get(Mask), None);
    assert!(acl.validate().is_ok());
    // Bits above the low 9 are ignored.
    assert_eq!(PosixACL::new(0o7751).entries(), PosixACL::new(0o751).entries());
}

/// An empty ACL fails validation, and still fails after a mask is
/// computed for it: a bare zero mask is not enough.
#[test]
fn empty_stays_invalid() {
    let mut acl = PosixACL::empty();
    assert!(matches!(
        acl.validate().unwrap_err(),
        ACLError::ValidationError(_)
    ));
    acl.fix_mask();
    assert_eq!(acl.get(Mask), Some(0));
    assert!(matches!(
        acl.validate().unwrap_err(),
        ACLError::ValidationError(_)
    ));
}

/// Setting one subject twice keeps a single entry with the latest value;
/// the entry count does not grow.
#[test]
fn set_twice_keeps_one_entry() {
    let mut acl = PosixACL::new(0o600);
    acl.set(User(7), 5);
    let count = acl.entries().len();
    acl.set(User(7), 2);
    assert_eq!(acl.entries().len(), count);
    assert_eq!(acl.get(User(7)), Some(2));
    let named: Vec<ACLEntry> = acl
        .entries()
        .into_iter()
        .filter(|e| e.qual == User(7))
        .collect();
    assert_eq!(named.len(), 1);
}

/// Removing an absent subject returns nothing and changes nothing;
/// removing a present one returns its value and shrinks the count by one.
#[test]
fn remove_present_and_absent() {
    let mut acl = PosixACL::new(0o640);
    let before = acl.entries();
    assert_eq!(acl.remove(User(1234)), None);
    assert_eq!(acl.entries(), before);
    acl.set(User(1234), 3);
    let grown = acl.entries().len();
    assert_eq!(acl.remove(User(1234)), Some(3));
    assert_eq!(acl.entries().len(), grown - 1);
    assert_eq!(acl.entries(), before);
}

/// Recomputing the mask twice with no mutation in between gives the same
/// mask both times: the OR of GroupObj and all named entries.
#[test]
fn fix_mask_twice() {
    let mut acl = PosixACL::new(0o740);
    acl.set(User(1000), 1);
    acl.set(Group(1000), 2);
    acl.fix_mask();
    // GroupObj r--, User(1000) --x, Group(1000) -w-: OR is rwx.
    assert_eq!(acl.get(Mask), Some(7));
    let first = acl.entries();
    acl.fix_mask();
    assert_eq!(acl.get(Mask), Some(7));
    assert_eq!(acl.entries(), first);
}

/// The concrete mask scenario: r--, -w- and --x OR into rwx.
#[test]
fn mask_is_or_of_parts() {
    let mut acl = PosixACL::empty();
    acl.set(GroupObj, 4);
    acl.set(User(0), 2);
    acl.set(Group(0), 1);
    acl.fix_mask();
    assert_eq!(acl.get(Mask), Some(7));
}

/// An ACL rebuilt from its own entry snapshot is equal to the ACL the
/// snapshot came from.
#[test]
fn rebuild_from_entries() {
    let mut acl = PosixACL::new(0o640);
    acl.set(User(0), 6);
    acl.set(Group(55555), 0);
    acl.fix_mask();
    let copy = PosixACL::from_entries(&acl.entries());
    assert_eq!(acl, copy);
    assert_eq!(copy.entries(), acl.entries());
}

/// `from_entries` applies later duplicates over earlier ones and orders
/// subjects canonically, like repeated `set` calls would.
#[test]
fn rebuild_orders_and_overwrites() {
    let scrambled = vec![
        ACLEntry {
            qual: Other,
            perm: 0,
        },
        ACLEntry {
            qual: UserObj,
            perm: 5,
        },
        ACLEntry {
            qual: UserObj,
            perm: 6,
        },
        ACLEntry {
            qual: GroupObj,
            perm: 4,
        },
    ];
    let acl = PosixACL::from_entries(&scrambled);
    assert_eq!(acl, PosixACL::new(0o640));
}

/// A named subject that resolves to no account name is rendered in
/// decimal.
#[test]
fn unresolved_id_renders_in_decimal() {
    let mut acl = PosixACL::empty();
    acl.set(User(55555), 5);
    assert_eq!(acl.as_text(), "user:55555:r-x\n");
    acl.remove(User(55555));
    acl.set(Group(4294967295), 0);
    assert_eq!(acl.as_text(), "group:4294967295:---\n");
}

/// The numeric id of a named subject, and of the fixed subjects.
#[test]
fn qualifier_uid() {
    assert_eq!(User(42).uid(), Some(42));
    assert_eq!(Group(0).uid(), Some(0));
    assert_eq!(UserObj.uid(), None);
    assert_eq!(Mask.uid(), None);
}

/// An I/O error reports the context it was raised in through its message,
/// and its category comes from the OS error code.
#[test]
fn io_error_messages() {
    let read_access = ACLError::last_os_error(ACL_TYPE_ACCESS);
    assert!(matches!(read_access, ACLError::IoError(_)));
    assert!(read_access.to_string().starts_with("Error reading ACL: "));

    let write_default = ACLError::last_os_error(FLAG_WRITE | ACL_TYPE_DEFAULT);
    assert!(write_default
        .to_string()
        .starts_with("Error writing default ACL: "));

    let read_default = ACLError::last_os_error(ACL_TYPE_DEFAULT);
    assert!(read_default
        .to_string()
        .starts_with("Error reading default ACL: "));
}

/// The validation error's category and message.
#[test]
fn validation_error_kind() {
    let err = PosixACL::empty().validate().unwrap_err();
    assert_eq!(err.kind(), ErrorKind::InvalidData);
    assert_eq!(err.to_string(), "ACL failed validation");
}
