//! Integration tests for the public API.

use posix_acl::Qualifier::{Group, GroupObj, Mask, Other, User, UserObj};
use posix_acl::{
    ACLEntry, ACLError, ErrorKind, PosixACL, ACL_EXECUTE, ACL_READ, ACL_RWX, ACL_WRITE,
};

fn full_fixture() -> PosixACL {
    let mut acl = PosixACL::new(0o640);
    acl.set(User(0), ACL_READ | ACL_WRITE);
    acl.set(Group(0), ACL_READ);
    // Using UID/GID 55555 that is likely undefined on Linux systems
    acl.set(User(55555), 0);
    acl.set(Group(55555), 0);
    acl.fix_mask();
    acl
}

#[test]
fn tests_new() {
    let acl = PosixACL::new(0o751);
    assert_eq!(acl.as_text(), "user::rwx\ngroup::r-x\nother::--x\n");
    assert!(acl.validate().is_ok());
}

#[test]
fn tests_empty() {
    let acl = PosixACL::empty();
    assert_eq!(acl.as_text(), "");
}

#[test]
fn tests_empty_mask() {
    let mut acl = PosixACL::empty();
    // UserObj and Other qualifiers do not affect mask.
    acl.set(UserObj, ACL_READ | ACL_WRITE);
    acl.set(Other, ACL_READ);
    acl.fix_mask();
    assert_eq!(acl.as_text(), "user::rw-\nmask::---\nother::r--\n");
}

#[test]
fn tests_other_mask() {
    let mut acl = PosixACL::empty();
    // GroupObj, User, Group qualifiers affect mask.
    acl.set(GroupObj, ACL_READ);
    acl.set(User(0), ACL_WRITE);
    acl.set(Group(0), ACL_EXECUTE);
    acl.fix_mask();
    assert_eq!(
        acl.as_text(),
        "user:root:-w-\ngroup::r--\ngroup:root:--x\nmask::rwx\n"
    );
}

#[test]
fn tests_validate_empty() {
    let mut acl = PosixACL::empty();
    let err = acl.validate().unwrap_err();
    assert!(matches!(err, ACLError::ValidationError(_)));
    assert_eq!(err.kind(), ErrorKind::InvalidData);
    assert_eq!(err.to_string(), "ACL failed validation");
    acl.fix_mask();
    assert_eq!(acl.validate().unwrap_err().kind(), ErrorKind::InvalidData);
}

#[test]
fn tests_validate_ok() {
    let mut acl = PosixACL::empty();
    acl.set(UserObj, ACL_READ | ACL_WRITE);
    acl.set(GroupObj, ACL_READ | ACL_WRITE);
    acl.set(Other, 0);
    assert!(acl.validate().is_ok());

    acl.set(User(0), ACL_READ);
    acl.set(Group(0), ACL_READ);
    assert!(matches!(
        acl.validate().unwrap_err(),
        ACLError::ValidationError(_)
    ));

    acl.fix_mask();
    assert!(acl.validate().is_ok());
}

/// .set() method overwrites previous entry if one exists.
#[test]
fn tests_set_overwrite() {
    let mut acl = PosixACL::empty();
    acl.set(UserObj, ACL_RWX);
    assert_eq!(acl.as_text(), "user::rwx\n");
    acl.set(UserObj, 0);
    assert_eq!(acl.as_text(), "user::---\n");
    acl.set(UserObj, ACL_READ);
    assert_eq!(acl.as_text(), "user::r--\n");
}

/// Test .get() method
#[test]
fn tests_get() {
    let acl = full_fixture();
    assert_eq!(acl.get(UserObj), Some(ACL_READ | ACL_WRITE));
    assert_eq!(acl.get(GroupObj), Some(ACL_READ));
    assert_eq!(acl.get(Group(55555)), Some(0));
    assert_eq!(acl.get(User(1234)), None);
    assert_eq!(acl.get(Mask), Some(ACL_READ | ACL_WRITE));
}

/// Test .remove() method
#[test]
fn tests_remove() {
    let mut acl = PosixACL::new(0o750);
    assert_eq!(acl.remove(UserObj), Some(ACL_RWX));
    assert_eq!(acl.remove(UserObj), None);

    assert_eq!(acl.remove(GroupObj), Some(ACL_READ | ACL_EXECUTE));
    assert_eq!(acl.remove(Other), Some(0));

    assert_eq!(acl.remove(User(1234)), None);
    acl.set(User(1234), ACL_RWX);
    assert_eq!(acl.remove(User(1234)), Some(ACL_RWX));

    assert_eq!(acl.entries(), []);
}

#[test]
fn tests_equality() {
    let mut acl = PosixACL::new(0o751);

    assert_eq!(acl, acl);
    assert_eq!(acl, PosixACL::new(0o751));
    assert_ne!(acl, PosixACL::new(0o741));

    acl.remove(Other);
    assert_ne!(acl, PosixACL::new(0o751));
}

#[test]
fn tests_iterate() {
    let acl = full_fixture();
    assert_eq!(
        acl.entries(),
        [
            ACLEntry {
                qual: UserObj,
                perm: 6
            },
            ACLEntry {
                qual: User(0),
                perm: 6
            },
            ACLEntry {
                qual: User(55555),
                perm: 0
            },
            ACLEntry {
                qual: GroupObj,
                perm: 4
            },
            ACLEntry {
                qual: Group(0),
                perm: 4
            },
            ACLEntry {
                qual: Group(55555),
                perm: 0
            },
            ACLEntry {
                qual: Mask,
                perm: 6
            },
            ACLEntry {
                qual: Other,
                perm: 0
            }
        ]
    );
}
