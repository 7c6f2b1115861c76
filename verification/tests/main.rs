//! Integration tests for the public API (companion file).

use posix_acl::Qualifier::{Group, GroupObj, Mask, Other, User, UserObj};
use posix_acl::{ACLEntry, PosixACL, ACL_EXECUTE, ACL_READ, ACL_RWX, ACL_WRITE};

fn full_fixture() -> PosixACL {
    let mut acl = PosixACL::new(0o640);
    acl.set(User(0), ACL_READ | ACL_WRITE);
    acl.set(Group(0), ACL_READ);
    // Using UID/GID 55555 that is likely undefined on Linux systems
    acl.set(User(55555), 0);
    acl.set(Group(55555), 0);
    acl.fix_mask();
    acl
}

#[test]
fn main_empty() {
    let acl = PosixACL::empty();
    assert_eq!(acl.as_text(), "");
}

#[test]
fn main_empty_mask() {
    let mut acl = PosixACL::empty();
    // UserObj and Other qualifiers do not affect mask.
    acl.set(UserObj, ACL_READ | ACL_WRITE);
    acl.set(Other, ACL_READ);
    acl.fix_mask();
    assert_eq!(acl.as_text(), "user::rw-\nmask::---\nother::r--\n");
}

#[test]
fn main_other_mask() {
    let mut acl = PosixACL::empty();
    // GroupObj, User, Group qualifiers affect mask.
    acl.set(GroupObj, ACL_READ);
    acl.set(User(0), ACL_WRITE);
    acl.set(Group(0), ACL_EXECUTE);
    acl.fix_mask();
    assert_eq!(
        acl.as_text(),
        "user:root:-w-\ngroup::r--\ngroup:root:--x\nmask::rwx\n"
    );
}

/// .set() method overwrites previous entry if one exists.
#[test]
fn main_set_overwrite() {
    let mut acl = PosixACL::empty();
    acl.set(UserObj, ACL_RWX);
    assert_eq!(acl.as_text(), "user::rwx\n");
    acl.set(UserObj, 0);
    assert_eq!(acl.as_text(), "user::---\n");
    acl.set(UserObj, ACL_READ);
    assert_eq!(acl.as_text(), "user::r--\n");
}

/// Test .get() method
#[test]
fn main_get() {
    let acl = full_fixture();
    assert_eq!(acl.get(UserObj), Some(ACL_READ | ACL_WRITE));
    assert_eq!(acl.get(GroupObj), Some(ACL_READ));
    assert_eq!(acl.get(Group(55555)), Some(0));
    assert_eq!(acl.get(User(1234)), None);
    assert_eq!(acl.get(Mask), Some(ACL_READ | ACL_WRITE));
}

#[test]
fn main_iterate() {
    let acl = full_fixture();
    assert_eq!(
        acl.entries(),
        [
            ACLEntry {
                qual: UserObj,
                perm: 6
            },
            ACLEntry {
                qual: User(0),
                perm: 6
            },
            ACLEntry {
                qual: User(55555),
                perm: 0
            },
            ACLEntry {
                qual: GroupObj,
                perm: 4
            },
            ACLEntry {
                qual: Group(0),
                perm: 4
            },
            ACLEntry {
                qual: Group(55555),
                perm: 0
            },
            ACLEntry {
                qual: Mask,
                perm: 6
            },
            ACLEntry {
                qual: Other,
                perm: 0
            }
        ]
    );
}
