use vstd::prelude::*;

verus! {

/// The subject of a permission grant.
#[derive(Debug, PartialEq, Eq, Structural, Clone, Copy)]
pub enum Qualifier {
    /// Unrecognized/corrupt entries
    Undefined,
    /// Permissions for owner of the file
    UserObj,
    /// Permissions for owning group of the file
    GroupObj,
    /// Permissions for everyone else not covered by the ACL
    Other,
    /// Permissions for user with UID `u32` value
    User(u32),
    /// Permissions for group with GID `u32` value
    Group(u32),
    /// Auto-generated entry
    Mask,
}

impl Qualifier {
    /// The numeric id carried by a named `User` or `Group` entry, if any.
    pub fn uid(&self) -> (r: Option<u32>)
        ensures
            r == self.spec_uid(),
    {
        match self {
            Qualifier::User(uid) => Some(*uid),
            Qualifier::Group(uid) => Some(*uid),
            _ => None,
        }
    }

    /// The id of a named entry, `None` for the fixed subjects.
    pub open spec fn spec_uid(self) -> Option<u32> {
        match self {
            Qualifier::User(uid) => Some(uid),
            Qualifier::Group(uid) => Some(uid),
            _ => None,
        }
    }

    /// Position of this subject kind in the platform's canonical entry order:
    /// owning user, named users, owning group, named groups, mask, other.
    pub open spec fn rank(self) -> int {
        match self {
            Qualifier::Undefined => 0,
            Qualifier::UserObj => 1,
            Qualifier::User(_) => 2,
            Qualifier::GroupObj => 3,
            Qualifier::Group(_) => 4,
            Qualifier::Mask => 5,
            Qualifier::Other => 6,
        }
    }

    /// Tie-breaker within one subject kind: the numeric id of a named entry.
    pub open spec fn order_id(self) -> int {
        match self.spec_uid() {
            Some(uid) => uid as int,
            None => 0,
        }
    }

    /// The canonical strict order the platform keeps ACL entries in:
    /// by subject kind, and among named entries of one kind by id.
    pub open spec fn precedes(self, other: Qualifier) -> bool {
        ||| self.rank() < other.rank()
        ||| (self.rank() == other.rank() && self.order_id() < other.order_id())
    }

    /// Whether this subject is a named user or named group.
    pub open spec fn is_named(self) -> bool {
        self.spec_uid() is Some
    }

    /// Whether this subject's permissions enter the mask computation:
    /// the owning group and every named user and named group.
    pub open spec fn affects_mask(self) -> bool {
        self is GroupObj || self.is_named()
    }

    /// Exec mirror of [`Qualifier::precedes`].
    pub(crate) fn comes_before(&self, other: &Qualifier) -> (r: bool)
        ensures
            r == self.precedes(*other),
    {
        let a = self.exec_rank();
        let b = other.exec_rank();
        if a < b {
            true
        } else if a > b {
            false
        } else {
            let x = match self.uid() {
                Some(uid) => uid,
                None => 0,
            };
            let y = match other.uid() {
                Some(uid) => uid,
                None => 0,
            };
            x < y
        }
    }

    /// Exec mirror of [`Qualifier::affects_mask`].
    pub(crate) fn contributes_to_mask(&self) -> (r: bool)
        ensures
            r == self.affects_mask(),
    {
        match self {
            Qualifier::GroupObj => true,
            Qualifier::User(_) => true,
            Qualifier::Group(_) => true,
            _ => false,
        }
    }

    /// Exec mirror of [`Qualifier::rank`].
    fn exec_rank(&self) -> (r: u32)
        ensures
            r as int == self.rank(),
    {
        match self {
            Qualifier::Undefined => 0,
            Qualifier::UserObj => 1,
            Qualifier::User(_) => 2,
            Qualifier::GroupObj => 3,
            Qualifier::Group(_) => 4,
            Qualifier::Mask => 5,
            Qualifier::Other => 6,
        }
    }
}

/// The canonical order is total: two subjects that neither precede
/// one another are the same subject.
pub proof fn lemma_order_total(a: Qualifier, b: Qualifier)
    ensures
        a.precedes(b) || b.precedes(a) || a == b,
{
}

/// The canonical order is transitive.
pub proof fn lemma_order_trans(a: Qualifier, b: Qualifier, c: Qualifier)
    requires
        a.precedes(b),
        b.precedes(c),
    ensures
        a.precedes(c),
{
}

/// One (subject, permission bits) pair of an ACL;
/// returned from [`PosixACL::entries()`](crate::PosixACL::entries).
#[derive(Debug, PartialEq, Eq, Structural, Clone, Copy)]
pub struct ACLEntry {
    /// The subject of the grant.
    pub qual: Qualifier,
    /// The permission bits granted to it.
    pub perm: u32,
}

} // verus!
