use vstd::prelude::*;

use crate::entry::{lemma_order_total, lemma_order_trans, ACLEntry, Qualifier};
use crate::error::ACLError;

verus! {

/// The entry sequences this library deals in are the ones the platform
/// object can hold: entries in canonical order with no duplicate subject,
/// no unrecognized subject, and only the three low permission bits set.
pub open spec fn entries_wf(s: Seq<ACLEntry>) -> bool {
    &&& forall|i: int, j: int|
        #![trigger s[i], s[j]]
        0 <= i < j < s.len() ==> s[i].qual.precedes(s[j].qual)
    &&& forall|i: int|
        0 <= i < s.len() ==> (#[trigger] s[i]).perm <= 7 && !(s[i].qual is Undefined)
}

/// The permission value stored for subject `q`, if `q` has an entry in `s`:
/// the value of the first entry carrying `q`.
pub open spec fn spec_get(s: Seq<ACLEntry>, q: Qualifier) -> Option<u32>
    decreases s.len(),
{
    if s.len() == 0 {
        None
    } else if s[0].qual == q {
        Some(s[0].perm)
    } else {
        spec_get(s.subrange(1, s.len() as int), q)
    }
}

/// Whether some entry of `s` carries subject `q`.
pub open spec fn contains_qual(s: Seq<ACLEntry>, q: Qualifier) -> bool {
    exists|i: int| 0 <= i < s.len() && (#[trigger] s[i]).qual == q
}

/// Whether `s` holds a named user or named group entry.
pub open spec fn has_named(s: Seq<ACLEntry>) -> bool {
    exists|i: int| 0 <= i < s.len() && (#[trigger] s[i]).qual.is_named()
}

/// The upsert `set` performs: overwrite the first entry carrying `q`,
/// or place a new entry at its canonical position.
pub open spec fn spec_set(s: Seq<ACLEntry>, q: Qualifier, p: u32) -> Seq<ACLEntry>
    decreases s.len(),
{
    let e = ACLEntry { qual: q, perm: p };
    if s.len() == 0 {
        seq![e]
    } else if q.precedes(s[0].qual) {
        seq![e] + s
    } else if s[0].qual == q {
        seq![e] + s.subrange(1, s.len() as int)
    } else {
        seq![s[0]] + spec_set(s.subrange(1, s.len() as int), q, p)
    }
}

/// The deletion `remove` performs: drop the first entry carrying `q`,
/// leave the rest untouched.
pub open spec fn spec_remove(s: Seq<ACLEntry>, q: Qualifier) -> Seq<ACLEntry>
    decreases s.len(),
{
    if s.len() == 0 {
        s
    } else if s[0].qual == q {
        s.subrange(1, s.len() as int)
    } else {
        seq![s[0]] + spec_remove(s.subrange(1, s.len() as int), q)
    }
}

/// The mask value the platform derives: the bitwise OR of the permissions
/// of the owning group and of every named user and named group entry.
pub open spec fn mask_of(s: Seq<ACLEntry>) -> u32
    decreases s.len(),
{
    if s.len() == 0 {
        0u32
    } else {
        (if s[0].qual.affects_mask() {
            s[0].perm
        } else {
            0u32
        }) | mask_of(s.subrange(1, s.len() as int))
    }
}

/// POSIX structural validity of an entry sequence that is already
/// well formed (no duplicates, recognized subjects): the three base
/// entries are present, and a mask entry is present as soon as any
/// named user or named group entry exists.
pub open spec fn spec_valid(s: Seq<ACLEntry>) -> bool {
    &&& contains_qual(s, Qualifier::UserObj)
    &&& contains_qual(s, Qualifier::GroupObj)
    &&& contains_qual(s, Qualifier::Other)
    &&& (has_named(s) ==> contains_qual(s, Qualifier::Mask))
}

/// Building an ACL by setting each entry of `s` in turn, first to last,
/// starting from an empty ACL.
pub open spec fn spec_set_all(s: Seq<ACLEntry>) -> Seq<ACLEntry>
    decreases s.len(),
{
    if s.len() == 0 {
        Seq::empty()
    } else {
        spec_set(spec_set_all(s.drop_last()), s.last().qual, s.last().perm)
    }
}

/// The ACL of a file.
///
/// Implements a "mapping-like" interface where the key is the `Qualifier`
/// enum and the value is a `u32` containing permission bits,
/// through the methods `get(qual) -> perms`, `set(qual, perms)` and
/// `remove(qual)`.
///
/// Entries are kept in the platform's canonical order with one entry per
/// subject, which is also the order `entries()` reports.
#[derive(Debug)]
pub struct PosixACL {
    entries: Vec<ACLEntry>,
}

impl View for PosixACL {
    type V = Seq<ACLEntry>;

    closed spec fn view(&self) -> Seq<ACLEntry> {
        self.entries@
    }
}

impl PosixACL {
    #[verifier::type_invariant]
    spec fn wf(self) -> bool {
        entries_wf(self.entries@)
    }

    /// Convert a file mode ("chmod" number) into a "minimal" ACL. This is
    /// the primary constructor. Note that modes are usually expressed in
    /// octal, e.g. `PosixACL::new(0o644)`.
    ///
    /// This creates the minimal required entries. By the POSIX ACL spec,
    /// every valid ACL must contain at least three entries: `UserObj`,
    /// `GroupObj` and `Other`, corresponding to file mode bits.
    ///
    /// Input bits higher than 9 (e.g. SUID flag, etc) are ignored.
    #[must_use]
    pub fn new(file_mode: u32) -> (acl: PosixACL)
        ensures
            acl@ == seq![
                ACLEntry { qual: Qualifier::UserObj, perm: (file_mode >> 6) & 7 },
                ACLEntry { qual: Qualifier::GroupObj, perm: (file_mode >> 3) & 7 },
                ACLEntry { qual: Qualifier::Other, perm: file_mode & 7 },
            ],
            spec_valid(acl@),
            entries_wf(acl@),
    {
        let mut acl = PosixACL::empty();
        let up = (file_mode >> 6) & crate::ACL_RWX;
        let gp = (file_mode >> 3) & crate::ACL_RWX;
        let op = file_mode & crate::ACL_RWX;
        proof {
            assert(((file_mode >> 6) & 7) <= 7 && ((file_mode >> 3) & 7) <= 7 && (file_mode & 7)
                <= 7) by (bit_vector);
        }
        let ghost e1 = ACLEntry { qual: Qualifier::UserObj, perm: up };
        let ghost e2 = ACLEntry { qual: Qualifier::GroupObj, perm: gp };
        let ghost e3 = ACLEntry { qual: Qualifier::Other, perm: op };
        acl.set(Qualifier::UserObj, up);
        proof {
            assert(acl@ =~= seq![e1]);
        }
        acl.set(Qualifier::GroupObj, gp);
        proof {
            assert(seq![e1].subrange(1, 1) =~= Seq::<ACLEntry>::empty());
            assert(spec_set(seq![e1].subrange(1, 1), Qualifier::GroupObj, gp) =~= seq![e2]);
            assert(acl@ =~= seq![e1, e2]);
        }
        acl.set(Qualifier::Other, op);
        proof {
            assert(seq![e1, e2].subrange(1, 2) =~= seq![e2]);
            assert(seq![e2].subrange(1, 1) =~= Seq::<ACLEntry>::empty());
            assert(spec_set(seq![e2].subrange(1, 1), Qualifier::Other, op) =~= seq![e3]);
            assert(spec_set(seq![e2], Qualifier::Other, op) =~= seq![e2, e3]);
            assert(acl@ =~= seq![e1, e2, e3]);
            assert(contains_qual(acl@, Qualifier::UserObj)) by {
                assert(acl@[0].qual == Qualifier::UserObj);
            }
            assert(contains_qual(acl@, Qualifier::GroupObj)) by {
                assert(acl@[1].qual == Qualifier::GroupObj);
            }
            assert(contains_qual(acl@, Qualifier::Other)) by {
                assert(acl@[2].qual == Qualifier::Other);
            }
            if has_named(acl@) {
                let j = choose|j: int| 0 <= j < acl@.len() && acl@[j].qual.is_named();
                assert(!acl@[j].qual.is_named());
            }
        }
        acl
    }

    /// Create an empty ACL. NB! Empty ACLs are NOT considered valid.
    pub fn empty() -> (acl: PosixACL)
        ensures
            acl@ == Seq::<ACLEntry>::empty(),
    {
        PosixACL { entries: Vec::new() }
    }

    /// Create an empty ACL with room for `capacity` entries.
    /// NB! Empty ACLs are NOT considered valid.
    pub fn with_capacity(capacity: usize) -> (acl: PosixACL)
        ensures
            acl@ == Seq::<ACLEntry>::empty(),
    {
        PosixACL { entries: Vec::with_capacity(capacity) }
    }

    /// Set the permission of `qual` to `perm`. If this `qual` already
    /// exists, it is updated, otherwise a new one is added at its canonical
    /// position.
    ///
    /// `perm` must be a combination of the `ACL_` constants, combined by
    /// binary OR; `qual` must be a recognized subject, not `Undefined`.
    pub fn set(&mut self, qual: Qualifier, perm: u32)
        requires
            !(qual is Undefined),
            perm <= 7,
        ensures
            final(self)@ == spec_set(old(self)@, qual, perm),
            entries_wf(final(self)@),
    {
        proof {
            use_type_invariant(&*self);
        }
        let ghost s = self@;
        let e = ACLEntry { qual, perm };
        let n = self.entries.len();
        let mut out: Vec<ACLEntry> = Vec::new();
        let mut placed = false;
        let mut i: usize = 0;
        proof {
            assert(s.subrange(0, n as int) =~= s);
        }
        while i < n
            invariant
                n == self.entries.len(),
                s == self@,
                i <= n,
                e == (ACLEntry { qual, perm }),
                placed ==> spec_set(s, qual, perm) == out@ + s.subrange(i as int, n as int),
                !placed ==> spec_set(s, qual, perm) == out@ + spec_set(
                    s.subrange(i as int, n as int),
                    qual,
                    perm,
                ),
            decreases n - i,
        {
            let cur = self.entries[i];
            proof {
                lemma_set_step(s, i as int, qual, perm);
            }
            if placed {
                out.push(cur);
                proof {
                    assert(out@ + s.subrange(i as int + 1, n as int) =~= (out@.drop_last()
                        + s.subrange(i as int, n as int)));
                }
            } else if qual.comes_before(&cur.qual) {
                out.push(e);
                out.push(cur);
                placed = true;
                proof {
                    assert(out@ + s.subrange(i as int + 1, n as int) =~= (out@.drop_last().drop_last()
                        + (seq![e] + s.subrange(i as int, n as int))));
                }
            } else if cur.qual == qual {
                out.push(e);
                placed = true;
                proof {
                    assert(out@ + s.subrange(i as int + 1, n as int) =~= (out@.drop_last() + (seq![e]
                        + s.subrange(i as int + 1, n as int))));
                }
            } else {
                out.push(cur);
                proof {
                    assert(out@ + spec_set(s.subrange(i as int + 1, n as int), qual, perm) =~= (
                    out@.drop_last() + (seq![cur] + spec_set(
                        s.subrange(i as int + 1, n as int),
                        qual,
                        perm,
                    ))));
                }
            }
            i = i + 1;
        }
        proof {
            assert(s.subrange(n as int, n as int) =~= Seq::<ACLEntry>::empty());
        }
        if !placed {
            out.push(e);
            proof {
                assert(out@ =~= out@.drop_last() + seq![e]);
                assert(out@.drop_last() + seq![e] =~= out@.drop_last() + spec_set(
                    Seq::<ACLEntry>::empty(),
                    qual,
                    perm,
                ));
            }
        }
        proof {
            assert(out@ =~= spec_set(s, qual, perm));
            lemma_set_wf(s, qual, perm);
        }
        self.entries = out;
    }

    /// Remove entry with matching `qual`. If found, returns the matching
    /// `perm`, otherwise `None`.
    pub fn remove(&mut self, qual: Qualifier) -> (r: Option<u32>)
        ensures
            r == spec_get(old(self)@, qual),
            final(self)@ == spec_remove(old(self)@, qual),
            entries_wf(final(self)@),
    {
        proof {
            use_type_invariant(&*self);
        }
        let ghost s = self@;
        let n = self.entries.len();
        let mut out: Vec<ACLEntry> = Vec::new();
        let mut found: Option<u32> = None;
        let mut i: usize = 0;
        proof {
            assert(s.subrange(0, n as int) =~= s);
        }
        while i < n
            invariant
                n == self.entries.len(),
                s == self@,
                i <= n,
                found is Some ==> spec_remove(s, qual) == out@ + s.subrange(i as int, n as int)
                    && spec_get(s, qual) == found,
                found is None ==> spec_remove(s, qual) == out@ + spec_remove(
                    s.subrange(i as int, n as int),
                    qual,
                ) && spec_get(s, qual) == spec_get(s.subrange(i as int, n as int), qual),
            decreases n - i,
        {
            let cur = self.entries[i];
            proof {
                lemma_remove_step(s, i as int, qual);
                lemma_get_step(s, i as int, qual);
            }
            if found.is_some() {
                out.push(cur);
                proof {
                    assert(out@ + s.subrange(i as int + 1, n as int) =~= (out@.drop_last()
                        + s.subrange(i as int, n as int)));
                }
            } else if cur.qual == qual {
                found = Some(cur.perm);
            } else {
                out.push(cur);
                proof {
                    assert(out@ + spec_remove(s.subrange(i as int + 1, n as int), qual) =~= (
                    out@.drop_last() + (seq![cur] + spec_remove(
                        s.subrange(i as int + 1, n as int),
                        qual,
                    ))));
                }
            }
            i = i + 1;
        }
        proof {
            assert(s.subrange(n as int, n as int) =~= Seq::<ACLEntry>::empty());
            assert(out@ =~= spec_remove(s, qual));
            lemma_remove_wf(s, qual);
        }
        self.entries = out;
        found
    }

    /// Re-calculate the `Qualifier::Mask` entry: its permissions become
    /// the bitwise OR of the permissions of the owning group and of every
    /// named user and named group entry.
    ///
    /// Usually there is no need to call this directly, as this is done
    /// when an ACL is persisted.
    pub fn fix_mask(&mut self)
        ensures
            final(self)@ == spec_set(old(self)@, Qualifier::Mask, mask_of(old(self)@)),
            entries_wf(final(self)@),
    {
        proof {
            use_type_invariant(&*self);
        }
        let ghost s = self@;
        let n = self.entries.len();
        let mut mask: u32 = 0;
        let mut i: usize = 0;
        proof {
            assert(s.subrange(0, n as int) =~= s);
            lemma_or_zero(mask_of(s));
        }
        while i < n
            invariant
                n == self.entries.len(),
                s == self@,
                i <= n,
                entries_wf(s),
                mask_of(s) == mask | mask_of(s.subrange(i as int, n as int)),
            decreases n - i,
        {
            let cur = self.entries[i];
            proof {
                lemma_mask_step(s, i as int);
            }
            if cur.qual.contributes_to_mask() {
                proof {
                    lemma_or_assoc(mask, cur.perm, mask_of(s.subrange(i as int + 1, n as int)));
                }
                mask = mask | cur.perm;
            } else {
                proof {
                    lemma_or_zero(mask_of(s.subrange(i as int + 1, n as int)));
                }
            }
            i = i + 1;
        }
        proof {
            assert(s.subrange(n as int, n as int) =~= Seq::<ACLEntry>::empty());
            lemma_or_zero(mask);
            assert(mask == mask_of(s));
            lemma_mask_le7(s);
        }
        self.set(Qualifier::Mask, mask);
    }

    /// Whether the ACL holds any named user or named group entry.
    fn has_named_entry(&self) -> (r: bool)
        ensures
            r == has_named(self@),
    {
        let ghost s = self@;
        let n = self.entries.len();
        let mut i: usize = 0;
        while i < n
            invariant
                n == self.entries.len(),
                s == self@,
                i <= n,
                forall|j: int| 0 <= j < i ==> !(#[trigger] s[j]).qual.is_named(),
            decreases n - i,
        {
            let cur = self.entries[i];
            if cur.qual.uid().is_some() {
                proof {
                    assert(s[i as int].qual.is_named());
                }
                return true;
            }
            i = i + 1;
        }
        proof {
            if has_named(s) {
                let j = choose|j: int| 0 <= j < s.len() && s[j].qual.is_named();
                assert(!s[j].qual.is_named());
            }
        }
        false
    }

    /// Perform the structural validation POSIX asks of an access ACL:
    /// `UserObj`, `GroupObj` and `Other` entries must be present, and a
    /// `Mask` entry must be present as soon as any named user or named
    /// group entry exists. (Uniqueness of subjects this library upholds by
    /// construction.)
    ///
    /// If you didn't take special care of the `Mask` entry, it may be
    /// necessary to call `fix_mask()` prior to `validate()`.
    ///
    /// # Errors
    /// * `ACLError::ValidationError`: The ACL failed validation.
    pub fn validate(&self) -> (r: Result<(), ACLError>)
        ensures
            r is Ok <==> spec_valid(self@),
            r is Err ==> r->Err_0 is ValidationError,
    {
        proof {
            lemma_get_contains(self@, Qualifier::UserObj);
            lemma_get_contains(self@, Qualifier::GroupObj);
            lemma_get_contains(self@, Qualifier::Other);
            lemma_get_contains(self@, Qualifier::Mask);
        }
        let ok = self.get(Qualifier::UserObj).is_some() && self.get(Qualifier::GroupObj).is_some()
            && self.get(Qualifier::Other).is_some() && (!self.has_named_entry() || self.get(
            Qualifier::Mask,
        ).is_some());
        if ok {
            Ok(())
        } else {
            Err(ACLError::validation_error())
        }
    }

    /// How many entries the ACL holds.
    pub(crate) fn entry_count(&self) -> (n: usize)
        ensures
            n == self@.len(),
    {
        self.entries.len()
    }

    /// The entry at one position of the canonical order.
    pub(crate) fn entry_at(&self, i: usize) -> (e: ACLEntry)
        requires
            i < self@.len(),
        ensures
            e == self@[i as int],
    {
        self.entries[i]
    }

    /// Get all `ACLEntry` items, in the canonical order the ACL keeps
    /// them in: a materialized snapshot, detached from the ACL itself.
    pub fn entries(&self) -> (r: Vec<ACLEntry>)
        ensures
            r@ == self@,
            entries_wf(self@),
    {
        proof {
            use_type_invariant(self);
        }
        let n = self.entries.len();
        let mut r: Vec<ACLEntry> = Vec::new();
        let mut i: usize = 0;
        while i < n
            invariant
                n == self.entries.len(),
                i <= n,
                r@ == self@.subrange(0, i as int),
            decreases n - i,
        {
            let cur = self.entries[i];
            r.push(cur);
            proof {
                assert(r@ =~= self@.subrange(0, i as int + 1));
            }
            i = i + 1;
        }
        proof {
            assert(r@ =~= self@);
        }
        r
    }

    /// Build an ACL that holds the given entries: each is set in turn, so
    /// a later duplicate subject overwrites an earlier one, and a sequence
    /// that is already in canonical order with unique subjects is
    /// reproduced exactly.
    pub fn from_entries(entries: &Vec<ACLEntry>) -> (acl: PosixACL)
        requires
            forall|i: int|
                0 <= i < entries@.len() ==> (#[trigger] entries@[i]).perm <= 7 && !(
                entries@[i].qual is Undefined),
        ensures
            acl@ == spec_set_all(entries@),
            entries_wf(entries@) ==> acl@ == entries@,
    {
        let n = entries.len();
        let mut acl = PosixACL::empty();
        let mut i: usize = 0;
        proof {
            assert(entries@.subrange(0, 0) =~= Seq::<ACLEntry>::empty());
        }
        while i < n
            invariant
                n == entries@.len(),
                i <= n,
                forall|j: int|
                    0 <= j < entries@.len() ==> (#[trigger] entries@[j]).perm <= 7 && !(
                    entries@[j].qual is Undefined),
                acl@ == spec_set_all(entries@.subrange(0, i as int)),
            decreases n - i,
        {
            let cur = entries[i];
            acl.set(cur.qual, cur.perm);
            proof {
                let pre = entries@.subrange(0, i as int);
                let post = entries@.subrange(0, i as int + 1);
                assert(post.drop_last() =~= pre);
                assert(post.last() == cur);
            }
            i = i + 1;
        }
        proof {
            assert(entries@.subrange(0, n as int) =~= entries@);
            if entries_wf(entries@) {
                lemma_set_all_id(entries@);
            }
        }
        acl
    }

    /// Get the current `perm` value of `qual`, if any.
    #[must_use]
    pub fn get(&self, qual: Qualifier) -> (r: Option<u32>)
        ensures
            r == spec_get(self@, qual),
    {
        let n = self.entries.len();
        let mut i: usize = 0;
        proof {
            assert(self@.subrange(0, n as int) =~= self@);
        }
        while i < n
            invariant
                n == self.entries.len(),
                i <= n,
                spec_get(self@, qual) == spec_get(self@.subrange(i as int, n as int), qual),
            decreases n - i,
        {
            let e = self.entries[i];
            proof {
                lemma_get_step(self@, i as int, qual);
            }
            if e.qual == qual {
                return Some(e.perm);
            }
            i = i + 1;
        }
        proof {
            assert(self@.subrange(n as int, n as int) =~= Seq::<ACLEntry>::empty());
        }
        None
    }
}

/// Two ACLs are equal exactly when their entry sequences are equal; with
/// one entry per subject in canonical order, that is equality of the
/// stored (subject, permission) pairs.
impl PartialEq for PosixACL {
    fn eq(&self, other: &PosixACL) -> (r: bool) {
        let n = self.entries.len();
        if n != other.entries.len() {
            return false;
        }
        let mut i: usize = 0;
        while i < n
            invariant
                n == self.entries.len(),
                n == other.entries.len(),
                i <= n,
                forall|j: int| 0 <= j < i ==> self@[j] == other@[j],
            decreases n - i,
        {
            let a = self.entries[i];
            let b = other.entries[i];
            if !(a == b) {
                return false;
            }
            i = i + 1;
        }
        proof {
            assert(self@ =~= other@);
        }
        true
    }
}

impl vstd::std_specs::cmp::PartialEqSpecImpl for PosixACL {
    open spec fn obeys_eq_spec() -> bool {
        true
    }

    open spec fn eq_spec(&self, other: &PosixACL) -> bool {
        self@ == other@
    }
}

/// A suffix of a well-formed entry sequence is well formed.
proof fn lemma_wf_sub(s: Seq<ACLEntry>, i: int)
    requires
        entries_wf(s),
        0 <= i <= s.len(),
    ensures
        entries_wf(s.subrange(i, s.len() as int)),
{
    let t = s.subrange(i, s.len() as int);
    assert forall|a: int| 0 <= a < t.len() implies (#[trigger] t[a]).perm <= 7 && !(t[a].qual
        is Undefined) by {
        assert(t[a] == s[i + a]);
    }
    assert forall|a: int, b: int| #![trigger t[a], t[b]] 0 <= a < b < t.len() implies t[a].qual.precedes(
        t[b].qual,
    ) by {
        assert(t[a] == s[i + a]);
        assert(t[b] == s[i + b]);
    }
}

/// `set` keeps the entry sequence well formed, and every entry of the
/// result is either the new entry or one of the old ones.
pub proof fn lemma_set_wf(s: Seq<ACLEntry>, q: Qualifier, p: u32)
    requires
        entries_wf(s),
        !(q is Undefined),
        p <= 7,
    ensures
        entries_wf(spec_set(s, q, p)),
        forall|j: int|
            0 <= j < spec_set(s, q, p).len() ==> #[trigger] spec_set(s, q, p)[j] == (ACLEntry {
                qual: q,
                perm: p,
            }) || s.contains(spec_set(s, q, p)[j]),
    decreases s.len(),
{
    let e = ACLEntry { qual: q, perm: p };
    let r = spec_set(s, q, p);
    if s.len() == 0 {
        assert(r =~= seq![e]);
    } else if q.precedes(s[0].qual) {
        assert(r =~= seq![e] + s);
        assert forall|i: int, j: int| #![trigger r[i], r[j]] 0 <= i < j < r.len() implies r[i].qual.precedes(
            r[j].qual,
        ) by {
            if i == 0 && j > 1 {
                lemma_order_trans(q, s[0].qual, s[j - 1].qual);
            }
        }
        assert forall|j: int| 0 <= j < r.len() implies #[trigger] r[j] == e || s.contains(
            r[j],
        ) by {
            if j > 0 {
                assert(s[j - 1] == r[j]);
            }
        }
    } else if s[0].qual == q {
        let tail = s.subrange(1, s.len() as int);
        assert(r =~= seq![e] + tail);
        assert forall|i: int, j: int| #![trigger r[i], r[j]] 0 <= i < j < r.len() implies r[i].qual.precedes(
            r[j].qual,
        ) by {
            if i == 0 {
                assert(r[j] == s[j]);
            } else {
                assert(r[i] == s[i]);
                assert(r[j] == s[j]);
            }
        }
        assert forall|j: int| 0 <= j < r.len() implies #[trigger] r[j] == e || s.contains(
            r[j],
        ) by {
            if j > 0 {
                assert(s[j] == r[j]);
            }
        }
    } else {
        lemma_order_total(q, s[0].qual);
        let tail = s.subrange(1, s.len() as int);
        lemma_wf_sub(s, 1);
        lemma_set_wf(tail, q, p);
        let rt = spec_set(tail, q, p);
        assert(r =~= seq![s[0]] + rt);
        assert forall|j: int| 0 <= j < r.len() implies #[trigger] r[j] == e || s.contains(
            r[j],
        ) by {
            if j == 0 {
                assert(s[0] == r[0]);
            } else {
                assert(r[j] == rt[j - 1]);
                if rt[j - 1] != e {
                    assert(tail.contains(rt[j - 1]));
                    let k = choose|k: int| 0 <= k < tail.len() && tail[k] == rt[j - 1];
                    assert(s[k + 1] == rt[j - 1]);
                }
            }
        }
        assert forall|i: int, j: int| #![trigger r[i], r[j]] 0 <= i < j < r.len() implies r[i].qual.precedes(
            r[j].qual,
        ) by {
            if i == 0 {
                assert(r[j] == rt[j - 1]);
                if rt[j - 1] == e {
                } else {
                    assert(tail.contains(rt[j - 1]));
                    let k = choose|k: int| 0 <= k < tail.len() && tail[k] == rt[j - 1];
                    assert(tail[k] == s[k + 1]);
                }
            } else {
                assert(r[i] == rt[i - 1]);
                assert(r[j] == rt[j - 1]);
            }
        }
        assert forall|j: int| 0 <= j < r.len() implies (#[trigger] r[j]).perm <= 7 && !(r[j].qual
            is Undefined) by {
            if j > 0 {
                assert(r[j] == rt[j - 1]);
            }
        }
    }
}

/// How many entries `set` leaves behind: the count grows by one exactly
/// when the subject was absent.
pub proof fn lemma_set_len(s: Seq<ACLEntry>, q: Qualifier, p: u32)
    requires
        entries_wf(s),
    ensures
        spec_set(s, q, p).len() == if contains_qual(s, q) {
            s.len()
        } else {
            s.len() + 1
        },
    decreases s.len(),
{
    let r = spec_set(s, q, p);
    if s.len() == 0 {
    } else if q.precedes(s[0].qual) {
        assert forall|i: int| 0 <= i < s.len() && (#[trigger] s[i]).qual == q implies false by {
            if i > 0 {
                lemma_order_trans(q, s[0].qual, s[i].qual);
            }
            assert(!q.precedes(q));
        }
        assert(!contains_qual(s, q));
    } else if s[0].qual == q {
        assert(contains_qual(s, q));
    } else {
        let tail = s.subrange(1, s.len() as int);
        lemma_wf_sub(s, 1);
        lemma_set_len(tail, q, p);
        if contains_qual(tail, q) {
            let i = choose|i: int| 0 <= i < tail.len() && tail[i].qual == q;
            assert(s[i + 1] == tail[i]);
            assert(contains_qual(s, q));
        }
        if contains_qual(s, q) {
            let i = choose|i: int| 0 <= i < s.len() && s[i].qual == q;
            assert(tail[i - 1] == s[i]);
            assert(contains_qual(tail, q));
        }
    }
}

/// Unfolding steps for `spec_set` along a scan.
proof fn lemma_set_step(s: Seq<ACLEntry>, i: int, q: Qualifier, p: u32)
    requires
        0 <= i < s.len(),
    ensures
        q.precedes(s[i].qual) ==> spec_set(s.subrange(i, s.len() as int), q, p) == seq![
            ACLEntry { qual: q, perm: p },
        ] + s.subrange(i, s.len() as int),
        s[i].qual == q ==> spec_set(s.subrange(i, s.len() as int), q, p) == seq![
            ACLEntry { qual: q, perm: p },
        ] + s.subrange(i + 1, s.len() as int),
        !q.precedes(s[i].qual) && s[i].qual != q ==> spec_set(s.subrange(i, s.len() as int), q, p)
            == seq![s[i]] + spec_set(s.subrange(i + 1, s.len() as int), q, p),
{
    let rest = s.subrange(i, s.len() as int);
    assert(rest[0] == s[i]);
    assert(rest.subrange(1, rest.len() as int) =~= s.subrange(i + 1, s.len() as int));
}

/// `remove` keeps the entry sequence well formed, and every entry of the
/// result is one of the old ones.
pub proof fn lemma_remove_wf(s: Seq<ACLEntry>, q: Qualifier)
    requires
        entries_wf(s),
    ensures
        entries_wf(spec_remove(s, q)),
        forall|j: int|
            0 <= j < spec_remove(s, q).len() ==> s.contains(#[trigger] spec_remove(s, q)[j]),
    decreases s.len(),
{
    let r = spec_remove(s, q);
    if s.len() == 0 {
    } else if s[0].qual == q {
        lemma_wf_sub(s, 1);
        assert forall|j: int| 0 <= j < r.len() implies s.contains(#[trigger] r[j]) by {
            assert(s[j + 1] == r[j]);
        }
    } else {
        let tail = s.subrange(1, s.len() as int);
        lemma_wf_sub(s, 1);
        lemma_remove_wf(tail, q);
        let rt = spec_remove(tail, q);
        assert(r =~= seq![s[0]] + rt);
        assert forall|j: int| 0 <= j < r.len() implies s.contains(#[trigger] r[j]) by {
            if j == 0 {
                assert(s[0] == r[0]);
            } else {
                assert(r[j] == rt[j - 1]);
                assert(tail.contains(rt[j - 1]));
                let k = choose|k: int| 0 <= k < tail.len() && tail[k] == rt[j - 1];
                assert(s[k + 1] == rt[j - 1]);
            }
        }
        assert forall|i: int, j: int| #![trigger r[i], r[j]] 0 <= i < j < r.len() implies r[i].qual.precedes(
            r[j].qual,
        ) by {
            if i == 0 {
                assert(r[j] == rt[j - 1]);
                assert(tail.contains(rt[j - 1]));
                let k = choose|k: int| 0 <= k < tail.len() && tail[k] == rt[j - 1];
                assert(tail[k] == s[k + 1]);
            } else {
                assert(r[i] == rt[i - 1]);
                assert(r[j] == rt[j - 1]);
            }
        }
        assert forall|j: int| 0 <= j < r.len() implies (#[trigger] r[j]).perm <= 7 && !(r[j].qual
            is Undefined) by {
            if j > 0 {
                assert(r[j] == rt[j - 1]);
            }
        }
    }
}

/// What `remove` does to the entry count and what it hands back: nothing
/// changes and nothing is returned for an absent subject; a present
/// subject comes back with its value and the count falls by exactly one.
pub proof fn lemma_remove_effect(s: Seq<ACLEntry>, q: Qualifier)
    ensures
        !contains_qual(s, q) ==> spec_remove(s, q) == s && spec_get(s, q) is None,
        contains_qual(s, q) ==> spec_remove(s, q).len() == s.len() - 1 && spec_get(s, q) is Some,
    decreases s.len(),
{
    lemma_get_contains(s, q);
    if s.len() == 0 {
    } else if s[0].qual == q {
        assert(contains_qual(s, q));
    } else {
        let tail = s.subrange(1, s.len() as int);
        lemma_remove_effect(tail, q);
        if contains_qual(tail, q) {
            let i = choose|i: int| 0 <= i < tail.len() && tail[i].qual == q;
            assert(s[i + 1] == tail[i]);
            assert(contains_qual(s, q));
        }
        if contains_qual(s, q) {
            let i = choose|i: int| 0 <= i < s.len() && s[i].qual == q;
            assert(tail[i - 1] == s[i]);
            assert(contains_qual(tail, q));
        } else {
            assert(spec_remove(s, q) =~= seq![s[0]] + tail);
            assert(seq![s[0]] + tail =~= s);
        }
    }
}

/// A subject has a stored value exactly when some entry carries it.
pub proof fn lemma_get_contains(s: Seq<ACLEntry>, q: Qualifier)
    ensures
        spec_get(s, q) is Some <==> contains_qual(s, q),
    decreases s.len(),
{
    if s.len() == 0 {
    } else if s[0].qual == q {
        assert(contains_qual(s, q));
    } else {
        let tail = s.subrange(1, s.len() as int);
        lemma_get_contains(tail, q);
        if contains_qual(tail, q) {
            let i = choose|i: int| 0 <= i < tail.len() && tail[i].qual == q;
            assert(s[i + 1] == tail[i]);
            assert(contains_qual(s, q));
        }
        if contains_qual(s, q) {
            let i = choose|i: int| 0 <= i < s.len() && s[i].qual == q;
            assert(tail[i - 1] == s[i]);
            assert(contains_qual(tail, q));
        }
    }
}

/// Unfolding steps for `spec_remove` along a scan.
proof fn lemma_remove_step(s: Seq<ACLEntry>, i: int, q: Qualifier)
    requires
        0 <= i < s.len(),
    ensures
        s[i].qual == q ==> spec_remove(s.subrange(i, s.len() as int), q) == s.subrange(
            i + 1,
            s.len() as int,
        ),
        s[i].qual != q ==> spec_remove(s.subrange(i, s.len() as int), q) == seq![s[i]]
            + spec_remove(s.subrange(i + 1, s.len() as int), q),
{
    let rest = s.subrange(i, s.len() as int);
    assert(rest[0] == s[i]);
    assert(rest.subrange(1, rest.len() as int) =~= s.subrange(i + 1, s.len() as int));
}

/// Unfolding step for `mask_of` along a scan.
proof fn lemma_mask_step(s: Seq<ACLEntry>, i: int)
    requires
        0 <= i < s.len(),
    ensures
        mask_of(s.subrange(i, s.len() as int)) == (if s[i].qual.affects_mask() {
            s[i].perm
        } else {
            0u32
        }) | mask_of(s.subrange(i + 1, s.len() as int)),
{
    let rest = s.subrange(i, s.len() as int);
    assert(rest[0] == s[i]);
    assert(rest.subrange(1, rest.len() as int) =~= s.subrange(i + 1, s.len() as int));
}

/// Bitwise OR with zero changes nothing.
proof fn lemma_or_zero(a: u32)
    ensures
        a | 0 == a,
        0 | a == a,
{
    assert(a | 0 == a) by (bit_vector);
    assert(0 | a == a) by (bit_vector);
}

/// Bitwise OR is associative.
proof fn lemma_or_assoc(a: u32, b: u32, c: u32)
    ensures
        (a | b) | c == a | (b | c),
{
    assert((a | b) | c == a | (b | c)) by (bit_vector);
}

/// Bitwise OR keeps values inside the three permission bits.
proof fn lemma_or_le7(a: u32, b: u32)
    requires
        a <= 7,
        b <= 7,
    ensures
        a | b <= 7,
{
    assert(a <= 7 && b <= 7 ==> (a | b) <= 7) by (bit_vector);
}

/// The derived mask is itself a three-bit permission value.
pub proof fn lemma_mask_le7(s: Seq<ACLEntry>)
    requires
        entries_wf(s),
    ensures
        mask_of(s) <= 7,
    decreases s.len(),
{
    if s.len() == 0 {
    } else {
        let tail = s.subrange(1, s.len() as int);
        lemma_wf_sub(s, 1);
        lemma_mask_le7(tail);
        let c = if s[0].qual.affects_mask() {
            s[0].perm
        } else {
            0u32
        };
        lemma_or_le7(c, mask_of(tail));
    }
}

/// Setting a subject that every entry of a well-formed sequence precedes
/// appends the new entry at the end.
proof fn lemma_set_append(s: Seq<ACLEntry>, q: Qualifier, p: u32)
    requires
        entries_wf(s),
        forall|i: int| 0 <= i < s.len() ==> (#[trigger] s[i]).qual.precedes(q),
    ensures
        spec_set(s, q, p) == s + seq![ACLEntry { qual: q, perm: p }],
    decreases s.len(),
{
    let e = ACLEntry { qual: q, perm: p };
    if s.len() == 0 {
        assert(spec_set(s, q, p) =~= s + seq![e]);
    } else {
        assert(!q.precedes(s[0].qual));
        assert(s[0].qual != q);
        let tail = s.subrange(1, s.len() as int);
        lemma_wf_sub(s, 1);
        lemma_set_append(tail, q, p);
        assert(spec_set(s, q, p) =~= s + seq![e]);
    }
}

/// Re-setting, in order, every entry of a well-formed sequence rebuilds
/// that sequence exactly.
pub proof fn lemma_set_all_id(s: Seq<ACLEntry>)
    requires
        entries_wf(s),
    ensures
        spec_set_all(s) == s,
    decreases s.len(),
{
    if s.len() == 0 {
        assert(spec_set_all(s) =~= s);
    } else {
        let front = s.drop_last();
        assert(front =~= s.subrange(0, s.len() - 1));
        lemma_wf_front(s);
        lemma_set_all_id(front);
        lemma_set_append(front, s.last().qual, s.last().perm);
        assert(front + seq![s.last()] =~= s);
    }
}

/// A prefix of a well-formed entry sequence is well formed.
proof fn lemma_wf_front(s: Seq<ACLEntry>)
    requires
        entries_wf(s),
        s.len() > 0,
    ensures
        entries_wf(s.drop_last()),
        forall|i: int| 0 <= i < s.len() - 1 ==> (#[trigger] s.drop_last()[i]).qual.precedes(
            s.last().qual,
        ),
{
    let t = s.drop_last();
    assert forall|a: int| 0 <= a < t.len() implies (#[trigger] t[a]).perm <= 7 && !(t[a].qual
        is Undefined) && t[a].qual.precedes(s.last().qual) by {
        assert(t[a] == s[a]);
        assert(s[a].qual.precedes(s[s.len() - 1].qual));
    }
    assert forall|a: int, b: int| #![trigger t[a], t[b]] 0 <= a < b < t.len() implies t[a].qual.precedes(
        t[b].qual,
    ) by {
        assert(t[a] == s[a]);
        assert(t[b] == s[b]);
    }
}

/// After `set`, the subject that was set carries exactly the value that
/// was given.
pub proof fn lemma_get_set_same(s: Seq<ACLEntry>, q: Qualifier, p: u32)
    ensures
        spec_get(spec_set(s, q, p), q) == Some(p),
    decreases s.len(),
{
    let e = ACLEntry { qual: q, perm: p };
    let r = spec_set(s, q, p);
    if s.len() == 0 {
    } else if q.precedes(s[0].qual) {
        assert(r[0] == e);
    } else if s[0].qual == q {
        assert(r[0] == e);
    } else {
        let tail = s.subrange(1, s.len() as int);
        lemma_get_set_same(tail, q, p);
        assert(r[0] == s[0]);
        assert(r.subrange(1, r.len() as int) =~= spec_set(tail, q, p));
    }
}

/// `set` leaves every other subject's value untouched.
pub proof fn lemma_get_set_other(s: Seq<ACLEntry>, q: Qualifier, p: u32, q2: Qualifier)
    requires
        q2 != q,
    ensures
        spec_get(spec_set(s, q, p), q2) == spec_get(s, q2),
    decreases s.len(),
{
    reveal_with_fuel(spec_get, 3);
    let e = ACLEntry { qual: q, perm: p };
    let r = spec_set(s, q, p);
    if s.len() == 0 {
        assert(r.subrange(1, r.len() as int) =~= Seq::<ACLEntry>::empty());
    } else if q.precedes(s[0].qual) {
        assert(r[0] == e);
        assert(r.subrange(1, r.len() as int) =~= s);
    } else if s[0].qual == q {
        let tail = s.subrange(1, s.len() as int);
        assert(r[0] == e);
        assert(r.subrange(1, r.len() as int) =~= tail);
    } else {
        let tail = s.subrange(1, s.len() as int);
        lemma_get_set_other(tail, q, p, q2);
        assert(r[0] == s[0]);
        assert(r.subrange(1, r.len() as int) =~= spec_set(tail, q, p));
    }
}

/// Overwriting: setting the same subject twice keeps only the latest
/// value, exactly as if it had been set once. In particular repeated
/// `set` on one subject never grows the entry count.
pub proof fn lemma_set_overwrite(s: Seq<ACLEntry>, q: Qualifier, p1: u32, p2: u32)
    ensures
        spec_set(spec_set(s, q, p1), q, p2) == spec_set(s, q, p2),
    decreases s.len(),
{
    let e1 = ACLEntry { qual: q, perm: p1 };
    let e2 = ACLEntry { qual: q, perm: p2 };
    let r1 = spec_set(s, q, p1);
    if s.len() == 0 {
        assert(r1 =~= seq![e1]);
        assert(spec_set(r1, q, p2) =~= seq![e2] + r1.subrange(1, 1));
        assert(seq![e2] + r1.subrange(1, 1) =~= seq![e2]);
        assert(spec_set(s, q, p2) =~= seq![e2]);
    } else if q.precedes(s[0].qual) {
        assert(r1 =~= seq![e1] + s);
        assert(r1[0] == e1);
        assert(spec_set(r1, q, p2) =~= seq![e2] + r1.subrange(1, r1.len() as int));
        assert(r1.subrange(1, r1.len() as int) =~= s);
        assert(spec_set(s, q, p2) =~= seq![e2] + s);
    } else if s[0].qual == q {
        let tail = s.subrange(1, s.len() as int);
        assert(r1 =~= seq![e1] + tail);
        assert(r1[0] == e1);
        assert(spec_set(r1, q, p2) =~= seq![e2] + r1.subrange(1, r1.len() as int));
        assert(r1.subrange(1, r1.len() as int) =~= tail);
        assert(spec_set(s, q, p2) =~= seq![e2] + tail);
    } else {
        let tail = s.subrange(1, s.len() as int);
        lemma_set_overwrite(tail, q, p1, p2);
        assert(r1 =~= seq![s[0]] + spec_set(tail, q, p1));
        assert(r1[0] == s[0]);
        assert(r1.subrange(1, r1.len() as int) =~= spec_set(tail, q, p1));
        assert(spec_set(r1, q, p2) =~= seq![s[0]] + spec_set(spec_set(tail, q, p1), q, p2));
        assert(spec_set(s, q, p2) =~= seq![s[0]] + spec_set(tail, q, p2));
    }
}

/// Setting (or re-setting) the `Mask` entry does not change the mask the
/// platform would derive: the mask entry itself never enters the
/// computation.
pub proof fn lemma_mask_set_mask(s: Seq<ACLEntry>, m: u32)
    ensures
        mask_of(spec_set(s, Qualifier::Mask, m)) == mask_of(s),
    decreases s.len(),
{
    reveal_with_fuel(mask_of, 3);
    let e = ACLEntry { qual: Qualifier::Mask, perm: m };
    let r = spec_set(s, Qualifier::Mask, m);
    if s.len() == 0 {
        lemma_or_zero(0u32);
        assert(r.subrange(1, r.len() as int) =~= Seq::<ACLEntry>::empty());
    } else if Qualifier::Mask.precedes(s[0].qual) {
        assert(r =~= seq![e] + s);
        assert(r[0] == e);
        assert(r.subrange(1, r.len() as int) =~= s);
        lemma_or_zero(mask_of(s));
    } else if s[0].qual == Qualifier::Mask {
        let tail = s.subrange(1, s.len() as int);
        assert(r =~= seq![e] + tail);
        assert(r[0] == e);
        assert(r.subrange(1, r.len() as int) =~= tail);
    } else {
        let tail = s.subrange(1, s.len() as int);
        lemma_mask_set_mask(tail, m);
        assert(r =~= seq![s[0]] + spec_set(tail, Qualifier::Mask, m));
        assert(r[0] == s[0]);
        assert(r.subrange(1, r.len() as int) =~= spec_set(tail, Qualifier::Mask, m));
    }
}

/// Recomputing the mask is idempotent: a second `fix_mask` with no
/// mutation in between changes nothing, and both times the `Mask` entry
/// holds the OR of the owning group's and every named entry's permissions.
pub proof fn lemma_fix_mask_idempotent(s: Seq<ACLEntry>)
    ensures
        spec_set(
            spec_set(s, Qualifier::Mask, mask_of(s)),
            Qualifier::Mask,
            mask_of(spec_set(s, Qualifier::Mask, mask_of(s))),
        ) == spec_set(s, Qualifier::Mask, mask_of(s)),
        spec_get(spec_set(s, Qualifier::Mask, mask_of(s)), Qualifier::Mask) == Some(mask_of(s)),
{
    let m = mask_of(s);
    lemma_mask_set_mask(s, m);
    lemma_set_overwrite(s, Qualifier::Mask, m, m);
    lemma_get_set_same(s, Qualifier::Mask, m);
}

/// Unfolding step for `spec_get` along a scan: at position `i` the head of
/// the remaining sequence either matches or the scan moves one entry on.
proof fn lemma_get_step(s: Seq<ACLEntry>, i: int, q: Qualifier)
    requires
        0 <= i < s.len(),
    ensures
        s[i].qual == q ==> spec_get(s.subrange(i, s.len() as int), q) == Some(s[i].perm),
        s[i].qual != q ==> spec_get(s.subrange(i, s.len() as int), q) == spec_get(
            s.subrange(i + 1, s.len() as int),
            q,
        ),
{
    let rest = s.subrange(i, s.len() as int);
    assert(rest[0] == s[i]);
    assert(rest.subrange(1, rest.len() as int) =~= s.subrange(i + 1, s.len() as int));
}

} // verus!
