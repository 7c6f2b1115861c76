use vstd::prelude::*;
use vstd::string::StringExecFns;

use crate::acl::PosixACL;
use crate::entry::{ACLEntry, Qualifier};

verus! {

/// The subject field of one textual line: empty for the fixed subjects;
/// for a named subject the name that was chosen for it, or its decimal id
/// where none was.
pub open spec fn subject_text(q: Qualifier, name: Option<Seq<char>>) -> Seq<char> {
    match q.spec_uid() {
        Some(uid) => match name {
            Some(n) => n,
            None => dec_text(uid as nat),
        },
        None => Seq::empty(),
    }
}

/// One `class:subject:rwx` line of the textual ACL form, closed by a
/// newline.
pub open spec fn line_text(e: ACLEntry, name: Option<Seq<char>>) -> Seq<char> {
    tag_text(e.qual) + ":"@ + subject_text(e.qual, name) + ":"@ + perm_text(e.perm) + "\n"@
}

/// The textual form of a whole entry sequence: the lines of its entries
/// in order, given the subject-name choice made for each entry.
pub open spec fn acl_text(s: Seq<ACLEntry>, names: Seq<Option<Seq<char>>>) -> Seq<char>
    decreases s.len(),
{
    if s.len() == 0 {
        Seq::empty()
    } else {
        line_text(s[0], names[0]) + acl_text(
            s.subrange(1, s.len() as int),
            names.subrange(1, names.len() as int),
        )
    }
}

/// The word a subject kind renders to in the textual ACL form.
pub open spec fn tag_text(q: Qualifier) -> Seq<char> {
    match q {
        Qualifier::Undefined => "undefined"@,
        Qualifier::UserObj => "user"@,
        Qualifier::User(_) => "user"@,
        Qualifier::GroupObj => "group"@,
        Qualifier::Group(_) => "group"@,
        Qualifier::Mask => "mask"@,
        Qualifier::Other => "other"@,
    }
}

/// The `rwx` triple a permission value renders to: one letter per granted
/// bit, `-` for each bit not granted.
pub open spec fn perm_text(p: u32) -> Seq<char> {
    seq![
        if p & 4 != 0 {
            'r'
        } else {
            '-'
        },
        if p & 2 != 0 {
            'w'
        } else {
            '-'
        },
        if p & 1 != 0 {
            'x'
        } else {
            '-'
        },
    ]
}

/// The character of a single decimal digit.
pub open spec fn dec_digit(d: int) -> char {
    if d == 0 {
        '0'
    } else if d == 1 {
        '1'
    } else if d == 2 {
        '2'
    } else if d == 3 {
        '3'
    } else if d == 4 {
        '4'
    } else if d == 5 {
        '5'
    } else if d == 6 {
        '6'
    } else if d == 7 {
        '7'
    } else if d == 8 {
        '8'
    } else {
        '9'
    }
}

/// The usual decimal rendering of a number, most significant digit first.
pub open spec fn dec_text(n: nat) -> Seq<char>
    decreases n,
{
    if n < 10 {
        seq![dec_digit(n as int)]
    } else {
        dec_text(n / 10) + seq![dec_digit((n % 10) as int)]
    }
}

/// Render a number in decimal.
fn u32_string(n: u32) -> (r: String)
    ensures
        r@ == dec_text(n as nat),
    decreases n,
{
    let d = n % 10;
    let digit: &'static str = if d == 0 {
        "0"
    } else if d == 1 {
        "1"
    } else if d == 2 {
        "2"
    } else if d == 3 {
        "3"
    } else if d == 4 {
        "4"
    } else if d == 5 {
        "5"
    } else if d == 6 {
        "6"
    } else if d == 7 {
        "7"
    } else if d == 8 {
        "8"
    } else {
        "9"
    };
    proof {
        reveal_strlit("0");
        reveal_strlit("1");
        reveal_strlit("2");
        reveal_strlit("3");
        reveal_strlit("4");
        reveal_strlit("5");
        reveal_strlit("6");
        reveal_strlit("7");
        reveal_strlit("8");
        reveal_strlit("9");
        assert(digit@ =~= seq![dec_digit(d as int)]);
    }
    if n < 10 {
        let r = String::from_str(digit);
        proof {
            assert(r@ =~= dec_text(n as nat));
        }
        r
    } else {
        let mut r = u32_string(n / 10);
        r.append(digit);
        proof {
            assert(r@ =~= dec_text(n as nat));
        }
        r
    }
}

/// Relies on `uzers::get_user_by_uid`: looks the id up in the system's
/// user database; gives the account name when the id resolves and the
/// name is valid UTF-8, and `None` otherwise.
#[verifier::external_body]
fn lookup_user_name(uid: u32) -> Option<String> {
    uzers::get_user_by_uid(uid).and_then(|u| u.name().to_str().map(|s| s.to_string()))
}

/// Relies on `uzers::get_group_by_gid`: looks the id up in the system's
/// group database; gives the group name when the id resolves and the
/// name is valid UTF-8, and `None` otherwise.
#[verifier::external_body]
fn lookup_group_name(gid: u32) -> Option<String> {
    uzers::get_group_by_gid(gid).and_then(|g| g.name().to_str().map(|s| s.to_string()))
}

/// The subject field of one textual line: empty for the fixed subjects,
/// and for a named subject its resolved name, or its decimal id when no
/// name was resolved.
fn subject_string(q: &Qualifier) -> (res: (String, Ghost<Option<Seq<char>>>))
    ensures
        res.1@ is Some ==> q.is_named(),
        res.0@ == subject_text(*q, res.1@),
{
    match q {
        Qualifier::User(uid) => match lookup_user_name(*uid) {
            Some(name) => {
                let ghost g = Some(name@);
                (name, Ghost(g))
            },
            None => (u32_string(*uid), Ghost(None)),
        },
        Qualifier::Group(gid) => match lookup_group_name(*gid) {
            Some(name) => {
                let ghost g = Some(name@);
                (name, Ghost(g))
            },
            None => (u32_string(*gid), Ghost(None)),
        },
        _ => (String::new(), Ghost(None)),
    }
}

/// The word a subject kind renders to.
fn tag_string(q: &Qualifier) -> (r: &'static str)
    ensures
        r@ == tag_text(*q),
{
    match q {
        Qualifier::Undefined => "undefined",
        Qualifier::UserObj => "user",
        Qualifier::User(_) => "user",
        Qualifier::GroupObj => "group",
        Qualifier::Group(_) => "group",
        Qualifier::Mask => "mask",
        Qualifier::Other => "other",
    }
}

/// One textual line, and the name choice that was made for its subject.
fn line_string(e: &ACLEntry) -> (res: (String, Ghost<Option<Seq<char>>>))
    ensures
        res.1@ is Some ==> e.qual.is_named(),
        res.0@ == line_text(*e, res.1@),
{
    let mut out = String::from_str(tag_string(&e.qual));
    out.append(":");
    let (subj, name) = subject_string(&e.qual);
    out.append(subj.as_str());
    out.append(":");
    out.append(
        if e.perm & 4 != 0 {
            "r"
        } else {
            "-"
        },
    );
    out.append(
        if e.perm & 2 != 0 {
            "w"
        } else {
            "-"
        },
    );
    out.append(
        if e.perm & 1 != 0 {
            "x"
        } else {
            "-"
        },
    );
    out.append("\n");
    proof {
        reveal_strlit(":");
        reveal_strlit("\n");
        reveal_strlit("r");
        reveal_strlit("w");
        reveal_strlit("x");
        reveal_strlit("-");
        assert(out@ =~= line_text(*e, name@));
    }
    (out, name)
}

/// Appending one entry and its name choice extends the rendering by that
/// entry's line.
proof fn lemma_text_snoc(
    s: Seq<ACLEntry>,
    names: Seq<Option<Seq<char>>>,
    e: ACLEntry,
    nm: Option<Seq<char>>,
)
    requires
        names.len() == s.len(),
    ensures
        acl_text(s.push(e), names.push(nm)) == acl_text(s, names) + line_text(e, nm),
    decreases s.len(),
{
    reveal_with_fuel(acl_text, 3);
    if s.len() == 0 {
        assert(s.push(e).subrange(1, 1) =~= Seq::<ACLEntry>::empty());
        assert(names.push(nm).subrange(1, 1) =~= Seq::<Option<Seq<char>>>::empty());
        assert(acl_text(s.push(e), names.push(nm)) =~= acl_text(s, names) + line_text(e, nm));
    } else {
        let st = s.subrange(1, s.len() as int);
        let nt = names.subrange(1, names.len() as int);
        lemma_text_snoc(st, nt, e, nm);
        assert(s.push(e).subrange(1, s.len() as int + 1) =~= st.push(e));
        assert(names.push(nm).subrange(1, names.len() as int + 1) =~= nt.push(nm));
        assert(s.push(e)[0] == s[0]);
        assert(names.push(nm)[0] == names[0]);
        assert(acl_text(s.push(e), names.push(nm)) =~= acl_text(s, names) + line_text(e, nm));
    }
}

impl PosixACL {
    /// Return the textual representation of the ACL: one line per entry,
    /// in canonical order, each `class:subject:rwx`-shaped and closed by a
    /// newline. UID/GID are resolved to names through the platform's user
    /// and group databases where possible, and rendered in decimal
    /// otherwise.
    #[must_use]
    pub fn as_text(&self) -> (r: String)
        ensures
            exists|names: Seq<Option<Seq<char>>>|
                {
                    &&& names.len() == self@.len()
                    &&& (forall|i: int|
                        0 <= i < names.len() ==> ((#[trigger] names[i]) is Some
                            ==> self@[i].qual.is_named()))
                    &&& r@ == acl_text(self@, names)
                },
            (forall|i: int| 0 <= i < self@.len() ==> !((#[trigger] self@[i]).qual.is_named()))
                ==> r@ == acl_text(self@, Seq::new(self@.len(), |j: int| None)),
    {
        let n = self.entry_count();
        let mut r = String::new();
        let ghost mut names: Seq<Option<Seq<char>>> = Seq::empty();
        let mut i: usize = 0;
        proof {
            assert(self@.subrange(0, 0) =~= Seq::<ACLEntry>::empty());
        }
        while i < n
            invariant
                n == self@.len(),
                i <= n,
                names.len() == i,
                forall|j: int|
                    0 <= j < i ==> ((#[trigger] names[j]) is Some ==> self@[j].qual.is_named()),
                r@ == acl_text(self@.subrange(0, i as int), names),
            decreases n - i,
        {
            let e = self.entry_at(i);
            let (line, nm) = line_string(&e);
            proof {
                lemma_text_snoc(self@.subrange(0, i as int), names, e, nm@);
                assert(self@.subrange(0, i as int).push(e) =~= self@.subrange(0, i as int + 1));
            }
            r.append(line.as_str());
            proof {
                names = names.push(nm@);
            }
            i = i + 1;
        }
        proof {
            assert(self@.subrange(0, n as int) =~= self@);
            if forall|j: int| 0 <= j < self@.len() ==> !((#[trigger] self@[j]).qual.is_named()) {
                let all_none = Seq::new(self@.len(), |j: int| None::<Seq<char>>);
                assert(names =~= all_none);
            }
        }
        r
    }
}

} // verus!
