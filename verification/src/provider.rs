//! An in-memory reference model of the capability provider.
//!
//! The host grants access to filesystem entries through opaque capabilities.
//! This module models that interface as plain data: a capability is a number,
//! a directory capability maps to one enumeration outcome, and a file
//! capability maps to its text. The traversal engine and the editor session
//! are specified and tested against this model; the live host adapter sits
//! outside the library and hands the same plain values in.

use vstd::prelude::*;

verus! {

/// The error taxonomy of the provider interface.
#[derive(Debug, Clone, Copy, PartialEq, Eq, Structural)]
pub enum HostError {
    /// The user cancelled or denied the directory picker.
    PickerDenied,
    /// Enumerating the children of a directory failed.
    EnumerationFailed,
    /// Reading the text of a file failed.
    ReadFailed,
    /// Writing the text of a file failed.
    WriteFailed,
}

/// One enumerated child of a directory: its name, its kind, and the
/// capability the provider issued for it.
pub struct RawChild {
    pub name: String,
    pub is_directory: bool,
    pub capability: u64,
}

/// The outcome of enumerating one directory capability.
pub enum Listing {
    /// Enumeration succeeds and yields these children, in enumeration order.
    Children(Vec<RawChild>),
    /// Enumeration fails.
    Unreadable,
}

/// The in-memory provider: an association from directory capabilities to
/// enumeration outcomes and from file capabilities to file texts. Lookup
/// takes the first match, so no uniqueness of keys is assumed.
pub struct MemProvider {
    pub dirs: Vec<(u64, Listing)>,
    pub files: Vec<(u64, String)>,
}

/// First-match lookup of a directory capability.
pub open spec fn assoc_dir(s: Seq<(u64, Listing)>, cap: u64) -> Option<Listing>
    decreases s.len(),
{
    if s.len() == 0 {
        None
    } else if s[0].0 == cap {
        Some(s[0].1)
    } else {
        assoc_dir(s.drop_first(), cap)
    }
}

/// First-match lookup of a file capability.
pub open spec fn assoc_file(s: Seq<(u64, String)>, cap: u64) -> Option<String>
    decreases s.len(),
{
    if s.len() == 0 {
        None
    } else if s[0].0 == cap {
        Some(s[0].1)
    } else {
        assoc_file(s.drop_first(), cap)
    }
}

proof fn lemma_assoc_dir_step(s: Seq<(u64, Listing)>, cap: u64, i: int)
    requires
        0 <= i < s.len(),
        s[i].0 != cap,
    ensures
        assoc_dir(s.skip(i), cap) == assoc_dir(s.skip(i + 1), cap),
{
    assert(s.skip(i).drop_first() =~= s.skip(i + 1));
    assert(s.skip(i)[0] == s[i]);
}

proof fn lemma_assoc_file_step(s: Seq<(u64, String)>, cap: u64, i: int)
    requires
        0 <= i < s.len(),
        s[i].0 != cap,
    ensures
        assoc_file(s.skip(i), cap) == assoc_file(s.skip(i + 1), cap),
{
    assert(s.skip(i).drop_first() =~= s.skip(i + 1));
    assert(s.skip(i)[0] == s[i]);
}

/// Updating the first match of `cap` rebinds `cap` and leaves every other
/// capability's binding unchanged.
proof fn lemma_assoc_file_update(s: Seq<(u64, String)>, i: int, cap: u64, text: String)
    requires
        0 <= i < s.len(),
        s[i].0 == cap,
        forall|j: int| 0 <= j < i ==> s[j].0 != cap,
    ensures
        assoc_file(s.update(i, (cap, text)), cap) == Some(text),
        forall|c: u64|
            c != cap ==> assoc_file(s.update(i, (cap, text)), c) == assoc_file(s, c),
    decreases i,
{
    let s2 = s.update(i, (cap, text));
    if i == 0 {
        assert(s2[0] == (cap, text));
        assert forall|c: u64| c != cap implies assoc_file(s2, c) == assoc_file(s, c) by {
            assert(s2.drop_first() =~= s.drop_first());
        }
    } else {
        assert(s2[0] == s[0]);
        assert(s2.drop_first() =~= s.drop_first().update(i - 1, (cap, text)));
        lemma_assoc_file_update(s.drop_first(), i - 1, cap, text);
        assert forall|c: u64| c != cap implies assoc_file(s2, c) == assoc_file(s, c) by {
            if s[0].0 != c {
                assert(assoc_file(s2, c) == assoc_file(s2.drop_first(), c));
                assert(assoc_file(s, c) == assoc_file(s.drop_first(), c));
            }
        }
    }
}

/// Round trip: writing back, unchanged, the text a read returned leaves
/// every readable text as it was — in particular a second read of the same
/// capability yields the original text. `before` is the provider at the
/// read; `after` is any state a successful `write_text` of that very text
/// may leave behind, as its contract describes it.
pub proof fn lemma_write_back_round_trip(before: MemProvider, after: MemProvider, cap: u64)
    requires
        before.spec_file(cap) is Some,
        after.spec_file(cap) matches Some(u) && u@ == before.spec_file(cap)->0@,
        forall|c: u64| c != cap ==> after.spec_file(c) == before.spec_file(c),
    ensures
        forall|c: u64|
            match (#[trigger] before.spec_file(c), after.spec_file(c)) {
                (Some(t1), Some(t2)) => t1@ == t2@,
                (None, None) => true,
                _ => false,
            },
{
    assert forall|c: u64|
        match (#[trigger] before.spec_file(c), after.spec_file(c)) {
            (Some(t1), Some(t2)) => t1@ == t2@,
            (None, None) => true,
            _ => false,
        } by {
        if c != cap {
            assert(after.spec_file(c) == before.spec_file(c));
        }
    }
}

/// The names of a sequence of children are pairwise distinct.
pub open spec fn distinct_names(l: Seq<RawChild>) -> bool {
    forall|i: int, j: int| 0 <= i < j < l.len() ==> l[i].name@ != l[j].name@
}

impl MemProvider {
    /// Every directory that enumerates successfully lists pairwise distinct
    /// child names, as the host guarantees for real directories.
    pub open spec fn wf(self) -> bool {
        forall|cap: u64|
            match #[trigger] assoc_dir(self.dirs@, cap) {
                Some(Listing::Children(l)) => distinct_names(l@),
                _ => true,
            }
    }

    /// The enumeration outcome bound to a directory capability.
    pub open spec fn spec_listing(self, cap: u64) -> Option<Listing> {
        assoc_dir(self.dirs@, cap)
    }

    /// The text bound to a file capability.
    pub open spec fn spec_file(self, cap: u64) -> Option<String> {
        assoc_file(self.files@, cap)
    }

    /// A directory capability can be enumerated: it is known and its
    /// enumeration succeeds.
    pub open spec fn enumerable(self, cap: u64) -> bool {
        self.spec_listing(cap) matches Some(Listing::Children(_))
    }

    /// Enumerates the immediate children of a directory capability.
    pub fn enumerate_children(&self, cap: u64) -> (r: Option<&Listing>)
        ensures
            match r {
                Some(l) => self.spec_listing(cap) == Some(*l),
                None => self.spec_listing(cap) is None,
            },
    {
        let n: usize = self.dirs.len();
        let mut i: usize = 0;
        proof {
            assert(self.dirs@.skip(0) =~= self.dirs@);
        }
        while i < n
            invariant
                0 <= i <= n,
                n == self.dirs@.len(),
                assoc_dir(self.dirs@, cap) == assoc_dir(self.dirs@.skip(i as int), cap),
            decreases n - i,
        {
            let p = &self.dirs[i];
            if p.0 == cap {
                proof {
                    assert(self.dirs@.skip(i as int)[0] == self.dirs@[i as int]);
                }
                return Some(&p.1);
            }
            proof {
                lemma_assoc_dir_step(self.dirs@, cap, i as int);
            }
            i = i + 1;
        }
        proof {
            assert(self.dirs@.skip(n as int).len() == 0);
        }
        None
    }

    /// Reads the whole text of a file capability. Returns the bound text,
    /// or `ReadFailed` exactly when the capability holds no file.
    pub fn read_text(&self, cap: u64) -> (r: Result<String, HostError>)
        ensures
            match r {
                Ok(text) => self.spec_file(cap) matches Some(t) && text@ == t@,
                Err(e) => e == HostError::ReadFailed && self.spec_file(cap) is None,
            },
    {
        let n: usize = self.files.len();
        let mut i: usize = 0;
        proof {
            assert(self.files@.skip(0) =~= self.files@);
        }
        while i < n
            invariant
                0 <= i <= n,
                n == self.files@.len(),
                assoc_file(self.files@, cap) == assoc_file(self.files@.skip(i as int), cap),
            decreases n - i,
        {
            let p = &self.files[i];
            if p.0 == cap {
                proof {
                    assert(self.files@.skip(i as int)[0] == self.files@[i as int]);
                }
                return Ok(p.1.clone());
            }
            proof {
                lemma_assoc_file_step(self.files@, cap, i as int);
            }
            i = i + 1;
        }
        proof {
            assert(self.files@.skip(n as int).len() == 0);
        }
        Err(HostError::ReadFailed)
    }

    /// Writes the whole text of a file capability as one atomic replacement.
    /// On success the capability is bound to exactly the new text and every
    /// other binding is unchanged; on failure nothing is changed and no
    /// partial write is observable.
    pub fn write_text(&mut self, cap: u64, content: &str) -> (r: Result<(), HostError>)
        ensures
            final(self).dirs == old(self).dirs,
            match r {
                Ok(()) => {
                    &&& old(self).spec_file(cap) is Some
                    &&& final(self).spec_file(cap) matches Some(t) && t@ == content@
                    &&& forall|c: u64| c != cap ==> final(self).spec_file(c) == old(self).spec_file(c)
                },
                Err(e) => {
                    &&& e == HostError::WriteFailed
                    &&& old(self).spec_file(cap) is None
                    &&& final(self).files == old(self).files
                },
            },
    {
        let n: usize = self.files.len();
        let mut i: usize = 0;
        proof {
            assert(self.files@.skip(0) =~= self.files@);
        }
        while i < n
            invariant
                0 <= i <= n,
                n == self.files@.len(),
                self.files == old(self).files,
                self.dirs == old(self).dirs,
                assoc_file(self.files@, cap) == assoc_file(self.files@.skip(i as int), cap),
                forall|j: int| 0 <= j < i ==> self.files@[j].0 != cap,
            decreases n - i,
        {
            let hit: bool = self.files[i].0 == cap;
            if hit {
                proof {
                    assert(self.files@.skip(i as int)[0] == self.files@[i as int]);
                }
                let text = content.to_owned();
                let _ = self.files.remove(i);
                self.files.insert(i, (cap, text));
                proof {
                    assert(self.files@ =~= old(self).files@.update(i as int, (cap, text)));
                    lemma_assoc_file_update(old(self).files@, i as int, cap, text);
                }
                return Ok(());
            }
            proof {
                lemma_assoc_file_step(self.files@, cap, i as int);
            }
            i = i + 1;
        }
        proof {
            assert(self.files@.skip(n as int).len() == 0);
        }
        Err(HostError::WriteFailed)
    }
}

} // verus!
