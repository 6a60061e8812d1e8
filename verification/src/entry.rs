//! The in-memory tree snapshot of a directory.
//!
//! A `FileSystemEntry` is one node of the snapshot: a name, a kind
//! discriminator, the ordered children (empty for files), and the opaque
//! capability that the provider issued for the node. The mathematical model
//! of a node is an `EntryModel`, a ghost tree over sequences; every contract
//! of the traversal engine speaks of models.

use vstd::prelude::*;
use crate::order::{lex_le, lemma_lex_le_total, lemma_lex_le_trans, name_le};

verus! {

/// One node of the tree snapshot.
pub struct FileSystemEntry {
    /// Display name, unique among siblings.
    pub name: String,
    /// Kind discriminator: a directory or a file.
    pub is_directory: bool,
    /// Ordered children; empty for non-directories.
    pub children: Vec<FileSystemEntry>,
    /// Opaque provider-side handle for this node, absent only in degenerate
    /// failure cases.
    pub capability: Option<u64>,
}

/// The mathematical model of a `FileSystemEntry`.
pub struct EntryModel {
    pub name: Seq<char>,
    pub is_directory: bool,
    pub children: Seq<EntryModel>,
    pub capability: Option<u64>,
}

/// The model of one node: names become character sequences and the child
/// vector becomes a sequence of models.
pub open spec fn entry_model(e: FileSystemEntry) -> EntryModel
    decreases e,
    via entry_model_decreases
{
    EntryModel {
        name: e.name@,
        is_directory: e.is_directory,
        children: entries_model(e.children@),
        capability: e.capability,
    }
}

#[via_fn]
proof fn entry_model_decreases(e: FileSystemEntry) {
    assert(decreases_to!(e => e.children));
    assert(decreases_to!(e.children => e.children@));
}

/// The models of a sequence of nodes.
pub open spec fn entries_model(s: Seq<FileSystemEntry>) -> Seq<EntryModel>
    decreases s,
{
    if s.len() == 0 {
        Seq::empty()
    } else {
        seq![entry_model(s[0])] + entries_model(s.drop_first())
    }
}

/// The model of a node sequence is the pointwise model of its nodes.
pub proof fn lemma_entries_model(s: Seq<FileSystemEntry>)
    ensures
        entries_model(s).len() == s.len(),
        forall|i: int| 0 <= i < s.len() ==> entries_model(s)[i] == entry_model(s[i]),
    decreases s,
{
    if s.len() > 0 {
        lemma_entries_model(s.drop_first());
    }
}

/// The sibling order: every directory precedes every file, and within one
/// kind entries are ordered by name.
pub open spec fn model_le(a: EntryModel, b: EntryModel) -> bool {
    if a.is_directory != b.is_directory {
        a.is_directory
    } else {
        lex_le(a.name, b.name)
    }
}

/// The sibling order as a relation value, for `sorted_by`.
pub open spec fn model_order() -> spec_fn(EntryModel, EntryModel) -> bool {
    |a: EntryModel, b: EntryModel| model_le(a, b)
}

/// Any two models are comparable by the sibling order.
pub proof fn lemma_model_le_total(a: EntryModel, b: EntryModel)
    ensures
        model_le(a, b) || model_le(b, a),
{
    if a.is_directory == b.is_directory {
        lemma_lex_le_total(a.name, b.name);
    }
}

/// The sibling order is transitive.
pub proof fn lemma_model_le_trans(a: EntryModel, b: EntryModel, c: EntryModel)
    requires
        model_le(a, b),
        model_le(b, c),
    ensures
        model_le(a, c),
{
    if a.is_directory == b.is_directory && b.is_directory == c.is_directory {
        lemma_lex_le_trans(a.name, b.name, c.name);
    }
}

/// Decides the sibling order on two nodes.
pub fn entry_le(a: &FileSystemEntry, b: &FileSystemEntry) -> (r: bool)
    ensures
        r == model_le(entry_model(*a), entry_model(*b)),
{
    if a.is_directory != b.is_directory {
        a.is_directory
    } else {
        name_le(a.name.as_str(), b.name.as_str())
    }
}

/// `c` matches `lower`, a lower-case ASCII letter or another character,
/// ignoring ASCII case.
pub open spec fn char_matches_lower(c: char, lower: char) -> bool {
    c == lower || ('A' <= c && c <= 'Z' && c as int + 32 == lower as int)
}

/// `s` ends with the suffix `suf`, ignoring ASCII case. `suf` is given in
/// lower case.
pub open spec fn ends_with_lower(s: Seq<char>, suf: Seq<char>) -> bool {
    s.len() >= suf.len() && (forall|i: int|
        0 <= i < suf.len() ==> char_matches_lower(s[s.len() - suf.len() + i], suf[i]))
}

/// The supported-extension allow-list: a name is editable text when it ends,
/// ignoring ASCII case, with one of the recognized suffixes.
pub open spec fn supported_name(s: Seq<char>) -> bool {
    ||| ends_with_lower(s, ".json"@)
    ||| ends_with_lower(s, ".md"@)
    ||| ends_with_lower(s, ".rs"@)
    ||| ends_with_lower(s, ".js"@)
}

/// Decides whether `s` ends with the lower-case suffix `suf`, ignoring
/// ASCII case.
fn ends_with_lower_exec(s: &str, suf: &str) -> (r: bool)
    ensures
        r == ends_with_lower(s@, suf@),
{
    let s_len: usize = s.unicode_len();
    let suf_len: usize = suf.unicode_len();
    if s_len < suf_len {
        return false;
    }
    let base: usize = s_len - suf_len;
    let mut i: usize = 0;
    while i < suf_len
        invariant
            0 <= i <= suf_len,
            s_len == s@.len(),
            suf_len == suf@.len(),
            base == s_len - suf_len,
            forall|j: int| 0 <= j < i ==> char_matches_lower(s@[base + j], suf@[j]),
        decreases suf_len - i,
    {
        let c = s.get_char(base + i);
        let l = suf.get_char(i);
        let ok = if c == l {
            true
        } else if 'A' <= c && c <= 'Z' {
            let cu: u32 = c as u32;
            let lu: u32 = l as u32;
            cu + 32 == lu
        } else {
            false
        };
        if !ok {
            return false;
        }
        i = i + 1;
    }
    true
}

/// Decides the supported-extension predicate on a file name.
pub fn is_supported_name(name: &str) -> (r: bool)
    ensures
        r == supported_name(name@),
{
    if ends_with_lower_exec(name, ".json") {
        return true;
    }
    if ends_with_lower_exec(name, ".md") {
        return true;
    }
    if ends_with_lower_exec(name, ".rs") {
        return true;
    }
    if ends_with_lower_exec(name, ".js") {
        return true;
    }
    false
}

/// The configurable form of the allow-list: a name is recognized when it
/// ends, ignoring ASCII case, with one of the given lower-case suffixes.
pub open spec fn supported_by(s: Seq<char>, allow: Seq<Seq<char>>) -> bool {
    exists|i: int| 0 <= i < allow.len() && ends_with_lower(s, allow[i])
}

/// Decides the allow-list predicate against a configured suffix set.
pub fn is_supported_name_in(name: &str, allow: &Vec<String>) -> (r: bool)
    ensures
        r == supported_by(name@, allow@.map_values(|s: String| s@)),
{
    let ghost views: Seq<Seq<char>> = allow@.map_values(|s: String| s@);
    let n: usize = allow.len();
    let mut i: usize = 0;
    while i < n
        invariant
            0 <= i <= n,
            n == allow@.len(),
            views == allow@.map_values(|s: String| s@),
            forall|j: int| 0 <= j < i ==> !ends_with_lower(name@, #[trigger] views[j]),
        decreases n - i,
    {
        if ends_with_lower_exec(name, allow[i].as_str()) {
            proof {
                assert(views[i as int] == allow@[i as int]@);
            }
            return true;
        }
        i = i + 1;
    }
    false
}

/// A node is editable when it is a file whose name carries a supported
/// extension; directories and other files are inert for editing.
pub open spec fn spec_is_editable(e: FileSystemEntry) -> bool {
    !e.is_directory && supported_name(e.name@)
}

/// Decides whether a node is editable.
pub fn is_editable(e: &FileSystemEntry) -> (r: bool)
    ensures
        r == spec_is_editable(*e),
{
    !e.is_directory && is_supported_name(e.name.as_str())
}

} // verus!
