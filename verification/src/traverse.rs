//! The traversal engine.
//!
//! `refresh` rebuilds a whole tree snapshot from a directory capability: it
//! enumerates the immediate children, recursively traverses child
//! directories, and sorts every sibling sequence with directories before
//! files and names in lexicographic order within each kind. A child
//! directory whose own enumeration fails degrades to an empty subtree; only
//! a failure of the root enumeration surfaces as an error. The whole result
//! is pinned down by the spec-level function `refresh_models`.

use vstd::prelude::*;
use vstd::relations::sorted_by;
use crate::entry::{
    EntryModel, FileSystemEntry, entries_model, entry_le, entry_model, lemma_entries_model,
    lemma_model_le_total, lemma_model_le_trans, model_le, model_order,
};
use crate::order::{lemma_lex_le_antisymmetric, lex_le};
use crate::provider::{distinct_names, HostError, Listing, MemProvider, RawChild};

verus! {

/// The defensive bound on recursion depth. The host structure is assumed
/// acyclic, but a pathological or cyclic structure is cut off at this depth
/// and treated as a failed enumeration.
pub const MAX_DEPTH: u64 = 64;

/// Inserts a model before the first element that it precedes or equals.
pub open spec fn insert_sorted(e: EntryModel, s: Seq<EntryModel>) -> Seq<EntryModel>
    decreases s.len(),
{
    if s.len() == 0 {
        seq![e]
    } else if model_le(e, s[0]) {
        seq![e] + s
    } else {
        seq![s[0]] + insert_sorted(e, s.drop_first())
    }
}

/// Insertion sort of a sibling sequence, inserting from the left.
pub open spec fn sort_models(s: Seq<EntryModel>) -> Seq<EntryModel>
    decreases s.len(),
{
    if s.len() == 0 {
        Seq::empty()
    } else {
        insert_sorted(s.last(), sort_models(s.drop_last()))
    }
}

/// What `insert_sorted` does: it keeps the length, the contents as a
/// multiset, and sortedness.
pub proof fn lemma_insert_sorted(e: EntryModel, s: Seq<EntryModel>)
    ensures
        insert_sorted(e, s).len() == s.len() + 1,
        insert_sorted(e, s).to_multiset() =~= s.to_multiset().insert(e),
        forall|x: EntryModel|
            #[trigger] insert_sorted(e, s).contains(x) ==> x == e || s.contains(x),
        sorted_by(s, model_order()) ==> sorted_by(insert_sorted(e, s), model_order()),
    decreases s.len(),
{
    broadcast use vstd::seq_lib::group_to_multiset_ensures;
    broadcast use vstd::multiset::group_multiset_axioms;

    let r = insert_sorted(e, s);
    if s.len() == 0 {
        assert(r =~= Seq::empty().push(e));
        assert(r.to_multiset() =~= s.to_multiset().insert(e));
        assert(forall|x: EntryModel| r.contains(x) ==> x == e);
    } else if model_le(e, s[0]) {
        assert(r =~= (seq![e] + s));
        assert(r =~= s.insert(0, e));
        s.insert_ensures(0, e);
        assert(r.to_multiset() =~= s.to_multiset().insert(e));
        assert(forall|x: EntryModel| #[trigger] r.contains(x) ==> x == e || s.contains(x)) by {
            assert(forall|i: int|
                0 <= i < r.len() ==> r[i] == (if i == 0 { e } else { s[i - 1] }));
        }
        if sorted_by(s, model_order()) {
            assert forall|i: int, j: int| 0 <= i < j < r.len() implies #[trigger] model_le(
                r[i],
                r[j],
            ) by {
                if i == 0 {
                    if j == 1 {
                    } else {
                        assert(model_order()(s[0], s[j - 1]));
                        lemma_model_le_trans(e, s[0], s[j - 1]);
                    }
                } else {
                    assert(model_order()(s[i - 1], s[j - 1]));
                }
            }
        }
    } else {
        let rest = insert_sorted(e, s.drop_first());
        lemma_insert_sorted(e, s.drop_first());
        assert(r =~= seq![s[0]] + rest);
        // length
        assert(r.len() == s.len() + 1);
        // multiset
        assert(r =~= rest.insert(0, s[0]));
        rest.insert_ensures(0, s[0]);
        assert(r.to_multiset() =~= rest.to_multiset().insert(s[0]));
        assert(s =~= s.drop_first().insert(0, s[0]));
        s.drop_first().insert_ensures(0, s[0]);
        assert(s.to_multiset() =~= s.drop_first().to_multiset().insert(s[0]));
        assert(r.to_multiset() =~= s.to_multiset().insert(e));
        // contents
        assert forall|x: EntryModel| #[trigger] r.contains(x) implies x == e || s.contains(x) by {
            let i = choose|i: int| 0 <= i < r.len() && r[i] == x;
            if i == 0 {
                assert(s.contains(x)) by {
                    assert(s[0] == x);
                }
            } else {
                assert(rest.contains(x)) by {
                    assert(rest[i - 1] == x);
                }
                if x != e {
                    assert(s.drop_first().contains(x));
                    let k = choose|k: int| 0 <= k < s.drop_first().len() && s.drop_first()[k] == x;
                    assert(s[k + 1] == x);
                }
            }
        }
        // sortedness
        if sorted_by(s, model_order()) {
            assert(sorted_by(s.drop_first(), model_order())) by {
                assert forall|i: int, j: int|
                    0 <= i < j < s.drop_first().len() implies #[trigger] model_order()(
                    s.drop_first()[i],
                    s.drop_first()[j],
                ) by {
                    assert(model_order()(s[i + 1], s[j + 1]));
                }
            }
            assert forall|i: int, j: int| 0 <= i < j < r.len() implies #[trigger] model_le(
                r[i],
                r[j],
            ) by {
                if i == 0 {
                    let x = r[j];
                    assert(rest.contains(x)) by {
                        assert(rest[j - 1] == x);
                    }
                    if x == e {
                        lemma_model_le_total(e, s[0]);
                    } else {
                        assert(s.drop_first().contains(x));
                        let k = choose|k: int|
                            0 <= k < s.drop_first().len() && s.drop_first()[k] == x;
                        assert(s[k + 1] == x);
                        assert(model_order()(s[0], s[k + 1]));
                    }
                } else {
                    assert(model_order()(rest[i - 1], rest[j - 1]));
                }
            }
        }
    }
}

/// What `sort_models` does: it keeps the length and the contents as a
/// multiset, and yields a sorted sequence.
pub proof fn lemma_sort_models(s: Seq<EntryModel>)
    ensures
        sort_models(s).len() == s.len(),
        sort_models(s).to_multiset() =~= s.to_multiset(),
        forall|x: EntryModel| #[trigger] sort_models(s).contains(x) ==> s.contains(x),
        sorted_by(sort_models(s), model_order()),
    decreases s.len(),
{
    broadcast use vstd::seq_lib::group_to_multiset_ensures;
    broadcast use vstd::multiset::group_multiset_axioms;

    if s.len() == 0 {
    } else {
        let body = s.drop_last();
        lemma_sort_models(body);
        lemma_insert_sorted(s.last(), sort_models(body));
        assert(s =~= body.push(s.last()));
        assert(s.to_multiset() =~= body.to_multiset().insert(s.last()));
        assert forall|x: EntryModel| #[trigger] sort_models(s).contains(x) implies s.contains(
            x,
        ) by {
            if x != s.last() && sort_models(body).contains(x) {
                let k = choose|k: int| 0 <= k < body.len() && body[k] == x;
                assert(s[k] == x);
            } else {
                assert(s[s.len() - 1] == s.last());
            }
        }
    }
}

/// The model the traversal gives one enumerated child: a file is a leaf; a
/// directory carries the recursive traversal of its own capability, or no
/// children at all when that traversal fails.
pub open spec fn child_model(p: MemProvider, rc: RawChild, fuel: nat) -> EntryModel
    decreases fuel, 1int, 0int,
{
    EntryModel {
        name: rc.name@,
        is_directory: rc.is_directory,
        children: if rc.is_directory {
            match refresh_models(p, rc.capability, fuel) {
                Some(c) => c,
                None => Seq::empty(),
            }
        } else {
            Seq::empty()
        },
        capability: Some(rc.capability),
    }
}

/// The models of a whole enumerated listing, in enumeration order.
pub open spec fn children_models(p: MemProvider, l: Seq<RawChild>, fuel: nat) -> Seq<EntryModel>
    decreases fuel, 2int, l.len(),
{
    if l.len() == 0 {
        Seq::empty()
    } else {
        seq![child_model(p, l[0], fuel)] + children_models(p, l.drop_first(), fuel)
    }
}

/// What a refresh of `cap` returns, at the model level: the sorted models
/// of the enumerated children, or nothing when the fuel is exhausted or the
/// capability cannot be enumerated.
pub open spec fn refresh_models(p: MemProvider, cap: u64, fuel: nat) -> Option<Seq<EntryModel>>
    decreases fuel, 0int, 0int,
{
    if fuel == 0 {
        None
    } else {
        match p.spec_listing(cap) {
            Some(Listing::Children(l)) => Some(
                sort_models(children_models(p, l@, (fuel - 1) as nat)),
            ),
            _ => None,
        }
    }
}

/// The listing models are the pointwise child models.
pub proof fn lemma_children_models(p: MemProvider, l: Seq<RawChild>, fuel: nat)
    ensures
        children_models(p, l, fuel).len() == l.len(),
        forall|i: int|
            0 <= i < l.len() ==> children_models(p, l, fuel)[i] == child_model(p, l[i], fuel),
    decreases l.len(),
{
    if l.len() > 0 {
        lemma_children_models(p, l.drop_first(), fuel);
    }
}

/// Where the scan of the insertion point stopped determines the insertion.
proof fn lemma_insert_sorted_at(e: EntryModel, s: Seq<EntryModel>, j: int)
    requires
        0 <= j <= s.len(),
        forall|k: int| 0 <= k < j ==> !model_le(e, #[trigger] s[k]),
        j < s.len() ==> model_le(e, s[j]),
    ensures
        insert_sorted(e, s) =~= s.take(j) + seq![e] + s.skip(j),
    decreases s.len(),
{
    if s.len() == 0 {
        assert(s.take(0) + seq![e] + s.skip(0) =~= seq![e]);
    } else if j == 0 {
        assert(s.take(0) + seq![e] + s.skip(0) =~= seq![e] + s);
    } else {
        assert(!model_le(e, s[0]));
        lemma_insert_sorted_at(e, s.drop_first(), j - 1);
        assert(seq![s[0]] + (s.drop_first().take(j - 1) + seq![e] + s.drop_first().skip(j - 1))
            =~= s.take(j) + seq![e] + s.skip(j));
    }
}

/// Sorts a sibling sequence: directories before files, names in
/// lexicographic order within each kind, by insertion from the left.
pub fn sort_entries(entries: Vec<FileSystemEntry>) -> (out: Vec<FileSystemEntry>)
    ensures
        entries_model(out@) == sort_models(entries_model(entries@)),
{
    let mut v = entries;
    let ghost orig: Seq<FileSystemEntry> = v@;
    let mut out: Vec<FileSystemEntry> = Vec::new();
    let ghost k: int = 0;
    proof {
        assert(entries_model(orig.take(0)) =~= Seq::empty());
        assert(v@ =~= orig.skip(0));
    }
    while v.len() > 0
        invariant
            0 <= k <= orig.len(),
            v@ =~= orig.skip(k),
            entries_model(out@) == sort_models(entries_model(orig.take(k))),
        decreases v@.len(),
    {
        let e = v.remove(0);
        proof {
            assert(orig.skip(k)[0] == orig[k]);
            assert(orig.skip(k).remove(0) =~= orig.skip(k + 1));
        }
        let ghost em = entry_model(e);
        let ghost out_models = entries_model(out@);
        let n2: usize = out.len();
        proof {
            lemma_entries_model(out@);
        }
        let mut j: usize = 0;
        while j < n2 && !entry_le(&e, &out[j])
            invariant
                0 <= j <= n2,
                n2 == out.len(),
                out_models == entries_model(out@),
                em == entry_model(e),
                forall|t: int| 0 <= t < j ==> !model_le(em, #[trigger] out_models[t]),
            decreases n2 - j,
        {
            proof {
                lemma_entries_model(out@);
            }
            j = j + 1;
        }
        proof {
            lemma_entries_model(out@);
            if j < n2 {
                assert(model_le(em, out_models[j as int]));
            }
            lemma_insert_sorted_at(em, out_models, j as int);
        }
        let ghost out_before = out@;
        out.insert(j, e);
        proof {
            lemma_entries_model(out_before);
            lemma_entries_model(out@);
            out_before.insert_ensures(j as int, e);
            assert(entries_model(out@) =~= out_models.take(j as int) + seq![em]
                + out_models.skip(j as int));
            assert(entries_model(out@) =~= insert_sorted(em, out_models));
            // one more element of the input sequence is now placed
            let taken = entries_model(orig.take(k + 1));
            lemma_entries_model(orig.take(k + 1));
            lemma_entries_model(orig.take(k));
            assert(taken.drop_last() =~= entries_model(orig.take(k)));
            assert(taken.last() == em);
            assert(sort_models(taken) == insert_sorted(em, sort_models(entries_model(orig.take(
                k,
            )))));
        }
        proof {
            k = k + 1;
        }
    }
    proof {
        assert(orig.take(k) =~= orig);
    }
    out
}

fn refresh_rec(p: &MemProvider, cap: u64, fuel: u64) -> (r: Option<Vec<FileSystemEntry>>)
    ensures
        match r {
            Some(v) => refresh_models(*p, cap, fuel as nat) matches Some(ms) && entries_model(v@)
                == ms,
            None => refresh_models(*p, cap, fuel as nat) is None,
        },
    decreases fuel,
{
    if fuel == 0 {
        return None;
    }
    let listing_opt = p.enumerate_children(cap);
    let children: &Vec<RawChild> = match listing_opt {
        Some(listing) => match listing {
            Listing::Children(c) => c,
            Listing::Unreadable => {
                return None;
            },
        },
        None => {
            return None;
        },
    };
    let n: usize = children.len();
    let ghost sub_fuel: nat = (fuel - 1) as nat;
    let mut pre: Vec<FileSystemEntry> = Vec::new();
    proof {
        assert(children@.take(0) =~= Seq::<RawChild>::empty());
        assert(entries_model(pre@) =~= children_models(*p, children@.take(0), sub_fuel));
    }
    let mut i: usize = 0;
    while i < n
        invariant
            0 <= i <= n,
            n == children@.len(),
            1 <= fuel,
            sub_fuel == (fuel - 1) as nat,
            entries_model(pre@) == children_models(*p, children@.take(i as int), sub_fuel),
            pre@.len() == i,
        decreases n - i,
    {
        let rc = &children[i];
        let subtree: Vec<FileSystemEntry> = if rc.is_directory {
            match refresh_rec(p, rc.capability, fuel - 1) {
                Some(t) => t,
                None => Vec::new(),
            }
        } else {
            Vec::new()
        };
        let e = FileSystemEntry {
            name: rc.name.clone(),
            is_directory: rc.is_directory,
            children: subtree,
            capability: Some(rc.capability),
        };
        proof {
            assert(entries_model(Seq::<FileSystemEntry>::empty()) =~= Seq::<EntryModel>::empty());
            assert(entries_model(e.children@) == child_model(*p, children@[i as int],
                sub_fuel).children);
            assert(entry_model(e) == child_model(*p, children@[i as int], sub_fuel));
        }
        let ghost pre_before = pre@;
        pre.push(e);
        proof {
            lemma_entries_model(pre_before);
            lemma_entries_model(pre@);
            lemma_children_models(*p, children@.take(i as int), sub_fuel);
            lemma_children_models(*p, children@.take(i + 1), sub_fuel);
            assert(pre@ =~= pre_before.push(e));
            assert forall|t: int| 0 <= t < i + 1 implies entries_model(pre@)[t] == children_models(
                *p,
                children@.take(i + 1),
                sub_fuel,
            )[t] by {
                assert(children@.take(i + 1)[t] == children@[t]);
                if t < i {
                    assert(children@.take(i as int)[t] == children@[t]);
                    assert(entries_model(pre@)[t] == entries_model(pre_before)[t]);
                }
            }
            assert(entries_model(pre@) =~= children_models(*p, children@.take(i + 1), sub_fuel));
        }
        i = i + 1;
    }
    proof {
        assert(children@.take(n as int) =~= children@);
    }
    let sorted = sort_entries(pre);
    Some(sorted)
}

/// Rebuilds the whole tree snapshot under a directory capability. The
/// result is exactly the sorted model of the enumeration, with failed
/// child-directory enumerations degraded to empty subtrees; only a root
/// that cannot be enumerated is an error, and the error is
/// `EnumerationFailed`.
pub fn refresh(p: &MemProvider, root: u64) -> (r: Result<Vec<FileSystemEntry>, HostError>)
    ensures
        r is Ok <==> p.enumerable(root),
        match r {
            Ok(v) => refresh_models(*p, root, MAX_DEPTH as nat) matches Some(ms) && entries_model(
                v@,
            ) == ms,
            Err(e) => e == HostError::EnumerationFailed && refresh_models(
                *p,
                root,
                MAX_DEPTH as nat,
            ) is None,
        },
{
    let r = refresh_rec(p, root, MAX_DEPTH);
    proof {
        assert(refresh_models(*p, root, MAX_DEPTH as nat) is Some <==> p.enumerable(root));
    }
    match r {
        Some(v) => Ok(v),
        None => Err(HostError::EnumerationFailed),
    }
}

/// The process-wide snapshot: the last successfully refreshed tree and a
/// monotonically increasing stamp of the last update.
pub struct TreeSnapshot {
    pub tree: Vec<FileSystemEntry>,
    pub updated_at: u64,
}

impl TreeSnapshot {
    /// The empty snapshot shown before the first refresh.
    pub fn new() -> (s: TreeSnapshot)
        ensures
            s.tree@ == Seq::<FileSystemEntry>::empty(),
            s.updated_at == 0,
    {
        TreeSnapshot { tree: Vec::new(), updated_at: 0 }
    }

    /// Refreshes the snapshot from a directory capability. On success the
    /// tree is replaced wholesale and the stamp increases; a failure leaves
    /// the previously displayed tree and stamp untouched.
    pub fn refresh_from(&mut self, p: &MemProvider, root: u64) -> (r: Option<HostError>)
        requires
            old(self).updated_at < u64::MAX,
        ensures
            match r {
                None => {
                    &&& p.enumerable(root)
                    &&& refresh_models(*p, root, MAX_DEPTH as nat) matches Some(ms)
                        && entries_model(final(self).tree@) == ms
                    &&& final(self).updated_at == old(self).updated_at + 1
                },
                Some(e) => {
                    &&& e == HostError::EnumerationFailed
                    &&& !p.enumerable(root)
                    &&& *final(self) == *old(self)
                },
            },
    {
        match refresh(p, root) {
            Ok(v) => {
                self.tree = v;
                self.updated_at = self.updated_at + 1;
                None
            },
            Err(e) => Some(e),
        }
    }
}

/// Every sibling sequence of the tree below this node, at every depth, is
/// sorted.
pub open spec fn model_tree_sorted(m: EntryModel) -> bool
    decreases m, 0int,
    via model_tree_sorted_decreases
{
    &&& sorted_by(m.children, model_order())
    &&& forest_sorted(m.children)
}

#[via_fn]
proof fn model_tree_sorted_decreases(m: EntryModel) {
    assert(decreases_to!(m => m.children));
}

/// Every tree of the forest is sorted at every depth.
pub open spec fn forest_sorted(s: Seq<EntryModel>) -> bool
    decreases s, 1int,
{
    if s.len() == 0 {
        true
    } else {
        model_tree_sorted(s[0]) && forest_sorted(s.drop_first())
    }
}

/// A forest is sorted at every depth exactly when each of its trees is.
pub proof fn lemma_forest_sorted(s: Seq<EntryModel>)
    ensures
        forest_sorted(s) <==> (forall|i: int|
            0 <= i < s.len() ==> #[trigger] model_tree_sorted(s[i])),
    decreases s,
{
    if s.len() > 0 {
        lemma_forest_sorted(s.drop_first());
        if forall|i: int| 0 <= i < s.len() ==> #[trigger] model_tree_sorted(s[i]) {
            assert forall|i: int|
                0 <= i < s.drop_first().len() implies #[trigger] model_tree_sorted(
                s.drop_first()[i],
            ) by {
                assert(s.drop_first()[i] == s[i + 1]);
                assert(model_tree_sorted(s[i + 1]));
            }
            assert(model_tree_sorted(s[0]));
            assert(forest_sorted(s));
        }
        if forest_sorted(s) {
            assert forall|i: int| 0 <= i < s.len() implies #[trigger] model_tree_sorted(s[i]) by {
                if i > 0 {
                    assert(s.drop_first()[i - 1] == s[i]);
                    assert(model_tree_sorted(s.drop_first()[i - 1]));
                } else {
                    assert(model_tree_sorted(s[0]));
                }
            }
        }
    }
}

/// Sorting invariant: every sibling sequence a refresh returns, at every
/// depth, is sorted by the sibling order.
pub proof fn lemma_refresh_sorted(p: MemProvider, cap: u64, fuel: nat)
    ensures
        refresh_models(p, cap, fuel) matches Some(ms) ==> {
            &&& sorted_by(ms, model_order())
            &&& forest_sorted(ms)
        },
    decreases fuel,
{
    if refresh_models(p, cap, fuel) is Some {
        match p.spec_listing(cap) {
            Some(lst) => match lst {
                Listing::Children(l) => {
                    let sub_fuel = (fuel - 1) as nat;
                    let cs = children_models(p, l@, sub_fuel);
                    let ms = sort_models(cs);
                    lemma_sort_models(cs);
                    lemma_children_models(p, l@, sub_fuel);
                    assert forall|i: int| 0 <= i < ms.len() implies #[trigger] model_tree_sorted(
                        ms[i],
                    ) by {
                        let x = ms[i];
                        assert(ms.contains(x));
                        assert(cs.contains(x));
                        let t = choose|t: int| 0 <= t < cs.len() && cs[t] == x;
                        let rc = l@[t];
                        assert(x == child_model(p, rc, sub_fuel));
                        if rc.is_directory {
                            lemma_refresh_sorted(p, rc.capability, sub_fuel);
                        }
                        assert(sorted_by(x.children, model_order()));
                        lemma_forest_sorted(x.children);
                        assert(forest_sorted(x.children));
                        assert(model_tree_sorted(x));
                    }
                    lemma_forest_sorted(ms);
                },
                Listing::Unreadable => {},
            },
            None => {},
        }
    }
}

/// Each name stands at most once among the siblings `s`.
pub open spec fn names_distinct(s: Seq<EntryModel>) -> bool {
    forall|i: int, j: int| 0 <= i < j < s.len() ==> s[i].name != s[j].name
}

/// Some sibling in `s` carries the name `nm`.
pub open spec fn has_name(s: Seq<EntryModel>, nm: Seq<char>) -> bool {
    exists|i: int| 0 <= i < s.len() && s[i].name == nm
}

proof fn lemma_insert_sorted_names(e: EntryModel, s: Seq<EntryModel>)
    ensures
        forall|nm: Seq<char>|
            #[trigger] has_name(insert_sorted(e, s), nm) <==> (nm == e.name || has_name(s, nm)),
        names_distinct(s) && !has_name(s, e.name) ==> names_distinct(insert_sorted(e, s)),
    decreases s.len(),
{
    let r = insert_sorted(e, s);
    if s.len() == 0 {
        assert forall|nm: Seq<char>|
            #[trigger] has_name(r, nm) <==> (nm == e.name || has_name(s, nm)) by {
            assert(r[0] == e);
            if nm == e.name {
                assert(has_name(r, nm));
            }
        }
    } else if model_le(e, s[0]) {
        assert(r =~= seq![e] + s);
        assert forall|nm: Seq<char>|
            #[trigger] has_name(r, nm) <==> (nm == e.name || has_name(s, nm)) by {
            if has_name(r, nm) {
                let i = choose|i: int| 0 <= i < r.len() && r[i].name == nm;
                if i > 0 {
                    assert(s[i - 1].name == nm);
                    assert(has_name(s, nm));
                }
            }
            if nm == e.name {
                assert(r[0].name == nm);
                assert(has_name(r, nm));
            }
            if has_name(s, nm) {
                let k = choose|k: int| 0 <= k < s.len() && s[k].name == nm;
                assert(r[k + 1].name == nm);
                assert(has_name(r, nm));
            }
        }
        if names_distinct(s) && !has_name(s, e.name) {
            assert forall|i: int, j: int| 0 <= i < j < r.len() implies r[i].name != r[j].name by {
                if i == 0 {
                    assert(r[j] == s[j - 1]);
                    if r[j].name == e.name {
                        assert(has_name(s, e.name));
                    }
                }
            }
        }
    } else {
        let rest = insert_sorted(e, s.drop_first());
        lemma_insert_sorted_names(e, s.drop_first());
        assert(r =~= seq![s[0]] + rest);
        assert forall|nm: Seq<char>|
            #[trigger] has_name(r, nm) <==> (nm == e.name || has_name(s, nm)) by {
            if has_name(r, nm) {
                let i = choose|i: int| 0 <= i < r.len() && r[i].name == nm;
                if i == 0 {
                    assert(s[0].name == nm);
                    assert(has_name(s, nm));
                } else {
                    assert(rest[i - 1].name == nm);
                    assert(has_name(rest, nm));
                    if nm != e.name {
                        assert(has_name(s.drop_first(), nm));
                        let k = choose|k: int|
                            0 <= k < s.drop_first().len() && s.drop_first()[k].name == nm;
                        assert(s[k + 1].name == nm);
                        assert(has_name(s, nm));
                    }
                }
            }
            if nm == e.name {
                assert(has_name(rest, nm));
                let k = choose|k: int| 0 <= k < rest.len() && rest[k].name == nm;
                assert(r[k + 1].name == nm);
                assert(has_name(r, nm));
            }
            if has_name(s, nm) {
                let k = choose|k: int| 0 <= k < s.len() && s[k].name == nm;
                if k == 0 {
                    assert(r[0].name == nm);
                } else {
                    assert(s.drop_first()[k - 1].name == nm);
                    assert(has_name(s.drop_first(), nm));
                    assert(has_name(rest, nm));
                    let t = choose|t: int| 0 <= t < rest.len() && rest[t].name == nm;
                    assert(r[t + 1].name == nm);
                }
                assert(has_name(r, nm));
            }
        }
        if names_distinct(s) && !has_name(s, e.name) {
            assert(names_distinct(s.drop_first())) by {
                assert forall|i: int, j: int|
                    0 <= i < j < s.drop_first().len() implies s.drop_first()[i].name
                    != s.drop_first()[j].name by {
                    assert(s.drop_first()[i] == s[i + 1]);
                    assert(s.drop_first()[j] == s[j + 1]);
                }
            }
            assert(!has_name(s.drop_first(), e.name)) by {
                if has_name(s.drop_first(), e.name) {
                    let k = choose|k: int|
                        0 <= k < s.drop_first().len() && s.drop_first()[k].name == e.name;
                    assert(s[k + 1].name == e.name);
                    assert(has_name(s, e.name));
                }
            }
            assert(names_distinct(rest));
            assert forall|i: int, j: int| 0 <= i < j < r.len() implies r[i].name != r[j].name by {
                if i == 0 {
                    assert(r[j] == rest[j - 1]);
                    assert(has_name(rest, rest[j - 1].name)) by {
                        assert(rest[j - 1].name == rest[j - 1].name);
                    }
                    if rest[j - 1].name == s[0].name {
                        assert(s[0].name == e.name || has_name(s.drop_first(), s[0].name));
                        if s[0].name == e.name {
                            assert(has_name(s, e.name)) by {
                                assert(s[0].name == e.name);
                            }
                        } else {
                            let k = choose|k: int|
                                0 <= k < s.drop_first().len() && s.drop_first()[k].name
                                    == s[0].name;
                            assert(s[k + 1].name == s[0].name);
                        }
                    }
                } else {
                    assert(r[i] == rest[i - 1] && r[j] == rest[j - 1]);
                }
            }
        }
    }
}

proof fn lemma_sort_models_names(s: Seq<EntryModel>)
    ensures
        forall|nm: Seq<char>| #[trigger] has_name(sort_models(s), nm) <==> has_name(s, nm),
        names_distinct(s) ==> names_distinct(sort_models(s)),
    decreases s.len(),
{
    let r = sort_models(s);
    if s.len() == 0 {
        assert forall|nm: Seq<char>| #[trigger] has_name(r, nm) <==> has_name(s, nm) by {
            if has_name(s, nm) {
                let i = choose|i: int| 0 <= i < s.len() && s[i].name == nm;
            }
        }
    } else {
        let body = s.drop_last();
        lemma_sort_models_names(body);
        lemma_insert_sorted_names(s.last(), sort_models(body));
        assert forall|nm: Seq<char>| #[trigger] has_name(r, nm) <==> has_name(s, nm) by {
            if has_name(r, nm) {
                if nm == s.last().name {
                    assert(s[s.len() - 1].name == nm);
                    assert(has_name(s, nm));
                } else {
                    assert(has_name(sort_models(body), nm));
                    assert(has_name(body, nm));
                    let k = choose|k: int| 0 <= k < body.len() && body[k].name == nm;
                    assert(s[k].name == nm);
                    assert(has_name(s, nm));
                }
            }
            if has_name(s, nm) {
                let k = choose|k: int| 0 <= k < s.len() && s[k].name == nm;
                if k == s.len() - 1 {
                    assert(nm == s.last().name);
                    assert(has_name(r, nm));
                } else {
                    assert(body[k].name == nm);
                    assert(has_name(body, nm));
                    assert(has_name(sort_models(body), nm));
                    assert(has_name(r, nm));
                }
            }
        }
        if names_distinct(s) {
            assert(names_distinct(body)) by {
                assert(forall|i: int, j: int|
                    0 <= i < j < body.len() ==> body[i] == s[i] && body[j] == s[j]);
            }
            assert(!has_name(body, s.last().name)) by {
                if has_name(body, s.last().name) {
                    let k = choose|k: int| 0 <= k < body.len() && body[k].name == s.last().name;
                    assert(s[k].name == s[s.len() - 1].name);
                }
            }
            assert(!has_name(sort_models(body), s.last().name));
            assert(names_distinct(r));
        }
    }
}

/// Each name stands at most once among the siblings of every directory of
/// the tree below this node.
pub open spec fn model_tree_distinct(m: EntryModel) -> bool
    decreases m, 0int,
    via model_tree_distinct_decreases
{
    &&& names_distinct(m.children)
    &&& forest_distinct(m.children)
}

#[via_fn]
proof fn model_tree_distinct_decreases(m: EntryModel) {
    assert(decreases_to!(m => m.children));
}

/// Every tree of the forest carries distinct sibling names at every depth.
pub open spec fn forest_distinct(s: Seq<EntryModel>) -> bool
    decreases s, 1int,
{
    if s.len() == 0 {
        true
    } else {
        model_tree_distinct(s[0]) && forest_distinct(s.drop_first())
    }
}

/// A forest carries distinct names at every depth exactly when each of its
/// trees does.
pub proof fn lemma_forest_distinct(s: Seq<EntryModel>)
    ensures
        forest_distinct(s) <==> (forall|i: int|
            0 <= i < s.len() ==> #[trigger] model_tree_distinct(s[i])),
    decreases s,
{
    if s.len() > 0 {
        lemma_forest_distinct(s.drop_first());
        if forall|i: int| 0 <= i < s.len() ==> #[trigger] model_tree_distinct(s[i]) {
            assert forall|i: int|
                0 <= i < s.drop_first().len() implies #[trigger] model_tree_distinct(
                s.drop_first()[i],
            ) by {
                assert(s.drop_first()[i] == s[i + 1]);
                assert(model_tree_distinct(s[i + 1]));
            }
            assert(model_tree_distinct(s[0]));
            assert(forest_distinct(s));
        }
        if forest_distinct(s) {
            assert forall|i: int| 0 <= i < s.len() implies #[trigger] model_tree_distinct(
                s[i],
            ) by {
                if i > 0 {
                    assert(s.drop_first()[i - 1] == s[i]);
                    assert(model_tree_distinct(s.drop_first()[i - 1]));
                } else {
                    assert(model_tree_distinct(s[0]));
                }
            }
        }
    }
}

/// Under a provider whose directories enumerate pairwise distinct child
/// names, every sibling sequence a refresh returns, at every depth, binds
/// each name at most once.
pub proof fn lemma_refresh_distinct_names(p: MemProvider, cap: u64, fuel: nat)
    requires
        p.wf(),
    ensures
        refresh_models(p, cap, fuel) matches Some(ms) ==> {
            &&& names_distinct(ms)
            &&& forest_distinct(ms)
        },
    decreases fuel,
{
    if refresh_models(p, cap, fuel) is Some {
        match p.spec_listing(cap) {
            Some(lst) => match lst {
                Listing::Children(l) => {
                    let sub_fuel = (fuel - 1) as nat;
                    let cs = children_models(p, l@, sub_fuel);
                    let ms = sort_models(cs);
                    lemma_sort_models(cs);
                    lemma_sort_models_names(cs);
                    lemma_children_models(p, l@, sub_fuel);
                    assert(distinct_names(l@));
                    assert(names_distinct(cs)) by {
                        assert forall|i: int, j: int| 0 <= i < j < cs.len() implies cs[i].name
                            != cs[j].name by {
                            assert(cs[i] == child_model(p, l@[i], sub_fuel));
                            assert(cs[j] == child_model(p, l@[j], sub_fuel));
                        }
                    }
                    assert(names_distinct(ms));
                    assert forall|i: int| 0 <= i < ms.len() implies #[trigger] model_tree_distinct(
                        ms[i],
                    ) by {
                        let x = ms[i];
                        assert(ms.contains(x));
                        assert(cs.contains(x));
                        let t = choose|t: int| 0 <= t < cs.len() && cs[t] == x;
                        let rc = l@[t];
                        assert(x == child_model(p, rc, sub_fuel));
                        if rc.is_directory {
                            lemma_refresh_distinct_names(p, rc.capability, sub_fuel);
                        }
                        assert(names_distinct(x.children));
                        lemma_forest_distinct(x.children);
                        assert(forest_distinct(x.children));
                        assert(model_tree_distinct(x));
                    }
                    lemma_forest_distinct(ms);
                },
                Listing::Unreadable => {},
            },
            None => {},
        }
    }
}

/// What the sibling order says of two sorted siblings with distinct names:
/// a directory never stands after a file, and within one kind the earlier
/// name is strictly before the later one.
pub proof fn lemma_sorted_strict(s: Seq<EntryModel>, i: int, j: int)
    requires
        sorted_by(s, model_order()),
        names_distinct(s),
        0 <= i < j < s.len(),
    ensures
        s[j].is_directory ==> s[i].is_directory,
        s[i].is_directory == s[j].is_directory ==> lex_le(s[i].name, s[j].name) && s[i].name
            != s[j].name && !lex_le(s[j].name, s[i].name),
{
    lemma_sorted_shape(s, i, j);
    if s[i].is_directory == s[j].is_directory && lex_le(s[j].name, s[i].name) {
        lemma_lex_le_antisymmetric(s[i].name, s[j].name);
    }
}

/// What the sibling order says of two sorted siblings: a directory never
/// stands after a file, and within one kind the earlier name is
/// lexicographically at or before the later one — strictly before it when
/// the two names differ.
pub proof fn lemma_sorted_shape(s: Seq<EntryModel>, i: int, j: int)
    requires
        sorted_by(s, model_order()),
        0 <= i < j < s.len(),
    ensures
        s[j].is_directory ==> s[i].is_directory,
        s[i].is_directory == s[j].is_directory ==> lex_le(s[i].name, s[j].name),
{
    assert(model_order()(s[i], s[j]));
}

/// Idempotence: refreshing the same unmodified directory twice yields
/// structurally equal trees — the traversal result is a function of the
/// provider state and the root capability alone.
pub proof fn lemma_refresh_idempotent(
    p: MemProvider,
    root: u64,
    t1: Seq<EntryModel>,
    t2: Seq<EntryModel>,
)
    requires
        refresh_models(p, root, MAX_DEPTH as nat) == Some(t1),
        refresh_models(p, root, MAX_DEPTH as nat) == Some(t2),
    ensures
        t1 == t2,
{
}

} // verus!

