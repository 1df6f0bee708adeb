//! Builders that assemble trees and commits and write them to a store.

use crate::decode::{bytes_lt, check_signature, sort_key_exec, check_name};
use crate::hash::{bytes_equal, copy_slice, ObjectId};
use crate::object::{
    entries_view, ids_view, name_ok, seq_lt, signature_wf, sort_key, tree_wf, Commit,
    CommitModel, EntryModel, FileMode, Object, ObjectModel, Signature, TreeEntry,
};
use crate::store::{after_put, id_of, ObjectStore};
use vstd::prelude::*;

verus! {

/// Why a builder refused its input.
#[derive(Clone, Copy, Debug, PartialEq, Eq, Structural)]
pub enum BuildError {
    /// Two tree entries share a name.
    DuplicateName,
    /// A tree entry's name is empty or holds a NUL byte or `/`.
    InvalidName,
    /// A commit names a tree or parent that is not in the store.
    DanglingReference,
    /// A signature field holds `<`, `>` or a newline, or the offset is out of range.
    InvalidSignature,
}

pub proof fn lemma_lt_irreflexive(a: Seq<u8>)
    ensures
        !seq_lt(a, a),
    decreases a.len(),
{
    if a.len() > 0 {
        lemma_lt_irreflexive(a.drop_first());
    }
}

pub proof fn lemma_lt_transitive(a: Seq<u8>, b: Seq<u8>, c: Seq<u8>)
    requires
        seq_lt(a, b),
        seq_lt(b, c),
    ensures
        seq_lt(a, c),
    decreases a.len(),
{
    if a.len() > 0 && b.len() > 0 && c.len() > 0 && a[0] == b[0] && b[0] == c[0] {
        lemma_lt_transitive(a.drop_first(), b.drop_first(), c.drop_first());
    }
}

pub proof fn lemma_lt_total(a: Seq<u8>, b: Seq<u8>)
    requires
        a != b,
    ensures
        seq_lt(a, b) || seq_lt(b, a),
    decreases a.len(),
{
    if a.len() > 0 && b.len() > 0 && a[0] == b[0] {
        if a.drop_first() == b.drop_first() {
            assert(a =~= seq![a[0]] + a.drop_first());
            assert(b =~= seq![b[0]] + b.drop_first());
        }
        lemma_lt_total(a.drop_first(), b.drop_first());
    }
    if a.len() == 0 && b.len() == 0 {
        assert(a =~= b);
    }
}

/// Entries whose names are usable keys: equal keys mean equal names.
proof fn lemma_key_names(x: EntryModel, y: EntryModel)
    requires
        name_ok(x.name),
        name_ok(y.name),
        sort_key(x) == sort_key(y),
    ensures
        x.name == y.name,
{
    if x.mode == FileMode::Directory && y.mode != FileMode::Directory {
        assert(sort_key(x)[x.name.len() as int] == 47u8);
        assert(y.name[x.name.len() as int] != 47u8);
    } else if x.mode != FileMode::Directory && y.mode == FileMode::Directory {
        assert(sort_key(y)[y.name.len() as int] == 47u8);
        assert(x.name[y.name.len() as int] != 47u8);
    } else if x.mode == FileMode::Directory {
        assert(x.name =~= sort_key(x).drop_last());
        assert(y.name =~= sort_key(y).drop_last());
    }
}

/// Entries in strictly increasing key order.
pub open spec fn sorted_strict(s: Seq<EntryModel>) -> bool {
    forall|i: int, j: int|
        0 <= i < j < s.len() ==> seq_lt(sort_key(#[trigger] s[i]), sort_key(#[trigger] s[j]))
}

/// Two sequences hold the same elements.
pub open spec fn same_elements(a: Seq<EntryModel>, b: Seq<EntryModel>) -> bool {
    forall|x: EntryModel| a.contains(x) <==> b.contains(x)
}

/// The entries of `es` in canonical order: the strictly sorted sequence with
/// the same elements.
pub open spec fn canonical_order(es: Seq<EntryModel>) -> Seq<EntryModel> {
    choose|s: Seq<EntryModel>| sorted_strict(s) && same_elements(s, es)
}

/// No two entries share a name, and every name is usable.
pub open spec fn names_distinct(es: Seq<EntryModel>) -> bool {
    forall|i: int, j: int| 0 <= i < j < es.len() ==> (#[trigger] es[i]).name != (#[trigger] es[j]).name
}

pub open spec fn names_ok(es: Seq<EntryModel>) -> bool {
    forall|i: int| 0 <= i < es.len() ==> name_ok(#[trigger] es[i].name)
}

/// Two strictly sorted sequences with the same elements are equal.
pub proof fn lemma_sorted_unique(s1: Seq<EntryModel>, s2: Seq<EntryModel>)
    requires
        sorted_strict(s1),
        sorted_strict(s2),
        same_elements(s1, s2),
    ensures
        s1 == s2,
    decreases s1.len() + s2.len(),
{
    if s1.len() == 0 {
        if s2.len() > 0 {
            assert(s2.contains(s2[0]));
        }
        assert(s1 =~= s2);
        return;
    }
    if s2.len() == 0 {
        assert(s1.contains(s1[0]));
        return;
    }
    assert(s1.contains(s1[0]));
    assert(s2.contains(s2[0]));
    let j = choose|j: int| 0 <= j < s2.len() && s2[j] == s1[0];
    let i = choose|i: int| 0 <= i < s1.len() && s1[i] == s2[0];
    if j > 0 {
        if i > 0 {
            lemma_lt_transitive(sort_key(s2[0]), sort_key(s2[j]), sort_key(s1[i]));
        }
        lemma_lt_irreflexive(sort_key(s2[0]));
    }
    assert(s1[0] == s2[0]);
    let t1 = s1.drop_first();
    let t2 = s2.drop_first();
    assert forall|x: EntryModel| t1.contains(x) <==> t2.contains(x) by {
        if t1.contains(x) {
            let k = choose|k: int| 0 <= k < t1.len() && t1[k] == x;
            assert(s1[k + 1] == x);
            assert(s2.contains(x));
            let m = choose|m: int| 0 <= m < s2.len() && s2[m] == x;
            if m == 0 {
                lemma_lt_irreflexive(sort_key(s1[0]));
            }
            assert(t2[m - 1] == x);
        }
        if t2.contains(x) {
            let k = choose|k: int| 0 <= k < t2.len() && t2[k] == x;
            assert(s2[k + 1] == x);
            assert(s1.contains(x));
            let m = choose|m: int| 0 <= m < s1.len() && s1[m] == x;
            if m == 0 {
                lemma_lt_irreflexive(sort_key(s2[0]));
            }
            assert(t1[m - 1] == x);
        }
    }
    assert forall|a: int, b: int| 0 <= a < b < t1.len() implies seq_lt(
        sort_key(#[trigger] t1[a]),
        sort_key(#[trigger] t1[b]),
    ) by {
        assert(t1[a] == s1[a + 1] && t1[b] == s1[b + 1]);
    }
    assert forall|a: int, b: int| 0 <= a < b < t2.len() implies seq_lt(
        sort_key(#[trigger] t2[a]),
        sort_key(#[trigger] t2[b]),
    ) by {
        assert(t2[a] == s2[a + 1] && t2[b] == s2[b + 1]);
    }
    lemma_sorted_unique(t1, t2);
    assert forall|k: int| 0 <= k < s1.len() implies s1[k] == s2[k] by {
        if k > 0 {
            assert(s1[k] == t1[k - 1]);
            assert(s2[k] == t2[k - 1]);
        }
    }
    assert(s1 =~= s2);
}

impl TreeEntry {
    /// A copy of this entry.
    pub fn duplicate(&self) -> (r: TreeEntry)
        ensures
            r@ == self@,
    {
        TreeEntry { name: copy_slice(self.name.as_slice()), mode: self.mode, target: self.target.duplicate() }
    }
}

/// Sorts entries with distinct, usable names into canonical order.
pub fn sort_entries(es: &Vec<TreeEntry>) -> (r: Vec<TreeEntry>)
    requires
        names_distinct(entries_view(es@)),
        names_ok(entries_view(es@)),
    ensures
        entries_view(r@) == canonical_order(entries_view(es@)),
        sorted_strict(entries_view(r@)),
        same_elements(entries_view(r@), entries_view(es@)),
{
    let ghost src = entries_view(es@);
    let mut out: Vec<TreeEntry> = Vec::new();
    let mut i: usize = 0;
    while i < es.len()
        invariant
            i <= es@.len(),
            src == entries_view(es@),
            names_distinct(src),
            names_ok(src),
            sorted_strict(entries_view(out@)),
            same_elements(entries_view(out@), src.take(i as int)),
        decreases es@.len() - i,
    {
        let ghost cur = entries_view(out@);
        let e = es[i].duplicate();
        assert(e@ == src[i as int]);
        let ke = sort_key_exec(&e);
        let mut j: usize = 0;
        while j < out.len()
            invariant
                j <= out@.len(),
                cur == entries_view(out@),
                ke@ == sort_key(e@),
                forall|k: int| 0 <= k < j ==> !seq_lt(sort_key(e@), sort_key(#[trigger] cur[k])),
            ensures
                j <= out@.len(),
                cur == entries_view(out@),
                forall|k: int| 0 <= k < j ==> !seq_lt(sort_key(e@), sort_key(#[trigger] cur[k])),
                j < out@.len() ==> seq_lt(sort_key(e@), sort_key(cur[j as int])),
            decreases out@.len() - j,
        {
            let kj = sort_key_exec(&out[j]);
            if bytes_lt(ke.as_slice(), kj.as_slice()) {
                break;
            }
            j = j + 1;
        }
        proof {
            // Every entry already placed differs from `e` in its key.
            assert forall|k: int| 0 <= k < cur.len() implies sort_key(#[trigger] cur[k]) != sort_key(e@) by {
                assert(src.take(i as int).contains(cur[k]) == cur.contains(cur[k]));
                assert(cur.contains(cur[k]));
                let m = choose|m: int| 0 <= m < i && src.take(i as int)[m] == cur[k];
                assert(src[m] == cur[k]);
                if sort_key(cur[k]) == sort_key(e@) {
                    lemma_key_names(cur[k], e@);
                }
            }
        }
        out.insert(j, e);
        proof {
            let nxt = entries_view(out@);
            assert(nxt =~= cur.insert(j as int, e@));
            assert forall|a: int, b: int| 0 <= a < b < nxt.len() implies seq_lt(
                sort_key(#[trigger] nxt[a]),
                sort_key(#[trigger] nxt[b]),
            ) by {
                if a < j && b == j {
                    lemma_lt_total(sort_key(cur[a]), sort_key(e@));
                } else if a < j && b > j {
                    lemma_lt_total(sort_key(cur[a]), sort_key(e@));
                    if j < cur.len() {
                        if b - 1 > j {
                            lemma_lt_transitive(sort_key(cur[a]), sort_key(e@), sort_key(cur[j as int]));
                            lemma_lt_transitive(sort_key(cur[a]), sort_key(cur[j as int]), sort_key(cur[b - 1]));
                        } else {
                            lemma_lt_transitive(sort_key(cur[a]), sort_key(e@), sort_key(cur[j as int]));
                        }
                    }
                } else if a == j && b > j {
                    if b - 1 > j {
                        lemma_lt_transitive(sort_key(e@), sort_key(cur[j as int]), sort_key(cur[b - 1]));
                    }
                } else if a > j {
                    assert(nxt[a] == cur[a - 1] && nxt[b] == cur[b - 1]);
                }
            }
            assert(src.take(i + 1) =~= src.take(i as int).push(src[i as int]));
            assert forall|x: EntryModel| nxt.contains(x) <==> src.take(i + 1).contains(x) by {
                if nxt.contains(x) {
                    let k = choose|k: int| 0 <= k < nxt.len() && nxt[k] == x;
                    if k < j {
                        assert(cur.contains(cur[k]));
                    } else if k > j {
                        assert(cur.contains(cur[k - 1]));
                    }
                    if x != e@ {
                        assert(src.take(i as int).contains(x));
                        let m = choose|m: int| 0 <= m < i && src.take(i as int)[m] == x;
                        assert(src.take(i + 1)[m] == x);
                    } else {
                        assert(src.take(i + 1)[i as int] == x);
                    }
                }
                if src.take(i + 1).contains(x) {
                    let m = choose|m: int| 0 <= m < i + 1 && #[trigger] src.take(i + 1)[m] == x;
                    if m < i {
                        assert(src.take(i as int)[m] == x);
                        assert(src.take(i as int).contains(x));
                        let k = choose|k: int| 0 <= k < cur.len() && cur[k] == x;
                        if k < j {
                            assert(nxt[k] == x);
                        } else {
                            assert(nxt[k + 1] == x);
                        }
                    } else {
                        assert(nxt[j as int] == x);
                    }
                }
            }
        }
        i = i + 1;
    }
    proof {
        assert(src.take(i as int) =~= src);
        let c = canonical_order(src);
        assert(sorted_strict(c) && same_elements(c, src));
        lemma_sorted_unique(entries_view(out@), c);
    }
    out
}

/// Whether every entry's name is usable.
fn check_names(es: &Vec<TreeEntry>) -> (r: bool)
    ensures
        r == names_ok(entries_view(es@)),
{
    let mut i: usize = 0;
    while i < es.len()
        invariant
            i <= es@.len(),
            forall|k: int| 0 <= k < i ==> name_ok(#[trigger] entries_view(es@)[k].name),
        decreases es@.len() - i,
    {
        if !check_name(es[i].name.as_slice()) {
            assert(!name_ok(entries_view(es@)[i as int].name));
            return false;
        }
        i = i + 1;
    }
    true
}

/// Whether no two entries share a name.
fn check_distinct(es: &Vec<TreeEntry>) -> (r: bool)
    ensures
        r == names_distinct(entries_view(es@)),
{
    let ghost v = entries_view(es@);
    let mut i: usize = 0;
    while i < es.len()
        invariant
            i <= es@.len(),
            v == entries_view(es@),
            forall|a: int, b: int| 0 <= a < b < es@.len() && a < i ==> (#[trigger] v[a]).name != (#[trigger] v[b]).name,
        decreases es@.len() - i,
    {
        let mut j: usize = i + 1;
        while j < es.len()
            invariant
                i < j <= es@.len(),
                v == entries_view(es@),
                forall|b: int| i < b < j ==> v[i as int].name != (#[trigger] v[b]).name,
            decreases es@.len() - j,
        {
            if bytes_equal(es[i].name.as_slice(), es[j].name.as_slice()) {
                assert(v[i as int].name == v[j as int].name);
                return false;
            }
            j = j + 1;
        }
        i = i + 1;
    }
    true
}

/// The tree that a list of entries describes, in canonical order.
pub open spec fn tree_of(es: Seq<EntryModel>) -> ObjectModel {
    ObjectModel::Tree(canonical_order(es))
}

/// `e` placed into a sorted sequence just before the first entry whose key
/// exceeds its own.
pub open spec fn insert_sorted(s: Seq<EntryModel>, e: EntryModel) -> Seq<EntryModel>
    decreases s.len(),
{
    if s.len() == 0 {
        seq![e]
    } else if seq_lt(sort_key(e), sort_key(s[0])) {
        seq![e] + s
    } else {
        seq![s[0]] + insert_sorted(s.drop_first(), e)
    }
}

proof fn lemma_insert_sorted(s: Seq<EntryModel>, e: EntryModel)
    requires
        sorted_strict(s),
        forall|i: int| 0 <= i < s.len() ==> sort_key(#[trigger] s[i]) != sort_key(e),
    ensures
        sorted_strict(insert_sorted(s, e)),
        forall|x: EntryModel| #[trigger] insert_sorted(s, e).contains(x) <==> (s.contains(x) || x == e),
    decreases s.len(),
{
    let r = insert_sorted(s, e);
    if s.len() == 0 {
        assert forall|x: EntryModel| #[trigger] r.contains(x) <==> (s.contains(x) || x == e) by {
            if r.contains(x) {
                assert(r[0] == x);
            }
            if x == e {
                assert(r[0] == x);
            }
        }
    } else if seq_lt(sort_key(e), sort_key(s[0])) {
        assert forall|a: int, b: int| 0 <= a < b < r.len() implies seq_lt(
            sort_key(#[trigger] r[a]),
            sort_key(#[trigger] r[b]),
        ) by {
            if a == 0 {
                if b > 1 {
                    lemma_lt_transitive(sort_key(e), sort_key(s[0]), sort_key(s[b - 1]));
                }
            } else {
                assert(r[a] == s[a - 1] && r[b] == s[b - 1]);
            }
        }
        assert forall|x: EntryModel| #[trigger] r.contains(x) <==> (s.contains(x) || x == e) by {
            if r.contains(x) {
                let k = choose|k: int| 0 <= k < r.len() && r[k] == x;
                if k > 0 {
                    assert(s[k - 1] == x);
                }
            }
            if s.contains(x) {
                let k = choose|k: int| 0 <= k < s.len() && s[k] == x;
                assert(r[k + 1] == x);
            }
            if x == e {
                assert(r[0] == x);
            }
        }
    } else {
        let t = s.drop_first();
        assert forall|a: int, b: int| 0 <= a < b < t.len() implies seq_lt(
            sort_key(#[trigger] t[a]),
            sort_key(#[trigger] t[b]),
        ) by {
            assert(t[a] == s[a + 1] && t[b] == s[b + 1]);
        }
        assert forall|i: int| 0 <= i < t.len() implies sort_key(#[trigger] t[i]) != sort_key(e) by {
            assert(t[i] == s[i + 1]);
        }
        lemma_insert_sorted(t, e);
        let rt = insert_sorted(t, e);
        assert(sort_key(s[0]) != sort_key(e));
        lemma_lt_total(sort_key(s[0]), sort_key(e));
        assert forall|b: int| 0 <= b < rt.len() implies seq_lt(sort_key(s[0]), sort_key(#[trigger] rt[b])) by {
            assert(rt.contains(rt[b]));
            if rt[b] != e {
                assert(t.contains(rt[b]));
                let k = choose|k: int| 0 <= k < t.len() && t[k] == rt[b];
                assert(s[k + 1] == rt[b]);
            }
        }
        assert forall|a: int, b: int| 0 <= a < b < r.len() implies seq_lt(
            sort_key(#[trigger] r[a]),
            sort_key(#[trigger] r[b]),
        ) by {
            assert(r[b] == rt[b - 1]);
            if a > 0 {
                assert(r[a] == rt[a - 1]);
            }
        }
        assert forall|x: EntryModel| #[trigger] r.contains(x) <==> (s.contains(x) || x == e) by {
            if r.contains(x) {
                let k = choose|k: int| 0 <= k < r.len() && r[k] == x;
                if k > 0 {
                    assert(rt[k - 1] == x);
                    assert(rt.contains(x));
                    if x != e {
                        let m = choose|m: int| 0 <= m < t.len() && t[m] == x;
                        assert(s[m + 1] == x);
                    }
                }
            }
            if s.contains(x) {
                let k = choose|k: int| 0 <= k < s.len() && s[k] == x;
                if k > 0 {
                    assert(t[k - 1] == x);
                    assert(rt.contains(x));
                    let m = choose|m: int| 0 <= m < rt.len() && rt[m] == x;
                    assert(r[m + 1] == x);
                } else {
                    assert(r[0] == x);
                }
            }
            if x == e {
                assert(rt.contains(x));
                let m = choose|m: int| 0 <= m < rt.len() && rt[m] == x;
                assert(r[m + 1] == x);
            }
        }
    }
}

/// Entries with usable, distinct names can always be put in canonical order.
proof fn lemma_sorted_exists(es: Seq<EntryModel>)
    requires
        names_ok(es),
        names_distinct(es),
    ensures
        exists|s: Seq<EntryModel>| sorted_strict(s) && same_elements(s, es),
    decreases es.len(),
{
    if es.len() == 0 {
        let s = Seq::<EntryModel>::empty();
        assert(sorted_strict(s) && same_elements(s, es));
    } else {
        let t = es.drop_last();
        let e = es.last();
        assert forall|i: int| 0 <= i < t.len() implies name_ok(#[trigger] t[i].name) by {
            assert(t[i] == es[i]);
        }
        assert forall|i: int, j: int| 0 <= i < j < t.len() implies (#[trigger] t[i]).name != (
        #[trigger] t[j]).name by {
            assert(t[i] == es[i] && t[j] == es[j]);
        }
        lemma_sorted_exists(t);
        let w = choose|s: Seq<EntryModel>| sorted_strict(s) && same_elements(s, t);
        assert forall|i: int| 0 <= i < w.len() implies sort_key(#[trigger] w[i]) != sort_key(e) by {
            assert(w.contains(w[i]));
            assert(t.contains(w[i]));
            let m = choose|m: int| 0 <= m < t.len() && t[m] == w[i];
            assert(es[m] == w[i]);
            assert(name_ok(es[m].name));
            assert(name_ok(es[es.len() - 1].name));
            if sort_key(w[i]) == sort_key(e) {
                lemma_key_names(w[i], e);
            }
        }
        lemma_insert_sorted(w, e);
        let r = insert_sorted(w, e);
        assert forall|x: EntryModel| r.contains(x) <==> es.contains(x) by {
            assert(w.contains(x) <==> t.contains(x));
            if t.contains(x) {
                let m = choose|m: int| 0 <= m < t.len() && t[m] == x;
                assert(es[m] == x);
            }
            if es.contains(x) {
                let m = choose|m: int| 0 <= m < es.len() && es[m] == x;
                if m < es.len() - 1 {
                    assert(t[m] == x);
                }
            }
        }
        assert(sorted_strict(r) && same_elements(r, es));
    }
}

/// The order in which entries are given does not matter: lists with the
/// same elements describe the same tree, which has the same identifier.
pub proof fn lemma_tree_order_irrelevant(a: Seq<EntryModel>, b: Seq<EntryModel>)
    requires
        names_ok(a),
        names_distinct(a),
        same_elements(a, b),
    ensures
        tree_of(a) == tree_of(b),
        id_of(tree_of(a)) == id_of(tree_of(b)),
{
    lemma_sorted_exists(a);
    let w = choose|s: Seq<EntryModel>| sorted_strict(s) && same_elements(s, a);
    assert(same_elements(w, b));
    let ca = canonical_order(a);
    let cb = canonical_order(b);
    assert forall|x: EntryModel| ca.contains(x) <==> cb.contains(x) by {
        assert(a.contains(x) <==> b.contains(x));
    }
    lemma_sorted_unique(ca, cb);
}

/// Builds a tree from entries given in any order, stores it and returns its
/// identifier. Fails with `InvalidName` when a name is empty or holds a NUL
/// byte or `/`, and otherwise with `DuplicateName` when two entries share a name.
pub fn build_tree(store: &mut ObjectStore, entries: &Vec<TreeEntry>) -> (r: Result<ObjectId, BuildError>)
    requires
        old(store).wf(),
        forall|i: int| 0 <= i < entries@.len() ==> (#[trigger] entries@[i]).target.wf(),
    ensures
        final(store).wf(),
        !names_ok(entries_view(entries@)) <==> r == Err::<ObjectId, BuildError>(BuildError::InvalidName),
        names_ok(entries_view(entries@)) && !names_distinct(entries_view(entries@)) <==> r == Err::<
            ObjectId,
            BuildError,
        >(BuildError::DuplicateName),
        names_ok(entries_view(entries@)) && names_distinct(entries_view(entries@)) ==> r is Ok,
        r is Err ==> final(store).view() == old(store).view(),
        r matches Ok(id) ==> {
            let t = tree_of(entries_view(entries@));
            &&& t.wf()
            &&& id@ == id_of(t)
            &&& final(store).view() == after_put(old(store).view(), t)
        },
{
    if !check_names(entries) {
        return Err(BuildError::InvalidName);
    }
    if !check_distinct(entries) {
        return Err(BuildError::DuplicateName);
    }
    let sorted = sort_entries(entries);
    proof {
        let v = entries_view(entries@);
        let s = entries_view(sorted@);
        assert forall|i: int| 0 <= i < s.len() implies name_ok(#[trigger] s[i].name) && s[i].target.len() == 20 by {
            assert(s.contains(s[i]));
            let k = choose|k: int| 0 <= k < v.len() && v[k] == s[i];
            assert(entries@[k].target.wf());
        }
        assert forall|i: int, j: int| 0 <= i < j < s.len() implies seq_lt(sort_key(#[trigger] s[i]), sort_key(#[trigger] s[j]))
            && s[i].name != s[j].name by {
            if s[i].name == s[j].name {
                if s[i].mode == FileMode::Directory && s[j].mode != FileMode::Directory {
                    assert(s.contains(s[i]) && s.contains(s[j]));
                    let a = choose|a: int| 0 <= a < v.len() && v[a] == s[i];
                    let b = choose|b: int| 0 <= b < v.len() && v[b] == s[j];
                    assert(a != b);
                    if a < b {
                        assert(v[a].name != v[b].name);
                    } else {
                        assert(v[b].name != v[a].name);
                    }
                } else {
                    assert(s.contains(s[i]) && s.contains(s[j]));
                    let a = choose|a: int| 0 <= a < v.len() && v[a] == s[i];
                    let b = choose|b: int| 0 <= b < v.len() && v[b] == s[j];
                    if a == b {
                        lemma_lt_irreflexive(sort_key(s[i]));
                    } else if a < b {
                        assert(v[a].name != v[b].name);
                    } else {
                        assert(v[b].name != v[a].name);
                    }
                }
            }
        }
        assert(tree_wf(s));
    }
    let obj = Object::Tree(sorted);
    let id = store.put(&obj);
    Ok(id)
}

/// The commit that the builder's arguments describe.
pub open spec fn commit_of(
    tree: Seq<u8>,
    parents: Seq<Seq<u8>>,
    author: crate::object::SignatureModel,
    committer: crate::object::SignatureModel,
    message: Seq<u8>,
) -> ObjectModel {
    ObjectModel::Commit(CommitModel { tree, parents, author, committer, message })
}

/// Builds a commit, stores it and returns its identifier. Fails with
/// `DanglingReference` when the tree or a parent is not in the store, and
/// otherwise with `InvalidSignature` when a signature cannot be encoded.
pub fn build_commit(
    store: &mut ObjectStore,
    tree: &ObjectId,
    parents: Vec<ObjectId>,
    author: Signature,
    committer: Signature,
    message: Vec<u8>,
) -> (r: Result<ObjectId, BuildError>)
    requires
        old(store).wf(),
        tree.wf(),
        forall|i: int| 0 <= i < parents@.len() ==> (#[trigger] parents@[i]).wf(),
    ensures
        final(store).wf(),
        ({
            let refs_ok = old(store).view().contains_key(tree@) && forall|i: int|
                0 <= i < parents@.len() ==> old(store).view().contains_key(#[trigger] parents@[i]@);
            let c = commit_of(tree@, ids_view(parents@), author@, committer@, message@);
            &&& !refs_ok <==> r == Err::<ObjectId, BuildError>(BuildError::DanglingReference)
            &&& refs_ok && !(signature_wf(author@) && signature_wf(committer@)) <==> r == Err::<
                ObjectId,
                BuildError,
            >(BuildError::InvalidSignature)
            &&& refs_ok && signature_wf(author@) && signature_wf(committer@) ==> r is Ok
            &&& r is Err ==> final(store).view() == old(store).view()
            &&& r matches Ok(id) ==> {
                &&& c.wf()
                &&& id@ == id_of(c)
                &&& final(store).view() == after_put(old(store).view(), c)
            }
        }),
{
    if !store.contains(tree) {
        return Err(BuildError::DanglingReference);
    }
    let mut i: usize = 0;
    while i < parents.len()
        invariant
            store.wf(),
            i <= parents@.len(),
            forall|k: int| 0 <= k < i ==> store.view().contains_key(#[trigger] parents@[k]@),
        decreases parents@.len() - i,
    {
        if !store.contains(&parents[i]) {
            return Err(BuildError::DanglingReference);
        }
        i = i + 1;
    }
    if !check_signature(&author) || !check_signature(&committer) {
        return Err(BuildError::InvalidSignature);
    }
    let obj = Object::Commit(Commit { tree: tree.duplicate(), parents, author, committer, message });
    proof {
        assert(obj@ == commit_of(tree@, ids_view(parents@), author@, committer@, message@));
    }
    let id = store.put(&obj);
    Ok(id)
}

} // verus!
