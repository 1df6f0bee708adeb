//! Decoding of payloads back into objects.

use crate::hash::{
    bytes_equal, copy_slice, decimal, hex_of, lemma_decimal_digits, lemma_hex_len, parse_hex, ObjectId, ObjectKind,
};
use crate::object::{
    author_line_tag, committer_line_tag, parent_line_tag, tree_line_tag, parents_bytes,
    commit_bytes, ids_view, CommitModel, signature_bytes, tz_bytes, SignatureModel, encode_commit, encode_entries, entries_bytes, entry_bytes, mode_bytes, entries_view, field_ok, name_ok, seq_lt, signature_wf,
    sort_key, tree_wf, commit_wf, Commit, EntryModel, FileMode, Object, ObjectModel, Signature,
    TreeEntry,
};
use vstd::prelude::*;

verus! {

/// A payload that no well-formed object of the given kind encodes to.
#[derive(Clone, Copy, Debug, PartialEq, Eq, Structural)]
pub enum CodecError {
    Malformed,
}

/// Whether `a` sorts strictly before `b`, byte by byte.
pub fn bytes_lt(a: &[u8], b: &[u8]) -> (r: bool)
    ensures
        r == seq_lt(a@, b@),
{
    let mut i: usize = 0;
    assert(a@.subrange(0, a@.len() as int) == a@);
    assert(b@.subrange(0, b@.len() as int) == b@);
    while i < a.len() && i < b.len()
        invariant
            i <= a@.len(),
            i <= b@.len(),
            seq_lt(a@, b@) == seq_lt(
                a@.subrange(i as int, a@.len() as int),
                b@.subrange(i as int, b@.len() as int),
            ),
        decreases a@.len() - i,
    {
        if a[i] != b[i] {
            return a[i] < b[i];
        }
        assert(a@.subrange(i + 1, a@.len() as int) =~= a@.subrange(
            i as int,
            a@.len() as int,
        ).drop_first());
        assert(b@.subrange(i + 1, b@.len() as int) =~= b@.subrange(
            i as int,
            b@.len() as int,
        ).drop_first());
        i = i + 1;
    }
    i < b.len()
}

pub fn sort_key_exec(e: &TreeEntry) -> (r: Vec<u8>)
    ensures
        r@ == sort_key(e@),
{
    let mut k = copy_slice(e.name.as_slice());
    if e.mode == FileMode::Directory {
        k.push(47);
    }
    k
}

pub fn check_name(n: &[u8]) -> (r: bool)
    ensures
        r == name_ok(n@),
{
    if n.len() == 0 {
        return false;
    }
    let mut i: usize = 0;
    while i < n.len()
        invariant
            i <= n@.len(),
            forall|j: int| 0 <= j < i ==> #[trigger] n@[j] != 0u8 && n@[j] != 47u8,
        decreases n@.len() - i,
    {
        if n[i] == 0 || n[i] == 47 {
            return false;
        }
        i = i + 1;
    }
    true
}

/// Whether a list of entries forms a well-formed tree.
pub fn check_tree(es: &Vec<TreeEntry>) -> (r: bool)
    ensures
        r == tree_wf(entries_view(es@)),
{
    let ghost s = entries_view(es@);
    let mut i: usize = 0;
    while i < es.len()
        invariant
            i <= es@.len(),
            s == entries_view(es@),
            forall|k: int| 0 <= k < i ==> name_ok(#[trigger] s[k].name) && s[k].target.len() == 20,
            forall|k: int, j: int|
                0 <= k < j < es@.len() && k < i ==> seq_lt(sort_key(#[trigger] s[k]), sort_key(#[trigger] s[j]))
                    && s[k].name != s[j].name,
        decreases es@.len() - i,
    {
        assert(s[i as int] == es@[i as int]@);
        if !check_name(es[i].name.as_slice()) || es[i].target.as_bytes().len() != 20 {
            assert(!(name_ok(s[i as int].name) && s[i as int].target.len() == 20));
            assert(tree_wf(s) ==> name_ok(s[i as int].name));
            assert(tree_wf(s) ==> s[i as int].target.len() == 20);
            assert(!tree_wf(s));
            return false;
        }
        let ki = sort_key_exec(&es[i]);
        let mut j: usize = i + 1;
        while j < es.len()
            invariant
                i < j <= es@.len(),
                s == entries_view(es@),
                ki@ == sort_key(s[i as int]),
                forall|m: int|
                    i < m < j ==> seq_lt(sort_key(s[i as int]), sort_key(#[trigger] s[m])) && s[i as int].name
                        != s[m].name,
            decreases es@.len() - j,
        {
            let kj = sort_key_exec(&es[j]);
            assert(s[j as int] == es@[j as int]@);
            if !bytes_lt(ki.as_slice(), kj.as_slice()) || bytes_equal(
                es[i].name.as_slice(),
                es[j].name.as_slice(),
            ) {
                assert(!(seq_lt(sort_key(s[i as int]), sort_key(s[j as int])) && s[i as int].name
                    != s[j as int].name));
                return false;
            }
            j = j + 1;
        }
        i = i + 1;
    }
    true
}

fn check_field(n: &[u8]) -> (r: bool)
    ensures
        r == field_ok(n@),
{
    let mut i: usize = 0;
    while i < n.len()
        invariant
            i <= n@.len(),
            forall|j: int| 0 <= j < i ==> #[trigger] n@[j] != 60u8 && n@[j] != 62u8 && n@[j] != 10u8,
        decreases n@.len() - i,
    {
        if n[i] == 60 || n[i] == 62 || n[i] == 10 {
            return false;
        }
        i = i + 1;
    }
    true
}

/// Whether a signature is well formed.
pub fn check_signature(s: &Signature) -> (r: bool)
    ensures
        r == signature_wf(s@),
{
    check_field(s.name.as_slice()) && check_field(s.email.as_slice()) && -5999 <= s.tz_offset
        && s.tz_offset <= 5999
}

/// Whether a commit is well formed.
pub fn check_commit(c: &Commit) -> (r: bool)
    ensures
        r == commit_wf(c@),
{
    if c.tree.as_bytes().len() != 20 {
        return false;
    }
    let mut i: usize = 0;
    while i < c.parents.len()
        invariant
            i <= c.parents@.len(),
            forall|k: int| 0 <= k < i ==> (#[trigger] c@.parents[k]).len() == 20,
        decreases c.parents@.len() - i,
    {
        assert(c@.parents[i as int] == c.parents@[i as int]@);
        if c.parents[i].as_bytes().len() != 20 {
            return false;
        }
        i = i + 1;
    }
    check_signature(&c.author) && check_signature(&c.committer)
}

/// The first index at or after `from` that holds `c`.
pub fn find_byte(p: &[u8], from: usize, c: u8) -> (r: Option<usize>)
    ensures
        r matches Some(k) ==> from <= k < p@.len() && p@[k as int] == c && forall|j: int|
            from <= j < k ==> p@[j] != c,
        r is None ==> forall|j: int| from <= j < p@.len() ==> p@[j] != c,
{
    let mut i: usize = from;
    while i < p.len()
        invariant
            from <= i || i >= p@.len(),
            forall|j: int| from <= j < i ==> p@[j] != c,
        decreases p@.len() - i,
    {
        if p[i] == c {
            return Some(i);
        }
        i = i + 1;
    }
    None
}

/// A copy of `p[a..b]`.
fn sub_vec(p: &[u8], a: usize, b: usize) -> (r: Vec<u8>)
    requires
        a <= b <= p@.len(),
    ensures
        r@ == p@.subrange(a as int, b as int),
{
    let mut out: Vec<u8> = Vec::new();
    let mut i: usize = a;
    while i < b
        invariant
            a <= i <= b <= p@.len(),
            out@ == p@.subrange(a as int, i as int),
        decreases b - i,
    {
        out.push(p[i]);
        i = i + 1;
        assert(out@ =~= p@.subrange(a as int, i as int));
    }
    out
}

/// A copy of `p` from index `a` on.
pub fn tail(p: &[u8], a: usize) -> (r: Vec<u8>)
    requires
        a <= p@.len(),
    ensures
        r@ == p@.subrange(a as int, p@.len() as int),
{
    sub_vec(p, a, p.len())
}

/// Whether `lit` occurs in `p` at `pos`.
pub fn match_at(p: &[u8], pos: usize, lit: &[u8]) -> (r: bool)
    ensures
        r == (pos + lit@.len() <= p@.len() && p@.subrange(pos as int, pos + lit@.len()) == lit@),
{
    if pos > p.len() || lit.len() > p.len() - pos {
        return false;
    }
    let mut i: usize = 0;
    let plen = p.len();
    while i < lit.len()
        invariant
            plen == p@.len(),
            pos + lit@.len() <= p@.len(),
            i <= lit@.len(),
            forall|j: int| 0 <= j < i ==> p@[pos + j] == lit@[j],
        decreases lit@.len() - i,
    {
        if p[pos + i] != lit[i] {
            assert(p@.subrange(pos as int, pos + lit@.len())[i as int] != lit@[i as int]);
            return false;
        }
        i = i + 1;
    }
    assert(p@.subrange(pos as int, pos + lit@.len()) =~= lit@);
    true
}

fn mode_at(p: &[u8], a: usize, b: usize) -> (r: Option<FileMode>)
    requires
        a <= b <= p@.len(),
    ensures
        forall|m: FileMode| p@.subrange(a as int, b as int) == #[trigger] mode_bytes(m) ==> r == Some(m),
        r matches Some(m) ==> p@.subrange(a as int, b as int) == mode_bytes(m),
{
    let m = sub_vec(p, a, b);
    let regular: Vec<u8> = vec![49u8, 48, 48, 54, 52, 52];
    let executable: Vec<u8> = vec![49u8, 48, 48, 55, 53, 53];
    let symlink: Vec<u8> = vec![49u8, 50, 48, 48, 48, 48];
    let directory: Vec<u8> = vec![52u8, 48, 48, 48, 48];
    let submodule: Vec<u8> = vec![49u8, 54, 48, 48, 48, 48];
    proof {
        assert(mode_bytes(FileMode::Regular)[3] != mode_bytes(FileMode::Executable)[3]);
        assert(mode_bytes(FileMode::Regular)[1] != mode_bytes(FileMode::Symlink)[1]);
        assert(mode_bytes(FileMode::Regular)[1] != mode_bytes(FileMode::Submodule)[1]);
        assert(mode_bytes(FileMode::Executable)[1] != mode_bytes(FileMode::Symlink)[1]);
        assert(mode_bytes(FileMode::Executable)[1] != mode_bytes(FileMode::Submodule)[1]);
        assert(mode_bytes(FileMode::Symlink)[1] != mode_bytes(FileMode::Submodule)[1]);
        assert(mode_bytes(FileMode::Directory).len() == 5);
    }
    if bytes_equal(m.as_slice(), regular.as_slice()) {
        Some(FileMode::Regular)
    } else if bytes_equal(m.as_slice(), executable.as_slice()) {
        Some(FileMode::Executable)
    } else if bytes_equal(m.as_slice(), symlink.as_slice()) {
        Some(FileMode::Symlink)
    } else if bytes_equal(m.as_slice(), directory.as_slice()) {
        Some(FileMode::Directory)
    } else if bytes_equal(m.as_slice(), submodule.as_slice()) {
        Some(FileMode::Submodule)
    } else {
        None
    }
}

/// An entry whose name holds no NUL byte and whose target has 20 bytes can
/// be read back from its encoding.
pub open spec fn entry_readable(e: EntryModel) -> bool {
    name_ok(e.name) && e.target.len() == 20
}

/// A readable entry is encoded in `p` at `pos`.
pub open spec fn entry_at(p: Seq<u8>, pos: int, e: EntryModel) -> bool {
    entry_readable(e) && 0 <= pos && pos + entry_bytes(e).len() <= p.len() && p.subrange(
        pos,
        pos + entry_bytes(e).len(),
    ) == entry_bytes(e)
}

/// Where the parts of an encoded entry lie, when it occurs at `pos`.
proof fn lemma_entry_layout(e: EntryModel, p: Seq<u8>, pos: int)
    requires
        entry_readable(e),
        0 <= pos,
        pos + entry_bytes(e).len() <= p.len(),
        p.subrange(pos, pos + entry_bytes(e).len()) == entry_bytes(e),
    ensures
        ({
            let ml = mode_bytes(e.mode).len() as int;
            let nl = e.name.len() as int;
            &&& entry_bytes(e).len() == ml + nl + 22
            &&& p[pos + ml] == 32u8
            &&& forall|j: int| pos <= j < pos + ml ==> p[j] != 32u8
            &&& p.subrange(pos, pos + ml) == mode_bytes(e.mode)
            &&& p[pos + ml + 1 + nl] == 0u8
            &&& forall|j: int| pos + ml + 1 <= j < pos + ml + 1 + nl ==> p[j] != 0u8
            &&& p.subrange(pos + ml + 1, pos + ml + 1 + nl) == e.name
            &&& p.subrange(pos + ml + 2 + nl, pos + ml + 22 + nl) == e.target
        }),
{
    let mb = mode_bytes(e.mode);
    let ml = mb.len() as int;
    let nl = e.name.len() as int;
    let eb = entry_bytes(e);
    assert(eb =~= mb + seq![32u8] + e.name + seq![0u8] + e.target);
    assert forall|j: int| pos <= j < pos + ml implies p[j] != 32u8 by {
        assert(p[j] == eb[j - pos]);
        assert(eb[j - pos] == mb[j - pos]);
    }
    assert(p[pos + ml] == eb[ml]);
    assert(p[pos + ml + 1 + nl] == eb[ml + 1 + nl]);
    assert forall|j: int| pos + ml + 1 <= j < pos + ml + 1 + nl implies p[j] != 0u8 by {
        assert(p[j] == eb[j - pos]);
        assert(eb[j - pos] == e.name[j - pos - ml - 1]);
    }
    assert(p.subrange(pos, pos + ml) =~= mb) by {
        assert forall|j: int| 0 <= j < ml implies p.subrange(pos, pos + ml)[j] == mb[j] by {
            assert(p[pos + j] == eb[j]);
        }
    }
    assert(p.subrange(pos + ml + 1, pos + ml + 1 + nl) =~= e.name) by {
        assert forall|j: int| 0 <= j < nl implies p.subrange(pos + ml + 1, pos + ml + 1 + nl)[j]
            == e.name[j] by {
            assert(p[pos + ml + 1 + j] == eb[ml + 1 + j]);
        }
    }
    assert(p.subrange(pos + ml + 2 + nl, pos + ml + 22 + nl) =~= e.target) by {
        assert forall|j: int| 0 <= j < 20 implies p.subrange(pos + ml + 2 + nl, pos + ml + 22 + nl)[j]
            == e.target[j] by {
            assert(p[pos + ml + 2 + nl + j] == eb[ml + 2 + nl + j]);
        }
    }
}

/// Reads one tree entry at `pos`; returns it and the index just past it.
fn parse_entry(p: &[u8], pos: usize) -> (r: Option<(TreeEntry, usize)>)
    ensures
        r matches Some((x, q)) ==> pos < q <= p@.len() && x.target.wf(),
        forall|e: EntryModel| #[trigger] entry_at(p@, pos as int, e) ==> (r matches Some((x, q))
            && x@ == e && q == pos + entry_bytes(e).len()),
{
    proof {
        assert forall|e: EntryModel| #[trigger] entry_at(p@, pos as int, e) implies pos < p@.len() by {
            lemma_entry_layout(e, p@, pos as int);
        }
    }
    if pos >= p.len() {
        return None;
    }
    let sp = match find_byte(p, pos, 32) {
        Some(k) => k,
        None => {
            proof {
                assert forall|e: EntryModel| #[trigger] entry_at(p@, pos as int, e) implies false by {
                    lemma_entry_layout(e, p@, pos as int);
                }
            }
            return None;
        },
    };
    proof {
        assert forall|e: EntryModel| #[trigger] entry_at(p@, pos as int, e) implies sp == pos + mode_bytes(e.mode).len() by {
            lemma_entry_layout(e, p@, pos as int);
        }
    }
    let mode = match mode_at(p, pos, sp) {
        Some(m) => m,
        None => {
            proof {
                assert forall|e: EntryModel| #[trigger] entry_at(p@, pos as int, e) implies false by {
                    lemma_entry_layout(e, p@, pos as int);
                }
            }
            return None;
        },
    };
    let nul = match find_byte(p, sp + 1, 0) {
        Some(k) => k,
        None => {
            proof {
                assert forall|e: EntryModel| #[trigger] entry_at(p@, pos as int, e) implies false by {
                    lemma_entry_layout(e, p@, pos as int);
                }
            }
            return None;
        },
    };
    proof {
        assert forall|e: EntryModel| #[trigger] entry_at(p@, pos as int, e) implies nul == sp + 1 + e.name.len() && e.mode == mode by {
            lemma_entry_layout(e, p@, pos as int);
        }
    }
    if p.len() - nul - 1 < 20 {
        proof {
            assert forall|e: EntryModel| #[trigger] entry_at(p@, pos as int, e) implies false by {
                lemma_entry_layout(e, p@, pos as int);
            }
        }
        return None;
    }
    let name = sub_vec(p, sp + 1, nul);
    let raw = sub_vec(p, nul + 1, nul + 21);
    let target = match ObjectId::from_bytes(raw.as_slice()) {
        Some(id) => id,
        None => return None,
    };
    let x = TreeEntry { name, mode, target };
    proof {
        assert forall|e: EntryModel| #[trigger] entry_at(p@, pos as int, e) implies x@ == e && nul + 21 == pos
            + entry_bytes(e).len() by {
            lemma_entry_layout(e, p@, pos as int);
        }
    }
    Some((x, nul + 21))
}

proof fn lemma_entries_take(s: Seq<EntryModel>, k: int)
    requires
        0 <= k < s.len(),
    ensures
        entries_bytes(s.take(k + 1)) == entries_bytes(s.take(k)) + entry_bytes(s[k]),
{
    assert(s.take(k + 1).drop_last() =~= s.take(k));
}

proof fn lemma_entries_prefix(s: Seq<EntryModel>, k: int)
    requires
        0 <= k <= s.len(),
    ensures
        entries_bytes(s.take(k)).len() <= entries_bytes(s).len(),
        entries_bytes(s).subrange(0, entries_bytes(s.take(k)).len() as int) == entries_bytes(
            s.take(k),
        ),
    decreases s.len(),
{
    if k == s.len() {
        assert(s.take(k) =~= s);
        assert(entries_bytes(s).subrange(0, entries_bytes(s).len() as int) =~= entries_bytes(s));
    } else {
        let t = s.drop_last();
        assert(s.take(k) =~= t.take(k));
        lemma_entries_prefix(t, k);
        let a = entries_bytes(t.take(k));
        assert(entries_bytes(s) == entries_bytes(t) + entry_bytes(s.last()));
        assert(entries_bytes(s).subrange(0, a.len() as int) =~= entries_bytes(t).subrange(
            0,
            a.len() as int,
        ));
    }
}

proof fn lemma_entry_nonempty(e: EntryModel)
    ensures
        entry_bytes(e).len() > 0,
{
}

fn parse_entries(p: &[u8]) -> (r: Option<Vec<TreeEntry>>)
    ensures
        r matches Some(v) ==> forall|i: int| 0 <= i < v@.len() ==> (#[trigger] v@[i]).target.wf(),
        forall|s: Seq<EntryModel>|
            tree_wf(s) && #[trigger] entries_bytes(s) == p@ ==> (r matches Some(v) && entries_view(
                v@,
            ) == s),
{
    let mut out: Vec<TreeEntry> = Vec::new();
    let mut pos: usize = 0;
    proof {
        assert forall|s: Seq<EntryModel>| tree_wf(s) && #[trigger] entries_bytes(s) == p@ implies (0
            <= s.len() && entries_view(out@) == s.take(0) && pos == entries_bytes(s.take(0)).len()) by {
            assert(entries_view(out@) =~= s.take(0));
            assert(entries_bytes(s.take(0)) == Seq::<u8>::empty());
        }
    }
    while pos < p.len()
        invariant
            pos <= p@.len(),
            forall|i: int| 0 <= i < out@.len() ==> (#[trigger] out@[i]).target.wf(),
            forall|s: Seq<EntryModel>|
                tree_wf(s) && #[trigger] entries_bytes(s) == p@ ==> (out@.len() <= s.len()
                    && entries_view(out@) == s.take(out@.len() as int) && pos == entries_bytes(
                    s.take(out@.len() as int),
                ).len()),
        decreases p@.len() - pos,
    {
        let ghost k = out@.len() as int;
        proof {
            assert forall|s: Seq<EntryModel>| tree_wf(s) && #[trigger] entries_bytes(s) == p@ implies (k
                < s.len() && entry_at(p@, pos as int, s[k])) by {
                if k == s.len() {
                    assert(s.take(k) =~= s);
                    assert(false);
                }
                lemma_entries_take(s, k);
                lemma_entries_prefix(s, k + 1);
                assert(name_ok(s[k].name) && s[k].target.len() == 20);
                let a = entries_bytes(s.take(k));
                let b = entries_bytes(s.take(k + 1));
                assert(b == a + entry_bytes(s[k]));
                assert(b.len() <= p@.len());
                assert(p@.subrange(0, b.len() as int) == b);
                assert(pos == a.len());
                assert(p@.subrange(pos as int, pos + entry_bytes(s[k]).len()) =~= b.subrange(
                    a.len() as int,
                    b.len() as int,
                ));
                assert(b.subrange(a.len() as int, b.len() as int) =~= entry_bytes(s[k]));
            }
        }
        let (x, q) = match parse_entry(p, pos) {
            Some(pair) => pair,
            None => return None,
        };
        let ghost before = out@;
        out.push(x);
        proof {
            assert forall|s: Seq<EntryModel>| tree_wf(s) && #[trigger] entries_bytes(s) == p@ implies (
            out@.len() <= s.len() && entries_view(out@) == s.take(out@.len() as int) && q
                == entries_bytes(s.take(out@.len() as int)).len()) by {
                lemma_entries_take(s, k);
                assert(entries_view(out@) =~= entries_view(before).push(x@));
                assert(s.take(k + 1) =~= s.take(k).push(s[k]));
            }
        }
        pos = q;
    }
    proof {
        assert forall|s: Seq<EntryModel>| tree_wf(s) && #[trigger] entries_bytes(s) == p@ implies entries_view(out@) == s by {
            let k = out@.len() as int;
            if k < s.len() {
                lemma_entries_take(s, k);
                lemma_entries_prefix(s, k + 1);
                lemma_entry_nonempty(s[k]);
            }
            assert(s.take(k) =~= s);
        }
    }
    Some(out)
}

/// The value of a string of decimal digits.
pub open spec fn digits_value(s: Seq<u8>) -> nat
    decreases s.len(),
{
    if s.len() == 0 {
        0
    } else {
        digits_value(s.drop_last()) * 10 + (if s.last() >= 48 { (s.last() - 48) as nat } else { 0 })
    }
}

proof fn lemma_decimal_value(n: nat)
    ensures
        digits_value(decimal(n)) == n,
        decimal(n).len() > 0,
    decreases n,
{
    let d = decimal(n);
    if n >= 10 {
        lemma_decimal_value(n / 10);
        assert(d.drop_last() == decimal(n / 10));
        assert(d.last() == (48 + n % 10) as u8);
        assert(n == (n / 10) * 10 + n % 10);
    } else {
        assert(d.drop_last() =~= Seq::<u8>::empty());
        assert(digits_value(d.drop_last()) == 0);
    }
}

proof fn lemma_value_prefix(s: Seq<u8>, i: int)
    requires
        0 <= i <= s.len(),
    ensures
        digits_value(s.take(i)) <= digits_value(s),
    decreases s.len(),
{
    if i < s.len() {
        assert(s.take(i) =~= s.drop_last().take(i));
        lemma_value_prefix(s.drop_last(), i);
    } else {
        assert(s.take(i) =~= s);
    }
}


/// Reads the digits `p[a..b]` as a number; exact on the rendering of any `u64`.
fn parse_decimal(p: &[u8], a: usize, b: usize) -> (r: Option<u64>)
    requires
        a <= b <= p@.len(),
    ensures
        forall|n: u64| #[trigger] decimal(n as nat) == p@.subrange(a as int, b as int) ==> r == Some(n),
{
    proof {
        assert forall|n: u64| #[trigger] decimal(n as nat) == p@.subrange(a as int, b as int) implies a < b by {
            lemma_decimal_value(n as nat);
        }
    }
    if a == b {
        return None;
    }
    let mut v: u64 = 0;
    let mut i: usize = a;
    while i < b
        invariant
            a <= i <= b <= p@.len(),
            v == digits_value(p@.subrange(a as int, i as int)),
            forall|n: u64| #[trigger] decimal(n as nat) == p@.subrange(a as int, b as int) ==> v <= n,
        decreases b - i,
    {
        let c = p[i];
        proof {
            assert forall|n: u64| #[trigger] decimal(n as nat) == p@.subrange(a as int, b as int) implies 48
                <= c <= 57 && digits_value(p@.subrange(a as int, i + 1)) <= n by {
                lemma_decimal_digits(n as nat);
                lemma_decimal_value(n as nat);
                assert(c == decimal(n as nat)[i - a]);
                assert(p@.subrange(a as int, i + 1) =~= decimal(n as nat).take(i + 1 - a));
                lemma_value_prefix(decimal(n as nat), i + 1 - a);
            }
            assert(p@.subrange(a as int, i + 1).drop_last() =~= p@.subrange(a as int, i as int));
        }
        if c < 48 || c > 57 {
            return None;
        }
        let d = (c - 48) as u64;
        match v.checked_mul(10) {
            Some(t) => match t.checked_add(d) {
                Some(u) => {
                    v = u;
                },
                None => return None,
            },
            None => return None,
        }
        i = i + 1;
    }
    proof {
        assert forall|n: u64| #[trigger] decimal(n as nat) == p@.subrange(a as int, b as int) implies v == n by {
            lemma_decimal_value(n as nat);
        }
    }
    Some(v)
}

fn digit_at(p: &[u8], i: usize) -> (r: Option<u8>)
    requires
        i < p@.len(),
    ensures
        r matches Some(d) ==> d < 10 && d == p@[i as int] - 48,
        r is None <==> !(48 <= p@[i as int] <= 57),
{
    if 48 <= p[i] && p[i] <= 57 {
        Some(p[i] - 48)
    } else {
        None
    }
}

/// A well-formed signature is encoded in `p` at `q`.
pub open spec fn signature_at(p: Seq<u8>, q: int, sm: SignatureModel) -> bool {
    signature_wf(sm) && 0 <= q && q + signature_bytes(sm).len() <= p.len() && p.subrange(
        q,
        q + signature_bytes(sm).len(),
    ) == signature_bytes(sm)
}

/// Where the parts of an encoded signature lie, when it occurs at `q`.
proof fn lemma_signature_layout(sm: SignatureModel, p: Seq<u8>, q: int)
    requires
        signature_at(p, q, sm),
    ensures
        ({
            let nl = sm.name.len() as int;
            let el = sm.email.len() as int;
            let d = decimal(sm.timestamp as nat);
            let lt = q + nl + 1;
            let gt = lt + 1 + el;
            let sp = gt + 2 + d.len();
            &&& signature_bytes(sm).len() == sp + 6 - q
            &&& p[lt - 1] == 32u8
            &&& p[lt] == 60u8
            &&& forall|j: int| q <= j < lt ==> p[j] != 60u8
            &&& p.subrange(q, lt - 1) == sm.name
            &&& p[gt] == 62u8
            &&& forall|j: int| lt + 1 <= j < gt ==> p[j] != 62u8
            &&& p.subrange(lt + 1, gt) == sm.email
            &&& p[gt + 1] == 32u8
            &&& forall|j: int| gt + 2 <= j < sp ==> p[j] != 32u8
            &&& p[sp] == 32u8
            &&& p.subrange(gt + 2, sp) == d
            &&& p.subrange(sp + 1, sp + 6) == tz_bytes(sm.tz_offset)
        }),
{
    let nl = sm.name.len() as int;
    let el = sm.email.len() as int;
    let d = decimal(sm.timestamp as nat);
    let lt = q + nl + 1;
    let gt = lt + 1 + el;
    let sp = gt + 2 + d.len();
    let sb = signature_bytes(sm);
    lemma_decimal_digits(sm.timestamp as nat);
    assert(sb =~= sm.name + seq![32u8, 60u8] + sm.email + seq![62u8, 32u8] + d + seq![32u8]
        + tz_bytes(sm.tz_offset));
    assert forall|j: int| q <= j < sp + 6 implies p[j] == sb[j - q] by {
        assert(p.subrange(q, q + sb.len())[j - q] == p[j]);
    }
    assert forall|j: int| q <= j < lt implies p[j] != 60u8 by {
        if j < lt - 1 {
            assert(sb[j - q] == sm.name[j - q]);
        }
    }
    assert forall|j: int| lt + 1 <= j < gt implies p[j] != 62u8 by {
        assert(sb[j - q] == sm.email[j - lt - 1]);
    }
    assert forall|j: int| gt + 2 <= j < sp implies p[j] != 32u8 by {
        assert(sb[j - q] == d[j - gt - 2]);
    }
    assert(p.subrange(q, lt - 1) =~= sm.name) by {
        assert forall|j: int| 0 <= j < nl implies p.subrange(q, lt - 1)[j] == sm.name[j] by {
            assert(p[q + j] == sb[j]);
        }
    }
    assert(p.subrange(lt + 1, gt) =~= sm.email) by {
        assert forall|j: int| 0 <= j < el implies p.subrange(lt + 1, gt)[j] == sm.email[j] by {
            assert(p[lt + 1 + j] == sb[lt + 1 + j - q]);
        }
    }
    assert(p.subrange(gt + 2, sp) =~= d) by {
        assert forall|j: int| 0 <= j < d.len() implies p.subrange(gt + 2, sp)[j] == d[j] by {
            assert(p[gt + 2 + j] == sb[gt + 2 + j - q]);
        }
    }
    assert(p.subrange(sp + 1, sp + 6) =~= tz_bytes(sm.tz_offset)) by {
        assert forall|j: int| 0 <= j < 5 implies p.subrange(sp + 1, sp + 6)[j] == tz_bytes(
            sm.tz_offset,
        )[j] by {
            assert(p[sp + 1 + j] == sb[sp + 1 + j - q]);
        }
    }
}

/// The offset written as `tz_bytes` reads back as itself.
proof fn lemma_tz_digits(t: i16)
    requires
        -5999 <= t <= 5999,
    ensures
        ({
            let b = tz_bytes(t);
            let a: int = if t < 0 { -t } else { t as int };
            &&& 48 <= b[1] <= 57 && 48 <= b[2] <= 57 && 48 <= b[3] <= 57 && 48 <= b[4] <= 57
            &&& ((b[1] - 48) * 10 + (b[2] - 48)) * 60 + (b[3] - 48) * 10 + (b[4] - 48) == a
            &&& (t < 0 <==> b[0] == 45u8)
            &&& (t >= 0 <==> b[0] == 43u8)
        }),
{
    let a: int = if t < 0 { -t } else { t as int };
    let h = a / 60;
    let m = a % 60;
    assert(h < 100);
    assert(h == (h / 10) * 10 + h % 10);
    assert(m == (m / 10) * 10 + m % 10);
    assert(a == h * 60 + m);
}

/// Parses a signature starting at `pos`; returns it and the index just past it.
fn parse_signature(p: &[u8], pos: usize) -> (r: Option<(Signature, usize)>)
    ensures
        r matches Some((s, e)) ==> e <= p@.len(),
        forall|sm: SignatureModel| #[trigger] signature_at(p@, pos as int, sm) ==> (r matches Some((s, e))
            && s@ == sm && e == pos + signature_bytes(sm).len()),
{
    let lt = match find_byte(p, pos, 60) {
        Some(k) => k,
        None => {
            proof {
                assert forall|sm: SignatureModel| #[trigger] signature_at(p@, pos as int, sm) implies false by {
                    lemma_signature_layout(sm, p@, pos as int);
                }
            }
            return None;
        },
    };
    proof {
        assert forall|sm: SignatureModel| #[trigger] signature_at(p@, pos as int, sm) implies lt == pos
            + sm.name.len() + 1 by {
            lemma_signature_layout(sm, p@, pos as int);
        }
    }
    if lt == pos || p[lt - 1] != 32 {
        proof {
            assert forall|sm: SignatureModel| #[trigger] signature_at(p@, pos as int, sm) implies false by {
                lemma_signature_layout(sm, p@, pos as int);
            }
        }
        return None;
    }
    let gt = match find_byte(p, lt + 1, 62) {
        Some(k) => k,
        None => {
            proof {
                assert forall|sm: SignatureModel| #[trigger] signature_at(p@, pos as int, sm) implies false by {
                    lemma_signature_layout(sm, p@, pos as int);
                }
            }
            return None;
        },
    };
    proof {
        assert forall|sm: SignatureModel| #[trigger] signature_at(p@, pos as int, sm) implies gt == lt
            + 1 + sm.email.len() && gt + 1 < p@.len() by {
            lemma_signature_layout(sm, p@, pos as int);
        }
    }
    if gt + 1 >= p.len() || p[gt + 1] != 32 {
        proof {
            assert forall|sm: SignatureModel| #[trigger] signature_at(p@, pos as int, sm) implies false by {
                lemma_signature_layout(sm, p@, pos as int);
            }
        }
        return None;
    }
    let sp = match find_byte(p, gt + 2, 32) {
        Some(k) => k,
        None => {
            proof {
                assert forall|sm: SignatureModel| #[trigger] signature_at(p@, pos as int, sm) implies false by {
                    lemma_signature_layout(sm, p@, pos as int);
                }
            }
            return None;
        },
    };
    proof {
        assert forall|sm: SignatureModel| #[trigger] signature_at(p@, pos as int, sm) implies sp == gt
            + 2 + decimal(sm.timestamp as nat).len() && p@.subrange(gt + 2, sp as int) == decimal(
            sm.timestamp as nat,
        ) && p@.len() - sp >= 6 by {
            lemma_signature_layout(sm, p@, pos as int);
        }
    }
    let timestamp = match parse_decimal(p, gt + 2, sp) {
        Some(v) => v,
        None => return None,
    };
    if p.len() - sp < 6 {
        return None;
    }
    let sign = p[sp + 1];
    proof {
        assert forall|sm: SignatureModel| #[trigger] signature_at(p@, pos as int, sm) implies ({
            let b = tz_bytes(sm.tz_offset);
            &&& p@[sp + 1] == b[0] && p@[sp + 2] == b[1] && p@[sp + 3] == b[2]
            &&& p@[sp + 4] == b[3] && p@[sp + 5] == b[4]
            &&& sm.timestamp == timestamp
        }) by {
            lemma_signature_layout(sm, p@, pos as int);
            let b = tz_bytes(sm.tz_offset);
            let w = p@.subrange(sp + 1, sp + 6);
            assert(w[0] == p@[sp + 1] && w[1] == p@[sp + 2] && w[2] == p@[sp + 3]);
            assert(w[3] == p@[sp + 4] && w[4] == p@[sp + 5]);
        }
    }
    let (d1, d2, d3, d4) = match (
        digit_at(p, sp + 2),
        digit_at(p, sp + 3),
        digit_at(p, sp + 4),
        digit_at(p, sp + 5),
    ) {
        (Some(a), Some(b), Some(c), Some(d)) => (a, b, c, d),
        _ => {
            proof {
                assert forall|sm: SignatureModel| #[trigger] signature_at(p@, pos as int, sm) implies false by {
                    lemma_signature_layout(sm, p@, pos as int);
                    lemma_tz_digits(sm.tz_offset);
                }
            }
            return None;
        },
    };
    let minutes: i16 = ((d1 as i16) * 10 + d2 as i16) * 60 + (d3 as i16) * 10 + d4 as i16;
    let tz_offset: i16 = if sign == 45 {
        0 - minutes
    } else if sign == 43 {
        minutes
    } else {
        proof {
            assert forall|sm: SignatureModel| #[trigger] signature_at(p@, pos as int, sm) implies false by {
                lemma_signature_layout(sm, p@, pos as int);
                lemma_tz_digits(sm.tz_offset);
            }
        }
        return None;
    };
    let name = sub_vec(p, pos, lt - 1);
    let email = sub_vec(p, lt + 1, gt);
    let s = Signature { name, email, timestamp, tz_offset };
    proof {
        assert forall|sm: SignatureModel| #[trigger] signature_at(p@, pos as int, sm) implies s@ == sm
            && sp + 6 == pos + signature_bytes(sm).len() by {
            lemma_signature_layout(sm, p@, pos as int);
            lemma_tz_digits(sm.tz_offset);
        }
    }
    Some((s, sp + 6))
}

proof fn lemma_parents(ps: Seq<Seq<u8>>)
    requires
        forall|i: int| 0 <= i < ps.len() ==> (#[trigger] ps[i]).len() == 20,
    ensures
        parents_bytes(ps).len() == 48 * ps.len(),
        forall|k: int|
            0 <= k < ps.len() ==> parents_bytes(ps).subrange(48 * k, 48 * k + 48) == parent_line_tag()
                + #[trigger] hex_of(ps[k]).push(10u8),
    decreases ps.len(),
{
    if ps.len() > 0 {
        let t = ps.drop_last();
        assert forall|i: int| 0 <= i < t.len() implies (#[trigger] t[i]).len() == 20 by {
            assert(t[i] == ps[i]);
        }
        lemma_parents(t);
        lemma_hex_len(ps.last());
        let a = parents_bytes(t);
        let line = parent_line_tag() + hex_of(ps.last()).push(10u8);
        assert(parents_bytes(ps) == a + line);
        assert forall|k: int| 0 <= k < ps.len() implies parents_bytes(ps).subrange(48 * k, 48 * k + 48)
            == parent_line_tag() + #[trigger] hex_of(ps[k]).push(10u8) by {
            if k < t.len() {
                assert(t[k] == ps[k]);
                assert(parents_bytes(ps).subrange(48 * k, 48 * k + 48) =~= a.subrange(48 * k, 48 * k + 48));
            } else {
                assert(parents_bytes(ps).subrange(48 * k, 48 * k + 48) =~= line);
            }
        }
    }
}

proof fn lemma_sub_left(a: Seq<u8>, b: Seq<u8>, i: int, j: int)
    requires
        0 <= i <= j <= a.len(),
    ensures
        (a + b).subrange(i, j) == a.subrange(i, j),
{
    assert((a + b).subrange(i, j) =~= a.subrange(i, j));
}

proof fn lemma_sub_right(a: Seq<u8>, b: Seq<u8>, i: int, j: int)
    requires
        0 <= i <= j <= b.len(),
    ensures
        (a + b).subrange(a.len() + i, a.len() + j) == b.subrange(i, j),
{
    assert((a + b).subrange(a.len() + i, a.len() + j) =~= b.subrange(i, j));
}

/// The lines of a commit after its parents.
pub open spec fn commit_rest(c: CommitModel) -> Seq<u8> {
    author_line_tag() + signature_bytes(c.author).push(10u8) + committer_line_tag()
        + signature_bytes(c.committer).push(10u8).push(10u8) + c.message
}

/// The first lines of a commit: its tree and parents.
pub open spec fn commit_head(c: CommitModel) -> Seq<u8> {
    tree_line_tag() + hex_of(c.tree).push(10u8) + parents_bytes(c.parents)
}

proof fn lemma_commit_split(c: CommitModel)
    ensures
        commit_bytes(c) == commit_head(c) + commit_rest(c),
{
    assert(commit_bytes(c) =~= commit_head(c) + commit_rest(c));
}

/// Where the tree and parent lines of an encoded commit lie.
proof fn lemma_commit_head(c: CommitModel)
    requires
        commit_wf(c),
    ensures
        ({
            let h = commit_head(c);
            let n = c.parents.len() as int;
            &&& h.len() == 46 + 48 * n
            &&& h.subrange(0, 5) == tree_line_tag()
            &&& h.subrange(5, 45) == hex_of(c.tree)
            &&& h[45] == 10u8
            &&& forall|k: int|
                0 <= k < n ==> h.subrange(46 + 48 * k, 46 + 48 * k + 48) == parent_line_tag()
                    + #[trigger] hex_of(c.parents[k]).push(10u8)
        }),
{
    let n = c.parents.len() as int;
    lemma_parents(c.parents);
    lemma_hex_len(c.tree);
    let s0 = tree_line_tag() + hex_of(c.tree).push(10u8);
    let pb = parents_bytes(c.parents);
    let h = s0 + pb;
    assert(h.subrange(0, 5) =~= tree_line_tag());
    assert(h.subrange(5, 45) =~= hex_of(c.tree));
    assert forall|k: int| 0 <= k < n implies h.subrange(46 + 48 * k, 46 + 48 * k + 48) == parent_line_tag()
        + #[trigger] hex_of(c.parents[k]).push(10u8) by {
        lemma_sub_right(s0, pb, 48 * k, 48 * k + 48);
    }
}

/// Where the author, committer and message of an encoded commit lie.
proof fn lemma_commit_rest(c: CommitModel)
    ensures
        ({
            let r = commit_rest(c);
            let la = signature_bytes(c.author).len() as int;
            let lc = signature_bytes(c.committer).len() as int;
            &&& r.len() == 20 + la + lc + c.message.len()
            &&& r.subrange(0, 7) == author_line_tag()
            &&& r.subrange(7, 7 + la) == signature_bytes(c.author)
            &&& r[7 + la] == 10u8
            &&& r.subrange(8 + la, 18 + la) == committer_line_tag()
            &&& r.subrange(18 + la, 18 + la + lc) == signature_bytes(c.committer)
            &&& r[18 + la + lc] == 10u8
            &&& r[19 + la + lc] == 10u8
            &&& r.subrange(20 + la + lc, r.len() as int) == c.message
        }),
{
    let sa = signature_bytes(c.author);
    let sc = signature_bytes(c.committer);
    let la = sa.len() as int;
    let lc = sc.len() as int;
    let r = commit_rest(c);
    assert(r.subrange(0, 7) =~= author_line_tag());
    assert(r.subrange(7, 7 + la) =~= sa);
    assert(r.subrange(8 + la, 18 + la) =~= committer_line_tag());
    assert(r.subrange(18 + la, 18 + la + lc) =~= sc);
    assert(r.subrange(20 + la + lc, r.len() as int) =~= c.message);
}

/// A commit's encoding is its head lines followed by the rest.
proof fn lemma_commit_at(c: CommitModel, p: Seq<u8>)
    requires
        commit_wf(c),
        commit_bytes(c) == p,
    ensures
        ({
            let b = commit_head(c).len() as int;
            let la = signature_bytes(c.author).len() as int;
            let lc = signature_bytes(c.committer).len() as int;
            let e1 = b + 7 + la;
            let e2 = e1 + 11 + lc;
            &&& b == 46 + 48 * c.parents.len()
            &&& p.len() == e2 + 2 + c.message.len()
            &&& p.subrange(b, b + 7) == author_line_tag()
            &&& signature_at(p, b + 7, c.author)
            &&& p[e1] == 10u8
            &&& p.subrange(e1 + 1, e1 + 11) == committer_line_tag()
            &&& signature_at(p, e1 + 11, c.committer)
            &&& p[e2] == 10u8
            &&& p[e2 + 1] == 10u8
            &&& p.subrange(e2 + 2, p.len() as int) == c.message
        }),
{
    lemma_commit_split(c);
    lemma_commit_head(c);
    lemma_commit_rest(c);
    let h = commit_head(c);
    let r = commit_rest(c);
    let la = signature_bytes(c.author).len() as int;
    let lc = signature_bytes(c.committer).len() as int;
    lemma_sub_right(h, r, 0, 7);
    lemma_sub_right(h, r, 7, 7 + la);
    lemma_sub_right(h, r, 8 + la, 18 + la);
    lemma_sub_right(h, r, 18 + la, 18 + la + lc);
    lemma_sub_right(h, r, 20 + la + lc, r.len() as int);
    assert(p[h.len() + 7 + la] == r[7 + la]);
    assert(p[h.len() + 18 + la + lc] == r[18 + la + lc]);
    assert(p[h.len() + 19 + la + lc] == r[19 + la + lc]);
}

/// The tree and parent lines, as they stand in the encoding.
proof fn lemma_commit_lines(c: CommitModel, p: Seq<u8>)
    requires
        commit_wf(c),
        commit_bytes(c) == p,
    ensures
        p.len() >= 46 + 48 * c.parents.len() + 7,
        p.subrange(0, 5) == tree_line_tag(),
        p.subrange(5, 45) == hex_of(c.tree),
        p[45] == 10u8,
        forall|k: int|
            0 <= k < c.parents.len() ==> p.subrange(46 + 48 * k, 46 + 48 * k + 48) == parent_line_tag()
                + #[trigger] hex_of(c.parents[k]).push(10u8),
{
    lemma_commit_split(c);
    lemma_commit_head(c);
    lemma_commit_rest(c);
    let h = commit_head(c);
    let r = commit_rest(c);
    lemma_sub_left(h, r, 0, 5);
    lemma_sub_left(h, r, 5, 45);
    assert forall|k: int| 0 <= k < c.parents.len() implies p.subrange(46 + 48 * k, 46 + 48 * k + 48)
        == parent_line_tag() + #[trigger] hex_of(c.parents[k]).push(10u8) by {
        lemma_sub_left(h, r, 46 + 48 * k, 46 + 48 * k + 48);
    }
}

fn parse_commit(p: &[u8]) -> (r: Option<Commit>)
    ensures
        forall|c: CommitModel| commit_wf(c) && #[trigger] commit_bytes(c) == p@ ==> (r matches Some(x)
            && x@ == c),
{
    let tree_tag: Vec<u8> = vec![116u8, 114, 101, 101, 32];
    let parent_tag: Vec<u8> = vec![112u8, 97, 114, 101, 110, 116, 32];
    let author_tag: Vec<u8> = vec![97u8, 117, 116, 104, 111, 114, 32];
    let committer_tag: Vec<u8> = vec![99u8, 111, 109, 109, 105, 116, 116, 101, 114, 32];
    proof {
        assert forall|c: CommitModel| commit_wf(c) && #[trigger] commit_bytes(c) == p@ implies p@.len()
            >= 46 && p@.subrange(0, 5) == tree_tag@ && p@[45] == 10u8 by {
            lemma_commit_lines(c, p@);
        }
    }
    if p.len() < 46 || !match_at(p, 0, tree_tag.as_slice()) || p[45] != 10 {
        return None;
    }
    let tree = match parse_hex(p, 5, 20) {
        Some(v) => ObjectId::from_bytes(v.as_slice()),
        None => {
            proof {
                assert forall|c: CommitModel| commit_wf(c) && #[trigger] commit_bytes(c) == p@ implies false by {
                    lemma_commit_lines(c, p@);
                    lemma_commit_at(c, p@);
                }
            }
            return None;
        },
    };
    let tree = match tree {
        Some(id) => id,
        None => return None,
    };
    proof {
        assert forall|c: CommitModel| commit_wf(c) && #[trigger] commit_bytes(c) == p@ implies tree@ == c.tree by {
            lemma_commit_lines(c, p@);
            lemma_commit_at(c, p@);
        }
    }
    let mut parents: Vec<ObjectId> = Vec::new();
    let mut pos: usize = 46;
    let plen = p.len();
    while match_at(p, pos, parent_tag.as_slice())
        invariant
            plen == p@.len(),
            pos <= p@.len(),
            parent_tag@ == parent_line_tag(),
            forall|i: int| 0 <= i < parents@.len() ==> (#[trigger] parents@[i]).wf(),
            forall|c: CommitModel| commit_wf(c) && #[trigger] commit_bytes(c) == p@ ==> (parents@.len()
                <= c.parents.len() && ids_view(parents@) == c.parents.take(parents@.len() as int) && pos
                == 46 + 48 * parents@.len()),
        decreases p@.len() - pos,
    {
        let ghost k = parents@.len() as int;
        proof {
            assert forall|c: CommitModel| commit_wf(c) && #[trigger] commit_bytes(c) == p@ implies k
                < c.parents.len() && p@.len() - pos >= 48 && p@[pos + 47] == 10u8 && p@.subrange(
                pos + 7,
                pos + 47,
            ) == hex_of(c.parents[k]) && c.parents[k].len() == 20 by {
                lemma_commit_lines(c, p@);
                lemma_commit_at(c, p@);
                if k == c.parents.len() {
                    assert(p@.subrange(pos as int, pos + 7)[0] == p@[pos as int]);
                    assert(author_line_tag()[0] != parent_line_tag()[0]);
                }
                lemma_hex_len(c.parents[k]);
                let line = p@.subrange(pos as int, pos + 48);
                assert(line == parent_line_tag() + hex_of(c.parents[k]).push(10u8));
                assert(p@.subrange(pos + 7, pos + 47) =~= line.subrange(7, 47));
                assert(line.subrange(7, 47) =~= hex_of(c.parents[k]));
                assert(p@[pos + 47] == line[47]);
            }
        }
        if p.len() - pos < 48 || p[pos + 47] != 10 {
            return None;
        }
        let id = match parse_hex(p, pos + 7, 20) {
            Some(v) => ObjectId::from_bytes(v.as_slice()),
            None => return None,
        };
        let ghost before = parents@;
        match id {
            Some(id) => parents.push(id),
            None => return None,
        }
        proof {
            assert forall|c: CommitModel| commit_wf(c) && #[trigger] commit_bytes(c) == p@ implies (
            parents@.len() <= c.parents.len() && ids_view(parents@) == c.parents.take(
                parents@.len() as int,
            )) by {
                assert(ids_view(parents@) =~= ids_view(before).push(parents@[k]@));
                assert(c.parents.take(k + 1) =~= c.parents.take(k).push(c.parents[k]));
            }
        }
        pos = pos + 48;
    }
    proof {
        assert forall|c: CommitModel| commit_wf(c) && #[trigger] commit_bytes(c) == p@ implies ids_view(
            parents@,
        ) == c.parents && pos + 7 <= p@.len() && p@.subrange(pos as int, pos + 7) == author_tag@
            && signature_at(p@, pos + 7, c.author) by {
            lemma_commit_lines(c, p@);
            lemma_commit_at(c, p@);
            let k = parents@.len() as int;
            if k < c.parents.len() {
                let line = p@.subrange(pos as int, pos + 48);
                assert(line == parent_line_tag() + hex_of(c.parents[k]).push(10u8));
                assert(p@.subrange(pos as int, pos + 7) =~= line.subrange(0, 7));
                assert(line.subrange(0, 7) =~= parent_line_tag());
            }
            assert(c.parents.take(k) =~= c.parents);
        }
    }
    if !match_at(p, pos, author_tag.as_slice()) {
        return None;
    }
    let (author, e) = match parse_signature(p, pos + 7) {
        Some(x) => x,
        None => return None,
    };
    proof {
        assert forall|c: CommitModel| commit_wf(c) && #[trigger] commit_bytes(c) == p@ implies author@
            == c.author && e < p@.len() && p@[e as int] == 10u8 && e + 11 <= p@.len()
            && p@.subrange(e + 1, e + 11) == committer_tag@ && signature_at(p@, e + 11, c.committer) by {
            lemma_commit_lines(c, p@);
            lemma_commit_at(c, p@);
        }
    }
    if e >= p.len() || p[e] != 10 || !match_at(p, e + 1, committer_tag.as_slice()) {
        return None;
    }
    let (committer, e2) = match parse_signature(p, e + 11) {
        Some(x) => x,
        None => return None,
    };
    proof {
        assert forall|c: CommitModel| commit_wf(c) && #[trigger] commit_bytes(c) == p@ implies committer@
            == c.committer && p@.len() - e2 >= 2 && p@[e2 as int] == 10u8 && p@[e2 + 1] == 10u8
            && p@.subrange(e2 + 2, p@.len() as int) == c.message by {
            lemma_commit_lines(c, p@);
            lemma_commit_at(c, p@);
        }
    }
    if p.len() - e2 < 2 || p[e2] != 10 || p[e2 + 1] != 10 {
        return None;
    }
    let message = sub_vec(p, e2 + 2, p.len());
    let x = Commit { tree, parents, author, committer, message };
    Some(x)
}

/// Decodes a payload of the given kind. Succeeds exactly with the well-formed
/// object of that kind whose canonical payload is `payload`.
pub fn decode(kind: ObjectKind, payload: &[u8]) -> (r: Result<Object, CodecError>)
    ensures
        r matches Ok(o) ==> o@.wf() && o@.kind() == kind && o@.payload() == payload@,
        forall|m: ObjectModel|
            m.wf() && m.kind() == kind && #[trigger] m.payload() == payload@ ==> (r matches Ok(o)
                && o@ == m),
{
    match kind {
        ObjectKind::Blob => Ok(Object::Blob(copy_slice(payload))),
        ObjectKind::Tree => {
            let es = match parse_entries(payload) {
                Some(es) => es,
                None => return Err(CodecError::Malformed),
            };
            if !check_tree(&es) {
                return Err(CodecError::Malformed);
            }
            let again = encode_entries(&es);
            if !bytes_equal(again.as_slice(), payload) {
                return Err(CodecError::Malformed);
            }
            Ok(Object::Tree(es))
        },
        ObjectKind::Commit => {
            let c = match parse_commit(payload) {
                Some(c) => c,
                None => return Err(CodecError::Malformed),
            };
            if !check_commit(&c) {
                return Err(CodecError::Malformed);
            }
            let again = encode_commit(&c);
            if !bytes_equal(again.as_slice(), payload) {
                return Err(CodecError::Malformed);
            }
            Ok(Object::Commit(c))
        },
    }
}

} // verus!
