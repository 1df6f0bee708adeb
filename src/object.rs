//! The object model (blobs, trees, commits) and its canonical encoding.

use crate::hash::{append_slice, hex_of, decimal, push_decimal, push_hex, ObjectId, ObjectKind};
use vstd::prelude::*;

verus! {

/// The mode of a tree entry.
#[derive(Clone, Copy, Debug, PartialEq, Eq, Structural)]
pub enum FileMode {
    Regular,
    Executable,
    Symlink,
    Directory,
    Submodule,
}

/// One entry of a tree: a name, a mode and the identifier of its content.
pub struct TreeEntry {
    pub name: Vec<u8>,
    pub mode: FileMode,
    pub target: ObjectId,
}

/// Who made a commit and when: seconds since the epoch and the time-zone
/// offset in minutes east of UTC.
pub struct Signature {
    pub name: Vec<u8>,
    pub email: Vec<u8>,
    pub timestamp: u64,
    pub tz_offset: i16,
}

/// A commit: a root tree, its parents, author, committer and message.
pub struct Commit {
    pub tree: ObjectId,
    pub parents: Vec<ObjectId>,
    pub author: Signature,
    pub committer: Signature,
    pub message: Vec<u8>,
}

/// A stored object.
pub enum Object {
    Blob(Vec<u8>),
    Tree(Vec<TreeEntry>),
    Commit(Commit),
}

/// Mathematical view of a tree entry.
pub struct EntryModel {
    pub name: Seq<u8>,
    pub mode: FileMode,
    pub target: Seq<u8>,
}

/// Mathematical view of a signature.
pub struct SignatureModel {
    pub name: Seq<u8>,
    pub email: Seq<u8>,
    pub timestamp: u64,
    pub tz_offset: i16,
}

/// Mathematical view of a commit.
pub struct CommitModel {
    pub tree: Seq<u8>,
    pub parents: Seq<Seq<u8>>,
    pub author: SignatureModel,
    pub committer: SignatureModel,
    pub message: Seq<u8>,
}

/// Mathematical view of an object.
pub enum ObjectModel {
    Blob(Seq<u8>),
    Tree(Seq<EntryModel>),
    Commit(CommitModel),
}

impl View for TreeEntry {
    type V = EntryModel;

    open spec fn view(&self) -> EntryModel {
        EntryModel { name: self.name@, mode: self.mode, target: self.target@ }
    }
}

impl View for Signature {
    type V = SignatureModel;

    open spec fn view(&self) -> SignatureModel {
        SignatureModel {
            name: self.name@,
            email: self.email@,
            timestamp: self.timestamp,
            tz_offset: self.tz_offset,
        }
    }
}

/// The views of a sequence of tree entries.
pub open spec fn entries_view(v: Seq<TreeEntry>) -> Seq<EntryModel> {
    v.map_values(|e: TreeEntry| e@)
}

/// The views of a sequence of identifiers.
pub open spec fn ids_view(v: Seq<ObjectId>) -> Seq<Seq<u8>> {
    v.map_values(|id: ObjectId| id@)
}

impl View for Commit {
    type V = CommitModel;

    open spec fn view(&self) -> CommitModel {
        CommitModel {
            tree: self.tree@,
            parents: ids_view(self.parents@),
            author: self.author@,
            committer: self.committer@,
            message: self.message@,
        }
    }
}

impl View for Object {
    type V = ObjectModel;

    open spec fn view(&self) -> ObjectModel {
        match self {
            Object::Blob(b) => ObjectModel::Blob(b@),
            Object::Tree(es) => ObjectModel::Tree(entries_view(es@)),
            Object::Commit(c) => ObjectModel::Commit(c@),
        }
    }
}

/// Lexicographic order on byte strings: a proper prefix comes first.
pub open spec fn seq_lt(a: Seq<u8>, b: Seq<u8>) -> bool
    decreases a.len(),
{
    if b.len() == 0 {
        false
    } else if a.len() == 0 {
        true
    } else if a[0] != b[0] {
        a[0] < b[0]
    } else {
        seq_lt(a.drop_first(), b.drop_first())
    }
}

/// The octal mode string written for a tree entry.
pub open spec fn mode_bytes(m: FileMode) -> Seq<u8> {
    match m {
        FileMode::Regular => seq![49u8, 48, 48, 54, 52, 52],
        FileMode::Executable => seq![49u8, 48, 48, 55, 53, 53],
        FileMode::Symlink => seq![49u8, 50, 48, 48, 48, 48],
        FileMode::Directory => seq![52u8, 48, 48, 48, 48],
        FileMode::Submodule => seq![49u8, 54, 48, 48, 48, 48],
    }
}

/// The key that orders tree entries: the name, with `/` appended for a directory.
pub open spec fn sort_key(e: EntryModel) -> Seq<u8> {
    if e.mode == FileMode::Directory {
        e.name.push(47u8)
    } else {
        e.name
    }
}

/// A usable entry name: non-empty, with no NUL byte and no `/`.
pub open spec fn name_ok(n: Seq<u8>) -> bool {
    n.len() > 0 && forall|i: int| 0 <= i < n.len() ==> #[trigger] n[i] != 0u8 && n[i] != 47u8
}

/// A well-formed tree: valid names and identifiers, names unique, entries in
/// strictly increasing order of their keys.
pub open spec fn tree_wf(s: Seq<EntryModel>) -> bool {
    &&& forall|i: int| 0 <= i < s.len() ==> name_ok(#[trigger] s[i].name) && s[i].target.len() == 20
    &&& forall|i: int, j: int|
        0 <= i < j < s.len() ==> seq_lt(sort_key(#[trigger] s[i]), sort_key(#[trigger] s[j]))
            && s[i].name != s[j].name
}

/// The encoding of one tree entry: `<mode> <name>\0<20 raw bytes>`.
pub open spec fn entry_bytes(e: EntryModel) -> Seq<u8> {
    mode_bytes(e.mode).push(32u8) + e.name.push(0u8) + e.target
}

/// The encoding of a sequence of tree entries, concatenated in order.
pub open spec fn entries_bytes(s: Seq<EntryModel>) -> Seq<u8>
    decreases s.len(),
{
    if s.len() == 0 {
        Seq::empty()
    } else {
        entries_bytes(s.drop_last()) + entry_bytes(s.last())
    }
}

/// A field of a signature may hold no `<`, `>` or newline.
pub open spec fn field_ok(n: Seq<u8>) -> bool {
    forall|i: int| 0 <= i < n.len() ==> #[trigger] n[i] != 60u8 && n[i] != 62u8 && n[i] != 10u8
}

/// A well-formed signature: its fields are free of delimiters and the offset
/// fits in `+hhmm` form.
pub open spec fn signature_wf(s: SignatureModel) -> bool {
    field_ok(s.name) && field_ok(s.email) && -5999 <= s.tz_offset <= 5999
}

/// The offset written as a sign and four digits, hours then minutes.
pub open spec fn tz_bytes(t: i16) -> Seq<u8> {
    let a: int = if t < 0 { -t } else { t as int };
    let h = a / 60;
    let m = a % 60;
    seq![
        if t < 0 { 45u8 } else { 43u8 },
        (48 + h / 10) as u8,
        (48 + h % 10) as u8,
        (48 + m / 10) as u8,
        (48 + m % 10) as u8,
    ]
}

/// `<name> <<email>> <timestamp> <offset>`.
pub open spec fn signature_bytes(s: SignatureModel) -> Seq<u8> {
    s.name + seq![32u8, 60u8] + s.email + seq![62u8, 32u8] + decimal(s.timestamp as nat).push(32u8)
        + tz_bytes(s.tz_offset)
}

pub open spec fn tree_line_tag() -> Seq<u8> {
    seq![116u8, 114, 101, 101, 32]
}

pub open spec fn parent_line_tag() -> Seq<u8> {
    seq![112u8, 97, 114, 101, 110, 116, 32]
}

pub open spec fn author_line_tag() -> Seq<u8> {
    seq![97u8, 117, 116, 104, 111, 114, 32]
}

pub open spec fn committer_line_tag() -> Seq<u8> {
    seq![99u8, 111, 109, 109, 105, 116, 116, 101, 114, 32]
}

/// One `parent <hex>\n` line per parent, in order.
pub open spec fn parents_bytes(ps: Seq<Seq<u8>>) -> Seq<u8>
    decreases ps.len(),
{
    if ps.len() == 0 {
        Seq::empty()
    } else {
        parents_bytes(ps.drop_last()) + parent_line_tag() + hex_of(ps.last()).push(10u8)
    }
}

/// The encoding of a commit: header lines, a blank line, then the message.
pub open spec fn commit_bytes(c: CommitModel) -> Seq<u8> {
    tree_line_tag() + hex_of(c.tree).push(10u8) + parents_bytes(c.parents) + author_line_tag()
        + signature_bytes(c.author).push(10u8) + committer_line_tag() + signature_bytes(
        c.committer,
    ).push(10u8).push(10u8) + c.message
}

/// A well-formed commit: identifiers of 20 bytes and well-formed signatures.
pub open spec fn commit_wf(c: CommitModel) -> bool {
    &&& c.tree.len() == 20
    &&& forall|i: int| 0 <= i < c.parents.len() ==> (#[trigger] c.parents[i]).len() == 20
    &&& signature_wf(c.author)
    &&& signature_wf(c.committer)
}

impl ObjectModel {
    pub open spec fn kind(self) -> ObjectKind {
        match self {
            ObjectModel::Blob(_) => ObjectKind::Blob,
            ObjectModel::Tree(_) => ObjectKind::Tree,
            ObjectModel::Commit(_) => ObjectKind::Commit,
        }
    }

    /// The canonical payload of the object.
    pub open spec fn payload(self) -> Seq<u8> {
        match self {
            ObjectModel::Blob(b) => b,
            ObjectModel::Tree(s) => entries_bytes(s),
            ObjectModel::Commit(c) => commit_bytes(c),
        }
    }

    pub open spec fn wf(self) -> bool {
        match self {
            ObjectModel::Blob(_) => true,
            ObjectModel::Tree(s) => tree_wf(s),
            ObjectModel::Commit(c) => commit_wf(c),
        }
    }
}

fn push_mode(m: FileMode, out: &mut Vec<u8>)
    ensures
        final(out)@ == old(out)@ + mode_bytes(m),
{
    let lit: Vec<u8> = match m {
        FileMode::Regular => vec![49u8, 48, 48, 54, 52, 52],
        FileMode::Executable => vec![49u8, 48, 48, 55, 53, 53],
        FileMode::Symlink => vec![49u8, 50, 48, 48, 48, 48],
        FileMode::Directory => vec![52u8, 48, 48, 48, 48],
        FileMode::Submodule => vec![49u8, 54, 48, 48, 48, 48],
    };
    append_slice(out, lit.as_slice());
}

fn push_entry(e: &TreeEntry, out: &mut Vec<u8>)
    ensures
        final(out)@ == old(out)@ + entry_bytes(e@),
{
    push_mode(e.mode, out);
    out.push(32);
    append_slice(out, e.name.as_slice());
    out.push(0);
    append_slice(out, e.target.as_bytes());
    assert(final(out)@ =~= old(out)@ + entry_bytes(e@));
}

/// The encoding of a list of tree entries, in the order given.
pub fn encode_entries(entries: &Vec<TreeEntry>) -> (r: Vec<u8>)
    ensures
        r@ == entries_bytes(entries_view(entries@)),
{
    let mut out: Vec<u8> = Vec::new();
    let mut i: usize = 0;
    while i < entries.len()
        invariant
            i <= entries@.len(),
            out@ == entries_bytes(entries_view(entries@).take(i as int)),
        decreases entries@.len() - i,
    {
        push_entry(&entries[i], &mut out);
        i = i + 1;
        assert(entries_view(entries@).take(i as int).drop_last() =~= entries_view(entries@).take(
            i - 1,
        ));
    }
    assert(entries_view(entries@).take(i as int) =~= entries_view(entries@));
    out
}

fn push_tz(t: i16, out: &mut Vec<u8>)
    requires
        -5999 <= t <= 5999,
    ensures
        final(out)@ == old(out)@ + tz_bytes(t),
{
    let a: u16 = if t < 0 { (0 - t) as u16 } else { t as u16 };
    let h: u16 = a / 60;
    let m: u16 = a % 60;
    out.push(if t < 0 { 45 } else { 43 });
    out.push((48 + h / 10) as u8);
    out.push((48 + h % 10) as u8);
    out.push((48 + m / 10) as u8);
    out.push((48 + m % 10) as u8);
    assert(final(out)@ =~= old(out)@ + tz_bytes(t));
}

fn push_signature(s: &Signature, out: &mut Vec<u8>)
    requires
        signature_wf(s@),
    ensures
        final(out)@ == old(out)@ + signature_bytes(s@),
{
    append_slice(out, s.name.as_slice());
    out.push(32);
    out.push(60);
    append_slice(out, s.email.as_slice());
    out.push(62);
    out.push(32);
    push_decimal(s.timestamp, out);
    out.push(32);
    push_tz(s.tz_offset, out);
    assert(final(out)@ =~= old(out)@ + signature_bytes(s@));
}

/// The encoding of a well-formed commit.
pub fn encode_commit(c: &Commit) -> (r: Vec<u8>)
    requires
        signature_wf(c.author@),
        signature_wf(c.committer@),
    ensures
        r@ == commit_bytes(c@),
{
    let mut out: Vec<u8> = vec![116u8, 114, 101, 101, 32];
    push_hex(c.tree.as_bytes(), &mut out);
    out.push(10);
    let ghost head = out@;
    let mut i: usize = 0;
    while i < c.parents.len()
        invariant
            i <= c.parents@.len(),
            out@ == head + parents_bytes(ids_view(c.parents@).take(i as int)),
        decreases c.parents@.len() - i,
    {
        let tag: Vec<u8> = vec![112u8, 97, 114, 101, 110, 116, 32];
        append_slice(&mut out, tag.as_slice());
        push_hex(c.parents[i].as_bytes(), &mut out);
        out.push(10);
        i = i + 1;
        assert(ids_view(c.parents@).take(i as int).drop_last() =~= ids_view(c.parents@).take(
            i - 1,
        ));
        assert(out@ =~= head + parents_bytes(ids_view(c.parents@).take(i as int)));
    }
    assert(ids_view(c.parents@).take(i as int) =~= ids_view(c.parents@));
    let author_tag: Vec<u8> = vec![97u8, 117, 116, 104, 111, 114, 32];
    append_slice(&mut out, author_tag.as_slice());
    push_signature(&c.author, &mut out);
    out.push(10);
    let committer_tag: Vec<u8> = vec![99u8, 111, 109, 109, 105, 116, 116, 101, 114, 32];
    append_slice(&mut out, committer_tag.as_slice());
    push_signature(&c.committer, &mut out);
    out.push(10);
    out.push(10);
    append_slice(&mut out, c.message.as_slice());
    assert(out@ =~= commit_bytes(c@));
    out
}

impl Object {
    /// The kind of this object.
    pub fn kind(&self) -> (r: ObjectKind)
        ensures
            r == self@.kind(),
    {
        match self {
            Object::Blob(_) => ObjectKind::Blob,
            Object::Tree(_) => ObjectKind::Tree,
            Object::Commit(_) => ObjectKind::Commit,
        }
    }

    /// The type tag and canonical payload of a well-formed object.
    pub fn encode(&self) -> (r: (ObjectKind, Vec<u8>))
        requires
            self@.wf(),
        ensures
            r.0 == self@.kind(),
            r.1@ == self@.payload(),
    {
        match self {
            Object::Blob(b) => (ObjectKind::Blob, crate::hash::copy_slice(b.as_slice())),
            Object::Tree(es) => (ObjectKind::Tree, encode_entries(es)),
            Object::Commit(c) => (ObjectKind::Commit, encode_commit(c)),
        }
    }
}

} // verus!
