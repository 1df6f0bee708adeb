//! An object store keyed by identifier, holding each object as the zlib
//! stream of its header and payload, written once.

use crate::compress::{compress, decompress, inflate_of, zlib_of};
use crate::decode::{decode, find_byte, match_at, CodecError};
use crate::hash::{
    copy_slice, decimal, fingerprint, lemma_decimal_digits, fingerprint_of, header, header_of, hex_of, kind_tag,
    loose_bytes, loose_object, ObjectId, ObjectKind,
};
use crate::object::{Object, ObjectModel};
use vstd::prelude::*;

verus! {

/// Why an object could not be read back.
#[derive(Clone, Copy, Debug, PartialEq, Eq, Structural)]
pub enum StoreError {
    /// No object with that identifier is stored.
    NotFound,
    /// The stored bytes do not decompress, or their header is damaged.
    CorruptData,
    /// The payload is not the encoding of an object of its kind.
    Malformed,
}

struct StoredObject {
    id: ObjectId,
    data: Vec<u8>,
}

/// The map that a list of (identifier, bytes) pairs describes; a later pair
/// wins over an earlier one.
pub open spec fn to_map(s: Seq<(Seq<u8>, Seq<u8>)>) -> Map<Seq<u8>, Seq<u8>>
    decreases s.len(),
{
    if s.len() == 0 {
        Map::empty()
    } else {
        to_map(s.drop_last()).insert(s.last().0, s.last().1)
    }
}

/// The canonical zlib-compressed loose form of an object.
pub open spec fn stored_form(m: ObjectModel) -> Seq<u8> {
    zlib_of(loose_bytes(m.kind(), m.payload()))
}

/// The store's contents after writing object `o` into `m`: unchanged when
/// its identifier is present already.
pub open spec fn after_put(m: Map<Seq<u8>, Seq<u8>>, o: ObjectModel) -> Map<Seq<u8>, Seq<u8>> {
    if m.contains_key(id_of(o)) {
        m
    } else {
        m.insert(id_of(o), stored_form(o))
    }
}

/// Writing the same object twice leaves the store as one write did, and
/// both writes name it by the same identifier.
pub proof fn lemma_put_idempotent(m: Map<Seq<u8>, Seq<u8>>, o: ObjectModel)
    ensures
        after_put(after_put(m, o), o) == after_put(m, o),
        after_put(m, o).contains_key(id_of(o)),
{
}

/// An object's identifier depends on its kind and payload alone.
pub proof fn lemma_content_addressing(a: ObjectModel, b: ObjectModel)
    requires
        a.kind() == b.kind(),
        a.payload() == b.payload(),
    ensures
        id_of(a) == id_of(b),
        stored_form(a) == stored_form(b),
{
}

/// The identifier of an object.
pub open spec fn id_of(m: ObjectModel) -> Seq<u8> {
    fingerprint_of(m.kind(), m.payload())
}

proof fn lemma_to_map(s: Seq<(Seq<u8>, Seq<u8>)>, k: Seq<u8>)
    requires
        forall|i: int, j: int| 0 <= i < j < s.len() ==> (#[trigger] s[i]).0 != (#[trigger] s[j]).0,
    ensures
        to_map(s).contains_key(k) <==> exists|i: int| 0 <= i < s.len() && (#[trigger] s[i]).0 == k,
        forall|i: int| 0 <= i < s.len() && (#[trigger] s[i]).0 == k ==> to_map(s)[k] == s[i].1,
    decreases s.len(),
{
    if s.len() > 0 {
        let t = s.drop_last();
        lemma_to_map(t, k);
        if to_map(s).contains_key(k) && s.last().0 != k {
            let i = choose|i: int| 0 <= i < t.len() && (#[trigger] t[i]).0 == k;
            assert(s[i] == t[i]);
        }
        if exists|i: int| 0 <= i < s.len() && (#[trigger] s[i]).0 == k {
            let i = choose|i: int| 0 <= i < s.len() && (#[trigger] s[i]).0 == k;
            if i < s.len() - 1 {
                assert(t[i] == s[i]);
            }
        }
        assert forall|i: int| 0 <= i < s.len() && (#[trigger] s[i]).0 == k implies to_map(s)[k]
            == s[i].1 by {
            if i < s.len() - 1 {
                assert(t[i] == s[i]);
                assert(s[i].0 != s[s.len() - 1].0);
            }
        }
    }
}

/// The objects of a repository, each written once under its identifier.
pub struct ObjectStore {
    items: Vec<StoredObject>,
}

impl ObjectStore {
    /// The stored pairs, in the order they were written.
    pub closed spec fn pairs(&self) -> Seq<(Seq<u8>, Seq<u8>)> {
        self.items@.map_values(|x: StoredObject| (x.id@, x.data@))
    }

    /// What the store holds: identifier to stored bytes.
    pub open spec fn view(&self) -> Map<Seq<u8>, Seq<u8>> {
        to_map(self.pairs())
    }

    /// The store's invariant: every identifier is stored once.
    pub closed spec fn wf(&self) -> bool {
        forall|i: int, j: int|
            0 <= i < j < self.pairs().len() ==> (#[trigger] self.pairs()[i]).0 != (
            #[trigger] self.pairs()[j]).0
    }

    /// An empty store.
    pub fn new() -> (r: ObjectStore)
        ensures
            r.wf(),
            r.view() == Map::<Seq<u8>, Seq<u8>>::empty(),
    {
        let r = ObjectStore { items: Vec::new() };
        assert(r.pairs().len() == 0);
        r
    }

    fn find(&self, id: &ObjectId) -> (r: Option<usize>)
        requires
            self.wf(),
        ensures
            r is None <==> !self.view().contains_key(id@),
            r matches Some(i) ==> i < self.pairs().len() && self.pairs()[i as int].0 == id@
                && self.view()[id@] == self.pairs()[i as int].1 && self.view().contains_key(id@),
    {
        proof {
            lemma_to_map(self.pairs(), id@);
        }
        let mut i: usize = 0;
        while i < self.items.len()
            invariant
                self.wf(),
                i <= self.items@.len(),
                self.pairs().len() == self.items@.len(),
                forall|j: int| 0 <= j < i ==> (#[trigger] self.pairs()[j]).0 != id@,
            decreases self.items@.len() - i,
        {
            assert(self.pairs()[i as int] == (self.items@[i as int].id@, self.items@[i as int].data@));
            if self.items[i].id.same_as(id) {
                proof {
                    lemma_to_map(self.pairs(), id@);
                }
                assert(self.pairs()[i as int].0 == id@);
                return Some(i);
            }
            i = i + 1;
        }
        None
    }

    /// Whether an object with this identifier is stored.
    pub fn contains(&self, id: &ObjectId) -> (r: bool)
        requires
            self.wf(),
        ensures
            r == self.view().contains_key(id@),
    {
        self.find(id).is_some()
    }

    /// The stored bytes under an identifier, if any.
    pub fn raw(&self, id: &ObjectId) -> (r: Option<Vec<u8>>)
        requires
            self.wf(),
        ensures
            r is None <==> !self.view().contains_key(id@),
            r matches Some(v) ==> v@ == self.view()[id@],
    {
        match self.find(id) {
            Some(i) => {
                assert(self.pairs()[i as int].1 == self.items@[i as int].data@);
                Some(copy_slice(self.items[i].data.as_slice()))
            },
            None => None,
        }
    }

    /// Stores bytes under an identifier unless it is already present, in
    /// which case nothing changes. Used to load objects written earlier.
    pub fn insert_raw(&mut self, id: &ObjectId, data: &[u8])
        requires
            old(self).wf(),
        ensures
            final(self).wf(),
            old(self).view().contains_key(id@) ==> final(self).view() == old(self).view(),
            !old(self).view().contains_key(id@) ==> final(self).view() == old(self).view().insert(
                id@,
                data@,
            ),
    {
        if self.find(id).is_some() {
            return;
        }
        let ghost before = self.pairs();
        proof {
            lemma_to_map(before, id@);
        }
        self.items.push(StoredObject { id: id.duplicate(), data: copy_slice(data) });
        proof {
            assert(self.pairs().drop_last() =~= before);
            assert(self.pairs().last() == (id@, data@));
            assert forall|i: int, j: int|
                0 <= i < j < self.pairs().len() implies (#[trigger] self.pairs()[i]).0 != (
                #[trigger] self.pairs()[j]).0 by {
                if j < self.pairs().len() - 1 {
                    assert(self.pairs()[i] == before[i]);
                    assert(self.pairs()[j] == before[j]);
                } else {
                    assert(self.pairs()[i] == before[i]);
                }
            }
        }
    }

    /// Stores a well-formed object and returns its identifier. Storing an
    /// object that is already present changes nothing. What a new object
    /// leaves under its identifier decompresses to its loose form, so `get`
    /// on that identifier returns the object.
    pub fn put(&mut self, o: &Object) -> (r: ObjectId)
        requires
            old(self).wf(),
            o@.wf(),
        ensures
            final(self).wf(),
            r.wf(),
            r@ == id_of(o@),
            final(self).view() == after_put(old(self).view(), o@),
            final(self).view().contains_key(r@),
            !old(self).view().contains_key(r@) ==> inflate_of(final(self).view()[r@]) == Some(
                loose_bytes(o@.kind(), o@.payload()),
            ),
    {
        let (kind, payload) = o.encode();
        let id = fingerprint(kind, payload.as_slice());
        if self.contains(&id) {
            return id;
        }
        let loose = loose_object(kind, payload.as_slice());
        let data = compress(loose.as_slice());
        self.insert_raw(&id, data.as_slice());
        id
    }

    /// Reads an object back: decompresses the stored bytes, checks the header
    /// and decodes the payload. `NotFound` when nothing is stored under `id`;
    /// `CorruptData` when the bytes do not decompress or the header is not
    /// `<tag> <length>\0` with the true length, or when the content does not
    /// hash to `id`; `Malformed` when the payload encodes no well-formed
    /// object of its kind.
    pub fn get(&self, id: &ObjectId) -> (r: Result<Object, StoreError>)
        requires
            self.wf(),
        ensures
            r == Err::<Object, StoreError>(StoreError::NotFound) <==> !self.view().contains_key(id@),
            self.view().contains_key(id@) && inflate_of(self.view()[id@]) is None ==> r == Err::<
                Object,
                StoreError,
            >(StoreError::CorruptData),
            forall|x: Seq<u8>|
                self.view().contains_key(id@) && self.view()[id@] == #[trigger] zlib_of(x).drop_last()
                    ==> r == Err::<Object, StoreError>(StoreError::CorruptData),
            self.view().contains_key(id@) && (inflate_of(self.view()[id@]) matches Some(raw)
                && forall|k: ObjectKind, b: Seq<u8>| #[trigger] loose_bytes(k, b) != raw) ==> r
                == Err::<Object, StoreError>(StoreError::CorruptData),
            r == Err::<Object, StoreError>(StoreError::CorruptData) ==> (inflate_of(self.view()[id@])
                is None || forall|k: ObjectKind, b: Seq<u8>|
                inflate_of(self.view()[id@]) == Some(#[trigger] loose_bytes(k, b)) ==> fingerprint_of(
                    k,
                    b,
                ) != id@),
            r == Err::<Object, StoreError>(StoreError::Malformed) ==> exists|k: ObjectKind, b: Seq<u8>|
                inflate_of(self.view()[id@]) == Some(#[trigger] loose_bytes(k, b)) && fingerprint_of(
                    k,
                    b,
                ) == id@,
            r matches Ok(o) ==> o@.wf() && id_of(o@) == id@ && inflate_of(self.view()[id@]) == Some(
                loose_bytes(o@.kind(), o@.payload()),
            ),
            forall|m: ObjectModel|
                m.wf() && id_of(m) == id@ && self.view().contains_key(id@) && inflate_of(
                    self.view()[id@],
                ) == Some(#[trigger] loose_bytes(m.kind(), m.payload())) ==> (r matches Ok(o) && o@
                    == m),
    {
        let data = match self.raw(id) {
            Some(d) => d,
            None => return Err(StoreError::NotFound),
        };
        let raw = match decompress(data.as_slice()) {
            Ok(v) => v,
            Err(_) => return Err(StoreError::CorruptData),
        };
        let rlen = raw.len();
        let sh = split_header(raw.as_slice());
        let (kind, start) = match sh {
            Some(x) => x,
            None => return Err(StoreError::CorruptData),
        };
        let payload = crate::decode::tail(raw.as_slice(), start);
        proof {
            assert(raw@ =~= header_of(kind, payload@.len()) + payload@);
            assert forall|m: ObjectModel| #[trigger] loose_bytes(m.kind(), m.payload()) == raw@ implies payload@
                == m.payload() && kind == m.kind() by {
                let b = m.payload();
                let hb = header_of(m.kind(), b.len());
                assert(raw@ == hb + b);
                assert(raw@.len() == hb.len() + b.len());
                assert(rlen == raw@.len());
                assert(sh == Some((m.kind(), (raw@.len() - b.len()) as usize)));
                assert(start == hb.len());
                assert(raw@.subrange(start as int, raw@.len() as int) =~= b);
            }
        }
        proof {
            assert(raw@ == loose_bytes(kind, payload@));
            assert forall|k: ObjectKind, b: Seq<u8>| #[trigger] loose_bytes(k, b) == raw@ implies k
                == kind && b == payload@ by {
                lemma_loose_unique(k, b, kind, payload@);
            }
        }
        let actual = fingerprint(kind, payload.as_slice());
        if !actual.same_as(id) {
            return Err(StoreError::CorruptData);
        }
        match decode(kind, payload.as_slice()) {
            Ok(o) => Ok(o),
            Err(CodecError::Malformed) => Err(StoreError::Malformed),
        }
    }
}


/// The positions of the delimiters in a loose object.
proof fn lemma_loose_shape(k: ObjectKind, b: Seq<u8>)
    ensures
        ({
            let raw = loose_bytes(k, b);
            let t = kind_tag(k).len() as int;
            let e = t + 1 + decimal(b.len()).len();
            &&& raw.len() == e + 1 + b.len()
            &&& raw[t] == 32u8
            &&& forall|j: int| 0 <= j < t ==> raw[j] != 32u8
            &&& raw.subrange(0, t) == kind_tag(k)
            &&& raw[e] == 0u8
            &&& forall|j: int| t + 1 <= j < e ==> raw[j] != 0u8
            &&& raw.subrange(e + 1, raw.len() as int) == b
        }),
{
    let raw = loose_bytes(k, b);
    let t = kind_tag(k);
    let d = decimal(b.len());
    lemma_decimal_digits(b.len());
    assert(raw =~= t + seq![32u8] + d + seq![0u8] + b);
    assert forall|j: int| t.len() + 1 <= j < t.len() + 1 + d.len() implies raw[j] != 0u8 by {
        assert(raw[j] == d[j - t.len() - 1]);
    }
    assert(raw.subrange(0, t.len() as int) =~= t);
    assert(raw.subrange((t.len() + 1 + d.len() + 1) as int, raw.len() as int) =~= b);
}

/// The first bytes of a loose object tell its kind.
proof fn lemma_tag_bytes(k: ObjectKind, raw: Seq<u8>)
    requires
        raw.len() > kind_tag(k).len(),
        raw.subrange(0, kind_tag(k).len() as int) == kind_tag(k),
    ensures
        k == ObjectKind::Blob <==> raw[0] == 98u8,
        k == ObjectKind::Tree <==> raw[0] == 116u8,
        k == ObjectKind::Commit <==> raw[0] == 99u8,
        raw.subrange(0, kind_tag(k).len() as int) == kind_tag(k),
{
    assert(raw[0] == raw.subrange(0, kind_tag(k).len() as int)[0]);
}

proof fn lemma_loose_unique(k1: ObjectKind, b1: Seq<u8>, k2: ObjectKind, b2: Seq<u8>)
    requires
        loose_bytes(k1, b1) == loose_bytes(k2, b2),
    ensures
        k1 == k2,
        b1 == b2,
{
    let raw = loose_bytes(k1, b1);
    lemma_loose_shape(k1, b1);
    lemma_loose_shape(k2, b2);
    let t1 = kind_tag(k1).len() as int;
    let t2 = kind_tag(k2).len() as int;
    assert(t1 == t2);
    lemma_tag_bytes(k1, raw);
    lemma_tag_bytes(k2, raw);
    let e1 = t1 + 1 + decimal(b1.len()).len();
    let e2 = t2 + 1 + decimal(b2.len()).len();
    assert(e1 == e2);
}

/// Splits a loose object into its kind and the index where its payload
/// starts; `None` when the header is damaged or its length is wrong.
pub fn split_header(raw: &[u8]) -> (r: Option<(ObjectKind, usize)>)
    ensures
        r matches Some((k, h)) ==> h <= raw@.len() && raw@ == header_of(k, (raw@.len() - h) as nat)
            + raw@.subrange(h as int, raw@.len() as int),
        forall|k: ObjectKind, b: Seq<u8>|
            #[trigger] loose_bytes(k, b) == raw@ ==> r == Some((k, (raw@.len() - b.len()) as usize)),
{
    let ghost k0: ObjectKind = ObjectKind::Blob;
    let ghost b0: Seq<u8> = Seq::empty();
    let ghost any = exists|k: ObjectKind, b: Seq<u8>| #[trigger] loose_bytes(k, b) == raw@;
    proof {
        if any {
            let (k1, b1) = choose|k: ObjectKind, b: Seq<u8>| #[trigger] loose_bytes(k, b) == raw@;
            k0 = k1;
            b0 = b1;
            lemma_loose_shape(k0, b0);
            assert forall|k: ObjectKind, b: Seq<u8>| #[trigger] loose_bytes(k, b) == raw@ implies k
                == k0 && b == b0 by {
                lemma_loose_unique(k, b, k0, b0);
            }
        }
    }
    let sp = match find_byte(raw, 0, 32) {
        Some(k) => k,
        None => return None,
    };
    let blob_tag: Vec<u8> = vec![98u8, 108, 111, 98];
    let tree_tag: Vec<u8> = vec![116u8, 114, 101, 101];
    let commit_tag: Vec<u8> = vec![99u8, 111, 109, 109, 105, 116];
    let kind = if sp == 4 && match_at(raw, 0, blob_tag.as_slice()) {
        ObjectKind::Blob
    } else if sp == 4 && match_at(raw, 0, tree_tag.as_slice()) {
        ObjectKind::Tree
    } else if sp == 6 && match_at(raw, 0, commit_tag.as_slice()) {
        ObjectKind::Commit
    } else {
        proof {
            if any {
                assert(raw@.subrange(0, kind_tag(k0).len() as int) == kind_tag(k0));
                lemma_tag_bytes(k0, raw@);
            }
        }
        return None;
    };
    proof {
        if any {
            assert(raw@.subrange(0, kind_tag(k0).len() as int) == kind_tag(k0));
            lemma_tag_bytes(k0, raw@);
        }
    }
    let nul = match find_byte(raw, sp + 1, 0) {
        Some(k) => k,
        None => return None,
    };
    let n = raw.len() - nul - 1;
    let h = header(kind, n);
    proof {
        if any {
            assert(raw@.subrange(0, 4)[0] == raw@[0]);
            assert(raw@.subrange(0, 6)[0] == raw@[0]);
            assert(kind == k0);
            assert(n == b0.len());
            assert(raw@.subrange(0, nul + 1) =~= header_of(k0, b0.len()));
        }
    }
    if h.len() != nul + 1 || !match_at(raw, 0, h.as_slice()) {
        return None;
    }
    proof {
        assert(raw@ =~= header_of(kind, n as nat) + raw@.subrange(nul + 1, raw@.len() as int));
    }
    Some((kind, nul + 1))
}

/// Where an object lives below the objects directory: the first two hex
/// digits of its identifier, `/`, then the remaining digits.
pub fn object_path(id: &ObjectId) -> (r: Vec<u8>)
    requires
        id.wf(),
    ensures
        r@ == hex_of(id@).take(2).push(47u8) + hex_of(id@).skip(2),
{
    let h = id.to_hex();
    proof {
        crate::hash::lemma_hex_len(id@);
    }
    let mut out: Vec<u8> = Vec::new();
    let mut i: usize = 0;
    while i < h.len()
        invariant
            i <= h@.len(),
            h@ == hex_of(id@),
            i <= 2 ==> out@ == h@.take(i as int),
            i > 2 ==> out@ == h@.take(2).push(47u8) + h@.subrange(2, i as int),
        decreases h@.len() - i,
    {
        if i == 2 {
            out.push(47);
        }
        out.push(h[i]);
        i = i + 1;
        assert(i <= 2 ==> out@ =~= h@.take(i as int));
        assert(i > 2 ==> out@ =~= h@.take(2).push(47u8) + h@.subrange(2, i as int));
    }
    assert(out@ =~= h@.take(2).push(47u8) + h@.skip(2));
    out
}

} // verus!
