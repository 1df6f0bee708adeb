//! Object identifiers, hexadecimal and decimal renderings, and SHA-1 addressing.

use vstd::prelude::*;

verus! {

/// Length in bytes of an object identifier (a SHA-1 digest).
pub const ID_LEN: usize = 20;

/// What SHA-1 yields on a byte sequence.
pub uninterp spec fn sha1_of(data: Seq<u8>) -> Seq<u8>;

/// Relies on `sha1::Sha1::digest`: the SHA-1 digest of `data`, 20 bytes long.
#[verifier::external_body]
fn sha1_digest(data: &[u8]) -> (r: Vec<u8>)
    ensures
        r@ == sha1_of(data@),
        r@.len() == 20,
{
    <sha1::Sha1 as sha1::Digest>::digest(data).to_vec()
}

/// The three kinds of stored object.
#[derive(Clone, Copy, Debug, PartialEq, Eq, Structural)]
pub enum ObjectKind {
    Blob,
    Tree,
    Commit,
}

/// The type tag written in an object's header.
pub open spec fn kind_tag(k: ObjectKind) -> Seq<u8> {
    match k {
        ObjectKind::Blob => seq![98u8, 108, 111, 98],
        ObjectKind::Tree => seq![116u8, 114, 101, 101],
        ObjectKind::Commit => seq![99u8, 111, 109, 109, 105, 116],
    }
}

/// Lowercase hexadecimal digit of a value below 16.
pub open spec fn hex_digit(v: nat) -> u8 {
    if v < 10 {
        (48 + v) as u8
    } else {
        (87 + v) as u8
    }
}

/// Lowercase hexadecimal rendering, two digits per byte, high nibble first.
pub open spec fn hex_of(b: Seq<u8>) -> Seq<u8>
    decreases b.len(),
{
    if b.len() == 0 {
        Seq::empty()
    } else {
        hex_of(b.drop_last()).push(hex_digit((b.last() / 16) as nat)).push(
            hex_digit((b.last() % 16) as nat),
        )
    }
}

/// Value of a lowercase hexadecimal digit.
pub open spec fn hex_value(c: u8) -> Option<nat> {
    if 48 <= c <= 57 {
        Some((c - 48) as nat)
    } else if 97 <= c <= 102 {
        Some((c - 87) as nat)
    } else {
        None
    }
}

/// Decimal rendering of a natural number, without leading zeros.
pub open spec fn decimal(n: nat) -> Seq<u8>
    decreases n,
{
    if n < 10 {
        seq![(48 + n) as u8]
    } else {
        decimal(n / 10).push((48 + n % 10) as u8)
    }
}

/// The header of a loose object: `<tag> <length>\0`.
pub open spec fn header_of(k: ObjectKind, len: nat) -> Seq<u8> {
    kind_tag(k).push(32u8) + decimal(len).push(0u8)
}

/// The bytes that are hashed and compressed for an object: header, then payload.
pub open spec fn loose_bytes(k: ObjectKind, payload: Seq<u8>) -> Seq<u8> {
    header_of(k, payload.len()) + payload
}

/// The identifier of an object of kind `k` with the given payload.
pub open spec fn fingerprint_of(k: ObjectKind, payload: Seq<u8>) -> Seq<u8> {
    sha1_of(loose_bytes(k, payload))
}

/// A 20-byte object identifier.
pub struct ObjectId {
    bytes: Vec<u8>,
}

impl View for ObjectId {
    type V = Seq<u8>;

    closed spec fn view(&self) -> Seq<u8> {
        self.bytes@
    }
}

impl ObjectId {
    /// An identifier is well formed when it holds exactly 20 bytes.
    pub open spec fn wf(&self) -> bool {
        self@.len() == 20
    }

    /// The identifier made of the given 20 bytes; `None` for any other length.
    pub fn from_bytes(b: &[u8]) -> (r: Option<ObjectId>)
        ensures
            b@.len() == 20 <==> r is Some,
            r matches Some(id) ==> id@ == b@ && id.wf(),
    {
        if b.len() != ID_LEN {
            return None;
        }
        Some(ObjectId { bytes: copy_slice(b) })
    }

    /// The raw bytes of the identifier.
    pub fn as_bytes(&self) -> (r: &[u8])
        ensures
            r@ == self@,
    {
        self.bytes.as_slice()
    }

    /// A copy of this identifier.
    pub fn duplicate(&self) -> (r: ObjectId)
        ensures
            r@ == self@,
    {
        ObjectId { bytes: copy_slice(self.bytes.as_slice()) }
    }

    /// Whether two identifiers hold the same bytes.
    pub fn same_as(&self, other: &ObjectId) -> (r: bool)
        ensures
            r == (self@ == other@),
    {
        bytes_equal(self.bytes.as_slice(), other.bytes.as_slice())
    }

    /// Lowercase hexadecimal form, as identifiers are shown to users.
    pub fn to_hex(&self) -> (r: Vec<u8>)
        ensures
            r@ == hex_of(self@),
    {
        let mut out: Vec<u8> = Vec::new();
        push_hex(self.bytes.as_slice(), &mut out);
        out
    }

    /// Parses 40 lowercase hexadecimal digits; `None` on any other input.
    pub fn from_hex(s: &[u8]) -> (r: Option<ObjectId>)
        ensures
            r matches Some(id) ==> id.wf() && hex_of(id@) == s@,
            forall|b: Seq<u8>| b.len() == 20 && #[trigger] hex_of(b) == s@ ==> (r matches Some(id) && id@ == b),
    {
        if s.len() != 40 {
            proof {
                assert forall|b: Seq<u8>| b.len() == 20 implies #[trigger] hex_of(b).len() == 40 by {
                    lemma_hex_len(b);
                }
            }
            return None;
        }
        assert(s@.subrange(0, 40) == s@);
        match parse_hex(s, 0, ID_LEN) {
            Some(v) => Some(ObjectId { bytes: v }),
            None => None,
        }
    }
}

/// Copies a byte slice into a new vector.
pub fn copy_slice(b: &[u8]) -> (r: Vec<u8>)
    ensures
        r@ == b@,
{
    let mut out: Vec<u8> = Vec::new();
    append_slice(&mut out, b);
    out
}

/// Appends every byte of `b` to `out`.
pub fn append_slice(out: &mut Vec<u8>, b: &[u8])
    ensures
        final(out)@ == old(out)@ + b@,
{
    let mut i: usize = 0;
    while i < b.len()
        invariant
            i <= b@.len(),
            out@ == old(out)@ + b@.take(i as int),
        decreases b@.len() - i,
    {
        out.push(b[i]);
        i = i + 1;
        assert(b@.take(i as int) == b@.take(i - 1).push(b@[i - 1]));
    }
    assert(b@.take(b@.len() as int) == b@);
}

/// Whether two byte slices are equal.
pub fn bytes_equal(a: &[u8], b: &[u8]) -> (r: bool)
    ensures
        r == (a@ == b@),
{
    if a.len() != b.len() {
        return false;
    }
    let mut i: usize = 0;
    while i < a.len()
        invariant
            a@.len() == b@.len(),
            i <= a@.len(),
            a@.take(i as int) == b@.take(i as int),
        decreases a@.len() - i,
    {
        if a[i] != b[i] {
            assert(a@[i as int] != b@[i as int]);
            return false;
        }
        i = i + 1;
        assert(a@.take(i as int) == a@.take(i - 1).push(a@[i - 1]));
        assert(b@.take(i as int) == b@.take(i - 1).push(b@[i - 1]));
    }
    assert(a@.take(a@.len() as int) == a@);
    assert(b@.take(b@.len() as int) == b@);
    true
}

fn hex_digit_exec(v: u8) -> (r: u8)
    requires
        v < 16,
    ensures
        r == hex_digit(v as nat),
{
    if v < 10 {
        48 + v
    } else {
        87 + v
    }
}

pub proof fn lemma_hex_len(b: Seq<u8>)
    ensures
        hex_of(b).len() == 2 * b.len(),
    decreases b.len(),
{
    if b.len() > 0 {
        lemma_hex_len(b.drop_last());
    }
}

/// Appends the hexadecimal rendering of `b` to `out`.
pub fn push_hex(b: &[u8], out: &mut Vec<u8>)
    ensures
        final(out)@ == old(out)@ + hex_of(b@),
{
    let mut i: usize = 0;
    while i < b.len()
        invariant
            i <= b@.len(),
            out@ == old(out)@ + hex_of(b@.take(i as int)),
        decreases b@.len() - i,
    {
        let x = b[i];
        out.push(hex_digit_exec(x / 16));
        out.push(hex_digit_exec(x % 16));
        i = i + 1;
        assert(b@.take(i as int).drop_last() == b@.take(i - 1));
    }
    assert(b@.take(b@.len() as int) == b@);
}

fn hex_value_exec(c: u8) -> (r: Option<u8>)
    ensures
        r matches Some(v) ==> hex_value(c) == Some(v as nat) && v < 16,
        r is None ==> hex_value(c) is None,
{
    if 48 <= c && c <= 57 {
        Some(c - 48)
    } else if 97 <= c && c <= 102 {
        Some(c - 87)
    } else {
        None
    }
}

proof fn lemma_hex_digit_value(v: nat)
    requires
        v < 16,
    ensures
        hex_value(hex_digit(v)) == Some(v),
{
}

proof fn lemma_hex_digit_inj(v: nat, c: u8)
    requires
        hex_value(c) == Some(v),
    ensures
        hex_digit(v) == c,
{
}

proof fn lemma_hex_index(b: Seq<u8>, j: int)
    requires
        0 <= j < b.len(),
    ensures
        hex_of(b).len() == 2 * b.len(),
        hex_of(b)[2 * j] == hex_digit((b[j] / 16) as nat),
        hex_of(b)[2 * j + 1] == hex_digit((b[j] % 16) as nat),
    decreases b.len(),
{
    lemma_hex_len(b);
    lemma_hex_len(b.drop_last());
    if j < b.len() - 1 {
        lemma_hex_index(b.drop_last(), j);
    }
}


/// Parses `2 * n` hexadecimal digits of `s` starting at `start` into `n` bytes.
pub fn parse_hex(s: &[u8], start: usize, n: usize) -> (r: Option<Vec<u8>>)
    requires
        start + 2 * n <= s@.len(),
    ensures
        r matches Some(v) ==> v@.len() == n && hex_of(v@) == s@.subrange(
            start as int,
            start + 2 * n,
        ),
        forall|b: Seq<u8>|
            b.len() == n && #[trigger] hex_of(b) == s@.subrange(start as int, start + 2 * n)
                ==> (r matches Some(v) && v@ == b),
{
    let mut out: Vec<u8> = Vec::new();
    let mut i: usize = 0;
    let len = s.len();
    while i < n
        invariant
            len == s@.len(),
            start + 2 * n <= s@.len(),
            i <= n,
            out@.len() == i,
            hex_of(out@) == s@.subrange(start as int, start + 2 * i),
            forall|b: Seq<u8>|
                b.len() == n && #[trigger] hex_of(b) == s@.subrange(start as int, start + 2 * n)
                    ==> b.take(i as int) == out@,
        decreases n - i,
    {
        let hi = hex_value_exec(s[start + 2 * i]);
        let lo = hex_value_exec(s[start + 2 * i + 1]);
        proof {
            assert forall|b: Seq<u8>|
                b.len() == n && #[trigger] hex_of(b) == s@.subrange(
                    start as int,
                    start + 2 * n,
                ) implies hex_value(s@[start + 2 * i]) == Some((b[i as int] / 16) as nat)
                && hex_value(s@[start + 2 * i + 1]) == Some((b[i as int] % 16) as nat) by {
                lemma_hex_index(b, i as int);
                assert(hex_of(b)[2 * i] == s@[start + 2 * i]);
                assert(hex_of(b)[2 * i + 1] == s@[start + 2 * i + 1]);
                lemma_hex_digit_value((b[i as int] / 16) as nat);
                lemma_hex_digit_value((b[i as int] % 16) as nat);
            }
        }
        match (hi, lo) {
            (Some(h), Some(l)) => {
                let v: u8 = h * 16 + l;
                let ghost prev = out@;
                out.push(v);
                proof {
                    assert(v / 16 == h && v % 16 == l) by (bit_vector)
                        requires
                            v == h * 16 + l,
                            h < 16,
                            l < 16,
                    ;
                    lemma_hex_digit_inj(h as nat, s@[start + 2 * i]);
                    lemma_hex_digit_inj(l as nat, s@[start + 2 * i + 1]);
                    assert(out@.drop_last() == prev);
                    assert(s@.subrange(start as int, start + 2 * (i + 1)) =~= s@.subrange(
                        start as int,
                        start + 2 * i,
                    ).push(s@[start + 2 * i]).push(s@[start + 2 * i + 1]));
                    assert forall|b: Seq<u8>|
                        b.len() == n && #[trigger] hex_of(b) == s@.subrange(
                            start as int,
                            start + 2 * n,
                        ) implies b.take(i + 1) == out@ by {
                        assert(b.take(i + 1) =~= b.take(i as int).push(b[i as int]));
                        assert(b[i as int] == (b[i as int] / 16) * 16 + b[i as int] % 16);
                    }
                }
                i = i + 1;
            },
            _ => {
                return None;
            },
        }
    }
    proof {
        assert forall|b: Seq<u8>|
            b.len() == n && #[trigger] hex_of(b) == s@.subrange(
                start as int,
                start + 2 * n,
            ) implies out@ == b by {
            assert(b.take(n as int) == b);
        }
    }
    Some(out)
}

/// Every byte of a decimal rendering is a digit.
pub proof fn lemma_decimal_digits(n: nat)
    ensures
        forall|i: int| 0 <= i < decimal(n).len() ==> 48 <= #[trigger] decimal(n)[i] <= 57,
    decreases n,
{
    if n >= 10 {
        lemma_decimal_digits(n / 10);
        let d = decimal(n / 10);
        assert(decimal(n) == d.push((48 + n % 10) as u8));
        assert forall|i: int| 0 <= i < decimal(n).len() implies 48 <= #[trigger] decimal(n)[i] <= 57 by {
            if i < d.len() {
                assert(decimal(n)[i] == d[i]);
            }
        }
    }
}

/// Appends the decimal rendering of `n` to `out`.
pub fn push_decimal(n: u64, out: &mut Vec<u8>)
    ensures
        final(out)@ == old(out)@ + decimal(n as nat),
    decreases n,
{
    if n >= 10 {
        push_decimal(n / 10, out);
    }
    out.push(48 + (n % 10) as u8);
    assert(old(out)@ + decimal(n as nat) =~= final(out)@);
}

/// The header `<tag> <length>\0` of a loose object.
pub fn header(kind: ObjectKind, len: usize) -> (r: Vec<u8>)
    ensures
        r@ == header_of(kind, len as nat),
{
    let mut out: Vec<u8> = Vec::new();
    match kind {
        ObjectKind::Blob => {
            out.push(98);
            out.push(108);
            out.push(111);
            out.push(98);
        },
        ObjectKind::Tree => {
            out.push(116);
            out.push(114);
            out.push(101);
            out.push(101);
        },
        ObjectKind::Commit => {
            out.push(99);
            out.push(111);
            out.push(109);
            out.push(109);
            out.push(105);
            out.push(116);
        },
    }
    assert(out@ == kind_tag(kind));
    out.push(32);
    push_decimal(len as u64, &mut out);
    out.push(0);
    assert(out@ =~= header_of(kind, len as nat));
    out
}

/// Header followed by payload: the bytes that name and store an object.
pub fn loose_object(kind: ObjectKind, payload: &[u8]) -> (r: Vec<u8>)
    ensures
        r@ == loose_bytes(kind, payload@),
{
    let mut out = header(kind, payload.len());
    append_slice(&mut out, payload);
    out
}

/// The identifier of an object of the given kind and payload: SHA-1 of the
/// header `<tag> <length>\0` followed by the payload.
pub fn fingerprint(kind: ObjectKind, payload: &[u8]) -> (r: ObjectId)
    ensures
        r@ == fingerprint_of(kind, payload@),
        r.wf(),
{
    let data = loose_object(kind, payload);
    ObjectId { bytes: sha1_digest(data.as_slice()) }
}

} // verus!
