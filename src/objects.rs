//! The object model: kinds, canonical framing, identities, storage paths and
//! plans for crash-safe writes.
use vstd::prelude::*;
use crate::compression::{compress, decompress, unzlib_of, unzlib_ok, zlib_of};
use crate::digest::{sha1_digest, sha1_of};
use crate::error::Error;
use crate::hexid::{encode_hex, hex_of};
use crate::text::{
    all_digits, canonical_digits, copy_range, decimal, decimal_bytes, digits_value, is_digit,
    lemma_canonical_digits, lemma_decimal, lemma_digits_prefix, DIGIT_ZERO, NUL, SPACE,
};

verus! {

/// The closed set of object kinds.
#[derive(Debug, Clone, Copy, PartialEq, Eq, Structural)]
pub enum Kind {
    Blob,
    Tree,
    Commit,
}

/// The ASCII name of a kind as it opens an object: "blob", "tree", "commit".
pub open spec fn kind_tag(k: Kind) -> Seq<u8> {
    match k {
        Kind::Blob => seq![98u8, 108u8, 111u8, 98u8],
        Kind::Tree => seq![116u8, 114u8, 101u8, 101u8],
        Kind::Commit => seq![99u8, 111u8, 109u8, 109u8, 105u8, 116u8],
    }
}

/// Canonical bytes of an object: `<kind> <decimal length>\0<payload>`.
pub open spec fn encode(k: Kind, payload: Seq<u8>) -> Seq<u8> {
    kind_tag(k) + seq![SPACE] + decimal(payload.len()) + seq![NUL] + payload
}

/// The identity of an object: the digest of its canonical bytes.
pub open spec fn identity(k: Kind, payload: Seq<u8>) -> Seq<u8> {
    sha1_of(encode(k, payload))
}

/// The two parts of the content-addressed path of an identity: the first
/// two hexadecimal digits name the directory, the other 38 the file.
pub open spec fn storage_directory(id: Seq<u8>) -> Seq<u8> {
    hex_of(id).subrange(0, 2)
}

pub open spec fn storage_file(id: Seq<u8>) -> Seq<u8> {
    hex_of(id).subrange(2, 40)
}

fn kind_tag_bytes(k: Kind) -> (r: Vec<u8>)
    ensures
        r@ == kind_tag(k),
{
    let r = match k {
        Kind::Blob => vec![98u8, 108u8, 111u8, 98u8],
        Kind::Tree => vec![116u8, 114u8, 101u8, 101u8],
        Kind::Commit => vec![99u8, 111u8, 109u8, 109u8, 105u8, 116u8],
    };
    assert(r@ =~= kind_tag(k));
    r
}

/// Bytes that are the canonical encoding of some object.
pub open spec fn is_framed(framed: Seq<u8>) -> bool {
    exists|k: Kind, p: Seq<u8>| encode(k, p) == framed
}

/// Where the parts of an encoding stand.
proof fn lemma_encode_layout(k: Kind, p: Seq<u8>)
    ensures
        ({
            let e = encode(k, p);
            let t = kind_tag(k).len() as int;
            let dl = decimal(p.len()).len() as int;
            &&& e.len() == t + 2 + dl + p.len()
            &&& e.subrange(0, t + 1) == kind_tag(k).push(SPACE)
            &&& e.subrange(t + 1, t + 1 + dl) == decimal(p.len())
            &&& e[t + 1 + dl] == NUL
            &&& e.subrange(t + 2 + dl, e.len() as int) == p
        }),
{
    let e = encode(k, p);
    let t = kind_tag(k).len() as int;
    let dl = decimal(p.len()).len() as int;
    assert(e.subrange(0, t + 1) =~= kind_tag(k).push(SPACE));
    assert(e.subrange(t + 1, t + 1 + dl) =~= decimal(p.len()));
    assert(e.subrange(t + 2 + dl, e.len() as int) =~= p);
}

/// The canonical encoding is injective: bytes that encode an object encode
/// no other, so reading them back gives the kind and payload they were
/// written from.
pub proof fn lemma_encode_injective(k1: Kind, p1: Seq<u8>, k2: Kind, p2: Seq<u8>)
    requires
        encode(k1, p1) == encode(k2, p2),
    ensures
        k1 == k2,
        p1 == p2,
{
    let e = encode(k1, p1);
    lemma_encode_layout(k1, p1);
    lemma_encode_layout(k2, p2);
    lemma_decimal(p1.len());
    lemma_decimal(p2.len());
    assert(e.subrange(0, kind_tag(k1).len() + 1 as int)[0] == kind_tag(k1)[0]);
    assert(e.subrange(0, kind_tag(k2).len() + 1 as int)[0] == kind_tag(k2)[0]);
    let t = kind_tag(k1).len() as int;
    let d1 = decimal(p1.len());
    let d2 = decimal(p2.len());
    if d1.len() < d2.len() {
        assert(e[t + 1 + d1.len()] == d2[d1.len() as int]);
        assert(is_digit(d2[d1.len() as int]));
    }
    if d2.len() < d1.len() {
        assert(e[t + 1 + d2.len()] == d1[d2.len() as int]);
        assert(is_digit(d1[d2.len() as int]));
    }
    assert(d1 == d2);
}

/// Whether framed bytes open with the tag of `k` and a space.
fn tag_matches(framed: &[u8], k: Kind) -> (r: bool)
    ensures
        r == (framed@.len() > kind_tag(k).len() && framed@.subrange(
            0,
            kind_tag(k).len() + 1 as int,
        ) == kind_tag(k).push(SPACE)),
{
    let mut tag = kind_tag_bytes(k);
    tag.push(SPACE);
    if framed.len() <= tag.len() - 1 {
        return false;
    }
    let mut i: usize = 0;
    while i < tag.len()
        invariant
            tag@ == kind_tag(k).push(SPACE),
            framed@.len() >= tag@.len(),
            0 <= i <= tag@.len(),
            forall|j: int| 0 <= j < i ==> framed@[j] == tag@[j],
        decreases tag@.len() - i,
    {
        if framed[i] != tag[i] {
            assert(framed@.subrange(0, tag@.len() as int)[i as int] != tag@[i as int]);
            return false;
        }
        i = i + 1;
    }
    assert(framed@.subrange(0, tag@.len() as int) =~= tag@);
    true
}

/// Frames a payload as an object of the given kind.
pub fn encode_object(k: Kind, payload: &[u8]) -> (r: Vec<u8>)
    ensures
        r@ == encode(k, payload@),
{
    let mut r = kind_tag_bytes(k);
    r.push(SPACE);
    let mut len = decimal_bytes(payload.len() as u64);
    r.append(&mut len);
    r.push(NUL);
    r.extend_from_slice(payload);
    assert(r@ =~= encode(k, payload@));
    r
}

/// Frames file contents as a blob.
pub fn entry_from_contents(contents: &Vec<u8>) -> (r: Vec<u8>)
    ensures
        r@ == encode(Kind::Blob, contents@),
{
    encode_object(Kind::Blob, contents.as_slice())
}

/// The identity of canonical object bytes, as 20 raw bytes.
pub fn identity_of(framed: &[u8]) -> (r: Vec<u8>)
    ensures
        r@ == sha1_of(framed@),
        r@.len() == 20,
{
    sha1_digest(framed)
}

/// The identity of canonical object bytes, as 40 hexadecimal digits.
pub fn id_from_entry(entry: &Vec<u8>) -> (r: Vec<u8>)
    ensures
        r@ == hex_of(sha1_of(entry@)),
        r@.len() == 40,
{
    let raw = identity_of(entry.as_slice());
    encode_hex(raw.as_slice())
}

/// Where an object lives under the object directory.
pub struct StoragePath {
    pub directory: Vec<u8>,
    pub file: Vec<u8>,
}

/// Splits an identity into its content-addressed directory and file names.
pub fn storage_path(id: &Vec<u8>) -> (r: StoragePath)
    requires
        id@.len() == 20,
    ensures
        r.directory@ == storage_directory(id@),
        r.file@ == storage_file(id@),
{
    let hex = encode_hex(id.as_slice());
    let mut directory: Vec<u8> = Vec::new();
    let mut file: Vec<u8> = Vec::new();
    let mut i: usize = 0;
    while i < hex.len()
        invariant
            hex@ == hex_of(id@),
            hex@.len() == 40,
            0 <= i <= 40,
            directory@ == hex@.subrange(0, if i < 2 { i as int } else { 2 }),
            file@ == hex@.subrange(2, if i < 2 { 2 } else { i as int }),
        decreases hex.len() - i,
    {
        if i < 2 {
            directory.push(hex[i]);
        } else {
            file.push(hex[i]);
        }
        i = i + 1;
        assert(directory@ =~= hex@.subrange(0, if i < 2 { i as int } else { 2 }));
        assert(file@ =~= hex@.subrange(2, if i < 2 { 2 } else { i as int }));
    }
    StoragePath { directory, file }
}

/// The prefix of a temporary object file: "tmp_object_".
pub open spec fn temp_prefix() -> Seq<u8> {
    seq![116u8, 109u8, 112u8, 95u8, 111u8, 98u8, 106u8, 101u8, 99u8, 116u8, 95u8]
}

/// What a crash-safe write of one object does: write `compressed` to
/// `temp_name` inside `directory`, then rename it onto `file`.
pub struct WritePlan {
    pub directory: Vec<u8>,
    pub file: Vec<u8>,
    pub temp_name: Vec<u8>,
    pub compressed: Vec<u8>,
}

/// An object: its kind and its payload.
pub struct Object {
    pub kind: Kind,
    pub content: Vec<u8>,
}

impl Object {
    /// A blob holding the given file contents.
    pub fn from_contents(contents: Vec<u8>) -> (o: Object)
        ensures
            o.kind == Kind::Blob,
            o.content@ == contents@,
    {
        Object { kind: Kind::Blob, content: contents }
    }

    /// Reads canonical bytes back into an object; `None` where they are not
    /// the encoding of any object.
    #[verifier::rlimit(40)]
    pub fn parse(framed: &[u8]) -> (r: Option<Object>)
        ensures
            r is Some ==> encode(r->0.kind, r->0.content@) == framed@,
            r is None ==> !is_framed(framed@),
    {
        let ghost enc = is_framed(framed@);
        let ghost mut ek: Kind = Kind::Blob;
        let ghost mut ep: Seq<u8> = Seq::empty();
        proof {
            if enc {
                let (k, p) = choose|k: Kind, p: Seq<u8>| encode(k, p) == framed@;
                ek = k;
                ep = p;
                lemma_encode_layout(k, p);
                lemma_decimal(p.len());
            }
        }
        let kind = if tag_matches(framed, Kind::Blob) {
            Kind::Blob
        } else if tag_matches(framed, Kind::Tree) {
            Kind::Tree
        } else if tag_matches(framed, Kind::Commit) {
            Kind::Commit
        } else {
            proof {
                if enc {
                    assert(framed@.subrange(0, kind_tag(ek).len() + 1 as int) == kind_tag(ek).push(
                        SPACE,
                    ));
                }
            }
            return None;
        };
        proof {
            if enc {
                let e = framed@;
                assert(e.subrange(0, kind_tag(ek).len() + 1 as int)[0] == kind_tag(ek)[0]);
                assert(e.subrange(0, kind_tag(kind).len() + 1 as int)[0] == kind_tag(kind)[0]);
                assert(ek == kind);
            }
        }
        let start: usize = kind_tag_bytes(kind).len() + 1;
        let ghost dl = decimal(ep.len()).len() as int;
        let mut j: usize = start;
        let mut value: u128 = 0;
        assert(framed@.subrange(start as int, start as int) =~= Seq::<u8>::empty());
        while j < framed.len() && framed[j] >= DIGIT_ZERO && framed[j] < DIGIT_ZERO + 10
            invariant
                start == kind_tag(kind).len() + 1,
                framed@.len() > kind_tag(kind).len(),
                framed@.subrange(0, start as int) == kind_tag(kind).push(SPACE),
                start <= j <= framed@.len(),
                all_digits(framed@.subrange(start as int, j as int)),
                value == digits_value(framed@.subrange(start as int, j as int)),
                value <= framed@.len(),
                enc == is_framed(framed@),
                enc ==> ek == kind && j <= start + dl,
                enc ==> framed@.subrange(start as int, start + dl) == decimal(ep.len()),
                enc ==> framed@[start + dl] == NUL,
                enc ==> framed@.len() == start + 1 + dl + ep.len(),
            decreases framed@.len() - j,
        {
            let ghost before = framed@.subrange(start as int, j as int);
            value = value * 10 + (framed[j] - DIGIT_ZERO) as u128;
            j = j + 1;
            let ghost now = framed@.subrange(start as int, j as int);
            assert(now.drop_last() =~= before);
            assert(all_digits(now)) by {
                assert forall|i: int| 0 <= i < now.len() implies is_digit(#[trigger] now[i]) by {
                    if i < now.len() - 1 {
                        assert(now[i] == before[i]);
                    }
                }
            }
            proof {
                if enc {
                    if j > start + dl {
                        assert(now[dl] == NUL);
                    }
                    let d = decimal(ep.len());
                    lemma_decimal(ep.len());
                    assert(now =~= d.subrange(0, j - start));
                    lemma_digits_prefix(d, j - start);
                    assert(digits_value(now) <= digits_value(d));
                    assert(value <= ep.len());
                }
            }
            if value > framed.len() as u128 {
                return None;
            }
        }
        let ghost digits = framed@.subrange(start as int, j as int);
        proof {
            if enc {
                lemma_decimal(ep.len());
                if j < start + dl {
                    let d = decimal(ep.len());
                    assert(framed@[j as int] == d[j - start]);
                    assert(is_digit(d[j - start]));
                }
                assert(digits =~= decimal(ep.len()));
            }
        }
        if j == start || j >= framed.len() || framed[j] != NUL {
            return None;
        }
        if j - start > 1 && framed[start] == DIGIT_ZERO {
            assert(digits[0] == DIGIT_ZERO);
            return None;
        }
        if value != (framed.len() - j - 1) as u128 {
            return None;
        }
        let content = copy_range(framed, j + 1, framed.len());
        proof {
            assert(canonical_digits(digits));
            lemma_canonical_digits(digits);
            assert(content@.len() == value);
            assert(decimal(content@.len()) == digits);
            assert(framed@ =~= framed@.subrange(0, start as int) + digits + seq![NUL] + content@);
            assert(framed@ =~= encode(kind, content@));
        }
        Some(Object { kind, content })
    }

    /// Reads a stored object: decompresses it and parses its canonical bytes.
    ///
    /// Fails with `Io` where the stream cannot be decompressed or does not
    /// hold the encoding of an object.
    pub fn from_stored(compressed: &[u8]) -> (r: Result<Object, Error>)
        ensures
            r is Ok <==> unzlib_ok(compressed@) && is_framed(unzlib_of(compressed@)),
            r is Ok ==> encode(r->Ok_0.kind, r->Ok_0.content@) == unzlib_of(compressed@),
            r is Err ==> r->Err_0 == Error::Io,
    {
        match decompress(compressed) {
            Ok(framed) => match Object::parse(framed.as_slice()) {
                Some(o) => Ok(o),
                None => Err(Error::Io),
            },
            Err(_) => Err(Error::Io),
        }
    }

    /// The canonical bytes of the object.
    pub fn build_file(&self) -> (r: Vec<u8>)
        ensures
            r@ == encode(self.kind, self.content@),
    {
        encode_object(self.kind, self.content.as_slice())
    }

    /// The identity of the object, as 20 raw bytes.
    pub fn raw_id(&self) -> (r: Vec<u8>)
        ensures
            r@ == identity(self.kind, self.content@),
            r@.len() == 20,
    {
        let framed = self.build_file();
        identity_of(framed.as_slice())
    }

    /// The identity of the object, as 40 hexadecimal digits.
    pub fn id(&self) -> (r: Vec<u8>)
        ensures
            r@ == hex_of(identity(self.kind, self.content@)),
            r@.len() == 40,
    {
        let framed = self.build_file();
        id_from_entry(&framed)
    }

    /// The content-addressed path of the object.
    pub fn path(&self) -> (r: StoragePath)
        ensures
            r.directory@ == storage_directory(identity(self.kind, self.content@)),
            r.file@ == storage_file(identity(self.kind, self.content@)),
    {
        let raw = self.raw_id();
        storage_path(&raw)
    }

    /// The canonical bytes of the object, compressed.
    pub fn compress(&self) -> (r: Vec<u8>)
        ensures
            r@ == zlib_of(encode(self.kind, self.content@)),
            unzlib_ok(r@) && unzlib_of(r@) == encode(self.kind, self.content@),
    {
        let framed = self.build_file();
        compress(framed.as_slice()).unwrap()
    }

    /// How to store the object: its path, a temporary name beside it made
    /// of "tmp_object_" and `token` (which the caller draws fresh), and the
    /// compressed bytes.
    pub fn write_plan(&self, token: &[u8]) -> (r: WritePlan)
        ensures
            plans_write(r, self.kind, self.content@),
            r.temp_name@ == temp_prefix() + token@,
    {
        let compressed = self.compress();
        let path = self.path();
        let mut temp_name = vec![116u8, 109u8, 112u8, 95u8, 111u8, 98u8, 106u8, 101u8, 99u8, 116u8, 95u8];
        temp_name.extend_from_slice(token);
        proof {
            assert(temp_name@ =~= temp_prefix() + token@);
            assert(temp_name@.subrange(0, 11) =~= temp_prefix());
        }
        WritePlan { directory: path.directory, file: path.file, temp_name, compressed }
    }
}

/// A plan that stores an object of kind `k` and payload `payload` at its
/// content-addressed path, through a temporary file named apart from it.
pub open spec fn plans_write(p: WritePlan, k: Kind, payload: Seq<u8>) -> bool {
    &&& p.directory@ == storage_directory(identity(k, payload))
    &&& p.file@ == storage_file(identity(k, payload))
    &&& p.compressed@ == zlib_of(encode(k, payload))
    &&& unzlib_ok(p.compressed@) && unzlib_of(p.compressed@) == encode(k, payload)
    &&& p.temp_name@.len() >= 11
    &&& p.temp_name@.subrange(0, 11) == temp_prefix()
}

/// The object directory as plain values: each (directory, file) name pair
/// holds the bytes of one file.
pub type StoreModel = Map<(Seq<u8>, Seq<u8>), Seq<u8>>;

/// The object directory once a write plan has run: the temporary file is
/// renamed onto the object's path, replacing any file there.
pub open spec fn after_write(store: StoreModel, p: WritePlan) -> StoreModel {
    store.insert((p.directory@, p.file@), p.compressed@)
}

/// Storing is idempotent: writing one object a second time, through any
/// temporary name, leaves the directory as the first write left it, with
/// one file at the object's path that holds its compressed bytes.
pub proof fn lemma_store_idempotent(
    store: StoreModel,
    k: Kind,
    payload: Seq<u8>,
    p1: WritePlan,
    p2: WritePlan,
)
    requires
        plans_write(p1, k, payload),
        plans_write(p2, k, payload),
    ensures
        after_write(after_write(store, p1), p2) == after_write(store, p1),
        after_write(store, p1).contains_key(
            (storage_directory(identity(k, payload)), storage_file(identity(k, payload))),
        ),
        after_write(store, p1)[(
            storage_directory(identity(k, payload)),
            storage_file(identity(k, payload)),
        )] == zlib_of(encode(k, payload)),
{
    assert(after_write(after_write(store, p1), p2) =~= after_write(store, p1));
}

/// What is stored reads back: the bytes that a write plan stores decompress
/// to the object's canonical encoding, so reading them succeeds and gives
/// the object's kind and payload.
pub proof fn lemma_stored_object_reads_back(p: WritePlan, k: Kind, payload: Seq<u8>, o: Object)
    requires
        plans_write(p, k, payload),
        encode(o.kind, o.content@) == unzlib_of(p.compressed@),
    ensures
        unzlib_ok(p.compressed@),
        is_framed(unzlib_of(p.compressed@)),
        o.kind == k,
        o.content@ == payload,
{
    lemma_encode_injective(o.kind, o.content@, k, payload);
}

/// The identity of content is determined by its bytes: objects of one kind
/// with byte-identical payloads have the same identity.
pub proof fn lemma_identity_deterministic(o1: Object, o2: Object)
    requires
        o1.kind == o2.kind,
        o1.content@ == o2.content@,
    ensures
        identity(o1.kind, o1.content@) == identity(o2.kind, o2.content@),
{
}

} // verus!
