//! Directory snapshots: entries sorted by path and framed in binary.
use vstd::prelude::*;
use crate::blob::Blob;
use crate::error::Error;
use crate::digest::sha1_of;
use crate::objects::{encode, identity, Kind, Object};
use crate::order::{
    lemma_lex_asymmetric, lemma_lex_irreflexive, lemma_lex_total, lemma_lex_transitive, lex_lt,
    path_lt,
};
use crate::text::{copy_bytes, copy_range, NUL, SLASH, SPACE};

verus! {

broadcast use {vstd::seq_lib::to_multiset_insert, vstd::seq_lib::to_multiset_build,
    vstd::seq_lib::to_multiset_contains, vstd::seq_lib::to_multiset_len};

/// One entry of a tree: a path relative to the repository root and the raw
/// identity of the blob stored under it.
pub struct TreeEntry {
    pub path: Vec<u8>,
    pub id: Vec<u8>,
}

/// An entry as plain values: (path, identity).
pub open spec fn view_entry(e: TreeEntry) -> (Seq<u8>, Seq<u8>) {
    (e.path@, e.id@)
}

pub open spec fn view_entries(es: Seq<TreeEntry>) -> Seq<(Seq<u8>, Seq<u8>)> {
    es.map_values(|e: TreeEntry| view_entry(e))
}

/// The mode of a regular file, "100644".
pub open spec fn file_mode() -> Seq<u8> {
    seq![49u8, 48u8, 48u8, 54u8, 52u8, 52u8]
}

/// One encoded entry: `<mode> <path>\0<20 raw identity bytes>`.
pub open spec fn entry_bytes(e: (Seq<u8>, Seq<u8>)) -> Seq<u8> {
    file_mode() + seq![SPACE] + e.0 + seq![NUL] + e.1
}

/// The payload of a tree: its entries encoded one after another.
pub open spec fn tree_payload(es: Seq<(Seq<u8>, Seq<u8>)>) -> Seq<u8> {
    es.map_values(|e: (Seq<u8>, Seq<u8>)| entry_bytes(e)).flatten()
}

pub open spec fn nul_free(p: Seq<u8>) -> bool {
    forall|i: int| 0 <= i < p.len() ==> p[i] != NUL
}

pub open spec fn all_nul_free(es: Seq<(Seq<u8>, Seq<u8>)>) -> bool {
    forall|i: int| 0 <= i < es.len() ==> nul_free(#[trigger] es[i].0)
}

pub open spec fn distinct_paths(es: Seq<(Seq<u8>, Seq<u8>)>) -> bool {
    forall|i: int, j: int| 0 <= i < j < es.len() ==> es[i].0 != es[j].0
}

/// Entries in strictly increasing byte-lexicographic order of path.
pub open spec fn sorted_by_path(es: Seq<(Seq<u8>, Seq<u8>)>) -> bool {
    forall|i: int, j: int| 0 <= i < j < es.len() ==> lex_lt(es[i].0, es[j].0)
}

/// `t` is the tree of the entries `input`: the same entries, sorted by path,
/// and encoded in that order.
pub open spec fn tree_of(t: Tree, input: Seq<(Seq<u8>, Seq<u8>)>) -> bool {
    &&& sorted_by_path(view_entries(t.entries@))
    &&& view_entries(t.entries@).to_multiset() == input.to_multiset()
    &&& t.content@ == tree_payload(view_entries(t.entries@))
}

/// Two arrangements of one multiset of entries, both sorted by path, are
/// the same sequence.
pub proof fn lemma_sorted_unique(s1: Seq<(Seq<u8>, Seq<u8>)>, s2: Seq<(Seq<u8>, Seq<u8>)>)
    requires
        sorted_by_path(s1),
        sorted_by_path(s2),
        s1.to_multiset() == s2.to_multiset(),
    ensures
        s1 == s2,
    decreases s1.len(),
{
    broadcast use vstd::seq_lib::to_multiset_remove;

    vstd::seq_lib::to_multiset_len(s1);
    vstd::seq_lib::to_multiset_len(s2);
    if s1.len() == 0 {
        assert(s1 =~= s2);
    } else {
        let a = s1[0];
        let b = s2[0];
        assert(s1.contains(a));
        vstd::seq_lib::to_multiset_contains(s1, a);
        vstd::seq_lib::to_multiset_contains(s2, a);
        assert(s2.contains(a));
        let m = choose|m: int| 0 <= m < s2.len() && s2[m] == a;
        assert(s2.contains(b));
        vstd::seq_lib::to_multiset_contains(s2, b);
        vstd::seq_lib::to_multiset_contains(s1, b);
        let n = choose|n: int| 0 <= n < s1.len() && s1[n] == b;
        if m > 0 && n > 0 {
            lemma_lex_asymmetric(b.0, a.0);
        }
        assert(a == b);
        let r1 = s1.remove(0);
        let r2 = s2.remove(0);
        assert(r1 =~= s1.drop_first());
        assert(r2 =~= s2.drop_first());
        assert(sorted_by_path(r1)) by {
            assert forall|i: int, j: int| 0 <= i < j < r1.len() implies lex_lt(
                r1[i].0,
                r1[j].0,
            ) by {
                assert(r1[i] == s1[i + 1] && r1[j] == s1[j + 1]);
            }
        }
        assert(sorted_by_path(r2)) by {
            assert forall|i: int, j: int| 0 <= i < j < r2.len() implies lex_lt(
                r2[i].0,
                r2[j].0,
            ) by {
                assert(r2[i] == s2[i + 1] && r2[j] == s2[j + 1]);
            }
        }
        lemma_sorted_unique(r1, r2);
        assert forall|i: int| 0 <= i < s1.len() implies s1[i] == s2[i] by {
            if i > 0 {
                assert(s1[i] == r1[i - 1] && s2[i] == r2[i - 1]);
            }
        }
        assert(s1 =~= s2);
    }
}

/// Building a tree does not depend on the order of its entries: trees of
/// the same entries, given in any two orders, hold the same sorted entries,
/// the same payload and so the same identity.
pub proof fn lemma_tree_order_independent(
    t1: Tree,
    t2: Tree,
    in1: Seq<(Seq<u8>, Seq<u8>)>,
    in2: Seq<(Seq<u8>, Seq<u8>)>,
)
    requires
        tree_of(t1, in1),
        tree_of(t2, in2),
        in1.to_multiset() == in2.to_multiset(),
    ensures
        view_entries(t1.entries@) == view_entries(t2.entries@),
        t1.content@ == t2.content@,
        identity(Kind::Tree, t1.content@) == identity(Kind::Tree, t2.content@),
{
    lemma_sorted_unique(view_entries(t1.entries@), view_entries(t2.entries@));
}

/// Entries that the encoding can hold: NUL-free paths and 20-byte identities.
pub open spec fn encodable(es: Seq<(Seq<u8>, Seq<u8>)>) -> bool {
    forall|i: int| 0 <= i < es.len() ==> nul_free(#[trigger] es[i].0) && es[i].1.len() == 20
}

proof fn lemma_payload_first(s: Seq<(Seq<u8>, Seq<u8>)>)
    requires
        s.len() > 0,
    ensures
        tree_payload(s) == entry_bytes(s[0]) + tree_payload(s.drop_first()),
{
    let f = |e: (Seq<u8>, Seq<u8>)| entry_bytes(e);
    assert(s.map_values(f).drop_first() =~= s.drop_first().map_values(f));
}

/// The payload of encodable entries determines them.
pub proof fn lemma_tree_payload_injective(s1: Seq<(Seq<u8>, Seq<u8>)>, s2: Seq<(Seq<u8>, Seq<u8>)>)
    requires
        encodable(s1),
        encodable(s2),
        tree_payload(s1) == tree_payload(s2),
    ensures
        s1 == s2,
    decreases s1.len(),
{
    if s1.len() == 0 && s2.len() == 0 {
        assert(s1 =~= s2);
    } else if s1.len() == 0 {
        lemma_payload_first(s2);
        assert(tree_payload(s2).len() > 0);
        assert(tree_payload(s1) =~= Seq::<u8>::empty());
    } else if s2.len() == 0 {
        lemma_payload_first(s1);
        assert(tree_payload(s1).len() > 0);
        assert(tree_payload(s2) =~= Seq::<u8>::empty());
    } else {
        lemma_payload_first(s1);
        lemma_payload_first(s2);
        let p = tree_payload(s1);
        let (p1, i1) = s1[0];
        let (p2, i2) = s2[0];
        let e1 = entry_bytes(s1[0]);
        let e2 = entry_bytes(s2[0]);
        let l1: int = p1.len() as int;
        let l2: int = p2.len() as int;
        assert(nul_free(s1[0].0) && s1[0].1.len() == 20);
        assert(nul_free(s2[0].0) && s2[0].1.len() == 20);
        if l1 < l2 {
            assert(p[7 + l1] == e1[7 + l1]);
            assert(p[7 + l1] == e2[7 + l1]);
            assert(e2[7 + l1] == p2[l1]);
        }
        if l2 < l1 {
            assert(p[7 + l2] == e2[7 + l2]);
            assert(p[7 + l2] == e1[7 + l2]);
            assert(e1[7 + l2] == p1[l2]);
        }
        assert(e1.len() == e2.len());
        assert(e1 =~= p.subrange(0, e1.len() as int));
        assert(e2 =~= p.subrange(0, e1.len() as int));
        assert(p1 =~= e1.subrange(7, 7 + l1));
        assert(p2 =~= e2.subrange(7, 7 + l1));
        assert(i1 =~= e1.subrange(8 + l1, e1.len() as int));
        assert(i2 =~= e2.subrange(8 + l1, e1.len() as int));
        assert(tree_payload(s1.drop_first()) =~= p.subrange(e1.len() as int, p.len() as int));
        assert(tree_payload(s2.drop_first()) =~= p.subrange(e1.len() as int, p.len() as int));
        assert(encodable(s1.drop_first())) by {
            assert forall|i: int| 0 <= i < s1.drop_first().len() implies nul_free(
                #[trigger] s1.drop_first()[i].0,
            ) && s1.drop_first()[i].1.len() == 20 by {
                assert(s1.drop_first()[i] == s1[i + 1]);
                assert(nul_free(s1[i + 1].0) && s1[i + 1].1.len() == 20);
            }
        }
        assert(encodable(s2.drop_first())) by {
            assert forall|i: int| 0 <= i < s2.drop_first().len() implies nul_free(
                #[trigger] s2.drop_first()[i].0,
            ) && s2.drop_first()[i].1.len() == 20 by {
                assert(s2.drop_first()[i] == s2[i + 1]);
                assert(nul_free(s2[i + 1].0) && s2[i + 1].1.len() == 20);
            }
        }
        lemma_tree_payload_injective(s1.drop_first(), s2.drop_first());
        assert(s1[0] == s2[0]);
        assert forall|i: int| 0 <= i < s1.len() implies s1[i] == s2[i] by {
            if i > 0 {
                assert(s1[i] == s1.drop_first()[i - 1] && s2[i] == s2.drop_first()[i - 1]);
            }
        }
        assert(s1 =~= s2);
    }
}

proof fn lemma_tree_entries_encodable(t: Tree, input: Seq<(Seq<u8>, Seq<u8>)>)
    requires
        tree_of(t, input),
        encodable(input),
    ensures
        encodable(view_entries(t.entries@)),
{
    let s = view_entries(t.entries@);
    assert forall|i: int| 0 <= i < s.len() implies nul_free(#[trigger] s[i].0) && s[i].1.len()
        == 20 by {
        assert(s.contains(s[i]));
        vstd::seq_lib::to_multiset_contains(s, s[i]);
        vstd::seq_lib::to_multiset_contains(input, s[i]);
        let j = choose|j: int| 0 <= j < input.len() && input[j] == s[i];
        assert(nul_free(input[j].0));
    }
}

/// The encoding depends on the entries: trees of encodable entries that
/// differ in a path or an identity have different payloads.
pub proof fn lemma_tree_payload_distinguishes(
    t1: Tree,
    t2: Tree,
    in1: Seq<(Seq<u8>, Seq<u8>)>,
    in2: Seq<(Seq<u8>, Seq<u8>)>,
)
    requires
        tree_of(t1, in1),
        tree_of(t2, in2),
        encodable(in1),
        encodable(in2),
        in1.to_multiset() != in2.to_multiset(),
    ensures
        t1.content@ != t2.content@,
{
    lemma_tree_entries_encodable(t1, in1);
    lemma_tree_entries_encodable(t2, in2);
    if t1.content@ == t2.content@ {
        lemma_tree_payload_injective(view_entries(t1.entries@), view_entries(t2.entries@));
    }
}

/// A blob as plain values: (source path, content).
pub open spec fn blob_view(b: Blob) -> (Seq<u8>, Seq<u8>) {
    (b.source@, b.content@)
}

pub open spec fn blob_views(bs: Seq<Blob>) -> Seq<(Seq<u8>, Seq<u8>)> {
    bs.map_values(|b: Blob| blob_view(b))
}

/// The entry that a blob stands for under a repository root.
pub open spec fn entry_of(root: Seq<u8>, v: (Seq<u8>, Seq<u8>)) -> (Seq<u8>, Seq<u8>) {
    (relative_path(root, v.0), identity(Kind::Blob, v.1))
}

/// Mapping two arrangements of one multiset gives two arrangements of one
/// multiset.
proof fn lemma_map_multiset(
    s1: Seq<(Seq<u8>, Seq<u8>)>,
    s2: Seq<(Seq<u8>, Seq<u8>)>,
    f: spec_fn((Seq<u8>, Seq<u8>)) -> (Seq<u8>, Seq<u8>),
)
    requires
        s1.to_multiset() == s2.to_multiset(),
    ensures
        s1.map_values(f).to_multiset() == s2.map_values(f).to_multiset(),
    decreases s1.len(),
{
    broadcast use vstd::seq_lib::to_multiset_remove;

    vstd::seq_lib::to_multiset_len(s1);
    vstd::seq_lib::to_multiset_len(s2);
    if s1.len() == 0 {
        assert(s1.map_values(f) =~= s2.map_values(f));
    } else {
        let a = s1[0];
        assert(s1.contains(a));
        vstd::seq_lib::to_multiset_contains(s1, a);
        vstd::seq_lib::to_multiset_contains(s2, a);
        let m = choose|m: int| 0 <= m < s2.len() && s2[m] == a;
        let r1 = s1.remove(0);
        let r2 = s2.remove(m);
        lemma_map_multiset(r1, r2, f);
        assert(s1.map_values(f) =~= r1.map_values(f).insert(0, f(a)));
        assert(s2.map_values(f) =~= r2.map_values(f).insert(m, f(a)));
        vstd::seq_lib::to_multiset_insert(r1.map_values(f), 0, f(a));
        vstd::seq_lib::to_multiset_insert(r2.map_values(f), m, f(a));
    }
}

proof fn lemma_blob_entries(root: Seq<u8>, blobs: Seq<Blob>)
    ensures
        blob_entries(root, blobs) == blob_views(blobs).map_values(
            |v: (Seq<u8>, Seq<u8>)| entry_of(root, v),
        ),
{
    assert(blob_entries(root, blobs) =~= blob_views(blobs).map_values(
        |v: (Seq<u8>, Seq<u8>)| entry_of(root, v),
    ));
}

/// Building a tree from blobs does not depend on their order: trees built
/// from two orders of the same blobs (the same source paths and contents)
/// have the same payload and so the same identity.
pub proof fn lemma_tree_blob_order_independent(
    root: Seq<u8>,
    blobs1: Seq<Blob>,
    blobs2: Seq<Blob>,
    t1: Tree,
    t2: Tree,
)
    requires
        tree_of(t1, blob_entries(root, blobs1)),
        tree_of(t2, blob_entries(root, blobs2)),
        blob_views(blobs1).to_multiset() == blob_views(blobs2).to_multiset(),
    ensures
        t1.content@ == t2.content@,
        identity(Kind::Tree, t1.content@) == identity(Kind::Tree, t2.content@),
{
    lemma_blob_entries(root, blobs1);
    lemma_blob_entries(root, blobs2);
    lemma_map_multiset(
        blob_views(blobs1),
        blob_views(blobs2),
        |v: (Seq<u8>, Seq<u8>)| entry_of(root, v),
    );
    lemma_tree_order_independent(
        t1,
        t2,
        blob_entries(root, blobs1),
        blob_entries(root, blobs2),
    );
}

/// Changing the path of one blob changes the tree: where two lists of blobs
/// hold the same contents and the same relative paths but at one place,
/// their trees have different payloads and different canonical bytes, and,
/// where SHA-1 does not collide on those two byte strings, different
/// identities.
pub proof fn lemma_tree_blob_path_change(
    root: Seq<u8>,
    blobs1: Seq<Blob>,
    blobs2: Seq<Blob>,
    t1: Tree,
    t2: Tree,
    k: int,
)
    requires
        tree_of(t1, blob_entries(root, blobs1)),
        tree_of(t2, blob_entries(root, blobs2)),
        encodable(blob_entries(root, blobs1)),
        encodable(blob_entries(root, blobs2)),
        distinct_paths(blob_entries(root, blobs2)),
        blobs1.len() == blobs2.len(),
        0 <= k < blobs1.len(),
        forall|i: int| 0 <= i < blobs1.len() ==> (#[trigger] blobs1[i]).content@ == blobs2[i].content@,
        forall|i: int|
            0 <= i < blobs1.len() && i != k ==> relative_path(root, (#[trigger] blobs1[i]).source@)
                == relative_path(root, blobs2[i].source@),
        relative_path(root, blobs1[k].source@) != relative_path(root, blobs2[k].source@),
    ensures
        t1.content@ != t2.content@,
        encode(Kind::Tree, t1.content@) != encode(Kind::Tree, t2.content@),
        (sha1_of(encode(Kind::Tree, t1.content@)) == sha1_of(encode(Kind::Tree, t2.content@))
            ==> encode(Kind::Tree, t1.content@) == encode(Kind::Tree, t2.content@)) ==> identity(
            Kind::Tree,
            t1.content@,
        ) != identity(Kind::Tree, t2.content@),
{
    let be1 = blob_entries(root, blobs1);
    let be2 = blob_entries(root, blobs2);
    let x = be2[k];
    assert(be2.contains(x));
    vstd::seq_lib::to_multiset_contains(be2, x);
    vstd::seq_lib::to_multiset_contains(be1, x);
    if be1.contains(x) {
        let j = choose|j: int| 0 <= j < be1.len() && be1[j] == x;
        if j == k {
            assert(be1[k].0 == relative_path(root, blobs1[k].source@));
        } else {
            assert(be1[j].0 == relative_path(root, blobs1[j].source@));
            assert(be2[j].0 == relative_path(root, blobs2[j].source@));
            if j < k {
                assert(be2[j].0 != be2[k].0);
            } else {
                assert(be2[k].0 != be2[j].0);
            }
        }
    }
    assert(be1.to_multiset() != be2.to_multiset());
    lemma_tree_payload_distinguishes(t1, t2, be1, be2);
    if encode(Kind::Tree, t1.content@) == encode(Kind::Tree, t2.content@) {
        crate::objects::lemma_encode_injective(Kind::Tree, t1.content@, Kind::Tree, t2.content@);
    }
}

/// A path with any leading separators removed.
pub open spec fn trim_leading_slashes(p: Seq<u8>) -> Seq<u8>
    decreases p.len(),
{
    if p.len() > 0 && p[0] == SLASH {
        trim_leading_slashes(p.drop_first())
    } else {
        p
    }
}

/// A path made relative to the repository root: the root prefix, where the
/// path starts with it, and then every leading separator are removed.
pub open spec fn relative_path(root: Seq<u8>, p: Seq<u8>) -> Seq<u8> {
    if root.len() <= p.len() && p.subrange(0, root.len() as int) == root {
        trim_leading_slashes(p.subrange(root.len() as int, p.len() as int))
    } else {
        trim_leading_slashes(p)
    }
}

/// The entries that a list of blobs stands for under a repository root.
pub open spec fn blob_entries(root: Seq<u8>, blobs: Seq<Blob>) -> Seq<(Seq<u8>, Seq<u8>)> {
    blobs.map_values(
        |b: Blob| (relative_path(root, b.source@), identity(Kind::Blob, b.content@)),
    )
}

/// Whether a path holds a NUL byte.
fn has_nul(p: &[u8]) -> (r: bool)
    ensures
        r == !nul_free(p@),
{
    let mut i: usize = 0;
    while i < p.len()
        invariant
            0 <= i <= p@.len(),
            forall|j: int| 0 <= j < i ==> p@[j] != NUL,
        decreases p@.len() - i,
    {
        if p[i] == NUL {
            return true;
        }
        i = i + 1;
    }
    false
}

/// Makes a path relative to the repository root.
pub fn path_relative_to(root: &[u8], path: &[u8]) -> (r: Vec<u8>)
    ensures
        r@ == relative_path(root@, path@),
{
    let mut start: usize = 0;
    if root.len() <= path.len() {
        let mut i: usize = 0;
        let mut same = true;
        while i < root.len()
            invariant
                root@.len() <= path@.len(),
                0 <= i <= root@.len(),
                same == (forall|j: int| 0 <= j < i ==> path@[j] == root@[j]),
            decreases root@.len() - i,
        {
            if path[i] != root[i] {
                same = false;
            }
            i = i + 1;
        }
        if same {
            assert(path@.subrange(0, root@.len() as int) =~= root@);
            start = root.len();
        } else {
            assert(path@.subrange(0, root@.len() as int) != root@) by {
                let j = choose|j: int| 0 <= j < root@.len() && path@[j] != root@[j];
                assert(path@.subrange(0, root@.len() as int)[j] != root@[j]);
            }
        }
    }
    assert(path@.subrange(0, path@.len() as int) =~= path@);
    let ghost base = path@.subrange(start as int, path@.len() as int);
    assert(relative_path(root@, path@) == trim_leading_slashes(base));
    while start < path.len() && path[start] == SLASH
        invariant
            start <= path@.len(),
            relative_path(root@, path@) == trim_leading_slashes(
                path@.subrange(start as int, path@.len() as int),
            ),
        decreases path@.len() - start,
    {
        assert(path@.subrange(start as int, path@.len() as int).drop_first() =~= path@.subrange(
            start + 1,
            path@.len() as int,
        ));
        start = start + 1;
    }
    copy_range(path, start, path.len())
}

/// Encodes one entry.
fn encode_entry(e: &TreeEntry) -> (r: Vec<u8>)
    ensures
        r@ == entry_bytes(view_entry(*e)),
{
    let mut r = vec![49u8, 48u8, 48u8, 54u8, 52u8, 52u8];
    r.push(SPACE);
    r.extend_from_slice(e.path.as_slice());
    r.push(NUL);
    r.extend_from_slice(e.id.as_slice());
    assert(r@ =~= entry_bytes(view_entry(*e)));
    r
}

fn copy_entry(e: &TreeEntry) -> (r: TreeEntry)
    ensures
        view_entry(r) == view_entry(*e),
{
    TreeEntry { path: copy_bytes(e.path.as_slice()), id: copy_bytes(e.id.as_slice()) }
}

/// A directory snapshot: its entries in canonical order and its payload.
pub struct Tree {
    pub entries: Vec<TreeEntry>,
    pub content: Vec<u8>,
}

impl Tree {
    /// Builds a tree from entries given in any order.
    ///
    /// Fails with `Encoding` when a path holds a NUL byte, and otherwise with
    /// `DuplicatePath` when two entries share a path.
    pub fn from_entries(entries: Vec<TreeEntry>) -> (r: Result<Tree, Error>)
        ensures
            r is Ok <==> encodable(view_entries(entries@)) && distinct_paths(
                view_entries(entries@),
            ),
            r is Ok ==> tree_of(r->Ok_0, view_entries(entries@)),
            r == Err::<Tree, Error>(Error::Encoding) <==> !encodable(view_entries(entries@)),
            r == Err::<Tree, Error>(Error::DuplicatePath) <==> encodable(
                view_entries(entries@),
            ) && !distinct_paths(view_entries(entries@)),
    {
        let ghost v = view_entries(entries@);
        let n = entries.len();
        let mut i: usize = 0;
        while i < n
            invariant
                n == entries@.len(),
                v == view_entries(entries@),
                0 <= i <= n,
                forall|j: int| 0 <= j < i ==> nul_free(#[trigger] v[j].0) && v[j].1.len() == 20,
            decreases n - i,
        {
            let bad_path = has_nul(entries[i].path.as_slice());
            let bad_id = entries[i].id.len() != 20;
            assert(v[i as int] == view_entry(entries@[i as int]));
            assert(bad_id == (entries@[i as int].id@.len() != 20));
            assert(bad_id == (v[i as int].1.len() != 20));
            assert(bad_path == !nul_free(v[i as int].0));
            if bad_path || bad_id {
                assert(!(nul_free(v[i as int].0) && v[i as int].1.len() == 20));
                assert(!encodable(v));
                return Err(Error::Encoding);
            }
            assert forall|j: int| 0 <= j < i + 1 implies nul_free(#[trigger] v[j].0) && v[j].1.len()
                == 20 by {
                if j == i {
                    assert(nul_free(v[i as int].0) && v[i as int].1.len() == 20);
                }
            }
            i = i + 1;
        }
        assert(encodable(v));
        assert(all_nul_free(v));
        let mut out: Vec<TreeEntry> = Vec::new();
        i = 0;
        assert(v.subrange(0, 0) =~= Seq::<(Seq<u8>, Seq<u8>)>::empty());
        assert(view_entries(out@) =~= Seq::<(Seq<u8>, Seq<u8>)>::empty());
        while i < n
            invariant
                n == entries@.len(),
                v == view_entries(entries@),
                0 <= i <= n,
                all_nul_free(v),
                encodable(v),
                sorted_by_path(view_entries(out@)),
                view_entries(out@).to_multiset() == v.subrange(0, i as int).to_multiset(),
                distinct_paths(v.subrange(0, i as int)),
            decreases n - i,
        {
            let x = &entries[i];
            let ghost ov = view_entries(out@);
            let ghost xv = v[i as int];
            assert(xv == view_entry(*x));
            let mut k: usize = 0;
            while k < out.len() && path_lt(out[k].path.as_slice(), x.path.as_slice())
                invariant
                    0 <= k <= out@.len(),
                    ov == view_entries(out@),
                    xv.0 == x.path@,
                    forall|j: int| 0 <= j < k ==> lex_lt(#[trigger] ov[j].0, xv.0),
                decreases out@.len() - k,
            {
                assert(ov[k as int].0 == out@[k as int].path@);
                k = k + 1;
            }
            if k < out.len() && !path_lt(x.path.as_slice(), out[k].path.as_slice()) {
                proof {
                    assert(ov[k as int].0 == out@[k as int].path@);
                    lemma_lex_total(ov[k as int].0, xv.0);
                    assert(ov.contains(ov[k as int]));
                    assert(ov.to_multiset().count(ov[k as int]) > 0);
                    assert(v.subrange(0, i as int).contains(ov[k as int]));
                    let j = choose|j: int|
                        0 <= j < i && #[trigger] v.subrange(0, i as int)[j] == ov[k as int];
                    assert(v[j].0 == v[i as int].0);
                }
                return Err(Error::DuplicatePath);
            }
            proof {
                if k < out@.len() {
                    assert(ov[k as int].0 == out@[k as int].path@);
                    lemma_lex_total(ov[k as int].0, xv.0);
                }
                // every path already taken differs from the new one
                assert forall|m: int| 0 <= m < ov.len() implies #[trigger] ov[m].0 != xv.0 by {
                    if m < k {
                        lemma_lex_irreflexive(xv.0);
                    } else {
                        if m > k {
                            lemma_lex_transitive(xv.0, ov[k as int].0, ov[m].0);
                        }
                        lemma_lex_irreflexive(xv.0);
                    }
                }
                let w1 = v.subrange(0, i + 1);
                let w0 = v.subrange(0, i as int);
                assert forall|a: int, b: int| 0 <= a < b < w1.len() implies #[trigger] w1[a].0
                    != #[trigger] w1[b].0 by {
                    if b == i {
                        let w = w0[a];
                        assert(w0.contains(w));
                        assert(ov.to_multiset().count(w) > 0);
                        assert(ov.contains(w));
                        let m = choose|m: int| 0 <= m < ov.len() && ov[m] == w;
                        assert(ov[m].0 != xv.0);
                    } else {
                        assert(w0[a] == w1[a]);
                        assert(w0[b] == w1[b]);
                    }
                }
            }
            out.insert(k, copy_entry(x));
            proof {
                let nv = view_entries(out@);
                assert(nv =~= ov.insert(k as int, xv));
                assert(v.subrange(0, i + 1) =~= v.subrange(0, i as int).push(xv));
                assert forall|a: int, b: int| 0 <= a < b < nv.len() implies lex_lt(
                    nv[a].0,
                    nv[b].0,
                ) by {
                    if b < k {
                        assert(nv[a] == ov[a] && nv[b] == ov[b]);
                    } else if b == k {
                        assert(nv[a] == ov[a]);
                    } else if a == k {
                        assert(nv[b] == ov[b - 1]);
                        lemma_lex_total(ov[k as int].0, xv.0);
                        if b - 1 > k {
                            lemma_lex_transitive(xv.0, ov[k as int].0, ov[b - 1].0);
                        }
                    } else if a < k {
                        assert(nv[a] == ov[a] && nv[b] == ov[b - 1]);
                    } else {
                        assert(nv[a] == ov[a - 1] && nv[b] == ov[b - 1]);
                    }
                }
            }
            i = i + 1;
        }
        assert(v.subrange(0, n as int) =~= v);
        let ghost sorted = view_entries(out@);
        let mut content: Vec<u8> = Vec::new();
        let mut j: usize = 0;
        assert(sorted.subrange(0, 0).map_values(|e: (Seq<u8>, Seq<u8>)| entry_bytes(e))
            =~= Seq::<Seq<u8>>::empty());
        while j < out.len()
            invariant
                sorted == view_entries(out@),
                0 <= j <= out@.len(),
                content@ == tree_payload(sorted.subrange(0, j as int)),
            decreases out@.len() - j,
        {
            let mut bytes = encode_entry(&out[j]);
            proof {
                let f = |e: (Seq<u8>, Seq<u8>)| entry_bytes(e);
                let s = sorted.subrange(0, j as int).map_values(f);
                assert(sorted.subrange(0, j + 1).map_values(f) =~= s.push(
                    entry_bytes(sorted[j as int]),
                ));
                s.lemma_flatten_push(entry_bytes(sorted[j as int]));
            }
            content.append(&mut bytes);
            j = j + 1;
        }
        assert(sorted.subrange(0, out@.len() as int) =~= sorted);
        Ok(Tree { entries: out, content })
    }

    /// Builds a tree from blobs read under the repository root `root`: each
    /// entry is the blob's path made relative to `root`, with its identity.
    pub fn from_blobs(root: &Vec<u8>, blobs: Vec<Blob>) -> (r: Result<Tree, Error>)
        ensures
            r is Ok <==> all_nul_free(blob_entries(root@, blobs@)) && distinct_paths(
                blob_entries(root@, blobs@),
            ),
            r is Ok ==> tree_of(r->Ok_0, blob_entries(root@, blobs@)),
            r == Err::<Tree, Error>(Error::Encoding) <==> !all_nul_free(
                blob_entries(root@, blobs@),
            ),
            r == Err::<Tree, Error>(Error::DuplicatePath) <==> all_nul_free(
                blob_entries(root@, blobs@),
            ) && !distinct_paths(blob_entries(root@, blobs@)),
            r is Ok ==> encodable(blob_entries(root@, blobs@)),
    {
        let mut entries: Vec<TreeEntry> = Vec::new();
        let mut i: usize = 0;
        while i < blobs.len()
            invariant
                0 <= i <= blobs@.len(),
                entries@.len() == i,
                view_entries(entries@) == blob_entries(root@, blobs@).subrange(0, i as int),
                forall|j: int| 0 <= j < i ==> (#[trigger] blob_entries(root@, blobs@)[j]).1.len() == 20,
            decreases blobs@.len() - i,
        {
            let path = path_relative_to(root.as_slice(), blobs[i].source.as_slice());
            let id = blobs[i].raw_id();
            let ghost e = blob_entries(root@, blobs@)[i as int];
            assert(e == (relative_path(root@, blobs@[i as int].source@), identity(Kind::Blob, blobs@[i as int].content@)));
            entries.push(TreeEntry { path, id });
            assert(view_entries(entries@)[i as int] == e);
            assert(view_entries(entries@) =~= blob_entries(root@, blobs@).subrange(
                0,
                i + 1,
            ));
            i = i + 1;
        }
        assert(blob_entries(root@, blobs@).subrange(0, blobs@.len() as int) =~= blob_entries(
            root@,
            blobs@,
        ));
        proof {
            let be = blob_entries(root@, blobs@);
            if all_nul_free(be) {
                assert forall|j: int| 0 <= j < be.len() implies nul_free(#[trigger] be[j].0)
                    && be[j].1.len() == 20 by {
                    assert(be[j].1.len() == 20);
                }
            }
        }
        Tree::from_entries(entries)
    }

    /// The tree as an object.
    pub fn to_object(&self) -> (o: Object)
        ensures
            o.kind == Kind::Tree,
            o.content@ == self.content@,
    {
        Object { kind: Kind::Tree, content: copy_bytes(self.content.as_slice()) }
    }
}

} // verus!
