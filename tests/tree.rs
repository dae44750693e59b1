use grit::blob::Blob;
use grit::error::Error;
use grit::tree::{path_relative_to, Tree, TreeEntry};

fn hex(bytes: &[u8]) -> String {
    bytes.iter().map(|b| format!("{:02x}", b)).collect()
}

fn blob(path: &str, content: &str) -> Blob {
    Blob::new(path.as_bytes().to_vec(), content.as_bytes().to_vec())
}

fn tree_id(tree: &Tree) -> String {
    hex(&tree.to_object().raw_id())
}

#[test]
fn creates_from_blobs() {
    let blob = Blob {
        content: "Hello".to_string().as_bytes().to_owned(),
        source: "wat.txt".as_bytes().to_vec(),
    };
    let _tree = Tree::from_blobs(&Vec::new(), vec![blob]).unwrap();
}

#[test]
fn encodes_entries_in_binary() {
    let root = b"/work".to_vec();
    let tree = Tree::from_blobs(&root, vec![blob("/work/README", "This is the README")]).unwrap();
    let mut expected = b"100644 README\0".to_vec();
    expected.extend_from_slice(&[
        0xee, 0xdf, 0x7e, 0x9c, 0xbf, 0x58, 0xc2, 0x83, 0x91, 0x3a, 0x70, 0xa5, 0x46, 0x29, 0x88,
        0xa0, 0xb5, 0xee, 0x00, 0x52,
    ]);
    assert_eq!(tree.content, expected);
    assert_eq!(tree_id(&tree), "d563e95f9546ba7708a37dc1d61f82a1b4bbcf14");
}

#[test]
fn order_of_input_does_not_change_the_tree() {
    let one = Tree::from_blobs(&Vec::new(), vec![blob("a", "1"), blob("b", "2")]).unwrap();
    let two = Tree::from_blobs(&Vec::new(), vec![blob("b", "2"), blob("a", "1")]).unwrap();
    assert_eq!(one.content, two.content);
    assert_eq!(tree_id(&one), tree_id(&two));
    assert_eq!(tree_id(&one), "922c97754b0be04f70867652da11e384c16c6832");
    assert_eq!(one.entries[0].path, b"a".to_vec());
    assert_eq!(one.entries[1].path, b"b".to_vec());
}

#[test]
fn changing_a_path_changes_the_tree() {
    let one = Tree::from_blobs(&Vec::new(), vec![blob("a", "1"), blob("b", "2")]).unwrap();
    let two = Tree::from_blobs(&Vec::new(), vec![blob("a", "1"), blob("c", "2")]).unwrap();
    let three = Tree::from_blobs(&Vec::new(), vec![blob("z", "1"), blob("b", "2")]).unwrap();
    assert_ne!(tree_id(&one), tree_id(&two));
    assert_ne!(tree_id(&one), tree_id(&three));
}

#[test]
fn entries_sort_by_bytes() {
    let tree = Tree::from_blobs(
        &Vec::new(),
        vec![blob("b", "x"), blob("a.txt", "x"), blob("B", "x"), blob("a", "x")],
    )
    .unwrap();
    let paths: Vec<Vec<u8>> = tree.entries.iter().map(|e| e.path.clone()).collect();
    assert_eq!(
        paths,
        vec![b"B".to_vec(), b"a".to_vec(), b"a.txt".to_vec(), b"b".to_vec()]
    );
}

#[test]
fn empty_tree_has_the_known_identity() {
    let tree = Tree::from_blobs(&b"/work".to_vec(), Vec::new()).unwrap();
    assert!(tree.content.is_empty());
    assert_eq!(tree_id(&tree), "4b825dc642cb6eb9a060e54bf8d69288fbee4904");
}

#[test]
fn duplicate_paths_are_refused() {
    let r = Tree::from_blobs(
        &b"/work".to_vec(),
        vec![blob("/work/a", "1"), blob("a", "2")],
    );
    assert_eq!(r.err(), Some(Error::DuplicatePath));
}

#[test]
fn nul_in_a_path_is_refused() {
    let r = Tree::from_entries(vec![TreeEntry { path: b"a\0b".to_vec(), id: vec![0; 20] }]);
    assert_eq!(r.err(), Some(Error::Encoding));
    let both = Tree::from_entries(vec![
        TreeEntry { path: b"a".to_vec(), id: vec![0; 20] },
        TreeEntry { path: b"a".to_vec(), id: vec![1; 20] },
        TreeEntry { path: b"\0".to_vec(), id: vec![0; 20] },
    ]);
    assert_eq!(both.err(), Some(Error::Encoding));
}

#[test]
fn paths_are_made_relative_to_the_root() {
    assert_eq!(path_relative_to(b"/work", b"/work/README"), b"README".to_vec());
    assert_eq!(path_relative_to(b"/work", b"/work//a/b"), b"a/b".to_vec());
    assert_eq!(path_relative_to(b"/work", b"/other/x"), b"other/x".to_vec());
    assert_eq!(path_relative_to(b"", b"plain"), b"plain".to_vec());
}

#[test]
fn identities_must_be_twenty_bytes() {
    let short = Tree::from_entries(vec![TreeEntry { path: b"a".to_vec(), id: vec![0; 19] }]);
    assert_eq!(short.err(), Some(Error::Encoding));
    let long = Tree::from_entries(vec![TreeEntry { path: b"a".to_vec(), id: vec![0; 21] }]);
    assert_eq!(long.err(), Some(Error::Encoding));
}
