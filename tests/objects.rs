use grit::compression::decompress;
use grit::objects::{entry_from_contents, id_from_entry, storage_path, Kind, Object};

fn text(bytes: Vec<u8>) -> String {
    String::from_utf8(bytes).unwrap()
}

#[test]
fn builds_entry_from_contents() {
    let contents = "This is some great content".as_bytes().to_vec();
    let object = Object::from_contents(contents);
    assert_eq!(
        object.build_file(),
        "blob 26\0This is some great content".as_bytes().to_vec()
    );
    assert_eq!(
        entry_from_contents(&"This is some great content".as_bytes().to_vec()),
        "blob 26\0This is some great content".as_bytes().to_vec()
    );
}

#[test]
fn objects_calculates_sha1_id_from_entry() {
    let contents = "This is some great content".as_bytes().to_vec();
    let object = Object::from_contents(contents);
    assert_eq!(
        text(object.id()),
        "a8be488abce200ee4f988c2a63ed5a61f8362521".to_string()
    );
}

#[test]
fn compresses_the_entry() {
    let contents = "This is some great content".as_bytes().to_vec();
    let object = Object::from_contents(contents);
    assert_eq!(
        object.compress(),
        vec![
            120, 156, 13, 194, 81, 9, 0, 32, 12, 4, 80, 163, 92, 6, 63, 76, 98, 1, 39, 67, 5, 221,
            192, 93, 127, 20, 158, 108, 23, 228, 146, 234, 92, 129, 47, 252, 40, 198, 213, 70,
            116, 55, 170, 241, 1, 195, 52, 11, 222,
        ]
    );
}

#[test]
fn objects_knows_where_to_save_from_id() {
    let contents = "This is some great content".as_bytes().to_vec();
    let object = Object::from_contents(contents);
    assert_eq!(
        text(object.id()),
        "a8be488abce200ee4f988c2a63ed5a61f8362521".to_string()
    );
    let path = object.path();
    assert_eq!(text(path.directory), "a8".to_string());
    assert_eq!(text(path.file), "be488abce200ee4f988c2a63ed5a61f8362521".to_string());
}

#[test]
fn mod_calculates_sha1_id_from_entry() {
    let object = Object {
        kind: Kind::Blob,
        content: String::from("This is some great content").as_bytes().to_owned(),
    };
    assert_eq!(
        text(object.id()),
        "a8be488abce200ee4f988c2a63ed5a61f8362521".to_string()
    );
}

#[test]
fn mod_knows_where_to_save_from_id() {
    let object = Object {
        kind: Kind::Blob,
        content: String::from("This is some great content").as_bytes().to_owned(),
    };
    let raw = object.raw_id();
    assert_eq!(raw.len(), 20);
    let path = storage_path(&raw);
    assert_eq!(text(path.directory), "a8".to_string());
    assert_eq!(text(path.file), "be488abce200ee4f988c2a63ed5a61f8362521".to_string());
}

#[test]
fn id_of_canonical_bytes() {
    let entry = "blob 26\0This is some great content".as_bytes().to_vec();
    assert_eq!(text(id_from_entry(&entry)), "a8be488abce200ee4f988c2a63ed5a61f8362521");
}

#[test]
fn identity_is_deterministic() {
    let a = Object::from_contents(b"same bytes".to_vec());
    let b = Object::from_contents(b"same bytes".to_vec());
    assert_eq!(a.raw_id(), b.raw_id());
    assert_eq!(a.id(), a.id());
    let c = Object::from_contents(b"other bytes".to_vec());
    assert_ne!(a.raw_id(), c.raw_id());
}

#[test]
fn empty_blob_has_the_known_identity() {
    let object = Object::from_contents(Vec::new());
    assert_eq!(object.build_file(), b"blob 0\0".to_vec());
    assert_eq!(text(object.id()), "e69de29bb2d1d6434b8b29ae775ad8c2e48c5391");
}

#[test]
fn frames_each_kind() {
    let tree = Object { kind: Kind::Tree, content: Vec::new() };
    assert_eq!(tree.build_file(), b"tree 0\0".to_vec());
    assert_eq!(text(tree.id()), "4b825dc642cb6eb9a060e54bf8d69288fbee4904");
    let commit = Object { kind: Kind::Commit, content: vec![b'x'; 1234] };
    let framed = commit.build_file();
    assert_eq!(&framed[..12], b"commit 1234\0");
    assert_eq!(framed.len(), 12 + 1234);
}

#[test]
fn write_plan_names_the_object_path() {
    let object = Object::from_contents(b"This is some great content".to_vec());
    let first = object.write_plan(b"one");
    let second = object.write_plan(b"two");
    assert_eq!(text(first.directory.clone()), "a8");
    assert_eq!(text(first.file.clone()), "be488abce200ee4f988c2a63ed5a61f8362521");
    assert_eq!(first.temp_name, b"tmp_object_one".to_vec());
    assert_ne!(first.temp_name, second.temp_name);
    assert_eq!(first.directory, second.directory);
    assert_eq!(first.file, second.file);
    assert_eq!(first.compressed, second.compressed);
    assert_eq!(
        decompress(&first.compressed).unwrap(),
        b"blob 26\0This is some great content".to_vec()
    );
}

#[test]
fn parses_canonical_bytes() {
    let parsed = Object::parse(b"tree 3\0abc").unwrap();
    assert_eq!(parsed.kind, Kind::Tree);
    assert_eq!(parsed.content, b"abc".to_vec());
    let commit = Object::parse(b"commit 0\0").unwrap();
    assert_eq!(commit.kind, Kind::Commit);
    assert!(commit.content.is_empty());
    let object = Object::from_contents(b"This is some great content".to_vec());
    let back = Object::parse(&object.build_file()).unwrap();
    assert_eq!(back.kind, Kind::Blob);
    assert_eq!(back.content, object.content);
}

#[test]
fn parse_refuses_malformed_bytes() {
    for bad in [
        &b"blob 4\0abc"[..],
        b"blob 03\0abc",
        b"blob \0",
        b"blob 3abc",
        b"tag 3\0abc",
        b"blob3\0abc",
        b"blob 99999999999999999999999999\0",
        b"",
    ] {
        assert!(Object::parse(bad).is_none(), "{:?}", bad);
    }
}

#[test]
fn reads_a_stored_object() {
    let object = Object::from_contents(b"stored".to_vec());
    let plan = object.write_plan(b"t");
    let back = Object::from_stored(&plan.compressed).unwrap();
    assert_eq!(back.kind, Kind::Blob);
    assert_eq!(back.content, b"stored".to_vec());
    assert_eq!(Object::from_stored(&[0, 1, 2]).err(), Some(grit::error::Error::Io));
    let not_an_object = grit::compression::compress(b"hello").unwrap();
    assert_eq!(Object::from_stored(&not_an_object).err(), Some(grit::error::Error::Io));
}
