use grit::blob::Blob;
use grit::compression::decompress;
use grit::config::User;
use grit::date::Timestamp;
use grit::error::Error;
use grit::refs::{head_file_contents, read_head};
use grit::repository::{prepare_commit, Repository};

fn hex(bytes: &[u8]) -> String {
    bytes.iter().map(|b| format!("{:02x}", b)).collect()
}

fn author() -> User {
    User {
        name: "A U Thor".to_string(),
        email: "author@example.com".to_string(),
        date: "1570000000 +0200".to_string(),
    }
}

fn now() -> Timestamp {
    Timestamp { seconds: 1_600_000_000, offset_seconds: 0 }
}

fn readme() -> Vec<Blob> {
    vec![Blob::new(b"/work/README".to_vec(), b"This is the README".to_vec())]
}

#[test]
fn list_files_that_are_not_ignored() {
    let mut repository = Repository::at("/tmp/repo".to_string());
    repository.ignore.add_pattern(String::from("LICENSE"));
    let readme_file = "/tmp/repo/README".to_string();
    let license_file = "/tmp/repo/LICENSE".to_string();
    let listing = vec![readme_file.clone(), license_file, "/tmp/repo/.git".to_string()];
    let commitable_files = repository.list_files(listing);
    assert_eq!(commitable_files.len(), 1);
    assert_eq!(commitable_files.get(0).unwrap().to_owned(), readme_file);
}

#[test]
fn repository_layout() {
    let repository = Repository::at("/tmp/repo".to_string());
    assert_eq!(repository.directory, "/tmp/repo");
    assert_eq!(repository.ignore.patterns, vec![".git".to_string()]);
    assert_eq!(
        repository.required_directories(),
        vec![".git".to_string(), ".git/objects".to_string(), ".git/refs".to_string()]
    );
}

#[test]
fn single_file_commit_matches_git() {
    let head = read_head(None).unwrap();
    assert_eq!(head, None);
    let blobs = readme();
    assert_eq!(hex(&blobs[0].raw_id()), "eedf7e9cbf58c283913a70a5462988a0b5ee0052");
    let plan = prepare_commit(&b"/work".to_vec(), blobs, head, &author(), &author(), "It is a commit!", &now())
        .unwrap();
    assert_eq!(hex(&plan.tree_id), "d563e95f9546ba7708a37dc1d61f82a1b4bbcf14");
    assert_eq!(hex(&plan.commit_id), "469df772341caf26f06f07bf063d5f21b00a5978");
    let stored = plan.commit.to_object().write_plan(b"token");
    assert_eq!(
        decompress(&stored.compressed).unwrap(),
        b"commit 174\0tree d563e95f9546ba7708a37dc1d61f82a1b4bbcf14\n\
          author A U Thor <author@example.com> 1570000000 +0200\n\
          committer A U Thor <author@example.com> 1570000000 +0200\n\
          \n\
          It is a commit!\n"
            .to_vec()
    );
}

#[test]
fn second_commit_links_to_the_first() {
    let root = b"/work".to_vec();
    let first = prepare_commit(&root, readme(), None, &author(), &author(), "It is a commit!", &now()).unwrap();
    let head_file = head_file_contents(&first.commit_id);
    let head = read_head(Some(head_file)).unwrap();
    assert_eq!(head, Some(first.commit_id.clone()));
    let second = prepare_commit(&root, readme(), head, &author(), &author(), "Second", &now()).unwrap();
    assert_eq!(second.commit.parent, Some(first.commit_id.clone()));
    let text = String::from_utf8(second.commit.content.clone()).unwrap();
    assert_eq!(text.lines().nth(1).unwrap(), "parent 469df772341caf26f06f07bf063d5f21b00a5978");
    assert_eq!(hex(&second.commit_id), "d1da04aee092d456709467e28d76a87be585d914");
    let after = read_head(Some(head_file_contents(&second.commit_id))).unwrap();
    assert_eq!(after, Some(second.commit_id));
}

#[test]
fn commit_with_no_files_references_the_empty_tree() {
    let plan = prepare_commit(&b"/work".to_vec(), Vec::new(), None, &author(), &author(), "Empty", &now())
        .unwrap();
    assert_eq!(hex(&plan.tree_id), "4b825dc642cb6eb9a060e54bf8d69288fbee4904");
    assert_eq!(plan.commit.tree, plan.tree_id);
    assert_eq!(hex(&plan.commit_id), "55055f913c1d3592802cd0f0a5d00d847c92104c");
}

#[test]
fn commit_without_author_name_fails() {
    let mut nameless = author();
    nameless.name = String::new();
    let previous = vec![7u8; 20];
    let head_file = head_file_contents(&previous);
    let r = prepare_commit(
        &b"/work".to_vec(),
        readme(),
        Some(previous.clone()),
        &nameless,
        &author(),
        "m",
        &now(),
    );
    assert_eq!(r.err(), Some(Error::MissingIdentity));
    assert_eq!(read_head(Some(head_file)), Ok(Some(previous)));
}

#[test]
fn commit_reports_tree_errors() {
    let dup = vec![
        Blob::new(b"/work/a".to_vec(), b"1".to_vec()),
        Blob::new(b"/work/a".to_vec(), b"2".to_vec()),
    ];
    let r = prepare_commit(&b"/work".to_vec(), dup, None, &author(), &author(), "m", &now());
    assert_eq!(r.err(), Some(Error::DuplicatePath));
    let nul = vec![Blob::new(b"/work/a\0".to_vec(), b"1".to_vec())];
    let r = prepare_commit(&b"/work".to_vec(), nul, None, &author(), &author(), "m", &now());
    assert_eq!(r.err(), Some(Error::Encoding));
}
