use grit::commit::Commit;
use grit::config::User;
use grit::date::{date_bytes, Timestamp};
use grit::error::Error;

fn unhex(s: &str) -> Vec<u8> {
    (0..s.len()).step_by(2).map(|i| u8::from_str_radix(&s[i..i + 2], 16).unwrap()).collect()
}

fn now() -> Timestamp {
    Timestamp { seconds: 1_600_000_000, offset_seconds: 3600 }
}

fn user(name: &str, email: &str, date: &str) -> User {
    User { name: name.to_string(), email: email.to_string(), date: date.to_string() }
}

#[test]
fn encodes_a_root_commit() {
    let author = user("A U Thor", "author@example.com", "1570000000 +0200");
    let tree = unhex("d563e95f9546ba7708a37dc1d61f82a1b4bbcf14");
    let commit = Commit::new(&tree, None, &author, &author, "It is a commit!", &now()).unwrap();
    assert_eq!(
        String::from_utf8(commit.content.clone()).unwrap(),
        "tree d563e95f9546ba7708a37dc1d61f82a1b4bbcf14\n\
         author A U Thor <author@example.com> 1570000000 +0200\n\
         committer A U Thor <author@example.com> 1570000000 +0200\n\
         \n\
         It is a commit!\n"
    );
    assert_eq!(
        String::from_utf8(commit.to_object().id()).unwrap(),
        "469df772341caf26f06f07bf063d5f21b00a5978"
    );
}

#[test]
fn encodes_parent_and_distinct_committer() {
    let author = user("Ann", "ann@example.com", "100 +0000");
    let committer = user("Bob", "bob@example.com", "200 -0130");
    let tree = vec![0u8; 20];
    let parent = vec![0xabu8; 20];
    let commit = Commit::new(&tree, Some(parent.clone()), &author, &committer, "msg\n", &now()).unwrap();
    assert_eq!(commit.parent, Some(parent));
    assert_eq!(
        String::from_utf8(commit.content).unwrap(),
        format!(
            "tree {}\nparent {}\nauthor Ann <ann@example.com> 100 +0000\n\
             committer Bob <bob@example.com> 200 -0130\n\nmsg\n",
            "0".repeat(40),
            "ab".repeat(20)
        )
    );
}

#[test]
fn message_keeps_a_single_final_newline() {
    let u = user("A", "a@b", "1 +0000");
    let tree = vec![1u8; 20];
    let with = Commit::new(&tree, None, &u, &u, "done\n", &now()).unwrap();
    let without = Commit::new(&tree, None, &u, &u, "done", &now()).unwrap();
    assert_eq!(with.content, without.content);
    assert!(with.content.ends_with(b"\n\ndone\n"));
    let empty = Commit::new(&tree, None, &u, &u, "", &now()).unwrap();
    assert!(empty.content.ends_with(b"+0000\n\n\n"));
}

#[test]
fn missing_identity_is_refused() {
    let good = user("A", "a@b", "1 +0000");
    let tree = vec![1u8; 20];
    for bad in [user("", "a@b", "1 +0000"), user("A", "", "1 +0000")] {
        assert_eq!(
            Commit::new(&tree, None, &bad, &good, "m", &now()).err(),
            Some(Error::MissingIdentity)
        );
        assert_eq!(
            Commit::new(&tree, None, &good, &bad, "m", &now()).err(),
            Some(Error::MissingIdentity)
        );
    }
}

#[test]
fn missing_date_is_filled_in() {
    let u = user("A", "a@b", "");
    let tree = vec![1u8; 20];
    let at = Timestamp { seconds: 1234, offset_seconds: 3600 };
    let commit = Commit::new(&tree, None, &u, &u, "m", &at).unwrap();
    let text = String::from_utf8(commit.content).unwrap();
    assert!(text.contains("author A <a@b> 1234 +0100\n"));
    assert!(text.contains("committer A <a@b> 1234 +0100\n"));
    let own = user("A", "a@b", "99 -0700");
    let mixed = Commit::new(&tree, None, &own, &u, "m", &at).unwrap();
    let text = String::from_utf8(mixed.content).unwrap();
    assert!(text.contains("author A <a@b> 99 -0700\n"));
    assert!(text.contains("committer A <a@b> 1234 +0100\n"));
}

#[test]
fn dates_are_written_as_seconds_and_offset() {
    let text = |seconds: i64, offset_seconds: i32| {
        String::from_utf8(date_bytes(&Timestamp { seconds, offset_seconds })).unwrap()
    };
    assert_eq!(text(1570000000, 7200), "1570000000 +0200");
    assert_eq!(text(0, 0), "0 +0000");
    assert_eq!(text(-5, -5400), "-5 -0130");
    assert_eq!(text(12, 19800), "12 +0530");
    assert_eq!(text(12, 29), "12 +0000");
    assert_eq!(text(12, 30), "12 +0001");
    assert_eq!(text(i64::MIN, -86399), "-9223372036854775808 -2400");
    assert_eq!(text(i64::MAX, 86399), "9223372036854775807 +2400");
}
