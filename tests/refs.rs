use grit::error::Error;
use grit::refs::{head_file_contents, read_head};

#[test]
fn absent_head_is_no_history() {
    assert_eq!(read_head(None), Ok(None));
}

#[test]
fn empty_head_is_corruption() {
    assert_eq!(read_head(Some(Vec::new())), Err(Error::RefCorruption));
}

#[test]
fn head_round_trip() {
    let id: Vec<u8> = (0..20u8).collect();
    let text = head_file_contents(&id);
    assert_eq!(
        String::from_utf8(text.clone()).unwrap(),
        "000102030405060708090a0b0c0d0e0f10111213"
    );
    assert_eq!(read_head(Some(text.clone())), Ok(Some(id.clone())));
    let mut with_newline = text;
    with_newline.push(b'\n');
    assert_eq!(read_head(Some(with_newline)), Ok(Some(id)));
}

#[test]
fn upper_case_head_is_read() {
    let text = b"A8BE488ABCE200EE4F988C2A63ED5A61F8362521".to_vec();
    let id = read_head(Some(text)).unwrap().unwrap();
    assert_eq!(id[0], 0xa8);
    assert_eq!(id[19], 0x21);
}

#[test]
fn corrupt_head_is_reported() {
    assert_eq!(read_head(Some(b"ref: refs/heads/master\n".to_vec())), Err(Error::RefCorruption));
    assert_eq!(read_head(Some(b"abc".to_vec())), Err(Error::RefCorruption));
    assert_eq!(
        read_head(Some(b"g8be488abce200ee4f988c2a63ed5a61f8362521".to_vec())),
        Err(Error::RefCorruption)
    );
    assert_eq!(read_head(Some(b"\n".to_vec())), Err(Error::RefCorruption));
    assert_eq!(read_head(Some(b"garbage".to_vec())), Err(Error::RefCorruption));
}
