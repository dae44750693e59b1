//! Commit records: a tree, an optional parent, authorship and a message.
use vstd::prelude::*;
use vstd::string::StringSliceAdditionalSpecFns;
use vstd::utf8::encode_utf8;
use crate::config::User;
use crate::date::{date_bytes, date_text, valid_offset, Timestamp};
use crate::error::Error;
use crate::hexid::{encode_hex, hex_of, lemma_unhex_hex, unhex};
use crate::objects::{Kind, Object};
use crate::text::{bytes_of, copy_bytes, GREATER_THAN, LESS_THAN, NEWLINE, SPACE};

verus! {

/// "tree "
pub open spec fn tree_label() -> Seq<u8> {
    seq![116u8, 114u8, 101u8, 101u8, 32u8]
}

/// "parent "
pub open spec fn parent_label() -> Seq<u8> {
    seq![112u8, 97u8, 114u8, 101u8, 110u8, 116u8, 32u8]
}

/// "author "
pub open spec fn author_label() -> Seq<u8> {
    seq![97u8, 117u8, 116u8, 104u8, 111u8, 114u8, 32u8]
}

/// "committer "
pub open spec fn committer_label() -> Seq<u8> {
    seq![99u8, 111u8, 109u8, 109u8, 105u8, 116u8, 116u8, 101u8, 114u8, 32u8]
}

/// The date of a signature: the user's own where given, else `now`.
pub open spec fn date_of(u: User, now: Seq<u8>) -> Seq<u8> {
    if u.date@.len() > 0 {
        encode_utf8(u.date@)
    } else {
        now
    }
}

/// `<name> <<email>> <date>`
pub open spec fn signature(u: User, now: Seq<u8>) -> Seq<u8> {
    encode_utf8(u.name@) + seq![SPACE, LESS_THAN] + encode_utf8(u.email@) + seq![
        GREATER_THAN,
        SPACE,
    ] + date_of(u, now)
}

/// The message with a final newline, added only where it has none.
pub open spec fn with_final_newline(m: Seq<u8>) -> Seq<u8> {
    if m.len() > 0 && m.last() == NEWLINE {
        m
    } else {
        m.push(NEWLINE)
    }
}

/// The parent line, present only for a commit with a parent.
pub open spec fn parent_line(parent: Option<Seq<u8>>) -> Seq<u8> {
    match parent {
        Some(p) => parent_label() + hex_of(p) + seq![NEWLINE],
        None => Seq::empty(),
    }
}

/// The payload of a commit.
pub open spec fn commit_payload(
    tree: Seq<u8>,
    parent: Option<Seq<u8>>,
    author: Seq<u8>,
    committer: Seq<u8>,
    message: Seq<u8>,
) -> Seq<u8> {
    tree_label() + hex_of(tree) + seq![NEWLINE] + parent_line(parent) + author_label() + author
        + seq![NEWLINE] + committer_label() + committer + seq![NEWLINE, NEWLINE]
        + with_final_newline(message)
}

/// The parent that a commit payload names: the identity in its second
/// line, where that line is a parent line.
pub open spec fn commit_parent(payload: Seq<u8>) -> Option<Seq<u8>> {
    if payload.len() >= 93 && payload.subrange(46, 53) == parent_label() {
        Some(unhex(payload.subrange(53, 93)))
    } else {
        None
    }
}

/// Decoding the parent of an encoded commit gives the parent it was
/// built with.
pub proof fn lemma_commit_parent(
    tree: Seq<u8>,
    parent: Option<Seq<u8>>,
    author: Seq<u8>,
    committer: Seq<u8>,
    message: Seq<u8>,
)
    requires
        tree.len() == 20,
        parent is Some ==> parent->0.len() == 20,
    ensures
        commit_parent(commit_payload(tree, parent, author, committer, message)) == parent,
{
    let c = commit_payload(tree, parent, author, committer, message);
    let rest = author_label() + author + seq![NEWLINE] + committer_label() + committer + seq![
        NEWLINE,
        NEWLINE,
    ] + with_final_newline(message);
    assert(c =~= tree_label() + hex_of(tree) + seq![NEWLINE] + parent_line(parent) + rest);
    match parent {
        Some(p) => {
            assert(c.subrange(46, 53) =~= parent_label());
            assert(c.subrange(53, 93) =~= hex_of(p));
            lemma_unhex_hex(p);
        },
        None => {
            assert(c[46] == 97u8);
            assert(c.subrange(46, 53)[0] != parent_label()[0]);
        },
    }
}

/// A user that a commit can be attributed to: with a name and an email.
pub open spec fn attributable(u: User) -> bool {
    u.name@.len() > 0 && u.email@.len() > 0
}

pub open spec fn view_parent(p: Option<Vec<u8>>) -> Option<Seq<u8>> {
    match p {
        Some(v) => Some(v@),
        None => None,
    }
}

/// `c` records `tree`, `parent`, the two signatures and the message, with
/// `now` as the date of a user that gives none.
pub open spec fn commit_of(
    c: Commit,
    tree: Seq<u8>,
    parent: Option<Seq<u8>>,
    author: User,
    committer: User,
    message: Seq<u8>,
    now: Seq<u8>,
) -> bool {
    &&& c.tree@ == tree
    &&& view_parent(c.parent) == parent
    &&& c.content@ == commit_payload(
        tree,
        parent,
        signature(author, now),
        signature(committer, now),
        message,
    )
}

fn signature_bytes(u: &User, now: &Vec<u8>) -> (r: Vec<u8>)
    ensures
        r@ == signature(*u, now@),
{
    let mut r = bytes_of(u.name.as_str());
    r.push(SPACE);
    r.push(LESS_THAN);
    let mut email = bytes_of(u.email.as_str());
    r.append(&mut email);
    r.push(GREATER_THAN);
    r.push(SPACE);
    let mut date = if u.date.as_str().is_empty() {
        copy_bytes(now.as_slice())
    } else {
        bytes_of(u.date.as_str())
    };
    r.append(&mut date);
    assert(r@ =~= signature(*u, now@));
    r
}

/// A commit record.
pub struct Commit {
    pub tree: Vec<u8>,
    pub parent: Option<Vec<u8>>,
    pub content: Vec<u8>,
}

impl Commit {
    /// Builds a commit, dating each user that gives no date of its own
    /// with `now`, the current time.
    ///
    /// Fails with `MissingIdentity` when the author or the committer lacks
    /// a name or an email.
    pub fn new(
        tree_id: &Vec<u8>,
        parent: Option<Vec<u8>>,
        author: &User,
        committer: &User,
        message: &str,
        now: &Timestamp,
    ) -> (r: Result<Commit, Error>)
        requires
            tree_id@.len() == 20,
            parent is Some ==> parent->0@.len() == 20,
            valid_offset(*now),
        ensures
            r is Ok <==> attributable(*author) && attributable(*committer),
            r is Err ==> r->Err_0 == Error::MissingIdentity,
            r is Ok ==> commit_of(
                r->Ok_0,
                tree_id@,
                view_parent(parent),
                *author,
                *committer,
                message.spec_bytes(),
                date_text(*now),
            ),
    {
        if author.name.as_str().is_empty() || author.email.as_str().is_empty()
            || committer.name.as_str().is_empty() || committer.email.as_str().is_empty() {
            return Err(Error::MissingIdentity);
        }
        let mut content = vec![116u8, 114u8, 101u8, 101u8, 32u8];
        let mut tree_hex = encode_hex(tree_id.as_slice());
        content.append(&mut tree_hex);
        content.push(NEWLINE);
        match &parent {
            Some(p) => {
                let mut line = vec![112u8, 97u8, 114u8, 101u8, 110u8, 116u8, 32u8];
                let mut parent_hex = encode_hex(p.as_slice());
                line.append(&mut parent_hex);
                line.push(NEWLINE);
                content.append(&mut line);
            },
            None => {},
        }
        let date = date_bytes(now);
        let mut author_line = vec![97u8, 117u8, 116u8, 104u8, 111u8, 114u8, 32u8];
        content.append(&mut author_line);
        let mut author_sig = signature_bytes(author, &date);
        content.append(&mut author_sig);
        content.push(NEWLINE);
        let mut committer_line = vec![99u8, 111u8, 109u8, 109u8, 105u8, 116u8, 116u8, 101u8, 114u8, 32u8];
        content.append(&mut committer_line);
        let mut committer_sig = signature_bytes(committer, &date);
        content.append(&mut committer_sig);
        content.push(NEWLINE);
        content.push(NEWLINE);
        let mut text = bytes_of(message);
        let needs_newline = text.len() == 0 || text[text.len() - 1] != NEWLINE;
        if needs_newline {
            text.push(NEWLINE);
        }
        content.append(&mut text);
        assert(content@ =~= commit_payload(
            tree_id@,
            view_parent(parent),
            signature(*author, date_text(*now)),
            signature(*committer, date_text(*now)),
            message.spec_bytes(),
        ));
        Ok(Commit { tree: copy_bytes(tree_id.as_slice()), parent, content })
    }

    /// The commit as an object.
    pub fn to_object(&self) -> (o: Object)
        ensures
            o.kind == Kind::Commit,
            o.content@ == self.content@,
    {
        Object { kind: Kind::Commit, content: copy_bytes(self.content.as_slice()) }
    }
}

} // verus!
