//! A repository: its layout, the files it tracks, and the objects and head
//! that one commit produces.
use vstd::prelude::*;
use vstd::string::StringSliceAdditionalSpecFns;
use crate::blob::Blob;
use crate::commit::{
    attributable, commit_of, commit_parent, lemma_commit_parent, signature, view_parent, Commit,
};
use crate::config::User;
use crate::date::{date_text, valid_offset, Timestamp};
use crate::error::Error;
use crate::hexid::hex_of;
use crate::ignore::{has_file_name, is_ignored, Ignore};
use crate::objects::{identity, Kind};
use crate::refs::{lemma_head_round_trip, parsed_head};
use crate::tree::{all_nul_free, blob_entries, distinct_paths, tree_of, Tree};

verus! {

/// A working directory and the patterns of what it does not track.
pub struct Repository {
    pub directory: String,
    pub ignore: Ignore,
}

impl Repository {
    /// The repository rooted at `directory`; its own ".git" is ignored.
    pub fn at(directory: String) -> (r: Repository)
        ensures
            r.directory@ == directory@,
            r.ignore.patterns@.len() == 1,
            r.ignore.patterns@[0]@ == ".git"@,
    {
        let mut repo = Repository { directory, ignore: Ignore::new() };
        repo.ignore.add_pattern(".git".to_owned());
        repo
    }

    /// The directories, relative to the root, that an initialised
    /// repository has.
    pub fn required_directories(&self) -> (r: Vec<String>)
        ensures
            r@.len() == 3,
            r@[0]@ == ".git"@,
            r@[1]@ == ".git/objects"@,
            r@[2]@ == ".git/refs"@,
    {
        let mut r: Vec<String> = Vec::new();
        r.push(".git".to_owned());
        r.push(".git/objects".to_owned());
        r.push(".git/refs".to_owned());
        r
    }

    /// The entries of a directory listing that are tracked, in their order.
    pub fn list_files(&self, listing: Vec<String>) -> (r: Vec<String>)
        requires
            forall|i: int| 0 <= i < listing@.len() ==> has_file_name(#[trigger] listing@[i]@),
        ensures
            r@ == listing@.filter(|p: String| !is_ignored(self.ignore.patterns@, p@)),
    {
        self.ignore.ignore_items(listing)
    }
}

/// The objects that one commit adds, with their identities.
pub struct CommitPlan {
    pub tree: Tree,
    pub tree_id: Vec<u8>,
    pub commit: Commit,
    pub commit_id: Vec<u8>,
}

/// `p` is the commit of `blobs` read under `root`, on top of `head`, by
/// `author` and `committer`, with `message`, dated `now` where a user gives
/// no date.
pub open spec fn prepared(
    p: CommitPlan,
    root: Seq<u8>,
    blobs: Seq<Blob>,
    head: Option<Seq<u8>>,
    author: User,
    committer: User,
    message: Seq<u8>,
    now: Seq<u8>,
) -> bool {
    &&& tree_of(p.tree, blob_entries(root, blobs))
    &&& p.tree_id@ == identity(Kind::Tree, p.tree.content@)
    &&& p.tree_id@.len() == 20
    &&& commit_of(p.commit, p.tree_id@, head, author, committer, message, now)
    &&& p.commit_id@ == identity(Kind::Commit, p.commit.content@)
    &&& p.commit_id@.len() == 20
}

/// Builds the tree and the commit for a set of file snapshots. `head` is
/// the current head, which becomes the parent.
///
/// Fails with `MissingIdentity` when the author or the committer lacks a
/// name or an email; otherwise with `Encoding` when a path holds a NUL
/// byte, and with `DuplicatePath` when two snapshots share a path.
pub fn prepare_commit(
    root: &Vec<u8>,
    blobs: Vec<Blob>,
    head: Option<Vec<u8>>,
    author: &User,
    committer: &User,
    message: &str,
    now: &Timestamp,
) -> (r: Result<CommitPlan, Error>)
    requires
        head is Some ==> head->0@.len() == 20,
        valid_offset(*now),
    ensures
        r == Err::<CommitPlan, Error>(Error::MissingIdentity) <==> !(attributable(*author)
            && attributable(*committer)),
        r == Err::<CommitPlan, Error>(Error::Encoding) <==> attributable(*author) && attributable(
            *committer,
        ) && !all_nul_free(blob_entries(root@, blobs@)),
        r == Err::<CommitPlan, Error>(Error::DuplicatePath) <==> attributable(*author)
            && attributable(*committer) && all_nul_free(blob_entries(root@, blobs@))
            && !distinct_paths(blob_entries(root@, blobs@)),
        r is Err ==> r->Err_0 == Error::MissingIdentity || r->Err_0 == Error::Encoding
            || r->Err_0 == Error::DuplicatePath,
        r is Ok ==> prepared(
            r->Ok_0,
            root@,
            blobs@,
            view_parent(head),
            *author,
            *committer,
            message.spec_bytes(),
            date_text(*now),
        ),
{
    if author.name.as_str().is_empty() || author.email.as_str().is_empty()
        || committer.name.as_str().is_empty() || committer.email.as_str().is_empty() {
        return Err(Error::MissingIdentity);
    }
    let tree = match Tree::from_blobs(root, blobs) {
        Ok(t) => t,
        Err(e) => {
            return Err(e);
        },
    };
    let tree_id = tree.to_object().raw_id();
    let commit = match Commit::new(&tree_id, head, author, committer, message, now) {
        Ok(c) => c,
        Err(e) => {
            return Err(e);
        },
    };
    let commit_id = commit.to_object().raw_id();
    Ok(CommitPlan { tree, tree_id, commit, commit_id })
}

/// Commits chain: when a second commit is prepared on the head that was
/// read back after the first one was recorded, it names the first commit
/// as its parent, and the head recorded after it names the second.
pub proof fn lemma_parent_linkage(
    p1: CommitPlan,
    p2: CommitPlan,
    root1: Seq<u8>,
    blobs1: Seq<Blob>,
    head0: Option<Seq<u8>>,
    root2: Seq<u8>,
    blobs2: Seq<Blob>,
    head1: Option<Seq<u8>>,
    author: User,
    committer: User,
    message1: Seq<u8>,
    message2: Seq<u8>,
    now1: Seq<u8>,
    now2: Seq<u8>,
)
    requires
        prepared(p1, root1, blobs1, head0, author, committer, message1, now1),
        parsed_head(hex_of(p1.commit_id@)) == Ok::<Option<Seq<u8>>, Error>(head1),
        prepared(p2, root2, blobs2, head1, author, committer, message2, now2),
    ensures
        commit_parent(p2.commit.content@) == Some(identity(Kind::Commit, p1.commit.content@)),
        parsed_head(hex_of(p2.commit_id@)) == Ok::<Option<Seq<u8>>, Error>(
            Some(identity(Kind::Commit, p2.commit.content@)),
        ),
{
    lemma_head_round_trip(p1.commit_id@);
    lemma_head_round_trip(p2.commit_id@);
    lemma_commit_parent(
        p2.tree_id@,
        head1,
        signature(author, now2),
        signature(committer, now2),
        message2,
    );
}

} // verus!
