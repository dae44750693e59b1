//! Which workspace paths are left out of a commit, by file name.
use vstd::prelude::*;
use vstd::string::StringSliceAdditionalSpecFns;
use vstd::utf8::encode_utf8;
use crate::text::{bytes_eq, bytes_of, copy_range, DOT, SLASH};

verus! {

/// Whether a path ends in a separator, or in a "." component after one.
pub open spec fn ends_in_filler(p: Seq<u8>) -> bool {
    (p.len() > 0 && p.last() == SLASH) || (p.len() >= 2 && p.last() == DOT && p[p.len() - 2]
        == SLASH)
}

/// A path without its trailing separators and trailing "." components,
/// which name no file of their own.
pub open spec fn trim_trailing_slashes(p: Seq<u8>) -> Seq<u8>
    decreases p.len(),
{
    if ends_in_filler(p) {
        trim_trailing_slashes(p.drop_last())
    } else {
        p
    }
}

/// What follows the last separator of a path (all of it where it has none).
pub open spec fn last_component(p: Seq<u8>) -> Seq<u8>
    decreases p.len(),
{
    if p.len() == 0 {
        p
    } else if p.last() == SLASH {
        Seq::empty()
    } else {
        last_component(p.drop_last()).push(p.last())
    }
}

/// The final component of a path, trailing separators and "." components
/// ignored.
pub open spec fn file_name(p: Seq<u8>) -> Seq<u8> {
    last_component(trim_trailing_slashes(p))
}

/// A path whose final component names a file: neither empty (the empty path
/// or the root), nor "." (a path that is only the current directory), nor "..".
pub open spec fn has_file_name(p: Seq<char>) -> bool {
    let n = file_name(encode_utf8(p));
    n.len() > 0 && n != seq![46u8] && n != seq![46u8, 46u8]
}

/// A path whose file name is one of the patterns.
pub open spec fn is_ignored(patterns: Seq<String>, path: Seq<char>) -> bool {
    exists|i: int|
        0 <= i < patterns.len() && encode_utf8(#[trigger] patterns[i]@) == file_name(
            encode_utf8(path),
        )
}

/// The file name of a path, as bytes.
pub fn file_name_of(path: &[u8]) -> (r: Vec<u8>)
    ensures
        r@ == file_name(path@),
{
    let mut end: usize = path.len();
    assert(path@.subrange(0, end as int) =~= path@);
    while end > 0 && (path[end - 1] == SLASH || (end >= 2 && path[end - 1] == DOT && path[end
        - 2] == SLASH))
        invariant
            end <= path@.len(),
            trim_trailing_slashes(path@) == trim_trailing_slashes(path@.subrange(0, end as int)),
        decreases end,
    {
        assert(path@.subrange(0, end as int).drop_last() =~= path@.subrange(0, end - 1));
        end = end - 1;
    }
    let ghost q = path@.subrange(0, end as int);
    assert(!ends_in_filler(q));
    assert(trim_trailing_slashes(q) == q);
    let mut start: usize = end;
    assert(path@.subrange(start as int, end as int) =~= Seq::<u8>::empty());
    assert(path@.subrange(0, start as int) =~= q);
    assert(last_component(q) =~= last_component(path@.subrange(0, start as int)) + path@.subrange(start as int, end as int));
    while start > 0 && path[start - 1] != SLASH
        invariant
            start <= end <= path@.len(),
            q == path@.subrange(0, end as int),
            last_component(q) == last_component(path@.subrange(0, start as int))
                + path@.subrange(start as int, end as int),
        decreases start,
    {
        let ghost pre = path@.subrange(0, start as int);
        assert(pre.drop_last() =~= path@.subrange(0, start - 1));
        assert(path@.subrange(start - 1, end as int) =~= seq![pre.last()] + path@.subrange(
            start as int,
            end as int,
        ));
        assert(last_component(pre) == last_component(pre.drop_last()).push(pre.last()));
        assert(last_component(pre.drop_last()).push(pre.last()) + path@.subrange(start as int, end as int)
            =~= last_component(pre.drop_last()) + path@.subrange(start - 1, end as int));
        start = start - 1;
    }
    assert(last_component(path@.subrange(0, start as int)) =~= Seq::<u8>::empty());
    assert(last_component(q) =~= path@.subrange(start as int, end as int));
    copy_range(path, start, end)
}

/// Holds ignore patterns, each a file name, and answers whether a path
/// should be left out.
pub struct Ignore {
    pub patterns: Vec<String>,
}

impl Ignore {
    /// No patterns.
    pub fn new() -> (r: Ignore)
        ensures
            r.patterns@.len() == 0,
    {
        Ignore { patterns: Vec::new() }
    }

    pub fn add_pattern(&mut self, pattern: String)
        ensures
            final(self).patterns@ == old(self).patterns@.push(pattern),
    {
        self.patterns.push(pattern);
    }

    /// Whether the file name of `path` is one of the patterns.
    pub fn ignore_item(&self, path: &String) -> (r: bool)
        requires
            has_file_name(path@),
        ensures
            r == is_ignored(self.patterns@, path@),
    {
        let name = file_name_of(path.as_str().as_bytes());
        let mut i: usize = 0;
        while i < self.patterns.len()
            invariant
                0 <= i <= self.patterns@.len(),
                name@ == file_name(encode_utf8(path@)),
                forall|j: int|
                    0 <= j < i ==> encode_utf8(#[trigger] self.patterns@[j]@) != name@,
            decreases self.patterns@.len() - i,
        {
            let pattern = bytes_of(self.patterns[i].as_str());
            if bytes_eq(pattern.as_slice(), name.as_slice()) {
                return true;
            }
            i = i + 1;
        }
        false
    }

    /// The paths that are not ignored, in their order.
    pub fn ignore_items(&self, paths: Vec<String>) -> (r: Vec<String>)
        requires
            forall|i: int| 0 <= i < paths@.len() ==> has_file_name(#[trigger] paths@[i]@),
        ensures
            r@ == paths@.filter(|p: String| !is_ignored(self.patterns@, p@)),
    {
        let ghost keep = |p: String| !is_ignored(self.patterns@, p@);
        let mut r: Vec<String> = Vec::new();
        let mut i: usize = 0;
        assert(paths@.subrange(0, 0) =~= Seq::<String>::empty());
        assert(Seq::<String>::empty().filter(keep) =~= Seq::<String>::empty());
        while i < paths.len()
            invariant
                0 <= i <= paths@.len(),
                forall|i: int| 0 <= i < paths@.len() ==> has_file_name(#[trigger] paths@[i]@),
                keep == (|p: String| !is_ignored(self.patterns@, p@)),
                r@ == paths@.subrange(0, i as int).filter(keep),
            decreases paths@.len() - i,
        {
            let ignored = self.ignore_item(&paths[i]);
            proof {
                assert(paths@.subrange(0, i + 1) =~= paths@.subrange(0, i as int).push(paths@[i as int]));
                paths@.subrange(0, i as int).lemma_filter_push(paths@[i as int], keep);
            }
            if !ignored {
                r.push(paths[i].clone());
            }
            i = i + 1;
        }
        assert(paths@.subrange(0, paths@.len() as int) =~= paths@);
        r
    }
}

impl Default for Ignore {
    /// Ignores the repository's own directory, ".git".
    fn default() -> (r: Ignore)
        ensures
            r.patterns@.len() == 1,
            r.patterns@[0]@ == ".git"@,
    {
        let mut patterns: Vec<String> = Vec::new();
        patterns.push(".git".to_owned());
        Ignore { patterns }
    }
}

} // verus!
