//! The head ref: the text of the file that names the latest commit.
use vstd::prelude::*;
use crate::error::Error;
use crate::hexid::{decode_hex, encode_hex, hex_of, is_hex_text, lemma_unhex_hex, unhex};
use crate::text::NEWLINE;

verus! {

/// The text of a head file without one final newline, if it has one.
pub open spec fn head_text(c: Seq<u8>) -> Seq<u8> {
    if c.len() > 0 && c.last() == NEWLINE {
        c.drop_last()
    } else {
        c
    }
}

/// What an existing head file holds: an identity as 40 hexadecimal digits,
/// or anything else, even nothing at all, which is corruption.
pub open spec fn parsed_head(c: Seq<u8>) -> Result<Option<Seq<u8>>, Error> {
    if head_text(c).len() == 40 && is_hex_text(head_text(c)) {
        Ok(Some(unhex(head_text(c))))
    } else {
        Err(Error::RefCorruption)
    }
}

pub open spec fn view_head(r: Result<Option<Vec<u8>>, Error>) -> Result<Option<Seq<u8>>, Error> {
    match r {
        Ok(Some(v)) => Ok(Some(v@)),
        Ok(None) => Ok(None),
        Err(e) => Err(e),
    }
}

/// Reads the head ref from the contents of its file, `None` where the file
/// does not exist (no history yet). A file that exists but does not hold an
/// identity, an empty one included, is `RefCorruption`.
pub fn read_head(contents: Option<Vec<u8>>) -> (r: Result<Option<Vec<u8>>, Error>)
    ensures
        contents is None ==> r == Ok::<Option<Vec<u8>>, Error>(None),
        contents is Some ==> view_head(r) == parsed_head(contents->0@),
{
    match contents {
        None => Ok(None),
        Some(c) => {
            let end: usize = if c.len() > 0 && c[c.len() - 1] == NEWLINE {
                c.len() - 1
            } else {
                c.len()
            };
            let text = crate::text::copy_range(c.as_slice(), 0, end);
            assert(text@ =~= head_text(c@));
            if text.len() != 40 {
                return Err(Error::RefCorruption);
            }
            match decode_hex(text.as_slice()) {
                Some(id) => Ok(Some(id)),
                None => Err(Error::RefCorruption),
            }
        },
    }
}

/// The text that the head file holds once it names the commit `id`.
pub fn head_file_contents(id: &Vec<u8>) -> (r: Vec<u8>)
    ensures
        r@ == hex_of(id@),
{
    encode_hex(id.as_slice())
}

/// Writing an identity to the head file and reading it back gives that
/// identity.
pub proof fn lemma_head_round_trip(id: Seq<u8>)
    requires
        id.len() == 20,
    ensures
        parsed_head(hex_of(id)) == Ok::<Option<Seq<u8>>, Error>(Some(id)),
{
    lemma_unhex_hex(id);
    let h = hex_of(id);
    assert(h.len() == 40);
    if h.last() == NEWLINE {
        let x = id[19] as int % 16;
        assert(h[39] == crate::hexid::hex_digit(x));
        crate::hexid::lemma_hex_digit(x);
    }
}

} // verus!
