//! File snapshots: the bytes of one file and where it was read from.
use vstd::prelude::*;
use crate::hexid::hex_of;
use crate::objects::{identity, Kind, Object};
use crate::text::copy_bytes;

verus! {

/// The content of one file, with the path it was read from.
pub struct Blob {
    pub content: Vec<u8>,
    pub source: Vec<u8>,
}

impl Blob {
    pub fn new(source: Vec<u8>, content: Vec<u8>) -> (b: Blob)
        ensures
            b.source@ == source@,
            b.content@ == content@,
    {
        Blob { content, source }
    }

    /// The path the content was read from.
    pub fn source(&self) -> (r: &Vec<u8>)
        ensures
            r@ == self.source@,
    {
        &self.source
    }

    /// The blob as an object.
    pub fn to_object(&self) -> (o: Object)
        ensures
            o.kind == Kind::Blob,
            o.content@ == self.content@,
    {
        Object::from_contents(copy_bytes(self.content.as_slice()))
    }

    /// The identity of the blob, as 20 raw bytes.
    pub fn raw_id(&self) -> (r: Vec<u8>)
        ensures
            r@ == identity(Kind::Blob, self.content@),
            r@.len() == 20,
    {
        self.to_object().raw_id()
    }

    /// The identity of the blob, as 40 hexadecimal digits.
    pub fn id(&self) -> (r: Vec<u8>)
        ensures
            r@ == hex_of(identity(Kind::Blob, self.content@)),
    {
        self.to_object().id()
    }
}

} // verus!
