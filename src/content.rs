//! Content items: what is to be scanned, as a file reference or inline text.
use vstd::prelude::*;
use vstd::utf8::encode_utf8;
use std::path::PathBuf;
use crate::merge::copy_range;

verus! {

#[verifier::external_type_specification]
#[verifier::external_body]
pub struct ExPathBuf(PathBuf);

/// An item to scan: a file to read, or text given inline, with the file
/// type it came from (carried along for later stages, not read here).
#[derive(Debug, Clone)]
pub struct ChangedContent {
    pub file: Option<PathBuf>,
    pub content: Option<String>,
    pub extension: String,
}

/// Where the bytes of an item come from.
#[derive(Debug)]
pub enum ContentSource {
    /// The whole file at this path is to be read.
    File(PathBuf),
    /// The bytes are already here.
    Inline(Vec<u8>),
    /// Nothing is to be scanned.
    Empty,
}

impl ChangedContent {
    /// Decides where the bytes of the item come from: the file when only a
    /// path is set, the UTF-8 bytes of the text when only text is set, and
    /// nothing otherwise.
    pub fn into_source(self) -> (r: ContentSource)
        ensures
            self.file.is_some() && self.content.is_none() ==> r == ContentSource::File(
                self.file.unwrap(),
            ),
            self.file.is_none() && self.content.is_some() ==> (r matches ContentSource::Inline(b)
                && b@ == encode_utf8(self.content.unwrap()@)),
            self.file.is_some() == self.content.is_some() ==> r == ContentSource::Empty,
    {
        match (self.file, self.content) {
            (Some(file), None) => ContentSource::File(file),
            (None, Some(content)) => {
                let bytes = content.as_str().as_bytes();
                ContentSource::Inline(copy_range(bytes, 0, bytes.len()))
            },
            _ => ContentSource::Empty,
        }
    }
}

} // verus!
