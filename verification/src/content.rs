//! Loader content: source text that is either a UTF-8 string or a raw byte
//! buffer.

use vstd::prelude::*;

use vstd::string::StringSliceAdditionalSpecFns;

verus! {

/// The bytes a piece of content stands for: a string contributes its UTF-8
/// encoding, a buffer its bytes.
pub open spec fn spec_content_bytes(c: &Content) -> Seq<u8> {
    match c {
        Content::String(s) => vstd::utf8::encode_utf8(s@),
        Content::Buffer(b) => b@,
    }
}

/// Source content handed around by loaders.
pub enum Content {
    String(String),
    Buffer(Vec<u8>),
}

/// The characters `String::from_utf8_lossy` decodes the bytes to.
pub uninterp spec fn utf8_lossy(bytes: Seq<u8>) -> Seq<char>;

/// Relies on `String::from_utf8_lossy`: the result is a function of the bytes
/// alone, and valid UTF-8 input decodes to exactly the string whose encoding
/// it is.
#[verifier::external_body]
fn from_utf8_lossy_owned(bytes: &Vec<u8>) -> (r: String)
    ensures
        r@ == utf8_lossy(bytes@),
        vstd::utf8::valid_utf8(bytes@) ==> vstd::utf8::encode_utf8(r@) == bytes@,
{
    String::from_utf8_lossy(bytes.as_slice()).into_owned()
}

impl Content {
    /// The content as a string, invalid UTF-8 replaced lossily.
    pub fn into_string_lossy(self) -> (r: String)
        ensures
            match self {
                Content::String(s) => r@ == s@,
                Content::Buffer(b) => r@ == utf8_lossy(b@),
            },
    {
        match self {
            Content::String(s) => s,
            Content::Buffer(b) => from_utf8_lossy_owned(&b),
        }
    }

    /// The content's bytes, in place.
    pub fn as_bytes(&self) -> (r: &[u8])
        ensures
            r@ == spec_content_bytes(self),
    {
        match self {
            Content::String(s) => s.as_str().as_bytes(),
            Content::Buffer(b) => b.as_slice(),
        }
    }

    /// The content's bytes, owned.
    pub fn into_bytes(self) -> (r: Vec<u8>)
        ensures
            r@ == spec_content_bytes(&self),
    {
        match self {
            Content::String(s) => s.as_str().as_bytes_vec(),
            Content::Buffer(b) => b,
        }
    }

    pub fn is_buffer(&self) -> (r: bool)
        ensures
            r == (self is Buffer),
    {
        match self {
            Content::Buffer(_) => true,
            Content::String(_) => false,
        }
    }

    pub fn is_string(&self) -> (r: bool)
        ensures
            r == (self is String),
    {
        match self {
            Content::String(_) => true,
            Content::Buffer(_) => false,
        }
    }
}

/// The loader plugin that serves `builtin:swc-loader` requests.  Resolving a
/// loader request to a configured loader instance happens in the host's async
/// resolver hook and caches parsed options there, so the plugin itself
/// carries no state the library could reason about.
pub struct SwcLoaderPlugin;

impl SwcLoaderPlugin {
    pub fn new() -> (r: SwcLoaderPlugin) {
        SwcLoaderPlugin
    }
}

} // verus!
