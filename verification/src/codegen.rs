//! Per-module code-generation artifacts that downstream stages read: data
//! URLs, emitted filenames, and asset metadata.

use vstd::prelude::*;

verus! {

/// A data URL produced for a module.
pub struct CodeGenerationDataUrl {
    inner: String,
}

impl CodeGenerationDataUrl {
    pub fn new(inner: String) -> (r: CodeGenerationDataUrl)
        ensures
            r.view_url() == inner@,
    {
        CodeGenerationDataUrl { inner }
    }

    pub closed spec fn view_url(&self) -> Seq<char> {
        self.inner@
    }

    pub fn inner(&self) -> (r: &str)
        ensures
            r@ == self.view_url(),
    {
        self.inner.as_str()
    }
}

/// Marks a module whose generated code still holds the public-path
/// placeholder, to be replaced when the real public path is known.
pub struct CodeGenerationPublicPathAutoReplace(pub bool);

/// The filename and public path a module's asset was emitted under.
pub struct CodeGenerationDataFilename {
    filename: String,
    public_path: String,
}

impl CodeGenerationDataFilename {
    pub fn new(filename: String, public_path: String) -> (r: CodeGenerationDataFilename)
        ensures
            r.view_filename() == filename@,
            r.view_public_path() == public_path@,
    {
        CodeGenerationDataFilename { filename, public_path }
    }

    pub closed spec fn view_filename(&self) -> Seq<char> {
        self.filename@
    }

    pub closed spec fn view_public_path(&self) -> Seq<char> {
        self.public_path@
    }

    pub fn filename(&self) -> (r: &str)
        ensures
            r@ == self.view_filename(),
    {
        self.filename.as_str()
    }

    pub fn public_path(&self) -> (r: &str)
        ensures
            r@ == self.view_public_path(),
    {
        self.public_path.as_str()
    }
}

/// What is recorded about an emitted asset.
pub struct AssetInfo {
    /// May the asset be cached forever?
    pub immutable: Option<bool>,
    /// Was the asset minimized already?
    pub minimized: Option<bool>,
    /// Is the asset only for development?
    pub development: Option<bool>,
    /// Does the asset belong to hot module replacement?
    pub hot_module_replacement: Option<bool>,
}

/// Asset metadata attached to a module's code-generation result.
pub struct CodeGenerationDataAssetInfo {
    inner: AssetInfo,
}

impl CodeGenerationDataAssetInfo {
    pub fn new(inner: AssetInfo) -> (r: CodeGenerationDataAssetInfo)
        ensures
            r.view_info() == inner,
    {
        CodeGenerationDataAssetInfo { inner }
    }

    pub closed spec fn view_info(&self) -> AssetInfo {
        self.inner
    }

    pub fn inner(&self) -> (r: &AssetInfo)
        ensures
            *r == self.view_info(),
    {
        &self.inner
    }
}

/// Identity of one code-generation result in the result store.
pub struct CodeGenResultId(pub u32);

} // verus!
