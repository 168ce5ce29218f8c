//! What a declared dependency resolves to, and why a lockfile cannot be read.
use vstd::prelude::*;

verus! {

/// What a package's declared dependency resolves to.
#[derive(Debug, PartialEq, Eq)]
pub enum DepResolution {
    /// A third-party package of the lockfile.
    ThirdParty { name: String, version: String },
    /// Another workspace member.
    Workspace,
}

/// A resolution as mathematical values.
pub enum ResolutionView {
    ThirdParty { name: Seq<char>, version: Seq<char> },
    Workspace,
}

impl View for DepResolution {
    type V = ResolutionView;

    open spec fn view(&self) -> ResolutionView {
        match self {
            DepResolution::ThirdParty { name, version } => ResolutionView::ThirdParty {
                name: name@,
                version: version@,
            },
            DepResolution::Workspace => ResolutionView::Workspace,
        }
    }
}

/// Why a text is no lockfile.
#[derive(Debug)]
pub enum LockfileError {
    /// The text is no document of the lockfile's format.
    NotADocument { detail: String },
    /// A field has another shape than a lockfile gives it.
    BadShape,
    /// The lockfile has no `importers`.
    NoImporters,
}

impl LockfileError {
    /// What the error says.
    pub open spec fn text(&self) -> Seq<char> {
        match self {
            LockfileError::NotADocument { detail } => "the lockfile cannot be parsed: "@ + detail@,
            LockfileError::BadShape => "the lockfile has a field of an unexpected shape"@,
            LockfileError::NoImporters =>
                "pnpm-lock.yaml has no `importers` section: only the importers/packages/snapshots lockfile shape is supported; regenerate the lockfile with a current pnpm"@,
        }
    }

    /// What the error says.
    pub fn message(&self) -> (r: String)
        ensures
            r@ == self.text(),
    {
        match self {
            LockfileError::NotADocument { detail } => "the lockfile cannot be parsed: ".to_owned().concat(
                detail.as_str(),
            ),
            LockfileError::BadShape =>
                "the lockfile has a field of an unexpected shape".to_owned(),
            LockfileError::NoImporters =>
                "pnpm-lock.yaml has no `importers` section: only the importers/packages/snapshots lockfile shape is supported; regenerate the lockfile with a current pnpm".to_owned(),
        }
    }
}

} // verus!
