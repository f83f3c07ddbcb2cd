use vstd::prelude::*;
use vstd::string::StringExecFns;

verus! {

/// Why a pass was given up.
#[derive(Debug)]
pub enum DeployError {
    /// The attributes of a module's file could not be read.
    AttrProbe { path: String },
    /// A directory that has to be made synthetic could not be opened on the
    /// target.
    DirectoryOpen { path: String },
}

/// A `DeployError` with its paths as sequences of characters.
pub enum DeployErrorView {
    AttrProbe { path: Seq<char> },
    DirectoryOpen { path: Seq<char> },
}

impl View for DeployError {
    type V = DeployErrorView;

    open spec fn view(&self) -> DeployErrorView {
        match self {
            DeployError::AttrProbe { path } => DeployErrorView::AttrProbe { path: path@ },
            DeployError::DirectoryOpen { path } => DeployErrorView::DirectoryOpen { path: path@ },
        }
    }
}

impl DeployError {
    /// The error in words.
    pub fn message(&self) -> (r: String)
        ensures
            r@ == match self {
                DeployError::AttrProbe { path } => "cannot read attributes of "@ + path@,
                DeployError::DirectoryOpen { path } => "cannot open directory "@ + path@,
            },
    {
        match self {
            DeployError::AttrProbe { path } => {
                let mut s = "cannot read attributes of ".to_owned();
                s.append(path.as_str());
                s
            },
            DeployError::DirectoryOpen { path } => {
                let mut s = "cannot open directory ".to_owned();
                s.append(path.as_str());
                s
            },
        }
    }
}

} // verus!
