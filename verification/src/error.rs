use vstd::prelude::*;

verus! {

/// What went wrong. Failures of outside services (git, GitHub, YAML, files) carry the
/// message that the service reported.
#[derive(Debug, Clone, PartialEq, Eq)]
pub enum ErrorKind {
    RepoClone(String),
    RepoLoad(String),
    GitDiff(String),
    DiffParse(String),
    ANNPreprocessing(String),
    GitHub(String),
    Serde(String),
    IO(String),
}

#[derive(Debug, Clone, PartialEq, Eq)]
pub struct Error(pub ErrorKind);

impl Error {
    pub fn new(error_kind: ErrorKind) -> (e: Self)
        ensures
            e.0 == error_kind,
    {
        Self(error_kind)
    }

    pub fn kind(&self) -> (k: &ErrorKind)
        ensures
            *k == self.0,
    {
        &self.0
    }

    /// The text of the error, as it is displayed.
    pub fn message(&self) -> (m: &str)
        ensures
            m@ == error_text(self.0),
    {
        match &self.0 {
            ErrorKind::RepoClone(t) => t.as_str(),
            ErrorKind::RepoLoad(t) => t.as_str(),
            ErrorKind::GitDiff(t) => t.as_str(),
            ErrorKind::DiffParse(t) => t.as_str(),
            ErrorKind::ANNPreprocessing(t) => t.as_str(),
            ErrorKind::GitHub(t) => t.as_str(),
            ErrorKind::Serde(t) => t.as_str(),
            ErrorKind::IO(t) => t.as_str(),
        }
    }
}

/// The displayed text of an error kind is the message that it carries.
pub open spec fn error_text(k: ErrorKind) -> Seq<char> {
    match k {
        ErrorKind::RepoClone(t) => t@,
        ErrorKind::RepoLoad(t) => t@,
        ErrorKind::GitDiff(t) => t@,
        ErrorKind::DiffParse(t) => t@,
        ErrorKind::ANNPreprocessing(t) => t@,
        ErrorKind::GitHub(t) => t@,
        ErrorKind::Serde(t) => t@,
        ErrorKind::IO(t) => t@,
    }
}

} // verus!
