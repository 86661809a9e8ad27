//! The errors that stop a translation.

use vstd::prelude::*;

verus! {

/// Why a requested extension cannot be used.
pub enum ExtensionProblem {
    /// No extension of that name is in the registry.
    NotFound(String),
    /// The extension exists but does not list the selected API as supported.
    Unsupported(String),
    /// The extension was requested more than once.
    Duplicate(String),
}

/// A fatal condition, with the name of the symbol or token at fault.
pub enum GenError {
    InvalidVersionToken(String),
    UnresolvableExtension(Vec<ExtensionProblem>),
    UnknownType(String),
    MalformedDeclaration(String),
    DuplicateName(String),
}

/// The mathematical value of an [`ExtensionProblem`].
pub enum ProblemV {
    NotFound(Seq<char>),
    Unsupported(Seq<char>),
    Duplicate(Seq<char>),
}

impl View for ExtensionProblem {
    type V = ProblemV;

    open spec fn view(&self) -> ProblemV {
        match self {
            ExtensionProblem::NotFound(s) => ProblemV::NotFound(s@),
            ExtensionProblem::Unsupported(s) => ProblemV::Unsupported(s@),
            ExtensionProblem::Duplicate(s) => ProblemV::Duplicate(s@),
        }
    }
}

/// The mathematical value of a [`GenError`].
pub enum ErrorV {
    InvalidVersionToken(Seq<char>),
    UnresolvableExtension(Seq<ProblemV>),
    UnknownType(Seq<char>),
    MalformedDeclaration(Seq<char>),
    DuplicateName(Seq<char>),
}

impl View for GenError {
    type V = ErrorV;

    open spec fn view(&self) -> ErrorV {
        match self {
            GenError::InvalidVersionToken(s) => ErrorV::InvalidVersionToken(s@),
            GenError::UnresolvableExtension(v) => ErrorV::UnresolvableExtension(
                v@.map_values(|p: ExtensionProblem| p@),
            ),
            GenError::UnknownType(s) => ErrorV::UnknownType(s@),
            GenError::MalformedDeclaration(s) => ErrorV::MalformedDeclaration(s@),
            GenError::DuplicateName(s) => ErrorV::DuplicateName(s@),
        }
    }
}

} // verus!
