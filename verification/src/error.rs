//! The ways in which the library's own rules can fail.

use vstd::prelude::*;

verus! {

/// Why an input was rejected.
#[derive(Clone, Copy, Debug, PartialEq, Eq, Structural)]
pub enum GenError {
    /// The path ends in no component that names a file.
    NoFileName,
    /// A name is not valid Unicode text.
    NotUnicode,
    /// The name of a generated file holds no dot, so no suffix can be
    /// taken off it.
    NoSuffix,
    /// Two generated files stand for one package.
    DuplicateLeaf,
    /// No component of the path is the name of the root.
    RootNotFound,
    /// More differs than the machine can count.
    TooManyFiles,
    /// The workspace names no schema file.
    NoProtoFiles,
    /// A key and value pair does not hold exactly one colon.
    NotOneColon,
}

} // verus!
