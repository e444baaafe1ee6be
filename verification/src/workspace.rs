//! What a run is asked to do: where the schema files are, where the
//! generated tree is kept, and how the output is to be dressed.

use crate::error::GenError;
use crate::path::OsPath;
use vstd::prelude::*;

verus! {

/// The directories and files of one run.
#[derive(Debug)]
pub struct ProtoWorkspace {
    /// Directories in which schema files are looked up.
    pub proto_dirs: Vec<OsPath>,
    /// The schema files to generate code for.
    pub proto_files: Vec<OsPath>,
    /// The directory that the generated files are first written to.
    pub tmp_dir: OsPath,
    /// The directory that holds the committed tree.
    pub output_dir: OsPath,
}

/// How a run treats its output.
#[allow(clippy::module_name_repetitions)]
#[derive(Debug)]
pub struct GenOptions {
    /// Replace the committed tree where it differs, instead of reporting
    /// the difference as a failure.
    pub commit: bool,
    /// The language edition to format the output for, if it is to be
    /// formatted.
    pub format: Option<String>,
    /// Text to put at the head of every file that is written.
    pub prepend_header: Option<String>,
    /// An attribute line for the index of the top level.
    pub toplevel_attribute: Option<String>,
}

impl GenOptions {
    /// The text that goes at the head of every file: empty where no header
    /// was asked for.
    pub open spec fn header(&self) -> Seq<char> {
        match self.prepend_header {
            Some(h) => h@,
            None => Seq::empty(),
        }
    }

    /// The attribute line of the top level's index, if one was asked for.
    pub open spec fn attribute(&self) -> Option<Seq<char>> {
        match self.toplevel_attribute {
            Some(a) => Some(a@),
            None => None,
        }
    }
}

/// Whether anything can be generated from the schema files named: there
/// has to be at least one.
pub fn check_proto_files(proto_files: &Vec<OsPath>) -> (r: Result<(), GenError>)
    ensures
        r is Ok <==> proto_files@.len() > 0,
        r is Err ==> r == Err::<(), GenError>(GenError::NoProtoFiles),
{
    if proto_files.len() == 0 {
        Err(GenError::NoProtoFiles)
    } else {
        Ok(())
    }
}

impl ProtoWorkspace {
    /// Whether anything can be generated for the workspace: it has to name
    /// at least one schema file.
    pub fn check(&self) -> (r: Result<(), GenError>)
        ensures
            r is Ok <==> self.proto_files@.len() > 0,
            r is Err ==> r == Err::<(), GenError>(GenError::NoProtoFiles),
    {
        check_proto_files(&self.proto_files)
    }
}

} // verus!
