//! The steps that put a module tree on disk, and the text of the files
//! that these steps write. The steps are carried out by the caller.

use crate::path::OsPath;
use crate::sanitize::{hide_doctests, sanitized};
use crate::text::{chars_of, push_chars, string_of};
use crate::workspace::GenOptions;
use vstd::prelude::*;

verus! {

/// One step on the file system.
#[derive(Debug, PartialEq, Eq)]
pub enum FileOp {
    /// Make the directory, and those above it that are missing.
    CreateDir { dir: OsPath },
    /// Delete the file.
    Remove { file: OsPath },
    /// Read the generated file `source`, turn its text into the text of
    /// the module's file with `relocated_content`, write that to `dest`,
    /// and then delete `source` if `remove_source` says so.
    Relocate { source: OsPath, dest: OsPath, index: Option<String>, remove_source: bool },
    /// Write `content` to `dest`.
    WriteIndex { dest: OsPath, content: String },
}

/// What a step is.
pub enum FileOpView {
    CreateDir { dir: Seq<Seq<u8>> },
    Remove { file: Seq<Seq<u8>> },
    Relocate {
        source: Seq<Seq<u8>>,
        dest: Seq<Seq<u8>>,
        index: Option<Seq<char>>,
        remove_source: bool,
    },
    WriteIndex { dest: Seq<Seq<u8>>, content: Seq<char> },
}

impl View for FileOp {
    type V = FileOpView;

    open spec fn view(&self) -> FileOpView {
        match self {
            FileOp::CreateDir { dir } => FileOpView::CreateDir { dir: dir@ },
            FileOp::Remove { file } => FileOpView::Remove { file: file@ },
            FileOp::Relocate { source, dest, index, remove_source } => FileOpView::Relocate {
                source: source@,
                dest: dest@,
                index: match index {
                    Some(text) => Some(text@),
                    None => None,
                },
                remove_source: *remove_source,
            },
            FileOp::WriteIndex { dest, content } => FileOpView::WriteIndex {
                dest: dest@,
                content: content@,
            },
        }
    }
}

/// What a list of steps is.
pub open spec fn ops_view(ops: Seq<FileOp>) -> Seq<FileOpView> {
    Seq::new(ops.len(), |i: int| ops[i]@)
}

/// The text `content` with the header, if there is one, before it.
pub open spec fn with_header(header: Option<Seq<char>>, content: Seq<char>) -> Seq<char> {
    match header {
        Some(h) => h + content,
        None => content,
    }
}

/// Puts the header, if there is one, before the text.
pub fn prepend_header(maybe_prepend_header: Option<&String>, clean_content: &mut String)
    ensures
        final(clean_content)@ == with_header(
            match maybe_prepend_header {
                Some(h) => Some(h@),
                None => None,
            },
            old(clean_content)@,
        ),
{
    if let Some(prepend_header) = maybe_prepend_header {
        let mut chars = chars_of(prepend_header.as_str());
        let content = chars_of(clean_content.as_str());
        push_chars(&mut chars, content.as_slice());
        *clean_content = string_of(chars.as_slice());
    }
}

/// The text of a module's file: the header, then the index of the modules
/// below and an empty line where the module has any, then the generated
/// text with its documentation comments made safe. The index is written as
/// it stands.
pub open spec fn relocated(header: Seq<char>, index: Option<Seq<char>>, raw: Seq<char>) -> Seq<
    char,
> {
    match index {
        Some(text) => header + text + seq!['\n'] + sanitized(raw),
        None => header + sanitized(raw),
    }
}

/// The text to write for a `Relocate` step, from the step's index and the
/// text that was read from its source.
pub fn relocated_content(gen_opts: &GenOptions, index: Option<&String>, raw: &str) -> (content:
    String)
    ensures
        content@ == relocated(
            gen_opts.header(),
            match index {
                Some(text) => Some(text@),
                None => None,
            },
            raw@,
        ),
{
    let mut chars: Vec<char> = Vec::new();
    if let Some(header) = &gen_opts.prepend_header {
        let h = chars_of(header.as_str());
        push_chars(&mut chars, h.as_slice());
    }
    if let Some(text) = index {
        let t = chars_of(text.as_str());
        push_chars(&mut chars, t.as_slice());
        chars.push('\n');
    }
    let clean = hide_doctests(raw);
    let c = chars_of(clean.as_str());
    push_chars(&mut chars, c.as_slice());
    string_of(chars.as_slice())
}

} // verus!
