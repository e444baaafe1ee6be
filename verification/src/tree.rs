//! What the tree of modules is: a module has a name, lies in a directory,
//! and has modules below it; a file named `a.b.c.rs` holds the package
//! `a.b.c` and becomes the module `c` below `b` below `a`. Here stands
//! what putting a file into the tree does to it, and which steps put a
//! tree on disk.

use crate::error::GenError;
use crate::ops::FileOpView;
use crate::path::{file_name_text, source_suffix};
use crate::text::{
    lemma_lex_lt_irreflexive, lemma_lex_lt_transitive, lex_lt, rsplit_once, split_once,
    starts_with,
};
use vstd::prelude::*;
use vstd::utf8::encode_utf8;

verus! {

/// What a module is: its name, the directory it lies in, the modules below
/// it in the order of their names, and the generated file that holds its
/// own items, if there is one.
pub struct ModuleView {
    /// The last segment of the package's name.
    pub name: Seq<char>,
    /// The directory that the module's file lies in.
    pub location: Seq<Seq<u8>>,
    /// The modules below, in the order of their names.
    pub children: Seq<ModuleView>,
    /// The generated file of the module's package, where it has one.
    pub file: Option<Seq<Seq<u8>>>,
}

/// The dot that parts the segments of a package's name.
pub open spec fn segment_dot() -> Seq<char> {
    seq!['.']
}

/// Whether the name `a` comes before the name `b`: names are ordered by
/// their bytes.
pub open spec fn name_lt(a: Seq<char>, b: Seq<char>) -> bool {
    lex_lt(encode_utf8(a), encode_utf8(b))
}

/// Each module's name comes before the names of those behind it, so no
/// name occurs twice.
pub open spec fn sorted_by_name(children: Seq<ModuleView>) -> bool {
    forall|i: int, j: int|
        #![trigger children[i], children[j]]
        0 <= i < j < children.len() ==> name_lt(children[i].name, children[j].name)
}

/// Where among `children` the module of the given name stands.
pub open spec fn child_index(children: Seq<ModuleView>, name: Seq<char>) -> Option<int> {
    if exists|i: int| 0 <= i < children.len() && #[trigger] children[i].name == name {
        Some(choose|i: int| 0 <= i < children.len() && #[trigger] children[i].name == name)
    } else {
        None
    }
}

/// `p` is where a module of the given name belongs among `children`: all
/// before it have lesser names, all from it on greater ones.
pub open spec fn is_position(children: Seq<ModuleView>, name: Seq<char>, p: int) -> bool {
    &&& 0 <= p <= children.len()
    &&& forall|a: int| 0 <= a < p ==> name_lt(#[trigger] children[a].name, name)
    &&& forall|b: int| p <= b < children.len() ==> name_lt(name, #[trigger] children[b].name)
}

/// Where a module of the given name, which `children` lacks, belongs
/// among them.
pub open spec fn position_for(children: Seq<ModuleView>, name: Seq<char>) -> int {
    choose|p: int| is_position(children, name, p)
}

/// A module that holds nothing yet.
pub open spec fn empty_module(name: Seq<char>, location: Seq<Seq<u8>>) -> ModuleView {
    ModuleView { name, location, children: Seq::empty(), file: None }
}

impl ModuleView {
    /// The module holds something: a file of its own, or modules below it.
    pub open spec fn solid(self) -> bool {
        self.file is Some || self.children.len() > 0
    }

    /// The modules below are ordered by name, and each of them holds
    /// something and is well formed in turn.
    pub open spec fn wf(self) -> bool
        decreases self,
    {
        &&& sorted_by_name(self.children)
        &&& forall|i: int|
            0 <= i < self.children.len() ==> (#[trigger] self.children[i]).solid()
                && self.children[i].wf()
    }

    /// The module with another file of its own.
    pub open spec fn with_file(self, file: Seq<Seq<u8>>) -> ModuleView {
        ModuleView { name: self.name, location: self.location, children: self.children, file: Some(file) }
    }

    /// The module with other modules below it.
    pub open spec fn with_children(self, children: Seq<ModuleView>) -> ModuleView {
        ModuleView { name: self.name, location: self.location, children, file: self.file }
    }

    /// The module after the file `file` has been put below it under the
    /// package name `raw_name`, which is taken apart at its dots. `parent` is
    /// the directory in which the modules directly below this one lie.
    ///
    /// The first segment names a module directly below, which is made if it
    /// is not there; the rest of the name is put below that module. A name
    /// without a dot names the module that gets the file: one that is there
    /// already, with modules below it and no file yet, or a new one. A
    /// module that has a file takes no second one.
    pub open spec fn pushed(
        self,
        parent: Seq<Seq<u8>>,
        file: Seq<Seq<u8>>,
        raw_name: Seq<char>,
    ) -> Result<ModuleView, GenError>
        decreases raw_name.len(),
    {
        match split_once(raw_name, segment_dot()) {
            Some((cur, rest)) => {
                let below = parent.push(encode_utf8(cur));
                match child_index(self.children, cur) {
                    Some(i) => match self.children[i].pushed(below, file, rest) {
                        Ok(child) => Ok(self.with_children(self.children.update(i, child))),
                        Err(e) => Err(e),
                    },
                    None => match empty_module(cur, parent).pushed(below, file, rest) {
                        Ok(child) => Ok(
                            self.with_children(
                                self.children.insert(position_for(self.children, cur), child),
                            ),
                        ),
                        Err(e) => Err(e),
                    },
                }
            },
            None => match child_index(self.children, raw_name) {
                Some(i) => if self.children[i].file is None {
                    Ok(self.with_children(self.children.update(i, self.children[i].with_file(file))))
                } else {
                    Err(GenError::DuplicateLeaf)
                },
                None => Ok(
                    self.with_children(
                        self.children.insert(
                            position_for(self.children, raw_name),
                            empty_module(raw_name, parent).with_file(file),
                        ),
                    ),
                ),
            },
        }
    }
}

/// The two characters that mark a name as a raw identifier.
pub open spec fn raw_prefix() -> Seq<char> {
    seq!['r', '#']
}

/// The name under which a module's file is kept: the module's name
/// without the mark of a raw identifier.
pub open spec fn proper_name(name: Seq<char>) -> Seq<char> {
    if starts_with(name, raw_prefix()) {
        name.skip(2)
    } else {
        name
    }
}

/// The words that begin the line which exposes a module.
pub open spec fn export_words() -> Seq<char> {
    seq!['p', 'u', 'b', ' ', 'm', 'o', 'd', ' ']
}

/// What ends the line which exposes a module.
pub open spec fn export_end() -> Seq<char> {
    seq![';', '\n']
}

/// The line that exposes the module of the given name.
pub open spec fn export_line(name: Seq<char>) -> Seq<char> {
    export_words() + name + export_end()
}

/// The lines that expose the given modules, in their order.
pub open spec fn export_lines(children: Seq<ModuleView>) -> Seq<char>
    decreases children.len(),
{
    if children.len() == 0 {
        Seq::empty()
    } else {
        export_lines(children.drop_last()) + export_line(children.last().name)
    }
}

impl ModuleView {
    /// The directory in which the modules below this one lie.
    pub open spec fn dir(self) -> Seq<Seq<u8>> {
        self.location.push(encode_utf8(self.name))
    }

    /// Where the module's file is kept when the module has a generated file
    /// of its own.
    pub open spec fn canonical_file(self) -> Seq<Seq<u8>> {
        self.location.push(encode_utf8(proper_name(self.name) + source_suffix()))
    }

    /// Where the module's file is kept when it holds nothing but the index
    /// of the modules below.
    pub open spec fn index_file(self) -> Seq<Seq<u8>> {
        self.location.push(encode_utf8(self.name + source_suffix()))
    }

    /// The index of the modules below: the header and a line for each of
    /// them.
    pub open spec fn index_text(self, header: Seq<char>) -> Seq<char> {
        header + export_lines(self.children)
    }

    /// The index that goes into the module's file: none where no modules
    /// lie below.
    pub open spec fn index(self, header: Seq<char>) -> Option<Seq<char>> {
        if self.children.len() > 0 {
            Some(self.index_text(header))
        } else {
            None
        }
    }

    /// The step that writes the module's own file. A module with a
    /// generated file has that file moved to its place, with the index of
    /// the modules below put before its text; a module without one gets its
    /// index written; a module that holds nothing gets no file.
    pub open spec fn own_ops(self, header: Seq<char>) -> Seq<FileOpView> {
        match self.file {
            Some(file) => seq![
                FileOpView::Relocate {
                    source: file,
                    dest: self.canonical_file(),
                    index: self.index(header),
                    remove_source: file != self.canonical_file(),
                },
            ],
            None => if self.children.len() > 0 {
                seq![
                    FileOpView::WriteIndex {
                        dest: self.index_file(),
                        content: self.index_text(header),
                    },
                ]
            } else {
                Seq::empty()
            },
        }
    }

    /// The steps that put the module and all below it on disk: the
    /// module's directory is made, then each module below is put on disk,
    /// in the order of their names, then the module's own file is written.
    pub open spec fn plan(self, header: Seq<char>) -> Seq<FileOpView>
        decreases self, self.children.len() + 1,
    {
        if self.children.len() > 0 {
            seq![FileOpView::CreateDir { dir: self.dir() }] + self.plan_below(
                header,
                self.children.len() as int,
            ) + self.own_ops(header)
        } else {
            self.own_ops(header)
        }
    }

    /// The steps that put the first `n` modules below this one on disk.
    pub open spec fn plan_below(self, header: Seq<char>, n: int) -> Seq<FileOpView>
        decreases self, n,
    {
        if 0 < n <= self.children.len() {
            self.plan_below(header, n - 1) + self.children[n - 1].plan(header)
        } else {
            Seq::empty()
        }
    }
}

/// The package name that a generated file's name holds: the name without
/// its last dot and what follows it.
pub open spec fn package_of(file_name: Seq<char>) -> Result<Seq<char>, GenError> {
    match rsplit_once(file_name, segment_dot()) {
        Some((package, _)) => Ok(package),
        None => Err(GenError::NoSuffix),
    }
}

/// The module after the generated file `path` has been put below it, under
/// the package name that the file's name holds.
pub open spec fn pushed_file(
    m: ModuleView,
    top_level: Seq<Seq<u8>>,
    path: Seq<Seq<u8>>,
) -> Result<ModuleView, GenError> {
    match file_name_text(path) {
        Err(e) => Err(e),
        Ok(name) => match package_of(name) {
            Err(e) => Err(e),
            Ok(package) => m.pushed(top_level, path, package),
        },
    }
}

/// In a list ordered by name, a module is found by its name where it
/// stands.
pub proof fn lemma_child_index_is(children: Seq<ModuleView>, name: Seq<char>, i: int)
    requires
        sorted_by_name(children),
        0 <= i < children.len(),
        children[i].name == name,
    ensures
        child_index(children, name) == Some(i),
{
    lemma_lex_lt_irreflexive(encode_utf8(name));
}

/// A name has one place in a list ordered by name, and where it has a
/// place the list lacks it.
pub proof fn lemma_position_is(children: Seq<ModuleView>, name: Seq<char>, p: int)
    requires
        is_position(children, name, p),
    ensures
        position_for(children, name) == p,
        child_index(children, name) is None,
{
    let q = position_for(children, name);
    let key = encode_utf8(name);
    lemma_lex_lt_irreflexive(key);
    if q < p {
        lemma_lex_lt_transitive(key, encode_utf8(children[q].name), key);
    } else if p < q {
        lemma_lex_lt_transitive(key, encode_utf8(children[p].name), key);
    }
}

/// A list ordered by name stays ordered when a module is put where its
/// name belongs.
pub proof fn lemma_insert_keeps_order(children: Seq<ModuleView>, child: ModuleView, p: int)
    requires
        sorted_by_name(children),
        is_position(children, child.name, p),
    ensures
        sorted_by_name(children.insert(p, child)),
{
}

} // verus!
