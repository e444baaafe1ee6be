//! The tree of modules that the generated files are sorted into, and the
//! steps that put it on disk.

use crate::error::GenError;
use crate::lookup::{
    has_room, lemma_duplicate_is_refused, lemma_pushed_leaf, lemma_pushed_wf, segments_of,
};
use crate::ops::{ops_view, FileOp, FileOpView};
use crate::path::{source_suffix, OsPath};
use crate::text::{
    chars_of, chars_start_with, copy_range, decode, encode, find_chars, lemma_lex_lt_transitive,
    push_chars, rank_bytes, rfind_chars, string_of, Rank,
};
use crate::tree::{
    child_index, empty_module, export_lines, export_words, is_position, lemma_child_index_is,
    lemma_position_is, name_lt, position_for, proper_name, pushed_file, segment_dot, sorted_by_name,
    ModuleView,
};
use crate::workspace::GenOptions;
use vstd::prelude::*;
use vstd::slice::slice_subrange;
use vstd::utf8::encode_utf8;

verus! {

/// What is found in the directory that the generated files are written
/// to.
#[derive(Debug)]
pub struct DirEntry {
    /// Where the entry is.
    pub path: OsPath,
    /// Whether the entry is a regular file.
    pub is_file: bool,
    /// How many bytes the file holds.
    pub len: u64,
}

/// What is to be done with the directory of generated files, and the index
/// of the top level that results.
#[derive(Debug)]
pub struct CleanUp {
    /// The steps to take, in their order.
    pub ops: Vec<FileOp>,
    /// The text of the index of the top level.
    pub top_level_mod: String,
}

/// The name of the module that stands above the top level and is never
/// written.
pub open spec fn root_name() -> Seq<char> {
    "dummy"@
}

/// The line that silences lints in the index of the top level.
pub open spec fn lint_line() -> Seq<char> {
    "#![allow(clippy::doc_markdown, clippy::use_self)]\n"@
}

/// The attribute of the top level, as a line.
pub open spec fn attribute_line(attribute: Option<Seq<char>>) -> Seq<char> {
    match attribute {
        Some(a) => a + seq!['\n'],
        None => Seq::empty(),
    }
}

/// The index of the top level: the header, the line that silences lints,
/// the attribute line, and a line for each module of the top level.
pub open spec fn top_level_text(
    header: Seq<char>,
    attribute: Option<Seq<char>>,
    children: Seq<ModuleView>,
) -> Seq<char> {
    header + lint_line() + attribute_line(attribute) + export_lines(children)
}

/// The tree that results when the entries are put below `root` one after
/// the other. Only regular files that are not empty are put there, and the
/// first one that cannot be put there ends it.
pub open spec fn synthesized(root: ModuleView, top_level: Seq<Seq<u8>>, entries: Seq<DirEntry>)
    -> Result<ModuleView, GenError>
    decreases entries.len(),
{
    if entries.len() == 0 {
        Ok(root)
    } else {
        match synthesized(root, top_level, entries.drop_last()) {
            Err(e) => Err(e),
            Ok(tree) => {
                let entry = entries.last();
                if entry.is_file && entry.len > 0 {
                    pushed_file(tree, top_level, entry.path@)
                } else {
                    Ok(tree)
                }
            },
        }
    }
}

/// The steps that delete the empty files among the entries.
pub open spec fn removals(entries: Seq<DirEntry>) -> Seq<FileOpView>
    decreases entries.len(),
{
    if entries.len() == 0 {
        Seq::empty()
    } else {
        let entry = entries.last();
        if entry.is_file && entry.len == 0 {
            removals(entries.drop_last()).push(FileOpView::Remove { file: entry.path@ })
        } else {
            removals(entries.drop_last())
        }
    }
}

/// The tree that the entries of the directory `out_dir` are sorted into,
/// below a module that is never written.
pub open spec fn synthesized_root(out_dir: Seq<Seq<u8>>, entries: Seq<DirEntry>) -> Result<
    ModuleView,
    GenError,
> {
    synthesized(empty_module(root_name(), out_dir), out_dir, entries)
}

/// The steps that clean the directory up: the empty files are deleted,
/// then the modules of the top level are put on disk.
pub open spec fn clean_up_ops(entries: Seq<DirEntry>, tree: ModuleView, header: Seq<char>) -> Seq<
    FileOpView,
> {
    removals(entries) + tree.plan_below(header, tree.children.len() as int)
}

/// A module of the tree: its name, the directory it lies in, the modules
/// below it in the order of their names, and the generated file that holds
/// its own items, if there is one.
#[derive(Debug)]
pub struct Module {
    name: String,
    location: OsPath,
    children: Vec<Module>,
    file: Option<OsPath>,
}

/// Where a name stands among the modules below a module, or where it
/// belongs if it is not there.
enum Slot {
    Found(usize),
    Missing(usize),
}

impl Module {
    /// What the module is.
    pub closed spec fn view(&self) -> ModuleView
        decreases self,
    {
        ModuleView {
            name: self.name@,
            location: self.location@,
            children: Seq::new(
                self.children@.len(),
                |i: int|
                    if 0 <= i < self.children@.len() {
                        self.children@[i].view()
                    } else {
                        arbitrary()
                    },
            ),
            file: match self.file {
                Some(f) => Some(f@),
                None => None,
            },
        }
    }

    /// The modules below are ordered by name, and each of them holds
    /// something and is well formed in turn.
    pub open spec fn wf(&self) -> bool {
        self@.wf()
    }

    /// How the fields show in the view.
    proof fn lemma_view(&self)
        ensures
            self@.name == self.name@,
            self@.location == self.location@,
            self@.children.len() == self.children@.len(),
            forall|i: int|
                0 <= i < self.children@.len() ==> #[trigger] self@.children[i]
                    == self.children@[i]@,
            self.file is Some <==> self@.file is Some,
            self.file is Some ==> self@.file == Some(self.file->0@),
    {
    }

    /// A module that holds nothing yet.
    pub fn new(name: &str, location: &OsPath) -> (m: Module)
        ensures
            m@ == empty_module(name@, location@),
            m.wf(),
    {
        let m = Module {
            name: string_of(chars_of(name).as_slice()),
            location: location.clone(),
            children: Vec::new(),
            file: None,
        };
        assert(m@.children =~= Seq::<ModuleView>::empty());
        m
    }

    /// The module's name.
    #[inline]
    pub fn get_name(&self) -> (name: &str)
        ensures
            name@ == self@.name,
    {
        self.name.as_str()
    }

    /// Looks for the module of the given name among those below.
    fn locate(&self, name: &[char]) -> (slot: Slot)
        requires
            self.wf(),
        ensures
            match slot {
                Slot::Found(i) => i < self.children@.len() && child_index(self@.children, name@)
                    == Some(i as int),
                Slot::Missing(p) => p <= self.children@.len() && child_index(
                    self@.children,
                    name@,
                ) is None && position_for(self@.children, name@) == p as int && is_position(
                    self@.children,
                    name@,
                    p as int,
                ),
            },
    {
        let key = encode(name);
        let ghost kids = self@.children;
        let mut i: usize = 0;
        while i < self.children.len()
            invariant
                i <= self.children@.len(),
                kids == self@.children,
                kids.len() == self.children@.len(),
                sorted_by_name(kids),
                key@ == encode_utf8(name@),
                forall|a: int| 0 <= a < i ==> name_lt(#[trigger] kids[a].name, name@),
            decreases self.children.len() - i,
        {
            let child = &self.children[i];
            proof {
                self.lemma_view();
                child.lemma_view();
            }
            match rank_bytes(child.name.as_str().as_bytes(), key.as_slice()) {
                Rank::Before => {},
                Rank::Same => {
                    proof {
                        vstd::utf8::encode_utf8_decode_utf8(name@);
                        vstd::utf8::encode_utf8_decode_utf8(child.name@);
                        lemma_child_index_is(kids, name@, i as int);
                    }
                    return Slot::Found(i);
                },
                Rank::After => {
                    proof {
                        assert forall|b: int| i <= b < kids.len() implies name_lt(
                            name@,
                            #[trigger] kids[b].name,
                        ) by {
                            if i < b {
                                lemma_lex_lt_transitive(
                                    key@,
                                    encode_utf8(kids[i as int].name),
                                    encode_utf8(kids[b].name),
                                );
                            }
                        }
                        lemma_position_is(kids, name@, i as int);
                    }
                    return Slot::Missing(i);
                },
            }
            i += 1;
        }
        proof {
            lemma_position_is(kids, name@, i as int);
        }
        Slot::Missing(i)
    }

    /// Puts the file `path` below this module under the package name `raw`.
    fn push_segments(&mut self, parent: &OsPath, path: &OsPath, raw: &[char]) -> (r: Result<
        (),
        GenError,
    >)
        requires
            old(self).wf(),
        ensures
            final(self).wf(),
            match r {
                Ok(()) => old(self)@.pushed(parent@, path@, raw@) == Ok::<ModuleView, GenError>(
                    final(self)@,
                ),
                Err(e) => old(self)@.pushed(parent@, path@, raw@) == Err::<ModuleView, GenError>(e)
                    && final(self)@ == old(self)@,
            },
        decreases raw@.len(),
    {
        let dot: Vec<char> = vec!['.'];
        assert(dot@ =~= segment_dot());
        let ghost before = self@;
        proof {
            self.lemma_view();
            lemma_pushed_wf(before, parent@, path@, raw@);
        }
        match find_chars(raw, dot.as_slice()) {
            Some(at) => {
                let len = raw.len();
                let cur = slice_subrange(raw, 0, at);
                let rest = slice_subrange(raw, at + 1, len);
                let below = parent.join_text(cur);
                match self.locate(cur) {
                    Slot::Found(i) => {
                        let child = &mut self.children[i];
                        let r = child.push_segments(&below, path, rest);
                        proof {
                            self.lemma_view();
                            match r {
                                Ok(()) => {
                                    assert(self@.children =~= before.children.update(
                                        i as int,
                                        self@.children[i as int],
                                    ));
                                },
                                Err(_) => {
                                    assert(self@.children =~= before.children);
                                },
                            }
                        }
                        r
                    },
                    Slot::Missing(p) => {
                        let mut md = Module {
                            name: string_of(cur),
                            location: parent.clone(),
                            children: Vec::new(),
                            file: None,
                        };
                        proof {
                            md.lemma_view();
                            assert(md@.children =~= Seq::<ModuleView>::empty());
                        }
                        match md.push_segments(&below, path, rest) {
                            Ok(()) => {
                                self.children.insert(p, md);
                                proof {
                                    self.lemma_view();
                                    assert(self@.children =~= before.children.insert(p as int, md@));
                                }
                                Ok(())
                            },
                            Err(e) => Err(e),
                        }
                    },
                }
            },
            None => {
                match self.locate(raw) {
                    Slot::Found(i) => {
                        proof {
                            self.children@[i as int].lemma_view();
                        }
                        if self.children[i].file.is_none() {
                            let child = &mut self.children[i];
                            child.file = Some(path.clone());
                            proof {
                                self.lemma_view();
                                self.children@[i as int].lemma_view();
                                assert(self@.children =~= before.children.update(
                                    i as int,
                                    before.children[i as int].with_file(path@),
                                ));
                            }
                            Ok(())
                        } else {
                            Err(GenError::DuplicateLeaf)
                        }
                    },
                    Slot::Missing(p) => {
                        let md = Module {
                            name: string_of(raw),
                            location: parent.clone(),
                            children: Vec::new(),
                            file: Some(path.clone()),
                        };
                        proof {
                            md.lemma_view();
                            assert(md@.children =~= Seq::<ModuleView>::empty());
                        }
                        self.children.insert(p, md);
                        proof {
                            self.lemma_view();
                            assert(self@.children =~= before.children.insert(p as int, md@));
                        }
                        Ok(())
                    },
                }
            },
        }
    }

    /// Whether the package named `raw` has a file in the tree below this
    /// module.
    fn holds_segments(&self, raw: &[char]) -> (held: bool)
        requires
            self.wf(),
        ensures
            held == (self@.leaf_at(segments_of(raw@)) is Some),
        decreases raw@.len(),
    {
        let dot: Vec<char> = vec!['.'];
        assert(dot@ =~= segment_dot());
        let ghost target = segments_of(raw@);
        proof {
            self.lemma_view();
        }
        match find_chars(raw, dot.as_slice()) {
            Some(at) => {
                let len = raw.len();
                let cur = slice_subrange(raw, 0, at);
                let rest = slice_subrange(raw, at + 1, len);
                assert(target[0] == cur@);
                assert(target.drop_first() =~= segments_of(rest@));
                match self.locate(cur) {
                    Slot::Found(i) => {
                        assert(self@.leaf_at(target) == self@.children[i as int].leaf_at(
                            segments_of(rest@),
                        ));
                        self.children[i].holds_segments(rest)
                    },
                    Slot::Missing(_) => {
                        assert(self@.leaf_at(target) is None);
                        false
                    },
                }
            },
            None => {
                assert(target =~= seq![raw@]);
                assert(target[0] == raw@);
                assert(target.drop_first() =~= Seq::<Seq<char>>::empty());
                match self.locate(raw) {
                    Slot::Found(i) => {
                        proof {
                            self.children@[i as int].lemma_view();
                        }
                        assert(self@.leaf_at(target) == self@.children[i as int].leaf_at(
                            target.drop_first(),
                        ));
                        self.children[i].file.is_some()
                    },
                    Slot::Missing(_) => {
                        assert(self@.leaf_at(target) is None);
                        false
                    },
                }
            },
        }
    }

    /// Whether the package named `raw_name` has a file in the tree below
    /// this module.
    pub fn holds_package(&self, raw_name: &str) -> (held: bool)
        requires
            self.wf(),
        ensures
            held == (self@.leaf_at(segments_of(raw_name@)) is Some),
    {
        let raw = chars_of(raw_name);
        self.holds_segments(raw.as_slice())
    }

    /// Whether the tree below this module has room for the generated file
    /// `path`: whether the package that the file's name holds has no file
    /// yet. A path that names no package is not in the way.
    pub fn has_room_for(&self, path: &OsPath) -> (room: bool)
        requires
            self.wf(),
        ensures
            room == has_room(self@, path@),
    {
        let name = match path.file_name() {
            Some(name) => name,
            None => {
                return true;
            },
        };
        let chars = match decode(name.as_slice()) {
            Some(chars) => chars,
            None => {
                return true;
            },
        };
        let dot: Vec<char> = vec!['.'];
        assert(dot@ =~= segment_dot());
        match rfind_chars(chars.as_slice(), dot.as_slice()) {
            Some(at) => {
                let nest = slice_subrange(chars.as_slice(), 0, at);
                !self.holds_segments(nest)
            },
            None => true,
        }
    }

    /// Puts the file `path` below this module under the package name
    /// `raw_name`, whose segments are parted by dots. `parent` is the
    /// directory in which the modules directly below this one lie.
    ///
    /// The package must not have a file yet: a second file for one package
    /// is never taken. `holds_package` tells.
    pub fn push_recurse(&mut self, parent: &OsPath, path: &OsPath, raw_name: &str) -> (r: Result<
        (),
        GenError,
    >)
        requires
            old(self).wf(),
            old(self)@.leaf_at(segments_of(raw_name@)) is None,
        ensures
            final(self).wf(),
            r is Ok,
            old(self)@.pushed(parent@, path@, raw_name@) == Ok::<ModuleView, GenError>(final(self)@),
    {
        let raw = chars_of(raw_name);
        proof {
            lemma_pushed_leaf(self@, parent@, path@, raw_name@);
        }
        self.push_segments(parent, path, raw.as_slice())
    }

    /// Puts the generated file `path` into the tree below this module. The
    /// file's name without its suffix is the package that the file holds;
    /// `top_level` is the directory in which the modules directly below
    /// this one lie.
    ///
    /// The package must not have a file yet: a second file for one package
    /// is never taken. `has_room_for` tells.
    ///
    /// Fails, and changes nothing, with `NoFileName` where `path` ends in
    /// no file name, with `NotUnicode` where that name is no valid UTF-8,
    /// and with `NoSuffix` where it holds no dot.
    pub fn push_file(&mut self, top_level: &OsPath, path: &OsPath) -> (r: Result<(), GenError>)
        requires
            old(self).wf(),
            has_room(old(self)@, path@),
        ensures
            final(self).wf(),
            match r {
                Ok(()) => pushed_file(old(self)@, top_level@, path@) == Ok::<ModuleView, GenError>(
                    final(self)@,
                ),
                Err(e) => pushed_file(old(self)@, top_level@, path@) == Err::<ModuleView, GenError>(
                    e,
                ) && final(self)@ == old(self)@ && e != GenError::DuplicateLeaf,
            },
    {
        let name = match path.file_name() {
            Some(name) => name,
            None => {
                return Err(GenError::NoFileName);
            },
        };
        let chars = match decode(name.as_slice()) {
            Some(chars) => chars,
            None => {
                return Err(GenError::NotUnicode);
            },
        };
        let dot: Vec<char> = vec!['.'];
        assert(dot@ =~= segment_dot());
        match rfind_chars(chars.as_slice(), dot.as_slice()) {
            Some(at) => {
                let nest = slice_subrange(chars.as_slice(), 0, at);
                proof {
                    lemma_pushed_leaf(self@, top_level@, path@, nest@);
                }
                self.push_segments(top_level, path, nest)
            },
            None => Err(GenError::NoSuffix),
        }
    }

    /// The name under which the module's file is kept: the module's name
    /// without the mark `r#` of a raw identifier.
    #[inline]
    pub fn proper_file_name(&self) -> (name: String)
        ensures
            name@ == proper_name(self@.name),
    {
        let chars = chars_of(self.name.as_str());
        let prefix: Vec<char> = vec!['r', '#'];
        if chars_start_with(chars.as_slice(), prefix.as_slice()) {
            let rest = copy_range(chars.as_slice(), 2, chars.len());
            string_of(rest.as_slice())
        } else {
            string_of(chars.as_slice())
        }
    }

    /// Appends the lines that expose the modules below this one.
    fn push_export_lines(&self, text: &mut Vec<char>)
        ensures
            final(text)@ == old(text)@ + export_lines(self@.children),
    {
        let ghost me = self@;
        proof {
            self.lemma_view();
        }
        let words: Vec<char> = vec!['p', 'u', 'b', ' ', 'm', 'o', 'd', ' '];
        let mut i: usize = 0;
        while i < self.children.len()
            invariant
                i <= self.children@.len(),
                me == self@,
                me.children.len() == self.children@.len(),
                forall|k: int|
                    0 <= k < self.children@.len() ==> #[trigger] me.children[k]
                        == self.children@[k]@,
                words@ == export_words(),
                text@ == old(text)@ + export_lines(me.children.take(i as int)),
            decreases self.children.len() - i,
        {
            let child = &self.children[i];
            proof {
                child.lemma_view();
            }
            let child_name = chars_of(child.name.as_str());
            push_chars(text, words.as_slice());
            push_chars(text, child_name.as_slice());
            text.push(';');
            text.push('\n');
            proof {
                let next = me.children.take(i + 1);
                assert(next.drop_last() =~= me.children.take(i as int));
            }
            i += 1;
        }
        assert(me.children.take(i as int) =~= me.children);
    }

    /// The steps that put the module and all below it on disk, in the
    /// order in which they are to be taken.
    pub fn dump_to_disk(&self, gen_opts: &GenOptions) -> (ops: Vec<FileOp>)
        ensures
            ops_view(ops@) == self@.plan(gen_opts.header()),
        decreases self, 1int,
    {
        let ghost me = self@;
        proof {
            self.lemma_view();
        }
        let name = chars_of(self.name.as_str());
        let mut ops: Vec<FileOp> = Vec::new();
        let mut index: Option<String> = None;
        if self.children.len() > 0 {
            let dir = self.location.join_text(name.as_slice());
            ops.push(FileOp::CreateDir { dir });
            let mut below = self.dump_children(gen_opts);
            ops.append(&mut below);
            let mut text: Vec<char> = Vec::new();
            if let Some(h) = &gen_opts.prepend_header {
                let h = chars_of(h.as_str());
                push_chars(&mut text, h.as_slice());
            }
            self.push_export_lines(&mut text);
            index = Some(string_of(text.as_slice()));
        }
        match &self.file {
            Some(file) => {
                let mut file_name = chars_of(self.proper_file_name().as_str());
                file_name.push('.');
                file_name.push('r');
                file_name.push('s');
                assert(file_name@ =~= proper_name(me.name) + source_suffix());
                let dest = self.location.join_text(file_name.as_slice());
                let remove_source = !dest.same_as(file);
                ops.push(FileOp::Relocate { source: file.clone(), dest, index, remove_source });
            },
            None => {
                if let Some(content) = index {
                    let mut file_name = name;
                    file_name.push('.');
                    file_name.push('r');
                    file_name.push('s');
                    assert(file_name@ =~= me.name + source_suffix());
                    let dest = self.location.join_text(file_name.as_slice());
                    ops.push(FileOp::WriteIndex { dest, content });
                }
            },
        }
        ops
    }

    /// The steps that put the modules below this one on disk, in the order
    /// of their names.
    pub fn dump_children(&self, gen_opts: &GenOptions) -> (ops: Vec<FileOp>)
        ensures
            ops_view(ops@) == self@.plan_below(gen_opts.header(), self@.children.len() as int),
        decreases self, 0int,
    {
        let ghost header = gen_opts.header();
        let ghost me = self@;
        proof {
            self.lemma_view();
        }
        let mut ops: Vec<FileOp> = Vec::new();
        let mut i: usize = 0;
        while i < self.children.len()
            invariant
                i <= self.children@.len(),
                me == self@,
                me.children.len() == self.children@.len(),
                forall|k: int|
                    0 <= k < self.children@.len() ==> #[trigger] me.children[k]
                        == self.children@[k]@,
                header == gen_opts.header(),
                ops_view(ops@) == me.plan_below(header, i as int),
            decreases self.children.len() - i,
        {
            let mut below = self.children[i].dump_to_disk(gen_opts);
            ops.append(&mut below);
            i += 1;
        }
        ops
    }

    /// The index of the top level, for the module that stands above it.
    pub fn top_level_index(&self, gen_opts: &GenOptions) -> (text: String)
        ensures
            text@ == top_level_text(gen_opts.header(), gen_opts.attribute(), self@.children),
    {
        let mut text: Vec<char> = Vec::new();
        if let Some(h) = &gen_opts.prepend_header {
            let h = chars_of(h.as_str());
            push_chars(&mut text, h.as_slice());
        }
        let lint = chars_of("#![allow(clippy::doc_markdown, clippy::use_self)]\n");
        push_chars(&mut text, lint.as_slice());
        if let Some(a) = &gen_opts.toplevel_attribute {
            let a = chars_of(a.as_str());
            push_chars(&mut text, a.as_slice());
            text.push('\n');
        }
        self.push_export_lines(&mut text);
        string_of(text.as_slice())
    }
}

/// Sorts the entries of the directory of generated files into a tree of
/// modules below `out_dir`, and says what is to be done: the empty files
/// among them are deleted, then the modules of the top level are put on
/// disk, in the order of their names. The text of the index of the top
/// level comes with it.
///
/// Fails at the first file that cannot be put into the tree: as
/// `push_file` does where the file's name holds no package, and with
/// `DuplicateLeaf` where the file's package has a file already.
pub fn clean_up_file_structure(out_dir: &OsPath, entries: &Vec<DirEntry>, gen_opts: &GenOptions) -> (r:
    Result<CleanUp, GenError>)
    ensures
        match r {
            Ok(c) => synthesized_root(out_dir@, entries@) matches Ok(tree) && tree.wf() && ops_view(
                c.ops@,
            ) == clean_up_ops(entries@, tree, gen_opts.header()) && c.top_level_mod@
                == top_level_text(gen_opts.header(), gen_opts.attribute(), tree.children),
            Err(e) => synthesized_root(out_dir@, entries@) == Err::<ModuleView, GenError>(e),
        },
{
    let mut out_modules = Module::new("dummy", out_dir);
    let ghost root = out_modules@;
    let mut ops: Vec<FileOp> = Vec::new();
    let mut i: usize = 0;
    while i < entries.len()
        invariant
            i <= entries@.len(),
            out_modules.wf(),
            root == empty_module(root_name(), out_dir@),
            synthesized(root, out_dir@, entries@.take(i as int)) == Ok::<ModuleView, GenError>(
                out_modules@,
            ),
            ops_view(ops@) == removals(entries@.take(i as int)),
        decreases entries.len() - i,
    {
        let entry = &entries[i];
        proof {
            let next = entries@.take(i + 1);
            assert(next.drop_last() =~= entries@.take(i as int));
        }
        if entry.is_file {
            if entry.len == 0 {
                ops.push(FileOp::Remove { file: entry.path.clone() });
            } else {
                if !out_modules.has_room_for(&entry.path) {
                    proof {
                        lemma_duplicate_is_refused(out_modules@, out_dir@, entry.path@);
                        lemma_synthesized_fails(root, out_dir@, entries@, i + 1);
                    }
                    return Err(GenError::DuplicateLeaf);
                }
                match out_modules.push_file(out_dir, &entry.path) {
                    Ok(()) => {},
                    Err(e) => {
                        proof {
                            lemma_synthesized_fails(root, out_dir@, entries@, i + 1);
                        }
                        return Err(e);
                    },
                }
            }
        }
        i += 1;
    }
    assert(entries@.take(i as int) =~= entries@);
    let top_level_mod = out_modules.top_level_index(gen_opts);
    let mut below = out_modules.dump_children(gen_opts);
    ops.append(&mut below);
    Ok(CleanUp { ops, top_level_mod })
}

/// Once the entries up to some point cannot be sorted into a tree, no
/// more entries help.
pub proof fn lemma_synthesized_fails(
    root: ModuleView,
    top_level: Seq<Seq<u8>>,
    entries: Seq<DirEntry>,
    n: int,
)
    requires
        0 <= n <= entries.len(),
        synthesized(root, top_level, entries.take(n)) is Err,
    ensures
        synthesized(root, top_level, entries) == synthesized(root, top_level, entries.take(n)),
    decreases entries.len() - n,
{
    if n < entries.len() {
        let next = entries.take(n + 1);
        assert(next.drop_last() =~= entries.take(n));
        lemma_synthesized_fails(root, top_level, entries, n + 1);
    } else {
        assert(entries.take(n) =~= entries);
    }
}

} // verus!
