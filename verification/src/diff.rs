//! Compares the tree that was generated with the tree that is committed,
//! and says what replacing the one by the other writes.

use crate::error::GenError;
use crate::path::{
    as_file_name_string, below_root, bytes_clone, bytes_eq, file_name_text,
    path_from_starts_with, OsPath,
};
use vstd::prelude::*;
use vstd::string::StringSliceAdditionalSpecFns;

verus! {

/// A file of a tree: where it is, and the bytes it holds.
#[derive(Debug, PartialEq, Eq)]
pub struct FileEntry {
    /// Where the file is.
    pub path: OsPath,
    /// The bytes that the file holds.
    pub content: Vec<u8>,
}

/// No two of the files are in the same place.
pub open spec fn distinct_paths(files: Seq<FileEntry>) -> bool {
    forall|i: int, j: int|
        #![trigger files[i], files[j]]
        0 <= i < j < files.len() ==> files[i].path@ != files[j].path@
}

/// The files by their places.
pub open spec fn map_of(files: Seq<FileEntry>) -> Map<Seq<Seq<u8>>, Seq<u8>>
    decreases files.len(),
{
    if files.len() == 0 {
        Map::empty()
    } else {
        map_of(files.drop_last()).insert(files.last().path@, files.last().content@)
    }
}

/// The files that the new tree has and the old tree lacks.
pub open spec fn added(
    old_tree: Map<Seq<Seq<u8>>, Seq<u8>>,
    new_tree: Map<Seq<Seq<u8>>, Seq<u8>>,
) -> Set<Seq<Seq<u8>>> {
    new_tree.dom().difference(old_tree.dom())
}

/// The files that both trees have, with other bytes in the new tree than
/// in the old one.
pub open spec fn changed(
    old_tree: Map<Seq<Seq<u8>>, Seq<u8>>,
    new_tree: Map<Seq<Seq<u8>>, Seq<u8>>,
) -> Set<Seq<Seq<u8>>> {
    Set::new(
        |p: Seq<Seq<u8>>|
            new_tree.dom().contains(p) && old_tree.dom().contains(p) && old_tree[p] != new_tree[p],
    )
}

/// The files that the old tree has and the new tree lacks.
pub open spec fn removed(
    old_tree: Map<Seq<Seq<u8>>, Seq<u8>>,
    new_tree: Map<Seq<Seq<u8>>, Seq<u8>>,
) -> Set<Seq<Seq<u8>>> {
    old_tree.dom().difference(new_tree.dom())
}

/// Whether the index of the top level has to be written: it is missing,
/// or holds other bytes than the new one.
pub open spec fn index_differs(old_index: Option<Seq<u8>>, new_index: Seq<u8>) -> bool {
    old_index != Some(new_index)
}

/// How much differs between the committed tree and the generated one:
/// each file that is new, changed or gone counts once, and so does the
/// index of the top level where it differs.
pub open spec fn diff_count(
    old_tree: Map<Seq<Seq<u8>>, Seq<u8>>,
    new_tree: Map<Seq<Seq<u8>>, Seq<u8>>,
    old_index: Option<Seq<u8>>,
    new_index: Seq<u8>,
) -> nat {
    added(old_tree, new_tree).len() + changed(old_tree, new_tree).len() + removed(
        old_tree,
        new_tree,
    ).len() + if index_differs(old_index, new_index) {
        1nat
    } else {
        0nat
    }
}

/// What a list of files without two in one place holds: each file is
/// found under its place, and nothing else is.
pub proof fn lemma_map_of(files: Seq<FileEntry>)
    requires
        distinct_paths(files),
    ensures
        map_of(files).dom().finite(),
        map_of(files).dom().len() == files.len(),
        forall|k: int|
            0 <= k < files.len() ==> map_of(files).dom().contains(#[trigger] files[k].path@)
                && map_of(files)[files[k].path@] == files[k].content@,
        forall|p: Seq<Seq<u8>>|
            map_of(files).dom().contains(p) ==> exists|k: int|
                0 <= k < files.len() && #[trigger] files[k].path@ == p,
    decreases files.len(),
{
    if files.len() > 0 {
        let front = files.drop_last();
        lemma_map_of(front);
        assert forall|k: int| 0 <= k < files.len() implies map_of(files).dom().contains(
            #[trigger] files[k].path@,
        ) && map_of(files)[files[k].path@] == files[k].content@ by {
            if k < front.len() {
                assert(front[k] == files[k]);
            }
        }
    }
}

/// A sequence with its element at `i` taken out and the last element put
/// in its place.
pub open spec fn swap_removed<T>(s: Seq<T>, i: int) -> Seq<T> {
    s.update(i, s.last()).drop_last()
}

/// Taking an element out of a sequence without repetitions leaves a
/// sequence without repetitions, which holds all the others.
pub proof fn lemma_swap_removed<T>(s: Seq<T>, i: int)
    requires
        s.no_duplicates(),
        0 <= i < s.len(),
    ensures
        swap_removed(s, i).no_duplicates(),
        swap_removed(s, i).to_set() == s.to_set().remove(s[i]),
{
    let r = swap_removed(s, i);
    let n = s.len() as int;
    assert forall|x: T| r.to_set().contains(x) <==> s.to_set().remove(s[i]).contains(x) by {
        if s.contains(x) && x != s[i] {
            let j = choose|j: int| 0 <= j < s.len() && s[j] == x;
            if j == n - 1 {
                assert(r[i] == x);
            } else {
                assert(r[j] == x);
            }
        }
    }
}

/// What a list of paths is.
pub open spec fn paths_view(paths: Seq<OsPath>) -> Seq<Seq<Seq<u8>>> {
    Seq::new(paths.len(), |k: int| paths[k]@)
}

/// Takes `needle` out of `haystack` if it is there, and says whether it
/// was. The last path of the list takes the place of the one removed.
#[inline]
pub fn vec_remove(needle: &OsPath, haystack: &mut Vec<OsPath>) -> (found: bool)
    ensures
        found == paths_view(old(haystack)@).contains(needle@),
        final(haystack)@.len() <= old(haystack)@.len(),
        !found ==> final(haystack)@ == old(haystack)@,
        found ==> exists|i: int|
            0 <= i < old(haystack)@.len() && #[trigger] paths_view(old(haystack)@)[i] == needle@
                && paths_view(final(haystack)@) == swap_removed(paths_view(old(haystack)@), i),
{
    let ghost before = paths_view(haystack@);
    let mut i: usize = 0;
    while i < haystack.len()
        invariant
            i <= haystack@.len(),
            haystack@ == old(haystack)@,
            before == paths_view(haystack@),
            forall|k: int| 0 <= k < i ==> before[k] != needle@,
        decreases haystack.len() - i,
    {
        if needle.same_as(&haystack[i]) {
            haystack.swap_remove(i);
            assert(before[i as int] == needle@);
            return true;
        }
        i += 1;
    }
    false
}

/// A tree of files: what lies below a root directory, each file under its
/// place relative to the root. No place holds two files.
#[derive(Debug)]
pub struct Snapshot {
    files: Vec<FileEntry>,
}

impl Snapshot {
    /// The files of the tree by their places.
    pub closed spec fn view(&self) -> Map<Seq<Seq<u8>>, Seq<u8>> {
        map_of(self.files@)
    }

    /// No place holds two files.
    pub closed spec fn wf(&self) -> bool {
        distinct_paths(self.files@)
    }

    /// How many files the tree holds.
    pub closed spec fn count(&self) -> nat {
        self.files@.len()
    }

    /// The files of the tree in the order in which they were put there,
    /// each with its place.
    pub closed spec fn entries(&self) -> Seq<FileEntry> {
        self.files@
    }

    /// The tree holds its entries, and as many files as it has entries.
    pub proof fn lemma_entries(&self)
        ensures
            self@ == map_of(self.entries()),
            self.count() == self.entries().len(),
            self.wf() == distinct_paths(self.entries()),
    {
    }

    /// The tree holds as many files as there are places in it.
    pub proof fn lemma_count(&self)
        requires
            self.wf(),
        ensures
            self@.dom().finite(),
            self@.dom().len() == self.count(),
    {
        lemma_map_of(self.files@);
    }

    /// The tree without files.
    pub fn new() -> (s: Snapshot)
        ensures
            s.wf(),
            s@ == Map::<Seq<Seq<u8>>, Seq<u8>>::empty(),
            s.count() == 0,
    {
        Snapshot { files: Vec::new() }
    }

    /// The files of the tree, in the order in which they were put there.
    pub fn files(&self) -> (files: &Vec<FileEntry>)
        ensures
            files@ == self.entries(),
    {
        &self.files
    }

    /// How many files the tree holds.
    pub fn len(&self) -> (n: usize)
        ensures
            n == self.count(),
    {
        self.files.len()
    }

    /// Where in the list the file at `path` stands.
    fn position(&self, path: &OsPath) -> (r: Option<usize>)
        ensures
            match r {
                Some(k) => k < self.files@.len() && self.files@[k as int].path@ == path@,
                None => forall|k: int| 0 <= k < self.files@.len() ==> self.files@[k].path@ != path@,
            },
    {
        let mut i: usize = 0;
        while i < self.files.len()
            invariant
                i <= self.files@.len(),
                forall|k: int| 0 <= k < i ==> self.files@[k].path@ != path@,
            decreases self.files.len() - i,
        {
            if self.files[i].path.same_as(path) {
                return Some(i);
            }
            i += 1;
        }
        None
    }

    /// The bytes of the file at `path`, if the tree has one there.
    pub fn get(&self, path: &OsPath) -> (r: Option<&Vec<u8>>)
        requires
            self.wf(),
        ensures
            match r {
                Some(content) => self@.dom().contains(path@) && self@[path@] == content@,
                None => !self@.dom().contains(path@),
            },
    {
        proof {
            lemma_map_of(self.files@);
        }
        match self.position(path) {
            Some(k) => {
                Some(&self.files[k].content)
            },
            None => None,
        }
    }

    /// Puts a file into the tree, unless the tree has one at that place:
    /// then the tree stays as it is. Says whether the file was put there.
    pub fn insert(&mut self, path: OsPath, content: Vec<u8>) -> (fresh: bool)
        requires
            old(self).wf(),
        ensures
            final(self).wf(),
            fresh == !old(self)@.dom().contains(path@),
            fresh ==> final(self)@ == old(self)@.insert(path@, content@) && final(self).count()
                == old(self).count() + 1,
            !fresh ==> final(self)@ == old(self)@ && final(self).count() == old(self).count(),
    {
        proof {
            lemma_map_of(self.files@);
        }
        match self.position(&path) {
            Some(k) => {
                false
            },
            None => {
                let ghost before = self.files@;
                self.files.push(FileEntry { path, content });
                proof {
                    assert(self.files@.drop_last() =~= before);
                }
                true
            },
        }
    }

    /// Puts a file into the tree, in place of the file that the tree has
    /// at that place, if it has one.
    pub fn put(&mut self, path: OsPath, content: Vec<u8>)
        requires
            old(self).wf(),
        ensures
            final(self).wf(),
            final(self)@ == old(self)@.insert(path@, content@),
            final(self).count() <= old(self).count() + 1,
    {
        let ghost before = self.files@;
        proof {
            lemma_map_of(before);
        }
        match self.position(&path) {
            Some(k) => {
                let entry = &mut self.files[k];
                entry.content = content;
                proof {
                    let after = self.files@;
                    assert forall|i: int, j: int| 0 <= i < j < after.len() implies after[i].path@
                        != after[j].path@ by {
                        assert(before[i].path@ != before[j].path@);
                    }
                    lemma_map_of(after);
                    assert forall|p: Seq<Seq<u8>>| map_of(after).dom().contains(p) <==> map_of(
                        before,
                    ).insert(path@, content@).dom().contains(p) by {
                        if map_of(after).dom().contains(p) {
                            let i = choose|i: int| 0 <= i < after.len() && #[trigger] after[i].path@ == p;
                            assert(before[i].path@ == p);
                        }
                        if map_of(before).dom().contains(p) {
                            let i = choose|i: int|
                                0 <= i < before.len() && #[trigger] before[i].path@ == p;
                            assert(after[i].path@ == p);
                        }
                    }
                    assert forall|p: Seq<Seq<u8>>| map_of(after).dom().contains(p) implies map_of(
                        after,
                    )[p] == map_of(before).insert(path@, content@)[p] by {
                        let i = choose|i: int| 0 <= i < after.len() && #[trigger] after[i].path@ == p;
                        assert(before[i].path@ == p);
                    }
                    assert(map_of(after) =~= map_of(before).insert(path@, content@));
                }
            },
            None => {
                self.files.push(FileEntry { path, content });
                proof {
                    assert(self.files@.drop_last() =~= before);
                }
            },
        }
    }

    /// The places of the tree's files.
    fn paths(&self) -> (r: Vec<OsPath>)
        ensures
            r@.len() == self.files@.len(),
            forall|k: int| 0 <= k < r@.len() ==> (#[trigger] r@[k])@ == self.files@[k].path@,
    {
        let mut r: Vec<OsPath> = Vec::new();
        let mut i: usize = 0;
        while i < self.files.len()
            invariant
                i <= self.files@.len(),
                r@.len() == i,
                forall|k: int| 0 <= k < i ==> (#[trigger] r@[k])@ == self.files@[k].path@,
            decreases self.files.len() - i,
        {
            r.push(self.files[i].path.clone());
            i += 1;
        }
        r
    }
}

/// The index of the top level as it is on disk, if it is there.
pub open spec fn index_view(old_mod: Option<&Vec<u8>>) -> Option<Seq<u8>> {
    match old_mod {
        Some(bytes) => Some(bytes@),
        None => None,
    }
}

/// What differs between the committed tree and the generated one, file
/// by file.
#[derive(Debug, PartialEq, Eq)]
pub struct DiffReport {
    /// The files that the generated tree has and the committed tree
    /// lacks.
    pub added: Vec<OsPath>,
    /// The files of both trees that hold other bytes in the generated
    /// tree.
    pub changed: Vec<OsPath>,
    /// The files that the committed tree has and the generated tree
    /// lacks.
    pub removed: Vec<OsPath>,
    /// Whether the index of the top level is missing or holds other bytes
    /// than the new one.
    pub index_differs: bool,
}

impl DiffReport {
    /// How much differs: each file that is listed counts once, and so does
    /// the index of the top level where it differs.
    pub open spec fn total(&self) -> nat {
        self.added@.len() + self.changed@.len() + self.removed@.len() + if self.index_differs {
            1nat
        } else {
            0nat
        }
    }

    /// How much differs; nothing where the count is beyond what the machine
    /// can count.
    pub fn count(&self) -> (n: Option<usize>)
        ensures
            match n {
                Some(count) => count == self.total(),
                None => self.total() > usize::MAX,
            },
    {
        let index: usize = if self.index_differs {
            1
        } else {
            0
        };
        let files = match self.added.len().checked_add(self.changed.len()) {
            Some(files) => files,
            None => {
                return None;
            },
        };
        let files = match files.checked_add(self.removed.len()) {
            Some(files) => files,
            None => {
                return None;
            },
        };
        files.checked_add(index)
    }
}

/// A sequence without repetitions stays one when something new is put
/// behind it.
pub proof fn lemma_push_fresh<T>(s: Seq<T>, x: T)
    requires
        s.no_duplicates(),
        !s.contains(x),
    ensures
        s.push(x).no_duplicates(),
        s.push(x).to_set() == s.to_set().insert(x),
{
    let t = s.push(x);
    assert forall|e: T| t.to_set().contains(e) <==> s.to_set().insert(x).contains(e) by {
        if s.contains(e) {
            let j = choose|j: int| 0 <= j < s.len() && s[j] == e;
            assert(t[j] == e);
        }
        if e == x {
            assert(t[s.len() as int] == e);
        }
    }
}

/// Lists what differs between the committed tree `orig` and the generated
/// tree `new`: the files that are new, those that hold other bytes, and
/// those that are gone, each once, and whether the index of the top level
/// differs: whether the old one, `old_mod`, is missing or holds other bytes
/// than `new_mod`.
pub fn list_diff(orig: &Snapshot, new: &Snapshot, old_mod: Option<&Vec<u8>>, new_mod: &str) -> (report:
    DiffReport)
    requires
        orig.wf(),
        new.wf(),
    ensures
        paths_view(report.added@).no_duplicates(),
        paths_view(report.added@).to_set() == added(orig@, new@),
        paths_view(report.changed@).no_duplicates(),
        paths_view(report.changed@).to_set() == changed(orig@, new@),
        paths_view(report.removed@).no_duplicates(),
        paths_view(report.removed@).to_set() == removed(orig@, new@),
        report.index_differs == index_differs(index_view(old_mod), new_mod.spec_bytes()),
        report.added@.len() + report.changed@.len() <= new.count(),
        report.removed@.len() <= orig.count(),
        report.total() == diff_count(orig@, new@, index_view(old_mod), new_mod.spec_bytes()),
{
    let ghost old_tree = orig@;
    let mut remaining = orig.paths();
    let mut fresh: Vec<OsPath> = Vec::new();
    let mut altered: Vec<OsPath> = Vec::new();
    let mut i: usize = 0;
    proof {
        lemma_map_of(orig.files@);
        let rem = paths_view(remaining@);
        assert forall|p: Seq<Seq<u8>>| rem.to_set().contains(p) <==> old_tree.dom().contains(p) by {
            if old_tree.dom().contains(p) {
                let k = choose|k: int| 0 <= k < orig.files@.len() && #[trigger] orig.files@[k].path@ == p;
                assert(rem[k] == p);
            }
        }
    }
    while i < new.files.len()
        invariant
            i <= new.files@.len(),
            orig.wf(),
            new.wf(),
            old_tree == orig@,
            remaining@.len() <= orig.files@.len(),
            paths_view(remaining@).no_duplicates(),
            paths_view(remaining@).to_set() == removed(old_tree, map_of(new.files@.take(i as int))),
            paths_view(fresh@).no_duplicates(),
            paths_view(fresh@).to_set() == added(old_tree, map_of(new.files@.take(i as int))),
            paths_view(altered@).no_duplicates(),
            paths_view(altered@).to_set() == changed(old_tree, map_of(new.files@.take(i as int))),
            fresh@.len() + altered@.len() <= i,
        decreases new.files.len() - i,
    {
        let entry = &new.files[i];
        let ghost p = entry.path@;
        let ghost rem = paths_view(remaining@);
        let ghost fresh_before = paths_view(fresh@);
        let ghost altered_before = paths_view(altered@);
        proof {
            let front = new.files@.take(i as int);
            assert(new.files@.take(i + 1).drop_last() =~= front);
            lemma_map_of(front);
            assert(!fresh_before.to_set().contains(p));
            assert(!altered_before.to_set().contains(p));
        }
        if vec_remove(&entry.path, &mut remaining) {
            proof {
                let k = choose|k: int|
                    0 <= k < rem.len() && #[trigger] rem[k] == p && paths_view(remaining@)
                        == swap_removed(rem, k);
                lemma_swap_removed(rem, k);
                assert(rem.to_set().contains(p));
            }
            match orig.get(&entry.path) {
                Some(content) => {
                    if !bytes_eq(content.as_slice(), entry.content.as_slice()) {
                        altered.push(entry.path.clone());
                        proof {
                            assert(paths_view(altered@) =~= altered_before.push(p));
                            lemma_push_fresh(altered_before, p);
                        }
                    }
                },
                None => {},
            }
        } else {
            fresh.push(entry.path.clone());
            proof {
                assert(!rem.to_set().contains(p));
                assert(paths_view(fresh@) =~= fresh_before.push(p));
                lemma_push_fresh(fresh_before, p);
            }
        }
        i += 1;
    }
    assert(new.files@.take(i as int) =~= new.files@);
    let same = match old_mod {
        Some(bytes) => bytes_eq(bytes.as_slice(), new_mod.as_bytes()),
        None => false,
    };
    proof {
        paths_view(fresh@).unique_seq_to_set();
        paths_view(altered@).unique_seq_to_set();
        paths_view(remaining@).unique_seq_to_set();
    }
    DiffReport { added: fresh, changed: altered, removed: remaining, index_differs: !same }
}

/// Counts what differs between the committed tree `orig` and the generated
/// tree `new`. Each file of the new tree that the old one lacks counts
/// once, each file of both that holds other bytes counts once, and each
/// file of the old tree that the new one lacks counts once. The index of
/// the top level counts once where the old one, `old_mod`, is missing or
/// holds other bytes than `new_mod`. The count depends on what the trees
/// hold, not on the order in which their files were put into them.
///
/// Fails with `TooManyFiles` where the count is beyond what the machine can
/// count.
pub fn run_diff(orig: &Snapshot, new: &Snapshot, old_mod: Option<&Vec<u8>>, new_mod: &str) -> (r:
    Result<usize, GenError>)
    requires
        orig.wf(),
        new.wf(),
    ensures
        match r {
            Ok(diff) => diff == diff_count(orig@, new@, index_view(old_mod), new_mod.spec_bytes()),
            Err(e) => e == GenError::TooManyFiles && diff_count(
                orig@,
                new@,
                index_view(old_mod),
                new_mod.spec_bytes(),
            ) > usize::MAX,
        },
{
    let report = list_diff(orig, new, old_mod, new_mod);
    match report.count() {
        Some(diff) => Ok(diff),
        None => Err(GenError::TooManyFiles),
    }
}

/// The tree that the files found below a root directory of the name
/// `root` make up: each file under its place, which is what follows in the
/// file's path the last component that is `root`. Where more than one file
/// comes to lie in a place, the file counts that lies at that place below
/// the directory `source` itself; where none of them does, the first
/// counts.
pub open spec fn collected_under(
    root: Seq<char>,
    source: Seq<Seq<u8>>,
    found: Seq<FileEntry>,
) -> Result<Map<Seq<Seq<u8>>, Seq<u8>>, GenError>
    decreases found.len(),
{
    if found.len() == 0 {
        Ok(Map::empty())
    } else {
        match collected_under(root, source, found.drop_last()) {
            Err(e) => Err(e),
            Ok(tree) => match below_root(root, found.last().path@) {
                Err(e) => Err(e),
                Ok(place) => if tree.dom().contains(place) && found.last().path@ != source
                    + place {
                    Ok(tree)
                } else {
                    Ok(tree.insert(place, found.last().content@))
                },
            },
        }
    }
}

/// The tree that the files found below the directory `source` make up,
/// each file under its place below the directory's name.
pub open spec fn collected(source: Seq<Seq<u8>>, found: Seq<FileEntry>) -> Result<
    Map<Seq<Seq<u8>>, Seq<u8>>,
    GenError,
> {
    match file_name_text(source) {
        Err(e) => Err(e),
        Ok(root) => collected_under(root, source, found),
    }
}

/// Once the files up to some point make up no tree, no more files help.
pub proof fn lemma_collected_fails(
    root: Seq<char>,
    source: Seq<Seq<u8>>,
    found: Seq<FileEntry>,
    n: int,
)
    requires
        0 <= n <= found.len(),
        collected_under(root, source, found.take(n)) is Err,
    ensures
        collected_under(root, source, found) == collected_under(root, source, found.take(n)),
    decreases found.len() - n,
{
    if n < found.len() {
        assert(found.take(n + 1).drop_last() =~= found.take(n));
        lemma_collected_fails(root, source, found, n + 1);
    } else {
        assert(found.take(n) =~= found);
    }
}

/// Makes a tree of the files that were found below the directory `source`.
/// The place of each file is what follows, in its path, the last component
/// that is the directory's name. Where more than one file comes to lie in
/// a place, the file counts that lies at that place below `source` itself.
///
/// Fails where the directory has no name that is text, as
/// `as_file_name_string` does, and at the first file whose place cannot be
/// told, as `path_from_starts_with` does.
pub fn collect_files(found: &Vec<FileEntry>, source: &OsPath) -> (r: Result<Snapshot, GenError>)
    ensures
        match r {
            Ok(tree) => tree.wf() && collected(source@, found@) == Ok::<
                Map<Seq<Seq<u8>>, Seq<u8>>,
                GenError,
            >(tree@) && tree.count() <= found@.len(),
            Err(e) => collected(source@, found@) == Err::<Map<Seq<Seq<u8>>, Seq<u8>>, GenError>(e),
        },
{
    let root = match as_file_name_string(source) {
        Ok(root) => root,
        Err(e) => {
            return Err(e);
        },
    };
    let mut all_files = Snapshot::new();
    let mut i: usize = 0;
    while i < found.len()
        invariant
            i <= found@.len(),
            all_files.wf(),
            all_files.count() <= i,
            file_name_text(source@) == Ok::<Seq<char>, GenError>(root@),
            collected_under(root@, source@, found@.take(i as int)) == Ok::<
                Map<Seq<Seq<u8>>, Seq<u8>>,
                GenError,
            >(all_files@),
        decreases found.len() - i,
    {
        let entry = &found[i];
        proof {
            assert(found@.take(i + 1).drop_last() =~= found@.take(i as int));
        }
        match path_from_starts_with(root.as_str(), &entry.path) {
            Ok(place) => {
                let at_place = entry.path.same_as(&source.concat(&place));
                if at_place {
                    all_files.put(place, bytes_clone(entry.content.as_slice()));
                } else {
                    all_files.insert(place, bytes_clone(entry.content.as_slice()));
                }
            },
            Err(e) => {
                proof {
                    lemma_collected_fails(root@, source@, found@, i + 1);
                }
                return Err(e);
            },
        }
        i += 1;
    }
    assert(found@.take(i as int) =~= found@);
    Ok(all_files)
}

/// Two trees with the same files, each with the same bytes, and the same
/// index of the top level do not differ.
pub proof fn lemma_identical_trees_do_not_differ(tree: Map<Seq<Seq<u8>>, Seq<u8>>, index: Seq<u8>)
    ensures
        diff_count(tree, tree, Some(index), index) == 0,
{
    assert(added(tree, tree) =~= Set::<Seq<Seq<u8>>>::empty());
    assert(changed(tree, tree) =~= Set::<Seq<Seq<u8>>>::empty());
}

/// Trees that do not differ are the same: where the count is nothing, the
/// two trees hold the same files, each with the same bytes, and the index
/// of the top level is there and holds the new bytes.
pub proof fn lemma_no_difference_means_identical(
    old_tree: Map<Seq<Seq<u8>>, Seq<u8>>,
    new_tree: Map<Seq<Seq<u8>>, Seq<u8>>,
    old_index: Option<Seq<u8>>,
    new_index: Seq<u8>,
)
    requires
        old_tree.dom().finite(),
        new_tree.dom().finite(),
        diff_count(old_tree, new_tree, old_index, new_index) == 0,
    ensures
        old_tree == new_tree,
        old_index == Some(new_index),
{
    let a = added(old_tree, new_tree);
    let c = changed(old_tree, new_tree);
    let r = removed(old_tree, new_tree);
    assert(c.subset_of(new_tree.dom()));
    vstd::set_lib::lemma_len_subset(c, new_tree.dom());
    a.lemma_len0_is_empty();
    c.lemma_len0_is_empty();
    r.lemma_len0_is_empty();
    assert forall|p: Seq<Seq<u8>>| old_tree.dom().contains(p) <==> new_tree.dom().contains(p) by {
        if old_tree.dom().contains(p) && !new_tree.dom().contains(p) {
            assert(r.contains(p));
        }
        if new_tree.dom().contains(p) && !old_tree.dom().contains(p) {
            assert(a.contains(p));
        }
    }
    assert forall|p: Seq<Seq<u8>>| old_tree.dom().contains(p) implies old_tree[p]
        == new_tree[p] by {
        if old_tree[p] != new_tree[p] {
            assert(c.contains(p));
        }
    }
    assert(old_tree =~= new_tree);
}

/// The files `a` are among the files `b`: each is in `b`, at the same place
/// and with the same bytes.
pub open spec fn files_among(a: Seq<FileEntry>, b: Seq<FileEntry>) -> bool {
    forall|k: int|
        0 <= k < a.len() ==> exists|j: int|
            0 <= j < b.len() && (#[trigger] b[j]).path@ == (#[trigger] a[k]).path@ && b[j].content@
                == a[k].content@
}

/// The order in which files are found does not matter: two lists of the
/// same files make the same tree, so that the same is counted of them.
pub proof fn lemma_tree_ignores_order(a: Seq<FileEntry>, b: Seq<FileEntry>)
    requires
        distinct_paths(a),
        distinct_paths(b),
        files_among(a, b),
        files_among(b, a),
    ensures
        map_of(a) == map_of(b),
{
    lemma_map_of(a);
    lemma_map_of(b);
    let ma = map_of(a);
    let mb = map_of(b);
    assert forall|p: Seq<Seq<u8>>| ma.dom().contains(p) implies mb.dom().contains(p) && mb[p]
        == ma[p] by {
        let k = choose|k: int| 0 <= k < a.len() && #[trigger] a[k].path@ == p;
        let j = choose|j: int|
            0 <= j < b.len() && (#[trigger] b[j]).path@ == a[k].path@ && b[j].content@
                == a[k].content@;
        assert(mb.dom().contains(b[j].path@));
    }
    assert forall|p: Seq<Seq<u8>>| mb.dom().contains(p) implies ma.dom().contains(p) by {
        let k = choose|k: int| 0 <= k < b.len() && #[trigger] b[k].path@ == p;
        let j = choose|j: int|
            0 <= j < a.len() && (#[trigger] a[j]).path@ == b[k].path@ && a[j].content@
                == b[k].content@;
        assert(ma.dom().contains(a[j].path@));
    }
    assert(ma =~= mb);
}

/// Where nothing was committed before and nothing was generated, the
/// missing index of the top level is all that differs.
pub proof fn lemma_first_run_differs_by_the_index(index: Seq<u8>)
    ensures
        diff_count(Map::empty(), Map::empty(), None, index) == 1,
{
    lemma_identical_trees_do_not_differ(Map::empty(), index);
}

/// A new tree that has one file more than the old one, lacks one of its
/// files and holds other bytes in one of the files they share, under the
/// same index of the top level, differs from it by three.
pub proof fn lemma_one_added_one_removed_one_changed(
    old_tree: Map<Seq<Seq<u8>>, Seq<u8>>,
    new_tree: Map<Seq<Seq<u8>>, Seq<u8>>,
    a: Seq<Seq<u8>>,
    r: Seq<Seq<u8>>,
    c: Seq<Seq<u8>>,
    index: Seq<u8>,
)
    requires
        !old_tree.dom().contains(a),
        old_tree.dom().contains(r),
        old_tree.dom().contains(c),
        r != c,
        new_tree.dom() == old_tree.dom().remove(r).insert(a),
        new_tree[c] != old_tree[c],
        forall|p: Seq<Seq<u8>>|
            old_tree.dom().contains(p) && p != r && p != c ==> new_tree[p] == old_tree[p],
    ensures
        diff_count(old_tree, new_tree, Some(index), index) == 3,
{
    assert(added(old_tree, new_tree) =~= set![a]);
    assert(removed(old_tree, new_tree) =~= set![r]);
    assert(changed(old_tree, new_tree) =~= set![c]);
}

} // verus!
