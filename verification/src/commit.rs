//! Replacing the committed tree by the generated one: what is written,
//! and that nothing differs afterwards.

use crate::diff::{
    collected, collected_under, diff_count, lemma_identical_trees_do_not_differ, FileEntry,
};
use crate::error::GenError;
use crate::path::{
    below_root, bytes_clone, file_name_text, mod_file_of, mod_file_path, place_below, OsPath,
};
use crate::text::decoded;
use vstd::prelude::*;
use vstd::string::StringSliceAdditionalSpecFns;

verus! {

/// Every one of the files lies below the directory `source`.
pub open spec fn all_below(source: Seq<Seq<u8>>, found: Seq<FileEntry>) -> bool {
    forall|k: int| 0 <= k < found.len() ==> place_below(source, (#[trigger] found[k]).path@) is Some
}

/// The file `written` is a copy of the file `found`: it lies below the
/// directory `dest` where the other lies below the directory `source`, and
/// holds the same bytes.
pub open spec fn copy_of(
    source: Seq<Seq<u8>>,
    dest: Seq<Seq<u8>>,
    found: FileEntry,
    written: FileEntry,
) -> bool {
    match place_below(source, found.path@) {
        Some(place) => written.path@ == dest + place && written.content@ == found.content@,
        None => false,
    }
}

/// One file to copy.
#[derive(Debug, PartialEq, Eq)]
pub struct CopyStep {
    /// The file to copy.
    pub from: OsPath,
    /// Where the copy goes.
    pub to: OsPath,
}

/// The step copies the file `found` from where it lies below the
/// directory `source` to the same place below the directory `dest`.
pub open spec fn step_copies(
    source: Seq<Seq<u8>>,
    dest: Seq<Seq<u8>>,
    found: FileEntry,
    step: CopyStep,
) -> bool {
    step.from@ == found.path@ && match place_below(source, found.path@) {
        Some(place) => step.to@ == dest + place,
        None => false,
    }
}

/// The steps copy the files `found`, one for one.
pub open spec fn copies(
    source: Seq<Seq<u8>>,
    dest: Seq<Seq<u8>>,
    found: Seq<FileEntry>,
    steps: Seq<CopyStep>,
) -> bool {
    &&& steps.len() == found.len()
    &&& forall|k: int|
        0 <= k < steps.len() ==> step_copies(source, dest, found[k], #[trigger] steps[k])
}

/// The files `written` are what the steps leave behind: each lies where
/// its step copies to and holds the bytes of the file copied.
pub open spec fn left_by(steps: Seq<CopyStep>, found: Seq<FileEntry>, written: Seq<FileEntry>)
    -> bool {
    &&& written.len() == steps.len()
    &&& written.len() == found.len()
    &&& forall|k: int|
        0 <= k < written.len() ==> (#[trigger] written[k]).path@ == steps[k].to@
            && written[k].content@ == found[k].content@
}

/// What replacing the committed tree takes.
#[derive(Debug)]
pub struct CommitPlan {
    /// The directory to empty: it is removed with all it holds, if it is
    /// there, and made anew.
    pub reset_dir: OsPath,
    /// The files to copy into that directory, in the order given.
    pub files: Vec<CopyStep>,
    /// The index of the top level, to write last.
    pub mod_file: FileEntry,
}

/// Says what replacing the tree in `output_dir` by the tree in `source`
/// takes: each file found below `source` is copied to the same place below
/// `output_dir`, and the index of the top level is written beside that
/// directory.
///
/// Fails where the place of the index cannot be told, as `mod_file_path`
/// does, and with `RootNotFound` where one of the files does not lie below
/// `source`.
pub fn commit_plan(
    found: &Vec<FileEntry>,
    source: &OsPath,
    output_dir: &OsPath,
    top_mod_content: &str,
) -> (r: Result<CommitPlan, GenError>)
    ensures
        match r {
            Ok(plan) => {
                &&& plan.reset_dir@ == output_dir@
                &&& copies(source@, output_dir@, found@, plan.files@)
                &&& mod_file_of(output_dir@) == Ok::<Seq<Seq<u8>>, GenError>(plan.mod_file.path@)
                &&& plan.mod_file.content@ == top_mod_content.spec_bytes()
            },
            Err(e) => match mod_file_of(output_dir@) {
                Err(refused) => e == refused,
                Ok(_) => e == GenError::RootNotFound && !all_below(source@, found@),
            },
        },
{
    let mod_path = match mod_file_path(output_dir) {
        Ok(p) => p,
        Err(e) => {
            return Err(e);
        },
    };
    let mut files: Vec<CopyStep> = Vec::new();
    let mut i: usize = 0;
    while i < found.len()
        invariant
            i <= found@.len(),
            mod_file_of(output_dir@) == Ok::<Seq<Seq<u8>>, GenError>(mod_path@),
            copies(source@, output_dir@, found@.take(i as int), files@),
        decreases found.len() - i,
    {
        let entry = &found[i];
        match entry.path.below(source) {
            Some(place) => {
                files.push(CopyStep { from: entry.path.clone(), to: output_dir.concat(&place) });
            },
            None => {
                return Err(GenError::RootNotFound);
            },
        }
        i += 1;
    }
    Ok(
        CommitPlan {
            reset_dir: output_dir.clone(),
            files,
            mod_file: FileEntry { path: mod_path, content: bytes_clone(top_mod_content.as_bytes()) },
        },
    )
}

/// A component that is text and is not the name of the root: the search
/// for the root passes over it.
pub open spec fn passed_over(root: Seq<char>, component: Seq<u8>) -> bool {
    match decoded(component) {
        Some(text) => text != root,
        None => false,
    }
}

/// The search for the root passes over every component of the place.
pub open spec fn place_passed_over(root: Seq<char>, place: Seq<Seq<u8>>) -> bool {
    forall|j: int| 0 <= j < place.len() ==> passed_over(root, #[trigger] place[j])
}

/// Below the directory `source`, no directory and no file among `found`
/// bears the name `root`.
pub open spec fn places_passed_over(
    root: Seq<char>,
    source: Seq<Seq<u8>>,
    found: Seq<FileEntry>,
) -> bool {
    forall|k: int|
        0 <= k < found.len() && place_below(source, (#[trigger] found[k]).path@) is Some
            ==> place_passed_over(root, place_below(source, found[k].path@)->0)
}

/// The tree of the given places, each with the bytes of the file that
/// stands there in the list; a later file takes the place of an earlier
/// one.
pub open spec fn placed_tree(places: Seq<Seq<Seq<u8>>>, files: Seq<FileEntry>) -> Map<
    Seq<Seq<u8>>,
    Seq<u8>,
>
    decreases places.len(),
{
    if places.len() == 0 || files.len() == 0 {
        Map::empty()
    } else {
        placed_tree(places.drop_last(), files.drop_last()).insert(
            places.last(),
            files.last().content@,
        )
    }
}

/// The place of a file below a directory is found again from the file's
/// path, given that the search for the directory's name passes over every
/// component of the place.
pub proof fn lemma_below_root_of_joined(root: Seq<char>, dir: Seq<Seq<u8>>, place: Seq<Seq<u8>>)
    requires
        file_name_text(dir) == Ok::<Seq<char>, GenError>(root),
        place_passed_over(root, place),
    ensures
        below_root(root, dir + place) == Ok::<Seq<Seq<u8>>, GenError>(place),
    decreases place.len(),
{
    if place.len() == 0 {
        assert(Seq::<Seq<u8>>::empty() =~= place);
    } else {
        let path = dir + place;
        assert(path.drop_last() =~= dir + place.drop_last());
        lemma_below_root_of_joined(root, dir, place.drop_last());
        assert(place.drop_last().push(place.last()) =~= place);
    }
}

/// Files that lie at given places below a directory make up, when they
/// are collected under the directory's name, the tree of these places,
/// given that the search for that name passes over every component of
/// every place.
pub proof fn lemma_collect_at_places(
    root: Seq<char>,
    dir: Seq<Seq<u8>>,
    places: Seq<Seq<Seq<u8>>>,
    files: Seq<FileEntry>,
)
    requires
        file_name_text(dir) == Ok::<Seq<char>, GenError>(root),
        files.len() == places.len(),
        forall|k: int| 0 <= k < files.len() ==> (#[trigger] files[k]).path@ == dir + places[k],
        forall|k: int| 0 <= k < places.len() ==> place_passed_over(root, #[trigger] places[k]),
    ensures
        collected_under(root, dir, files) == Ok::<Map<Seq<Seq<u8>>, Seq<u8>>, GenError>(
            placed_tree(places, files),
        ),
    decreases files.len(),
{
    if files.len() > 0 {
        let n = files.len() - 1;
        lemma_collect_at_places(root, dir, places.drop_last(), files.drop_last());
        lemma_below_root_of_joined(root, dir, places[n]);
    }
}

/// The tree of given places depends on the bytes of the files only.
pub proof fn lemma_placed_tree_of_copies(
    places: Seq<Seq<Seq<u8>>>,
    a: Seq<FileEntry>,
    b: Seq<FileEntry>,
)
    requires
        a.len() == places.len(),
        b.len() == places.len(),
        forall|k: int| 0 <= k < a.len() ==> (#[trigger] a[k]).content@ == b[k].content@,
    ensures
        placed_tree(places, a) == placed_tree(places, b),
    decreases places.len(),
{
    if places.len() > 0 {
        lemma_placed_tree_of_copies(places.drop_last(), a.drop_last(), b.drop_last());
    }
}

/// To commit is idempotent: the files that the steps of a commit leave
/// below the output directory make up, when they are collected again, the
/// very tree that the generated files make up, so that nothing differs,
/// given the same index. This holds of trees in which no directory and no
/// file bears the name of the output directory or that of the directory of
/// the generated files.
pub proof fn lemma_commit_leaves_no_difference(
    source: Seq<Seq<u8>>,
    dest: Seq<Seq<u8>>,
    found: Seq<FileEntry>,
    steps: Seq<CopyStep>,
    written: Seq<FileEntry>,
    new_index: Seq<u8>,
)
    requires
        file_name_text(source) is Ok,
        file_name_text(dest) is Ok,
        copies(source, dest, found, steps),
        left_by(steps, found, written),
        places_passed_over(file_name_text(source)->Ok_0, source, found),
        places_passed_over(file_name_text(dest)->Ok_0, source, found),
    ensures
        collected(source, found) is Ok,
        collected(dest, written) == collected(source, found),
        diff_count(
            collected(dest, written)->Ok_0,
            collected(source, found)->Ok_0,
            Some(new_index),
            new_index,
        ) == 0,
{
    let places = Seq::new(found.len(), |k: int| place_below(source, found[k].path@)->0);
    assert forall|k: int| 0 <= k < found.len() implies (#[trigger] found[k]).path@ == source
        + places[k] by {
        assert(copy_of(source, dest, found[k], written[k]));
    }
    assert forall|k: int| 0 <= k < places.len() implies place_passed_over(
        file_name_text(source)->Ok_0,
        #[trigger] places[k],
    ) && place_passed_over(file_name_text(dest)->Ok_0, places[k]) by {
        assert(copy_of(source, dest, found[k], written[k]));
    }
    lemma_collect_at_places(file_name_text(source)->Ok_0, source, places, found);
    lemma_collect_at_places(file_name_text(dest)->Ok_0, dest, places, written);
    lemma_placed_tree_of_copies(places, written, found);
    lemma_identical_trees_do_not_differ(placed_tree(places, found), new_index);
}

} // verus!
