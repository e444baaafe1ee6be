use proto_gen::commit::{commit_plan, CopyStep};
use proto_gen::diff::{
    collect_files, list_diff, run_diff, vec_remove, DiffReport, FileEntry, Snapshot,
};
use proto_gen::error::GenError;
use proto_gen::path::OsPath;
use std::path::Path;

fn os_path(path: &str) -> OsPath {
    OsPath {
        components: Path::new(path)
            .components()
            .map(|c| c.as_os_str().as_encoded_bytes().to_vec())
            .collect(),
    }
}

fn snapshot(files: &[(&str, &str)]) -> Snapshot {
    let mut tree = Snapshot::new();
    for (path, content) in files {
        assert!(tree.insert(os_path(path), content.as_bytes().to_vec()));
    }
    tree
}

fn entry(path: &str, content: &str) -> FileEntry {
    FileEntry { path: os_path(path), content: content.as_bytes().to_vec() }
}

#[test]
fn can_diff_both_empty() {
    let empty_temp1 = Snapshot::new();
    let empty_temp2 = Snapshot::new();
    let diff = run_diff(&empty_temp1, &empty_temp2, None, "my-mod").unwrap();
    // One diff, would write a module file
    assert_eq!(1, diff);
}

#[test]
fn can_diff_identical() {
    let proto_mod = "proto_types";
    let my_mod = "my_mod";
    let expect_top_content = format!("pub mod {my_mod};\n");
    let orig_found = vec![entry(&format!("/tmp/orig/{proto_mod}/my_mod.rs"), "!// Content")];
    let orig_top = expect_top_content.as_bytes().to_vec();
    assert_eq!(
        Ok(os_path(&format!("/tmp/orig/{proto_mod}.rs"))),
        proto_gen::path::mod_file_path(&os_path(&format!("/tmp/orig/{proto_mod}")))
    );
    let new_found = vec![entry(&format!("/tmp/new/{proto_mod}/my_mod.rs"), "!// Content")];
    let orig = collect_files(&orig_found, &os_path(&format!("/tmp/orig/{proto_mod}"))).unwrap();
    let new = collect_files(&new_found, &os_path(&format!("/tmp/new/{proto_mod}"))).unwrap();
    let diff = run_diff(&orig, &new, Some(&orig_top), &expect_top_content).unwrap();
    assert_eq!(0, diff);
}

#[test]
fn one_added_one_removed_one_changed_make_three() {
    let old = snapshot(&[("a.rs", "a"), ("gone.rs", "g"), ("dir/c.rs", "old"), ("same.rs", "s")]);
    let new = snapshot(&[("same.rs", "s"), ("dir/c.rs", "new"), ("a.rs", "a"), ("fresh.rs", "f")]);
    let index = b"pub mod a;\n".to_vec();
    assert_eq!(Ok(3), run_diff(&old, &new, Some(&index), "pub mod a;\n"));
    let old_other_order =
        snapshot(&[("same.rs", "s"), ("dir/c.rs", "old"), ("gone.rs", "g"), ("a.rs", "a")]);
    let new_other_order =
        snapshot(&[("fresh.rs", "f"), ("a.rs", "a"), ("dir/c.rs", "new"), ("same.rs", "s")]);
    assert_eq!(Ok(3), run_diff(&old_other_order, &new_other_order, Some(&index), "pub mod a;\n"));
    assert_eq!(Ok(3), run_diff(&old, &new_other_order, Some(&index), "pub mod a;\n"));
}

#[test]
fn each_kind_of_difference_counts_once() {
    let index = b"x".to_vec();
    let old = snapshot(&[("a.rs", "a"), ("b.rs", "b")]);
    assert_eq!(Ok(0), run_diff(&old, &snapshot(&[("b.rs", "b"), ("a.rs", "a")]), Some(&index), "x"));
    assert_eq!(Ok(1), run_diff(&old, &snapshot(&[("a.rs", "a"), ("b.rs", "B")]), Some(&index), "x"));
    assert_eq!(Ok(1), run_diff(&old, &snapshot(&[("a.rs", "a")]), Some(&index), "x"));
    assert_eq!(Ok(1), run_diff(&old, &snapshot(&[("a.rs", "a"), ("b.rs", "b"), ("c.rs", "")]), Some(&index), "x")
    );
    assert_eq!(Ok(1), run_diff(&old, &old, Some(&index), "y"));
    assert_eq!(Ok(1), run_diff(&old, &old, None, "x"));
    assert_eq!(Ok(1), run_diff(&old, &old, Some(&Vec::new()), "x"));
    assert_eq!(Ok(2), run_diff(&old, &Snapshot::new(), Some(&index), "x"));
    assert_eq!(Ok(3), run_diff(&Snapshot::new(), &old, None, "x"));
    assert_eq!(Ok(5), run_diff(&old, &snapshot(&[("c.rs", "a"), ("d.rs", "b")]), Some(&index), "other")
    );
}

#[test]
fn same_name_in_another_directory_is_another_file() {
    let old = snapshot(&[("a/x.rs", "x")]);
    let new = snapshot(&[("b/x.rs", "x")]);
    assert_eq!(Ok(2), run_diff(&old, &new, Some(&b"i".to_vec()), "i"));
}

#[test]
fn index_is_compared_byte_by_byte() {
    let tree = snapshot(&[("a.rs", "a")]);
    let old_index = "pub mod \u{e9};\n".as_bytes().to_vec();
    assert_eq!(Ok(0), run_diff(&tree, &tree, Some(&old_index), "pub mod \u{e9};\n"));
    assert_eq!(Ok(1), run_diff(&tree, &tree, Some(&old_index), "pub mod e;\n"));
    assert_eq!(Ok(1), run_diff(&tree, &tree, Some(&b"pub mod \xe9;\n".to_vec()), "pub mod \u{e9};\n"));
}

#[test]
fn snapshot_keeps_the_first_file_of_a_place() {
    let mut tree = Snapshot::new();
    assert_eq!(0, tree.len());
    assert!(tree.insert(os_path("a/b.rs"), b"one".to_vec()));
    assert!(!tree.insert(os_path("a/b.rs"), b"two".to_vec()));
    assert!(tree.insert(os_path("a/c.rs"), b"three".to_vec()));
    assert_eq!(2, tree.len());
    assert_eq!(Some(&b"one".to_vec()), tree.get(&os_path("a/b.rs")));
    assert_eq!(Some(&b"three".to_vec()), tree.get(&os_path("a/c.rs")));
    assert_eq!(None, tree.get(&os_path("a")));
}

#[test]
fn files_are_collected_below_the_root() {
    let found = vec![
        entry("/tmp/.tmpAbC/my_proto.rs", "m"),
        entry("/tmp/.tmpAbC/imports/nested.rs", "n"),
        entry("/tmp/.tmpAbC/imports.rs", "i"),
    ];
    let tree = collect_files(&found, &os_path("/tmp/.tmpAbC")).unwrap();
    assert_eq!(3, tree.len());
    assert_eq!(Some(&b"m".to_vec()), tree.get(&os_path("my_proto.rs")));
    assert_eq!(Some(&b"n".to_vec()), tree.get(&os_path("imports/nested.rs")));
    assert_eq!(Some(&b"i".to_vec()), tree.get(&os_path("imports.rs")));
    assert_eq!(0, collect_files(&Vec::new(), &os_path("x")).unwrap().len());
}

#[test]
fn collecting_fails_where_the_root_is_not_found() {
    let found = vec![entry("/tmp/out/a.rs", "a"), entry("/elsewhere/a.rs", "a")];
    assert_eq!(Some(GenError::RootNotFound), collect_files(&found, &os_path("/tmp/out")).err());
    let odd = FileEntry {
        path: OsPath { components: vec![b"out".to_vec(), b"\xff".to_vec()] },
        content: Vec::new(),
    };
    assert_eq!(Some(GenError::NotUnicode), collect_files(&vec![odd], &os_path("out")).err());
}

#[test]
fn collecting_needs_a_named_root() {
    let found = vec![entry("/a.rs", "a")];
    assert_eq!(Some(GenError::NoFileName), collect_files(&found, &os_path("/")).err());
    assert_eq!(Some(GenError::NoFileName), collect_files(&found, &os_path("out/..")).err());
    let odd = OsPath { components: vec![b"\xff".to_vec()] };
    assert_eq!(Some(GenError::NotUnicode), collect_files(&found, &odd).err());
}

#[test]
fn directory_whose_name_begins_with_the_roots_name_is_kept() {
    let found = vec![entry("/x/types/a.rs", "first"), entry("/x/types/types_old/a.rs", "second")];
    let tree = collect_files(&found, &os_path("/x/types")).unwrap();
    assert_eq!(2, tree.len());
    assert_eq!(Some(&b"first".to_vec()), tree.get(&os_path("a.rs")));
    assert_eq!(Some(&b"second".to_vec()), tree.get(&os_path("types_old/a.rs")));
}

#[test]
fn file_at_the_place_below_the_root_counts() {
    let root = os_path("/x/types");
    let at_place = entry("/x/types/a.rs", "at the place");
    let nested = entry("/x/types/types/a.rs", "nested");
    for found in [vec![entry("/x/types/a.rs", "at the place"), entry("/x/types/types/a.rs", "nested")],
        vec![entry("/x/types/types/a.rs", "nested"), entry("/x/types/a.rs", "at the place")]]
    {
        let tree = collect_files(&found, &root).unwrap();
        assert_eq!(1, tree.len());
        assert_eq!(Some(&at_place.content), tree.get(&os_path("a.rs")));
    }
    let tree = collect_files(&vec![nested], &root).unwrap();
    assert_eq!(Some(&b"nested".to_vec()), tree.get(&os_path("a.rs")));
}

#[test]
fn snapshot_put_replaces_a_file() {
    let mut tree = Snapshot::new();
    tree.put(os_path("a.rs"), b"one".to_vec());
    tree.put(os_path("b.rs"), b"two".to_vec());
    tree.put(os_path("a.rs"), b"three".to_vec());
    assert_eq!(2, tree.len());
    assert_eq!(Some(&b"three".to_vec()), tree.get(&os_path("a.rs")));
    assert_eq!(Some(&b"two".to_vec()), tree.get(&os_path("b.rs")));
}

fn step(from: &str, to: &str) -> CopyStep {
    CopyStep { from: os_path(from), to: os_path(to) }
}

/// What carrying out the steps of a commit leaves below the output
/// directory.
fn carried_out(steps: &[CopyStep], found: &[FileEntry]) -> Vec<FileEntry> {
    steps
        .iter()
        .map(|step| FileEntry {
            path: step.to.clone(),
            content: found.iter().find(|f| f.path == step.from).unwrap().content.clone(),
        })
        .collect()
}

#[test]
fn package_named_like_the_output_directory_is_committed_once() {
    let generated = vec![entry("/tmp/.tmpQ/proto_types.rs", "p"), entry("/tmp/.tmpQ/proto.rs", "q")];
    let tmp = os_path("/tmp/.tmpQ");
    let out = os_path("/work/proto");
    let new = collect_files(&generated, &tmp).unwrap();
    let plan = commit_plan(&generated, &tmp, &out, "index").unwrap();
    assert_eq!(
        vec![
            step("/tmp/.tmpQ/proto_types.rs", "/work/proto/proto_types.rs"),
            step("/tmp/.tmpQ/proto.rs", "/work/proto/proto.rs"),
        ],
        plan.files
    );
    let committed = collect_files(&carried_out(&plan.files, &generated), &out).unwrap();
    assert_eq!(Ok(0), run_diff(&committed, &new, Some(&plan.mod_file.content), "index"));
}

#[test]
fn commit_copies_the_tree_below_the_output_directory() {
    let generated =
        vec![entry("/tmp/t/my_proto.rs", "m"), entry("/tmp/t/imports/nested.rs", "n")];
    let out = os_path("/work/src/proto_types");
    let plan = commit_plan(&generated, &os_path("/tmp/t"), &out, "pub mod my_proto;\n").unwrap();
    assert_eq!(out, plan.reset_dir);
    assert_eq!(
        vec![
            step("/tmp/t/my_proto.rs", "/work/src/proto_types/my_proto.rs"),
            step("/tmp/t/imports/nested.rs", "/work/src/proto_types/imports/nested.rs"),
        ],
        plan.files
    );
    assert_eq!(entry("/work/src/proto_types.rs", "pub mod my_proto;\n"), plan.mod_file);
}

#[test]
fn commit_keeps_a_directory_named_like_the_temporary_one() {
    let generated = vec![entry("/tmp/t/t/a.rs", "a")];
    let plan = commit_plan(&generated, &os_path("/tmp/t"), &os_path("/w/out"), "").unwrap();
    assert_eq!(vec![step("/tmp/t/t/a.rs", "/w/out/t/a.rs")], plan.files);
}

#[test]
fn commit_needs_a_place_for_the_index() {
    let generated = vec![entry("/tmp/t/a.rs", "a")];
    let tmp = os_path("/tmp/t");
    assert_eq!(Some(GenError::NoFileName), commit_plan(&generated, &tmp, &os_path("/"), "").err());
    assert_eq!(
        Some(GenError::NoFileName),
        commit_plan(&generated, &tmp, &os_path("out/.."), "").err()
    );
    let odd = OsPath { components: vec![b"a".to_vec(), b"\xc3\x28".to_vec()] };
    assert_eq!(Some(GenError::NotUnicode), commit_plan(&generated, &tmp, &odd, "").err());
}

#[test]
fn commit_takes_only_files_below_the_source() {
    let generated = vec![entry("/tmp/t/a.rs", "a"), entry("/tmp/u/b.rs", "b")];
    let out = os_path("/w/out");
    assert_eq!(
        Some(GenError::RootNotFound),
        commit_plan(&generated, &os_path("/tmp/t"), &out, "").err()
    );
    assert_eq!(
        Some(GenError::RootNotFound),
        commit_plan(&generated, &os_path("/tmp/t/a.rs/x"), &out, "").err()
    );
    assert!(commit_plan(&generated, &os_path("/tmp"), &out, "").is_ok());
}

#[test]
fn second_commit_finds_nothing_to_do() {
    let generated = vec![
        entry("/tmp/.tmpXyZ/my_proto.rs", "m"),
        entry("/tmp/.tmpXyZ/imports/dependency.rs", "d"),
        entry("/tmp/.tmpXyZ/imports.rs", "pub mod dependency;\n"),
    ];
    let index = "pub mod imports;\npub mod my_proto;\n";
    let tmp = os_path("/tmp/.tmpXyZ");
    let output_dir = os_path("/work/src/proto_types");
    let new = collect_files(&generated, &tmp).unwrap();
    assert_eq!(Ok(4), run_diff(&Snapshot::new(), &new, None, index));
    let plan = commit_plan(&generated, &tmp, &output_dir, index).unwrap();
    let committed = collect_files(&carried_out(&plan.files, &generated), &output_dir).unwrap();
    assert_eq!(Ok(0), run_diff(&committed, &new, Some(&plan.mod_file.content), index));
    let again = commit_plan(&generated, &tmp, &output_dir, index).unwrap();
    assert_eq!(plan.files, again.files);
    assert_eq!(plan.mod_file, again.mod_file);
}

#[test]
fn vec_remove_takes_one_path_out() {
    let mut haystack = vec![os_path("a"), os_path("b/c"), os_path("d"), os_path("e")];
    assert!(!vec_remove(&os_path("b"), &mut haystack));
    assert_eq!(4, haystack.len());
    assert!(vec_remove(&os_path("b/c"), &mut haystack));
    assert_eq!(vec![os_path("a"), os_path("e"), os_path("d")], haystack);
    assert!(!vec_remove(&os_path("b/c"), &mut haystack));
    assert!(vec_remove(&os_path("d"), &mut haystack));
    assert!(vec_remove(&os_path("a"), &mut haystack));
    assert!(vec_remove(&os_path("e"), &mut haystack));
    assert!(haystack.is_empty());
    assert!(!vec_remove(&os_path("e"), &mut haystack));
}

#[test]
fn differences_are_listed_file_by_file() {
    let old = snapshot(&[("a.rs", "a"), ("gone.rs", "g"), ("dir/c.rs", "old"), ("same.rs", "s")]);
    let new = snapshot(&[("same.rs", "s"), ("dir/c.rs", "new"), ("a.rs", "a"), ("fresh.rs", "f")]);
    let report = list_diff(&old, &new, None, "index");
    assert_eq!(
        DiffReport {
            added: vec![os_path("fresh.rs")],
            changed: vec![os_path("dir/c.rs")],
            removed: vec![os_path("gone.rs")],
            index_differs: true,
        },
        report
    );
    assert_eq!(Some(4), report.count());
    let same = list_diff(&old, &old, Some(&b"index".to_vec()), "index");
    assert_eq!(
        DiffReport { added: vec![], changed: vec![], removed: vec![], index_differs: false },
        same
    );
    assert_eq!(Some(0), same.count());
}

#[test]
fn first_run_lists_every_file_as_new() {
    let new = snapshot(&[("b.rs", "b"), ("a.rs", "a")]);
    let report = list_diff(&Snapshot::new(), &new, None, "");
    assert_eq!(vec![os_path("b.rs"), os_path("a.rs")], report.added);
    assert!(report.changed.is_empty() && report.removed.is_empty() && report.index_differs);
    let mut gone = list_diff(&new, &Snapshot::new(), Some(&Vec::new()), "").removed;
    gone.sort_by(|a, b| a.components.cmp(&b.components));
    assert_eq!(vec![os_path("a.rs"), os_path("b.rs")], gone);
}
