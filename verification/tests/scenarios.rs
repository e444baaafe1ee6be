use proto_gen::commit::commit_plan;
use proto_gen::diff::{collect_files, run_diff, FileEntry};
use proto_gen::module::{clean_up_file_structure, DirEntry};
use proto_gen::ops::{relocated_content, FileOp};
use proto_gen::path::{has_ext, OsPath};
use proto_gen::run::{advance, first_phase, Event, Phase, Verdict};
use proto_gen::sanitize::hide_doctests;
use proto_gen::workspace::GenOptions;
use std::collections::BTreeMap;
use std::path::Path;

fn os_path(path: &str) -> OsPath {
    OsPath {
        components: Path::new(path)
            .components()
            .map(|c| c.as_os_str().as_encoded_bytes().to_vec())
            .collect(),
    }
}

fn options(commit: bool, format: bool) -> GenOptions {
    GenOptions {
        commit,
        format: if format { Some("2021".to_string()) } else { None },
        prepend_header: Some("// @generated\n".to_string()),
        toplevel_attribute: None,
    }
}

/// A disk held in memory: the bytes of each file by the components of its
/// path.
type Disk = BTreeMap<Vec<Vec<u8>>, Vec<u8>>;

fn write(disk: &mut Disk, path: &str, content: &str) {
    disk.insert(os_path(path).components, content.as_bytes().to_vec());
}

fn list(disk: &Disk) -> Vec<DirEntry> {
    disk.iter()
        .map(|(path, content)| DirEntry {
            path: OsPath { components: path.clone() },
            is_file: true,
            len: content.len() as u64,
        })
        .collect()
}

fn files_below(disk: &Disk, dir: &OsPath) -> Vec<FileEntry> {
    disk.iter()
        .filter(|(path, _)| path.len() > dir.components.len() && path.starts_with(&dir.components))
        .map(|(path, content)| FileEntry {
            path: OsPath { components: path.clone() },
            content: content.clone(),
        })
        .collect()
}

fn carry_out(disk: &mut Disk, ops: &[FileOp], opts: &GenOptions) {
    for op in ops {
        match op {
            FileOp::CreateDir { .. } => {}
            FileOp::Remove { file } => {
                assert!(disk.remove(&file.components).is_some());
            }
            FileOp::Relocate { source, dest, index, remove_source } => {
                let raw = String::from_utf8(disk[&source.components].clone()).unwrap();
                let clean = relocated_content(opts, index.as_ref(), &raw);
                disk.insert(dest.components.clone(), clean.into_bytes());
                assert_eq!(*remove_source, source != dest);
                if *remove_source {
                    disk.remove(&source.components);
                }
            }
            FileOp::WriteIndex { dest, content } => {
                disk.insert(dest.components.clone(), content.clone().into_bytes());
            }
        }
    }
}

/// What stands in for the formatter: it takes indentation off.
fn format_text(text: &str) -> String {
    text.lines().map(|l| format!("{}\n", l.trim_start())).collect()
}

/// One run over the disk in memory, from the generated files to the end.
fn run(disk: &mut Disk, generated: &[(&str, &str)], opts: &GenOptions) -> Verdict {
    let tmp = os_path("/tmp/.tmpRun");
    let out = os_path("/work/src/proto_types");
    let index_path = os_path("/work/src/proto_types.rs").components;
    let mut phase = first_phase();
    let mut top = String::new();
    let mut new_found: Vec<FileEntry> = Vec::new();
    loop {
        let event = match phase {
            Phase::Generate => {
                disk.retain(|path, _| !path.starts_with(&tmp.components));
                for (name, content) in generated {
                    write(disk, &format!("/tmp/.tmpRun/{name}"), content);
                }
                Event::Done
            }
            Phase::Reshape => {
                let entries = list(disk)
                    .into_iter()
                    .filter(|e| e.path.components.starts_with(&tmp.components))
                    .collect();
                let clean = clean_up_file_structure(&tmp, &entries, opts).unwrap();
                carry_out(disk, &clean.ops, opts);
                top = clean.top_level_mod;
                Event::Done
            }
            Phase::Format => {
                for (path, content) in disk.iter_mut() {
                    let is_source = has_ext(&OsPath { components: path.clone() }, "rs");
                    if path.starts_with(&tmp.components) && is_source {
                        *content = format_text(std::str::from_utf8(content).unwrap()).into_bytes();
                    }
                }
                top = format_text(&top);
                Event::Done
            }
            Phase::Diff => {
                let old = collect_files(&files_below(disk, &out), &out).unwrap();
                new_found = files_below(disk, &tmp);
                let new_tree = collect_files(&new_found, &tmp).unwrap();
                Event::Diffed(run_diff(&old, &new_tree, disk.get(&index_path), &top).unwrap())
            }
            Phase::Commit => {
                let plan = commit_plan(&new_found, &tmp, &out, &top).unwrap();
                disk.retain(|path, _| !path.starts_with(&plan.reset_dir.components));
                for step in plan.files {
                    let content = disk[&step.from.components].clone();
                    disk.insert(step.to.components, content);
                }
                disk.insert(plan.mod_file.path.components, plan.mod_file.content);
                Event::Done
            }
            Phase::Finished(verdict) => return verdict,
        };
        phase = advance(phase, event, opts);
    }
}

const MY_PROTO: &str = "/// My comment\npub struct TestMessage {\n    /// My field comment!\n    pub field_one: i32,\n}\npub struct MyNestedMessage {\n    pub some_field: i32,\n}\n";

fn text(disk: &Disk, path: &str) -> String {
    String::from_utf8(disk[&os_path(path).components].clone()).unwrap()
}

#[test]
fn single_file_project_is_generated_then_validated() {
    let mut disk = Disk::new();
    let generated = [("my_proto.rs", MY_PROTO)];
    assert_eq!(Verdict::Committed, run(&mut disk, &generated, &options(true, true)));
    assert_eq!(
        vec![os_path("/work/src/proto_types/my_proto.rs")],
        files_below(&disk, &os_path("/work/src/proto_types"))
            .into_iter()
            .map(|f| f.path)
            .collect::<Vec<OsPath>>()
    );
    assert_eq!(
        "// @generated\n#![allow(clippy::doc_markdown, clippy::use_self)]\npub mod my_proto;\n",
        text(&disk, "/work/src/proto_types.rs")
    );
    assert_eq!(
        format_text(&format!("// @generated\n{MY_PROTO}")),
        text(&disk, "/work/src/proto_types/my_proto.rs")
    );
    // Validate it's the same after generation
    assert_eq!(Verdict::Unchanged, run(&mut disk, &generated, &options(false, true)));
    // Validate it's not the same if specifying no fmt
    assert_eq!(Verdict::DiffFound(1), run(&mut disk, &generated, &options(false, false)));
}

#[test]
fn second_commit_of_the_same_tree_changes_nothing() {
    let mut disk = Disk::new();
    let generated = [("my_proto.rs", MY_PROTO), ("imports.nested.rs", "pub struct N;\n")];
    assert_eq!(Verdict::Committed, run(&mut disk, &generated, &options(true, false)));
    let after_first = files_below(&disk, &os_path("/work"));
    assert_eq!(Verdict::Unchanged, run(&mut disk, &generated, &options(true, false)));
    assert_eq!(after_first, files_below(&disk, &os_path("/work")));
}

#[test]
fn nested_project_is_generated() {
    let mut disk = Disk::new();
    let generated = [
        ("my_proto.rs", MY_PROTO),
        ("imports.dependency.rs", "pub struct Dependency {\n    pub my_dep_field: i64,\n}\n"),
        ("imports.nested.rs", "pub struct NestedOne {}\npub struct NestedTransitiveMsg {}\n"),
        ("google.protobuf.rs", ""),
    ];
    assert_eq!(Verdict::Committed, run(&mut disk, &generated, &options(true, false)));
    let committed: Vec<OsPath> = files_below(&disk, &os_path("/work"))
        .into_iter()
        .map(|f| f.path)
        .collect();
    assert_eq!(
        vec![
            os_path("/work/src/proto_types/imports/dependency.rs"),
            os_path("/work/src/proto_types/imports/nested.rs"),
            os_path("/work/src/proto_types/imports.rs"),
            os_path("/work/src/proto_types/my_proto.rs"),
            os_path("/work/src/proto_types.rs"),
        ],
        committed
    );
    for path in &committed {
        assert!(!disk[&path.components].is_empty());
    }
    assert_eq!(
        "// @generated\npub mod dependency;\npub mod nested;\n",
        text(&disk, "/work/src/proto_types/imports.rs")
    );
    assert_eq!(
        "// @generated\n#![allow(clippy::doc_markdown, clippy::use_self)]\npub mod imports;\npub mod my_proto;\n",
        text(&disk, "/work/src/proto_types.rs")
    );
    assert_eq!(
        "// @generated\npub struct Dependency {\n    pub my_dep_field: i64,\n}\n",
        text(&disk, "/work/src/proto_types/imports/dependency.rs")
    );
}

#[test]
fn changed_schema_is_found_by_a_validation() {
    let mut disk = Disk::new();
    let opts = options(true, false);
    let first = [("a.rs", "pub struct A;\n"), ("b.rs", "pub struct B;\n"), ("c.d.rs", "pub struct D;\n")];
    assert_eq!(Verdict::Committed, run(&mut disk, &first, &opts));
    let second = [("a.rs", "pub struct A2;\n"), ("c.d.rs", "pub struct D;\n"), ("e.rs", "pub struct E;\n")];
    // a.rs changed, b.rs gone, e.rs new, and the index of the top level differs.
    assert_eq!(Verdict::DiffFound(4), run(&mut disk, &second, &options(false, false)));
    assert_eq!("// @generated\npub struct B;\n", text(&disk, "/work/src/proto_types/b.rs"));
    assert_eq!(Verdict::Committed, run(&mut disk, &second, &opts));
    assert!(!disk.contains_key(&os_path("/work/src/proto_types/b.rs").components));
    assert_eq!("// @generated\npub struct A2;\n", text(&disk, "/work/src/proto_types/a.rs"));
    assert_eq!(Verdict::Unchanged, run(&mut disk, &second, &options(false, false)));
}

#[test]
fn lines_are_what_std_calls_lines() {
    let samples = [
        "",
        "\n",
        "a",
        "a\n",
        "a\nb",
        "a\r\nb\r\n",
        "a\r",
        "\r\n\r\n",
        "\r\r\n",
        "a\n\nb\n\n",
        "\u{e9}\r\n\u{1F600}",
        "x\ry\nz\r",
    ];
    for sample in samples {
        let expected: String = sample.lines().map(|l| format!("{l}\n")).collect();
        assert_eq!(expected, hide_doctests(sample), "{sample:?}");
    }
}
