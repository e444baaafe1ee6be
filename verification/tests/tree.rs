use proto_gen::error::GenError;
use proto_gen::module::{clean_up_file_structure, DirEntry, Module};
use proto_gen::ops::{prepend_header, relocated_content, FileOp};
use proto_gen::path::OsPath;
use proto_gen::workspace::GenOptions;
use std::path::Path;

fn os_path(path: &str) -> OsPath {
    OsPath {
        components: Path::new(path)
            .components()
            .map(|c| c.as_os_str().as_encoded_bytes().to_vec())
            .collect(),
    }
}

fn options(header: Option<&str>, attribute: Option<&str>) -> GenOptions {
    GenOptions {
        commit: true,
        format: None,
        prepend_header: header.map(str::to_string),
        toplevel_attribute: attribute.map(str::to_string),
    }
}

fn file(path: &str) -> DirEntry {
    DirEntry { path: os_path(path), is_file: true, len: 10 }
}

fn create_dir(dir: &str) -> FileOp {
    FileOp::CreateDir { dir: os_path(dir) }
}

fn relocate(source: &str, dest: &str, index: Option<&str>, remove_source: bool) -> FileOp {
    FileOp::Relocate {
        source: os_path(source),
        dest: os_path(dest),
        index: index.map(str::to_string),
        remove_source,
    }
}

fn write_index(dest: &str, content: &str) -> FileOp {
    FileOp::WriteIndex { dest: os_path(dest), content: content.to_string() }
}

const LINT: &str = "#![allow(clippy::doc_markdown, clippy::use_self)]\n";

#[test]
fn single_package_stays_where_it_is() {
    let out = os_path("/tmp/gen");
    let entries = vec![file("/tmp/gen/my_proto.rs")];
    let clean = clean_up_file_structure(&out, &entries, &options(None, None)).unwrap();
    assert_eq!(
        vec![relocate("/tmp/gen/my_proto.rs", "/tmp/gen/my_proto.rs", None, false)],
        clean.ops
    );
    assert_eq!(format!("{LINT}pub mod my_proto;\n"), clean.top_level_mod);
}

#[test]
fn nested_packages_become_nested_modules() {
    let out = os_path("/tmp/gen");
    let entries = vec![
        file("/tmp/gen/my_proto.rs"),
        file("/tmp/gen/imports.nested.rs"),
        file("/tmp/gen/imports.dependency.rs"),
    ];
    let clean = clean_up_file_structure(&out, &entries, &options(None, None)).unwrap();
    assert_eq!(
        vec![
            create_dir("/tmp/gen/imports"),
            relocate("/tmp/gen/imports.dependency.rs", "/tmp/gen/imports/dependency.rs", None, true),
            relocate("/tmp/gen/imports.nested.rs", "/tmp/gen/imports/nested.rs", None, true),
            write_index("/tmp/gen/imports.rs", "pub mod dependency;\npub mod nested;\n"),
            relocate("/tmp/gen/my_proto.rs", "/tmp/gen/my_proto.rs", None, false),
        ],
        clean.ops
    );
    assert_eq!(format!("{LINT}pub mod imports;\npub mod my_proto;\n"), clean.top_level_mod);
}

#[test]
fn order_of_the_entries_does_not_matter() {
    let out = os_path("/tmp/gen");
    let names = ["/tmp/gen/b.rs", "/tmp/gen/a.c.rs", "/tmp/gen/a.rs", "/tmp/gen/a.b.rs"];
    let forward: Vec<DirEntry> = names.iter().map(|n| file(n)).collect();
    let backward: Vec<DirEntry> = names.iter().rev().map(|n| file(n)).collect();
    let opts = options(None, None);
    let first = clean_up_file_structure(&out, &forward, &opts).unwrap();
    let second = clean_up_file_structure(&out, &backward, &opts).unwrap();
    assert_eq!(first.ops, second.ops);
    assert_eq!(first.top_level_mod, second.top_level_mod);
}

#[test]
fn package_and_package_below_it_are_merged() {
    let out = os_path("/tmp/gen");
    for entries in [
        vec![file("/tmp/gen/p.rs"), file("/tmp/gen/p.q.rs")],
        vec![file("/tmp/gen/p.q.rs"), file("/tmp/gen/p.rs")],
    ] {
        let clean = clean_up_file_structure(&out, &entries, &options(None, None)).unwrap();
        assert_eq!(
            vec![
                create_dir("/tmp/gen/p"),
                relocate("/tmp/gen/p.q.rs", "/tmp/gen/p/q.rs", None, true),
                relocate("/tmp/gen/p.rs", "/tmp/gen/p.rs", Some("pub mod q;\n"), false),
            ],
            clean.ops
        );
        assert_eq!(format!("{LINT}pub mod p;\n"), clean.top_level_mod);
    }
}

#[test]
fn merged_file_holds_the_index_and_the_cleaned_text() {
    let index = "pub mod q;\n".to_string();
    let raw = "/// P\n///     indented\npub struct P {}\n";
    assert_eq!(
        "pub mod q;\n\n/// P\n///```ignore\n///     indented\n///```\npub struct P {}\n",
        relocated_content(&options(None, None), Some(&index), raw)
    );
    assert_eq!(
        "/// P\n///```ignore\n///     indented\n///```\npub struct P {}\n",
        relocated_content(&options(None, None), None, raw)
    );
}

#[test]
fn header_goes_before_every_file() {
    let opts = options(Some("// @generated\n"), None);
    let out = os_path("/tmp/gen");
    let entries = vec![file("/tmp/gen/p.rs"), file("/tmp/gen/p.q.rs"), file("/tmp/gen/r.s.rs")];
    let clean = clean_up_file_structure(&out, &entries, &opts).unwrap();
    assert_eq!(
        vec![
            create_dir("/tmp/gen/p"),
            relocate("/tmp/gen/p.q.rs", "/tmp/gen/p/q.rs", None, true),
            relocate("/tmp/gen/p.rs", "/tmp/gen/p.rs", Some("// @generated\npub mod q;\n"), false),
            create_dir("/tmp/gen/r"),
            relocate("/tmp/gen/r.s.rs", "/tmp/gen/r/s.rs", None, true),
            write_index("/tmp/gen/r.rs", "// @generated\npub mod s;\n"),
        ],
        clean.ops
    );
    assert_eq!(format!("// @generated\n{LINT}pub mod p;\npub mod r;\n"), clean.top_level_mod);
    let index = "// @generated\npub mod q;\n".to_string();
    assert_eq!(
        "// @generated\n// @generated\npub mod q;\n\npub struct P {}\n",
        relocated_content(&opts, Some(&index), "pub struct P {}")
    );
    assert_eq!("// @generated\nx\n", relocated_content(&opts, None, "x\n"));
}

#[test]
fn index_is_written_as_it_stands() {
    let opts = options(Some("///     license\n"), None);
    let index = "///     license\npub mod q;\n".to_string();
    assert_eq!(
        "///     license\n///     license\npub mod q;\n\nx\n",
        relocated_content(&opts, Some(&index), "x\n")
    );
}

#[test]
fn attribute_of_the_top_level_follows_the_lint_line() {
    let out = os_path("/tmp/gen");
    let entries = vec![file("/tmp/gen/a.rs")];
    let opts = options(Some("// h\n"), Some("#![cfg(feature = \"proto\")]"));
    let clean = clean_up_file_structure(&out, &entries, &opts).unwrap();
    assert_eq!(
        format!("// h\n{LINT}#![cfg(feature = \"proto\")]\npub mod a;\n"),
        clean.top_level_mod
    );
}

#[test]
fn empty_directory_gives_an_empty_index() {
    let out = os_path("/tmp/gen");
    let clean = clean_up_file_structure(&out, &Vec::new(), &options(None, None)).unwrap();
    assert!(clean.ops.is_empty());
    assert_eq!(LINT, clean.top_level_mod);
}

#[test]
fn empty_files_are_deleted_and_directories_skipped() {
    let out = os_path("/tmp/gen");
    let entries = vec![
        DirEntry { path: os_path("/tmp/gen/google.protobuf.rs"), is_file: true, len: 0 },
        DirEntry { path: os_path("/tmp/gen/sub"), is_file: false, len: 4096 },
        file("/tmp/gen/a.rs"),
        DirEntry { path: os_path("/tmp/gen/empty"), is_file: true, len: 0 },
        DirEntry { path: os_path("/tmp/gen/link.rs"), is_file: false, len: 0 },
    ];
    let clean = clean_up_file_structure(&out, &entries, &options(None, None)).unwrap();
    assert_eq!(
        vec![
            FileOp::Remove { file: os_path("/tmp/gen/google.protobuf.rs") },
            FileOp::Remove { file: os_path("/tmp/gen/empty") },
            relocate("/tmp/gen/a.rs", "/tmp/gen/a.rs", None, false),
        ],
        clean.ops
    );
    assert_eq!(format!("{LINT}pub mod a;\n"), clean.top_level_mod);
}

#[test]
fn modules_are_ordered_by_the_bytes_of_their_names() {
    let out = os_path("/tmp/gen");
    let entries = vec![
        file("/tmp/gen/b.rs"),
        file("/tmp/gen/a_b.rs"),
        file("/tmp/gen/B.rs"),
        file("/tmp/gen/ab.rs"),
        file("/tmp/gen/\u{e9}.rs"),
        file("/tmp/gen/a.rs"),
        file("/tmp/gen/a1.rs"),
    ];
    let clean = clean_up_file_structure(&out, &entries, &options(None, None)).unwrap();
    assert_eq!(
        format!(
            "{LINT}pub mod B;\npub mod a;\npub mod a1;\npub mod a_b;\npub mod ab;\npub mod b;\npub mod \u{e9};\n"
        ),
        clean.top_level_mod
    );
    let mut names: Vec<&str> = vec!["b", "a_b", "B", "ab", "\u{e9}", "a", "a1"];
    names.sort();
    let expected: String = names.iter().map(|n| format!("pub mod {n};\n")).collect();
    assert_eq!(format!("{LINT}{expected}"), clean.top_level_mod);
}

#[test]
fn deep_package_makes_a_module_for_each_segment() {
    let out = os_path("/tmp/gen");
    let entries = vec![file("/tmp/gen/a.b.c.rs")];
    let clean = clean_up_file_structure(&out, &entries, &options(None, None)).unwrap();
    assert_eq!(
        vec![
            create_dir("/tmp/gen/a"),
            create_dir("/tmp/gen/a/b"),
            relocate("/tmp/gen/a.b.c.rs", "/tmp/gen/a/b/c.rs", None, true),
            write_index("/tmp/gen/a/b.rs", "pub mod c;\n"),
            write_index("/tmp/gen/a.rs", "pub mod b;\n"),
        ],
        clean.ops
    );
}

#[test]
fn raw_identifier_loses_its_mark_in_the_file_name() {
    let out = os_path("/tmp/gen");
    let entries = vec![file("/tmp/gen/r#type.rs"), file("/tmp/gen/a.r#mod.rs")];
    let clean = clean_up_file_structure(&out, &entries, &options(None, None)).unwrap();
    assert_eq!(
        vec![
            create_dir("/tmp/gen/a"),
            relocate("/tmp/gen/a.r#mod.rs", "/tmp/gen/a/mod.rs", None, true),
            write_index("/tmp/gen/a.rs", "pub mod r#mod;\n"),
            relocate("/tmp/gen/r#type.rs", "/tmp/gen/type.rs", None, true),
        ],
        clean.ops
    );
    assert_eq!(format!("{LINT}pub mod a;\npub mod r#type;\n"), clean.top_level_mod);
}

#[test]
fn second_file_for_a_package_is_refused() {
    let base = os_path("/tmp/gen");
    let mut tree = Module::new("dummy", &base);
    assert!(tree.has_room_for(&os_path("/tmp/gen/a.b.rs")));
    assert_eq!(Ok(()), tree.push_file(&base, &os_path("/tmp/gen/a.b.rs")));
    assert!(tree.has_room_for(&os_path("/tmp/gen/a.rs")));
    assert_eq!(Ok(()), tree.push_file(&base, &os_path("/tmp/gen/a.rs")));
    assert!(!tree.has_room_for(&os_path("/tmp/other/a.b.proto")));
    assert!(!tree.has_room_for(&os_path("/tmp/gen/a.rs")));
    assert!(tree.has_room_for(&os_path("/tmp/gen/a.c.rs")));
    assert!(tree.has_room_for(&os_path("/tmp/gen/a.b.c.rs")));
    assert!(tree.has_room_for(&os_path("/tmp/gen/b.rs")));
    assert!(tree.has_room_for(&os_path("/tmp/gen/Makefile")));
    assert_eq!(
        vec![
            create_dir("/tmp/gen/a"),
            relocate("/tmp/gen/a.b.rs", "/tmp/gen/a/b.rs", None, true),
            relocate("/tmp/gen/a.rs", "/tmp/gen/a.rs", Some("pub mod b;\n"), false),
        ],
        tree.dump_children(&options(None, None))
    );
    let entries = vec![file("/tmp/gen/a.rs"), file("/tmp/gen/b.rs"), file("/tmp/gen/a.txt")];
    assert_eq!(
        Some(GenError::DuplicateLeaf),
        clean_up_file_structure(&base, &entries, &options(None, None)).err()
    );
    let entries = vec![file("/tmp/gen/a.b.rs"), file("/tmp/gen/c.rs"), file("/tmp/gen/a.b.rs")];
    assert_eq!(
        Some(GenError::DuplicateLeaf),
        clean_up_file_structure(&base, &entries, &options(None, None)).err()
    );
}

#[test]
fn file_names_that_hold_no_package_are_refused() {
    let base = os_path("/tmp/gen");
    let mut tree = Module::new("dummy", &base);
    assert_eq!(Err(GenError::NoSuffix), tree.push_file(&base, &os_path("/tmp/gen/Makefile")));
    assert_eq!(Err(GenError::NoFileName), tree.push_file(&base, &os_path("/tmp/gen/..")));
    assert_eq!(Err(GenError::NoFileName), tree.push_file(&base, &OsPath::new()));
    let odd = OsPath { components: vec![b"tmp".to_vec(), b"\xc3\x28.rs".to_vec()] };
    assert_eq!(Err(GenError::NotUnicode), tree.push_file(&base, &odd));
    assert!(tree.dump_children(&options(None, None)).is_empty());
    assert_eq!(
        Some(GenError::NoSuffix),
        clean_up_file_structure(
            &base,
            &vec![file("/tmp/gen/a.rs"), file("/tmp/gen/Makefile")],
            &options(None, None)
        )
        .err()
    );
}

#[test]
fn package_name_is_taken_apart_at_each_dot() {
    let base = os_path("out");
    let mut tree = Module::new("dummy", &base);
    tree.push_recurse(&base, &os_path("x/one"), "a.b").unwrap();
    tree.push_recurse(&base, &os_path("x/two"), "a.c.d").unwrap();
    tree.push_recurse(&base, &os_path("x/three"), "e").unwrap();
    assert!(tree.holds_package("a.c.d"));
    assert!(tree.holds_package("a.b"));
    assert!(tree.holds_package("e"));
    assert!(!tree.holds_package("a"));
    assert!(!tree.holds_package("a.c"));
    assert!(!tree.holds_package("a.c.d.e"));
    assert!(!tree.holds_package("f"));
    assert!(!tree.holds_package(""));
    assert_eq!(
        vec![
            create_dir("out/a"),
            relocate("x/one", "out/a/b.rs", None, true),
            create_dir("out/a/c"),
            relocate("x/two", "out/a/c/d.rs", None, true),
            write_index("out/a/c.rs", "pub mod d;\n"),
            write_index("out/a.rs", "pub mod b;\npub mod c;\n"),
            relocate("x/three", "out/e.rs", None, true),
        ],
        tree.dump_children(&options(None, None))
    );
    assert_eq!(
        format!("{LINT}pub mod a;\npub mod e;\n"),
        tree.top_level_index(&options(None, None))
    );
}

#[test]
fn empty_segments_are_segments() {
    let base = os_path("out");
    let mut tree = Module::new("dummy", &base);
    tree.push_file(&base, &os_path("out/.rs")).unwrap();
    tree.push_file(&base, &os_path("out/a..rs")).unwrap();
    assert_eq!(
        vec![
            relocate("out/.rs", "out/.rs", None, false),
            create_dir("out/a"),
            relocate("out/a..rs", "out/a/.rs", None, true),
            write_index("out/a.rs", "pub mod ;\n"),
        ],
        tree.dump_children(&options(None, None))
    );
}

#[test]
fn module_knows_its_names() {
    let base = os_path("out");
    let plain = Module::new("my_proto", &base);
    assert_eq!("my_proto", plain.get_name());
    assert_eq!("my_proto", plain.proper_file_name());
    let raw = Module::new("r#type", &base);
    assert_eq!("r#type", raw.get_name());
    assert_eq!("type", raw.proper_file_name());
    assert_eq!("", Module::new("r#", &base).proper_file_name());
    assert_eq!("r", Module::new("r", &base).proper_file_name());
    assert_eq!("xr#a", Module::new("xr#a", &base).proper_file_name());
    assert!(plain.dump_to_disk(&options(None, None)).is_empty());
}

#[test]
fn header_is_put_before_the_text() {
    let mut text = "body\n".to_string();
    prepend_header(None, &mut text);
    assert_eq!("body\n", text);
    let header = "// h\u{e9}\n".to_string();
    prepend_header(Some(&header), &mut text);
    assert_eq!("// h\u{e9}\nbody\n", text);
}

#[test]
fn raw_identifier_and_plain_name_go_to_one_file() {
    let out = os_path("/tmp/gen");
    let entries = vec![file("/tmp/gen/a.rs"), file("/tmp/gen/r#a.rs")];
    let clean = clean_up_file_structure(&out, &entries, &options(None, None)).unwrap();
    assert_eq!(
        vec![
            relocate("/tmp/gen/a.rs", "/tmp/gen/a.rs", None, false),
            relocate("/tmp/gen/r#a.rs", "/tmp/gen/a.rs", None, true),
        ],
        clean.ops
    );
    assert_eq!(format!("{LINT}pub mod a;\npub mod r#a;\n"), clean.top_level_mod);
}
