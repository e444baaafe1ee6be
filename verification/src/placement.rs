//! Where the steps that put a tree on disk move the generated files to:
//! each file of a package goes to the directory that the segments of the
//! package's name lead to.

use crate::lookup::{
    leads_to, lemma_position_exists, lemma_pushed_keeps, lemma_pushed_leaf, lemma_pushed_nodes,
    lemma_pushed_other, lemma_pushed_wf, segments_of,
};
use crate::module::{clean_up_ops, removals, root_name, synthesized, synthesized_root, DirEntry};
use crate::ops::FileOpView;
use crate::path::{file_name_text, source_suffix};
use crate::text::{occurs_at, split_once, starts_with};
use crate::tree::{
    child_index, empty_module, export_line, export_lines, lemma_child_index_is, package_of,
    proper_name, raw_prefix, segment_dot, ModuleView,
};
use vstd::prelude::*;
use vstd::utf8::encode_utf8;

verus! {

/// Where the file of a package is kept whose segments lead down from the
/// directory `dir`: in the directory that all segments but the last lead
/// to, under the last segment and the suffix of source files.
pub open spec fn place_of(dir: Seq<Seq<u8>>, segments: Seq<Seq<char>>) -> Seq<Seq<u8>>
    decreases segments.len(),
{
    if segments.len() <= 1 {
        dir.push(encode_utf8(proper_name(segments[0]) + source_suffix()))
    } else {
        place_of(dir.push(encode_utf8(segments[0])), segments.drop_first())
    }
}

/// The place of a package's file lies as many directories below `dir` as
/// the package's name has segments before the last.
pub proof fn lemma_place_below_dir(dir: Seq<Seq<u8>>, segments: Seq<Seq<char>>)
    requires
        segments.len() > 0,
    ensures
        place_of(dir, segments).len() == dir.len() + segments.len(),
        place_of(dir, segments).subrange(0, dir.len() as int) == dir,
    decreases segments.len(),
{
    if segments.len() > 1 {
        let below = dir.push(encode_utf8(segments[0]));
        lemma_place_below_dir(below, segments.drop_first());
    }
}

/// The files of two packages are kept in two places, unless the last
/// segment of one of the names bears the mark of a raw identifier.
pub proof fn lemma_places_differ(dir: Seq<Seq<u8>>, a: Seq<Seq<char>>, b: Seq<Seq<char>>)
    requires
        a.len() > 0,
        b.len() > 0,
        a != b,
        !starts_with(a.last(), raw_prefix()),
        !starts_with(b.last(), raw_prefix()),
    ensures
        place_of(dir, a) != place_of(dir, b),
    decreases a.len(),
{
    lemma_place_below_dir(dir, a);
    lemma_place_below_dir(dir, b);
    if a.len() == b.len() {
        if a.len() == 1 {
            assert(a[0] != b[0]) by {
                if a[0] == b[0] {
                    assert(a =~= b);
                }
            }
            let x = a[0] + source_suffix();
            let y = b[0] + source_suffix();
            assert(x != y) by {
                if x == y {
                    assert(a[0] =~= x.subrange(0, a[0].len() as int));
                    assert(b[0] =~= y.subrange(0, b[0].len() as int));
                }
            }
            vstd::utf8::encode_utf8_decode_utf8(x);
            vstd::utf8::encode_utf8_decode_utf8(y);
            assert(dir.push(encode_utf8(x)).last() != dir.push(encode_utf8(y)).last());
        } else {
            let below_a = dir.push(encode_utf8(a[0]));
            let below_b = dir.push(encode_utf8(b[0]));
            if a[0] == b[0] {
                assert(a.drop_first() != b.drop_first()) by {
                    if a.drop_first() == b.drop_first() {
                        assert(a =~= seq![a[0]] + a.drop_first());
                        assert(b =~= seq![b[0]] + b.drop_first());
                    }
                }
                lemma_places_differ(below_a, a.drop_first(), b.drop_first());
            } else {
                vstd::utf8::encode_utf8_decode_utf8(a[0]);
                vstd::utf8::encode_utf8_decode_utf8(b[0]);
                lemma_place_below_dir(below_a, a.drop_first());
                lemma_place_below_dir(below_b, b.drop_first());
                let n = dir.len() as int;
                assert(place_of(dir, a).subrange(0, n + 1)[n] == below_a[n]);
            }
        }
    }
}

/// One of the steps moves the file `source` to `dest`.
pub open spec fn relocates(ops: Seq<FileOpView>, source: Seq<Seq<u8>>, dest: Seq<Seq<u8>>) -> bool {
    exists|k: int|
        0 <= k < ops.len() && (#[trigger] ops[k]) is Relocate && ops[k]->source == source
            && ops[k]->Relocate_dest == dest
}

/// A step of one of two lists of steps is a step of the two joined.
pub proof fn lemma_relocates_in_concat(
    a: Seq<FileOpView>,
    b: Seq<FileOpView>,
    source: Seq<Seq<u8>>,
    dest: Seq<Seq<u8>>,
)
    requires
        relocates(a, source, dest) || relocates(b, source, dest),
    ensures
        relocates(a + b, source, dest),
{
    if relocates(a, source, dest) {
        let k = choose|k: int|
            0 <= k < a.len() && (#[trigger] a[k]) is Relocate && a[k]->source == source
                && a[k]->Relocate_dest == dest;
        assert((a + b)[k] == a[k]);
    } else {
        let k = choose|k: int|
            0 <= k < b.len() && (#[trigger] b[k]) is Relocate && b[k]->source == source
                && b[k]->Relocate_dest == dest;
        assert((a + b)[a.len() + k] == b[k]);
    }
}

/// A step of two lists of steps joined is a step of one of them.
pub proof fn lemma_relocates_of_concat(
    a: Seq<FileOpView>,
    b: Seq<FileOpView>,
    source: Seq<Seq<u8>>,
    dest: Seq<Seq<u8>>,
)
    requires
        relocates(a + b, source, dest),
    ensures
        relocates(a, source, dest) || relocates(b, source, dest),
{
}

/// What a module's steps move is moved by the steps of the module above,
/// once they reach that module.
pub proof fn lemma_child_plan_in_plan_below(
    m: ModuleView,
    header: Seq<char>,
    i: int,
    n: int,
    source: Seq<Seq<u8>>,
    dest: Seq<Seq<u8>>,
)
    requires
        0 <= i < n <= m.children.len(),
        relocates(m.children[i].plan(header), source, dest),
    ensures
        relocates(m.plan_below(header, n), source, dest),
    decreases n,
{
    if i < n - 1 {
        lemma_child_plan_in_plan_below(m, header, i, n - 1, source, dest);
    }
    lemma_relocates_in_concat(
        m.plan_below(header, n - 1),
        m.children[n - 1].plan(header),
        source,
        dest,
    );
}

/// What the steps for the modules below a module move is moved by the
/// steps of one of these modules.
pub proof fn lemma_plan_below_from_child(
    m: ModuleView,
    header: Seq<char>,
    n: int,
    source: Seq<Seq<u8>>,
    dest: Seq<Seq<u8>>,
) -> (i: int)
    requires
        0 <= n <= m.children.len(),
        relocates(m.plan_below(header, n), source, dest),
    ensures
        0 <= i < n,
        relocates(m.children[i].plan(header), source, dest),
    decreases n,
{
    if n == 0 {
        assert(false);
        0
    } else {
        lemma_relocates_of_concat(
            m.plan_below(header, n - 1),
            m.children[n - 1].plan(header),
            source,
            dest,
        );
        if relocates(m.children[n - 1].plan(header), source, dest) {
            n - 1
        } else {
            lemma_plan_below_from_child(m, header, n - 1, source, dest)
        }
    }
}

/// The steps of a module are the step for its directory, the steps of the
/// modules below, and the step for its own file: what they move, one of
/// the latter two moves.
pub proof fn lemma_plan_parts(
    m: ModuleView,
    header: Seq<char>,
    source: Seq<Seq<u8>>,
    dest: Seq<Seq<u8>>,
)
    ensures
        relocates(m.plan(header), source, dest) <==> relocates(
            m.plan_below(header, m.children.len() as int),
            source,
            dest,
        ) && m.children.len() > 0 || relocates(m.own_ops(header), source, dest),
{
    let below = m.plan_below(header, m.children.len() as int);
    let own = m.own_ops(header);
    if m.children.len() > 0 {
        let first = seq![FileOpView::CreateDir { dir: m.dir() }];
        if relocates(m.plan(header), source, dest) {
            lemma_relocates_of_concat(first + below, own, source, dest);
            if relocates(first + below, source, dest) {
                lemma_relocates_of_concat(first, below, source, dest);
            }
        }
        if relocates(below, source, dest) {
            lemma_relocates_in_concat(first, below, source, dest);
            lemma_relocates_in_concat(first + below, own, source, dest);
        }
        if relocates(own, source, dest) {
            lemma_relocates_in_concat(first + below, own, source, dest);
        }
    }
}

/// Every generated file of the tree is moved to its place: where the
/// package with the given segments has the file `file`, one of the steps
/// that put the modules below `m` on disk moves `file` to the place that
/// the segments lead to.
pub proof fn lemma_leaf_is_placed(
    m: ModuleView,
    dir: Seq<Seq<u8>>,
    header: Seq<char>,
    segments: Seq<Seq<char>>,
)
    requires
        m.placed(dir),
        segments.len() > 0,
        m.leaf_at(segments) is Some,
    ensures
        relocates(
            m.plan_below(header, m.children.len() as int),
            m.leaf_at(segments)->0,
            place_of(dir, segments),
        ),
    decreases segments.len(),
{
    let file = m.leaf_at(segments)->0;
    let dest = place_of(dir, segments);
    let i = child_index(m.children, segments[0])->0;
    let child = m.children[i];
    if segments.len() == 1 {
        let own = child.own_ops(header);
        assert(own[0] is Relocate && own[0]->source == file && own[0]->Relocate_dest == dest);
    } else {
        let tail = segments.drop_first();
        lemma_leaf_is_placed(child, dir.push(encode_utf8(child.name)), header, tail);
    }
    lemma_plan_parts(child, header, file, dest);
    lemma_child_plan_in_plan_below(m, header, i, m.children.len() as int, file, dest);
}

/// Nothing else is moved: whatever one of the steps that put the modules
/// below `m` on disk moves is the file of a package of the tree, and goes
/// to the place that the segments of the package lead to.
pub proof fn lemma_placed_is_leaf(
    m: ModuleView,
    dir: Seq<Seq<u8>>,
    header: Seq<char>,
    source: Seq<Seq<u8>>,
    dest: Seq<Seq<u8>>,
) -> (segments: Seq<Seq<char>>)
    requires
        m.wf(),
        m.placed(dir),
        relocates(m.plan_below(header, m.children.len() as int), source, dest),
    ensures
        segments.len() > 0,
        m.leaf_at(segments) == Some(source),
        dest == place_of(dir, segments),
    decreases m,
{
    let i = lemma_plan_below_from_child(m, header, m.children.len() as int, source, dest);
    let child = m.children[i];
    lemma_child_index_is(m.children, child.name, i);
    lemma_plan_parts(child, header, source, dest);
    if relocates(child.plan_below(header, child.children.len() as int), source, dest)
        && child.children.len() > 0 {
        let tail = lemma_placed_is_leaf(
            child,
            dir.push(encode_utf8(child.name)),
            header,
            source,
            dest,
        );
        let segments = seq![child.name] + tail;
        assert(segments.drop_first() =~= tail);
        segments
    } else {
        let segments = seq![child.name];
        assert(m.leaf_at(segments) == child.leaf_at(segments.drop_first()));
        segments
    }
}

/// Where the index of a module is written that has no generated file of
/// its own: in the directory that all segments but the last lead to, under
/// the last segment and the suffix of source files.
pub open spec fn index_place(dir: Seq<Seq<u8>>, segments: Seq<Seq<char>>) -> Seq<Seq<u8>>
    decreases segments.len(),
{
    if segments.len() <= 1 {
        dir.push(encode_utf8(segments[0] + source_suffix()))
    } else {
        index_place(dir.push(encode_utf8(segments[0])), segments.drop_first())
    }
}

/// The step that writes the index of the module `node`, which the
/// segments lead to.
pub open spec fn index_step(
    dir: Seq<Seq<u8>>,
    segments: Seq<Seq<char>>,
    node: ModuleView,
    header: Seq<char>,
) -> FileOpView {
    FileOpView::WriteIndex { dest: index_place(dir, segments), content: node.index_text(header) }
}

/// A step of two lists of steps joined is a step of one of them.
pub proof fn lemma_step_in_concat(a: Seq<FileOpView>, b: Seq<FileOpView>, step: FileOpView)
    ensures
        (a + b).contains(step) <==> a.contains(step) || b.contains(step),
{
    if a.contains(step) {
        let k = choose|k: int| 0 <= k < a.len() && a[k] == step;
        assert((a + b)[k] == step);
    }
    if b.contains(step) {
        let k = choose|k: int| 0 <= k < b.len() && b[k] == step;
        assert((a + b)[a.len() + k] == step);
    }
    if (a + b).contains(step) {
        let k = choose|k: int| 0 <= k < (a + b).len() && (a + b)[k] == step;
        if k < a.len() {
            assert(a[k] == step);
        } else {
            assert(b[k - a.len()] == step);
        }
    }
}

/// A step for the first `n` modules below a module is a step of one of
/// them.
pub proof fn lemma_step_in_plan_below(m: ModuleView, header: Seq<char>, n: int, step: FileOpView)
    requires
        0 <= n <= m.children.len(),
    ensures
        m.plan_below(header, n).contains(step) <==> exists|i: int|
            0 <= i < n && (#[trigger] m.children[i]).plan(header).contains(step),
    decreases n,
{
    if n > 0 {
        lemma_step_in_plan_below(m, header, n - 1, step);
        lemma_step_in_concat(m.plan_below(header, n - 1), m.children[n - 1].plan(header), step);
        if m.plan_below(header, n - 1).contains(step) {
            let i = choose|i: int|
                0 <= i < n - 1 && (#[trigger] m.children[i]).plan(header).contains(step);
            assert(m.children[i].plan(header).contains(step));
        }
        if exists|i: int| 0 <= i < n && (#[trigger] m.children[i]).plan(header).contains(step) {
            let i = choose|i: int|
                0 <= i < n && (#[trigger] m.children[i]).plan(header).contains(step);
            if i < n - 1 {
                assert(m.children[i].plan(header).contains(step));
            }
        }
    }
}

/// A step that makes no directory is, among the steps of a module, a step
/// for the modules below it or the step for its own file.
pub proof fn lemma_step_in_plan(m: ModuleView, header: Seq<char>, step: FileOpView)
    requires
        step !is CreateDir,
    ensures
        m.plan(header).contains(step) <==> m.children.len() > 0 && m.plan_below(
            header,
            m.children.len() as int,
        ).contains(step) || m.own_ops(header).contains(step),
{
    let below = m.plan_below(header, m.children.len() as int);
    let own = m.own_ops(header);
    if m.children.len() > 0 {
        let first = seq![FileOpView::CreateDir { dir: m.dir() }];
        lemma_step_in_concat(first + below, own, step);
        lemma_step_in_concat(first, below, step);
        if first.contains(step) {
            let k = choose|k: int| 0 <= k < first.len() && first[k] == step;
            assert(first[k] is CreateDir);
        }
    }
}

/// Every module without a generated file gets its index: where the
/// segments lead to such a module, one of the steps that put the modules
/// below `m` on disk writes the module's index to the place that the
/// segments lead to.
pub proof fn lemma_index_is_written(
    m: ModuleView,
    dir: Seq<Seq<u8>>,
    header: Seq<char>,
    segments: Seq<Seq<char>>,
)
    requires
        m.placed(dir),
        segments.len() > 0,
        m.node_at(segments) is Some,
        m.node_at(segments)->0.file is None,
        m.node_at(segments)->0.children.len() > 0,
    ensures
        m.plan_below(header, m.children.len() as int).contains(
            index_step(dir, segments, m.node_at(segments)->0, header),
        ),
    decreases segments.len(),
{
    let node = m.node_at(segments)->0;
    let step = index_step(dir, segments, node, header);
    let i = child_index(m.children, segments[0])->0;
    let child = m.children[i];
    assert(child.location == dir);
    if segments.len() == 1 {
        assert(segments.drop_first().len() == 0);
        assert(child == node);
        assert(child.own_ops(header)[0] == step);
    } else {
        let tail = segments.drop_first();
        assert(child.node_at(tail) == Some(node));
        assert(child_index(child.children, tail[0]) is Some);
        lemma_index_is_written(child, dir.push(encode_utf8(child.name)), header, tail);
    }
    lemma_step_in_plan(child, header, step);
    lemma_step_in_plan_below(m, header, m.children.len() as int, step);
}

/// No other index is written: whatever index one of the steps that put
/// the modules below `m` on disk writes is the index of a module without a
/// generated file, and goes to the place that the segments lead to which
/// lead to the module.
pub proof fn lemma_written_index_is_of_node(
    m: ModuleView,
    dir: Seq<Seq<u8>>,
    header: Seq<char>,
    step: FileOpView,
) -> (segments: Seq<Seq<char>>)
    requires
        m.wf(),
        m.placed(dir),
        step is WriteIndex,
        m.plan_below(header, m.children.len() as int).contains(step),
    ensures
        segments.len() > 0,
        m.node_at(segments) is Some,
        m.node_at(segments)->0.file is None,
        m.node_at(segments)->0.children.len() > 0,
        step == index_step(dir, segments, m.node_at(segments)->0, header),
    decreases m,
{
    lemma_step_in_plan_below(m, header, m.children.len() as int, step);
    let i = choose|i: int|
        0 <= i < m.children.len() && (#[trigger] m.children[i]).plan(header).contains(step);
    let child = m.children[i];
    assert(child.location == dir);
    lemma_child_index_is(m.children, child.name, i);
    lemma_step_in_plan(child, header, step);
    if child.children.len() > 0 && child.plan_below(header, child.children.len() as int).contains(
        step,
    ) {
        let tail = lemma_written_index_is_of_node(
            child,
            dir.push(encode_utf8(child.name)),
            header,
            step,
        );
        let segments = seq![child.name] + tail;
        assert(segments.drop_first() =~= tail);
        assert(segments[0] == child.name);
        assert(m.node_at(segments) == child.node_at(tail));
        segments
    } else {
        assert(child.file is None);
        let segments = seq![child.name];
        assert(segments.drop_first() =~= Seq::<Seq<char>>::empty());
        assert(segments[0] == child.name);
        assert(m.node_at(segments) == child.node_at(segments.drop_first()));
        segments
    }
}

/// A generated file that is moved away from where it was found is deleted
/// there: each step that moves a file deletes the file's source exactly
/// where the file is not in its place already.
pub proof fn lemma_moved_file_is_removed(m: ModuleView, header: Seq<char>, step: FileOpView)
    requires
        step is Relocate,
        m.plan_below(header, m.children.len() as int).contains(step),
    ensures
        step->remove_source == (step->source != step->Relocate_dest),
    decreases m,
{
    lemma_step_in_plan_below(m, header, m.children.len() as int, step);
    let i = choose|i: int|
        0 <= i < m.children.len() && (#[trigger] m.children[i]).plan(header).contains(step);
    let child = m.children[i];
    lemma_step_in_plan(child, header, step);
    if child.children.len() > 0 && child.plan_below(header, child.children.len() as int).contains(
        step,
    ) {
        lemma_moved_file_is_removed(child, header, step);
    } else {
        let own = child.own_ops(header);
        let k = choose|k: int| 0 <= k < own.len() && own[k] == step;
        assert(own[k] == step);
    }
}

/// A module of a well-formed tree that segments lead to holds something:
/// a generated file, or modules below it.
pub proof fn lemma_node_is_solid(m: ModuleView, segments: Seq<Seq<char>>)
    requires
        m.wf(),
        segments.len() > 0,
        m.node_at(segments) is Some,
    ensures
        m.node_at(segments)->0.solid(),
        m.node_at(segments)->0.wf(),
    decreases segments.len(),
{
    let i = child_index(m.children, segments[0])->0;
    let child = m.children[i];
    assert(child.solid() && child.wf());
    assert(m.node_at(segments) == child.node_at(segments.drop_first()));
    if segments.len() > 1 {
        lemma_node_is_solid(child, segments.drop_first());
    } else {
        assert(segments.drop_first().len() == 0);
        assert(child.node_at(segments.drop_first()) == Some(child));
    }
}

/// Putting a file below a module whose modules lie where they belong
/// leaves them where they belong.
pub proof fn lemma_pushed_placed(
    m: ModuleView,
    parent: Seq<Seq<u8>>,
    file: Seq<Seq<u8>>,
    raw_name: Seq<char>,
)
    requires
        m.wf(),
        m.placed(parent),
        m.pushed(parent, file, raw_name) is Ok,
    ensures
        m.pushed(parent, file, raw_name)->Ok_0.placed(parent),
    decreases raw_name.len(),
{
    let after = m.pushed(parent, file, raw_name)->Ok_0;
    match split_once(raw_name, segment_dot()) {
        Some((cur, rest)) => {
            let below = parent.push(encode_utf8(cur));
            match child_index(m.children, cur) {
                Some(i) => {
                    let child = m.children[i].pushed(below, file, rest)->Ok_0;
                    lemma_pushed_keeps(m.children[i], below, file, rest);
                    lemma_pushed_placed(m.children[i], below, file, rest);
                },
                None => {
                    let fresh = empty_module(cur, parent);
                    let child = fresh.pushed(below, file, rest)->Ok_0;
                    lemma_pushed_keeps(fresh, below, file, rest);
                    lemma_pushed_placed(fresh, below, file, rest);
                    lemma_position_exists(m.children, cur);
                },
            }
        },
        None => {
            match child_index(m.children, raw_name) {
                Some(i) => {
                    let child = m.children[i].with_file(file);
                    assert(child.placed(parent.push(encode_utf8(child.name)))) by {
                        assert(m.children[i].placed(parent.push(encode_utf8(m.children[i].name))));
                    }
                },
                None => {
                    lemma_position_exists(m.children, raw_name);
                    assert forall|k: int| 0 <= k < after.children.len() implies (
                    #[trigger] after.children[k]).location == parent && after.children[k].placed(
                        parent.push(encode_utf8(after.children[k].name)),
                    ) by {
                    }
                },
            }
        },
    }
}

/// The tree that the entries of a directory are sorted into has each of
/// its modules where it belongs.
pub proof fn lemma_synthesized_placed(
    root: ModuleView,
    top_level: Seq<Seq<u8>>,
    entries: Seq<DirEntry>,
)
    requires
        root.wf(),
        root.placed(top_level),
        synthesized(root, top_level, entries) is Ok,
    ensures
        synthesized(root, top_level, entries)->Ok_0.wf(),
        synthesized(root, top_level, entries)->Ok_0.placed(top_level),
    decreases entries.len(),
{
    if entries.len() > 0 {
        lemma_synthesized_placed(root, top_level, entries.drop_last());
        let tree = synthesized(root, top_level, entries.drop_last())->Ok_0;
        let entry = entries.last();
        if entry.is_file && entry.len > 0 {
            let path = entry.path@;
            let package = package_of(file_name_text(path)->Ok_0)->Ok_0;
            lemma_pushed_wf(tree, top_level, path, package);
            lemma_pushed_placed(tree, top_level, path, package);
        }
    }
}

/// The index of the modules below a module holds the line that exposes
/// each of them.
pub proof fn lemma_export_line_occurs(children: Seq<ModuleView>, j: int) -> (at: int)
    requires
        0 <= j < children.len(),
    ensures
        occurs_at(export_lines(children), export_line(children[j].name), at),
    decreases children.len(),
{
    let front = export_lines(children.drop_last());
    let line = export_line(children[j].name);
    if j == children.len() - 1 {
        assert(export_lines(children).subrange(
            front.len() as int,
            front.len() as int + line.len(),
        ) =~= line);
        front.len() as int
    } else {
        let at = lemma_export_line_occurs(children.drop_last(), j);
        assert(export_lines(children).subrange(at, at + line.len()) =~= front.subrange(
            at,
            at + line.len(),
        ));
        at
    }
}

/// A package that has a file, and a package below it that has one too,
/// give one file for the module of the first: the steps for that module
/// end in the one step that moves the package's generated file to the
/// module's place and puts before its text the index of the modules below,
/// which exposes the module that leads to the second package.
pub proof fn lemma_package_above_package(
    m: ModuleView,
    header: Seq<char>,
    package: Seq<char>,
    below: Seq<Seq<char>>,
) -> (at: int)
    requires
        below.len() > 0,
        m.leaf_at(seq![package]) is Some,
        m.leaf_at(seq![package] + below) is Some,
    ensures
        child_index(m.children, package) is Some,
        ({
            let module = m.children[child_index(m.children, package)->0];
            let file = m.leaf_at(seq![package])->0;
            &&& module.own_ops(header) == seq![
                FileOpView::Relocate {
                    source: file,
                    dest: module.canonical_file(),
                    index: Some(module.index_text(header)),
                    remove_source: file != module.canonical_file(),
                },
            ]
            &&& module.index_text(header) == header + export_lines(module.children)
            &&& occurs_at(export_lines(module.children), export_line(below[0]), at)
        }),
{
    let module = m.children[child_index(m.children, package)->0];
    let upper = seq![package];
    let lower = seq![package] + below;
    assert(lower[0] == package && lower.drop_first() =~= below);
    assert(m.leaf_at(upper) == module.leaf_at(upper.drop_first()));
    assert(m.leaf_at(lower) == module.leaf_at(below));
    let j = child_index(module.children, below[0])->0;
    lemma_export_line_occurs(module.children, j)
}

/// The package that an entry of the directory holds, where the entry is
/// a generated file: a regular file that is not empty and whose name is
/// text with a suffix.
pub open spec fn package_of_entry(entry: DirEntry) -> Option<Seq<char>> {
    if entry.is_file && entry.len > 0 {
        match file_name_text(entry.path@) {
            Ok(name) => match package_of(name) {
                Ok(package) => Some(package),
                Err(_) => None,
            },
            Err(_) => None,
        }
    } else {
        None
    }
}

/// The tree that the entries of a directory are sorted into holds every
/// generated file among them, under the segments of its package's name.
pub proof fn lemma_synthesized_holds(
    root: ModuleView,
    top_level: Seq<Seq<u8>>,
    entries: Seq<DirEntry>,
    k: int,
)
    requires
        root.wf(),
        root.placed(top_level),
        synthesized(root, top_level, entries) is Ok,
        0 <= k < entries.len(),
        entries[k].is_file,
        entries[k].len > 0,
    ensures
        package_of_entry(entries[k]) is Some,
        synthesized(root, top_level, entries)->Ok_0.leaf_at(
            segments_of(package_of_entry(entries[k])->0),
        ) == Some(entries[k].path@),
    decreases entries.len(),
{
    let front = entries.drop_last();
    let tree = synthesized(root, top_level, front)->Ok_0;
    let last = entries.last();
    lemma_synthesized_placed(root, top_level, front);
    if k == entries.len() - 1 {
        let package = package_of(file_name_text(last.path@)->Ok_0)->Ok_0;
        lemma_pushed_leaf(tree, top_level, last.path@, package);
    } else {
        lemma_synthesized_holds(root, top_level, front, k);
        let held = segments_of(package_of_entry(entries[k])->0);
        if last.is_file && last.len > 0 {
            let package = package_of(file_name_text(last.path@)->Ok_0)->Ok_0;
            lemma_pushed_leaf(tree, top_level, last.path@, package);
            lemma_pushed_other(tree, top_level, last.path@, package, held);
        }
    }
}

/// Whether an entry of the directory is a generated file: a regular file
/// that is not empty.
pub open spec fn is_generated(entry: DirEntry) -> bool {
    entry.is_file && entry.len > 0
}

/// Every generated file among the entries has a name that holds a
/// package, and no two of them hold packages of the same segments.
pub open spec fn distinct_packages(entries: Seq<DirEntry>) -> bool {
    &&& forall|k: int|
        0 <= k < entries.len() && is_generated(#[trigger] entries[k]) ==> package_of_entry(
            entries[k],
        ) is Some
    &&& forall|i: int, j: int|
        0 <= i < j < entries.len() && is_generated(#[trigger] entries[i]) && is_generated(
            #[trigger] entries[j],
        ) ==> segments_of(package_of_entry(entries[i])->0) != segments_of(
            package_of_entry(entries[j])->0,
        )
}

/// One of the generated files among the entries holds the package of the
/// given segments.
pub open spec fn held_by(entries: Seq<DirEntry>, segments: Seq<Seq<char>>) -> bool {
    exists|k: int|
        0 <= k < entries.len() && is_generated(#[trigger] entries[k]) && package_of_entry(
            entries[k],
        ) is Some && segments_of(package_of_entry(entries[k])->0) == segments
}

/// Generated files that hold different packages always make a tree, and
/// the tree holds no file but theirs.
pub proof fn lemma_distinct_packages_make_a_tree(
    out_dir: Seq<Seq<u8>>,
    entries: Seq<DirEntry>,
    segments: Seq<Seq<char>>,
)
    requires
        distinct_packages(entries),
    ensures
        synthesized_root(out_dir, entries) is Ok,
        synthesized_root(out_dir, entries)->Ok_0.leaf_at(segments) is Some ==> held_by(
            entries,
            segments,
        ),
    decreases entries.len(),
{
    let root = empty_module(root_name(), out_dir);
    if entries.len() == 0 {
        if segments.len() > 0 {
            assert(child_index(root.children, segments[0]) is None);
        }
    } else {
        let front = entries.drop_last();
        let last = entries.last();
        assert(distinct_packages(front)) by {
            assert forall|k: int|
                0 <= k < front.len() && is_generated(
                    #[trigger] front[k],
                ) implies package_of_entry(front[k]) is Some by {
                assert(front[k] == entries[k]);
            }
            assert forall|i: int, j: int|
                0 <= i < j < front.len() && is_generated(#[trigger] front[i]) && is_generated(
                    #[trigger] front[j],
                ) implies segments_of(package_of_entry(front[i])->0) != segments_of(
                package_of_entry(front[j])->0,
            ) by {
                assert(front[i] == entries[i] && front[j] == entries[j]);
            }
        }
        lemma_distinct_packages_make_a_tree(out_dir, front, segments);
        let tree = synthesized_root(out_dir, front)->Ok_0;
        lemma_synthesized_placed(root, out_dir, front);
        if is_generated(last) {
            assert(entries[entries.len() - 1] == last);
            let package = package_of_entry(last)->0;
            let target = segments_of(package);
            lemma_distinct_packages_make_a_tree(out_dir, front, target);
            if tree.leaf_at(target) is Some {
                let k = choose|k: int|
                    0 <= k < front.len() && is_generated(#[trigger] front[k]) && package_of_entry(
                        front[k],
                    ) is Some && segments_of(package_of_entry(front[k])->0) == target;
                assert(front[k] == entries[k]);
                assert(false);
            }
            lemma_pushed_leaf(tree, out_dir, last.path@, package);
            if segments != target {
                lemma_pushed_other(tree, out_dir, last.path@, package, segments);
            }
        }
        if held_by(front, segments) {
            let k = choose|k: int|
                0 <= k < front.len() && is_generated(#[trigger] front[k]) && package_of_entry(
                    front[k],
                ) is Some && segments_of(package_of_entry(front[k])->0) == segments;
            assert(entries[k] == front[k]);
        }
    }
}

/// Each generated file goes where the segments of its package's name lead:
/// among the steps that `clean_up_file_structure` gives for the entries of
/// a directory, one moves each generated file to its place below that
/// directory.
pub proof fn lemma_generated_file_is_placed(
    out_dir: Seq<Seq<u8>>,
    entries: Seq<DirEntry>,
    header: Seq<char>,
    k: int,
)
    requires
        synthesized_root(out_dir, entries) is Ok,
        0 <= k < entries.len(),
        entries[k].is_file,
        entries[k].len > 0,
    ensures
        package_of_entry(entries[k]) is Some,
        relocates(
            clean_up_ops(entries, synthesized_root(out_dir, entries)->Ok_0, header),
            entries[k].path@,
            place_of(out_dir, segments_of(package_of_entry(entries[k])->0)),
        ),
{
    let root = empty_module(root_name(), out_dir);
    let tree = synthesized(root, out_dir, entries)->Ok_0;
    lemma_synthesized_holds(root, out_dir, entries, k);
    lemma_synthesized_placed(root, out_dir, entries);
    let segments = segments_of(package_of_entry(entries[k])->0);
    crate::lookup::lemma_segments_not_empty(package_of_entry(entries[k])->0);
    lemma_leaf_is_placed(tree, out_dir, header, segments);
    lemma_relocates_in_concat(
        removals(entries),
        tree.plan_below(header, tree.children.len() as int),
        entries[k].path@,
        place_of(out_dir, segments),
    );
}

/// Generated files that hold different packages are all put in their
/// places: the entries make a tree, and among the steps that
/// `clean_up_file_structure` gives for them, one moves each generated file
/// to the place that the segments of its package's name lead to.
pub proof fn lemma_distinct_packages_are_placed(
    out_dir: Seq<Seq<u8>>,
    entries: Seq<DirEntry>,
    header: Seq<char>,
    k: int,
)
    requires
        distinct_packages(entries),
        0 <= k < entries.len(),
        is_generated(entries[k]),
    ensures
        synthesized_root(out_dir, entries) is Ok,
        relocates(
            clean_up_ops(entries, synthesized_root(out_dir, entries)->Ok_0, header),
            entries[k].path@,
            place_of(out_dir, segments_of(package_of_entry(entries[k])->0)),
        ),
{
    lemma_distinct_packages_make_a_tree(out_dir, entries, Seq::empty());
    lemma_generated_file_is_placed(out_dir, entries, header, k);
}

/// The segments lead on to the package of one of the generated files
/// among the entries.
pub open spec fn leads_to_one(entries: Seq<DirEntry>, segments: Seq<Seq<char>>) -> bool {
    exists|k: int|
        0 <= k < entries.len() && is_generated(#[trigger] entries[k]) && package_of_entry(
            entries[k],
        ) is Some && leads_to(segments, segments_of(package_of_entry(entries[k])->0))
}

/// The tree has a module exactly where segments lead on to the package of
/// a generated file: for each package, and for each of the names that its
/// name begins with.
pub proof fn lemma_modules_of_the_tree(
    out_dir: Seq<Seq<u8>>,
    entries: Seq<DirEntry>,
    segments: Seq<Seq<char>>,
)
    requires
        distinct_packages(entries),
        segments.len() > 0,
    ensures
        synthesized_root(out_dir, entries) is Ok,
        synthesized_root(out_dir, entries)->Ok_0.node_at(segments) is Some <==> leads_to_one(
            entries,
            segments,
        ),
    decreases entries.len(),
{
    let root = empty_module(root_name(), out_dir);
    lemma_distinct_packages_make_a_tree(out_dir, entries, segments);
    if entries.len() == 0 {
        assert(child_index(root.children, segments[0]) is None);
    } else {
        let front = entries.drop_last();
        let last = entries.last();
        assert(distinct_packages(front)) by {
            assert forall|k: int|
                0 <= k < front.len() && is_generated(
                    #[trigger] front[k],
                ) implies package_of_entry(front[k]) is Some by {
                assert(front[k] == entries[k]);
            }
            assert forall|i: int, j: int|
                0 <= i < j < front.len() && is_generated(#[trigger] front[i]) && is_generated(
                    #[trigger] front[j],
                ) implies segments_of(package_of_entry(front[i])->0) != segments_of(
                package_of_entry(front[j])->0,
            ) by {
                assert(front[i] == entries[i] && front[j] == entries[j]);
            }
        }
        lemma_modules_of_the_tree(out_dir, front, segments);
        let tree = synthesized_root(out_dir, front)->Ok_0;
        lemma_synthesized_placed(root, out_dir, front);
        assert(entries[entries.len() - 1] == last);
        if is_generated(last) {
            let package = package_of_entry(last)->0;
            lemma_pushed_nodes(tree, out_dir, last.path@, package, segments);
        }
        if leads_to_one(front, segments) {
            let k = choose|k: int|
                0 <= k < front.len() && is_generated(#[trigger] front[k]) && package_of_entry(
                    front[k],
                ) is Some && leads_to(segments, segments_of(package_of_entry(front[k])->0));
            assert(entries[k] == front[k]);
        }
        if leads_to_one(entries, segments) {
            let k = choose|k: int|
                0 <= k < entries.len() && is_generated(#[trigger] entries[k]) && package_of_entry(
                    entries[k],
                ) is Some && leads_to(segments, segments_of(package_of_entry(entries[k])->0));
            if k < front.len() {
                assert(front[k] == entries[k]);
            }
        }
    }
}

/// Each name that the name of a package begins with, and that is no
/// package itself, gets an index: among the steps that
/// `clean_up_file_structure` gives, one writes the index of the module
/// that the segments lead to, which has no generated file, to the place
/// that the segments lead to.
pub proof fn lemma_prefix_gets_its_index(
    out_dir: Seq<Seq<u8>>,
    entries: Seq<DirEntry>,
    header: Seq<char>,
    segments: Seq<Seq<char>>,
)
    requires
        distinct_packages(entries),
        segments.len() > 0,
        leads_to_one(entries, segments),
        !held_by(entries, segments),
    ensures
        synthesized_root(out_dir, entries) is Ok,
        synthesized_root(out_dir, entries)->Ok_0.node_at(segments) is Some,
        synthesized_root(out_dir, entries)->Ok_0.node_at(segments)->0.file is None,
        clean_up_ops(entries, synthesized_root(out_dir, entries)->Ok_0, header).contains(
            index_step(
                out_dir,
                segments,
                synthesized_root(out_dir, entries)->Ok_0.node_at(segments)->0,
                header,
            ),
        ),
{
    let root = empty_module(root_name(), out_dir);
    lemma_modules_of_the_tree(out_dir, entries, segments);
    lemma_distinct_packages_make_a_tree(out_dir, entries, segments);
    let tree = synthesized_root(out_dir, entries)->Ok_0;
    lemma_synthesized_placed(root, out_dir, entries);
    crate::lookup::lemma_leaf_is_file_of_node(tree, segments);
    lemma_node_is_solid(tree, segments);
    lemma_index_is_written(tree, out_dir, header, segments);
    lemma_step_in_concat(
        removals(entries),
        tree.plan_below(header, tree.children.len() as int),
        index_step(out_dir, segments, tree.node_at(segments)->0, header),
    );
}

/// The steps that delete the empty files do nothing else.
pub proof fn lemma_removals_only_remove(entries: Seq<DirEntry>, step: FileOpView)
    requires
        removals(entries).contains(step),
    ensures
        step is Remove,
    decreases entries.len(),
{
    if entries.len() > 0 {
        let front = removals(entries.drop_last());
        let entry = entries.last();
        if entry.is_file && entry.len == 0 {
            let last = FileOpView::Remove { file: entry.path@ };
            lemma_step_in_concat(front, seq![last], step);
            assert(front.push(last) =~= front + seq![last]);
            if front.contains(step) {
                lemma_removals_only_remove(entries.drop_last(), step);
            } else {
                let k = choose|k: int| 0 <= k < seq![last].len() && seq![last][k] == step;
                assert(seq![last][k] == last);
            }
        } else {
            lemma_removals_only_remove(entries.drop_last(), step);
        }
    }
}

/// No file is moved but the generated files: whatever one of the steps
/// that `clean_up_file_structure` gives moves is one of the generated
/// files among the entries, and goes to the place that the segments of its
/// package's name lead to.
pub proof fn lemma_moved_file_is_generated(
    out_dir: Seq<Seq<u8>>,
    entries: Seq<DirEntry>,
    header: Seq<char>,
    source: Seq<Seq<u8>>,
    dest: Seq<Seq<u8>>,
) -> (k: int)
    requires
        distinct_packages(entries),
        synthesized_root(out_dir, entries) is Ok,
        relocates(
            clean_up_ops(entries, synthesized_root(out_dir, entries)->Ok_0, header),
            source,
            dest,
        ),
    ensures
        0 <= k < entries.len(),
        is_generated(entries[k]),
        package_of_entry(entries[k]) is Some,
        source == entries[k].path@,
        dest == place_of(out_dir, segments_of(package_of_entry(entries[k])->0)),
{
    let root = empty_module(root_name(), out_dir);
    let tree = synthesized_root(out_dir, entries)->Ok_0;
    let below = tree.plan_below(header, tree.children.len() as int);
    lemma_relocates_of_concat(removals(entries), below, source, dest);
    if relocates(removals(entries), source, dest) {
        let j = choose|j: int|
            0 <= j < removals(entries).len() && (#[trigger] removals(entries)[j]) is Relocate;
        lemma_removals_only_remove(entries, removals(entries)[j]);
    }
    lemma_synthesized_placed(root, out_dir, entries);
    let segments = lemma_placed_is_leaf(tree, out_dir, header, source, dest);
    lemma_distinct_packages_make_a_tree(out_dir, entries, segments);
    let k = choose|k: int|
        0 <= k < entries.len() && is_generated(#[trigger] entries[k]) && package_of_entry(
            entries[k],
        ) is Some && segments_of(package_of_entry(entries[k])->0) == segments;
    lemma_synthesized_holds(root, out_dir, entries, k);
    k
}

/// No index is written but for the names that the name of a package
/// begins with and that are no package themselves: whatever index one of
/// the steps that `clean_up_file_structure` gives writes is the index of
/// the module that such segments lead to, written to their place.
pub proof fn lemma_written_index_is_of_prefix(
    out_dir: Seq<Seq<u8>>,
    entries: Seq<DirEntry>,
    header: Seq<char>,
    step: FileOpView,
) -> (segments: Seq<Seq<char>>)
    requires
        distinct_packages(entries),
        synthesized_root(out_dir, entries) is Ok,
        step is WriteIndex,
        clean_up_ops(entries, synthesized_root(out_dir, entries)->Ok_0, header).contains(step),
    ensures
        segments.len() > 0,
        leads_to_one(entries, segments),
        !held_by(entries, segments),
        synthesized_root(out_dir, entries)->Ok_0.node_at(segments) is Some,
        step == index_step(
            out_dir,
            segments,
            synthesized_root(out_dir, entries)->Ok_0.node_at(segments)->0,
            header,
        ),
{
    let root = empty_module(root_name(), out_dir);
    let tree = synthesized_root(out_dir, entries)->Ok_0;
    let below = tree.plan_below(header, tree.children.len() as int);
    lemma_step_in_concat(removals(entries), below, step);
    if removals(entries).contains(step) {
        lemma_removals_only_remove(entries, step);
    }
    lemma_synthesized_placed(root, out_dir, entries);
    let segments = lemma_written_index_is_of_node(tree, out_dir, header, step);
    lemma_modules_of_the_tree(out_dir, entries, segments);
    crate::lookup::lemma_leaf_is_file_of_node(tree, segments);
    if held_by(entries, segments) {
        let k = choose|k: int|
            0 <= k < entries.len() && is_generated(#[trigger] entries[k]) && package_of_entry(
                entries[k],
            ) is Some && segments_of(package_of_entry(entries[k])->0) == segments;
        lemma_synthesized_holds(root, out_dir, entries, k);
    }
    segments
}

/// One of the entries is an empty file at the given path.
pub open spec fn empty_file_at(entries: Seq<DirEntry>, file: Seq<Seq<u8>>) -> bool {
    exists|k: int|
        0 <= k < entries.len() && (#[trigger] entries[k]).is_file && entries[k].len == 0
            && entries[k].path@ == file
}

/// The empty files among the entries are deleted, and nothing else is.
pub proof fn lemma_removals_are_the_empty_files(entries: Seq<DirEntry>, file: Seq<Seq<u8>>)
    ensures
        removals(entries).contains(FileOpView::Remove { file }) <==> empty_file_at(entries, file),
    decreases entries.len(),
{
    let step = FileOpView::Remove { file };
    if entries.len() > 0 {
        let front = entries.drop_last();
        let entry = entries.last();
        lemma_removals_are_the_empty_files(front, file);
        if entry.is_file && entry.len == 0 {
            let last = FileOpView::Remove { file: entry.path@ };
            lemma_step_in_concat(removals(front), seq![last], step);
            assert(removals(front).push(last) =~= removals(front) + seq![last]);
            if seq![last].contains(step) {
                let k = choose|k: int| 0 <= k < seq![last].len() && seq![last][k] == step;
                assert(seq![last][k] == last);
                assert(entries[entries.len() - 1] == entry);
            }
            if entry.path@ == file {
                assert(seq![last][0] == step);
            }
        }
        if empty_file_at(front, file) {
            let k = choose|k: int|
                0 <= k < front.len() && (#[trigger] front[k]).is_file && front[k].len == 0
                    && front[k].path@ == file;
            assert(entries[k] == front[k]);
        }
        if empty_file_at(entries, file) {
            let k = choose|k: int|
                0 <= k < entries.len() && (#[trigger] entries[k]).is_file && entries[k].len == 0
                    && entries[k].path@ == file;
            if k < front.len() {
                assert(front[k] == entries[k]);
            }
        }
    }
}

/// What a step does to the files of the directory is one of three things:
/// it deletes an empty file; it moves a generated file to the place of its
/// package, and deletes it where it was unless it is in its place; or it
/// writes the index of a module without a generated file, for a name that
/// the name of a package begins with.
pub open spec fn step_is_due(
    out_dir: Seq<Seq<u8>>,
    entries: Seq<DirEntry>,
    tree: ModuleView,
    header: Seq<char>,
    step: FileOpView,
) -> bool {
    match step {
        FileOpView::CreateDir { dir } => true,
        FileOpView::Remove { file } => empty_file_at(entries, file),
        FileOpView::Relocate { source, dest, index, remove_source } => {
            &&& remove_source == (source != dest)
            &&& exists|k: int|
                0 <= k < entries.len() && is_generated(#[trigger] entries[k]) && package_of_entry(
                    entries[k],
                ) is Some && source == entries[k].path@ && dest == place_of(
                    out_dir,
                    segments_of(package_of_entry(entries[k])->0),
                )
        },
        FileOpView::WriteIndex { dest, content } => exists|segments: Seq<Seq<char>>|
            segments.len() > 0 && leads_to_one(entries, segments) && !held_by(entries, segments)
                && tree.node_at(segments) is Some && step == #[trigger] index_step(
                out_dir,
                segments,
                tree.node_at(segments)->0,
                header,
            ),
    }
}

/// Nothing is done to the files of the directory but what is due: every
/// step that `clean_up_file_structure` gives for generated files of
/// different packages deletes an empty file, moves a generated file to its
/// place, or writes the index for a name that a package's name begins
/// with.
pub proof fn lemma_steps_are_due(
    out_dir: Seq<Seq<u8>>,
    entries: Seq<DirEntry>,
    header: Seq<char>,
    step: FileOpView,
)
    requires
        distinct_packages(entries),
        synthesized_root(out_dir, entries) is Ok,
        clean_up_ops(entries, synthesized_root(out_dir, entries)->Ok_0, header).contains(step),
    ensures
        step_is_due(out_dir, entries, synthesized_root(out_dir, entries)->Ok_0, header, step),
{
    let tree = synthesized_root(out_dir, entries)->Ok_0;
    let ops = clean_up_ops(entries, tree, header);
    let below = tree.plan_below(header, tree.children.len() as int);
    lemma_step_in_concat(removals(entries), below, step);
    match step {
        FileOpView::CreateDir { dir } => {},
        FileOpView::Remove { file } => {
            if below.contains(step) {
                lemma_step_is_no_removal(tree, header, step);
            }
            lemma_removals_are_the_empty_files(entries, file);
        },
        FileOpView::Relocate { source, dest, index, remove_source } => {
            if removals(entries).contains(step) {
                lemma_removals_only_remove(entries, step);
            }
            lemma_moved_file_is_removed(tree, header, step);
            assert(relocates(ops, source, dest));
            lemma_moved_file_is_generated(out_dir, entries, header, source, dest);
        },
        FileOpView::WriteIndex { dest, content } => {
            let segments = lemma_written_index_is_of_prefix(out_dir, entries, header, step);
            assert(step == index_step(out_dir, segments, tree.node_at(segments)->0, header));
        },
    }
}

/// The steps that put modules on disk delete nothing.
pub proof fn lemma_step_is_no_removal(m: ModuleView, header: Seq<char>, step: FileOpView)
    requires
        m.plan_below(header, m.children.len() as int).contains(step),
    ensures
        step !is Remove,
    decreases m,
{
    lemma_step_in_plan_below(m, header, m.children.len() as int, step);
    let i = choose|i: int|
        0 <= i < m.children.len() && (#[trigger] m.children[i]).plan(header).contains(step);
    let child = m.children[i];
    if step !is CreateDir {
        lemma_step_in_plan(child, header, step);
        if child.children.len() > 0 && child.plan_below(
            header,
            child.children.len() as int,
        ).contains(step) {
            lemma_step_is_no_removal(child, header, step);
        } else {
            let own = child.own_ops(header);
            let k = choose|k: int| 0 <= k < own.len() && own[k] == step;
            assert(own[k] == step);
        }
    }
}

/// All that is due is done: for generated files of different packages,
/// the steps that `clean_up_file_structure` gives delete every empty file,
/// move every generated file to the place of its package, and write the
/// index for every name that the name of a package begins with and that is
/// no package itself.
pub proof fn lemma_all_that_is_due_is_done(
    out_dir: Seq<Seq<u8>>,
    entries: Seq<DirEntry>,
    header: Seq<char>,
)
    requires
        distinct_packages(entries),
    ensures
        synthesized_root(out_dir, entries) is Ok,
        forall|file: Seq<Seq<u8>>|
            empty_file_at(entries, file) ==> #[trigger] clean_up_ops(
                entries,
                synthesized_root(out_dir, entries)->Ok_0,
                header,
            ).contains(FileOpView::Remove { file }),
        forall|k: int|
            0 <= k < entries.len() && is_generated(#[trigger] entries[k]) ==> relocates(
                clean_up_ops(entries, synthesized_root(out_dir, entries)->Ok_0, header),
                entries[k].path@,
                place_of(out_dir, segments_of(package_of_entry(entries[k])->0)),
            ),
        forall|segments: Seq<Seq<char>>|
            segments.len() > 0 && #[trigger] leads_to_one(entries, segments) && !held_by(
                entries,
                segments,
            ) ==> clean_up_ops(entries, synthesized_root(out_dir, entries)->Ok_0, header).contains(
                index_step(
                    out_dir,
                    segments,
                    synthesized_root(out_dir, entries)->Ok_0.node_at(segments)->0,
                    header,
                ),
            ),
{
    lemma_distinct_packages_make_a_tree(out_dir, entries, Seq::empty());
    let tree = synthesized_root(out_dir, entries)->Ok_0;
    let below = tree.plan_below(header, tree.children.len() as int);
    let ops = clean_up_ops(entries, tree, header);
    assert forall|file: Seq<Seq<u8>>| empty_file_at(entries, file) implies #[trigger] ops.contains(
        FileOpView::Remove { file },
    ) by {
        lemma_removals_are_the_empty_files(entries, file);
        lemma_step_in_concat(removals(entries), below, FileOpView::Remove { file });
    }
    assert forall|k: int| 0 <= k < entries.len() && is_generated(
        #[trigger] entries[k],
    ) implies relocates(
        ops,
        entries[k].path@,
        place_of(out_dir, segments_of(package_of_entry(entries[k])->0)),
    ) by {
        lemma_distinct_packages_are_placed(out_dir, entries, header, k);
    }
    assert forall|segments: Seq<Seq<char>>|
        segments.len() > 0 && #[trigger] leads_to_one(entries, segments) && !held_by(
            entries,
            segments,
        ) implies ops.contains(
        index_step(out_dir, segments, tree.node_at(segments)->0, header),
    ) by {
        lemma_prefix_gets_its_index(out_dir, entries, header, segments);
    }
}

} // verus!
