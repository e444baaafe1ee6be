//! Looking a package up in the tree, and what putting a file into the tree
//! does to what is found there.

use crate::error::GenError;
use crate::path::file_name_text;
use crate::text::{
    find_first, lemma_find_first_is, lemma_first_exists, lemma_lex_lt_total,
    lemma_lex_lt_transitive, occurs_at, split_once,
};
use crate::tree::{
    child_index, empty_module, is_position, lemma_child_index_is, lemma_insert_keeps_order,
    name_lt, package_of, position_for, pushed_file, segment_dot, sorted_by_name, ModuleView,
};
use vstd::prelude::*;
use vstd::utf8::encode_utf8;

verus! {

/// The segments of a package's name: the parts between its dots.
pub open spec fn segments_of(raw_name: Seq<char>) -> Seq<Seq<char>>
    decreases raw_name.len(),
{
    match split_once(raw_name, segment_dot()) {
        Some((cur, rest)) => seq![cur] + segments_of(rest),
        None => seq![raw_name],
    }
}

impl ModuleView {
    /// The generated file of the package whose segments lead from this
    /// module down to its own module, if the tree holds one.
    pub open spec fn leaf_at(self, segments: Seq<Seq<char>>) -> Option<Seq<Seq<u8>>>
        decreases segments.len(),
    {
        if segments.len() == 0 {
            self.file
        } else {
            match child_index(self.children, segments[0]) {
                Some(i) => self.children[i].leaf_at(segments.drop_first()),
                None => None,
            }
        }
    }

    /// The module that the segments lead to from this module down, if the
    /// tree has one there.
    pub open spec fn node_at(self, segments: Seq<Seq<char>>) -> Option<ModuleView>
        decreases segments.len(),
    {
        if segments.len() == 0 {
            Some(self)
        } else {
            match child_index(self.children, segments[0]) {
                Some(i) => self.children[i].node_at(segments.drop_first()),
                None => None,
            }
        }
    }

    /// Each module below this one lies in the directory `dir`, and those
    /// below it lie in the directory of its name, and so on down.
    pub open spec fn placed(self, dir: Seq<Seq<u8>>) -> bool
        decreases self,
    {
        forall|i: int|
            0 <= i < self.children.len() ==> (#[trigger] self.children[i]).location == dir
                && self.children[i].placed(dir.push(encode_utf8(self.children[i].name)))
    }
}

/// Whether the tree below `m` has room for the generated file `path`:
/// whether the package that the file's name holds has no file yet. A path
/// that names no package is not in the way.
pub open spec fn has_room(m: ModuleView, path: Seq<Seq<u8>>) -> bool {
    match file_name_text(path) {
        Ok(name) => match package_of(name) {
            Ok(package) => m.leaf_at(segments_of(package)) is None,
            Err(_) => true,
        },
        Err(_) => true,
    }
}

/// A package's name has at least one segment.
pub proof fn lemma_segments_not_empty(raw_name: Seq<char>)
    ensures
        segments_of(raw_name).len() > 0,
{
}

/// Putting a file below a module changes which modules lie below it, and
/// nothing else of it; afterwards some module lies below it.
pub proof fn lemma_pushed_keeps(
    m: ModuleView,
    parent: Seq<Seq<u8>>,
    file: Seq<Seq<u8>>,
    raw_name: Seq<char>,
)
    ensures
        match m.pushed(parent, file, raw_name) {
            Ok(after) => after.name == m.name && after.location == m.location && after.file
                == m.file && after.children.len() > 0,
            Err(e) => e == GenError::DuplicateLeaf,
        },
    decreases raw_name.len(),
{
    match split_once(raw_name, segment_dot()) {
        Some((cur, rest)) => {
            let below = parent.push(encode_utf8(cur));
            match child_index(m.children, cur) {
                Some(i) => {
                    lemma_pushed_keeps(m.children[i], below, file, rest);
                },
                None => {
                    lemma_pushed_keeps(empty_module(cur, parent), below, file, rest);
                },
            }
        },
        None => {},
    }
}

/// Among modules ordered by name, a name that none of them has belongs
/// somewhere.
pub proof fn lemma_position_exists(children: Seq<ModuleView>, name: Seq<char>)
    requires
        sorted_by_name(children),
        child_index(children, name) is None,
    ensures
        is_position(children, name, position_for(children, name)),
    decreases children.len(),
{
    if children.len() == 0 {
        assert(is_position(children, name, 0));
    } else {
        let front = children.drop_last();
        let last = children.last();
        assert(sorted_by_name(front)) by {
            assert forall|i: int, j: int| 0 <= i < j < front.len() implies name_lt(
                front[i].name,
                front[j].name,
            ) by {
                assert(name_lt(children[i].name, children[j].name));
            }
        }
        lemma_position_exists(front, name);
        let p = position_for(front, name);
        lemma_lex_lt_total(encode_utf8(last.name), encode_utf8(name));
        if encode_utf8(last.name) == encode_utf8(name) {
            vstd::utf8::encode_utf8_decode_utf8(last.name);
            vstd::utf8::encode_utf8_decode_utf8(name);
            assert(children[children.len() - 1].name == name);
            assert(false);
        } else if name_lt(last.name, name) {
            assert forall|a: int| 0 <= a < children.len() implies name_lt(
                #[trigger] children[a].name,
                name,
            ) by {
                if a < children.len() - 1 {
                    assert(name_lt(children[a].name, children[children.len() - 1].name));
                    lemma_lex_lt_transitive(
                        encode_utf8(children[a].name),
                        encode_utf8(last.name),
                        encode_utf8(name),
                    );
                }
            }
            assert(is_position(children, name, children.len() as int));
        } else {
            assert forall|a: int| 0 <= a < p implies name_lt(#[trigger] children[a].name, name) by {
                assert(name_lt(front[a].name, name));
            }
            assert forall|b: int| p <= b < children.len() implies name_lt(
                name,
                #[trigger] children[b].name,
            ) by {
                if b < front.len() {
                    assert(name_lt(name, front[b].name));
                }
            }
            assert(is_position(children, name, p));
        }
    }
}

/// Where a module is replaced by one of the same name, the modules stay
/// ordered and each name is found where it was.
pub proof fn lemma_child_index_after_update(
    children: Seq<ModuleView>,
    i: int,
    child: ModuleView,
    name: Seq<char>,
)
    requires
        sorted_by_name(children),
        0 <= i < children.len(),
        child.name == children[i].name,
    ensures
        sorted_by_name(children.update(i, child)),
        child_index(children.update(i, child), name) == child_index(children, name),
{
    let after = children.update(i, child);
    assert forall|a: int, b: int| 0 <= a < b < after.len() implies name_lt(
        after[a].name,
        after[b].name,
    ) by {
        assert(name_lt(children[a].name, children[b].name));
    }
    if child_index(children, name) is Some {
        let k = child_index(children, name)->0;
        assert(after[k].name == name);
        lemma_child_index_is(after, name, k);
    } else {
        if child_index(after, name) is Some {
            let k = child_index(after, name)->0;
            assert(children[k].name == name);
        }
    }
}

/// Where a module is put where its name belongs, the modules stay ordered;
/// the new module is found there, and each other name is found where it
/// was, one place on if that was behind the new module.
pub proof fn lemma_child_index_after_insert(
    children: Seq<ModuleView>,
    p: int,
    child: ModuleView,
    name: Seq<char>,
)
    requires
        sorted_by_name(children),
        is_position(children, child.name, p),
    ensures
        sorted_by_name(children.insert(p, child)),
        child_index(children.insert(p, child), child.name) == Some(p),
        name != child.name ==> child_index(children.insert(p, child), name) == (match child_index(
            children,
            name,
        ) {
            Some(k) => Some(
                if k < p {
                    k
                } else {
                    k + 1
                },
            ),
            None => None,
        }),
{
    let after = children.insert(p, child);
    lemma_insert_keeps_order(children, child, p);
    assert(after[p].name == child.name);
    lemma_child_index_is(after, child.name, p);
    if name != child.name {
        if child_index(children, name) is Some {
            let k = child_index(children, name)->0;
            let k2 = if k < p {
                k
            } else {
                k + 1
            };
            assert(after[k2] == children[k]);
            lemma_child_index_is(after, name, k2);
        } else {
            if child_index(after, name) is Some {
                let k = child_index(after, name)->0;
                if k < p {
                    assert(children[k].name == name);
                } else if k > p {
                    assert(children[k - 1].name == name);
                }
            }
        }
    }
}

/// Putting a file below a well-formed module leaves a well-formed module.
pub proof fn lemma_pushed_wf(
    m: ModuleView,
    parent: Seq<Seq<u8>>,
    file: Seq<Seq<u8>>,
    raw_name: Seq<char>,
)
    requires
        m.wf(),
    ensures
        m.pushed(parent, file, raw_name) is Ok ==> m.pushed(parent, file, raw_name)->Ok_0.wf(),
    decreases raw_name.len(),
{
    if m.pushed(parent, file, raw_name) is Ok {
        let after = m.pushed(parent, file, raw_name)->Ok_0;
        match split_once(raw_name, segment_dot()) {
            Some((cur, rest)) => {
                let below = parent.push(encode_utf8(cur));
                match child_index(m.children, cur) {
                    Some(i) => {
                        let child = m.children[i].pushed(below, file, rest)->Ok_0;
                        lemma_pushed_wf(m.children[i], below, file, rest);
                        lemma_pushed_keeps(m.children[i], below, file, rest);
                        lemma_child_index_after_update(m.children, i, child, cur);
                        assert forall|k: int| 0 <= k < after.children.len() implies (
                        #[trigger] after.children[k]).solid() && after.children[k].wf() by {
                            if k != i {
                                assert(after.children[k] == m.children[k]);
                            }
                        }
                    },
                    None => {
                        let fresh = empty_module(cur, parent);
                        let child = fresh.pushed(below, file, rest)->Ok_0;
                        lemma_pushed_wf(fresh, below, file, rest);
                        lemma_pushed_keeps(fresh, below, file, rest);
                        lemma_position_exists(m.children, cur);
                        let p = position_for(m.children, cur);
                        lemma_child_index_after_insert(m.children, p, child, cur);
                        assert forall|k: int| 0 <= k < after.children.len() implies (
                        #[trigger] after.children[k]).solid() && after.children[k].wf() by {
                            if k < p {
                                assert(after.children[k] == m.children[k]);
                            } else if k > p {
                                assert(after.children[k] == m.children[k - 1]);
                            }
                        }
                    },
                }
            },
            None => {
                match child_index(m.children, raw_name) {
                    Some(i) => {
                        let child = m.children[i].with_file(file);
                        lemma_child_index_after_update(m.children, i, child, raw_name);
                        assert(m.children[i].wf());
                        assert forall|k: int| 0 <= k < after.children.len() implies (
                        #[trigger] after.children[k]).solid() && after.children[k].wf() by {
                            if k != i {
                                assert(after.children[k] == m.children[k]);
                            }
                        }
                    },
                    None => {
                        let child = empty_module(raw_name, parent).with_file(file);
                        lemma_position_exists(m.children, raw_name);
                        let p = position_for(m.children, raw_name);
                        lemma_child_index_after_insert(m.children, p, child, raw_name);
                        assert forall|k: int| 0 <= k < after.children.len() implies (
                        #[trigger] after.children[k]).solid() && after.children[k].wf() by {
                            if k < p {
                                assert(after.children[k] == m.children[k]);
                            } else if k > p {
                                assert(after.children[k] == m.children[k - 1]);
                            }
                        }
                    },
                }
            },
        }
    }
}

/// A file is put into the tree exactly where its package has no file yet,
/// and is then found under the segments of its package's name.
pub proof fn lemma_pushed_leaf(
    m: ModuleView,
    parent: Seq<Seq<u8>>,
    file: Seq<Seq<u8>>,
    raw_name: Seq<char>,
)
    requires
        m.wf(),
    ensures
        m.pushed(parent, file, raw_name) is Ok <==> m.leaf_at(segments_of(raw_name)) is None,
        m.pushed(parent, file, raw_name) is Ok ==> m.pushed(parent, file, raw_name)->Ok_0.leaf_at(
            segments_of(raw_name),
        ) == Some(file),
    decreases raw_name.len(),
{
    let target = segments_of(raw_name);
    let result = m.pushed(parent, file, raw_name);
    match split_once(raw_name, segment_dot()) {
        Some((cur, rest)) => {
            let below = parent.push(encode_utf8(cur));
            assert(target[0] == cur);
            assert(target.drop_first() =~= segments_of(rest));
            match child_index(m.children, cur) {
                Some(i) => {
                    lemma_pushed_leaf(m.children[i], below, file, rest);
                    lemma_pushed_keeps(m.children[i], below, file, rest);
                    assert(m.leaf_at(target) == m.children[i].leaf_at(segments_of(rest)));
                    if result is Ok {
                        let after = result->Ok_0;
                        let child = m.children[i].pushed(below, file, rest)->Ok_0;
                        lemma_child_index_after_update(m.children, i, child, cur);
                        assert(after.children == m.children.update(i, child));
                        assert(after.leaf_at(target) == after.children[i].leaf_at(
                            segments_of(rest),
                        ));
                    }
                },
                None => {
                    let fresh = empty_module(cur, parent);
                    lemma_pushed_leaf(fresh, below, file, rest);
                    lemma_pushed_keeps(fresh, below, file, rest);
                    lemma_segments_not_empty(rest);
                    assert(fresh.leaf_at(segments_of(rest)) is None);
                    assert(m.leaf_at(target) is None);
                    let after = result->Ok_0;
                    let child = fresh.pushed(below, file, rest)->Ok_0;
                    lemma_position_exists(m.children, cur);
                    let p = position_for(m.children, cur);
                    lemma_child_index_after_insert(m.children, p, child, cur);
                    assert(after.children == m.children.insert(p, child));
                    assert(after.leaf_at(target) == after.children[p].leaf_at(segments_of(rest)));
                },
            }
        },
        None => {
            assert(target =~= seq![raw_name]);
            assert(target[0] == raw_name);
            assert(target.drop_first() =~= Seq::<Seq<char>>::empty());
            match child_index(m.children, raw_name) {
                Some(i) => {
                    assert(m.leaf_at(target) == m.children[i].leaf_at(target.drop_first()));
                    if m.children[i].file is None {
                        let after = result->Ok_0;
                        let child = m.children[i].with_file(file);
                        lemma_child_index_after_update(m.children, i, child, raw_name);
                        assert(after.children == m.children.update(i, child));
                        assert(after.leaf_at(target) == after.children[i].leaf_at(
                            target.drop_first(),
                        ));
                    }
                },
                None => {
                    let after = result->Ok_0;
                    let child = empty_module(raw_name, parent).with_file(file);
                    lemma_position_exists(m.children, raw_name);
                    let p = position_for(m.children, raw_name);
                    lemma_child_index_after_insert(m.children, p, child, raw_name);
                    assert(after.children == m.children.insert(p, child));
                    assert(after.leaf_at(target) == after.children[p].leaf_at(target.drop_first()));
                },
            }
        },
    }
}

/// Putting a file into the tree changes nothing of what is found under
/// the segments of other packages.
pub proof fn lemma_pushed_other(
    m: ModuleView,
    parent: Seq<Seq<u8>>,
    file: Seq<Seq<u8>>,
    raw_name: Seq<char>,
    segments: Seq<Seq<char>>,
)
    requires
        m.wf(),
        m.pushed(parent, file, raw_name) is Ok,
        segments != segments_of(raw_name),
    ensures
        m.pushed(parent, file, raw_name)->Ok_0.leaf_at(segments) == m.leaf_at(segments),
    decreases raw_name.len(),
{
    let target = segments_of(raw_name);
    let after = m.pushed(parent, file, raw_name)->Ok_0;
    lemma_pushed_keeps(m, parent, file, raw_name);
    if segments.len() > 0 {
        let first = segments[0];
        let tail = segments.drop_first();
        assert(segments =~= seq![first] + tail);
        match split_once(raw_name, segment_dot()) {
            Some((cur, rest)) => {
                let below = parent.push(encode_utf8(cur));
                assert(target =~= seq![cur] + segments_of(rest));
                match child_index(m.children, cur) {
                    Some(i) => {
                        let child = m.children[i].pushed(below, file, rest)->Ok_0;
                        lemma_pushed_keeps(m.children[i], below, file, rest);
                        lemma_child_index_after_update(m.children, i, child, first);
                        assert(after.children == m.children.update(i, child));
                        if first == cur {
                            assert(child_index(m.children, first) == Some(i));
                            assert(tail != segments_of(rest));
                            lemma_pushed_other(m.children[i], below, file, rest, tail);
                            assert(after.leaf_at(segments) == after.children[i].leaf_at(tail));
                            assert(m.leaf_at(segments) == m.children[i].leaf_at(tail));
                        } else {
                            match child_index(m.children, first) {
                                Some(k) => {
                                    assert(m.children[k].name == first);
                                    assert(k != i);
                                    assert(after.children[k] == m.children[k]);
                                    assert(after.leaf_at(segments) == after.children[k].leaf_at(
                                        tail,
                                    ));
                                },
                                None => {},
                            }
                        }
                    },
                    None => {
                        let fresh = empty_module(cur, parent);
                        let child = fresh.pushed(below, file, rest)->Ok_0;
                        lemma_pushed_keeps(fresh, below, file, rest);
                        lemma_position_exists(m.children, cur);
                        let p = position_for(m.children, cur);
                        lemma_child_index_after_insert(m.children, p, child, first);
                        assert(after.children == m.children.insert(p, child));
                        if first == cur {
                            assert(tail != segments_of(rest));
                            lemma_pushed_other(fresh, below, file, rest, tail);
                            assert(after.leaf_at(segments) == after.children[p].leaf_at(tail));
                            assert(m.leaf_at(segments) is None);
                            assert(fresh.leaf_at(tail) is None);
                        } else {
                            match child_index(m.children, first) {
                                Some(k) => {
                                    let k2 = if k < p {
                                        k
                                    } else {
                                        k + 1
                                    };
                                    assert(after.children[k2] == m.children[k]);
                                    assert(after.leaf_at(segments) == after.children[k2].leaf_at(
                                        tail,
                                    ));
                                },
                                None => {},
                            }
                        }
                    },
                }
            },
            None => {
                assert(target =~= seq![raw_name]);
                match child_index(m.children, raw_name) {
                    Some(i) => {
                        let child = m.children[i].with_file(file);
                        lemma_child_index_after_update(m.children, i, child, first);
                        assert(after.children == m.children.update(i, child));
                        if first == raw_name {
                            assert(tail.len() > 0) by {
                                if tail.len() == 0 {
                                    assert(segments =~= target);
                                }
                            }
                            assert(after.leaf_at(segments) == after.children[i].leaf_at(tail));
                            assert(m.leaf_at(segments) == m.children[i].leaf_at(tail));
                            assert(child.children == m.children[i].children);
                            assert(child.leaf_at(tail) == m.children[i].leaf_at(tail));
                        } else {
                            match child_index(m.children, first) {
                                Some(k) => {
                                    assert(m.children[k].name == first);
                                    assert(k != i);
                                    assert(after.children[k] == m.children[k]);
                                    assert(after.leaf_at(segments) == after.children[k].leaf_at(
                                        tail,
                                    ));
                                },
                                None => {},
                            }
                        }
                    },
                    None => {
                        let child = empty_module(raw_name, parent).with_file(file);
                        lemma_position_exists(m.children, raw_name);
                        let p = position_for(m.children, raw_name);
                        lemma_child_index_after_insert(m.children, p, child, first);
                        assert(after.children == m.children.insert(p, child));
                        if first == raw_name {
                            assert(tail.len() > 0) by {
                                if tail.len() == 0 {
                                    assert(segments =~= target);
                                }
                            }
                            assert(after.leaf_at(segments) == after.children[p].leaf_at(tail));
                            assert(m.leaf_at(segments) is None);
                            assert(child.leaf_at(tail) is None);
                        } else {
                            match child_index(m.children, first) {
                                Some(k) => {
                                    let k2 = if k < p {
                                        k
                                    } else {
                                        k + 1
                                    };
                                    assert(after.children[k2] == m.children[k]);
                                    assert(after.leaf_at(segments) == after.children[k2].leaf_at(
                                        tail,
                                    ));
                                },
                                None => {},
                            }
                        }
                    },
                }
            },
        }
    }
}

/// The name of a package below another: the other's name, a dot, and
/// what leads on from there.
pub open spec fn joined(package: Seq<char>, below: Seq<char>) -> Seq<char> {
    package + segment_dot() + below
}

/// The segments of the name of a package below another are the segments
/// of the other's name and then the segments that lead on from there.
pub proof fn lemma_segments_of_joined(package: Seq<char>, below: Seq<char>)
    ensures
        segments_of(joined(package, below)) == segments_of(package) + segments_of(below),
    decreases package.len(),
{
    let dot = segment_dot();
    let whole = joined(package, below);
    assert forall|j: int| 0 <= j < package.len() implies (occurs_at(whole, dot, j) <==> occurs_at(
        package,
        dot,
        j,
    )) by {
        if occurs_at(whole, dot, j) {
            assert(package.subrange(j, j + 1) =~= dot);
        }
        if occurs_at(package, dot, j) {
            assert(whole.subrange(j, j + 1) =~= dot);
        }
    }
    match find_first(package, dot) {
        Some(i) => {
            lemma_first_exists(package, dot, i);
            lemma_find_first_is(whole, dot, i);
            let rest = package.subrange(i + 1, package.len() as int);
            assert(whole.subrange(0, i) =~= package.subrange(0, i));
            assert(whole.subrange(i + 1, whole.len() as int) =~= joined(rest, below));
            lemma_segments_of_joined(rest, below);
        },
        None => {
            assert forall|j: int| !occurs_at(package, dot, j) by {
                if occurs_at(package, dot, j) {
                    lemma_first_exists(package, dot, j);
                }
            }
            let n = package.len() as int;
            assert(whole.subrange(n, n + 1) =~= dot);
            lemma_find_first_is(whole, dot, n);
            assert(whole.subrange(0, n) =~= package);
            assert(whole.subrange(n + 1, whole.len() as int) =~= below);
        },
    }
}

/// A package and a package below it both find room in the tree: where
/// neither has a file yet, the file of the one and then the file of the
/// other are put there without an error, in either order, and both are
/// found afterwards.
pub proof fn lemma_package_and_package_below(
    m: ModuleView,
    parent: Seq<Seq<u8>>,
    file: Seq<Seq<u8>>,
    file_below: Seq<Seq<u8>>,
    package: Seq<char>,
    below: Seq<char>,
)
    requires
        m.wf(),
        m.leaf_at(segments_of(package)) is None,
        m.leaf_at(segments_of(joined(package, below))) is None,
    ensures
        m.pushed(parent, file, package) is Ok,
        m.pushed(parent, file, package)->Ok_0.pushed(parent, file_below, joined(package, below)) is Ok,
        m.pushed(parent, file, package)->Ok_0.pushed(
            parent,
            file_below,
            joined(package, below),
        )->Ok_0.leaf_at(segments_of(package)) == Some(file),
        m.pushed(parent, file, package)->Ok_0.pushed(
            parent,
            file_below,
            joined(package, below),
        )->Ok_0.leaf_at(segments_of(joined(package, below))) == Some(file_below),
        m.pushed(parent, file_below, joined(package, below)) is Ok,
        m.pushed(parent, file_below, joined(package, below))->Ok_0.pushed(parent, file, package) is Ok,
        m.pushed(parent, file_below, joined(package, below))->Ok_0.pushed(
            parent,
            file,
            package,
        )->Ok_0.leaf_at(segments_of(package)) == Some(file),
        m.pushed(parent, file_below, joined(package, below))->Ok_0.pushed(
            parent,
            file,
            package,
        )->Ok_0.leaf_at(segments_of(joined(package, below))) == Some(file_below),
{
    let lower = joined(package, below);
    lemma_segments_of_joined(package, below);
    lemma_segments_not_empty(below);
    // The upper package first.
    lemma_pushed_leaf(m, parent, file, package);
    let first = m.pushed(parent, file, package)->Ok_0;
    lemma_pushed_wf(m, parent, file, package);
    lemma_pushed_other(m, parent, file, package, segments_of(lower));
    lemma_pushed_leaf(first, parent, file_below, lower);
    lemma_pushed_other(first, parent, file_below, lower, segments_of(package));
    // The lower package first.
    lemma_pushed_leaf(m, parent, file_below, lower);
    let second = m.pushed(parent, file_below, lower)->Ok_0;
    lemma_pushed_wf(m, parent, file_below, lower);
    lemma_pushed_other(m, parent, file_below, lower, segments_of(package));
    lemma_pushed_leaf(second, parent, file, package);
    lemma_pushed_other(second, parent, file, package, segments_of(lower));
}

/// A generated file for which the tree has no room is refused as a second
/// file of its package.
pub proof fn lemma_duplicate_is_refused(m: ModuleView, top_level: Seq<Seq<u8>>, path: Seq<Seq<u8>>)
    requires
        m.wf(),
        !has_room(m, path),
    ensures
        pushed_file(m, top_level, path) == Err::<ModuleView, GenError>(GenError::DuplicateLeaf),
{
    let package = package_of(file_name_text(path)->Ok_0)->Ok_0;
    lemma_pushed_leaf(m, top_level, path, package);
    lemma_pushed_keeps(m, top_level, path, package);
}

/// The segments lead on to the segments `full`: they are what `full`
/// begins with.
pub open spec fn leads_to(segments: Seq<Seq<char>>, full: Seq<Seq<char>>) -> bool {
    0 < segments.len() <= full.len() && full.subrange(0, segments.len() as int) == segments
}

/// The file of a package is the file of the module that the segments of
/// its name lead to.
pub proof fn lemma_leaf_is_file_of_node(m: ModuleView, segments: Seq<Seq<char>>)
    ensures
        m.leaf_at(segments) == (match m.node_at(segments) {
            Some(node) => node.file,
            None => None,
        }),
    decreases segments.len(),
{
    if segments.len() > 0 {
        match child_index(m.children, segments[0]) {
            Some(i) => {
                lemma_leaf_is_file_of_node(m.children[i], segments.drop_first());
            },
            None => {},
        }
    }
}

/// Putting a file into the tree makes the modules that lead to the file's
/// package, and no others: afterwards the tree has a module where it had
/// one before, and where the segments lead on to those of the package.
pub proof fn lemma_pushed_nodes(
    m: ModuleView,
    parent: Seq<Seq<u8>>,
    file: Seq<Seq<u8>>,
    raw_name: Seq<char>,
    segments: Seq<Seq<char>>,
)
    requires
        m.wf(),
        m.pushed(parent, file, raw_name) is Ok,
        segments.len() > 0,
    ensures
        m.pushed(parent, file, raw_name)->Ok_0.node_at(segments) is Some <==> m.node_at(
            segments,
        ) is Some || leads_to(segments, segments_of(raw_name)),
    decreases raw_name.len(),
{
    let target = segments_of(raw_name);
    let after = m.pushed(parent, file, raw_name)->Ok_0;
    let first = segments[0];
    let tail = segments.drop_first();
    assert(segments =~= seq![first] + tail);
    match split_once(raw_name, segment_dot()) {
        Some((cur, rest)) => {
            let below = parent.push(encode_utf8(cur));
            let rest_target = segments_of(rest);
            assert(target =~= seq![cur] + rest_target);
            assert(leads_to(segments, target) <==> first == cur && (tail.len() == 0 || leads_to(
                tail,
                rest_target,
            ))) by {
                if first == cur && tail.len() > 0 && leads_to(tail, rest_target) {
                    assert(target.subrange(0, segments.len() as int) =~= seq![cur]
                        + rest_target.subrange(0, tail.len() as int));
                }
                if first == cur && tail.len() == 0 {
                    assert(target.subrange(0, 1) =~= seq![cur]);
                }
                if leads_to(segments, target) {
                    assert(target.subrange(0, segments.len() as int)[0] == target[0]);
                    if tail.len() > 0 {
                        assert(rest_target.subrange(0, tail.len() as int) =~= target.subrange(
                            0,
                            segments.len() as int,
                        ).drop_first());
                    }
                }
            }
            match child_index(m.children, cur) {
                Some(i) => {
                    let child = m.children[i].pushed(below, file, rest)->Ok_0;
                    lemma_pushed_keeps(m.children[i], below, file, rest);
                    lemma_child_index_after_update(m.children, i, child, first);
                    assert(after.children == m.children.update(i, child));
                    if first == cur {
                        assert(child_index(m.children, first) == Some(i));
                        assert(after.node_at(segments) == after.children[i].node_at(tail));
                        assert(m.node_at(segments) == m.children[i].node_at(tail));
                        if tail.len() > 0 {
                            lemma_pushed_nodes(m.children[i], below, file, rest, tail);
                        }
                    } else {
                        match child_index(m.children, first) {
                            Some(k) => {
                                assert(m.children[k].name == first);
                                assert(after.children[k] == m.children[k]);
                                assert(after.node_at(segments) == after.children[k].node_at(tail));
                            },
                            None => {},
                        }
                    }
                },
                None => {
                    let fresh = empty_module(cur, parent);
                    let child = fresh.pushed(below, file, rest)->Ok_0;
                    lemma_pushed_keeps(fresh, below, file, rest);
                    lemma_position_exists(m.children, cur);
                    let p = position_for(m.children, cur);
                    lemma_child_index_after_insert(m.children, p, child, first);
                    assert(after.children == m.children.insert(p, child));
                    if first == cur {
                        assert(after.node_at(segments) == after.children[p].node_at(tail));
                        assert(m.node_at(segments) is None);
                        if tail.len() > 0 {
                            lemma_pushed_nodes(fresh, below, file, rest, tail);
                            assert(child_index(fresh.children, tail[0]) is None);
                            assert(fresh.node_at(tail) is None);
                        }
                    } else {
                        match child_index(m.children, first) {
                            Some(k) => {
                                let k2 = if k < p {
                                    k
                                } else {
                                    k + 1
                                };
                                assert(after.children[k2] == m.children[k]);
                                assert(after.node_at(segments) == after.children[k2].node_at(tail));
                            },
                            None => {},
                        }
                    }
                },
            }
        },
        None => {
            assert(target =~= seq![raw_name]);
            assert(leads_to(segments, target) <==> first == raw_name && tail.len() == 0) by {
                if first == raw_name && tail.len() == 0 {
                    assert(target.subrange(0, 1) =~= segments);
                }
                if leads_to(segments, target) {
                    assert(target.subrange(0, segments.len() as int)[0] == target[0]);
                }
            }
            match child_index(m.children, raw_name) {
                Some(i) => {
                    let child = m.children[i].with_file(file);
                    lemma_child_index_after_update(m.children, i, child, first);
                    assert(after.children == m.children.update(i, child));
                    if first == raw_name {
                        assert(after.node_at(segments) == after.children[i].node_at(tail));
                        assert(m.node_at(segments) == m.children[i].node_at(tail));
                        if tail.len() > 0 {
                            assert(child.children == m.children[i].children);
                            assert(child.node_at(tail) == m.children[i].node_at(tail));
                        }
                    } else {
                        match child_index(m.children, first) {
                            Some(k) => {
                                assert(m.children[k].name == first);
                                assert(after.children[k] == m.children[k]);
                                assert(after.node_at(segments) == after.children[k].node_at(tail));
                            },
                            None => {},
                        }
                    }
                },
                None => {
                    let child = empty_module(raw_name, parent).with_file(file);
                    lemma_position_exists(m.children, raw_name);
                    let p = position_for(m.children, raw_name);
                    lemma_child_index_after_insert(m.children, p, child, first);
                    assert(after.children == m.children.insert(p, child));
                    if first == raw_name {
                        assert(after.node_at(segments) == after.children[p].node_at(tail));
                        assert(m.node_at(segments) is None);
                        if tail.len() > 0 {
                            assert(child_index(child.children, tail[0]) is None);
                            assert(child.node_at(tail) is None);
                        }
                    } else {
                        match child_index(m.children, first) {
                            Some(k) => {
                                let k2 = if k < p {
                                    k
                                } else {
                                    k + 1
                                };
                                assert(after.children[k2] == m.children[k]);
                                assert(after.node_at(segments) == after.children[k2].node_at(tail));
                            },
                            None => {},
                        }
                    }
                },
            }
        },
    }
}

} // verus!
