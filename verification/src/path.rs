//! Paths as the library sees them: the list of a path's components, each
//! the bytes that the operating system gave, which need not be text.

use crate::error::GenError;
use crate::text::{
    chars_of, chars_start_with, decode, decoded, encode, find_last, lemma_find_last_is,
    lemma_find_last_none, occurs_at, string_of,
};
use vstd::prelude::*;
use vstd::string::StringSliceAdditionalSpecFns;
use vstd::utf8::encode_utf8;

verus! {

/// A path, as the list of its components. The root directory is the
/// component `/`; `.` and `..` stand for themselves.
#[derive(Debug, PartialEq, Eq)]
pub struct OsPath {
    /// The components, from the first directory down.
    pub components: Vec<Vec<u8>>,
}

impl View for OsPath {
    type V = Seq<Seq<u8>>;

    open spec fn view(&self) -> Seq<Seq<u8>> {
        Seq::new(self.components@.len(), |i: int| self.components@[i]@)
    }
}

impl Clone for OsPath {
    fn clone(&self) -> (p: OsPath)
        ensures
            p@ == self@,
    {
        self.subpath(0, self.components.len())
    }
}

/// The component that stands for the root directory.
pub open spec fn root_dir() -> Seq<u8> {
    seq![0x2Fu8]
}

/// The component that stands for the directory itself.
pub open spec fn cur_dir() -> Seq<u8> {
    seq![0x2Eu8]
}

/// The component that stands for the parent directory.
pub open spec fn parent_dir() -> Seq<u8> {
    seq![0x2Eu8, 0x2Eu8]
}

/// Whether a component names a file or a directory of its own.
pub open spec fn is_normal(component: Seq<u8>) -> bool {
    component != root_dir() && component != cur_dir() && component != parent_dir()
}

/// The final component of a path, where it names a file or a directory.
pub open spec fn file_name_of(path: Seq<Seq<u8>>) -> Option<Seq<u8>> {
    if path.len() > 0 && is_normal(path.last()) {
        Some(path.last())
    } else {
        None
    }
}

/// The dot that parts a file's name from its extension.
pub open spec fn dot() -> Seq<u8> {
    seq![0x2Eu8]
}

/// What follows the last dot of a file's name, unless that dot begins the
/// name.
pub open spec fn extension_of(name: Seq<u8>) -> Option<Seq<u8>> {
    match find_last(name, dot()) {
        Some(i) => if i > 0 {
            Some(name.subrange(i + 1, name.len() as int))
        } else {
            None
        },
        None => None,
    }
}

/// An upper-case ASCII letter as its lower-case letter, any other byte as
/// itself.
pub open spec fn ascii_lower(b: u8) -> u8 {
    if 0x41 <= b <= 0x5A {
        (b + 0x20) as u8
    } else {
        b
    }
}

/// Two names are the same but for the case of their ASCII letters.
pub open spec fn eq_ignore_ascii_case(a: Seq<u8>, b: Seq<u8>) -> bool {
    a.len() == b.len() && forall|i: int| 0 <= i < a.len() ==> ascii_lower(a[i]) == ascii_lower(b[i])
}

/// Whether the file that `path` names has the extension `ext`, whatever
/// the case of its ASCII letters.
pub open spec fn has_ext_spec(path: Seq<Seq<u8>>, ext: Seq<u8>) -> bool {
    match file_name_of(path) {
        Some(name) => match extension_of(name) {
            Some(e) => eq_ignore_ascii_case(e, ext),
            None => false,
        },
        None => false,
    }
}

/// The name of the file that a path ends in, as text.
pub open spec fn file_name_text(path: Seq<Seq<u8>>) -> Result<Seq<char>, GenError> {
    match file_name_of(path) {
        None => Err(GenError::NoFileName),
        Some(name) => match decoded(name) {
            None => Err(GenError::NotUnicode),
            Some(text) => Ok(text),
        },
    }
}

/// What follows, in `path`, its last component that is the name `root`.
/// The components are looked at from the last one backwards, and each has
/// to be text up to the one that is found.
pub open spec fn below_root(root: Seq<char>, path: Seq<Seq<u8>>) -> Result<Seq<Seq<u8>>, GenError>
    decreases path.len(),
{
    if path.len() == 0 {
        Err(GenError::RootNotFound)
    } else {
        match decoded(path.last()) {
            None => Err(GenError::NotUnicode),
            Some(text) => if text == root {
                Ok(Seq::empty())
            } else {
                match below_root(root, path.drop_last()) {
                    Ok(tail) => Ok(tail.push(path.last())),
                    Err(e) => Err(e),
                }
            },
        }
    }
}

/// Where `path` lies below the directory `dir`: what follows `dir` in it,
/// if it begins with `dir`.
pub open spec fn place_below(dir: Seq<Seq<u8>>, path: Seq<Seq<u8>>) -> Option<Seq<Seq<u8>>> {
    if dir.len() <= path.len() && path.subrange(0, dir.len() as int) == dir {
        Some(path.subrange(dir.len() as int, path.len() as int))
    } else {
        None
    }
}

/// The suffix that generated source files carry.
pub open spec fn source_suffix() -> Seq<char> {
    seq!['.', 'r', 's']
}

/// Where the index of the top level is kept: beside the directory `dir`,
/// under the directory's own name and the source suffix. A directory that
/// has a name has a parent.
pub open spec fn mod_file_of(dir: Seq<Seq<u8>>) -> Result<Seq<Seq<u8>>, GenError> {
    match file_name_text(dir) {
        Err(e) => Err(e),
        Ok(name) => Ok(dir.drop_last().push(encode_utf8(name + source_suffix()))),
    }
}

/// Whether two byte strings are the same.
pub fn bytes_eq(a: &[u8], b: &[u8]) -> (r: bool)
    ensures
        r == (a@ == b@),
{
    if a.len() != b.len() {
        return false;
    }
    let mut i: usize = 0;
    while i < a.len()
        invariant
            i <= a.len(),
            a.len() == b.len(),
            forall|j: int| 0 <= j < i ==> a@[j] == b@[j],
        decreases a.len() - i,
    {
        if a[i] != b[i] {
            return false;
        }
        i += 1;
    }
    assert(a@ =~= b@);
    true
}

/// A copy of a byte string.
pub fn bytes_clone(a: &[u8]) -> (r: Vec<u8>)
    ensures
        r@ == a@,
{
    vstd::slice::slice_to_vec(a)
}

/// Whether a component names a file or a directory of its own.
pub fn component_is_normal(component: &[u8]) -> (r: bool)
    ensures
        r == is_normal(component@),
{
    let n = component.len();
    if n == 1 {
        assert(component@ =~= seq![component@[0]]);
        component[0] != 0x2F && component[0] != 0x2E
    } else if n == 2 {
        assert(component@ =~= seq![component@[0], component@[1]]);
        !(component[0] == 0x2E && component[1] == 0x2E)
    } else {
        true
    }
}

impl OsPath {
    /// The path without components.
    pub fn new() -> (p: OsPath)
        ensures
            p@ == Seq::<Seq<u8>>::empty(),
    {
        OsPath { components: Vec::new() }
    }

    /// The number of components.
    pub fn len(&self) -> (n: usize)
        ensures
            n == self@.len(),
    {
        self.components.len()
    }

    /// The component at index `i`.
    pub fn component(&self, i: usize) -> (c: &Vec<u8>)
        requires
            i < self@.len(),
        ensures
            c@ == self@[i as int],
    {
        &self.components[i]
    }

    /// The components from `from` up to `to`, as a path of their own.
    pub fn subpath(&self, from: usize, to: usize) -> (p: OsPath)
        requires
            from <= to <= self@.len(),
        ensures
            p@ == self@.subrange(from as int, to as int),
    {
        let mut components: Vec<Vec<u8>> = Vec::new();
        let mut i: usize = from;
        while i < to
            invariant
                from <= i <= to <= self.components@.len(),
                components@.len() == i - from,
                forall|j: int| 0 <= j < i - from ==> components@[j]@ == self.components@[from + j]@,
            decreases to - i,
        {
            components.push(bytes_clone(self.components[i].as_slice()));
            i += 1;
        }
        OsPath { components }
    }

    /// The path with one more component.
    pub fn join(&self, name: &[u8]) -> (p: OsPath)
        ensures
            p@ == self@.push(name@),
    {
        let mut p = self.clone();
        p.components.push(bytes_clone(name));
        p
    }

    /// The path with one more component, given as text.
    pub fn join_text(&self, name: &[char]) -> (p: OsPath)
        ensures
            p@ == self@.push(encode_utf8(name@)),
    {
        let bytes = encode(name);
        self.join(bytes.as_slice())
    }

    /// All of `other`'s components behind this path's.
    pub fn concat(&self, other: &OsPath) -> (p: OsPath)
        ensures
            p@ == self@ + other@,
    {
        let mut p = self.clone();
        let mut i: usize = 0;
        while i < other.components.len()
            invariant
                i <= other.components@.len(),
                p@ == self@ + other@.subrange(0, i as int),
            decreases other.components.len() - i,
        {
            let ghost before = p@;
            p.components.push(bytes_clone(other.components[i].as_slice()));
            i += 1;
            assert(p@ =~= before.push(other@[i - 1]));
        }
        p
    }

    /// Whether two paths have the same components.
    pub fn same_as(&self, other: &OsPath) -> (r: bool)
        ensures
            r == (self@ == other@),
    {
        if self.components.len() != other.components.len() {
            return false;
        }
        let mut i: usize = 0;
        while i < self.components.len()
            invariant
                i <= self.components@.len(),
                self.components@.len() == other.components@.len(),
                forall|j: int| 0 <= j < i ==> self@[j] == other@[j],
            decreases self.components.len() - i,
        {
            if !bytes_eq(self.components[i].as_slice(), other.components[i].as_slice()) {
                assert(self@[i as int] != other@[i as int]);
                return false;
            }
            i += 1;
        }
        assert(self@ =~= other@);
        true
    }

    /// Where this path lies below the directory `dir`: what follows `dir`
    /// in it, if it begins with `dir`.
    pub fn below(&self, dir: &OsPath) -> (place: Option<OsPath>)
        ensures
            match place {
                Some(p) => place_below(dir@, self@) == Some(p@),
                None => place_below(dir@, self@) is None,
            },
    {
        let n = dir.len();
        if n > self.len() {
            return None;
        }
        let head = self.subpath(0, n);
        if head.same_as(dir) {
            Some(self.subpath(n, self.len()))
        } else {
            None
        }
    }

    /// The final component, where it names a file or a directory.
    pub fn file_name(&self) -> (name: Option<&Vec<u8>>)
        ensures
            match name {
                Some(n) => file_name_of(self@) == Some(n@),
                None => file_name_of(self@) is None,
            },
    {
        let n = self.components.len();
        if n == 0 {
            return None;
        }
        let last = &self.components[n - 1];
        if component_is_normal(last.as_slice()) {
            Some(last)
        } else {
            None
        }
    }
}

/// The greatest index at which the byte `b` stands in `s`.
fn rfind_byte(s: &[u8], b: u8) -> (r: Option<usize>)
    ensures
        match r {
            Some(i) => find_last(s@, seq![b]) == Some(i as int) && i < s@.len(),
            None => find_last(s@, seq![b]) is None,
        },
{
    let ghost pat: Seq<u8> = seq![b];
    let mut i: usize = s.len();
    while i > 0
        invariant
            i <= s.len(),
            pat == seq![b],
            forall|j: int| i <= j ==> !occurs_at(s@, pat, j),
        decreases i,
    {
        i -= 1;
        if s[i] == b {
            proof {
                assert(s@.subrange(i as int, i + 1) =~= pat);
                lemma_find_last_is(s@, pat, i as int);
            }
            return Some(i);
        }
        proof {
            if occurs_at(s@, pat, i as int) {
                assert(s@.subrange(i as int, i + 1)[0] == s@[i as int]);
            }
        }
    }
    proof {
        lemma_find_last_none(s@, pat);
    }
    None
}

/// An upper-case ASCII letter as its lower-case letter, any other byte as
/// itself.
fn byte_to_ascii_lower(b: u8) -> (r: u8)
    ensures
        r == ascii_lower(b),
{
    if 0x41 <= b && b <= 0x5A {
        b + 0x20
    } else {
        b
    }
}

/// Whether two names are the same but for the case of their ASCII letters.
fn bytes_eq_ignore_ascii_case(a: &[u8], b: &[u8]) -> (r: bool)
    ensures
        r == eq_ignore_ascii_case(a@, b@),
{
    if a.len() != b.len() {
        return false;
    }
    let mut i: usize = 0;
    while i < a.len()
        invariant
            i <= a.len(),
            a.len() == b.len(),
            forall|j: int| 0 <= j < i ==> ascii_lower(a@[j]) == ascii_lower(b@[j]),
        decreases a.len() - i,
    {
        if byte_to_ascii_lower(a[i]) != byte_to_ascii_lower(b[i]) {
            return false;
        }
        i += 1;
    }
    true
}

/// Whether the file that `path` names has the extension `ext`, whatever the
/// case of its ASCII letters. A name that only begins with a dot has no
/// extension, nor has a path that ends in no file name.
#[must_use]
pub fn has_ext(path: &OsPath, ext: &str) -> (r: bool)
    ensures
        r == has_ext_spec(path@, ext.spec_bytes()),
{
    match path.file_name() {
        None => false,
        Some(name) => {
            let name = name.as_slice();
            match rfind_byte(name, 0x2E) {
                None => false,
                Some(i) => {
                    if i == 0 {
                        false
                    } else {
                        let len = name.len();
                        let found = vstd::slice::slice_subrange(name, i + 1, len);
                        bytes_eq_ignore_ascii_case(found, ext.as_bytes())
                    }
                },
            }
        },
    }
}

/// The name of the file that `path` ends in, as text.
///
/// Fails with `NoFileName` where the path is empty or ends in the root, in
/// `.` or in `..`, and with `NotUnicode` where the name is not valid UTF-8.
pub fn as_file_name_string(path: &OsPath) -> (r: Result<String, GenError>)
    ensures
        match r {
            Ok(name) => file_name_text(path@) == Ok::<Seq<char>, GenError>(name@),
            Err(e) => file_name_text(path@) == Err::<Seq<char>, GenError>(e),
        },
{
    match path.file_name() {
        None => Err(GenError::NoFileName),
        Some(name) => match decode(name.as_slice()) {
            None => Err(GenError::NotUnicode),
            Some(chars) => Ok(string_of(chars.as_slice())),
        },
    }
}

/// What follows, in `path`, its last component that is the name `root`:
/// the place of a file below a root directory of that name, whatever that
/// directory's own place is.
///
/// The components are looked at from the last one backwards. Fails with
/// `NotUnicode` where one of them is reached that is not valid UTF-8, and
/// with `RootNotFound` where none is `root`.
pub fn path_from_starts_with(root: &str, path: &OsPath) -> (r: Result<OsPath, GenError>)
    ensures
        match r {
            Ok(tail) => below_root(root@, path@) == Ok::<Seq<Seq<u8>>, GenError>(tail@),
            Err(e) => below_root(root@, path@) == Err::<Seq<Seq<u8>>, GenError>(e),
        },
{
    let root_chars = chars_of(root);
    let len = path.len();
    let mut i: usize = len;
    proof {
        assert(path@.subrange(0, len as int) =~= path@);
    }
    while i > 0
        invariant
            i <= len,
            len == path@.len(),
            root_chars@ == root@,
            below_root(root@, path@) == (match below_root(root@, path@.subrange(0, i as int)) {
                Ok(tail) => Ok::<Seq<Seq<u8>>, GenError>(tail + path@.subrange(i as int, len as int)),
                Err(e) => Err(e),
            }),
        decreases i,
    {
        let ghost prefix = path@.subrange(0, i as int);
        assert(prefix.drop_last() =~= path@.subrange(0, i - 1));
        match decode(path.component(i - 1).as_slice()) {
            None => {
                return Err(GenError::NotUnicode);
            },
            Some(chars) => {
                if chars.len() == root_chars.len() && chars_start_with(
                    chars.as_slice(),
                    root_chars.as_slice(),
                ) {
                    assert(chars@ =~= root@);
                    let tail = path.subpath(i, len);
                    return Ok(tail);
                }
                proof {
                    if chars@ == root@ {
                        assert(chars@.subrange(0, root@.len() as int) =~= root@);
                    }
                    match below_root(root@, prefix.drop_last()) {
                        Ok(t) => {
                            assert(t.push(prefix.last()) + path@.subrange(i as int, len as int)
                                =~= t + path@.subrange(i - 1, len as int));
                        },
                        Err(_) => {},
                    }
                }
            },
        }
        i -= 1;
    }
    Err(GenError::RootNotFound)
}

/// Where the index of the top level is kept: beside the directory `dir`,
/// under the directory's own name and the suffix `.rs`.
///
/// Fails as `as_file_name_string` does.
pub fn mod_file_path(dir: &OsPath) -> (r: Result<OsPath, GenError>)
    ensures
        match r {
            Ok(p) => mod_file_of(dir@) == Ok::<Seq<Seq<u8>>, GenError>(p@),
            Err(e) => mod_file_of(dir@) == Err::<Seq<Seq<u8>>, GenError>(e),
        },
{
    let name = match as_file_name_string(dir) {
        Ok(name) => name,
        Err(e) => {
            return Err(e);
        },
    };
    let parent = dir.subpath(0, dir.len() - 1);
    let mut chars = chars_of(name.as_str());
    chars.push('.');
    chars.push('r');
    chars.push('s');
    assert(chars@ =~= name@ + source_suffix());
    Ok(parent.join_text(chars.as_slice()))
}

} // verus!
