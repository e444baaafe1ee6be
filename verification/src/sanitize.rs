//! Keeps documentation tooling from running what it would take for code
//! examples in generated comments: fenced blocks are tagged `ignore`, and
//! runs of indented documentation lines are fenced and tagged.

use crate::text::{
    chars_end_with, chars_of, ends_with, find_chars, find_first, lemma_first_exists, occurs_at,
    push_chars, split_once, string_of,
};
use vstd::prelude::*;
use vstd::slice::slice_subrange;

verus! {

/// The characters with the Unicode property `White_Space`.
pub open spec fn is_whitespace(c: char) -> bool {
    let u = c as u32;
    ||| 0x09 <= u <= 0x0D
    ||| u == 0x20
    ||| u == 0x85
    ||| u == 0xA0
    ||| u == 0x1680
    ||| 0x2000 <= u <= 0x200A
    ||| u == 0x2028
    ||| u == 0x2029
    ||| u == 0x202F
    ||| u == 0x205F
    ||| u == 0x3000
}

/// Whether `c` has the Unicode property `White_Space`.
pub fn char_is_whitespace(c: char) -> (r: bool)
    ensures
        r == is_whitespace(c),
{
    let u: u32 = c as u32;
    (0x09 <= u && u <= 0x0D) || u == 0x20 || u == 0x85 || u == 0xA0 || u == 0x1680 || (0x2000 <= u
        && u <= 0x200A) || u == 0x2028 || u == 0x2029 || u == 0x202F || u == 0x205F || u == 0x3000
}

/// The line feed that ends a line.
pub open spec fn line_feed() -> Seq<char> {
    seq!['\n']
}

/// The three backticks that open and close a fenced block.
pub open spec fn fence() -> Seq<char> {
    seq!['`', '`', '`']
}

/// The three slashes that begin a documentation comment.
pub open spec fn doc_marker() -> Seq<char> {
    seq!['/', '/', '/']
}

/// The tag that tells documentation tooling not to run a block.
pub open spec fn ignore_tag() -> Seq<char> {
    seq!['i', 'g', 'n', 'o', 'r', 'e']
}

/// The line put before a run of indented documentation lines.
pub open spec fn opening_line() -> Seq<char> {
    doc_marker() + fence() + ignore_tag() + line_feed()
}

/// The line put behind a run of indented documentation lines.
pub open spec fn closing_line() -> Seq<char> {
    doc_marker() + fence() + line_feed()
}

/// Where the first line of `text` ends: at its first line feed, or at the
/// end of the text where it holds none.
pub open spec fn first_line_end(text: Seq<char>) -> int {
    match find_first(text, line_feed()) {
        Some(i) => i,
        None => text.len() as int,
    }
}

/// The first line of `text`, without the line feed that ends it and
/// without a carriage return before that line feed.
pub open spec fn first_line(text: Seq<char>) -> Seq<char> {
    let n = first_line_end(text);
    let raw = text.subrange(0, n);
    if n < text.len() && raw.len() > 0 && raw.last() == '\r' {
        raw.drop_last()
    } else {
        raw
    }
}

/// What follows the first line of `text` and its line feed.
pub open spec fn after_first_line(text: Seq<char>) -> Seq<char> {
    let n = first_line_end(text);
    if 0 <= n < text.len() {
        text.subrange(n + 1, text.len() as int)
    } else {
        Seq::empty()
    }
}

/// The lines of `text`. A line ends at a line feed, or at a carriage return
/// and a line feed; what stands behind the last line feed is a line only
/// where it is not empty.
pub open spec fn lines_of(text: Seq<char>) -> Seq<Seq<char>>
    decreases text.len(),
{
    if text.len() == 0 {
        Seq::empty()
    } else {
        seq![first_line(text)] + lines_of(after_first_line(text))
    }
}

/// Whether what follows a documentation marker begins with four
/// whitespace characters.
pub open spec fn indented(rest: Seq<char>) -> bool {
    &&& rest.len() >= 4
    &&& is_whitespace(rest[0])
    &&& is_whitespace(rest[1])
    &&& is_whitespace(rest[2])
    &&& is_whitespace(rest[3])
}

/// What follows the first documentation marker of a line, if it has one.
pub open spec fn doc_content(line: Seq<char>) -> Option<Seq<char>> {
    match split_once(line, doc_marker()) {
        Some((_, rest)) => Some(rest),
        None => None,
    }
}

/// A documentation line whose content is indented.
pub open spec fn is_indented_doc(line: Seq<char>) -> bool {
    match doc_content(line) {
        Some(rest) => indented(rest),
        None => false,
    }
}

/// What the scan remembers from one line to the next.
#[derive(Clone, Copy, Debug, PartialEq, Eq, Structural)]
pub struct ScanState {
    /// The scan is inside a fenced block.
    pub in_fence: bool,
    /// The scan is inside a run of indented documentation lines.
    pub in_example: bool,
}

/// The state in which a scan begins.
pub open spec fn start_state() -> ScanState {
    ScanState { in_fence: false, in_example: false }
}

/// What one line does to the state, and what is written for it.
pub open spec fn step(st: ScanState, line: Seq<char>) -> (ScanState, Seq<char>) {
    let is_fence = ends_with(line, fence());
    if is_fence && !st.in_fence {
        (ScanState { in_fence: true, in_example: st.in_example }, line + ignore_tag() + line_feed())
    } else if st.in_fence && !is_fence {
        (st, line + line_feed())
    } else if is_indented_doc(line) {
        if st.in_example {
            (ScanState { in_fence: false, in_example: true }, line + line_feed())
        } else {
            (
                ScanState { in_fence: false, in_example: true },
                opening_line() + line + line_feed(),
            )
        }
    } else if st.in_example {
        (ScanState { in_fence: false, in_example: false }, closing_line() + line + line_feed())
    } else {
        (ScanState { in_fence: false, in_example: false }, line + line_feed())
    }
}

/// What is written for `lines`, scanned from the state `st`.
pub open spec fn scan(st: ScanState, lines: Seq<Seq<char>>) -> Seq<char>
    decreases lines.len(),
{
    if lines.len() == 0 {
        Seq::empty()
    } else {
        let (next, written) = step(st, lines[0]);
        written + scan(next, lines.drop_first())
    }
}

/// The text with its fenced blocks tagged and its indented documentation
/// lines fenced.
pub open spec fn sanitized(text: Seq<char>) -> Seq<char> {
    scan(start_state(), lines_of(text))
}

/// Whether the content of a documentation line is indented.
fn content_is_indented(rest: &[char]) -> (r: bool)
    ensures
        r == indented(rest@),
{
    rest.len() >= 4 && char_is_whitespace(rest[0]) && char_is_whitespace(rest[1])
        && char_is_whitespace(rest[2]) && char_is_whitespace(rest[3])
}

/// Whether `line` is a documentation line with indented content.
fn line_is_indented_doc(line: &[char]) -> (r: bool)
    ensures
        r == is_indented_doc(line@),
{
    let marker: Vec<char> = vec!['/', '/', '/'];
    match find_chars(line, marker.as_slice()) {
        Some(i) => {
            assert(occurs_at(line@, doc_marker(), i as int));
            let len = line.len();
            let rest = slice_subrange(line, i + 3, len);
            content_is_indented(rest)
        },
        None => false,
    }
}

/// Scans one line: moves the state on and appends what is written for the
/// line to `out`.
fn scan_line(st: ScanState, line: &[char], out: &mut Vec<char>) -> (next: ScanState)
    ensures
        next == step(st, line@).0,
        final(out)@ == old(out)@ + step(st, line@).1,
{
    let backticks: Vec<char> = vec!['`', '`', '`'];
    let tag: Vec<char> = vec!['i', 'g', 'n', 'o', 'r', 'e'];
    let opening: Vec<char> = vec!['/', '/', '/', '`', '`', '`', 'i', 'g', 'n', 'o', 'r', 'e', '\n'];
    let closing: Vec<char> = vec!['/', '/', '/', '`', '`', '`', '\n'];
    let is_fence = chars_end_with(line, backticks.as_slice());
    let mut next = st;
    if is_fence && !st.in_fence {
        next.in_fence = true;
        push_chars(out, line);
        push_chars(out, tag.as_slice());
        out.push('\n');
        return next;
    }
    if st.in_fence && !is_fence {
        push_chars(out, line);
        out.push('\n');
        return next;
    }
    next.in_fence = false;
    if line_is_indented_doc(line) {
        if !st.in_example {
            next.in_example = true;
            push_chars(out, opening.as_slice());
        }
    } else if st.in_example {
        next.in_example = false;
        push_chars(out, closing.as_slice());
    }
    push_chars(out, line);
    out.push('\n');
    next
}

/// Rewrites generated text so that documentation tooling runs none of it:
/// a line that opens a fenced block gets the tag `ignore`, and each run of
/// indented documentation lines is put between a tagged fence and a closing
/// fence. Every line of the result ends in a line feed.
pub fn hide_doctests(content: &str) -> (clean: String)
    ensures
        clean@ == sanitized(content@),
{
    let chars = chars_of(content);
    let text = chars.as_slice();
    let feed: Vec<char> = vec!['\n'];
    let mut out: Vec<char> = Vec::new();
    let mut st = ScanState { in_fence: false, in_example: false };
    let mut pos: usize = 0;
    assert(text@.subrange(0, text@.len() as int) =~= text@);
    while pos < text.len()
        invariant
            pos <= text.len(),
            feed@ == line_feed(),
            text@ == content@,
            out@ + scan(st, lines_of(text@.subrange(pos as int, text@.len() as int))) == sanitized(
                content@,
            ),
        decreases text.len() - pos,
    {
        let rest = slice_subrange(text, pos, text.len());
        let ghost lines = lines_of(rest@);
        let end: usize;
        let next_pos: usize;
        match find_chars(rest, feed.as_slice()) {
            Some(n) => {
                let stripped = n > 0 && rest[n - 1] == '\r';
                end = if stripped {
                    n - 1
                } else {
                    n
                };
                next_pos = pos + n + 1;
                if stripped {
                    assert(rest@.subrange(0, n as int).drop_last() =~= rest@.subrange(0, n - 1));
                }
                assert(rest@.subrange(n + 1, rest@.len() as int) =~= text@.subrange(
                    next_pos as int,
                    text@.len() as int,
                ));
            },
            None => {
                end = rest.len();
                next_pos = text.len();
            },
        }
        let line = slice_subrange(rest, 0, end);
        assert(lines.drop_first() =~= lines_of(after_first_line(rest@)));
        st = scan_line(st, line, &mut out);
        pos = next_pos;
    }
    string_of(out.as_slice())
}

/// A line that the scan writes as it stands: it ends in no fence and is
/// no documentation line with indented content.
pub open spec fn plain_line(line: Seq<char>) -> bool {
    !ends_with(line, fence()) && !is_indented_doc(line)
}

/// Every line of the text ends in a line feed, and none in a carriage
/// return and a line feed.
pub open spec fn feed_terminated(text: Seq<char>) -> bool {
    &&& text.len() == 0 || text.last() == '\n'
    &&& forall|i: int|
        0 <= i < text.len() - 1 && #[trigger] text[i] == '\r' ==> text[i + 1] != '\n'
}

/// Text without fenced blocks and without indented documentation lines
/// comes back unchanged, given that each of its lines ends in a bare line
/// feed.
pub proof fn lemma_plain_text_is_unchanged(text: Seq<char>)
    requires
        feed_terminated(text),
        forall|i: int| 0 <= i < lines_of(text).len() ==> plain_line(#[trigger] lines_of(text)[i]),
    ensures
        sanitized(text) == text,
    decreases text.len(),
{
    if text.len() > 0 {
        let len = text.len() as int;
        assert(text.subrange(len - 1, len) =~= line_feed());
        lemma_first_exists(text, line_feed(), len - 1);
        let n = find_first(text, line_feed())->0;
        assert(text.subrange(n, n + 1)[0] == text[n]);
        let after = text.subrange(n + 1, len);
        let lines = lines_of(text);
        assert(lines.drop_first() =~= lines_of(after));
        assert(plain_line(lines[0]));
        assert forall|i: int| 0 <= i < lines_of(after).len() implies plain_line(
            #[trigger] lines_of(after)[i],
        ) by {
            assert(lines_of(after)[i] == lines[i + 1]);
        }
        lemma_plain_text_is_unchanged(after);
    }
}

} // verus!
