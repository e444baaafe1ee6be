//! Pairs of a key and a value, as they are given on the command line: the
//! key, one colon, the value. A pair that cannot be taken apart is refused
//! with an error of the command line parser, which says what was wrong.

use crate::error::GenError;
use crate::text::{
    chars_of, decode, decoded, find_chars, find_first, lemma_find_first_is,
    lemma_find_first_none, lemma_first_exists, occurs_at, split_once, string_of,
};
use vstd::utf8::encode_utf8;
use vstd::prelude::*;
use vstd::slice::slice_subrange;

verus! {

/// The colon that parts the key from the value.
pub open spec fn separator() -> Seq<char> {
    seq![':']
}

/// The key and the value that an argument holds: what stands before its
/// one colon, and what stands behind it. An argument that is no text, and
/// one that holds no colon or more than one, holds no pair.
pub open spec fn key_value_of(arg: Seq<u8>) -> Result<(Seq<char>, Seq<char>), GenError> {
    match decoded(arg) {
        None => Err(GenError::NotUnicode),
        Some(text) => match split_once(text, separator()) {
            Some((key, value)) => if find_first(value, separator()) is None {
                Ok((key, value))
            } else {
                Err(GenError::NotOneColon)
            },
            None => Err(GenError::NotOneColon),
        },
    }
}

/// Takes an argument apart into its key and its value, at its one colon.
///
/// Fails with `NotUnicode` where the argument is no valid UTF-8, and with
/// `NotOneColon` where it holds no colon or more than one.
pub fn parse_key_value(arg: &[u8]) -> (r: Result<(String, String), GenError>)
    ensures
        match r {
            Ok((key, value)) => key_value_of(arg@) == Ok::<(Seq<char>, Seq<char>), GenError>(
                (key@, value@),
            ),
            Err(e) => key_value_of(arg@) == Err::<(Seq<char>, Seq<char>), GenError>(e),
        },
{
    let text = match decode(arg) {
        Some(text) => text,
        None => {
            return Err(GenError::NotUnicode);
        },
    };
    let colon: Vec<char> = vec![':'];
    assert(colon@ =~= separator());
    match find_chars(text.as_slice(), colon.as_slice()) {
        Some(at) => {
            let len = text.len();
            let key = slice_subrange(text.as_slice(), 0, at);
            let value = slice_subrange(text.as_slice(), at + 1, len);
            match find_chars(value, colon.as_slice()) {
                Some(_) => Err(GenError::NotOneColon),
                None => Ok((string_of(key), string_of(value))),
            }
        },
        None => Err(GenError::NotOneColon),
    }
}

/// Whether the colon stands in the text.
pub open spec fn holds_colon(text: Seq<char>) -> bool {
    exists|i: int| 0 <= i < text.len() && #[trigger] text[i] == ':'
}

/// An argument that holds a pair is the key, one colon and the value, and
/// neither the key nor the value holds a colon.
pub proof fn lemma_pair_holds_one_colon(arg: Seq<u8>)
    requires
        key_value_of(arg) is Ok,
    ensures
        decoded(arg) == Some(key_value_of(arg)->Ok_0.0 + separator() + key_value_of(arg)->Ok_0.1),
        !holds_colon(key_value_of(arg)->Ok_0.0),
        !holds_colon(key_value_of(arg)->Ok_0.1),
{
    let text = decoded(arg)->0;
    let (key, value) = key_value_of(arg)->Ok_0;
    if holds_colon(key) {
        let i = choose|i: int| 0 <= i < key.len() && #[trigger] key[i] == ':';
        assert(text.subrange(i, i + 1) =~= separator());
        assert(occurs_at(text, separator(), i));
    }
    if holds_colon(value) {
        let i = choose|i: int| 0 <= i < value.len() && #[trigger] value[i] == ':';
        assert(value.subrange(i, i + 1) =~= separator());
        lemma_first_exists(value, separator(), i);
    }
}

/// A key, one colon and a value make an argument that holds this pair,
/// given that neither the key nor the value holds a colon.
pub proof fn lemma_one_colon_makes_a_pair(key: Seq<char>, value: Seq<char>)
    requires
        !holds_colon(key),
        !holds_colon(value),
    ensures
        key_value_of(encode_utf8(key + separator() + value)) == Ok::<
            (Seq<char>, Seq<char>),
            GenError,
        >((key, value)),
{
    let text = key + separator() + value;
    vstd::utf8::encode_utf8_valid_utf8(text);
    vstd::utf8::encode_utf8_decode_utf8(text);
    let n = key.len() as int;
    assert(text.subrange(n, n + 1) =~= separator());
    assert forall|j: int| 0 <= j < n implies !occurs_at(text, separator(), j) by {
        if occurs_at(text, separator(), j) {
            assert(text.subrange(j, j + 1)[0] == text[j]);
        }
    }
    lemma_find_first_is(text, separator(), n);
    assert(text.subrange(0, n) =~= key);
    assert(text.subrange(n + 1, text.len() as int) =~= value);
    assert forall|j: int| !occurs_at(value, separator(), j) by {
        if occurs_at(value, separator(), j) {
            assert(value.subrange(j, j + 1)[0] == value[j]);
        }
    }
    lemma_find_first_none(value, separator());
}

/// The kinds of error that concern the value of an argument.
#[derive(Clone, Copy, Debug, PartialEq, Eq, Structural)]
pub enum ErrorClass {
    /// The value is none of those that the argument accepts.
    InvalidValue,
    /// The value did not pass the argument's own validation.
    ValueValidation,
    /// The value is no valid UTF-8.
    InvalidUtf8,
}

/// What a piece of an error's context is about.
#[derive(Clone, Copy, Debug, PartialEq, Eq, Structural)]
pub enum ContextKey {
    /// The argument that was refused.
    InvalidArg,
    /// The value that was refused.
    InvalidValue,
    /// How the argument is to be used.
    Usage,
}

/// A piece of an error's context.
#[derive(Debug)]
pub enum ContextText {
    /// Nothing more is to be said.
    Nothing,
    /// Plain text.
    Plain(String),
    /// Text that may be shown in colours.
    Styled(String),
}

/// What a piece of an error's context is.
pub enum ContextTextView {
    Nothing,
    Plain(Seq<char>),
    Styled(Seq<char>),
}

impl View for ContextText {
    type V = ContextTextView;

    open spec fn view(&self) -> ContextTextView {
        match self {
            ContextText::Nothing => ContextTextView::Nothing,
            ContextText::Plain(text) => ContextTextView::Plain(text@),
            ContextText::Styled(text) => ContextTextView::Styled(text@),
        }
    }
}

/// An error of the command line parser, `clap::Error`: a class, and
/// pieces of context by what they are about.
#[verifier::external_body]
#[derive(Debug)]
pub struct KvError {
    /// The error as the command line parser takes it.
    pub error: clap::Error,
}

/// The class of an error.
pub uninterp spec fn class_of(e: KvError) -> ErrorClass;

/// The pieces of context that an error holds.
pub uninterp spec fn context_of(e: KvError) -> Map<ContextKey, ContextTextView>;

/// No context.
pub open spec fn no_context() -> Map<ContextKey, ContextTextView> {
    Map::empty()
}

/// An error of the given class without context.
///
/// Calls `clap::Error::new`, which makes an error of the kind handed in,
/// with an empty map of context.
#[verifier::external_body]
fn new_error(class: ErrorClass) -> (e: KvError)
    ensures
        class_of(e) == class,
        context_of(e) == no_context(),
{
    let kind = match class {
        ErrorClass::InvalidValue => clap::error::ErrorKind::InvalidValue,
        ErrorClass::ValueValidation => clap::error::ErrorKind::ValueValidation,
        ErrorClass::InvalidUtf8 => clap::error::ErrorKind::InvalidUtf8,
    };
    KvError { error: clap::Error::new(kind) }
}

/// Puts a piece of context into an error, in place of what the error held
/// about the same thing.
///
/// Calls `clap::Error::insert`, which inserts the value under the kind
/// into the error's map of context and replaces a value that is there.
#[verifier::external_body]
fn insert_context(e: &mut KvError, key: ContextKey, value: ContextText)
    ensures
        class_of(*final(e)) == class_of(*old(e)),
        context_of(*final(e)) == context_of(*old(e)).insert(key, value@),
{
    let kind = match key {
        ContextKey::InvalidArg => clap::error::ContextKind::InvalidArg,
        ContextKey::InvalidValue => clap::error::ContextKind::InvalidValue,
        ContextKey::Usage => clap::error::ContextKind::Usage,
    };
    let value = match value {
        ContextText::Nothing => clap::error::ContextValue::None,
        ContextText::Plain(text) => clap::error::ContextValue::String(text),
        ContextText::Styled(text) => clap::error::ContextValue::StyledStr(text.into()),
    };
    e.error.insert(kind, value);
}

/// What is said of the use of an argument that is no text.
pub open spec fn usage_of_text() -> Seq<char> {
    "Both key and value of KV-pair must be valid UTF-8."@
}

/// What is said of the use of an argument that holds no colon or more
/// than one.
pub open spec fn usage_of_colon() -> Seq<char> {
    "KV-pair must contain exactly one `:`."@
}

/// The context of the error that refuses an argument: the argument's
/// name, if it is known; the value that was refused, if it is text; and how
/// such an argument is to be used.
pub open spec fn refusal_context(arg: Option<Seq<char>>, value: Seq<u8>) -> Map<
    ContextKey,
    ContextTextView,
> {
    let named = match arg {
        Some(name) => no_context().insert(ContextKey::InvalidArg, ContextTextView::Plain(name)),
        None => no_context(),
    };
    match decoded(value) {
        None => named.insert(ContextKey::Usage, ContextTextView::Styled(usage_of_text())).insert(
            ContextKey::InvalidValue,
            ContextTextView::Nothing,
        ),
        Some(text) => named.insert(ContextKey::InvalidValue, ContextTextView::Plain(text)).insert(
            ContextKey::Usage,
            ContextTextView::Styled(usage_of_colon()),
        ),
    }
}

/// The name of an argument, if it is known.
pub open spec fn arg_view(arg: Option<&String>) -> Option<Seq<char>> {
    match arg {
        Some(name) => Some(name@),
        None => None,
    }
}

/// Takes the value of the argument `arg` apart into a key and a value, at
/// its one colon.
///
/// A value that is no valid UTF-8, and one that holds no colon or more
/// than one, is refused
/// with an error of the class `ValueValidation`, whose context names the
/// argument, if it is known, and says what was wrong with the value.
pub fn parse_ref(arg: Option<&String>, value: &[u8]) -> (r: Result<(String, String), KvError>)
    ensures
        match r {
            Ok((key, val)) => key_value_of(value@) == Ok::<(Seq<char>, Seq<char>), GenError>(
                (key@, val@),
            ),
            Err(e) => key_value_of(value@) is Err && class_of(e) == ErrorClass::ValueValidation
                && context_of(e) == refusal_context(arg_view(arg), value@),
        },
{
    let cause = match parse_key_value(value) {
        Ok(pair) => {
            return Ok(pair);
        },
        Err(cause) => cause,
    };
    let mut e = new_error(ErrorClass::ValueValidation);
    if let Some(name) = arg {
        insert_context(
            &mut e,
            ContextKey::InvalidArg,
            ContextText::Plain(string_of(chars_of(name.as_str()).as_slice())),
        );
    }
    match decode(value) {
        None => {
            insert_context(
                &mut e,
                ContextKey::Usage,
                ContextText::Styled(
                    string_of(
                        chars_of("Both key and value of KV-pair must be valid UTF-8.").as_slice(),
                    ),
                ),
            );
            insert_context(&mut e, ContextKey::InvalidValue, ContextText::Nothing);
        },
        Some(text) => {
            insert_context(
                &mut e,
                ContextKey::InvalidValue,
                ContextText::Plain(string_of(text.as_slice())),
            );
            insert_context(
                &mut e,
                ContextKey::Usage,
                ContextText::Styled(
                    string_of(chars_of("KV-pair must contain exactly one `:`.").as_slice()),
                ),
            );
        },
    }
    Err(e)
}

} // verus!
