//! Everything that this library takes from outside on trust: one wrapper per outside function,
//! with the facts that its callers rely on.

use vstd::prelude::*;
use vstd::utf8::{encode_utf8, valid_utf8};

verus! {

/// What `String::from_utf8_lossy` makes of a byte string.
pub uninterp spec fn lossy_text(bytes: Seq<u8>) -> Seq<char>;

/// Calls `String::from_utf8_lossy`: a function of the bytes alone, which keeps valid UTF-8 as
/// it is.
#[verifier::external_body]
pub(crate) fn decode_lossy(bytes: &[u8]) -> (text: String)
    ensures
        text@ == lossy_text(bytes@),
        valid_utf8(bytes@) ==> encode_utf8(text@) == bytes@,
{
    String::from_utf8_lossy(bytes).into_owned()
}

/// Calls `String::from_utf8`: succeeds on valid UTF-8 alone, and gives the text that it encodes.
#[verifier::external_body]
pub(crate) fn decode_utf8(bytes: &[u8]) -> (text: Option<String>)
    ensures
        text is Some == valid_utf8(bytes@),
        text matches Some(text) ==> encode_utf8(text@) == bytes@,
{
    String::from_utf8(bytes.to_vec()).ok()
}

/// `String::push`: the character comes behind those of the text.
pub assume_specification[ String::push ](text: &mut String, letter: char)
    ensures
        final(text)@ == old(text)@.push(letter),
;

/// The SHA-256 digest of a byte string.
pub uninterp spec fn sha256_of(bytes: Seq<u8>) -> Seq<u8>;

/// Calls `sha2::Sha256::digest`: a function of the bytes alone, with 32 bytes of output.
#[verifier::external_body]
pub(crate) fn sha256(bytes: &[u8]) -> (digest: Vec<u8>)
    ensures
        digest@ == sha256_of(bytes@),
        digest@.len() == 32,
{
    <sha2::Sha256 as sha2::Digest>::digest(bytes).to_vec()
}

/// The milliseconds since the epoch that an RFC 3339 text stands for, if it is one.
pub uninterp spec fn rfc3339_millis(text: Seq<char>) -> Option<i64>;

/// Calls `chrono::DateTime::parse_from_rfc3339` and reads the result's milliseconds since the
/// epoch in UTC: a function of the text alone.
#[verifier::external_body]
pub(crate) fn parse_rfc3339(text: &str) -> (millis: Option<i64>)
    ensures
        millis == rfc3339_millis(text@),
{
    chrono::DateTime::parse_from_rfc3339(text)
        .ok()
        .map(|date| date.with_timezone(&chrono::Utc).timestamp_millis())
}

/// The error of the system's random source.
#[verifier::external_type_specification]
#[verifier::external_body]
pub struct ExRandomError(getrandom::Error);

/// Calls `getrandom::fill` on a buffer of 32 bytes. Nothing is promised of the bytes, nor that
/// the system hands any out.
#[verifier::external_body]
pub(crate) fn random_bytes() -> (bytes: Result<[u8; 32], getrandom::Error>) {
    let mut bytes = [0u8; 32];
    getrandom::fill(&mut bytes).map(|_| bytes)
}

/// How `serde_json` reads a document: `None` if it is no JSON, the text if it is a JSON string,
/// and `Some(None)` for any other JSON.
pub uninterp spec fn json_shape(document: Seq<u8>) -> Option<Option<Seq<char>>>;

/// Calls `serde_json::from_slice` for a `serde_json::Value` and looks whether it is a string: a
/// function of the bytes alone.
#[verifier::external_body]
pub(crate) fn read_json(document: &[u8]) -> (shape: Option<Option<String>>)
    ensures
        shape.deep_view() == json_shape(document@),
{
    serde_json::from_slice::<serde_json::Value>(document)
        .ok()
        .map(|value| value.as_str().map(|text| text.to_owned()))
}

/// How `serde_json` writes a text as a JSON string.
pub uninterp spec fn json_string(text: Seq<char>) -> Seq<char>;

/// Calls `serde_json::Value::String(..).to_string()`, which writes a text as a JSON string: a
/// function of the text alone, and reading the document gives the text back.
#[verifier::external_body]
pub(crate) fn write_json_string(text: &str) -> (document: String)
    ensures
        document@ == json_string(text@),
        json_shape(encode_utf8(document@)) == Some(Some(text@)),
{
    serde_json::Value::String(text.to_owned()).to_string()
}

/// How `serde_json` writes a list of pairs of texts.
pub uninterp spec fn json_pairs(pairs: Seq<(Seq<char>, Seq<char>)>) -> Seq<u8>;

/// Calls `serde_json::to_vec` on a list of pairs of texts: a function of the texts alone, which
/// always succeeds.
#[verifier::external_body]
pub(crate) fn write_pairs(pairs: &Vec<(String, String)>) -> (document: Option<Vec<u8>>)
    ensures
        document matches Some(document) && document@ == json_pairs(pairs.deep_view()),
{
    serde_json::to_vec(pairs).ok()
}

/// A parsed glob pattern.
#[verifier::external_type_specification]
#[verifier::external_body]
pub struct ExGlob(globset::Glob);

/// A set of globs in the making.
#[verifier::external_type_specification]
#[verifier::external_body]
pub struct ExGlobSetBuilder(globset::GlobSetBuilder);

/// A compiled set of globs.
#[verifier::external_type_specification]
#[verifier::external_body]
pub struct ExGlobSet(globset::GlobSet);

/// The error of a glob that cannot be parsed or compiled.
#[verifier::external_type_specification]
#[verifier::external_body]
pub struct ExGlobError(globset::Error);

/// The text that a glob was parsed from.
pub uninterp spec fn glob_pattern(glob: globset::Glob) -> Seq<char>;

/// `globset` can parse the pattern.
pub uninterp spec fn glob_parses(pattern: Seq<char>) -> bool;

/// The patterns that were added to a set in the making.
pub uninterp spec fn builder_patterns(builder: globset::GlobSetBuilder) -> Seq<Seq<char>>;

/// The patterns of a compiled set.
pub uninterp spec fn set_patterns(set: globset::GlobSet) -> Seq<Seq<char>>;

/// `globset` can compile a set of these patterns.
pub uninterp spec fn set_compiles(patterns: Seq<Seq<char>>) -> bool;

/// `globset` finds that the pattern matches the path.
pub uninterp spec fn glob_matches(pattern: Seq<char>, path: Seq<u8>) -> bool;

/// What the next character of a pattern is part of.
#[derive(Clone, Copy)]
pub enum Reading {
    /// Of the pattern itself.
    Plain,
    /// Of an escape, which a backslash began: it is a literal.
    Escape,
    /// Of a character class, whose bracket was just opened.
    ClassOpened,
    /// Of a character class that was just negated.
    ClassNegated,
    /// Of a character class that has a character.
    Class,
}

/// What the character behind this one is part of. The first character of a class is a member
/// of it, even a closing bracket.
pub open spec fn read_on(reading: Reading, letter: char) -> Reading {
    match reading {
        Reading::Plain => if letter == '\\' {
            Reading::Escape
        } else if letter == '[' {
            Reading::ClassOpened
        } else {
            Reading::Plain
        },
        Reading::Escape => Reading::Plain,
        Reading::ClassOpened => if letter == '!' || letter == '^' {
            Reading::ClassNegated
        } else {
            Reading::Class
        },
        Reading::ClassNegated => Reading::Class,
        Reading::Class => if letter == ']' {
            Reading::Plain
        } else {
            Reading::Class
        },
    }
}

/// What the character behind the first `n` characters of a pattern is part of.
pub open spec fn reading_at(pattern: Seq<char>, n: int) -> Reading
    decreases n,
{
    if n <= 0 {
        Reading::Plain
    } else {
        read_on(reading_at(pattern, n - 1), pattern[n - 1])
    }
}

/// How many alternations are open after the first `n` characters of a pattern.
pub open spec fn open_braces(pattern: Seq<char>, n: int) -> nat
    decreases n,
{
    if n <= 0 {
        0
    } else {
        let before = open_braces(pattern, n - 1);
        if !(reading_at(pattern, n - 1) is Plain) {
            before
        } else if pattern[n - 1] == '{' {
            before + 1
        } else if pattern[n - 1] == '}' && before > 0 {
            (before - 1) as nat
        } else {
            before
        }
    }
}

/// How deeply the alternations of a pattern may be nested: twice as deeply as groups in a
/// regular expression that the compiler of patterns accepts.
pub const MAX_BRACE_DEPTH: usize = 500;

/// The alternations of a pattern are nested so little that it can be parsed without exhausting
/// the stack.
pub open spec fn few_braces(pattern: Seq<char>) -> bool {
    forall|n: int|
        0 <= n <= pattern.len() ==> #[trigger] open_braces(pattern, n) <= MAX_BRACE_DEPTH
}

/// Calls `globset::GlobBuilder::build` with wildcards that match separators too: whether it
/// succeeds is a function of the pattern, which the glob keeps. It recurses once for each level
/// of nested alternations, without a limit of its own.
#[verifier::external_body]
pub(crate) fn parse_glob(pattern: &str) -> (glob: Result<globset::Glob, globset::Error>)
    requires
        few_braces(pattern@),
    ensures
        glob is Ok == glob_parses(pattern@),
        glob matches Ok(glob) ==> glob_pattern(glob) == pattern@,
{
    globset::GlobBuilder::new(pattern).literal_separator(false).build()
}

/// Calls `globset::GlobSetBuilder::new`: nothing was added yet.
#[verifier::external_body]
pub(crate) fn new_glob_set() -> (builder: globset::GlobSetBuilder)
    ensures
        builder_patterns(builder) == Seq::<Seq<char>>::empty(),
{
    globset::GlobSetBuilder::new()
}

/// Calls `globset::GlobSetBuilder::add`: the glob comes behind those added before.
#[verifier::external_body]
pub(crate) fn add_glob(builder: &mut globset::GlobSetBuilder, glob: globset::Glob)
    ensures
        builder_patterns(*final(builder)) == builder_patterns(*old(builder)).push(
            glob_pattern(glob),
        ),
{
    builder.add(glob);
}

/// Calls `globset::GlobSetBuilder::build`: whether it succeeds is a function of the patterns
/// that were added, and the set holds those.
#[verifier::external_body]
pub(crate) fn compile_globs(builder: &globset::GlobSetBuilder) -> (set: Result<
    globset::GlobSet,
    globset::Error,
>)
    ensures
        set is Ok == set_compiles(builder_patterns(*builder)),
        set matches Ok(set) ==> set_patterns(set) == builder_patterns(*builder),
{
    builder.build()
}

/// Calls `globset::GlobSet::is_match_candidate` on the bytes of a path: whether any pattern of
/// the set matches it.
#[verifier::external_body]
pub(crate) fn any_glob_matches(set: &globset::GlobSet, path: &[u8]) -> (result: bool)
    ensures
        result == (exists|i: int|
            0 <= i && i < set_patterns(*set).len() && glob_matches(
                #[trigger] set_patterns(*set)[i],
                path@,
            )),
{
    set.is_match_candidate(&globset::Candidate::from_bytes(path))
}

} // verus!
