//! Which files are read and what the files written are called.

use crate::text::{has_suffix, same_text};
use vstd::prelude::*;
use vstd::string::{StrSliceExecFns, StringExecFns};

verus! {

/// A language whose sources can be parsed.
#[derive(Clone, Copy, Debug, PartialEq, Eq, Structural)]
pub enum SourceLanguage {
    Rust,
    TypeScript,
    JavaScript,
}

/// The language of a file with extension `extension`, if it is supported.
pub open spec fn language_of(extension: Seq<char>) -> Option<SourceLanguage> {
    if extension == "rs"@ {
        Some(SourceLanguage::Rust)
    } else if extension == "ts"@ {
        Some(SourceLanguage::TypeScript)
    } else if extension == "js"@ {
        Some(SourceLanguage::JavaScript)
    } else {
        None
    }
}

/// The language of a file with extension `extension`, if it is supported:
/// `rs`, `ts` or `js`.
pub fn language_for_extension(extension: &str) -> (language: Option<SourceLanguage>)
    ensures
        language == language_of(extension@),
{
    if same_text(extension, "rs") {
        Some(SourceLanguage::Rust)
    } else if same_text(extension, "ts") {
        Some(SourceLanguage::TypeScript)
    } else if same_text(extension, "js") {
        Some(SourceLanguage::JavaScript)
    } else {
        None
    }
}

/// The extension of the syntax-tree file of a source file with extension
/// `extension`.
pub open spec fn ast_extension_of(extension: Option<Seq<char>>) -> Seq<char> {
    match extension {
        Some(own) => own + ".ast.json"@,
        None => "ast.json"@,
    }
}

/// The extension of the syntax-tree file of a source file: the file's own
/// extension, if it has one, followed by `ast.json`.
pub fn ast_extension(extension: Option<&str>) -> (name: String)
    ensures
        name@ == ast_extension_of(
            match extension {
                Some(own) => Some(own@),
                None => None,
            },
        ),
{
    match extension {
        Some(own) => String::from_str(own).concat(".ast.json"),
        None => String::from_str("ast.json"),
    }
}

/// Whether `path` names the syntax-tree file of a Rust source file.
pub fn is_rust_ast_file(path: &str) -> (r: bool)
    ensures
        r == ".rs.ast.json"@.is_suffix_of(path@),
{
    has_suffix(path, ".rs.ast.json")
}

/// `text` without the occurrences of `pattern`, found from left to right
/// without overlap.
pub open spec fn without(text: Seq<char>, pattern: Seq<char>) -> Seq<char>
    decreases text.len(),
{
    if pattern.len() == 0 || text.len() < pattern.len() {
        text
    } else if text.subrange(0, pattern.len() as int) == pattern {
        without(text.skip(pattern.len() as int), pattern)
    } else {
        seq![text[0]] + without(text.skip(1), pattern)
    }
}

/// Whether `pattern` stands in `text` at `at`.
fn stands_at(text: &str, at: usize, pattern: &str, length: usize, pattern_length: usize) -> (r:
    bool)
    requires
        length == text@.len(),
        pattern_length == pattern@.len(),
        at + pattern_length <= length,
    ensures
        r == (text@.subrange(at as int, at + pattern_length) == pattern@),
{
    let mut k: usize = 0;
    while k < pattern_length
        invariant
            k <= pattern_length,
            length == text@.len(),
            pattern_length == pattern@.len(),
            at + pattern_length <= length,
            forall|j: int| 0 <= j < k ==> text@[at + j] == pattern@[j],
        decreases pattern_length - k,
    {
        if text.get_char(at + k) != pattern.get_char(k) {
            assert(text@.subrange(at as int, at + pattern_length)[k as int] != pattern@[k as int]);
            return false;
        }
        k = k + 1;
    }
    assert(text@.subrange(at as int, at + pattern_length) =~= pattern@);
    true
}

/// `text` without the occurrences of `pattern`, found from left to right
/// without overlap; an empty pattern occurs nowhere.
pub fn remove_all(text: &str, pattern: &str) -> (rest: String)
    ensures
        rest@ == without(text@, pattern@),
{
    let length: usize = text.unicode_len();
    let pattern_length: usize = pattern.unicode_len();
    if pattern_length == 0 {
        return String::from_str(text);
    }
    let mut rest = String::new();
    let mut at: usize = 0;
    assert(text@.skip(0) =~= text@);
    while at < length
        invariant
            at <= length,
            length == text@.len(),
            pattern_length == pattern@.len(),
            pattern_length > 0,
            rest@ + without(text@.skip(at as int), pattern@) == without(text@, pattern@),
        decreases length - at,
    {
        let ghost tail = text@.skip(at as int);
        if pattern_length <= length - at && stands_at(text, at, pattern, length, pattern_length) {
            proof {
                assert(tail.subrange(0, pattern_length as int) =~= text@.subrange(
                    at as int,
                    at + pattern_length,
                ));
                assert(tail.skip(pattern_length as int) =~= text@.skip(at + pattern_length));
            }
            at = at + pattern_length;
        } else {
            let piece = text.substring_char(at, at + 1);
            proof {
                if pattern_length <= length - at {
                    assert(tail.subrange(0, pattern_length as int) =~= text@.subrange(
                        at as int,
                        at + pattern_length,
                    ));
                    assert(tail.skip(1) =~= text@.skip(at + 1));
                    assert(piece@ =~= seq![tail[0]]);
                    assert((rest@ + piece@) + without(text@.skip(at + 1), pattern@) =~= rest@ + (
                    seq![tail[0]] + without(tail.skip(1), pattern@)));
                } else {
                    lemma_without_short(text@.skip(at + 1), pattern@);
                    assert(piece@ + text@.skip(at + 1) =~= tail);
                    assert((rest@ + piece@) + text@.skip(at + 1) =~= rest@ + tail);
                }
            }
            rest.append(piece);
            at = at + 1;
        }
    }
    assert(text@.skip(length as int) =~= Seq::<char>::empty());
    assert(rest@ + Seq::<char>::empty() =~= rest@);
    rest
}

/// A text shorter than the pattern holds no occurrence of it.
pub proof fn lemma_without_short(text: Seq<char>, pattern: Seq<char>)
    requires
        text.len() < pattern.len(),
    ensures
        without(text, pattern) == text,
{
}

/// The common stem of the graph files of one function.
pub open spec fn cfg_file_stem_of(ast_file_name: Seq<char>, function_name: Seq<char>) -> Seq<char> {
    without(ast_file_name, ".ast.json"@) + "."@ + function_name + ".cfg"@
}

/// The common stem of the graph files of the function `function_name`
/// found in the syntax-tree file `ast_file_name`: the file name without
/// `.ast.json`, the function name, and `cfg`, joined by dots.
pub fn cfg_file_stem(ast_file_name: &str, function_name: &str) -> (stem: String)
    ensures
        stem@ == cfg_file_stem_of(ast_file_name@, function_name@),
{
    proof {
        reveal_strlit(".ast.json");
    }
    remove_all(ast_file_name, ".ast.json").concat(".").concat(function_name).concat(".cfg")
}

} // verus!
