//! Splits source files into top-level code segments, and splits text into
//! overlapping chunks.
use vstd::prelude::*;

pub mod chunk_laws;
pub mod chunk_cover;
pub mod chunk_order;
pub mod chunk_windows;
pub mod files;
pub mod recursive_character_text_splitter;
pub mod segments;
mod syntax;
pub mod text;
mod threads;

use crate::segments::{
    all_valid, lemma_empty_source_has_no_segments, lemma_segments_in_order, segments_in_order, ranges_are_valid, segment_ranges, segments_of, select_segment_ranges, SyntaxNode,
};
use crate::syntax::{
    c_top_level, cpp_top_level, javascript_top_level, language_error_message, parse_c_top_level,
    parse_cpp_top_level, parse_javascript_top_level, parse_python_top_level,
    parse_rust_top_level, python_top_level, rust_top_level,
};
use crate::text::lemma_byte_len_is_utf8_len;
use crate::threads::{build_thread_pool, par_segment_texts, thread_pool_error_message};
use rayon::ThreadPool;

verus! {

/// The languages that the library names.
#[derive(Clone, Copy, Debug, PartialEq, Eq, Structural)]
pub enum CodeLanguage {
    C,
    Cpp,
    Go,
    Java,
    Kotlin,
    Python,
    JavaScript,
    Js,
    Ts,
    Php,
    Proto,
    R,
    Rust,
}

/// Why parsing or a lookup failed.
#[derive(Clone, Debug)]
pub enum ParseError {
    /// `parse_str` has no grammar for the language.
    UnsupportedLanguage(CodeLanguage),
    /// The language has no file extension for directory walks.
    UnsupportedExtensionLanguage(CodeLanguage),
    /// The grammar could not be loaded into the parser (tree-sitter's message).
    LanguageLoad(String),
    /// The parser returned no tree.
    ParseFailed,
    /// The thread pool could not be built (rayon's message).
    ThreadPool(String),
    /// A segment's byte range does not lie on character boundaries of the source.
    InvalidNodeRange,
}

/// The languages that `parse_str` parses.
pub open spec fn parses_language(lang: CodeLanguage) -> bool {
    match lang {
        CodeLanguage::C | CodeLanguage::Cpp | CodeLanguage::Python | CodeLanguage::JavaScript
        | CodeLanguage::Js | CodeLanguage::Rust => true,
        _ => false,
    }
}

/// The file extension of each language that directory walks look for.
pub open spec fn file_extension(lang: CodeLanguage) -> Option<Seq<char>> {
    match lang {
        CodeLanguage::C => Some("c"@),
        CodeLanguage::Cpp => Some("cpp"@),
        CodeLanguage::Python => Some("py"@),
        CodeLanguage::JavaScript | CodeLanguage::Js => Some("js"@),
        CodeLanguage::Rust => Some("rs"@),
        _ => None,
    }
}

/// The file extension (without the dot) of the files of `lang`.
pub fn get_file_extension(lang: CodeLanguage) -> (r: Result<&'static str, ParseError>)
    ensures
        match file_extension(lang) {
            Some(ext) => r matches Ok(e) && e@ == ext,
            None => r matches Err(ParseError::UnsupportedExtensionLanguage(l)) && l == lang,
        },
{
    match lang {
        CodeLanguage::C => Ok("c"),
        CodeLanguage::Cpp => Ok("cpp"),
        CodeLanguage::Python => Ok("py"),
        CodeLanguage::JavaScript | CodeLanguage::Js => Ok("js"),
        CodeLanguage::Rust => Ok("rs"),
        unsupported => Err(ParseError::UnsupportedExtensionLanguage(unsupported)),
    }
}

/// The top-level syntax nodes of `source` under the grammar of `lang` (none
/// for a language without a grammar).
pub open spec fn top_level_syntax(source: Seq<char>, lang: CodeLanguage) -> Seq<Option<SyntaxNode>> {
    match lang {
        CodeLanguage::C => c_top_level(source),
        CodeLanguage::Cpp => cpp_top_level(source),
        CodeLanguage::Python => python_top_level(source),
        CodeLanguage::JavaScript | CodeLanguage::Js => javascript_top_level(source),
        CodeLanguage::Rust => rust_top_level(source),
        _ => Seq::empty(),
    }
}

/// The number of workers of the pool for `thread_num`: one when it is zero.
pub fn pool_size(thread_num: u16) -> (n: usize)
    ensures
        n == if thread_num == 0 {
            1
        } else {
            thread_num as usize
        },
{
    if thread_num == 0 {
        1
    } else {
        thread_num as usize
    }
}

/// The top-level code segments of `source`, in order: the text of every
/// top-level node that `lang` keeps (see `segments::is_segment_node`), with a
/// following `;` for C/C++ type specifiers, whitespace-only texts left out.
/// The top-level nodes are those that tree-sitter parses with the grammar of
/// `lang` (`top_level_syntax`). The texts are collected on a pool of
/// `pool_size(thread_num)` threads.
pub fn parse_str(source: &str, lang: CodeLanguage, thread_num: u16) -> (r: Result<
    Vec<String>,
    ParseError,
>)
    ensures
        !parses_language(lang) <==> (r matches Err(ParseError::UnsupportedLanguage(l)) && l
            == lang),
        r matches Ok(v) ==> v@.map_values(|s: String| s@) == segments_of(
            source@,
            lang,
            top_level_syntax(source@, lang),
        ),
        r matches Err(e) ==> parses_language(lang) ==> (e is ThreadPool || e is InvalidNodeRange),
        (r matches Err(ParseError::InvalidNodeRange)) ==> !all_valid(
            source@,
            segment_ranges(top_level_syntax(source@, lang), lang, text::byte_len(source@)),
        ),
        parses_language(lang) && !all_valid(
            source@,
            segment_ranges(top_level_syntax(source@, lang), lang, text::byte_len(source@)),
        ) ==> r is Err,
        source@.len() == 0 ==> (r matches Ok(v) ==> v@.len() == 0),
        text::byte_len(source@) <= u32::MAX ==> (r matches Ok(v) ==> segments_in_order(
            source@,
            v@.map_values(|s: String| s@),
        )),
{
    let parsed = match lang {
        CodeLanguage::C => parse_c_top_level(source),
        CodeLanguage::Cpp => parse_cpp_top_level(source),
        CodeLanguage::Python => parse_python_top_level(source),
        CodeLanguage::JavaScript | CodeLanguage::Js => parse_javascript_top_level(source),
        CodeLanguage::Rust => parse_rust_top_level(source),
        unsupported => {
            return Err(ParseError::UnsupportedLanguage(unsupported));
        },
    };
    let nodes = match parsed {
        Ok(Some(nodes)) => nodes,
        Ok(None) => {
            return Err(ParseError::ParseFailed);
        },
        Err(e) => {
            return Err(ParseError::LanguageLoad(language_error_message(&e)));
        },
    };
    assert(nodes@ == top_level_syntax(source@, lang));
    let r = segments_from_nodes(source, lang, nodes.as_slice(), thread_num);
    proof {
        if r is Ok {
            assert(all_valid(source@, segment_ranges(nodes@, lang, text::byte_len(source@))));
            if text::byte_len(source@) <= u32::MAX {
                lemma_segments_in_order(source@, lang, nodes@);
            }
            if source@.len() == 0 {
                assert(source@ =~= Seq::<char>::empty());
                assert(text::byte_len(source@) == 0);
                lemma_empty_source_has_no_segments(lang, nodes@);
            }
        }
    }
    r
}

/// The top-level code segments of `source` given its top-level syntax
/// `nodes`: the texts of `segments::segment_ranges`, in order, whitespace-only
/// texts left out. They are collected on a pool of `thread_num` threads (one
/// when `thread_num` is zero); the result does not depend on `thread_num`.
/// Building the pool may fail; otherwise the result is that of
/// `collect_segments`.
pub fn segments_from_nodes(
    source: &str,
    lang: CodeLanguage,
    nodes: &[Option<SyntaxNode>],
    thread_num: u16,
) -> (r: Result<Vec<String>, ParseError>)
    ensures
        r matches Ok(v) ==> v@.map_values(|s: String| s@) == segments_of(source@, lang, nodes@),
        r matches Err(e) ==> (e is ThreadPool || e is InvalidNodeRange),
        (r matches Err(ParseError::InvalidNodeRange)) ==> !all_valid(
            source@,
            segment_ranges(nodes@, lang, text::byte_len(source@)),
        ),
        !all_valid(source@, segment_ranges(nodes@, lang, text::byte_len(source@))) ==> r is Err,
{
    match build_thread_pool(pool_size(thread_num)) {
        Ok(pool) => collect_segments(&pool, source, lang, nodes),
        Err(e) => Err(ParseError::ThreadPool(thread_pool_error_message(&e))),
    }
}

/// The top-level code segments of `source` given its top-level syntax
/// `nodes`, their texts collected on `pool`: the texts of
/// `segments::segment_ranges`, in order, whitespace-only texts left out. It
/// fails exactly when a range does not cut the source at character
/// boundaries.
pub fn collect_segments(
    pool: &ThreadPool,
    source: &str,
    lang: CodeLanguage,
    nodes: &[Option<SyntaxNode>],
) -> (r: Result<Vec<String>, ParseError>)
    ensures
        r is Ok <==> all_valid(source@, segment_ranges(nodes@, lang, text::byte_len(source@))),
        r matches Ok(v) ==> v@.map_values(|s: String| s@) == segments_of(source@, lang, nodes@),
        r matches Err(e) ==> e is InvalidNodeRange,
{
    let source_len = source.as_bytes().len();
    proof {
        lemma_byte_len_is_utf8_len(source@);
    }
    let segment_ranges = select_segment_ranges(lang, nodes, source_len);
    if !ranges_are_valid(source, segment_ranges.as_slice()) {
        return Err(ParseError::InvalidNodeRange);
    }
    let segments = par_segment_texts(pool, source, segment_ranges.as_slice());
    Ok(segments)
}

} // verus!
