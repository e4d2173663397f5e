//! Which top-level syntax nodes become segments, and the text of each segment.
use vstd::prelude::*;
use vstd::string::StringSliceAdditionalSpecFns;
use vstd::utf8::{decode_utf8, encode_utf8, encode_utf8_decode_utf8, is_char_boundary};

use crate::text::{
    all_white, byte_len, chars_equal, chars_of, contains, find_from, find_from_exec, is_all_white,
    lemma_byte_len_is_utf8_len, lemma_find_from, occurs_at,
};
use crate::CodeLanguage;

verus! {

broadcast use vstd::string::group_string_axioms;

/// A child of the root of a syntax tree: its kind and the bytes of the
/// source that it spans.
#[derive(Clone, Debug)]
pub struct SyntaxNode {
    pub kind: String,
    pub start_byte: usize,
    pub end_byte: usize,
}

/// The C/C++ preprocessor node kinds that are kept.
pub open spec fn is_preprocessor_kind(kind: Seq<char>) -> bool {
    ||| kind == "preproc_include"@
    ||| kind == "preproc_def"@
    ||| kind == "preproc_function_def"@
    ||| kind == "preproc_call"@
    ||| kind == "preproc_if"@
    ||| kind == "preproc_ifdef"@
    ||| kind == "preproc_elif"@
    ||| kind == "preproc_elifdef"@
    ||| kind == "preproc_else"@
}

/// The C/C++ declaration node kinds that are kept.
pub open spec fn is_c_declaration_kind(kind: Seq<char>) -> bool {
    ||| kind == "function_definition"@
    ||| kind == "declaration"@
    ||| kind == "struct_specifier"@
    ||| kind == "class_specifier"@
    ||| kind == "enum_specifier"@
    ||| kind == "union_specifier"@
    ||| kind == "type_definition"@
}

/// The Python node kinds that are kept.
pub open spec fn is_python_kind(kind: Seq<char>) -> bool {
    ||| kind == "function_definition"@
    ||| kind == "class_definition"@
    ||| kind == "expression_statement"@
    ||| kind == "assignment"@
    ||| kind == "global_statement"@
    ||| kind == "decorated_definition"@
}

/// The JavaScript node kinds that are kept.
pub open spec fn is_javascript_kind(kind: Seq<char>) -> bool {
    ||| kind == "function_declaration"@
    ||| kind == "class_declaration"@
    ||| kind == "lexical_declaration"@
    ||| kind == "variable_declaration"@
    ||| kind == "expression_statement"@
}

/// `s` ends with `suffix`.
pub open spec fn ends_with(s: Seq<char>, suffix: Seq<char>) -> bool {
    suffix.len() <= s.len() && s.subrange(s.len() - suffix.len(), s.len() as int) == suffix
}

/// Whether a top-level node of this kind is kept for `lang`.
pub open spec fn keeps_kind(lang: CodeLanguage, kind: Seq<char>) -> bool {
    match lang {
        CodeLanguage::C | CodeLanguage::Cpp => is_c_declaration_kind(kind) || is_preprocessor_kind(
            kind,
        ),
        CodeLanguage::Python => is_python_kind(kind),
        CodeLanguage::JavaScript | CodeLanguage::Js => is_javascript_kind(kind),
        CodeLanguage::Rust => ends_with(kind, "_item"@) || ends_with(kind, "_definition"@),
        _ => false,
    }
}

/// Whether `node` becomes a segment for `lang`: its kind is kept, it is no
/// comment and no translation unit, and it spans at least one byte.
pub open spec fn is_segment_node(lang: CodeLanguage, node: SyntaxNode) -> bool {
    &&& keeps_kind(lang, node.kind@)
    &&& !contains(node.kind@, "comment"@)
    &&& node.kind@ != "translation_unit"@
    &&& node.start_byte < node.end_byte
}

/// Whether a segment of this kind takes a `;` that follows it as a sibling.
pub open spec fn takes_trailing_semicolon(lang: CodeLanguage, kind: Seq<char>) -> bool {
    &&& (kind == "struct_specifier"@ || kind == "class_specifier"@ || kind == "enum_specifier"@
        || kind == "union_specifier"@)
    &&& (lang == CodeLanguage::C || lang == CodeLanguage::Cpp)
}

/// Whether the segment at `nodes[i]` extends over a `;` node at `nodes[i + 1]`.
pub open spec fn merges_next(nodes: Seq<Option<SyntaxNode>>, lang: CodeLanguage, i: int) -> bool {
    &&& 0 <= i < nodes.len()
    &&& nodes[i] is Some
    &&& takes_trailing_semicolon(lang, nodes[i]->0.kind@)
    &&& i + 1 < nodes.len()
    &&& nodes[i + 1] is Some
    &&& nodes[i + 1]->0.kind@ == ";"@
}

/// The byte ranges of the segments among `nodes[i..]`, in order; a range is
/// left out when it ends past `source_len`.
pub open spec fn ranges_from(
    nodes: Seq<Option<SyntaxNode>>,
    lang: CodeLanguage,
    source_len: nat,
    i: int,
) -> Seq<(usize, usize)>
    decreases nodes.len() - i,
{
    if i < 0 || i >= nodes.len() {
        Seq::empty()
    } else {
        match nodes[i] {
            Some(node) => if is_segment_node(lang, node) {
                let merged = merges_next(nodes, lang, i);
                let end = if merged {
                    nodes[i + 1]->0.end_byte
                } else {
                    node.end_byte
                };
                let here: Seq<(usize, usize)> = if end <= source_len {
                    seq![(node.start_byte, end)]
                } else {
                    Seq::empty()
                };
                here + ranges_from(
                    nodes,
                    lang,
                    source_len,
                    if merged {
                        i + 2
                    } else {
                        i + 1
                    },
                )
            } else {
                ranges_from(nodes, lang, source_len, i + 1)
            },
            None => ranges_from(nodes, lang, source_len, i + 1),
        }
    }
}

/// The byte ranges of the segments among the top-level `nodes` of a source
/// that is `source_len` bytes long.
pub open spec fn segment_ranges(
    nodes: Seq<Option<SyntaxNode>>,
    lang: CodeLanguage,
    source_len: nat,
) -> Seq<(usize, usize)> {
    ranges_from(nodes, lang, source_len, 0)
}

/// `start..end` lies within `source` and cuts it at character boundaries.
pub open spec fn valid_range(source: Seq<char>, r: (usize, usize)) -> bool {
    &&& r.0 <= r.1 <= byte_len(source)
    &&& is_char_boundary(encode_utf8(source), r.0 as int)
    &&& is_char_boundary(encode_utf8(source), r.1 as int)
}

/// Every range is valid for `source`.
pub open spec fn all_valid(source: Seq<char>, ranges: Seq<(usize, usize)>) -> bool {
    forall|k: int| 0 <= k < ranges.len() ==> valid_range(source, #[trigger] ranges[k])
}

/// The characters of `source` whose UTF-8 bytes are `start..end`.
pub open spec fn range_text(source: Seq<char>, r: (usize, usize)) -> Seq<char> {
    decode_utf8(encode_utf8(source).subrange(r.0 as int, r.1 as int))
}

/// The texts of the ranges, in order, without the whitespace-only ones.
pub open spec fn texts_of(source: Seq<char>, ranges: Seq<(usize, usize)>) -> Seq<Seq<char>>
    decreases ranges.len(),
{
    if ranges.len() == 0 {
        Seq::empty()
    } else {
        let t = range_text(source, ranges.last());
        texts_of(source, ranges.drop_last()) + if all_white(t) {
            Seq::<Seq<char>>::empty()
        } else {
            seq![t]
        }
    }
}

/// The segments of `source` given its top-level syntax nodes.
pub open spec fn segments_of(
    source: Seq<char>,
    lang: CodeLanguage,
    nodes: Seq<Option<SyntaxNode>>,
) -> Seq<Seq<char>> {
    texts_of(source, segment_ranges(nodes, lang, byte_len(source)))
}

/// Whether `kind` is one of the C/C++ preprocessor kinds that are kept.
pub fn is_c_cpp_preprocessor_kind(kind: &str) -> (r: bool)
    ensures
        r == is_preprocessor_kind(kind@),
{
    let chars = chars_of(kind);
    let kind = chars.as_slice();
    chars_equal(kind, "preproc_include") || chars_equal(kind, "preproc_def") || chars_equal(
        kind,
        "preproc_function_def",
    ) || chars_equal(kind, "preproc_call") || chars_equal(kind, "preproc_if") || chars_equal(
        kind,
        "preproc_ifdef",
    ) || chars_equal(kind, "preproc_elif") || chars_equal(kind, "preproc_elifdef") || chars_equal(
        kind,
        "preproc_else",
    )
}

fn is_c_declaration(kind: &[char]) -> (r: bool)
    ensures
        r == is_c_declaration_kind(kind@),
{
    chars_equal(kind, "function_definition") || chars_equal(kind, "declaration") || chars_equal(
        kind,
        "struct_specifier",
    ) || chars_equal(kind, "class_specifier") || chars_equal(kind, "enum_specifier")
        || chars_equal(kind, "union_specifier") || chars_equal(kind, "type_definition")
}

fn ends_with_exec(s: &[char], suffix: &str) -> (r: bool)
    ensures
        r == ends_with(s@, suffix@),
{
    let suffix_chars = chars_of(suffix);
    if suffix_chars.len() > s.len() {
        return false;
    }
    let from = s.len() - suffix_chars.len();
    let sl = s.len();
    let mut k: usize = 0;
    while k < suffix_chars.len()
        invariant
            sl == s@.len(),
            from + suffix_chars@.len() == s@.len(),
            suffix_chars@ == suffix@,
            k <= suffix_chars@.len(),
            forall|m: int| 0 <= m < k ==> s@[from + m] == suffix_chars@[m],
        decreases suffix_chars@.len() - k,
    {
        if s[from + k] != suffix_chars[k] {
            assert(s@.subrange(from as int, s@.len() as int)[k as int] != suffix@[k as int]);
            return false;
        }
        k = k + 1;
    }
    assert(s@.subrange(from as int, s@.len() as int) =~= suffix@);
    true
}

fn keeps_kind_exec(lang: CodeLanguage, kind_text: &str, kind: &[char]) -> (r: bool)
    requires
        kind@ == kind_text@,
    ensures
        r == keeps_kind(lang, kind@),
{
    match lang {
        CodeLanguage::C => is_c_declaration(kind) || is_c_cpp_preprocessor_kind(kind_text),
        CodeLanguage::Cpp => is_c_declaration(kind) || is_c_cpp_preprocessor_kind(kind_text),
        CodeLanguage::Python => chars_equal(kind, "function_definition") || chars_equal(
            kind,
            "class_definition",
        ) || chars_equal(kind, "expression_statement") || chars_equal(kind, "assignment")
            || chars_equal(kind, "global_statement") || chars_equal(kind, "decorated_definition"),
        CodeLanguage::JavaScript | CodeLanguage::Js => chars_equal(kind, "function_declaration")
            || chars_equal(kind, "class_declaration") || chars_equal(kind, "lexical_declaration")
            || chars_equal(kind, "variable_declaration") || chars_equal(
            kind,
            "expression_statement",
        ),
        CodeLanguage::Rust => ends_with_exec(kind, "_item") || ends_with_exec(kind, "_definition"),
        _ => false,
    }
}

fn contains_exec(text: &[char], pat: &str) -> (r: bool)
    ensures
        r == contains(text@, pat@),
{
    let pat_chars = chars_of(pat);
    let found = find_from_exec(text, pat_chars.as_slice(), 0);
    proof {
        lemma_find_from(text@, pat@, 0);
        if contains(text@, pat@) {
            let k = choose|k: int| occurs_at(text@, pat@, k);
            assert(occurs_at(text@, pat@, k));
        }
    }
    found.is_some()
}

fn is_segment_node_exec(lang: CodeLanguage, node: &SyntaxNode) -> (r: bool)
    ensures
        r == is_segment_node(lang, *node),
{
    let kind = chars_of(node.kind.as_str());
    keeps_kind_exec(lang, node.kind.as_str(), kind.as_slice()) && !contains_exec(kind.as_slice(), "comment")
        && !chars_equal(kind.as_slice(), "translation_unit") && node.end_byte > node.start_byte
}

fn takes_trailing_semicolon_exec(lang: CodeLanguage, kind: &String) -> (r: bool)
    ensures
        r == takes_trailing_semicolon(lang, kind@),
{
    let k = chars_of(kind.as_str());
    (chars_equal(k.as_slice(), "struct_specifier") || chars_equal(k.as_slice(), "class_specifier")
        || chars_equal(k.as_slice(), "enum_specifier") || chars_equal(
        k.as_slice(),
        "union_specifier",
    )) && (lang == CodeLanguage::C || lang == CodeLanguage::Cpp)
}

/// The byte ranges of the segments among the top-level `nodes` of a source
/// that is `source_len` bytes long: each kept node's range, extended over a
/// `;` node that follows a C/C++ struct, class, enum or union (which is then
/// skipped), unless it ends past `source_len`.
pub fn select_segment_ranges(lang: CodeLanguage, nodes: &[Option<SyntaxNode>], source_len: usize) -> (r: Vec<(usize, usize)>)
    ensures
        r@ == segment_ranges(nodes@, lang, source_len as nat),
{
    let mut segment_ranges_out: Vec<(usize, usize)> = Vec::new();
    let mut i: usize = 0;
    while i < nodes.len()
        invariant
            i <= nodes@.len() + 1,
            segment_ranges(nodes@, lang, source_len as nat) == segment_ranges_out@ + ranges_from(
                nodes@,
                lang,
                source_len as nat,
                i as int,
            ),
        decreases nodes@.len() + 1 - i,
    {
        let ghost before = segment_ranges_out@;
        let ghost i0 = i as int;
        if let Some(node) = &nodes[i] {
            if is_segment_node_exec(lang, node) {
                let start = node.start_byte;
                let mut end = node.end_byte;
                let mut consumed_next_semicolon = false;
                let should_merge_trailing_semicolon = takes_trailing_semicolon_exec(
                    lang,
                    &node.kind,
                );
                if should_merge_trailing_semicolon {
                    if i + 1 < nodes.len() {
                        if let Some(next_node) = &nodes[i + 1] {
                            let next_kind = chars_of(next_node.kind.as_str());
                            if chars_equal(next_kind.as_slice(), ";") {
                                end = next_node.end_byte;
                                consumed_next_semicolon = true;
                            }
                        }
                    }
                }
                assert(consumed_next_semicolon == merges_next(nodes@, lang, i0));
                if end <= source_len {
                    segment_ranges_out.push((start, end));
                }
                if consumed_next_semicolon {
                    i = i + 1;
                }
                proof {
                    let here: Seq<(usize, usize)> = if end <= source_len {
                        seq![(start, end)]
                    } else {
                        Seq::empty()
                    };
                    assert(segment_ranges_out@ =~= before + here);
                    assert(ranges_from(nodes@, lang, source_len as nat, i0) == here + ranges_from(
                        nodes@,
                        lang,
                        source_len as nat,
                        i + 1,
                    ));
                }
            }
        }
        i = i + 1;
    }
    assert(ranges_from(nodes@, lang, source_len as nat, i as int) =~= Seq::<(usize, usize)>::empty());
    assert(segment_ranges_out@ + Seq::<(usize, usize)>::empty() =~= segment_ranges_out@);
    segment_ranges_out
}

/// Whether every range lies within `source` and on character boundaries.
pub fn ranges_are_valid(source: &str, ranges: &[(usize, usize)]) -> (r: bool)
    ensures
        r == all_valid(source@, ranges@),
{
    let len = source.as_bytes().len();
    proof {
        lemma_byte_len_is_utf8_len(source@);
    }
    let mut k: usize = 0;
    while k < ranges.len()
        invariant
            k <= ranges@.len(),
            len == encode_utf8(source@).len(),
            byte_len(source@) == encode_utf8(source@).len(),
            forall|m: int| 0 <= m < k ==> valid_range(source@, #[trigger] ranges@[m]),
        decreases ranges@.len() - k,
    {
        let (start, end) = ranges[k];
        if !(start <= end && end <= len && source.is_char_boundary(start) && source.is_char_boundary(
            end,
        )) {
            assert(!valid_range(source@, ranges@[k as int]));
            return false;
        }
        k = k + 1;
    }
    true
}

/// The text of `source[start..end]`, or `None` when it is whitespace only.
pub fn segment_text(source: &str, start: usize, end: usize) -> (r: Option<String>)
    requires
        valid_range(source@, (start, end)),
    ensures
        r is None <==> all_white(range_text(source@, (start, end))),
        r matches Some(t) ==> t@ == range_text(source@, (start, end)),
{
    proof {
        lemma_byte_len_is_utf8_len(source@);
    }
    let (_, rest) = source.split_at(start);
    proof {
        let bytes = encode_utf8(source@);
        vstd::utf8::encode_utf8_valid_utf8(source@);
        vstd::utf8::valid_utf8_split(bytes, start as int);
        assert(rest.spec_bytes() =~= bytes.subrange(start as int, bytes.len() as int));
        assert(is_char_boundary(rest.spec_bytes(), (end - start) as int)) by {
            lemma_boundary_shift(bytes, start as int, end as int);
        }
    }
    let (piece, _) = rest.split_at(end - start);
    proof {
        let bytes = encode_utf8(source@);
        assert(piece.spec_bytes() =~= bytes.subrange(start as int, end as int));
        encode_utf8_decode_utf8(piece@);
    }
    let chars = chars_of(piece);
    if is_all_white(chars.as_slice()) {
        None
    } else {
        Some(piece.to_string())
    }
}

/// A character boundary of a valid UTF-8 sequence past a boundary `start`
/// is a boundary of the sequence after `start`.
proof fn lemma_boundary_shift(bytes: Seq<u8>, start: int, end: int)
    requires
        vstd::utf8::valid_utf8(bytes),
        0 <= start <= end <= bytes.len(),
        is_char_boundary(bytes, start),
        is_char_boundary(bytes, end),
    ensures
        is_char_boundary(bytes.subrange(start, bytes.len() as int), end - start),
{
    let rest = bytes.subrange(start, bytes.len() as int);
    vstd::utf8::valid_utf8_split(bytes, start);
    if end == bytes.len() {
        vstd::utf8::is_char_boundary_start_end_of_seq(rest);
    } else if end == start {
        vstd::utf8::is_char_boundary_start_end_of_seq(rest);
    } else {
        vstd::utf8::is_char_boundary_iff_not_is_continuation_byte(bytes, end);
        vstd::utf8::is_char_boundary_iff_not_is_continuation_byte(rest, end - start);
        assert(rest[end - start] == bytes[end]);
    }
}

// ---------------------------------------------------------------------------
// What holds of every list of segments
// ---------------------------------------------------------------------------

/// Every text kept by `texts_of` is one of the ranges' texts and is not blank.
proof fn lemma_texts_of(source: Seq<char>, ranges: Seq<(usize, usize)>)
    ensures
        forall|k: int|
            0 <= k < texts_of(source, ranges).len() ==> {
                &&& !all_white(#[trigger] texts_of(source, ranges)[k])
                &&& exists|m: int|
                    0 <= m < ranges.len() && texts_of(source, ranges)[k] == range_text(
                        source,
                        #[trigger] ranges[m],
                    )
            },
    decreases ranges.len(),
{
    if ranges.len() > 0 {
        let prev = ranges.drop_last();
        lemma_texts_of(source, prev);
        let t = range_text(source, ranges.last());
        let r = texts_of(source, ranges);
        let tail = if all_white(t) {
            Seq::<Seq<char>>::empty()
        } else {
            seq![t]
        };
        assert(r == texts_of(source, prev) + tail);
        assert forall|k: int| 0 <= k < r.len() implies {
            &&& !all_white(#[trigger] r[k])
            &&& exists|m: int| 0 <= m < ranges.len() && r[k] == range_text(source, #[trigger] ranges[m])
        } by {
            if k < texts_of(source, prev).len() {
                assert(r[k] == texts_of(source, prev)[k]);
                let m = choose|m: int|
                    0 <= m < prev.len() && texts_of(source, prev)[k] == range_text(
                        source,
                        #[trigger] prev[m],
                    );
                assert(prev[m] == ranges[m]);
            } else {
                assert(r[k] == t);
                assert(ranges[ranges.len() - 1] == ranges.last());
            }
        }
    }
}

/// The text of a valid range is a contiguous piece of the source.
proof fn lemma_range_text_in_source(source: Seq<char>, r: (usize, usize))
    requires
        valid_range(source, r),
    ensures
        contains(source, range_text(source, r)),
{
    let bytes = encode_utf8(source);
    let s = r.0 as int;
    let e = r.1 as int;
    lemma_byte_len_is_utf8_len(source);
    vstd::utf8::encode_utf8_valid_utf8(source);
    encode_utf8_decode_utf8(source);
    vstd::utf8::decode_utf8_split(bytes, s);
    let rest = bytes.subrange(s, bytes.len() as int);
    vstd::utf8::valid_utf8_split(bytes, s);
    lemma_boundary_shift(bytes, s, e);
    vstd::utf8::decode_utf8_split(rest, e - s);
    assert(rest.subrange(0, e - s) =~= bytes.subrange(s, e));
    let a = decode_utf8(bytes.subrange(0, s));
    let seg = range_text(source, r);
    let c = decode_utf8(rest.subrange(e - s, rest.len() as int));
    assert(source == a + (seg + c));
    assert(source.subrange(a.len() as int, (a.len() + seg.len()) as int) =~= seg);
    assert(occurs_at(source, seg, a.len() as int));
}

/// Every segment holds a character that is not whitespace, and, when the
/// selected ranges are valid (as they are whenever `segments_from_nodes`
/// returns them), every segment is a contiguous piece of the source.
pub proof fn lemma_segments_are_source_pieces(
    source: Seq<char>,
    lang: CodeLanguage,
    nodes: Seq<Option<SyntaxNode>>,
)
    ensures
        forall|k: int|
            0 <= k < segments_of(source, lang, nodes).len() ==> !all_white(
                #[trigger] segments_of(source, lang, nodes)[k],
            ),
        all_valid(source, segment_ranges(nodes, lang, byte_len(source))) ==> forall|k: int|
            0 <= k < segments_of(source, lang, nodes).len() ==> contains(
                source,
                #[trigger] segments_of(source, lang, nodes)[k],
            ),
{
    let ranges = segment_ranges(nodes, lang, byte_len(source));
    lemma_texts_of(source, ranges);
    if all_valid(source, ranges) {
        assert forall|k: int| 0 <= k < segments_of(source, lang, nodes).len() implies contains(
            source,
            #[trigger] segments_of(source, lang, nodes)[k],
        ) by {
            let m = choose|m: int|
                0 <= m < ranges.len() && texts_of(source, ranges)[k] == range_text(
                    source,
                    #[trigger] ranges[m],
                );
            lemma_range_text_in_source(source, ranges[m]);
        }
    }
}

proof fn lemma_texts_of_blank(source: Seq<char>, ranges: Seq<(usize, usize)>)
    requires
        forall|k: int| 0 <= k < ranges.len() ==> all_white(range_text(source, #[trigger] ranges[k])),
    ensures
        texts_of(source, ranges).len() == 0,
    decreases ranges.len(),
{
    if ranges.len() > 0 {
        assert(all_white(range_text(source, ranges[ranges.len() - 1])));
        lemma_texts_of_blank(source, ranges.drop_last());
    }
}

/// An empty source has no segments, whatever its nodes, as long as their
/// ranges are valid (as they are whenever `segments_from_nodes` returns them).
pub proof fn lemma_empty_source_has_no_segments(lang: CodeLanguage, nodes: Seq<Option<SyntaxNode>>)
    requires
        all_valid(Seq::empty(), segment_ranges(nodes, lang, 0)),
    ensures
        segments_of(Seq::empty(), lang, nodes).len() == 0,
{
    let source: Seq<char> = Seq::empty();
    let ranges = segment_ranges(nodes, lang, byte_len(source));
    assert(byte_len(source) == 0);
    assert(encode_utf8(source) =~= Seq::<u8>::empty());
    assert(vstd::utf8::valid_utf8(Seq::<u8>::empty()));
    assert(decode_utf8(Seq::<u8>::empty()) =~= Seq::<char>::empty());
    assert forall|k: int| 0 <= k < ranges.len() implies all_white(
        range_text(source, #[trigger] ranges[k]),
    ) by {
        assert(valid_range(source, ranges[k]));
        assert(encode_utf8(source).subrange(ranges[k].0 as int, ranges[k].1 as int) =~= Seq::<
            u8,
        >::empty());
    }
    lemma_texts_of_blank(source, ranges);
}

/// The top-level nodes come in source order and do not overlap: each node's
/// range is well formed, and each one ends where or before the next begins.
pub open spec fn nodes_in_order(nodes: Seq<Option<SyntaxNode>>) -> bool {
    &&& forall|i: int|
        0 <= i < nodes.len() && (#[trigger] nodes[i]) is Some ==> nodes[i]->0.start_byte
            <= nodes[i]->0.end_byte
    &&& forall|i: int, j: int|
        0 <= i < j < nodes.len() && (#[trigger] nodes[i]) is Some && (#[trigger] nodes[j]) is Some
            ==> nodes[i]->0.end_byte <= nodes[j]->0.start_byte
}

/// The ranges are non-empty, in order, and do not overlap.
pub open spec fn ranges_in_order(r: Seq<(usize, usize)>) -> bool {
    &&& forall|k: int| 0 <= k < r.len() ==> (#[trigger] r[k]).0 < r[k].1
    &&& forall|k: int, l: int| 0 <= k < l < r.len() ==> (#[trigger] r[k]).1 <= (#[trigger] r[l]).0
}

proof fn lemma_ranges_from_in_order(
    nodes: Seq<Option<SyntaxNode>>,
    lang: CodeLanguage,
    source_len: nat,
    i: int,
    lo: int,
)
    requires
        nodes_in_order(nodes),
        0 <= i,
        forall|m: int| i <= m < nodes.len() && (#[trigger] nodes[m]) is Some ==> lo <= nodes[m]->0.start_byte,
    ensures
        ranges_in_order(ranges_from(nodes, lang, source_len, i)),
        forall|k: int|
            0 <= k < ranges_from(nodes, lang, source_len, i).len() ==> lo <= (
            #[trigger] ranges_from(nodes, lang, source_len, i)[k]).0,
    decreases nodes.len() - i,
{
    let r = ranges_from(nodes, lang, source_len, i);
    if i >= nodes.len() {
    } else {
        match nodes[i] {
            Some(node) => if is_segment_node(lang, node) {
                let merged = merges_next(nodes, lang, i);
                let end = if merged {
                    nodes[i + 1]->0.end_byte
                } else {
                    node.end_byte
                };
                let i2 = if merged {
                    i + 2
                } else {
                    i + 1
                };
                if merged {
                    assert(nodes[i + 1] is Some);
                    assert(node.end_byte <= nodes[i + 1]->0.start_byte);
                    assert(nodes[i + 1]->0.start_byte <= nodes[i + 1]->0.end_byte);
                    assert forall|m: int| i2 <= m < nodes.len() && (#[trigger] nodes[m]) is Some implies end
                        <= nodes[m]->0.start_byte by {
                        assert(nodes[i + 1]->0.end_byte <= nodes[m]->0.start_byte);
                    }
                } else {
                    assert forall|m: int| i2 <= m < nodes.len() && (#[trigger] nodes[m]) is Some implies end
                        <= nodes[m]->0.start_byte by {
                        assert(nodes[i]->0.end_byte <= nodes[m]->0.start_byte);
                    }
                }
                lemma_ranges_from_in_order(nodes, lang, source_len, i2, end as int);
                let here: Seq<(usize, usize)> = if end <= source_len {
                    seq![(node.start_byte, end)]
                } else {
                    Seq::empty()
                };
                let rest = ranges_from(nodes, lang, source_len, i2);
                assert(r == here + rest);
                assert forall|k: int| 0 <= k < r.len() implies (#[trigger] r[k]).0 < r[k].1 && lo
                    <= r[k].0 by {
                    if k < here.len() {
                        assert(r[k] == here[k]);
                    } else {
                        assert(r[k] == rest[k - here.len()]);
                    }
                }
                assert forall|k: int, l: int| 0 <= k < l < r.len() implies (#[trigger] r[k]).1 <= (
                #[trigger] r[l]).0 by {
                    if l < here.len() {
                    } else if k < here.len() {
                        assert(r[k] == here[k]);
                        assert(r[l] == rest[l - here.len()]);
                    } else {
                        assert(r[k] == rest[k - here.len()]);
                        assert(r[l] == rest[l - here.len()]);
                    }
                }
            } else {
                lemma_ranges_from_in_order(nodes, lang, source_len, i + 1, lo);
            },
            None => {
                lemma_ranges_from_in_order(nodes, lang, source_len, i + 1, lo);
            },
        }
    }
}

proof fn lemma_texts_of_spans(source: Seq<char>, ranges: Seq<(usize, usize)>, hi: int) -> (spans: Seq<
    (usize, usize),
>)
    requires
        ranges_in_order(ranges),
        all_valid(source, ranges),
        forall|m: int| 0 <= m < ranges.len() ==> (#[trigger] ranges[m]).1 <= hi,
    ensures
        spans.len() == texts_of(source, ranges).len(),
        ranges_in_order(spans),
        forall|k: int|
            0 <= k < spans.len() ==> valid_range(source, #[trigger] spans[k])
                && texts_of(source, ranges)[k] == range_text(source, spans[k]) && spans[k].1 <= hi,
    decreases ranges.len(),
{
    if ranges.len() == 0 {
        Seq::empty()
    } else {
        let prev = ranges.drop_last();
        let last = ranges.last();
        assert(last == ranges[ranges.len() - 1]);
        assert forall|m: int| 0 <= m < prev.len() implies (#[trigger] prev[m]).1 <= last.0 by {
            assert(prev[m] == ranges[m]);
        }
        assert(ranges_in_order(prev)) by {
            assert forall|k: int| 0 <= k < prev.len() implies (#[trigger] prev[k]).0 < prev[k].1 by {
                assert(prev[k] == ranges[k]);
            }
            assert forall|k: int, l: int| 0 <= k < l < prev.len() implies (#[trigger] prev[k]).1 <= (
            #[trigger] prev[l]).0 by {
                assert(prev[k] == ranges[k]);
                assert(prev[l] == ranges[l]);
            }
        }
        assert(all_valid(source, prev)) by {
            assert forall|k: int| 0 <= k < prev.len() implies valid_range(source, #[trigger] prev[k]) by {
                assert(prev[k] == ranges[k]);
            }
        }
        let sp = lemma_texts_of_spans(source, prev, last.0 as int);
        let t = range_text(source, last);
        let tp = texts_of(source, prev);
        assert(texts_of(source, ranges) == tp + if all_white(t) {
            Seq::<Seq<char>>::empty()
        } else {
            seq![t]
        });
        if all_white(t) {
            assert(texts_of(source, ranges) =~= tp);
            sp
        } else {
            let spans = sp.push(last);
            assert(texts_of(source, ranges) =~= tp.push(t));
            assert forall|k: int| 0 <= k < spans.len() implies valid_range(source, #[trigger] spans[k])
                && texts_of(source, ranges)[k] == range_text(source, spans[k]) && spans[k].1 <= hi by {
                if k < sp.len() {
                    assert(spans[k] == sp[k]);
                }
            }
            assert forall|k: int| 0 <= k < spans.len() implies (#[trigger] spans[k]).0 < spans[k].1 by {
                if k < sp.len() {
                    assert(spans[k] == sp[k]);
                }
            }
            assert forall|k: int, l: int| 0 <= k < l < spans.len() implies (#[trigger] spans[k]).1 <= (
            #[trigger] spans[l]).0 by {
                assert(spans[k] == sp[k]);
                if l < sp.len() {
                    assert(spans[l] == sp[l]);
                }
            }
            spans
        }
    }
}

/// Each segment is the text of its own non-empty byte range of `source`,
/// and each range ends where or before the next begins: the segments are
/// disjoint pieces of the source, in source order.
pub open spec fn segments_in_order(source: Seq<char>, segs: Seq<Seq<char>>) -> bool {
    exists|spans: Seq<(usize, usize)>|
        spans.len() == segs.len() && ranges_in_order(spans) && forall|k: int|
            0 <= k < spans.len() ==> valid_range(source, #[trigger] spans[k]) && segs[k]
                == range_text(source, spans[k])
}

/// When the top-level nodes come in source order without overlapping, the
/// segments do too.
pub proof fn lemma_segments_in_order(source: Seq<char>, lang: CodeLanguage, nodes: Seq<Option<SyntaxNode>>)
    requires
        nodes_in_order(nodes),
        all_valid(source, segment_ranges(nodes, lang, byte_len(source))),
    ensures
        segments_in_order(source, segments_of(source, lang, nodes)),
{
    let ranges = segment_ranges(nodes, lang, byte_len(source));
    lemma_ranges_from_in_order(nodes, lang, byte_len(source), 0, 0);
    assert forall|m: int| 0 <= m < ranges.len() implies (#[trigger] ranges[m]).1 <= byte_len(source) by {
        assert(valid_range(source, ranges[m]));
    }
    let spans = lemma_texts_of_spans(source, ranges, byte_len(source) as int);
    assert(spans.len() == segments_of(source, lang, nodes).len());
}

/// The node kinds that each language keeps, as the library documents them:
/// C and C++ keep function definitions, declarations, struct, class, enum
/// and union specifiers, type definitions and the preprocessor directives
/// `#include`, `#define` (plain and function-like), calls such as `#pragma`,
/// and the conditionals `#if`/`#ifdef`/`#elif`/`#elifdef`/`#else`; Python
/// keeps function and class definitions (decorated or not), expression
/// statements, assignments and global statements; JavaScript keeps function
/// and class declarations, lexical and variable declarations and expression
/// statements; Rust keeps the kinds that end in `_item` or `_definition`;
/// the other languages keep none.
pub proof fn lemma_kept_kinds(lang: CodeLanguage, kind: Seq<char>)
    ensures
        (lang == CodeLanguage::C || lang == CodeLanguage::Cpp) ==> (keeps_kind(lang, kind) <==> (
        kind == "function_definition"@ || kind == "declaration"@ || kind == "struct_specifier"@
            || kind == "class_specifier"@ || kind == "enum_specifier"@ || kind
            == "union_specifier"@ || kind == "type_definition"@ || kind == "preproc_include"@
            || kind == "preproc_def"@ || kind == "preproc_function_def"@ || kind
            == "preproc_call"@ || kind == "preproc_if"@ || kind == "preproc_ifdef"@ || kind
            == "preproc_elif"@ || kind == "preproc_elifdef"@ || kind == "preproc_else"@)),
        lang == CodeLanguage::Python ==> (keeps_kind(lang, kind) <==> (kind
            == "function_definition"@ || kind == "class_definition"@ || kind
            == "decorated_definition"@ || kind == "expression_statement"@ || kind
            == "assignment"@ || kind == "global_statement"@)),
        (lang == CodeLanguage::JavaScript || lang == CodeLanguage::Js) ==> (keeps_kind(lang, kind)
            <==> (kind == "function_declaration"@ || kind == "class_declaration"@ || kind
            == "lexical_declaration"@ || kind == "variable_declaration"@ || kind
            == "expression_statement"@)),
        lang == CodeLanguage::Rust ==> (keeps_kind(lang, kind) <==> ((kind.len() >= 5
            && kind.subrange(kind.len() - 5, kind.len() as int) == "_item"@) || (kind.len() >= 11
            && kind.subrange(kind.len() - 11, kind.len() as int) == "_definition"@))),
        !(lang == CodeLanguage::C || lang == CodeLanguage::Cpp || lang == CodeLanguage::Python
            || lang == CodeLanguage::JavaScript || lang == CodeLanguage::Js || lang
            == CodeLanguage::Rust) ==> !keeps_kind(lang, kind),
{
    reveal_strlit("_item");
    reveal_strlit("_definition");
}

/// In C and C++ a struct, class, enum or union specifier takes the `;` that
/// follows it: such a node followed by a `;` node gives one segment range,
/// from the start of the specifier to the end of the `;`. No other kind, and
/// no other language, takes a following `;`.
pub proof fn lemma_trailing_semicolon(
    lang: CodeLanguage,
    spec_node: SyntaxNode,
    semi: SyntaxNode,
    source_len: nat,
)
    ensures
        takes_trailing_semicolon(lang, spec_node.kind@) <==> ((lang == CodeLanguage::C || lang
            == CodeLanguage::Cpp) && (spec_node.kind@ == "struct_specifier"@ || spec_node.kind@
            == "class_specifier"@ || spec_node.kind@ == "enum_specifier"@ || spec_node.kind@
            == "union_specifier"@)),
        (lang == CodeLanguage::C || lang == CodeLanguage::Cpp) && (spec_node.kind@
            == "struct_specifier"@ || spec_node.kind@ == "class_specifier"@ || spec_node.kind@
            == "enum_specifier"@ || spec_node.kind@ == "union_specifier"@) && is_segment_node(
            lang,
            spec_node,
        ) && semi.kind@ == ";"@ && semi.end_byte <= source_len ==> segment_ranges(
            seq![Some(spec_node), Some(semi)],
            lang,
            source_len,
        ) == seq![(spec_node.start_byte, semi.end_byte)],
{
    let nodes = seq![Some(spec_node), Some(semi)];
    if (lang == CodeLanguage::C || lang == CodeLanguage::Cpp) && (spec_node.kind@
        == "struct_specifier"@ || spec_node.kind@ == "class_specifier"@ || spec_node.kind@
        == "enum_specifier"@ || spec_node.kind@ == "union_specifier"@) && is_segment_node(
        lang,
        spec_node,
    ) && semi.kind@ == ";"@ && semi.end_byte <= source_len {
        assert(merges_next(nodes, lang, 0));
        assert(ranges_from(nodes, lang, source_len, 2) == Seq::<(usize, usize)>::empty());
        assert(ranges_from(nodes, lang, source_len, 0) =~= seq![(spec_node.start_byte, semi.end_byte)]
            + ranges_from(nodes, lang, source_len, 2));
    }
}

} // verus!
