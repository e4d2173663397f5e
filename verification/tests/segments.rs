use opencodesearchparser::segments::{
    is_c_cpp_preprocessor_kind, ranges_are_valid, segment_text, select_segment_ranges, SyntaxNode,
};
use opencodesearchparser::{
    collect_segments, get_file_extension, parse_str, segments_from_nodes, CodeLanguage, ParseError,
};

fn node(kind: &str, start_byte: usize, end_byte: usize) -> Option<SyntaxNode> {
    Some(SyntaxNode { kind: kind.to_string(), start_byte, end_byte })
}

#[test]
fn select_ranges_merges_semicolon_after_c_struct() {
    let nodes = vec![
        node("struct_specifier", 0, 10),
        node(";", 10, 11),
        node("comment", 12, 20),
        node("declaration", 21, 30),
    ];
    let ranges = select_segment_ranges(CodeLanguage::C, &nodes, 30);
    assert_eq!(ranges, vec![(0, 11), (21, 30)]);
}

#[test]
fn select_ranges_does_not_merge_semicolon_for_python() {
    let nodes = vec![node("class_definition", 0, 5), node(";", 5, 6)];
    let ranges = select_segment_ranges(CodeLanguage::Python, &nodes, 6);
    assert_eq!(ranges, vec![(0, 5)]);
}

#[test]
fn select_ranges_rust_suffixes_and_skips() {
    let nodes = vec![
        node("line_comment", 0, 4),
        node("function_item", 5, 9),
        None,
        node("macro_invocation", 10, 12),
        node("struct_item", 13, 13),
        node("const_item", 14, 40),
        node("macro_definition", 15, 16),
    ];
    let ranges = select_segment_ranges(CodeLanguage::Rust, &nodes, 20);
    assert_eq!(ranges, vec![(5, 9), (15, 16)]);
}

#[test]
fn select_ranges_skips_translation_unit_and_unsupported_languages() {
    let nodes = vec![node("translation_unit", 0, 5), node("declaration", 0, 5)];
    assert_eq!(select_segment_ranges(CodeLanguage::C, &nodes, 5), vec![(0, 5)]);
    assert!(select_segment_ranges(CodeLanguage::Go, &nodes, 5).is_empty());
}

#[test]
fn select_ranges_javascript_kinds() {
    let nodes = vec![
        node("lexical_declaration", 0, 3),
        node("import_statement", 4, 6),
        node("class_declaration", 7, 9),
    ];
    let ranges = select_segment_ranges(CodeLanguage::Js, &nodes, 9);
    assert_eq!(ranges, vec![(0, 3), (7, 9)]);
}

#[test]
fn preprocessor_kinds() {
    assert!(is_c_cpp_preprocessor_kind("preproc_include"));
    assert!(is_c_cpp_preprocessor_kind("preproc_elifdef"));
    assert!(!is_c_cpp_preprocessor_kind("preproc_directive"));
    assert!(!is_c_cpp_preprocessor_kind("declaration"));
}

#[test]
fn segments_from_nodes_keeps_text_and_drops_blank_ranges() {
    let source = "int a;\n   \nint b;";
    let nodes = vec![node("declaration", 0, 6), node("declaration", 6, 11), node("declaration", 11, 17)];
    let segments = segments_from_nodes(source, CodeLanguage::C, &nodes, 3).expect("segments");
    assert_eq!(segments, vec!["int a;".to_string(), "int b;".to_string()]);
}

#[test]
fn segments_from_nodes_is_the_same_for_every_thread_count() {
    let source = "fn a() {}\nfn b() {}\n";
    let nodes = vec![node("function_item", 0, 9), node("function_item", 10, 19)];
    let one = segments_from_nodes(source, CodeLanguage::Rust, &nodes, 0).expect("segments");
    let many = segments_from_nodes(source, CodeLanguage::Rust, &nodes, 4).expect("segments");
    assert_eq!(one, vec!["fn a() {}".to_string(), "fn b() {}".to_string()]);
    assert_eq!(one, many);
}

#[test]
fn segments_from_nodes_multibyte_text() {
    let source = "é = 1\nü = 2";
    let nodes = vec![node("assignment", 0, 6), node("assignment", 7, 13)];
    let segments = segments_from_nodes(source, CodeLanguage::Python, &nodes, 1).expect("segments");
    assert_eq!(segments, vec!["é = 1".to_string(), "ü = 2".to_string()]);
}

#[test]
fn segments_from_nodes_reports_ranges_off_character_boundaries() {
    let source = "é";
    let nodes = vec![node("function_item", 1, 2)];
    let result = segments_from_nodes(source, CodeLanguage::Rust, &nodes, 1);
    assert!(matches!(result, Err(ParseError::InvalidNodeRange)));
}

#[test]
fn range_checks_and_texts() {
    let source = "aé b";
    assert!(ranges_are_valid(source, &[(0, 1), (1, 3), (3, 5)]));
    assert!(!ranges_are_valid(source, &[(0, 2)]));
    assert!(!ranges_are_valid(source, &[(3, 6)]));
    assert!(!ranges_are_valid(source, &[(3, 1)]));
    assert_eq!(segment_text(source, 1, 3), Some("é".to_string()));
    assert_eq!(segment_text(source, 3, 4), None);
    assert_eq!(segment_text(source, 0, 5), Some("aé b".to_string()));
}

#[test]
fn file_extensions() {
    assert_eq!(get_file_extension(CodeLanguage::C).unwrap(), "c");
    assert_eq!(get_file_extension(CodeLanguage::Cpp).unwrap(), "cpp");
    assert_eq!(get_file_extension(CodeLanguage::Python).unwrap(), "py");
    assert_eq!(get_file_extension(CodeLanguage::JavaScript).unwrap(), "js");
    assert_eq!(get_file_extension(CodeLanguage::Js).unwrap(), "js");
    assert_eq!(get_file_extension(CodeLanguage::Rust).unwrap(), "rs");
    assert!(matches!(
        get_file_extension(CodeLanguage::Kotlin),
        Err(ParseError::UnsupportedExtensionLanguage(CodeLanguage::Kotlin))
    ));
}

#[test]
fn parse_str_rejects_languages_without_grammar() {
    for lang in [
        CodeLanguage::Go,
        CodeLanguage::Java,
        CodeLanguage::Kotlin,
        CodeLanguage::Ts,
        CodeLanguage::Php,
        CodeLanguage::Proto,
        CodeLanguage::R,
    ] {
        let result = parse_str("x", lang, 1);
        assert!(matches!(result, Err(ParseError::UnsupportedLanguage(l)) if l == lang));
    }
}

#[test]
fn parse_str_segments_are_pieces_of_the_source() {
    let source = "// note\nstatic A: u8 = 1;\n\nfn f() {}\n";
    let segments = parse_str(source, CodeLanguage::Rust, 2).expect("parse_str failed");
    assert_eq!(segments, vec!["static A: u8 = 1;".to_string(), "fn f() {}".to_string()]);
    for s in &segments {
        assert!(source.contains(s.as_str()));
        assert!(!s.trim().is_empty());
    }
}

#[test]
fn collect_segments_on_a_given_pool() {
    let pool = rayon::ThreadPoolBuilder::new().num_threads(2).build().expect("pool");
    let source = "class A {};\nint x;";
    let nodes = vec![node("class_specifier", 0, 10), node(";", 10, 11), node("declaration", 12, 18)];
    let segments = collect_segments(&pool, source, CodeLanguage::Cpp, &nodes).expect("segments");
    assert_eq!(segments, vec!["class A {};".to_string(), "int x;".to_string()]);
}

#[test]
fn collect_segments_fails_exactly_on_ranges_off_character_boundaries() {
    let pool = rayon::ThreadPoolBuilder::new().num_threads(1).build().expect("pool");
    let source = "é = 1";
    let nodes = vec![node("expression_statement", 1, 6)];
    let result = collect_segments(&pool, source, CodeLanguage::Python, &nodes);
    assert!(matches!(result, Err(ParseError::InvalidNodeRange)));
}

#[test]
fn empty_source_has_no_segments_whatever_the_nodes() {
    let nodes = vec![node("function_item", 0, 5), node("struct_item", 0, 0), None];
    let segments = segments_from_nodes("", CodeLanguage::Rust, &nodes, 2).expect("segments");
    assert!(segments.is_empty());
}

#[test]
fn select_ranges_keeps_python_decorated_definitions() {
    let nodes = vec![node("decorated_definition", 0, 20), node("comment", 21, 25)];
    let ranges = select_segment_ranges(CodeLanguage::Python, &nodes, 25);
    assert_eq!(ranges, vec![(0, 20)]);
}

#[test]
fn pool_size_is_one_for_zero() {
    assert_eq!(opencodesearchparser::pool_size(0), 1);
    assert_eq!(opencodesearchparser::pool_size(1), 1);
    assert_eq!(opencodesearchparser::pool_size(8), 8);
}
