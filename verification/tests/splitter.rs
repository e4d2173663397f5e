use opencodesearchparser::recursive_character_text_splitter::RecursiveCharacterTextSplitter;
use opencodesearchparser::CodeLanguage;

const RUST_SAMPLE: &str = r#"static GLOBAL_VAR: i32 = 42;

fn add(a: i32, b: i32) -> i32 {
    a + b
}
struct Point {
    x: i32,
    y: i32,
}
impl Rectangle {
    fn area(&self) -> u32 {
        self.width * self.height
    }
    fn square(size: u32) -> Rectangle {
        Rectangle {
            width: size,
            height: size,
        }
    }
}
const PI: f64 = 3.14;
"#;

#[test]
fn test_recursive_character_text_splitter() {
    let splitter = RecursiveCharacterTextSplitter::from_language(CodeLanguage::Rust);
    let chunks = splitter.split_text(RUST_SAMPLE);
    assert!(!chunks.is_empty());
}

#[test]
fn test_recursive_splitter_various_chunk_sizes() {
    let text = RUST_SAMPLE;
    let splitter1 = RecursiveCharacterTextSplitter::new(None, 60, 10);
    let chunks1 = splitter1.split_text(text);
    for seg in &chunks1 {
        println!("====S===\n{}\n=======E======\n", seg);
    }
    assert!(chunks1.len() >= 2);
    let splitter2 = RecursiveCharacterTextSplitter::new(None, 100, 20);
    let chunks2 = splitter2.split_text(text);
    for seg in &chunks2 {
        println!("====S===\n{}\n=======E======\n", seg);
    }
    assert!(chunks2.len() >= 1);
}

#[test]
fn test_recursive_splitter_empty_input_returns_empty() {
    let splitter = RecursiveCharacterTextSplitter::new(None, 40, 10);
    let chunks = splitter.split_text("");
    assert!(chunks.is_empty());
}

#[test]
fn test_recursive_splitter_whitespace_only_input_returns_empty() {
    let splitter = RecursiveCharacterTextSplitter::new(None, 40, 10);
    let chunks = splitter.split_text(" \n\t  \n");
    assert!(chunks.is_empty());
}

#[test]
fn test_recursive_splitter_character_fallback_respects_chunk_size() {
    let splitter = RecursiveCharacterTextSplitter::new(None, 5, 2);
    let text = "abcdefghijklmnopqrstuvwxyz";
    let chunks = splitter.split_text(text);
    assert!(!chunks.is_empty());
    assert!(chunks.iter().all(|c| c.len() <= 5));
    assert_eq!(chunks[0], "abcde");

    for pair in chunks.windows(2) {
        let left = &pair[0];
        let right = &pair[1];
        assert_eq!(&left[left.len() - 2..], &right[..2]);
    }

    let mut rebuilt = chunks[0].clone();
    for chunk in chunks.iter().skip(1) {
        rebuilt.push_str(&chunk[2..]);
    }
    assert_eq!(rebuilt, text);
}

#[test]
fn test_recursive_splitter_custom_separator_splits_and_merges_deterministically() {
    let splitter = RecursiveCharacterTextSplitter::new(
        Some(vec![",".to_string(), "".to_string()]),
        3,
        0,
    );
    let chunks = splitter.split_text("a,b,c,d");
    assert_eq!(
        chunks,
        vec!["a,".to_string(), "b,".to_string(), "c,d".to_string()]
    );
}

#[test]
fn test_recursive_splitter_preserves_token_order_in_output() {
    let splitter = RecursiveCharacterTextSplitter::new(None, 9, 2);
    let chunks = splitter.split_text("alpha\n\nbeta\ngamma\ndelta");
    assert!(!chunks.is_empty());
    assert!(chunks.iter().all(|c| !c.trim().is_empty()));
    assert!(chunks.iter().all(|c| c.len() <= 9));

    let joined = chunks.concat();
    let tokens = ["alpha", "beta", "gamma", "delta"];
    let mut start = 0;
    for token in tokens {
        let pos = joined[start..]
            .find(token)
            .expect("token should appear in joined output in order");
        start += pos + token.len();
    }
}

#[test]
fn splitter_overlap_in_character_mode() {
    let splitter = RecursiveCharacterTextSplitter::new(Some(vec!["".to_string()]), 4, 2);
    let chunks = splitter.split_text("abcdefgh");
    assert_eq!(
        chunks,
        vec!["abcd".to_string(), "cdef".to_string(), "efgh".to_string()]
    );
}

#[test]
fn splitter_zero_chunk_size_is_one() {
    let splitter = RecursiveCharacterTextSplitter::new(None, 0, 5);
    let chunks = splitter.split_text("ab");
    assert_eq!(chunks, vec!["a".to_string(), "b".to_string()]);
}

#[test]
fn splitter_overlap_is_capped_at_half_the_chunk_size() {
    let capped = RecursiveCharacterTextSplitter::new(Some(vec!["".to_string()]), 4, 100);
    let exact = RecursiveCharacterTextSplitter::new(Some(vec!["".to_string()]), 4, 2);
    assert_eq!(capped.split_text("abcdefgh"), exact.split_text("abcdefgh"));
}

#[test]
fn splitter_chunks_are_never_blank() {
    let splitter = RecursiveCharacterTextSplitter::new(None, 6, 2);
    let chunks = splitter.split_text("a \n\n   \n\n  b c\n\n\t\n d");
    assert!(!chunks.is_empty());
    for c in &chunks {
        assert!(!c.trim().is_empty());
    }
}

#[test]
fn splitter_multibyte_chunks_fit() {
    let splitter = RecursiveCharacterTextSplitter::new(None, 5, 1);
    let text = "héllo wörld ñandú";
    let chunks = splitter.split_text(text);
    assert!(!chunks.is_empty());
    for c in &chunks {
        assert!(c.len() <= 5);
    }
}

#[test]
fn splitter_keeps_separator_at_piece_end() {
    let splitter = RecursiveCharacterTextSplitter::new(Some(vec![";".to_string()]), 3, 0);
    let chunks = splitter.split_text("ab;cd;efgh");
    assert_eq!(
        chunks,
        vec!["ab;".to_string(), "cd;".to_string(), "efgh".to_string()]
    );
}

#[test]
fn splitter_python_language_separators() {
    let splitter = RecursiveCharacterTextSplitter::from_language(CodeLanguage::Python);
    let text = "class A:\n    pass\nclass B:\n    pass";
    let chunks = splitter.split_text(text);
    assert_eq!(chunks, vec![text.to_string()]);
}

#[test]
fn splitter_long_piece_is_split_again() {
    let splitter = RecursiveCharacterTextSplitter::new(
        Some(vec!["|".to_string(), " ".to_string()]),
        6,
        0,
    );
    let chunks = splitter.split_text("ab|cd ef gh|i");
    assert_eq!(
        chunks,
        vec![
            "ab|".to_string(),
            "cd ef ".to_string(),
            "gh|".to_string(),
            "i".to_string(),
        ]
    );
}

#[test]
fn splitter_drops_blank_piece_between_merged_pieces() {
    let splitter = RecursiveCharacterTextSplitter::new(Some(vec![" ".to_string()]), 10, 0);
    let chunks = splitter.split_text("a  b");
    assert_eq!(chunks, vec!["a b".to_string()]);
}

#[test]
fn splitter_chunks_move_forward_through_the_text() {
    let splitter = RecursiveCharacterTextSplitter::new(None, 9, 2);
    let text = "alpha\n\nbeta\ngamma\ndelta";
    let chunks = splitter.split_text(text);
    let mut last_start = None;
    for c in &chunks {
        let start = text.find(c.as_str()).expect("chunk should come from the text");
        if let Some(prev) = last_start {
            assert!(start > prev);
        }
        last_start = Some(start);
    }
}

#[test]
fn splitter_character_mode_slides_a_window() {
    let splitter = RecursiveCharacterTextSplitter::new(None, 4, 1);
    assert_eq!(
        splitter.split_text("abcdefghij"),
        vec!["abcd".to_string(), "defg".to_string(), "ghij".to_string()]
    );
    let splitter = RecursiveCharacterTextSplitter::new(None, 5, 2);
    assert_eq!(
        splitter.split_text("abcdefg"),
        vec!["abcde".to_string(), "defg".to_string()]
    );
}

#[test]
fn splitter_character_mode_of_size_one_gives_each_character() {
    let splitter = RecursiveCharacterTextSplitter::new(Some(vec!["".to_string()]), 1, 3);
    assert_eq!(
        splitter.split_text("abc"),
        vec!["a".to_string(), "b".to_string(), "c".to_string()]
    );
}

#[test]
fn splitter_wide_character_comes_out_on_its_own() {
    let splitter = RecursiveCharacterTextSplitter::new(None, 1, 0);
    assert_eq!(
        splitter.split_text("aéb"),
        vec!["a".to_string(), "é".to_string(), "b".to_string()]
    );
}

#[test]
fn splitter_without_overlap_loses_and_repeats_nothing() {
    let splitter = RecursiveCharacterTextSplitter::new(Some(vec![" ".to_string()]), 5, 0);
    let text = "ab cd ef";
    let chunks = splitter.split_text(text);
    assert_eq!(chunks, vec!["ab ".to_string(), "cd ef".to_string()]);
    assert_eq!(chunks.concat(), text);
}
