use opencodesearchparser::{parse_str, CodeLanguage};

#[test]
fn test_parse_str_lines() {
    let source = "fn main() {\n    println!(\"hello\");\n}\n";
    let segments = parse_str(source, CodeLanguage::Rust, 1).expect("parse_str failed");
    assert!(!segments.is_empty());
}

#[test]
fn test_c_segmentation() {
    let source = r#"
#include <stdio.h>

int global_var = 42;
struct Point {
    int x;
    int y;
};

int add(int a, int b) {
    return a + b;
}
void print_hello() {
    printf("Hello, World!\n");
}

#define MAX 100
"#;
    let segments = parse_str(source, CodeLanguage::C, 1).expect("parse_str failed for C");
    let expected = vec![
        "#include <stdio.h>\n".to_string(),
        "int global_var = 42;".to_string(),
        r#"struct Point {
    int x;
    int y;
};"#
            .to_string(),
        r#"int add(int a, int b) {
    return a + b;
}"#
        .to_string(),
        r#"void print_hello() {
    printf("Hello, World!\n");
}"#
        .to_string(),
        "#define MAX 100\n".to_string(),
    ];
    assert_eq!(segments, expected);
}

#[test]
fn test_cpp_segmentation() {
    let source = r#"#include <iostream>

int globalVar = 10;
class Car {
public:
    std::string brand;
    std::string model;
    int year;
    void display_details() {
        std::cout << "Brand: " << brand << ", Model: " << model << ", Year: " << year << std::endl;
    }
    void display_details2() {
        return;
    }
};
int multiply(int a, int b) {
    return a * b;
}
#define LONG_STRING "This is a very long string that " \
                    "spans multiple lines using " \
                    "backslashes for continuation."
"#;
    let segments = parse_str(source, CodeLanguage::Cpp, 1).expect("parse_str failed for Cpp");
    let expected = vec![
        "#include <iostream>\n".to_string(),
        "int globalVar = 10;".to_string(),
        r#"class Car {
public:
    std::string brand;
    std::string model;
    int year;
    void display_details() {
        std::cout << "Brand: " << brand << ", Model: " << model << ", Year: " << year << std::endl;
    }
    void display_details2() {
        return;
    }
};"#
        .to_string(),
        r#"int multiply(int a, int b) {
    return a * b;
}"#
        .to_string(),
        r#"#define LONG_STRING "This is a very long string that " \
                    "spans multiple lines using " \
                    "backslashes for continuation."
"#
            .to_string(),
    ];
    assert_eq!(segments, expected);
}

#[test]
fn test_parse_str_c_and_cpp_capture_conditional_and_pragma_directives() {
    let source = r#"#if VALUE > 0
int positive = 1;
#elif VALUE == 0
int zero = 1;
#else
int negative = 1;
#endif

#ifndef FEATURE_FLAG
#define FEATURE_FLAG 1
#endif

#pragma once
"#;

    for lang in [CodeLanguage::C, CodeLanguage::Cpp] {
        let segments = parse_str(source, lang, 1).expect("parse_str failed for C/C++");
        assert!(segments.iter().any(|s| s.contains("#if VALUE > 0")));
        assert!(segments.iter().any(|s| s.contains("#elif VALUE == 0")));
        assert!(segments.iter().any(|s| s.contains("#else")));
        assert!(segments.iter().any(|s| s.contains("#endif")));
        assert!(segments.iter().any(|s| s.contains("#ifndef FEATURE_FLAG")));
        assert!(segments.iter().any(|s| s.contains("#pragma once")));
    }
}

#[test]
fn test_python_segmentation() {
    let source = r#"global_var = 42

def add(a, b):
    return a + b
class Car:
    def __init__(self, brand, model):
        self.brand = brand
        self.model = model
        self.engine = self.Engine()
    def drive(self):
        if self.engine.status == "Running":
            print(f"Driving the {self.brand} {self.model}")
        else:
            print("Start the engine first!")
    class Engine:
        def __init__(self):
            self.status = "Off"
        def start(self):
            self.status = "Running"
            print("Engine started")
        def stop(self):
            self.status = "Off"
            print("Engine stopped")
PI = 3.14
"#;
    let segments = parse_str(source, CodeLanguage::Python, 1).expect("parse_str failed for Python");
    let expected = vec![
        "global_var = 42".to_string(),
        r#"def add(a, b):
    return a + b"#
            .to_string(),
        r#"class Car:
    def __init__(self, brand, model):
        self.brand = brand
        self.model = model
        self.engine = self.Engine()
    def drive(self):
        if self.engine.status == "Running":
            print(f"Driving the {self.brand} {self.model}")
        else:
            print("Start the engine first!")
    class Engine:
        def __init__(self):
            self.status = "Off"
        def start(self):
            self.status = "Running"
            print("Engine started")
        def stop(self):
            self.status = "Off"
            print("Engine stopped")"#
            .to_string(),
        "PI = 3.14".to_string(),
    ];
    assert_eq!(segments, expected);
}

#[test]
fn test_rust_segmentation() {
    let source = r#"static GLOBAL_VAR: i32 = 42;

fn add(a: i32, b: i32) -> i32 {
    a + b
}
struct Point {
    x: i32,
    y: i32,
}
impl Rectangle {
    fn area(&self) -> u32 {
        self.width * self.height
    }
    fn square(size: u32) -> Rectangle {
        Rectangle {
            width: size,
            height: size,
        }
    }
}
const PI: f64 = 3.14;
"#;
    let segments = parse_str(source, CodeLanguage::Rust, 1).expect("parse_str failed for Rust");
    let expected = vec![
        "static GLOBAL_VAR: i32 = 42;".to_string(),
        r#"fn add(a: i32, b: i32) -> i32 {
    a + b
}"#
        .to_string(),
        r#"struct Point {
    x: i32,
    y: i32,
}"#
        .to_string(),
        r#"impl Rectangle {
    fn area(&self) -> u32 {
        self.width * self.height
    }
    fn square(size: u32) -> Rectangle {
        Rectangle {
            width: size,
            height: size,
        }
    }
}"#
        .to_string(),
        "const PI: f64 = 3.14;".to_string(),
    ];
    assert_eq!(segments, expected);
}

#[test]
fn test_parse_str_functions() {
    let source = "fn add(a: i32, b: i32) -> i32 {\n    a + b\n}\n\nfn sub(a: i32, b: i32) -> i32 {\n    a - b\n}";
    let segments = parse_str(source, CodeLanguage::Rust, 1).expect("parse_str failed");
    let expected = vec![
        "fn add(a: i32, b: i32) -> i32 {\n    a + b\n}".to_string(),
        "fn sub(a: i32, b: i32) -> i32 {\n    a - b\n}".to_string(),
    ];
    assert_eq!(segments, expected);
}

#[test]
fn test_parse_str_empty_source_returns_empty_for_all_languages() {
    let langs = [
        CodeLanguage::C,
        CodeLanguage::Cpp,
        CodeLanguage::Python,
        CodeLanguage::JavaScript,
        CodeLanguage::Rust,
    ];
    for lang in langs {
        let segments = parse_str("", lang, 1).expect("parse_str should not fail on empty source");
        assert!(segments.is_empty());
    }
}

#[test]
fn test_parse_str_javascript_extracts_variable_function_and_class() {
    let source = r#"const version = 1;

function add(a, b) {
    return a + b;
}

class Car {
    drive() {
        return "go";
    }
}
"#;
    let segments = parse_str(source, CodeLanguage::JavaScript, 1)
        .expect("parse_str failed for JavaScript");
    let expected = vec![
        "const version = 1;".to_string(),
        r#"function add(a, b) {
    return a + b;
}"#
        .to_string(),
        r#"class Car {
    drive() {
        return "go";
    }
}"#
        .to_string(),
    ];
    assert_eq!(segments, expected);
}

#[test]
fn test_parse_str_skips_top_level_comment_nodes_for_rust() {
    let source = r#"// top-level comment
/* another comment */
static GLOBAL: i32 = 1;
// comment before function
fn run() {
    // inside-function comment stays part of function text
}
"#;
    let segments = parse_str(source, CodeLanguage::Rust, 1).expect("parse_str failed for Rust");
    assert_eq!(segments.len(), 2);
    assert!(segments.iter().any(|s| s.contains("static GLOBAL")));
    assert!(segments.iter().any(|s| s.contains("fn run")));
    assert!(!segments
        .iter()
        .any(|s| s.trim_start().starts_with("//") || s.trim_start().starts_with("/*")));
}

#[test]
fn test_parse_str_is_consistent_across_thread_num_values() {
    let source = r#"static GLOBAL_VAR: i32 = 42;

fn add(a: i32, b: i32) -> i32 {
    a + b
}
"#;
    let single_thread = parse_str(source, CodeLanguage::Rust, 1).expect("parse_str failed");
    let multi_thread = parse_str(source, CodeLanguage::Rust, 8).expect("parse_str failed");
    assert_eq!(single_thread, multi_thread);
}

#[test]
fn parse_str_keeps_decorated_python_definitions() {
    let source = "@dec\ndef f():\n    pass\n\n@dataclass\nclass C:\n    x: int\n";
    let segments = parse_str(source, CodeLanguage::Python, 1).expect("parse_str failed");
    assert_eq!(
        segments,
        vec![
            "@dec\ndef f():\n    pass".to_string(),
            "@dataclass\nclass C:\n    x: int".to_string(),
        ]
    );
}

#[test]
fn parse_str_uses_the_grammar_of_the_language() {
    let source = "class A { public: int x; };\n";
    let cpp = parse_str(source, CodeLanguage::Cpp, 1).expect("parse_str failed");
    assert_eq!(cpp, vec!["class A { public: int x; };".to_string()]);
}

#[test]
fn parse_str_segments_are_disjoint_and_in_source_order() {
    let source = "// c\nstatic A: u8 = 1;\nfn f() {}\nstruct S;\n\nfn g() -> u8 { 2 }\n";
    let segments = parse_str(source, CodeLanguage::Rust, 3).expect("parse_str failed");
    assert_eq!(segments.len(), 4);
    let mut from = 0;
    for seg in &segments {
        let at = source[from..].find(seg.as_str()).expect("segment in order") + from;
        from = at + seg.len();
    }
}
