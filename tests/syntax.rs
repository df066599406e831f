use editor::syntax::{
    HighlightSpan, SerializableRange, SupportedLanguage, SyntaxEngine, SyntaxError, SyntaxNode,
    SyntaxTree, highlights_or_empty,
};
use editor::text_buffer::TextBuffer;

#[test]
fn test_syntax_parse_python() {
    let mut buf = TextBuffer::empty();
    buf.set_line(0, "def foo():\n").unwrap();
    buf.append_line("    return 42").unwrap();

    let tree = buf.parse_syntax(SupportedLanguage::Python).expect("Failed to parse");
    let root = &tree.root;

    assert_eq!(root.kind, "module");
    assert!(root.children.iter().filter(|c| c.is_named).count() > 0);
}

#[test]
fn test_syntax_parse_rust() {
    let mut engine = SyntaxEngine::new(SupportedLanguage::Rust);
    let source = r#"fn main() { println!("Hello"); }"#;
    let tree = engine.parse(source);
    assert!(tree.is_ok());
}

#[test]
fn test_syntax_parse_typescript() {
    let mut engine = SyntaxEngine::new(SupportedLanguage::TypeScript);
    let source = r#"function greet(name: string): void { console.log(name); }"#;
    let tree = engine.parse(source);
    assert!(tree.is_ok());
}

#[test]
fn test_extract_highlights_python() {
    let mut buf = TextBuffer::empty();
    buf.set_line(0, "def foo():\n").unwrap();
    buf.append_line("    return 42").unwrap();

    let highlights = buf.extract_highlights(SupportedLanguage::Python);
    assert!(highlights.iter().any(|h| h.highlight_type == "function_definition"));
}

#[test]
fn python_function_span_starts_on_row_zero() {
    let mut engine = SyntaxEngine::new(SupportedLanguage::Python);
    let spans = engine.extract_highlights("def foo():\n    return 42");
    assert!(!spans.is_empty());
    let f = spans.iter().find(|h| h.highlight_type == "function_definition").unwrap();
    assert_eq!(f.range.start_row, 0);
    assert_eq!(spans[0].highlight_type, "module");
    assert_eq!(spans[0].range.start_row, 0);
    assert_eq!(spans[0].range.start_col, 0);
    assert_eq!(spans[0].range.end_row, 1);
    assert_eq!(spans[0].range.end_col, 13);
}

#[test]
fn invalid_source_still_parses() {
    let mut engine = SyntaxEngine::new(SupportedLanguage::JavaScript);
    let tree = engine.parse("function (((").unwrap();
    assert_eq!(tree.root.kind, "program");
    assert_eq!(*engine.current_language(), SupportedLanguage::JavaScript);
}

#[test]
fn every_language_parses() {
    for (lang, src) in [
        (SupportedLanguage::CPP, "int main() { return 0; }"),
        (SupportedLanguage::CSharp, "class A { }"),
        (SupportedLanguage::JavaScript, "let x = 1;"),
        (SupportedLanguage::Python, "x = 1"),
        (SupportedLanguage::Rust, "fn f() {}"),
        (SupportedLanguage::TypeScript, "let x: number = 1;"),
        (SupportedLanguage::TSX, "const a = <div />;"),
    ] {
        let mut engine = SyntaxEngine::new(lang);
        let spans = engine.extract_highlights(src);
        assert!(!spans.is_empty());
    }
}

#[test]
fn from_extension_resolves_exact_extensions() {
    assert_eq!(SupportedLanguage::from_extension("tsx"), Some(SupportedLanguage::TSX));
    assert_eq!(SupportedLanguage::from_extension("java"), None);
    assert_eq!(SupportedLanguage::from_extension("cpp"), Some(SupportedLanguage::CPP));
    assert_eq!(SupportedLanguage::from_extension("cxx"), Some(SupportedLanguage::CPP));
    assert_eq!(SupportedLanguage::from_extension("cc"), Some(SupportedLanguage::CPP));
    assert_eq!(SupportedLanguage::from_extension("cs"), Some(SupportedLanguage::CSharp));
    assert_eq!(SupportedLanguage::from_extension("js"), Some(SupportedLanguage::JavaScript));
    assert_eq!(SupportedLanguage::from_extension("py"), Some(SupportedLanguage::Python));
    assert_eq!(SupportedLanguage::from_extension("rs"), Some(SupportedLanguage::Rust));
    assert_eq!(SupportedLanguage::from_extension("ts"), Some(SupportedLanguage::TypeScript));
    assert_eq!(SupportedLanguage::from_extension("RS"), None);
    assert_eq!(SupportedLanguage::from_extension(".rs"), None);
    assert_eq!(SupportedLanguage::from_extension(""), None);
}

#[test]
fn display_names() {
    assert_eq!(SupportedLanguage::CPP.display_name(), "C++");
    assert_eq!(SupportedLanguage::CSharp.display_name(), "C#");
    assert_eq!(SupportedLanguage::TSX.display_name(), "TSX");
    assert_eq!(SupportedLanguage::Python.display_name(), "Python");
}

fn leaf(kind: &str, named: bool, row: usize) -> SyntaxNode {
    SyntaxNode {
        kind: kind.to_string(),
        is_named: named,
        range: SerializableRange { start_row: row, start_col: 0, end_row: row, end_col: 1 },
        children: Vec::new(),
    }
}

#[test]
fn highlights_are_pre_order_over_named_nodes() {
    let inner = SyntaxNode {
        kind: "call".to_string(),
        is_named: true,
        range: SerializableRange { start_row: 1, start_col: 0, end_row: 2, end_col: 3 },
        children: vec![leaf("identifier", true, 1), leaf("(", false, 1), leaf("arg", true, 2)],
    };
    let tree = SyntaxTree {
        root: SyntaxNode {
            kind: "root".to_string(),
            is_named: true,
            range: SerializableRange { start_row: 0, start_col: 0, end_row: 3, end_col: 0 },
            children: vec![leaf("first", true, 0), inner, leaf(";", false, 2)],
        },
    };
    let spans: Vec<HighlightSpan> = SyntaxEngine::extract_highlights_from_tree(&tree);
    let kinds: Vec<&str> = spans.iter().map(|h| h.highlight_type.as_str()).collect();
    assert_eq!(kinds, vec!["root", "first", "call", "identifier", "arg"]);
    assert_eq!(spans[2].range, SerializableRange { start_row: 1, start_col: 0, end_row: 2, end_col: 3 });
}

#[test]
fn failed_parse_gives_no_spans() {
    assert!(highlights_or_empty(&Err(SyntaxError::ParseFailed)).is_empty());
    let tree = SyntaxTree { root: leaf("only", true, 0) };
    assert_eq!(highlights_or_empty(&Ok(tree)).len(), 1);
}

#[test]
fn parsed_spans_nest_and_start_in_order() {
    let mut engine = SyntaxEngine::new(SupportedLanguage::Python);
    let spans = engine.extract_highlights("def foo():\n    return 42\n\nx = foo()\n");
    let start = |h: &HighlightSpan| (h.range.start_row, h.range.start_col);
    let end = |h: &HighlightSpan| (h.range.end_row, h.range.end_col);
    for j in 0..spans.len() {
        assert!(start(&spans[j]) <= end(&spans[j]));
        for k in j + 1..spans.len() {
            assert!(start(&spans[j]) <= start(&spans[k]));
            let within = end(&spans[k]) <= end(&spans[j]);
            let after = end(&spans[j]) <= start(&spans[k]);
            assert!(within || after);
        }
    }
}
