use sem::chunker::{chunk_tree, chunks_from_parse, split_large_content, WrapInfo};
use sem::syntax::SyntaxNode;
use sem::text::{char_is_whitespace, split_lines, utf8_len};

fn chars(s: &str) -> Vec<char> {
    s.chars().collect()
}

fn node(kind: &str, start: usize, end: usize, rows: (usize, usize), depth: usize) -> SyntaxNode {
    SyntaxNode {
        kind: kind.to_string(),
        start_byte: start,
        end_byte: end,
        start_row: rows.0,
        end_row: rows.1,
        depth,
    }
}

#[test]
fn lines_split_like_str_lines() {
    let got = split_lines(&chars("a\r\nb\n\nc\r"));
    assert_eq!(got, vec![chars("a"), chars("b"), chars(""), chars("c\r")]);
    assert!(split_lines(&chars("")).is_empty());
    assert_eq!(split_lines(&chars("x\n")), vec![chars("x")]);
}

#[test]
fn utf8_lengths() {
    assert_eq!(utf8_len(&chars("aé€😀")), 1 + 2 + 3 + 4);
}

#[test]
fn chunk_tree_from_given_nodes() {
    let code = "fn one() { let a = 1; let b = 2; let c = a + b + 1000; }\n";
    let nodes = vec![
        node("source_file", 0, code.len(), (0, 1), 0),
        node("function_item", 0, code.len() - 1, (0, 0), 1),
        node("identifier", 3, 6, (0, 0), 2),
    ];
    let chunks = chunk_tree("t.rs", code.as_bytes(), &nodes).unwrap();
    assert_eq!(chunks.len(), 1);
    assert_eq!(chunks[0].content, &code[..code.len() - 1]);
    assert_eq!((chunks[0].line_start, chunks[0].line_end), (1, 1));
}

#[test]
fn chunk_tree_rejects_ranges_outside_the_code() {
    let code = "fn x() {}";
    let nodes = vec![node("source_file", 0, 9, (0, 0), 0), node("function_item", 0, 90, (0, 0), 1)];
    assert!(chunk_tree("t.rs", code.as_bytes(), &nodes).is_none());
}

#[test]
fn chunk_tree_rejects_a_header_cut_inside_a_character() {
    // the item claims to start inside the two-byte 'é' of the container's text
    let code = "mod é { fn inner_function_with_a_long_name() { let x = 1; let y = 2; } }";
    let nodes = vec![
        node("source_file", 0, code.len(), (0, 0), 0),
        node("mod_item", 0, code.len(), (0, 0), 1),
        node("declaration_list", 7, code.len(), (0, 0), 2),
        node("function_item", 5, code.len() - 2, (0, 0), 3),
    ];
    assert!(chunk_tree("t.rs", code.as_bytes(), &nodes).is_none());
}

#[test]
fn large_content_without_a_split_stays_whole() {
    let content = "fn f() {\n    body();\n}";
    let w: Vec<WrapInfo> = vec![];
    let chunks = split_large_content(content, &w, 3, 5);
    assert_eq!(chunks.len(), 1);
    assert_eq!(chunks[0].content, content);
    assert_eq!((chunks[0].line_start, chunks[0].line_end), (3, 5));
    assert_eq!(chunks[0].file_path, "");
}

#[test]
fn parse_outcomes_map_to_chunks_or_errors() {
    let code = "fn one() { let a = 1; let b = 2; let c = a + b + 1000; }\n";
    let err = chunks_from_parse("t.rs", code.as_bytes(), Err("grammar broken".to_string()));
    assert_eq!(err.unwrap_err(), "grammar broken");
    let none = chunks_from_parse("t.rs", code.as_bytes(), Ok(None));
    assert_eq!(none.unwrap_err(), "Failed to parse code");
    let bad = vec![node("source_file", 0, 9, (0, 0), 0), node("function_item", 0, 900, (0, 0), 1)];
    let misfit = chunks_from_parse("t.rs", code.as_bytes(), Ok(Some(bad)));
    assert_eq!(misfit.unwrap_err(), "Syntax tree does not fit the source code");
    let good = vec![
        node("source_file", 0, code.len(), (0, 1), 0),
        node("function_item", 0, code.len() - 1, (0, 0), 1),
    ];
    let chunks = chunks_from_parse("t.rs", code.as_bytes(), Ok(Some(good))).unwrap();
    assert_eq!(chunks.len(), 1);
    assert_eq!(chunks[0].file_path, "t.rs");
}

#[test]
fn whitespace_agrees_with_std_on_every_char() {
    for u in 0u32..=0x10ffff {
        if let Some(c) = char::from_u32(u) {
            assert_eq!(char_is_whitespace(c), c.is_whitespace(), "U+{u:04X}");
        }
    }
}
