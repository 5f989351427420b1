use sem::chunker::{
    build_wrapped_chunk, chunk_file, detect_indent, detect_indent_from_lines,
    find_blank_line_boundary, split_lines_into_parts, WrapInfo,
};

fn s(x: &str) -> String {
    x.to_string()
}

fn lines(v: &[&str]) -> Vec<String> {
    v.iter().map(|l| l.to_string()).collect()
}

fn impl_wrapper() -> WrapInfo {
    WrapInfo { header: s("impl Foo {\n"), body_indent: s("    "), closing_indent: s("") }
}

#[test]
fn wrapped_chunk_without_wrappers_is_the_content() {
    assert_eq!(build_wrapped_chunk("fn a() {}", &[], false, false), "fn a() {}");
}

#[test]
fn wrapped_chunk_first_and_last_item() {
    let w = vec![impl_wrapper()];
    assert_eq!(
        build_wrapped_chunk("fn a() {}", &w, true, true),
        "impl Foo {\n    fn a() {}\n}\n"
    );
}

#[test]
fn wrapped_chunk_middle_item_shows_elisions() {
    let w = vec![impl_wrapper()];
    assert_eq!(
        build_wrapped_chunk("fn a() {}\n", &w, false, false),
        "impl Foo {\n    ...\n    fn a() {}\n    ...\n}\n"
    );
}

#[test]
fn indent_of_first_nonblank_line() {
    assert_eq!(detect_indent("\n   \n    fn x() {}\n"), "    ");
    assert_eq!(detect_indent("fn x() {}"), "");
    assert_eq!(detect_indent("  \n \t\n"), "");
    assert_eq!(detect_indent_from_lines(&lines(&["", "\tlet a = 1;"])), " ");
}

#[test]
fn blank_boundary_cuts_after_last_fitting_blank_line() {
    let cur = lines(&["aaa", "", "bbb", "ccc"]);
    assert_eq!(find_blank_line_boundary(&cur, &[], 100), 2);
}

#[test]
fn parts_keep_all_lines() {
    let ls = lines(&["aaaa", "bbbb", "", "cccc", "dddd"]);
    let parts = split_lines_into_parts(&ls, 12);
    let joined: Vec<String> = parts.iter().flatten().cloned().collect();
    assert_eq!(joined, ls);
    assert_eq!(parts, vec![lines(&["aaaa", "bbbb", ""]), lines(&["cccc", "dddd"])]);
}

#[test]
fn chunk_file_top_level_function() {
    let code = "fn main() {\n    println!(\"hello, world and everyone else\");\n}\n";
    let chunks = chunk_file("m.rs", code.as_bytes()).unwrap();
    assert_eq!(chunks.len(), 1);
    assert_eq!(chunks[0].file_path, "m.rs");
    assert_eq!(chunks[0].line_start, 1);
    assert_eq!(chunks[0].line_end, 3);
    assert_eq!(chunks[0].content, code.trim_end());
}

#[test]
fn blank_boundary_extends_to_next_blank_line_when_it_fits() {
    let cur = lines(&["aaaa", "bbbb"]);
    let rem = lines(&["cc", "", "dd"]);
    assert_eq!(find_blank_line_boundary(&cur, &rem, 100), 4);
    assert_eq!(find_blank_line_boundary(&cur, &rem, 10), 2);
}

#[test]
fn parts_with_zero_budget_form_one_part() {
    let ls = lines(&["a", "b"]);
    assert_eq!(split_lines_into_parts(&ls, 0), vec![ls.clone()]);
    assert!(split_lines_into_parts(&[], 10).is_empty());
}

#[test]
fn oversized_single_line_is_a_part_of_its_own() {
    let ls = lines(&["aaaaaaaaaaaaaaaaaaaa", "b"]);
    let parts = split_lines_into_parts(&ls, 5);
    assert_eq!(parts, vec![lines(&["aaaaaaaaaaaaaaaaaaaa"]), lines(&["b"])]);
}

#[test]
fn indent_counts_bytes_of_unicode_whitespace() {
    // U+00A0 is whitespace and takes two bytes
    assert_eq!(detect_indent("\u{a0}x = 1;"), "  ");
}

const IMPL_CODE: &str = "struct Foo {\n    a: i32,\n    b: i32,\n    c: i32,\n}\n\nimpl Foo {\n    fn alpha(&self) -> i32 {\n        self.a + self.b + self.c\n    }\n\n    fn beta(&self) -> i32 {\n        self.a * self.b * self.c\n    }\n}\n";

#[test]
fn chunk_file_wraps_methods_in_their_impl() {
    let chunks = chunk_file("foo.rs", IMPL_CODE.as_bytes()).unwrap();
    assert_eq!(chunks.len(), 3);
    assert_eq!(chunks[0].content, "struct Foo {\n    a: i32,\n    b: i32,\n    c: i32,\n}");
    assert_eq!((chunks[0].line_start, chunks[0].line_end), (1, 5));
    assert_eq!(
        chunks[1].content,
        "impl Foo {\n    fn alpha(&self) -> i32 {\n        self.a + self.b + self.c\n    }\n    ...\n}\n"
    );
    assert_eq!((chunks[1].line_start, chunks[1].line_end), (8, 10));
    assert_eq!(
        chunks[2].content,
        "impl Foo {\n    ...\n    fn beta(&self) -> i32 {\n        self.a * self.b * self.c\n    }\n}\n"
    );
    assert_eq!((chunks[2].line_start, chunks[2].line_end), (12, 14));
    assert!(chunks.iter().all(|c| c.file_path == "foo.rs"));
}

#[test]
fn chunk_file_skips_short_items() {
    let chunks = chunk_file("s.rs", b"const A: u8 = 1;\nfn f() {}\n").unwrap();
    assert!(chunks.is_empty());
}

#[test]
fn chunk_file_decodes_invalid_utf8_lossily() {
    let mut code: Vec<u8> = b"fn main() {\n    let s = \"".to_vec();
    code.push(0xff);
    code.extend_from_slice(b" and some more text to make it long\";\n}\n");
    let chunks = chunk_file("bad.rs", &code).unwrap();
    assert_eq!(chunks.len(), 1);
    assert!(chunks[0].content.contains('\u{fffd}'));
}

#[test]
fn chunk_file_splits_a_large_function() {
    let mut code = String::from("fn big() {\n");
    for i in 0..400 {
        if i % 10 == 9 {
            code.push('\n');
        } else {
            code.push_str(&format!("    let value_{i} = {i} + 1; // some padding text\n"));
        }
    }
    code.push_str("}\n");
    let chunks = chunk_file("big.rs", code.as_bytes()).unwrap();
    assert!(chunks.len() > 1);
    assert_eq!(chunks[0].line_start, 1);
    assert_eq!(chunks[chunks.len() - 1].line_end, 402);
    for (i, c) in chunks.iter().enumerate() {
        assert!(c.content.starts_with("fn big() {\n"));
        assert_eq!(c.content.starts_with("fn big() {\n    ...\n"), i > 0);
        assert_eq!(c.content.ends_with("    ...\n"), i + 1 < chunks.len());
        assert!(c.content.len() <= 5000);
        assert_eq!(c.file_path, "big.rs");
    }
    for w in chunks.windows(2) {
        assert_eq!(w[0].line_end, w[1].line_start);
    }
}

#[test]
fn parts_close_after_a_blank_line_or_when_full() {
    let ls = lines(&["aaaa", "", "bbbb", "cccc", "dddd", "eeee", "", "ffff", "gggg"]);
    let max = 16;
    let parts = split_lines_into_parts(&ls, max);
    assert!(parts.len() > 1);
    for w in parts.windows(2) {
        let cost: usize = w[0].iter().map(|l| l.len() + 1).sum();
        assert!(w[0].last().unwrap().trim().is_empty() || cost + w[1][0].len() + 1 > max);
    }
}

#[test]
fn small_items_only_give_no_chunks() {
    assert!(chunk_file("s.rs", b"fn f() {}").unwrap().is_empty());
}

#[test]
fn large_item_chunks_stay_within_its_lines() {
    let mut code = String::from("fn big() {\n");
    for i in 0..300 {
        code.push_str(&format!("    let value_{i} = {i} + 1; // more padding text\n"));
    }
    code.push_str("}\n");
    let chunks = chunk_file("big.rs", code.as_bytes()).unwrap();
    assert!(chunks.len() > 1);
    for c in &chunks {
        assert!(1 <= c.line_start && c.line_start <= c.line_end && c.line_end <= 302);
        assert!(!c.content.is_empty());
    }
    for w in chunks.windows(2) {
        assert!(w[0].line_start < w[1].line_start);
    }
}
