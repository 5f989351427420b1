use sem::config::{default_max_chunk_chars, Config};
use sem::ollama::{embed_after, embed_begin, embed_request, first_embedding, EmbedRequest};
use sem::index::embedded_chunks;
use sem::chunker::Chunk;
use sem::search::{format_results, rank_scores, search, SearchResult};
use sem::store::{blob_to_embedding, embedding_to_blob, StoredChunk};

fn bits(v: &[f32]) -> Vec<u32> {
    v.iter().map(|x| x.to_bits()).collect()
}

fn stored(id: i64, path: &str) -> StoredChunk {
    StoredChunk {
        id,
        file_path: path.to_string(),
        line_start: id as usize,
        line_end: id as usize + 1,
        content: format!("chunk {id}"),
        embedding: vec![],
    }
}

#[test]
fn blob_holds_little_endian_values() {
    assert_eq!(embedding_to_blob(&bits(&[1.5])), vec![0x00, 0x00, 0xc0, 0x3f]);
    assert_eq!(embedding_to_blob(&[0x0403_0201, 0xa0b0_c0d0]), vec![1, 2, 3, 4, 0xd0, 0xc0, 0xb0, 0xa0]);
}

#[test]
fn blob_roundtrip() {
    let e = bits(&[1.5, -2.25, 0.0, 3.0e-7]);
    assert_eq!(blob_to_embedding(&embedding_to_blob(&e)), e);
    let blob = vec![9u8, 8, 7, 6, 5, 4, 3, 2];
    assert_eq!(embedding_to_blob(&blob_to_embedding(&blob)), blob);
}

#[test]
fn blob_trailing_bytes_are_ignored() {
    assert_eq!(blob_to_embedding(&[1, 0, 0, 0, 7]), vec![1]);
    assert!(blob_to_embedding(&[1, 2, 3]).is_empty());
}

#[test]
fn ranking_orders_by_score_then_position() {
    assert_eq!(rank_scores(&bits(&[0.5, 0.9, -0.1, 0.9]), 3), vec![1, 3, 0]);
    assert_eq!(rank_scores(&bits(&[0.5, 0.9, -0.1, 0.9]), 10), vec![1, 3, 0, 2]);
    assert_eq!(rank_scores(&bits(&[-0.5, -0.25, -1.0]), 2), vec![1, 0]);
    assert!(rank_scores(&bits(&[0.5]), 0).is_empty());
}

#[test]
fn ranking_treats_negative_zero_as_zero() {
    assert_eq!(rank_scores(&bits(&[-0.0, 0.0, -0.0]), 3), vec![0, 1, 2]);
    assert_eq!(rank_scores(&bits(&[0.0, f32::INFINITY, f32::NEG_INFINITY]), 3), vec![1, 0, 2]);
}

#[test]
fn search_returns_best_chunks_first() {
    let chunks = vec![stored(1, "a.rs"), stored(2, "b.rs"), stored(3, "c.rs")];
    let res = search(&chunks, &bits(&[0.2, 0.8, 0.5]), 2);
    assert_eq!(res.len(), 2);
    assert_eq!(res[0].file_path, "b.rs");
    assert_eq!(res[0].score, 0.8f32.to_bits());
    assert_eq!(res[1].file_path, "c.rs");
    assert_eq!(res[1].content, "chunk 3");
}

#[test]
fn nan_scores_tie_with_equal_scores_in_stored_order() {
    let chunks = vec![stored(1, "a.rs"), stored(2, "b.rs"), stored(3, "c.rs")];
    let res = search(&chunks, &bits(&[0.5, f32::NAN, 0.5]), 2);
    assert_eq!(res.iter().map(|r| r.file_path.as_str()).collect::<Vec<_>>(), vec!["a.rs", "b.rs"]);
    assert!(f32::from_bits(res[1].score).is_nan());
    let one = search(&chunks[..1], &bits(&[f32::NAN]), 5);
    assert_eq!(one.len(), 1);
    assert_eq!(one[0].file_path, "a.rs");
}

fn result(path: &str, start: usize, end: usize, content: &str) -> SearchResult {
    SearchResult {
        file_path: path.to_string(),
        line_start: start,
        line_end: end,
        content: content.to_string(),
        score: 0,
    }
}

#[test]
fn format_without_context() {
    let rs = vec![result("a.rs", 2, 3, "fn b() {}"), result("c.rs", 10, 12, "fn d() {}")];
    let out = format_results(&rs, 0, &["0.9000".to_string(), "0.1234".to_string()], &[None, None]);
    assert_eq!(
        out,
        "a.rs:2 (score: 0.9000)\nfn b() {}\n\n---\n\nc.rs:10 (score: 0.1234)\nfn d() {}\n"
    );
}

#[test]
fn format_with_context_marks_the_result_lines() {
    let rs = vec![result("a.rs", 2, 3, "fn b() {}")];
    let src = Some("line1\nline2\nline3\nline4\n".to_string());
    let out = format_results(&rs, 1, &["0.9000".to_string()], &[src]);
    assert_eq!(
        out,
        "a.rs:2 (score: 0.9000)\n    1: line1\n>   2: line2\n    3: line3\n\nfn b() {}\n"
    );
}

#[test]
fn format_context_near_the_top_numbers_line_zero() {
    let rs = vec![result("a.rs", 1, 2, "x")];
    let src = Some("first\nsecond\n".to_string());
    let out = format_results(&rs, 2, &["1.0000".to_string()], &[src]);
    assert_eq!(
        out,
        "a.rs:1 (score: 1.0000)\n    0: first\n>   1: first\n    2: second\n\nx\n"
    );
}

#[test]
fn format_skips_context_of_unreadable_file() {
    let rs = vec![result("gone.rs", 5, 6, "y")];
    let out = format_results(&rs, 3, &["0.5000".to_string()], &[None]);
    assert_eq!(out, "gone.rs:5 (score: 0.5000)\ny\n");
}

#[test]
fn format_wide_line_numbers() {
    let rs = vec![result("a.rs", 12345, 12346, "z")];
    let text: String = (1..=12346).map(|i| format!("l{i}\n")).collect();
    let out = format_results(&rs, 1, &["0.0000".to_string()], &[Some(text)]);
    assert_eq!(out, "a.rs:12345 (score: 0.0000)\n 12344: l12344\n>12345: l12345\n 12346: l12346\n\nz\n");
}

fn requests(total: usize, failing_batches: &[usize]) -> Vec<String> {
    let mut out = Vec::new();
    let mut p = embed_begin(total);
    loop {
        let failed = match embed_request(&p) {
            EmbedRequest::Batch { start, end } => {
                out.push(format!("batch {start}..{end}"));
                failing_batches.contains(&start)
            }
            EmbedRequest::Single { index } => {
                out.push(format!("single {index}"));
                false
            }
            EmbedRequest::Finished => break,
        };
        p = embed_after(p, failed);
    }
    out
}

#[test]
fn embedding_requests_go_in_batches_of_fifty() {
    assert_eq!(requests(120, &[]), vec!["batch 0..50", "batch 50..100", "batch 100..120"]);
    assert_eq!(requests(50, &[]), vec!["batch 0..50"]);
    assert!(requests(0, &[]).is_empty());
}

#[test]
fn failed_batch_is_retried_text_by_text() {
    assert_eq!(
        requests(53, &[50]),
        vec!["batch 0..50", "batch 50..53", "single 50", "single 51", "single 52"]
    );
}

fn chunk(n: usize) -> Chunk {
    Chunk { file_path: "f.rs".to_string(), line_start: n, line_end: n, content: format!("c{n}") }
}

#[test]
fn chunks_without_embedding_are_dropped_from_the_end() {
    let (kept, skipped) = embedded_chunks(vec![chunk(1), chunk(2), chunk(3)], 2);
    assert_eq!(skipped, 1);
    assert_eq!(kept.iter().map(|c| c.line_start).collect::<Vec<_>>(), vec![1, 2]);
    let (kept, skipped) = embedded_chunks(vec![chunk(1)], 1);
    assert_eq!((kept.len(), skipped), (1, 0));
}

#[test]
fn first_embedding_or_error() {
    assert_eq!(first_embedding(vec![vec![1.0f32], vec![2.0]]), Ok(vec![1.0f32]));
    let none: Vec<Vec<f32>> = vec![];
    assert_eq!(first_embedding(none), Err("No embedding returned".to_string()));
}

#[test]
fn default_config() {
    let c = Config::default();
    assert_eq!(c.model, "nomic-embed-text");
    assert_eq!(c.max_chunk_chars, 5000);
    assert_eq!(default_max_chunk_chars(), 5000);
}
