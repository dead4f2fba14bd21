use emqu::chunker::{chunk_by_bytes, chunk_with_tokenizer, group_paragraphs, plan_chunks, split_lines};
use emqu::errors::Error;
use emqu::output::{chunk_file_contents, chunk_file_name, labeled_text, render_results, trim_bytes};
use emqu::ranker::{check_dims, order_key, rank, RankedResult};
use emqu::store::{build_records, decode_records, encode_records, Record};
use emqu::text::count_lines;

fn rec(label: &str, vector: Vec<u32>) -> Record {
    Record { label: label.as_bytes().to_vec(), vector }
}

fn bits(xs: &[f32]) -> Vec<u32> {
    xs.iter().map(|x| x.to_bits()).collect()
}

fn cosine(a: &[f32], b: &[f32]) -> f32 {
    let dot: f32 = a.iter().zip(b).map(|(x, y)| x * y).sum();
    let na: f32 = a.iter().map(|x| x * x).sum::<f32>().sqrt();
    let nb: f32 = b.iter().map(|x| x * x).sum::<f32>().sqrt();
    dot / (na * nb)
}

#[test]
fn store_round_trip_basic() {
    let records = vec![
        rec("From: a.txt\nalpha", bits(&[1.0, 0.0, -0.5])),
        rec("From: b.txt\nbeta", bits(&[0.25, 0.1, 7.5e-3])),
    ];
    let encoded = encode_records(&records);
    let decoded = decode_records(&encoded).unwrap();
    assert_eq!(decoded.len(), 2);
    for (d, r) in decoded.iter().zip(records.iter()) {
        assert_eq!(d.label, r.label);
        assert_eq!(d.vector, r.vector);
    }
}

#[test]
fn store_round_trip_empty() {
    let records: Vec<Record> = Vec::new();
    let encoded = encode_records(&records);
    let decoded = decode_records(&encoded).unwrap();
    assert_eq!(decoded.len(), 0);
}

#[test]
fn store_preserves_exact_bits() {
    // values that lossy re-quantization would damage
    let specials = vec![
        0.1f32,
        -0.0,
        f32::MIN_POSITIVE,
        f32::NAN,
        f32::INFINITY,
        3.141592653589793e-7,
    ];
    let records = vec![rec("s", specials.iter().map(|x| x.to_bits()).collect())];
    let decoded = decode_records(&encode_records(&records)).unwrap();
    assert_eq!(decoded[0].vector, records[0].vector);
}

#[test]
fn store_decode_rejects_truncated() {
    let records = vec![rec("abc", bits(&[1.0, 2.0]))];
    let mut encoded = encode_records(&records);
    encoded.pop();
    assert_eq!(decode_records(&encoded), Err(Error::FormatError));
    assert_eq!(decode_records(&[1, 2, 3]), Err(Error::FormatError));
}

#[test]
fn store_decode_rejects_wrong_count() {
    let records = vec![rec("a", bits(&[1.0]))];
    let mut encoded = encode_records(&records);
    encoded[0] = 2;
    assert_eq!(decode_records(&encoded), Err(Error::FormatError));
}

#[test]
fn store_decode_rejects_trailing_garbage() {
    let records = vec![rec("abc", bits(&[1.0]))];
    let mut encoded = encode_records(&records);
    encoded.push(0);
    assert_eq!(decode_records(&encoded), Err(Error::FormatError));
}

#[test]
fn build_records_enforces_invariants() {
    let ok = build_records(
        vec![b"a".to_vec(), b"b".to_vec()],
        vec![vec![1, 2], vec![3, 4]],
    )
    .unwrap();
    assert_eq!(ok.len(), 2);
    assert_eq!(ok[1].label, b"b".to_vec());
    assert_eq!(ok[1].vector, vec![3, 4]);

    let batch_mismatch = build_records(vec![b"a".to_vec()], vec![]);
    assert_eq!(batch_mismatch.unwrap_err(), Error::EmbeddingError);

    let dim_mismatch = build_records(
        vec![b"a".to_vec(), b"b".to_vec()],
        vec![vec![1, 2], vec![3]],
    );
    assert_eq!(dim_mismatch.unwrap_err(), Error::DimensionMismatch);
}

#[test]
fn chunk_covers_text_exactly() {
    let text = b"first line\nsecond line\nthird\nfourth line here\n".to_vec();
    let chunks = chunk_by_bytes(&text, 16);
    let joined: Vec<u8> = chunks.iter().flat_map(|c| c.text.clone()).collect();
    assert_eq!(joined, text);
    // line ranges: first starts at 1, contiguous, last ends at total
    assert_eq!(chunks[0].start_line, 1);
    for w in chunks.windows(2) {
        assert_eq!(w[1].start_line, w[0].end_line + 1);
    }
    for c in &chunks {
        assert_eq!(
            c.end_line - c.start_line + 1,
            count_lines(c.text.as_slice())
        );
    }
    assert_eq!(
        chunks.last().unwrap().end_line,
        count_lines(text.as_slice())
    );
}

#[test]
fn chunk_empty_text_gives_no_chunks() {
    let chunks = chunk_by_bytes(&Vec::new(), 100);
    assert_eq!(chunks.len(), 0);
}

#[test]
fn chunk_large_budget_gives_one_chunk() {
    let text = b"one\ntwo\nthree".to_vec();
    let chunks = chunk_by_bytes(&text, 1000);
    assert_eq!(chunks.len(), 1);
    assert_eq!(chunks[0].text, text);
    assert_eq!(chunks[0].start_line, 1);
    assert_eq!(chunks[0].end_line, 3);
}

#[test]
fn chunk_oversized_line_stands_alone() {
    let text = b"ab\nthis line is far over budget\ncd\n".to_vec();
    let chunks = chunk_by_bytes(&text, 6);
    assert_eq!(chunks.len(), 3);
    assert_eq!(chunks[0].text, b"ab\n".to_vec());
    assert_eq!(chunks[1].text, b"this line is far over budget\n".to_vec());
    assert_eq!(chunks[2].text, b"cd\n".to_vec());
    assert_eq!(chunks[1].start_line, 2);
    assert_eq!(chunks[1].end_line, 2);
}

#[test]
fn paragraphs_cut_after_blank_lines() {
    let lines = split_lines(&b"a\n\nb\nc\n".to_vec());
    assert_eq!(
        lines,
        vec![b"a\n".to_vec(), b"\n".to_vec(), b"b\n".to_vec(), b"c\n".to_vec()]
    );
    let pb = group_paragraphs(&lines);
    assert_eq!(pb, vec![0, 2, 4]);
}

#[test]
fn chunk_keeps_fitting_paragraphs_whole() {
    // two paragraphs of 5 and 6 bytes; with budget 8 the first stays
    // whole and the cut falls at the paragraph border, where a purely
    // line-based packing would have split the second paragraph
    let text = b"a
b

cc
dd
".to_vec();
    let chunks = chunk_by_bytes(&text, 8);
    assert_eq!(chunks.len(), 2);
    assert_eq!(chunks[0].text, b"a
b

".to_vec());
    assert_eq!(chunks[1].text, b"cc
dd
".to_vec());
    assert_eq!(chunks[0].start_line, 1);
    assert_eq!(chunks[0].end_line, 3);
    assert_eq!(chunks[1].start_line, 4);
    assert_eq!(chunks[1].end_line, 5);
}

#[test]
fn chunk_boundaries_are_greedy() {
    // units of sizes 3, 3, 3 with budget 6: two in the first chunk
    let sizes = vec![3usize, 3, 3];
    let bounds = plan_chunks(&sizes, 6);
    assert_eq!(bounds, vec![0, 2, 3]);
}

#[test]
fn split_lines_keeps_newlines() {
    let units = split_lines(&b"a\nbb\nccc".to_vec());
    let texts: Vec<Vec<u8>> = units;
    assert_eq!(
        texts,
        vec![b"a\n".to_vec(), b"bb\n".to_vec(), b"ccc".to_vec()]
    );
}

#[test]
fn chunk_with_real_tokenizer_counts_tokens() {
    let vocab_json = r#"{
        "version": "1.0",
        "model": {
            "type": "WordLevel",
            "vocab": {"[UNK]": 0, "tok": 1, "ens": 2},
            "unk_token": "[UNK]"
        },
        "pre_tokenizer": {"type": "Whitespace"}
    }"#;
    let tok = tokenizers::Tokenizer::from_bytes(vocab_json.as_bytes()).unwrap();
    // lines of 3, 2 and 2 whitespace-separated tokens
    let text = b"tok ens tok\ntok ens\nens tok\n".to_vec();
    let chunks = chunk_with_tokenizer(&text, &tok, 4).unwrap();
    let joined: Vec<u8> = chunks.iter().flat_map(|c| c.text.clone()).collect();
    assert_eq!(joined, text);
    // greedy over token counts: 3 alone would allow +2? 3+2=5>4, so cut;
    // then 2+2=4 fits in one chunk
    assert_eq!(chunks.len(), 2);
    assert_eq!(chunks[0].text, b"tok ens tok\n".to_vec());
    assert_eq!(chunks[1].text, b"tok ens\nens tok\n".to_vec());
    assert_eq!(chunks[1].start_line, 2);
    assert_eq!(chunks[1].end_line, 3);
}

#[test]
fn cosine_stays_in_bounds() {
    let vs: Vec<Vec<f32>> = vec![
        vec![1.0, 0.0, 0.0],
        vec![-3.5, 2.0, 0.25],
        vec![0.1, 0.1, 0.1],
        vec![-1.0, -1.0, 5.0],
    ];
    for a in &vs {
        for b in &vs {
            let c = cosine(a, b);
            assert!(c >= -1.0 - 1e-5 && c <= 1.0 + 1e-5);
        }
        assert!((cosine(a, a) - 1.0).abs() < 1e-5);
    }
}

#[test]
fn rank_three_records_scenario() {
    let records = vec![
        rec("A", bits(&[1.0, 0.0])),
        rec("B", bits(&[0.0, 1.0])),
        rec("C", bits(&[1.0, 1.0])),
    ];
    let query = [1.0f32, 0.0];
    let vectors = [[1.0f32, 0.0], [0.0, 1.0], [1.0, 1.0]];
    let scores: Vec<u32> = vectors.iter().map(|v| cosine(&query, v).to_bits()).collect();
    let top = rank(&records, &scores, 2);
    assert_eq!(top.len(), 2);
    assert_eq!(top[0].label, b"A".to_vec());
    assert_eq!(top[1].label, b"C".to_vec());
    assert_eq!(f32::from_bits(top[0].score_bits), 1.0);
    assert!((f32::from_bits(top[1].score_bits) - 0.70710677).abs() < 1e-5);
}

#[test]
fn rank_is_deterministic() {
    let records = vec![
        rec("A", bits(&[1.0, 0.0])),
        rec("B", bits(&[0.5, 0.5])),
        rec("C", bits(&[0.0, 1.0])),
    ];
    let scores = bits(&[0.25, 0.25, -0.75]);
    let r1 = rank(&records, &scores, 3);
    let r2 = rank(&records, &scores, 3);
    let flat1: Vec<(u32, Vec<u8>)> = r1.into_iter().map(|r| (r.score_bits, r.label)).collect();
    let flat2: Vec<(u32, Vec<u8>)> = r2.into_iter().map(|r| (r.score_bits, r.label)).collect();
    assert_eq!(flat1, flat2);
}

#[test]
fn rank_truncates_and_completes() {
    let records = vec![
        rec("A", bits(&[1.0])),
        rec("B", bits(&[2.0])),
        rec("C", bits(&[3.0])),
    ];
    let scores = bits(&[0.5, 0.9, 0.1]);
    assert_eq!(rank(&records, &scores, 0).len(), 0);
    let all = rank(&records, &scores, 99);
    assert_eq!(all.len(), 3);
    let mut labels: Vec<Vec<u8>> = all.iter().map(|r| r.label.clone()).collect();
    assert_eq!(labels[0], b"B".to_vec());
    assert_eq!(labels[1], b"A".to_vec());
    assert_eq!(labels[2], b"C".to_vec());
    labels.sort();
    labels.dedup();
    assert_eq!(labels.len(), 3);
}

#[test]
fn rank_breaks_ties_by_store_order() {
    let records = vec![
        rec("first", bits(&[1.0])),
        rec("second", bits(&[1.0])),
        rec("third", bits(&[1.0])),
    ];
    let scores = bits(&[0.5, 0.5, 0.5]);
    let out = rank(&records, &scores, 3);
    assert_eq!(out[0].label, b"first".to_vec());
    assert_eq!(out[1].label, b"second".to_vec());
    assert_eq!(out[2].label, b"third".to_vec());
}

#[test]
fn order_key_follows_float_order() {
    let values = [
        f32::NEG_INFINITY,
        -2.0f32,
        -0.5,
        -0.0,
        0.0,
        0.5,
        2.0,
        f32::INFINITY,
    ];
    for w in values.windows(2) {
        let ka = order_key(w[0].to_bits());
        let kb = order_key(w[1].to_bits());
        assert!(ka <= kb);
    }
    // -0.0 sorts just below +0.0 but both keys differ
    assert!(order_key((-0.0f32).to_bits()) < order_key(0.0f32.to_bits()));
}

#[test]
fn rank_places_nan_scores_deterministically() {
    // a zero-norm vector scores NaN; the bit-pattern total order puts a
    // positive NaN above every finite score, and reruns agree exactly
    let records = vec![
        rec("zero", bits(&[0.0, 0.0])),
        rec("unit", bits(&[1.0, 0.0])),
    ];
    let nan = (0.0f32 / 0.0f32).to_bits();
    let scores = vec![nan, 1.0f32.to_bits()];
    let out1 = rank(&records, &scores, 2);
    let out2 = rank(&records, &scores, 2);
    assert_eq!(out1.len(), 2);
    if nan >= 0x8000_0000 {
        // negative NaN payload: below every finite score
        assert_eq!(out1[0].label, b"unit".to_vec());
    } else {
        assert_eq!(out1[0].label, b"zero".to_vec());
    }
    let flat1: Vec<Vec<u8>> = out1.into_iter().map(|r| r.label).collect();
    let flat2: Vec<Vec<u8>> = out2.into_iter().map(|r| r.label).collect();
    assert_eq!(flat1, flat2);
}

#[test]
fn check_dims_reports_mismatch() {
    let records = vec![rec("A", bits(&[1.0, 0.0])), rec("B", bits(&[0.0]))];
    assert_eq!(check_dims(2, &records), Err(Error::DimensionMismatch));
    let good = vec![rec("A", bits(&[1.0, 0.0]))];
    assert_eq!(check_dims(2, &good), Ok(()));
}

#[test]
fn labeled_text_has_provenance_header() {
    let out = labeled_text(&b"notes.txt".to_vec(), &b"hello world".to_vec());
    assert_eq!(out, b"From: notes.txt\nhello world".to_vec());
}

#[test]
fn chunk_file_outputs_are_exact() {
    let text = b"one\ntwo\nthree\n".to_vec();
    let chunks = chunk_by_bytes(&text, 8);
    assert_eq!(chunks.len(), 2);
    let name = chunk_file_name(&b"doc".to_vec(), 1, &b"txt".to_vec());
    assert_eq!(name, b"doc-1.txt".to_vec());
    let contents = chunk_file_contents(&b"doc".to_vec(), &chunks[0]);
    assert_eq!(contents, b"From doc, lines 1 - 2\n\none\ntwo\n".to_vec());
    let contents2 = chunk_file_contents(&b"doc".to_vec(), &chunks[1]);
    assert_eq!(contents2, b"From doc, lines 3 - 3\n\nthree\n".to_vec());
}

#[test]
fn trim_strips_ascii_whitespace() {
    assert_eq!(trim_bytes(&b"  hi there \n".to_vec()), b"hi there".to_vec());
    assert_eq!(trim_bytes(&b"\n\t \r".to_vec()), Vec::<u8>::new());
    assert_eq!(trim_bytes(&b"x".to_vec()), b"x".to_vec());
}

#[test]
fn trim_matches_str_trim_on_unicode_whitespace() {
    let samples = [
        "\u{a0}padded\u{a0}",
        " \t\u{2003}mixed inner \u{a0} text\u{2029}\n",
        "\u{3000}",
        "\u{1680}x\u{205f}",
        "plain",
        "",
    ];
    for s in samples {
        let out = trim_bytes(&s.as_bytes().to_vec());
        assert_eq!(out, s.trim().as_bytes().to_vec());
    }
}

#[test]
fn rendered_output_lists_trimmed_labels() {
    let results = vec![
        RankedResult { score_bits: 0, label: b" A doc \n".to_vec() },
        RankedResult { score_bits: 0, label: b"B doc".to_vec() },
    ];
    let out = render_results(&results);
    assert_eq!(out, b"A doc\n\nB doc\n\n".to_vec());
}

#[test]
fn query_against_empty_store_returns_nothing() {
    let encoded = encode_records(&Vec::new());
    let records = decode_records(&encoded).unwrap();
    assert_eq!(records.len(), 0);
    let out = rank(&records, &Vec::new(), 5);
    assert_eq!(out.len(), 0);
    assert_eq!(render_results(&out), Vec::<u8>::new());
}
