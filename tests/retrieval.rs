use path_search::bm25::{contribution, order_by_score, order_key, rank_order, Candidate};
use path_search::index::{build, BuildError, Document, Index};
use path_search::terms::{document_terms, split_path};

fn doc(id: &str, paths: &[&str]) -> Document {
    Document {
        id: id.to_string(),
        paths: paths.iter().map(|p| p.to_string()).collect(),
    }
}

fn scenario_corpus() -> Vec<Document> {
    vec![doc("doc1", &["a/b"]), doc("doc2", &["a/c"])]
}

fn scenario_index() -> Index {
    build(&scenario_corpus()).expect("unique ids")
}

fn terms(ts: &[&str]) -> Vec<String> {
    ts.iter().map(|t| t.to_string()).collect()
}

fn score(c: &Candidate) -> f64 {
    c.contributions
        .iter()
        .map(|x| {
            (x.idf_num as f64 / x.idf_den as f64).ln() * (x.weight_num as f64 / x.weight_den as f64)
        })
        .sum()
}

#[test]
fn split_keeps_segments_verbatim() {
    assert_eq!(split_path("a/b/c"), vec!["a", "b", "c"]);
    assert_eq!(split_path("/Lib/x.so"), vec!["", "Lib", "x.so"]);
    assert_eq!(split_path("dir/"), vec!["dir", ""]);
    assert_eq!(split_path(""), vec![""]);
    assert_eq!(split_path("AndroidManifest.xml"), vec!["AndroidManifest.xml"]);
    assert_eq!(split_path("é/Ü"), vec!["é", "Ü"]);
}

#[test]
fn document_terms_concatenate_paths() {
    let d = doc("x", &["a/b", "c", "a//d"]);
    assert_eq!(document_terms(&d.paths), vec!["a", "b", "c", "a", "", "d"]);
    assert!(document_terms(&Vec::new()).is_empty());
}

#[test]
fn scenario_index_postings_and_lengths() {
    let idx = scenario_index();
    let a = "a".to_string();
    let b = "b".to_string();
    let c = "c".to_string();
    assert_eq!(idx.doc_count(), 2);
    assert_eq!(idx.doc_id(0), "doc1");
    assert_eq!(idx.doc_id(1), "doc2");
    assert_eq!(idx.frequency(&a, 0), 1);
    assert_eq!(idx.frequency(&a, 1), 1);
    assert_eq!(idx.frequency(&b, 0), 1);
    assert_eq!(idx.frequency(&b, 1), 0);
    assert_eq!(idx.frequency(&c, 0), 0);
    assert_eq!(idx.frequency(&c, 1), 1);
    assert_eq!(idx.term_count(), 3);
    assert_eq!(idx.document_frequency(&a), 2);
    assert_eq!(idx.document_frequency(&b), 1);
    assert_eq!(idx.document_frequency(&c), 1);
    assert_eq!(idx.doc_length(0), 2);
    assert_eq!(idx.doc_length(1), 2);
    assert_eq!(idx.total_length(), 4);
    let avg = idx.total_length() as f64 / idx.doc_count() as f64;
    assert_eq!(avg, 2.0);
    let pa = idx.postings(&a);
    assert_eq!(pa.len(), 2);
    assert_eq!((pa[0].doc, pa[0].freq), (0, 1));
    assert_eq!((pa[1].doc, pa[1].freq), (1, 1));
}

#[test]
fn average_length_is_mean_of_lengths() {
    let corpus = vec![doc("p", &["a/b/c", "d"]), doc("q", &[]), doc("r", &["x/x"])];
    let idx = build(&corpus).unwrap();
    let sum: u32 = (0..idx.doc_count()).map(|d| idx.doc_length(d)).sum();
    assert_eq!(sum, idx.total_length());
    assert_eq!(idx.doc_length(0), 4);
    assert_eq!(idx.doc_length(1), 0);
    assert_eq!(idx.doc_length(2), 2);
    assert_eq!(idx.total_length(), 6);
    assert_eq!(idx.frequency(&"x".to_string(), 2), 2);
    assert_eq!(idx.postings(&"x".to_string())[0].freq, 2);
}

#[test]
fn document_frequency_within_document_count() {
    let corpus = vec![
        doc("1", &["a/b", "a"]),
        doc("2", &["b"]),
        doc("3", &["a/c/a"]),
        doc("4", &[]),
    ];
    let idx = build(&corpus).unwrap();
    for t in ["a", "b", "c"] {
        let df = idx.document_frequency(&t.to_string());
        assert!(df > 0 && df <= idx.doc_count());
    }
    assert_eq!(idx.document_frequency(&"a".to_string()), 2);
    assert_eq!(idx.document_frequency(&"zzz".to_string()), 0);
    for p in idx.postings(&"a".to_string()) {
        assert!(p.freq >= 1 && p.doc < idx.doc_count());
    }
    assert_eq!(idx.frequency(&"a".to_string(), 0), 2);
    assert_eq!(idx.frequency(&"a".to_string(), 2), 2);
}

#[test]
fn duplicate_ids_are_refused() {
    let corpus = vec![doc("x", &["a"]), doc("y", &["b"]), doc("x", &["c"])];
    assert!(matches!(
        build(&corpus),
        Err(BuildError::DuplicateId { first: 0, second: 2 })
    ));
}

#[test]
fn empty_corpus_builds() {
    let idx = build(&Vec::new()).unwrap();
    assert_eq!(idx.doc_count(), 0);
    assert_eq!(idx.total_length(), 0);
    assert!(idx.coverage(&terms(&["a"])).is_empty());
    assert!(idx.candidates(&terms(&["a"])).is_empty());
}

#[test]
fn coverage_single_term() {
    let idx = scenario_index();
    let r = idx.coverage(&terms(&["b"]));
    assert_eq!(r.len(), 1);
    assert_eq!(r[0].id, "doc1");
    assert_eq!(r[0].doc, 0);
    assert_eq!((r[0].matched, r[0].total), (1, 1));
}

#[test]
fn coverage_counts_distinct_terms() {
    let idx = scenario_index();
    let r = idx.coverage(&terms(&["a", "b", "a", "missing"]));
    assert_eq!(r.len(), 2);
    assert_eq!((r[0].id.as_str(), r[0].matched, r[0].total), ("doc1", 2, 3));
    assert_eq!((r[1].id.as_str(), r[1].matched, r[1].total), ("doc2", 1, 3));
    for e in &r {
        assert!(e.matched >= 1 && e.matched <= e.total);
    }
    assert!(idx.coverage(&terms(&["missing"])).is_empty());
    assert!(idx.coverage(&Vec::new()).is_empty());
}

#[test]
fn ranked_scenario_orders_full_match_first() {
    let idx = scenario_index();
    let cands = idx.candidates(&terms(&["a", "b"]));
    assert_eq!(cands.len(), 2);
    assert_eq!(cands[0].id, "doc1");
    assert_eq!(cands[1].id, "doc2");
    let b_in_doc2 = cands[1].contributions[1];
    assert_eq!(b_in_doc2.weight_num, 0);
    assert!(b_in_doc2.weight_den > 0);
    let scores: Vec<f64> = cands.iter().map(score).collect();
    assert!((scores[0] - (1.2f64.ln() + 2f64.ln())).abs() < 1e-12);
    assert!((scores[1] - 1.2f64.ln()).abs() < 1e-12);
    let bits: Vec<u64> = scores.iter().map(|s| s.to_bits()).collect();
    let order = order_by_score(&bits);
    assert_eq!(order, vec![0, 1]);
    assert!(scores.iter().all(|s| *s >= 0.0));
}

#[test]
fn ranked_query_with_absent_terms() {
    let idx = scenario_index();
    assert!(idx.candidates(&terms(&["nothing", "here"])).is_empty());
    let cands = idx.candidates(&terms(&["c", "nothing"]));
    assert_eq!(cands.len(), 1);
    assert_eq!(cands[0].id, "doc2");
    let absent = cands[0].contributions[1];
    assert_eq!((absent.idf_num, absent.idf_den), (6, 1));
    assert_eq!(absent.weight_num, 0);
}

#[test]
fn contribution_exact_ratios() {
    // f = 1, len = 2, N = 2, S = 4: 20*1*4 / (8*1*4 + 3*4 + 9*2*2).
    let c = contribution(1, 2, 2, 2, 4);
    assert_eq!((c.idf_num, c.idf_den), (6, 5));
    assert_eq!((c.weight_num, c.weight_den), (80, 80));
    // f = 3, len = 5, N = 4, S = 10.
    let c = contribution(3, 1, 5, 4, 10);
    assert_eq!((c.idf_num, c.idf_den), (10, 3));
    assert_eq!((c.weight_num, c.weight_den), (600, 240 + 30 + 180));
    let f = 3.0f64;
    let avg = 10.0 / 4.0;
    let direct = f * 2.5 / (f + 1.5 * (1.0 - 0.75 + 0.75 * (5.0 / avg)));
    assert!((c.weight_num as f64 / c.weight_den as f64 - direct).abs() < 1e-12);
    // No term anywhere: the length ratio counts as zero.
    let c = contribution(2, 0, 0, 3, 0);
    assert_eq!((c.weight_num, c.weight_den), (40, 19));
    let c = contribution(u32::MAX, usize::MAX, u32::MAX, usize::MAX, u32::MAX);
    assert!(c.weight_den > c.weight_num);
}

#[test]
fn order_key_follows_total_order() {
    let vals = [-f64::INFINITY, -2.5, -0.0, 0.0, 1e-300, 1.0, 3.5, f64::INFINITY];
    for w in vals.windows(2) {
        assert!(order_key(w[0].to_bits()) < order_key(w[1].to_bits()));
    }
    assert_eq!(order_key(0), 0x8000_0000_0000_0000);
    assert_eq!(order_key(u64::MAX), 0);
}

#[test]
fn rank_order_descending_and_stable() {
    assert_eq!(rank_order(&vec![3, 9, 3, 1, 9]), vec![1, 4, 0, 2, 3]);
    assert!(rank_order(&Vec::new()).is_empty());
    let scores = [0.5f64, 2.0, 0.5, 7.25];
    let bits: Vec<u64> = scores.iter().map(|s| s.to_bits()).collect();
    assert_eq!(order_by_score(&bits), vec![3, 1, 0, 2]);
}

#[test]
fn rebuilding_gives_identical_index() {
    let corpus = vec![doc("one", &["a/b/a", "c"]), doc("two", &["b/d"]), doc("three", &[])];
    let x = build(&corpus).unwrap();
    let y = build(&corpus).unwrap();
    assert_eq!(x.doc_count(), y.doc_count());
    assert_eq!(x.total_length(), y.total_length());
    assert_eq!(x.term_count(), y.term_count());
    for t in ["a", "b", "c", "d", "e"] {
        let t = t.to_string();
        assert_eq!(x.postings(&t), y.postings(&t));
        assert_eq!(x.document_frequency(&t), y.document_frequency(&t));
    }
    for d in 0..x.doc_count() {
        assert_eq!(x.doc_length(d), y.doc_length(d));
        assert_eq!(x.doc_id(d), y.doc_id(d));
    }
}

#[test]
fn repeated_query_gives_identical_results() {
    let corpus = vec![doc("one", &["a/b/a", "c"]), doc("two", &["b/d"]), doc("three", &["a"])];
    let idx = build(&corpus).unwrap();
    let q = terms(&["a", "b"]);
    let run = |idx: &Index| {
        let cands = idx.candidates(&q);
        let bits: Vec<u64> = cands.iter().map(|c| score(c).to_bits()).collect();
        let order = order_by_score(&bits);
        order
            .iter()
            .map(|&i| (cands[i].id.clone(), bits[i]))
            .collect::<Vec<_>>()
    };
    let first = run(&idx);
    let second = run(&idx);
    assert_eq!(first, second);
    assert_eq!(first.len(), 3);
    let c1: Vec<_> = idx.coverage(&q).iter().map(|e| (e.doc, e.matched)).collect();
    let c2: Vec<_> = idx.coverage(&q).iter().map(|e| (e.doc, e.matched)).collect();
    assert_eq!(c1, c2);
}

#[test]
fn idf_ratios_of_scenario() {
    let idx = scenario_index();
    assert_eq!(idx.idf_ratio(&"a".to_string()), (6, 5));
    assert_eq!(idx.idf_ratio(&"b".to_string()), (6, 3));
    assert_eq!(idx.idf_ratio(&"zzz".to_string()), (6, 1));
    let (num, den) = idx.idf_ratio(&"a".to_string());
    let idf = (num as f64 / den as f64).ln();
    let direct = ((2.0f64 - 2.0 + 0.5) / (2.0 + 0.5) + 1.0).ln();
    assert!((idf - direct).abs() < 1e-12);
}
