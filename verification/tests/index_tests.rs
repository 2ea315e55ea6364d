use steve::corpus::MarkdownFile;
use steve::index::{check_vector, dot_product, EmbeddedDocument, IndexError, SemanticIndex};

fn doc(id: &str, content: &str, vector: Vec<i64>) -> EmbeddedDocument {
    EmbeddedDocument {
        record: MarkdownFile::new(String::from(id), String::from(content)),
        vector,
    }
}

#[test]
fn dot_product_exact_value() {
    let a: Vec<i64> = vec![2, 3];
    let b: Vec<i64> = vec![4, 5];
    assert_eq!(dot_product(&a, &b), 23);
}

#[test]
fn check_vector_rejects_out_of_range() {
    assert!(check_vector(&vec![0, 1_000_000, -1_000_000]));
    assert!(!check_vector(&vec![1_000_001]));
    assert!(!check_vector(&vec![-1_000_001]));
}

#[test]
fn build_rejects_empty_corpus() {
    let r = SemanticIndex::build(Vec::new());
    assert_eq!(r.err(), Some(IndexError::EmptyCorpus));
}

#[test]
fn build_rejects_mismatched_dimensions() {
    let docs = vec![doc("a.md", "alpha", vec![1, 2]), doc("b.md", "beta", vec![1, 2, 3])];
    let r = SemanticIndex::build(docs);
    assert_eq!(r.err(), Some(IndexError::MismatchedDimension));
}

#[test]
fn build_rejects_out_of_range_component() {
    let docs = vec![doc("a.md", "alpha", vec![1, 2]), doc("b.md", "beta", vec![1, 2_000_000])];
    let r = SemanticIndex::build(docs);
    assert_eq!(r.err(), Some(IndexError::ComponentOutOfRange));
}

#[test]
fn top_k_len_is_min_of_k_and_corpus_size() {
    let docs = vec![
        doc("a.md", "alpha", vec![1000, 0]),
        doc("b.md", "beta", vec![0, 1000]),
        doc("c.md", "gamma", vec![700, 700]),
    ];
    let ix = SemanticIndex::build(docs).unwrap();
    let q: Vec<i64> = vec![1000, 0];
    assert_eq!(ix.top_k(&q, 2).len(), 2);
    assert_eq!(ix.top_k(&q, 3).len(), 3);
    assert_eq!(ix.top_k(&q, 10).len(), 3);
}

#[test]
fn top_k_ranks_by_descending_similarity() {
    let docs = vec![
        doc("a.md", "alpha", vec![1000, 0]),
        doc("b.md", "beta", vec![0, 1000]),
        doc("c.md", "gamma", vec![700, 700]),
    ];
    let ix = SemanticIndex::build(docs).unwrap();
    let q: Vec<i64> = vec![1000, 0];
    let r = ix.top_k(&q, 3);
    assert_eq!(r[0].doc_index, 0);
    assert_eq!(r[0].score, 1_000_000);
    assert_eq!(r[1].doc_index, 2);
    assert_eq!(r[1].score, 700_000);
    assert_eq!(r[2].doc_index, 1);
    assert_eq!(r[2].score, 0);
    let top2 = ix.top_k(&q, 2);
    assert_eq!(top2[0].doc_index, 0);
    assert_eq!(top2[1].doc_index, 2);
}

#[test]
fn top_k_breaks_ties_by_ingestion_order() {
    let docs = vec![
        doc("a.md", "alpha", vec![500, 0]),
        doc("b.md", "beta", vec![500, 0]),
        doc("c.md", "gamma", vec![500, 0]),
    ];
    let ix = SemanticIndex::build(docs).unwrap();
    let q: Vec<i64> = vec![100, 100];
    let r = ix.top_k(&q, 3);
    assert_eq!(r[0].doc_index, 0);
    assert_eq!(r[1].doc_index, 1);
    assert_eq!(r[2].doc_index, 2);
}

#[test]
fn top_k_with_large_k_returns_every_document_exactly_once() {
    let docs = vec![
        doc("a.md", "alpha", vec![3, 1]),
        doc("b.md", "beta", vec![-2, 5]),
        doc("c.md", "gamma", vec![0, 0]),
        doc("d.md", "delta", vec![9, -4]),
    ];
    let ix = SemanticIndex::build(docs).unwrap();
    let q: Vec<i64> = vec![7, 11];
    let r = ix.top_k(&q, 100);
    assert_eq!(r.len(), 4);
    let mut seen = [false; 4];
    for hit in &r {
        assert!(!seen[hit.doc_index]);
        seen[hit.doc_index] = true;
    }
    assert!(seen.iter().all(|s| *s));
}

#[test]
fn single_document_is_retrieved_for_a_near_identical_query() {
    let docs = vec![doc("auth.md", "We use JWT for session tokens.", vec![999, 10])];
    let ix = SemanticIndex::build(docs).unwrap();
    let q: Vec<i64> = vec![999, 10];
    assert!(ix.query_ok(&q));
    let r = ix.top_k(&q, 1);
    assert_eq!(r.len(), 1);
    assert_eq!(r[0].doc_index, 0);
    assert_eq!(ix.document(0).record.content, "We use JWT for session tokens.");
}

#[test]
fn grounding_context_concatenates_in_rank_order() {
    let docs = vec![
        doc("a.md", "alpha text", vec![0, 1000]),
        doc("b.md", "beta text", vec![1000, 0]),
    ];
    let ix = SemanticIndex::build(docs).unwrap();
    let q: Vec<i64> = vec![1000, 0];
    let r = ix.top_k(&q, 2);
    let ctx = ix.grounding_context(&r);
    assert_eq!(ctx, "beta text\nalpha text\n");
}

#[test]
fn query_ok_checks_dimension_and_range() {
    let docs = vec![doc("a.md", "alpha", vec![1, 2])];
    let ix = SemanticIndex::build(docs).unwrap();
    assert!(ix.query_ok(&vec![5, 6]));
    assert!(!ix.query_ok(&vec![5]));
    assert!(!ix.query_ok(&vec![5, 2_000_000]));
    assert_eq!(ix.corpus_size(), 1);
    assert_eq!(ix.dimension(), 2);
}
