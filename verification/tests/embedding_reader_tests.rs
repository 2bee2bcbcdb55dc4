//! Tests for the word2vec-style embedding-vector reader.

use graph_embeddings::embedding::Embedding;
use graph_embeddings::embedding_reader::W2VEmbeddingVectorsReader;
use graph_embeddings::network_reader::ReaderError;

fn as_lines(text: &[&str]) -> Vec<Vec<char>> {
    text.iter().map(|l| l.chars().collect()).collect()
}

fn parse_f64(field: Vec<char>) -> Option<f64> {
    field.iter().collect::<String>().parse::<f64>().ok()
}

#[test]
fn reader_tests_test_reading_simple_file() {
    let reader = W2VEmbeddingVectorsReader::new();
    let lines = as_lines(&["2 3", "0 1.0 2.0 3.0", "1 3.0 2.0 1.0"]);

    let res = reader.read_lines(&lines, parse_f64);
    assert!(res.is_ok(), "Should read simple embedding");

    let emb: Embedding<usize, f64> = res.unwrap();
    assert_eq!(emb.dim(), 3, "Embedding should have dimension 3");
    assert_eq!(emb.keys().len(), 2, "Embedding should contain 2 nodes");

    assert!(emb.keys().contains(&0), "Should contain node: 0");
    assert!(emb.keys().contains(&1), "Should contain node: 1");

    assert_eq!(
        emb.get_vector(0).unwrap(),
        [1.0, 2.0, 3.0],
        "Vector for 0 node should be 1.0 2.0 3.0"
    );
    assert_eq!(
        emb.get_vector(1).unwrap(),
        [3.0, 2.0, 1.0],
        "Vector for 1 node should be 3.0 2.0 1.0"
    );
}

#[test]
fn test_malformed_header() {
    let reader = W2VEmbeddingVectorsReader::new();
    let lines = as_lines(&["2", "0 1.0 2.0 3.0"]);

    let res = reader.read_lines(&lines, parse_f64);
    assert_eq!(
        res.unwrap_err(),
        ReaderError::MalformedFileFormat(
            "Header should contain 2 elements: number of nodes and embedding dimension".to_string()
        )
    );
}

#[test]
fn test_malformed_line() {
    let reader = W2VEmbeddingVectorsReader::new();
    let lines = as_lines(&["2 3", "0 1.0 2.0"]);

    let res = reader.read_lines(&lines, parse_f64);
    assert_eq!(
        res.unwrap_err(),
        ReaderError::MalformedFileFormat("Not enough elements".to_string())
    );
}

#[test]
fn test_malformed_vector() {
    let reader = W2VEmbeddingVectorsReader::new();
    let lines = as_lines(&["2 3", "0 1.0 x 3.0"]);

    let res = reader.read_lines(&lines, parse_f64);
    assert_eq!(
        res.unwrap_err(),
        ReaderError::MalformedFileFormat("Couldn't parse float".to_string())
    );
}

#[test]
fn test_empty_file_is_bad_header() {
    let reader = W2VEmbeddingVectorsReader::new();
    let lines = as_lines(&[]);

    let res = reader.read_lines(&lines, parse_f64);
    assert_eq!(
        res.unwrap_err(),
        ReaderError::MalformedFileFormat(
            "Header should contain 2 elements: number of nodes and embedding dimension".to_string()
        )
    );
}
