//! Scenario and property tests: reproducibility of seeded walks, edge
//! cases of the network and the store, and exact error details.

use graph_embeddings::embedding::Embedding;
use graph_embeddings::embedding::Error as EmbeddingError;
use graph_embeddings::network::Network;
use graph_embeddings::network_reader::EdgeListReader;
use graph_embeddings::network_reader::ReaderError;
use graph_embeddings::random_walk::NonBiasedRandomWalker;
use graph_embeddings::random_walk::RandomWalker;

fn as_lines(text: &[&str]) -> Vec<Vec<char>> {
    text.iter().map(|l| l.chars().collect()).collect()
}

fn parse_f64(field: Vec<char>) -> Option<f64> {
    field.iter().collect::<String>().parse::<f64>().ok()
}

fn star_net() -> Network<usize, f64> {
    let mut net: Network<usize, f64> = Network::new(false);
    net.add_edge(0, 1, 1.0);
    net.add_edge(0, 2, 1.0);
    net.add_edge(0, 3, 1.0);
    net.add_edge(2, 3, 1.0);
    net
}

#[test]
fn test_same_seed_same_walk() {
    let net = star_net();

    let mut rw1 = NonBiasedRandomWalker::new(1, 16);
    rw1.set_seed(1234);
    let walk1 = rw1.walk(&net, 0);

    let mut rw2 = NonBiasedRandomWalker::new(1, 16);
    rw2.set_seed(1234);
    let walk2 = rw2.walk(&net, 0);

    assert_eq!(walk1, walk2, "Equal seeds should give equal walks");

    rw1.set_seed(1234);
    let walk3 = rw1.walk(&net, 0);
    assert_eq!(walk1, walk3, "Re-seeding should reproduce the walk");
}

#[test]
fn test_isolated_node_walk_any_length() {
    let mut net: Network<usize, f64> = Network::new(true);
    net.add_node(9);
    net.add_edge(0, 1, 1.0);

    let mut rw = NonBiasedRandomWalker::new(1, 10);
    rw.set_seed(0);
    assert_eq!(rw.walk(&net, 9), vec![9]);
}

#[test]
fn test_walk_length_one() {
    let net = star_net();

    let mut rw = NonBiasedRandomWalker::new(1, 1);
    rw.set_seed(0);
    assert_eq!(rw.walk(&net, 0), vec![0]);
}

#[test]
fn test_walk_length_zero() {
    let net = star_net();

    let mut rw = NonBiasedRandomWalker::new(1, 0);
    rw.set_seed(0);
    assert_eq!(rw.walk(&net, 0), vec![0]);
}

#[test]
fn test_walk_stays_on_edges() {
    let net = star_net();

    let mut rw = NonBiasedRandomWalker::new(1, 32);
    rw.set_seed(77);
    let walk = rw.walk(&net, 1);

    assert_eq!(*walk.first().unwrap(), 1);
    for pair in walk.windows(2) {
        let nb = net.neighbours_of(pair[0]).unwrap();
        assert!(nb.contains(&pair[1]), "Each step should follow an edge");
    }
}

#[test]
fn test_parallel_edges_newest_first() {
    let mut net: Network<usize, f64> = Network::new(true);
    net.add_edge(0, 1, 1.5);
    net.add_edge(0, 1, 2.5);

    assert_eq!(net.num_edges(), 2, "Parallel edges are never merged");
    assert_eq!(net.edge_data(0, 1).unwrap(), vec![2.5, 1.5]);
}

#[test]
fn test_neighbours_newest_insertion_first() {
    let mut net: Network<&str, f64> = Network::new(true);
    net.add_edge("A", "B", 1.0);
    net.add_edge("A", "C", 1.0);

    assert_eq!(net.neighbours_of("A").unwrap(), vec!["C", "B"]);
}

#[test]
fn test_undirected_counts_halved() {
    let net = star_net();

    assert_eq!(net.num_nodes(), 4);
    assert_eq!(net.num_edges(), 4, "Each undirected edge counts once");
}

#[test]
fn test_empty_edge_list() {
    let reader = EdgeListReader::new(',', true);
    let net = reader.read_lines(&as_lines(&[]), parse_f64).unwrap();

    assert_eq!(net.num_nodes(), 0);
    assert_eq!(net.num_edges(), 0);
    assert!(net.nodes().is_empty());
    assert!(net.edges().is_empty());
}

#[test]
fn test_other_separator() {
    let reader = EdgeListReader::new(';', true);
    let net = reader.read_lines(&as_lines(&["3;4;1.5"]), parse_f64).unwrap();

    assert_eq!(net.num_nodes(), 2);
    assert_eq!(net.edge_data(3, 4).unwrap(), vec![1.5]);
}

#[test]
fn test_plus_signed_identity_accepted() {
    let reader = EdgeListReader::new(',', true);
    let net = reader.read_lines(&as_lines(&["+7,8,1.0"]), parse_f64).unwrap();

    assert!(net.nodes().contains(&7));
}

#[test]
fn test_overflowing_identity_refused() {
    let reader = EdgeListReader::new(',', true);
    let res = reader.read_lines(&as_lines(&["99999999999999999999999999,1,1.0"]), parse_f64);

    assert_eq!(
        res.unwrap_err(),
        ReaderError::MalformedFileFormat("Couldn't parse int".to_string())
    );
}

#[test]
fn test_error_on_first_bad_line() {
    let reader = EdgeListReader::new(',', true);
    let res = reader.read_lines(&as_lines(&["0,1,1.0", "0,1,x", "bad"]), parse_f64);

    assert_eq!(
        res.unwrap_err(),
        ReaderError::MalformedFileFormat("Couldn't parse float".to_string())
    );
}

#[test]
fn test_embedding_overwrite() {
    let mut emb: Embedding<usize, f64> = Embedding::new(2);
    emb.add_vector(3, &[1.0, 2.0]).unwrap();
    emb.add_vector(3, &[5.0, 6.0]).unwrap();

    assert_eq!(emb.keys().len(), 1, "Re-adding a key overwrites");
    assert_eq!(emb.get_vector(3).unwrap(), [5.0, 6.0]);
}

#[test]
fn test_dimension_error_details() {
    let mut emb: Embedding<usize, f64> = Embedding::new(12);
    let res = emb.add_vector(0, &[]);

    assert_eq!(
        res.unwrap_err(),
        EmbeddingError::WrongEmbeddingDimension("Expected: 12 Got: 0".to_string())
    );
}

#[test]
fn test_missing_vector_details_for_numeric_key() {
    let emb: Embedding<usize, f64> = Embedding::new(2);
    let res = emb.get_vector(7);

    assert_eq!(
        res.unwrap_err(),
        EmbeddingError::VectorNotFound("No vector found for 7".to_string())
    );
}

#[test]
fn test_node_handle_reused() {
    let mut net: Network<&str, f64> = Network::new(true);
    let first = net.add_node("A");
    let second = net.add_node("A");

    assert_eq!(first, second, "Re-inserting an identity returns its handle");
    assert_eq!(net.num_nodes(), 1);
}
