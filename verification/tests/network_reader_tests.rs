//! Tests for the edge-list network reader.

use graph_embeddings::network::Network;
use graph_embeddings::network_reader::EdgeListReader;
use graph_embeddings::network_reader::ReaderError;

fn as_lines(text: &[&str]) -> Vec<Vec<char>> {
    text.iter().map(|l| l.chars().collect()).collect()
}

fn parse_f64(field: Vec<char>) -> Option<f64> {
    field.iter().collect::<String>().parse::<f64>().ok()
}

fn check_reader_error(lines: &[&str], expected_err: ReaderError) {
    let reader = EdgeListReader::new(',', false);

    let res = reader.read_lines(&as_lines(lines), parse_f64);
    assert_eq!(res.unwrap_err(), expected_err);
}

fn check_network(
    net: Network<usize, f64>,
    num_nodes: usize,
    num_edges: usize,
    nodes: Vec<usize>,
    edges: Vec<(usize, usize, Vec<f64>)>,
) {
    assert_eq!(net.num_nodes(), num_nodes);
    assert_eq!(net.num_edges(), num_edges);

    for node in nodes {
        assert!(net.nodes().contains(&node));
    }

    for edge in edges {
        let (from, to, data) = edge;
        assert!(net.edges().contains(&(from, to)));
        assert_eq!(net.edge_data(from, to).unwrap(), data);
    }
}

fn read_net(lines: &[&str], directed: bool) -> Network<usize, f64> {
    let reader = EdgeListReader::new(',', directed);

    let res = reader.read_lines(&as_lines(lines), parse_f64);
    assert!(res.is_ok(), "Should read network");

    res.unwrap()
}

#[test]
fn reader_tests_test_malformed_not_enough_elements() {
    check_reader_error(
        &["0,1"],
        ReaderError::MalformedFileFormat("Not enough elements".to_string()),
    );
}

#[test]
fn reader_tests_test_malformed_int_parse_error() {
    check_reader_error(
        &["x,1,16.0"],
        ReaderError::MalformedFileFormat("Couldn't parse int".to_string()),
    );
}

#[test]
fn reader_tests_test_malformed_float_parse_error() {
    check_reader_error(
        &["0,1,x"],
        ReaderError::MalformedFileFormat("Couldn't parse float".to_string()),
    );
}

#[test]
fn test_reading_simple_file_directed() {
    let net = read_net(&["0,1,16.0", "1,2,18.0", "2,0,20.0"], true);
    check_network(
        net,
        3,
        3,
        vec![0, 1, 2],
        vec![
            (0, 1, vec![16.0]),
            (1, 2, vec![18.0]),
            (2, 0, vec![20.0]),
        ],
    );
}

#[test]
fn test_reading_simple_file_undirected() {
    let net = read_net(&["0,1,16.0", "1,2,18.0", "2,0,20.0"], false);
    check_network(
        net,
        3,
        3,
        vec![0, 1, 2],
        vec![
            (0, 1, vec![16.0]),
            (1, 2, vec![18.0]),
            (2, 0, vec![20.0]),
            (1, 0, vec![16.0]),
            (2, 1, vec![18.0]),
            (0, 2, vec![20.0]),
        ],
    );
}
