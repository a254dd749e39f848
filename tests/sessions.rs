use per_logparser::message::{DecodedFrame, ParsedMessage, SignalSample};
use per_logparser::session::{chunk_parsed, chunk_parsed_with};

fn msg(ts: u32) -> ParsedMessage {
    ParsedMessage {
        timestamp: ts,
        decoded: DecodedFrame {
            name: "M".to_string(),
            signals: vec![SignalSample { name: "s".to_string(), value: ts.to_string() }],
        },
    }
}

fn times(chunks: &[Vec<ParsedMessage>]) -> Vec<Vec<u32>> {
    chunks.iter().map(|c| c.iter().map(|m| m.timestamp).collect()).collect()
}

#[test]
fn forward_gap_splits_sessions() {
    let input = vec![msg(0), msg(10), msg(20), msg(10050)];
    let chunks = chunk_parsed_with(input, 1000);
    assert_eq!(times(&chunks), vec![vec![0, 10, 20], vec![10050]]);
}

#[test]
fn default_threshold_splits_at_large_gap() {
    let chunks = chunk_parsed(vec![msg(0), msg(10), msg(20), msg(10050)]);
    assert_eq!(times(&chunks), vec![vec![0, 10, 20], vec![10050]]);
}

#[test]
fn regression_splits_sessions() {
    let chunks = chunk_parsed_with(vec![msg(100), msg(50), msg(60)], 1000);
    assert_eq!(times(&chunks), vec![vec![100], vec![50, 60]]);
}

#[test]
fn empty_input_gives_no_chunks() {
    assert!(chunk_parsed(vec![]).is_empty());
}

#[test]
fn gap_equal_to_threshold_does_not_split() {
    let chunks = chunk_parsed_with(vec![msg(0), msg(1000), msg(2001)], 1000);
    assert_eq!(times(&chunks), vec![vec![0, 1000], vec![2001]]);
}

#[test]
fn equal_timestamps_stay_together_in_order() {
    let chunks = chunk_parsed_with(vec![msg(5), msg(5), msg(5)], 0);
    assert_eq!(times(&chunks), vec![vec![5, 5, 5]]);
}

#[test]
fn each_message_kept_once_in_order() {
    let input: Vec<ParsedMessage> = [3u32, 4, 2000, 1, 1, 7000, 6999].iter().map(|&t| msg(t)).collect();
    let chunks = chunk_parsed_with(input, 1000);
    assert_eq!(times(&chunks), vec![vec![3, 4], vec![2000], vec![1, 1], vec![7000], vec![6999]]);
}
