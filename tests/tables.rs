use per_logparser::message::{DecodedFrame, ParsedMessage, SignalSample};
use per_logparser::table::{aligned_bounds, format_time, output_file_name, MessageDef, TableBuilder};

const DBC: &str = "VERSION \"\"\n\nNS_ :\n\nBS_:\n\nBU_: ECU PC\n\nBO_ 300 Engine: 2 ECU\n SG_ Speed : 0|8@1+ (1,0) [0|255] \"\" Vector__XXX\n SG_ Temp : 8|8@1+ (1,0) [0|255] \"\" Vector__XXX\n\nBO_ 100 Brake: 1 Vector__XXX\n SG_ Pressure : 0|8@1+ (2,0) [0|510] \"\" Vector__XXX\n";

fn def(id: u32, name: &str, node: Option<&str>, signals: &[&str]) -> MessageDef {
    MessageDef {
        id,
        name: name.to_string(),
        node: node.map(|n| n.to_string()),
        signals: signals.iter().map(|s| s.to_string()).collect(),
    }
}

fn defs() -> Vec<MessageDef> {
    vec![
        def(300, "Engine", Some("ECU"), &["Speed", "Temp"]),
        def(100, "Brake", None, &["Pressure"]),
        def(200, "Body", Some("PC"), &["Door", "Door", "Light"]),
    ]
}

fn msg(ts: u32, name: &str, sigs: &[(&str, &str)]) -> ParsedMessage {
    ParsedMessage {
        timestamp: ts,
        decoded: DecodedFrame {
            name: name.to_string(),
            signals: sigs
                .iter()
                .map(|(n, v)| SignalSample { name: n.to_string(), value: v.to_string() })
                .collect(),
        },
    }
}

fn schema() -> TableBuilder {
    let mut t = TableBuilder::new();
    t.create_header_from(defs());
    t
}

#[test]
fn new_builder_has_empty_rows() {
    let t = TableBuilder::new();
    assert!(t.bus_row.is_empty());
    assert!(t.node_row.is_empty());
    assert!(t.message_row.is_empty());
    assert!(t.signal_row.is_empty());
}

#[test]
fn empty_listing_gives_labels_only() {
    let mut t = TableBuilder::new();
    t.create_header_from(vec![]);
    assert_eq!(t.bus_row, vec!["Bus"]);
    assert_eq!(t.node_row, vec!["Node"]);
    assert_eq!(t.message_row, vec!["Message"]);
    assert_eq!(t.signal_row, vec!["Signal"]);
}

#[test]
fn columns_follow_id_order_then_declaration_order() {
    let t = schema();
    assert_eq!(t.bus_row, vec!["Bus", "Main", "Main", "Main", "Main", "Main"]);
    assert_eq!(t.node_row, vec!["Node", "N/A", "PC", "PC", "ECU", "ECU"]);
    assert_eq!(t.message_row, vec!["Message", "Brake", "Body", "Body", "Engine", "Engine"]);
    assert_eq!(t.signal_row, vec!["Signal", "Pressure", "Door", "Light", "Speed", "Temp"]);
}

#[test]
fn column_assignment_is_deterministic() {
    let a = schema();
    let mut reordered = defs();
    reordered.reverse();
    let mut b = TableBuilder::new();
    b.create_header_from(reordered);
    assert_eq!(a.message_row, b.message_row);
    assert_eq!(a.signal_row, b.signal_row);
    assert_eq!(a.node_row, b.node_row);
    let mut c = schema();
    c.create_header_from(defs());
    assert_eq!(a.signal_row, c.signal_row);
    assert_eq!(a.message_row, c.message_row);
}

#[test]
fn assign_columns_keeps_given_order() {
    let mut t = TableBuilder::new();
    t.assign_columns(&defs());
    assert_eq!(t.signal_row, vec!["Signal", "Speed", "Temp", "Pressure", "Door", "Light"]);
}

#[test]
fn find_column_looks_up_pairs() {
    let t = schema();
    assert_eq!(t.find_column(&"Engine".to_string(), &"Temp".to_string()), Some(5));
    assert_eq!(t.find_column(&"Brake".to_string(), &"Pressure".to_string()), Some(1));
    assert_eq!(t.find_column(&"Brake".to_string(), &"Temp".to_string()), None);
}

#[test]
fn header_from_database() {
    let mut p = can_decode::Parser::new();
    p.add_from_str(DBC).unwrap();
    let mut t = TableBuilder::new();
    t.create_header(&p);
    assert_eq!(t.message_row, vec!["Message", "Brake", "Engine", "Engine"]);
    assert_eq!(t.signal_row, vec!["Signal", "Pressure", "Speed", "Temp"]);
    assert_eq!(t.node_row, vec!["Node", "N/A", "ECU", "ECU"]);
}

#[test]
fn bounds_align_to_bins() {
    assert_eq!(aligned_bounds(120, 340, 100), (100, 400, 4));
    assert_eq!(aligned_bounds(100, 300, 100), (100, 300, 3));
    assert_eq!(aligned_bounds(0, 0, 100), (0, 0, 1));
    assert_eq!(aligned_bounds(u32::MAX, u32::MAX, 100), (4294967200, 4294967300, 2));
}

#[test]
fn time_labels_have_three_decimals() {
    assert_eq!(format_time(0), "0.000");
    assert_eq!(format_time(100), "0.100");
    assert_eq!(format_time(1234), "1.234");
    assert_eq!(format_time(60_005), "60.005");
}

#[test]
fn table_rows_cover_aligned_span() {
    let t = schema();
    let chunk = vec![msg(120, "Brake", &[("Pressure", "1")]), msg(340, "Engine", &[("Speed", "2")])];
    let table = t.build_table(&chunk);
    assert_eq!(table.len(), 4 + 4);
    assert_eq!(table[0], t.bus_row);
    assert_eq!(table[3], t.signal_row);
    let labels: Vec<&str> = table[4..].iter().map(|r| r[0].as_str()).collect();
    assert_eq!(labels, vec!["0.100", "0.200", "0.300", "0.400"]);
    assert_eq!(table[4], vec!["0.100", "1", "", "", "", ""]);
    assert_eq!(table[5], vec!["0.200", "", "", "", "", ""]);
    assert_eq!(table[6], vec!["0.300", "", "", "", "2", ""]);
    assert_eq!(table[7], vec!["0.400", "", "", "", "", ""]);
}

#[test]
fn later_sample_wins_in_a_bin() {
    let t = schema();
    let chunk = vec![
        msg(210, "Engine", &[("Speed", "10"), ("Temp", "70")]),
        msg(250, "Engine", &[("Speed", "11")]),
        msg(299, "Brake", &[("Pressure", "3")]),
    ];
    let table = t.build_table(&chunk);
    assert_eq!(table.len(), 4 + 2);
    assert_eq!(table[4], vec!["0.200", "3", "", "", "11", "70"]);
    assert_eq!(table[5], vec!["0.300", "", "", "", "", ""]);
}

#[test]
fn unknown_signals_are_skipped() {
    let t = schema();
    let chunk = vec![msg(5, "Engine", &[("Rpm", "900"), ("Speed", "4")]), msg(7, "Nope", &[("Speed", "1")])];
    let table = t.build_table(&chunk);
    assert_eq!(table.len(), 4 + 2);
    assert_eq!(table[4], vec!["0.000", "", "", "", "4", ""]);
}

#[test]
fn every_filled_cell_has_one_sample() {
    let t = schema();
    let chunk = vec![
        msg(1000, "Body", &[("Door", "a"), ("Light", "b")]),
        msg(1150, "Body", &[("Door", "c")]),
    ];
    let table = t.build_table(&chunk);
    let filled: Vec<(usize, usize, String)> = table[4..]
        .iter()
        .enumerate()
        .flat_map(|(r, row)| {
            row.iter().enumerate().skip(1).filter(|(_, v)| !v.is_empty()).map(move |(c, v)| (r, c, v.clone()))
        })
        .collect();
    assert_eq!(filled, vec![(0, 2, "a".to_string()), (0, 3, "b".to_string()), (1, 2, "c".to_string())]);
}

#[test]
fn empty_chunk_gives_one_row() {
    let t = schema();
    let table = t.build_table(&vec![]);
    assert_eq!(table.len(), 5);
    assert_eq!(table[4], vec!["0.000", "", "", "", "", ""]);
}

#[test]
fn output_files_are_numbered_with_three_digits() {
    assert_eq!(output_file_name(0), "out_000.csv");
    assert_eq!(output_file_name(7), "out_007.csv");
    assert_eq!(output_file_name(42), "out_042.csv");
    assert_eq!(output_file_name(1234), "out_1234.csv");
}
