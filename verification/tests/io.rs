use communal::error::GraphError;
use communal::io::edgelist::{edgelist_result, fault_reason, scan_edgelist, EdgeLineFault};
use communal::io::formats::{parse_csv, parse_gml, parse_json};
use communal::io::serialize::serialize_partition;
use communal::io::text::{
    chars_of, lines_of, parse_u32_chars, push_decimal, string_of, white_space, words_of,
};
use communal::partition::Partition;

fn chars(s: &str) -> Vec<char> {
    s.chars().collect()
}

fn strings(v: &[Vec<char>]) -> Vec<String> {
    v.iter().map(|w| w.iter().collect()).collect()
}

#[test]
fn scan_reads_edges_and_skips_comments() {
    let scan = scan_edgelist("# header\n0 1 1.0\n\n  1 2\n2\t0 0.5 extra\n");
    assert!(scan.failure.is_none());
    assert_eq!(scan.records.len(), 3);
    assert_eq!((scan.records[0].from, scan.records[0].to), (0, 1));
    assert_eq!(scan.records[0].weight.as_deref(), Some("1.0"));
    assert_eq!((scan.records[1].from, scan.records[1].to), (1, 2));
    assert_eq!(scan.records[1].weight, None);
    assert_eq!((scan.records[2].from, scan.records[2].to), (2, 0));
    assert_eq!(scan.records[2].weight.as_deref(), Some("0.5"));
    assert_eq!(scan.max_node, 2);
}

#[test]
fn scan_of_empty_input() {
    let scan = scan_edgelist("");
    assert!(scan.failure.is_none());
    assert!(scan.records.is_empty());
    assert_eq!(scan.max_node, 0);
}

#[test]
fn scan_stops_at_too_few_values() {
    let scan = scan_edgelist("0 1\n3\n4 5\n");
    assert_eq!(scan.failure, Some((2, EdgeLineFault::TooFewValues)));
    assert_eq!(scan.records.len(), 1);
    assert_eq!(scan.max_node, 1);
}

#[test]
fn scan_reports_invalid_source_and_target() {
    let scan = scan_edgelist("a 1\n");
    assert_eq!(scan.failure, Some((1, EdgeLineFault::InvalidSource)));
    let scan = scan_edgelist("# c\n1 -2\n");
    assert_eq!(scan.failure, Some((2, EdgeLineFault::InvalidTarget)));
    let scan = scan_edgelist("4294967296 1\n");
    assert_eq!(scan.failure, Some((1, EdgeLineFault::InvalidSource)));
}

#[test]
fn scan_accepts_plus_sign_and_crlf() {
    let scan = scan_edgelist("+7 4294967295\r\n");
    assert!(scan.failure.is_none());
    assert_eq!((scan.records[0].from, scan.records[0].to), (7, u32::MAX));
    assert_eq!(scan.records[0].weight, None);
    assert_eq!(scan.max_node, u32::MAX);
}

#[test]
fn comment_must_start_the_line() {
    let scan = scan_edgelist("   # indented comment\n1 2 # trailing\n");
    assert!(scan.failure.is_none());
    assert_eq!(scan.records.len(), 1);
    assert_eq!(scan.records[0].weight.as_deref(), Some("#"));
}

#[test]
fn fault_reasons() {
    assert_eq!(fault_reason(3, EdgeLineFault::TooFewValues), "line 3: expected at least 2 values");
    assert_eq!(fault_reason(12, EdgeLineFault::InvalidSource), "line 12: invalid source node");
    assert_eq!(fault_reason(1, EdgeLineFault::InvalidTarget), "line 1: invalid target node");
}

#[test]
fn edgelist_result_builds_edges() {
    let scan = scan_edgelist("0 1 2.5\n1 3\n");
    let (edges, count) = edgelist_result(&scan, &[2.5, 1.0], None).unwrap();
    assert_eq!(edges, vec![(0, 1, 2.5), (1, 3, 1.0)]);
    assert_eq!(count, 4);
}

#[test]
fn edgelist_result_of_empty_scan() {
    let scan = scan_edgelist("# nothing\n");
    let (edges, count) = edgelist_result::<f64>(&scan, &[], None).unwrap();
    assert!(edges.is_empty());
    assert_eq!(count, 1);
}

#[test]
fn edgelist_result_reports_negative_weight_first() {
    let scan = scan_edgelist("0 1 1\n1 2 -3\n7\n");
    match edgelist_result(&scan, &[1.0, -3.0], Some(1)) {
        Err(GraphError::NegativeWeight { from, to, weight }) => {
            assert_eq!((from, to, weight), (1, 2, -3.0));
        }
        other => panic!("unexpected {other:?}"),
    }
}

#[test]
fn edgelist_result_reports_malformed_line() {
    let scan = scan_edgelist("0 1 1\n7\n");
    match edgelist_result(&scan, &[1.0], None) {
        Err(GraphError::InvalidGraph { reason }) => {
            assert_eq!(reason, "line 2: expected at least 2 values");
        }
        other => panic!("unexpected {other:?}"),
    }
}

#[test]
fn serialize_partition_lines() {
    let p = Partition::new(vec![3, 0, 12], 0.5, 1, true);
    assert_eq!(serialize_partition(&p), "0 3\n1 0\n2 12");
    let empty: Partition<f64> = Partition::new(vec![], 0.0, 0, true);
    assert_eq!(serialize_partition(&empty), "");
    let one = Partition::new(vec![7], 0.0, 0, false);
    assert_eq!(serialize_partition(&one), "0 7");
}

#[test]
fn unsupported_formats() {
    match parse_csv::<f64>("a,b") {
        Err(GraphError::UnsupportedFormat { format }) => assert_eq!(format, "csv"),
        other => panic!("unexpected {other:?}"),
    }
    match parse_gml::<f64>("graph [ ]") {
        Err(GraphError::UnsupportedFormat { format }) => assert_eq!(format, "gml"),
        other => panic!("unexpected {other:?}"),
    }
    match parse_json::<f64>("{}") {
        Err(GraphError::UnsupportedFormat { format }) => assert_eq!(format, "json"),
        other => panic!("unexpected {other:?}"),
    }
}

#[test]
fn text_chars_round_trip() {
    let c = chars_of("héllo");
    assert_eq!(c, vec!['h', 'é', 'l', 'l', 'o']);
    assert_eq!(string_of(&c), "héllo");
}

#[test]
fn text_white_space_matches_std() {
    for c in ['a', ' ', '\t', '\n', '\r', '\u{a0}', '\u{2003}', '\u{3000}', '\u{200b}', 'x'] {
        assert_eq!(white_space(c), c.is_whitespace(), "{c:?}");
    }
}

#[test]
fn text_lines_and_words() {
    assert_eq!(strings(&lines_of(&chars("a b\n\nc"))), vec!["a b", "", "c"]);
    assert_eq!(strings(&lines_of(&chars(""))), vec![""]);
    assert_eq!(strings(&lines_of(&chars("x\n"))), vec!["x", ""]);
    assert_eq!(strings(&words_of(&chars("  a\tbc  d "))), vec!["a", "bc", "d"]);
    assert!(words_of(&chars(" \t ")).is_empty());
}

#[test]
fn text_parse_u32_matches_std() {
    for t in ["0", "42", "+5", "007", "4294967295", "4294967296", "", "+", "-1", "1a", " 1"] {
        assert_eq!(parse_u32_chars(&chars(t)), t.parse::<u32>().ok(), "{t:?}");
    }
}

#[test]
fn text_push_decimal() {
    let mut s = String::from("n=");
    push_decimal(&mut s, 0);
    assert_eq!(s, "n=0");
    push_decimal(&mut s, 1205);
    assert_eq!(s, "n=01205");
}
