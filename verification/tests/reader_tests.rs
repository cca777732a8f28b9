use simdcsv::reader::mark_inside_quotations;
use simdcsv::reader::remove_escaped_quotations;
use simdcsv::reader::CsvReader;

fn parse_rows(test: &[u8], expected: Vec<Vec<String>>) {
    let mut reader = CsvReader::new(test);
    let rows = reader
        .read()
        .iter()
        .map(|row| {
            row.iter()
                .map(|range| String::from_utf8(test[range.start..range.end].to_vec()).unwrap())
                .collect::<Vec<_>>()
        })
        .collect::<Vec<_>>();

    assert_eq!(rows, expected);
}

#[test]
fn read_basic() {
    let data = b"aaa,bbb,ccc";

    parse_rows(
        data,
        vec![vec![
            "aaa".to_string(),
            "bbb".to_string(),
            "ccc".to_string(),
        ]],
    );
}

#[test]
fn read_basic2() {
    let data = b"aaa,\"bbb\",ccc";

    parse_rows(
        data,
        vec![vec![
            "aaa".to_string(),
            "\"bbb\"".to_string(),
            "ccc".to_string(),
        ]],
    );
}

#[test]
fn read_nested() {
    let data = b"\"aaa,howdy\",\"b\"\"bb\",\"ccc\"";

    parse_rows(
        data,
        vec![vec![
            "\"aaa,howdy\"".to_string(),
            "\"b\"\"bb\"".to_string(),
            "\"ccc\"".to_string(),
        ]],
    );
}

#[test]
fn read_newline_field() {
    let data = b"\"aaa,ho\nwdy\",\"b\"\"bb\",\"ccc\"";

    parse_rows(
        data,
        vec![vec![
            "\"aaa,ho\nwdy\"".to_string(),
            "\"b\"\"bb\"".to_string(),
            "\"ccc\"".to_string(),
        ]],
    );
}

#[test]
fn read_crlf_field() {
    let data = b"\"aaa,ho\r\nwdy\",\"b\"\"bb\",\"ccc\"";

    parse_rows(
        data,
        vec![vec![
            "\"aaa,ho\r\nwdy\"".to_string(),
            "\"b\"\"bb\"".to_string(),
            "\"ccc\"".to_string(),
        ]],
    );
}

#[test]
fn read_taxi_zone_lookup_header() {
    let data = b"\"LocationID\",\"Borough\",\"Zone\",\"service_zone\"\n";

    parse_rows(
        data,
        vec![vec![
            r#""LocationID""#.to_string(),
            r#""Borough""#.to_string(),
            r#""Zone""#.to_string(),
            r#""service_zone""#.to_string(),
        ]],
    );
}

#[test]
fn test_taxi_zone_should_split_two_rows() {
    let data = b"\"LocationID\",\"Borough\",\"Zone\",\"service_zone\"\r\n1,\"EWR\"";

    parse_rows(
        data,
        vec![
            vec![
                r#""LocationID""#.to_string(),
                r#""Borough""#.to_string(),
                r#""Zone""#.to_string(),
                r#""service_zone""#.to_string(),
            ],
            vec!["1".to_string(), r#""EWR""#.to_string()],
        ],
    );
}

#[test]
fn test_mark_inside_quotations() {
    let res = mark_inside_quotations(0b10001000);
    assert_eq!(res, 0b11110000);

    let res2 = mark_inside_quotations(0b1001_1001);
    assert_eq!(res2, 0b1110_1110);

    let res4 = mark_inside_quotations(0b1100_1001);
    assert_eq!(res4, 0b1000_1110);
}

#[test]
fn test_remove_escaped_identity_on_isolated_bits() {
    // No two adjacent bits set: escape removal changes nothing.
    assert_eq!(remove_escaped_quotations(0b1010_1010), 0b1010_1010);
    assert_eq!(remove_escaped_quotations(0), 0);
    assert_eq!(remove_escaped_quotations(1 << 63), 1 << 63);
}

#[test]
fn test_remove_escaped_drops_adjacent_pairs() {
    // An adjacent pair disappears entirely; an isolated bit stays.
    assert_eq!(remove_escaped_quotations(0b0110_0001), 0b0000_0001);
    assert_eq!(remove_escaped_quotations(0b11), 0);
}

#[test]
fn test_mark_inside_stable_on_remask() {
    // Re-deriving the quote bitmap from a computed inside mask and marking
    // again reproduces the same coverage.
    for &x in &[0b10001000u64, 0b1001_1001, 0b1100_1001, 0xDEAD_BEEF_0123_4567] {
        let m = mark_inside_quotations(x);
        assert_eq!(mark_inside_quotations(m ^ (m >> 1)), m);
    }
}

#[test]
fn read_empty_input() {
    parse_rows(b"", vec![]);
}

#[test]
fn read_trailing_newline_adds_no_row() {
    parse_rows(
        b"aaa,bbb\n",
        vec![vec!["aaa".to_string(), "bbb".to_string()]],
    );
}

#[test]
fn read_crlf_breaks_once() {
    parse_rows(
        b"a\r\nb",
        vec![vec!["a".to_string()], vec!["b".to_string()]],
    );
}

#[test]
fn read_blank_line_adds_no_row() {
    parse_rows(
        b"a\n\nb",
        vec![vec!["a".to_string()], vec!["b".to_string()]],
    );
}

#[test]
fn read_empty_fields_are_dropped() {
    parse_rows(b"a,,b", vec![vec!["a".to_string(), "b".to_string()]]);
}

#[test]
fn read_exact_multiple_of_16_keeps_last_row() {
    parse_rows(
        b"aaaaaaaabbbbbbbb",
        vec![vec!["aaaaaaaabbbbbbbb".to_string()]],
    );
}

#[test]
fn read_unclosed_quote() {
    // The inside mask marks a byte when an odd number of unescaped quotes
    // follow it in its word, so a lone quote leaves the bytes after it
    // outside quotes and they are still emitted.
    parse_rows(
        b"a\"b,c",
        vec![vec!["a\"b".to_string(), "c".to_string()]],
    );
}

#[test]
fn read_structural_byte_at_word_end() {
    // A separator in the last byte of a 64-byte bitmap word.
    let mut data = vec![b'x'; 63];
    data.push(b'\n');
    data.push(b'y');
    let mut first = String::new();
    for _ in 0..63 {
        first.push('x');
    }
    parse_rows(
        &data,
        vec![vec![first], vec!["y".to_string()]],
    );
}

#[test]
fn read_long_input_spanning_words() {
    // 70 payload bytes, one comma, then more payload: the row spans two
    // bitmap words.
    let mut data = Vec::new();
    for _ in 0..70 {
        data.push(b'a');
    }
    data.push(b',');
    data.push(b'b');
    let mut first = String::new();
    for _ in 0..70 {
        first.push('a');
    }
    parse_rows(&data, vec![vec![first, "b".to_string()]]);
}
