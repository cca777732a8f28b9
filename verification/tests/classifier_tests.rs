use simdcsv::classifier::CsvClassifier;
use simdcsv::classifier::COMMA_CLASS;
use simdcsv::classifier::NEW_LINE_CLASS;
use simdcsv::classifier::QUOTATION_CLASS;

#[test]
fn test_basic_classify() {
    let mut classifier = CsvClassifier::new(b"a,b,c\nf,\"g\"");
    let bitsets = classifier.classify();

    assert_eq!(bitsets.len(), 1);
    let res: [u8; 16] = bitsets[0].to_array();

    assert_eq!(
        res,
        [
            0,
            COMMA_CLASS,
            0,
            COMMA_CLASS,
            0,
            NEW_LINE_CLASS,
            0,
            COMMA_CLASS,
            QUOTATION_CLASS,
            0,
            QUOTATION_CLASS,
            NEW_LINE_CLASS, // we always add a \n at the end
            0,
            0,
            0,
            0,
        ]
    );
}

#[test]
fn test_classify_only_delimiters_are_structural() {
    // '*' (0x2A), '-' (0x2D) and 0x02 share nibbles with the delimiters
    // and must still classify as plain payload.
    let mut classifier = CsvClassifier::new(&[b'*', b'-', 0x02, b',', b'"', b'\n', b'\r', b'x']);
    let bitsets = classifier.classify();

    assert_eq!(bitsets.len(), 1);
    let res: [u8; 16] = bitsets[0].to_array();

    assert_eq!(
        res,
        [
            0,
            0,
            0,
            COMMA_CLASS,
            QUOTATION_CLASS,
            NEW_LINE_CLASS,
            NEW_LINE_CLASS,
            0,
            NEW_LINE_CLASS, // synthetic terminator after the final 'x'
            0,
            0,
            0,
            0,
            0,
            0,
            0,
        ]
    );
}

#[test]
fn test_classify_exact_multiple_of_16() {
    // A 16-byte input whose last byte is no line terminator still gets its
    // synthetic newline, in an extra vector.
    let mut classifier = CsvClassifier::new(b"aaaaaaaa,bbbbbbb");
    let bitsets = classifier.classify();

    assert_eq!(bitsets.len(), 2);
    let first: [u8; 16] = bitsets[0].to_array();
    let second: [u8; 16] = bitsets[1].to_array();
    let mut expected_first = [0u8; 16];
    expected_first[8] = COMMA_CLASS;
    let mut expected_second = [0u8; 16];
    expected_second[0] = NEW_LINE_CLASS;
    assert_eq!(first, expected_first);
    assert_eq!(second, expected_second);
}

#[test]
fn test_classify_empty_input() {
    let mut classifier = CsvClassifier::new(b"");
    let bitsets = classifier.classify();
    assert_eq!(bitsets.len(), 0);
}
