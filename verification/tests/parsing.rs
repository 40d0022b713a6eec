use fragments_to_sam::dict::ReferenceDictionary;
use fragments_to_sam::fragment::{parse_fragment_line, FormatError};

fn dict() -> ReferenceDictionary {
    ReferenceDictionary::build_from_text(b"chr1\t248956422\nchr2\t198295559\n").unwrap()
}

#[test]
fn parse_valid_line() {
    let d = dict();
    let e = parse_fragment_line(b"chr2\t100\t150\tAAACCCAAGAAACACT-1", &d)
        .unwrap()
        .unwrap();
    assert_eq!(e.chrom_index, 1);
    assert_eq!(e.start, 100);
    assert_eq!(e.length, 50);
    assert_eq!(e.barcode, b"AAACCCAAGAAACACT-1".to_vec());
}

#[test]
fn parse_comment_line_skipped() {
    let d = dict();
    assert!(parse_fragment_line(b"# a header comment", &d).unwrap().is_none());
}

#[test]
fn parse_blank_line_skipped() {
    let d = dict();
    assert!(parse_fragment_line(b"", &d).unwrap().is_none());
}

#[test]
fn parse_unknown_chromosome_dropped() {
    let d = dict();
    assert!(parse_fragment_line(b"chrX\t10\t20\tBC1", &d).unwrap().is_none());
}

#[test]
fn parse_missing_fields_rejected() {
    let d = dict();
    let r = parse_fragment_line(b"chr1\t10\t20", &d);
    assert_eq!(r.err(), Some(FormatError::MissingField));
}

#[test]
fn parse_bad_start_rejected() {
    let d = dict();
    let r = parse_fragment_line(b"chr1\tten\t20\tBC1", &d);
    assert_eq!(r.err(), Some(FormatError::InvalidCoordinate));
}

#[test]
fn parse_bad_end_rejected() {
    let d = dict();
    let r = parse_fragment_line(b"chr1\t10\t-5\tBC1", &d);
    assert_eq!(r.err(), Some(FormatError::InvalidCoordinate));
}

#[test]
fn parse_coordinate_checked_before_lookup() {
    // a malformed coordinate is an error even on an unknown chromosome
    let d = dict();
    let r = parse_fragment_line(b"chrX\tten\t20\tBC1", &d);
    assert_eq!(r.err(), Some(FormatError::InvalidCoordinate));
}

#[test]
fn parse_inverted_interval_rejected() {
    let d = dict();
    let r = parse_fragment_line(b"chr1\t20\t10\tBC1", &d);
    assert_eq!(r.err(), Some(FormatError::InvertedInterval));
}

#[test]
fn parse_zero_length_interval_accepted() {
    let d = dict();
    let e = parse_fragment_line(b"chr1\t10\t10\tBC1", &d).unwrap().unwrap();
    assert_eq!(e.start, 10);
    assert_eq!(e.length, 0);
}

#[test]
fn parse_start_zero_accepted() {
    let d = dict();
    let e = parse_fragment_line(b"chr1\t0\t5\tBC1", &d).unwrap().unwrap();
    assert_eq!(e.start, 0);
    assert_eq!(e.length, 5);
}

#[test]
fn parse_trailing_fields_ignored() {
    let d = dict();
    let e = parse_fragment_line(b"chr1\t1\t2\tBC1\t5\textra", &d).unwrap().unwrap();
    assert_eq!(e.barcode, b"BC1".to_vec());
}

#[test]
fn parse_oversized_coordinate_rejected() {
    let d = dict();
    let r = parse_fragment_line(b"chr1\t99999999999999999999\t99999999999999999999\tBC1", &d);
    assert_eq!(r.err(), Some(FormatError::InvalidCoordinate));
}
