use fragments_to_sam::dict::{BuildError, ReferenceDictionary};

#[test]
fn dict_round_trip_two_chromosomes() {
    let d = ReferenceDictionary::build_from_text(b"chr1\t248956422\nchr2\t198295559\n").unwrap();
    assert_eq!(d.len(), 2);
    assert_eq!(d.name_at(0).as_slice(), b"chr1");
    assert_eq!(d.length_at(0), 248956422);
    assert_eq!(d.name_at(1).as_slice(), b"chr2");
    assert_eq!(d.length_at(1), 198295559);
    assert_eq!(d.lookup(b"chr1"), Some(0));
    assert_eq!(d.lookup(b"chr2"), Some(1));
    assert_eq!(d.lookup(b"chrX"), None);
}

#[test]
fn dict_no_trailing_newline() {
    let d = ReferenceDictionary::build_from_text(b"chr1\t100\nchr2\t200").unwrap();
    assert_eq!(d.len(), 2);
    assert_eq!(d.lookup(b"chr2"), Some(1));
}

#[test]
fn dict_carriage_returns_stripped() {
    let d = ReferenceDictionary::build_from_text(b"chr1\t100\r\nchr2\t200\r\n").unwrap();
    assert_eq!(d.len(), 2);
    assert_eq!(d.length_at(0), 100);
    assert_eq!(d.length_at(1), 200);
}

#[test]
fn dict_empty_text_gives_empty_dictionary() {
    let d = ReferenceDictionary::build_from_text(b"").unwrap();
    assert_eq!(d.len(), 0);
    assert_eq!(d.lookup(b"chr1"), None);
}

#[test]
fn dict_duplicate_name_rejected() {
    let r = ReferenceDictionary::build_from_text(b"chr1\t100\nchr1\t200\n");
    assert_eq!(r.err(), Some(BuildError::DuplicateName));
}

#[test]
fn dict_zero_length_rejected() {
    let r = ReferenceDictionary::build_from_text(b"chr1\t0\n");
    assert_eq!(r.err(), Some(BuildError::InvalidLength));
}

#[test]
fn dict_non_numeric_length_rejected() {
    let r = ReferenceDictionary::build_from_text(b"chr1\tlong\n");
    assert_eq!(r.err(), Some(BuildError::InvalidLength));
}

#[test]
fn dict_missing_length_field_rejected() {
    let r = ReferenceDictionary::build_from_text(b"chr1\n");
    assert_eq!(r.err(), Some(BuildError::MissingField));
}

#[test]
fn dict_blank_line_rejected() {
    let r = ReferenceDictionary::build_from_text(b"chr1\t100\n\nchr2\t200\n");
    assert_eq!(r.err(), Some(BuildError::MissingField));
}

#[test]
fn dict_first_error_wins() {
    let r = ReferenceDictionary::build_from_text(b"chr1\t100\nchr2\tbad\nchr1\t1\n");
    assert_eq!(r.err(), Some(BuildError::InvalidLength));
}

#[test]
fn dict_extra_fields_ignored() {
    let d = ReferenceDictionary::build_from_text(b"chr1\t100\tcomment here\n").unwrap();
    assert_eq!(d.len(), 1);
    assert_eq!(d.length_at(0), 100);
}
