use fragments_to_sam::fragment::FragmentEntry;
use fragments_to_sam::synth::{synthesize, OutputMode};

fn entry() -> FragmentEntry {
    FragmentEntry { chrom_index: 0, start: 100, length: 50, barcode: b"BC1".to_vec() }
}

#[test]
fn synth_paired_end_two_records() {
    let recs = synthesize(&entry(), OutputMode::PairedEnd);
    assert_eq!(recs.len(), 2);
    assert_eq!(recs[0].flags, 67);
    assert_eq!(recs[1].flags, 147);
}

#[test]
fn synth_forward_one_record() {
    let recs = synthesize(&entry(), OutputMode::ForwardOnly);
    assert_eq!(recs.len(), 1);
    assert_eq!(recs[0].flags, 0);
    assert_eq!(recs[0].mate_reference_id, None);
    assert_eq!(recs[0].mate_position, 0);
}

#[test]
fn synth_reverse_one_record() {
    let recs = synthesize(&entry(), OutputMode::ReverseOnly);
    assert_eq!(recs.len(), 1);
    assert_eq!(recs[0].flags, 16);
    assert_eq!(recs[0].mate_reference_id, None);
}

#[test]
fn synth_record_fields() {
    let recs = synthesize(&entry(), OutputMode::PairedEnd);
    for r in &recs {
        assert_eq!(r.reference_id, 0);
        assert_eq!(r.position, 101);
        assert_eq!(r.match_length, 50);
        assert_eq!(r.mapping_quality, 255);
        assert_eq!(r.read_name, b"BC1".to_vec());
        assert_eq!(r.mate_reference_id, Some(0));
        assert_eq!(r.mate_position, 101);
    }
}

#[test]
fn synth_position_is_one_based() {
    let e = FragmentEntry { chrom_index: 0, start: 0, length: 5, barcode: b"BC1".to_vec() };
    let recs = synthesize(&e, OutputMode::ForwardOnly);
    assert_eq!(recs[0].position, 1);
}

#[test]
fn synth_zero_length_match_kept() {
    let e = FragmentEntry { chrom_index: 0, start: 7, length: 0, barcode: b"BC1".to_vec() };
    let recs = synthesize(&e, OutputMode::PairedEnd);
    assert_eq!(recs.len(), 2);
    assert_eq!(recs[0].match_length, 0);
    assert_eq!(recs[1].match_length, 0);
}

#[test]
fn synth_rerun_is_identical() {
    let a = synthesize(&entry(), OutputMode::PairedEnd);
    let b = synthesize(&entry(), OutputMode::PairedEnd);
    assert_eq!(a.len(), b.len());
    for (x, y) in a.iter().zip(b.iter()) {
        assert_eq!(x.reference_id, y.reference_id);
        assert_eq!(x.position, y.position);
        assert_eq!(x.flags, y.flags);
        assert_eq!(x.match_length, y.match_length);
        assert_eq!(x.mapping_quality, y.mapping_quality);
        assert_eq!(x.read_name, y.read_name);
        assert_eq!(x.mate_reference_id, y.mate_reference_id);
        assert_eq!(x.mate_position, y.mate_position);
    }
}
