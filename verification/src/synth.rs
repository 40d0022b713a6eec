//! The alignment synthesizer: a pure function of (fragment, mode) to an
//! ordered sequence of alignment records, and the text encoding of one
//! record as an output line.

use vstd::prelude::*;

use crate::dict::ReferenceDictionary;
use crate::fragment::{FragModel, FragmentEntry};
use crate::text::{clone_bytes, decimal_of, push_all, push_decimal, TAB};

verus! {

/// Template has multiple segments.
pub const FLAG_PAIRED: u16 = 1;

/// Each segment properly aligned.
pub const FLAG_PROPER_PAIR: u16 = 2;

/// Read is reverse-complemented.
pub const FLAG_REVERSE: u16 = 16;

/// First segment in the template.
pub const FLAG_FIRST_IN_PAIR: u16 = 64;

/// Last segment in the template.
pub const FLAG_SECOND_IN_PAIR: u16 = 128;

/// The match CIGAR operation code, `M`.
pub const MATCH_OPERATION: u8 = 77;

/// The same-reference mate marker, `=`.
pub const EQUALS_MARKER: u8 = 61;

/// The placeholder for an absent field, `*`.
pub const ABSENT_MARKER: u8 = 42;

/// The digit `0`.
pub const DIGIT_ZERO: u8 = 48;

/// Output mode, fixed for a whole run; determines record count and flag
/// assignment per fragment.
#[derive(Debug, Clone, Copy, PartialEq, Eq, Structural)]
pub enum OutputMode {
    /// Two records per fragment, flags 67 and 147, self-referential mates.
    PairedEnd,
    /// One record per fragment, flag 0, no mate.
    ForwardOnly,
    /// One record per fragment, flag 16, no mate.
    ReverseOnly,
}

/// Mathematical model of an alignment record.
pub struct RecModel {
    pub reference_id: int,
    pub position: int,
    pub flags: int,
    pub match_length: int,
    pub mapping_quality: int,
    pub read_name: Seq<u8>,
    pub mate_reference_id: Option<int>,
    pub mate_position: int,
}

/// One synthetic alignment record: ephemeral, written immediately.
/// Sequence and quality are always emitted as unavailable and carry no
/// field here.
pub struct AlignmentRecord {
    pub reference_id: usize,
    pub position: u64,
    pub flags: u16,
    pub match_length: u64,
    pub mapping_quality: u8,
    pub read_name: Vec<u8>,
    pub mate_reference_id: Option<usize>,
    pub mate_position: u64,
}

impl View for AlignmentRecord {
    type V = RecModel;

    open spec fn view(&self) -> RecModel {
        RecModel {
            reference_id: self.reference_id as int,
            position: self.position as int,
            flags: self.flags as int,
            match_length: self.match_length as int,
            mapping_quality: self.mapping_quality as int,
            read_name: self.read_name@,
            mate_reference_id: match self.mate_reference_id {
                Some(i) => Some(i as int),
                None => None,
            },
            mate_position: self.mate_position as int,
        }
    }
}

/// The views of a record sequence.
pub open spec fn rec_views(rs: Seq<AlignmentRecord>) -> Seq<RecModel> {
    rs.map_values(|r: AlignmentRecord| r@)
}

/// The one record model for a fragment: 1-based position, a single match
/// operation of the fragment length, mapping quality 255, the barcode as
/// read name, and a self-referential mate when `mated`.
pub open spec fn spec_record(e: FragModel, flags: int, mated: bool) -> RecModel {
    RecModel {
        reference_id: e.chrom_index,
        position: e.start + 1,
        flags: flags,
        match_length: e.length,
        mapping_quality: 255,
        read_name: e.barcode,
        mate_reference_id: if mated {
            Some(e.chrom_index)
        } else {
            None
        },
        mate_position: if mated {
            e.start + 1
        } else {
            0
        },
    }
}

/// The mode table: record count, flags and mate linkage per output mode.
pub open spec fn spec_synthesize(e: FragModel, mode: OutputMode) -> Seq<RecModel> {
    match mode {
        OutputMode::PairedEnd => seq![
            spec_record(e, (FLAG_PAIRED + FLAG_PROPER_PAIR + FLAG_FIRST_IN_PAIR) as int, true),
            spec_record(
                e,
                (FLAG_PAIRED + FLAG_PROPER_PAIR + FLAG_REVERSE + FLAG_SECOND_IN_PAIR) as int,
                true,
            ),
        ],
        OutputMode::ForwardOnly => seq![spec_record(e, 0, false)],
        OutputMode::ReverseOnly => seq![spec_record(e, FLAG_REVERSE as int, false)],
    }
}

/// A record carries its fragment's footprint: the resolved reference,
/// the 1-based position, the fragment length as its single match
/// operation, mapping quality 255, and the barcode as read name.
pub open spec fn record_of_fragment(r: RecModel, e: FragModel) -> bool {
    &&& r.reference_id == e.chrom_index
    &&& r.position == e.start + 1
    &&& r.match_length == e.length
    &&& r.mapping_quality == 255
    &&& r.read_name == e.barcode
}

/// The mode table, proved of every fragment: exactly two records with
/// flags 67 and 147 and self-referential mates under `PairedEnd`; exactly
/// one with flag 0 under `ForwardOnly` and flag 16 under `ReverseOnly`,
/// both without a mate; and every record carries the fragment footprint.
pub proof fn lemma_mode_table(e: FragModel, mode: OutputMode)
    ensures
        spec_synthesize(e, mode).len() == (if mode == OutputMode::PairedEnd {
            2int
        } else {
            1int
        }),
        mode == OutputMode::PairedEnd ==> spec_synthesize(e, mode)[0].flags == 67
            && spec_synthesize(e, mode)[1].flags == 147 && spec_synthesize(e, mode)[0]
            .mate_reference_id == Some(e.chrom_index) && spec_synthesize(e, mode)[1]
            .mate_reference_id == Some(e.chrom_index) && spec_synthesize(e, mode)[0].mate_position
            == e.start + 1 && spec_synthesize(e, mode)[1].mate_position == e.start + 1,
        mode == OutputMode::ForwardOnly ==> spec_synthesize(e, mode)[0].flags == 0
            && spec_synthesize(e, mode)[0].mate_reference_id is None && spec_synthesize(e, mode)[0]
            .mate_position == 0,
        mode == OutputMode::ReverseOnly ==> spec_synthesize(e, mode)[0].flags == 16
            && spec_synthesize(e, mode)[0].mate_reference_id is None && spec_synthesize(e, mode)[0]
            .mate_position == 0,
        forall|k: int|
            0 <= k < spec_synthesize(e, mode).len() ==> record_of_fragment(
                #[trigger] spec_synthesize(e, mode)[k],
                e,
            ),
{
    let s = spec_synthesize(e, mode);
    match mode {
        OutputMode::PairedEnd => {
            assert forall|k: int| 0 <= k < s.len() implies record_of_fragment(s[k], e) by {
                if k == 0 {
                } else {
                    assert(k == 1);
                }
            }
        },
        OutputMode::ForwardOnly => {
            assert forall|k: int| 0 <= k < s.len() implies record_of_fragment(s[k], e) by {
                assert(k == 0);
            }
        },
        OutputMode::ReverseOnly => {
            assert forall|k: int| 0 <= k < s.len() implies record_of_fragment(s[k], e) by {
                assert(k == 0);
            }
        },
    }
}

/// Builds the one record of `entry` with the given flags and mate linkage.
fn make_record(entry: &FragmentEntry, flags: u16, mated: bool) -> (r: AlignmentRecord)
    requires
        entry.start + 1 <= u64::MAX,
    ensures
        r@ == spec_record(entry@, flags as int, mated),
{
    AlignmentRecord {
        reference_id: entry.chrom_index,
        position: entry.start + 1,
        flags,
        match_length: entry.length,
        mapping_quality: 255,
        read_name: clone_bytes(&entry.barcode),
        mate_reference_id: if mated {
            Some(entry.chrom_index)
        } else {
            None
        },
        mate_position: if mated {
            entry.start + 1
        } else {
            0
        },
    }
}

/// Synthesizes the alignment records for one fragment, in generation
/// order: exactly two under `PairedEnd` with flags 67 then 147, exactly
/// one under `ForwardOnly` (flag 0) or `ReverseOnly` (flag 16).
pub fn synthesize(entry: &FragmentEntry, mode: OutputMode) -> (records: Vec<AlignmentRecord>)
    requires
        entry.start + 1 <= u64::MAX,
    ensures
        rec_views(records@) == spec_synthesize(entry@, mode),
        mode == OutputMode::PairedEnd ==> records@.len() == 2 && records@[0]@.flags == 67
            && records@[1]@.flags == 147,
        mode == OutputMode::ForwardOnly ==> records@.len() == 1 && records@[0]@.flags == 0,
        mode == OutputMode::ReverseOnly ==> records@.len() == 1 && records@[0]@.flags == 16,
{
    let mut records: Vec<AlignmentRecord> = Vec::new();
    match mode {
        OutputMode::PairedEnd => {
            records.push(
                make_record(entry, FLAG_PAIRED + FLAG_PROPER_PAIR + FLAG_FIRST_IN_PAIR, true),
            );
            records.push(
                make_record(
                    entry,
                    FLAG_PAIRED + FLAG_PROPER_PAIR + FLAG_REVERSE + FLAG_SECOND_IN_PAIR,
                    true,
                ),
            );
        },
        OutputMode::ForwardOnly => {
            records.push(make_record(entry, 0, false));
        },
        OutputMode::ReverseOnly => {
            records.push(make_record(entry, FLAG_REVERSE, false));
        },
    }
    proof {
        assert(rec_views(records@) =~= spec_synthesize(entry@, mode));
    }
    records
}

/// The text encoding of one record against its reference name: read-name,
/// flags, reference-name, 1-based position, mapping quality, CIGAR (one
/// match operation), mate reference marker, mate position, template
/// length 0, then the sequence and quality placeholders.
pub open spec fn spec_record_line(r: RecModel, ref_name: Seq<u8>) -> Seq<u8> {
    r.read_name + seq![TAB] + decimal_of(r.flags as nat) + seq![TAB] + ref_name + seq![TAB]
        + decimal_of(r.position as nat) + seq![TAB] + decimal_of(r.mapping_quality as nat)
        + seq![TAB] + decimal_of(r.match_length as nat) + seq![MATCH_OPERATION] + seq![TAB] + (
    match r.mate_reference_id {
        Some(_) => seq![EQUALS_MARKER] + seq![TAB] + decimal_of(r.mate_position as nat),
        None => seq![ABSENT_MARKER] + seq![TAB] + seq![DIGIT_ZERO],
    }) + seq![TAB] + seq![DIGIT_ZERO] + seq![TAB] + seq![ABSENT_MARKER] + seq![TAB]
        + seq![ABSENT_MARKER]
}

/// Encodes one record as an output text line, resolving the reference
/// name through the dictionary.
#[verifier::rlimit(60)]
pub fn record_to_line(record: &AlignmentRecord, dictionary: &ReferenceDictionary) -> (line: Vec<
    u8,
>)
    requires
        record.reference_id < dictionary@.len(),
    ensures
        line@ == spec_record_line(record@, dictionary@[record.reference_id as int].name),
{
    let mut line: Vec<u8> = Vec::new();
    push_all(&mut line, record.read_name.as_slice());
    line.push(TAB);
    push_decimal(&mut line, record.flags as u64);
    line.push(TAB);
    let name = dictionary.name_at(record.reference_id);
    push_all(&mut line, name.as_slice());
    line.push(TAB);
    push_decimal(&mut line, record.position);
    line.push(TAB);
    push_decimal(&mut line, record.mapping_quality as u64);
    line.push(TAB);
    push_decimal(&mut line, record.match_length);
    line.push(MATCH_OPERATION);
    line.push(TAB);
    match record.mate_reference_id {
        Some(_) => {
            line.push(EQUALS_MARKER);
            line.push(TAB);
            push_decimal(&mut line, record.mate_position);
        },
        None => {
            line.push(ABSENT_MARKER);
            line.push(TAB);
            line.push(DIGIT_ZERO);
        },
    }
    line.push(TAB);
    line.push(DIGIT_ZERO);
    line.push(TAB);
    line.push(ABSENT_MARKER);
    line.push(TAB);
    line.push(ABSENT_MARKER);
    proof {
        assert(line@ =~= spec_record_line(record@, dictionary@[record.reference_id as int].name));
    }
    line
}

} // verus!
