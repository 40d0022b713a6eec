//! Fragment line parsing: one raw text line becomes a validated
//! `FragmentEntry`, a silent skip, or a format error.

use vstd::prelude::*;

use crate::dict::{dict_contains, dict_index_of, RefSeqModel, ReferenceDictionary};
use crate::text::{
    clone_bytes, is_numeral, numeral_value, parse_u64, spec_split, split_bytes, views_of,
    COMMENT_MARKER, TAB,
};

verus! {

/// Error for a malformed fragment line; the driver applies the
/// fatal-versus-skip policy.
#[derive(Debug, Clone, Copy, PartialEq, Eq, Structural)]
pub enum FormatError {
    /// Fewer than the four mandatory fields.
    MissingField,
    /// A coordinate is not a non-negative integer whose 1-based position
    /// fits in `u64`.
    InvalidCoordinate,
    /// The interval end lies before its start.
    InvertedInterval,
}

/// Mathematical model of a fragment entry.
pub struct FragModel {
    pub chrom_index: int,
    pub start: int,
    pub length: int,
    pub barcode: Seq<u8>,
}

/// One validated fragment: resolved chromosome index, 0-based inclusive
/// start, length (end minus start), and the barcode used as read name.
/// Constructed per input line and consumed immediately.
pub struct FragmentEntry {
    pub chrom_index: usize,
    pub start: u64,
    pub length: u64,
    pub barcode: Vec<u8>,
}

impl View for FragmentEntry {
    type V = FragModel;

    open spec fn view(&self) -> FragModel {
        FragModel {
            chrom_index: self.chrom_index as int,
            start: self.start as int,
            length: self.length as int,
            barcode: self.barcode@,
        }
    }
}

/// Interpretation of one fragment line against dictionary contents `d`:
/// `Ok(None)` for a silently skipped line (blank, comment, or unknown
/// chromosome), `Ok(Some(entry))` for a validated fragment, `Err` for a
/// malformed line. Fields past the mandatory four are ignored.
pub open spec fn spec_parse_fragment(line: Seq<u8>, d: Seq<RefSeqModel>) -> Result<
    Option<FragModel>,
    FormatError,
> {
    if line.len() == 0 || line[0] == COMMENT_MARKER {
        Ok(None)
    } else {
        let fs = spec_split(line, TAB);
        if fs.len() < 4 {
            Err(FormatError::MissingField)
        } else if !(is_numeral(fs[1]) && numeral_value(fs[1]) + 1 <= u64::MAX) {
            Err(FormatError::InvalidCoordinate)
        } else if !(is_numeral(fs[2]) && numeral_value(fs[2]) <= u64::MAX) {
            Err(FormatError::InvalidCoordinate)
        } else if !dict_contains(d, fs[0]) {
            Ok(None)
        } else if numeral_value(fs[2]) < numeral_value(fs[1]) {
            Err(FormatError::InvertedInterval)
        } else {
            Ok(
                Some(
                    FragModel {
                        chrom_index: dict_index_of(d, fs[0]),
                        start: numeral_value(fs[1]),
                        length: numeral_value(fs[2]) - numeral_value(fs[1]),
                        barcode: fs[3],
                    },
                ),
            )
        }
    }
}

/// The result of fragment parsing, as a model.
pub open spec fn parse_result_view(r: Result<Option<FragmentEntry>, FormatError>) -> Result<
    Option<FragModel>,
    FormatError,
> {
    match r {
        Ok(Some(e)) => Ok(Some(e@)),
        Ok(None) => Ok(None),
        Err(e) => Err(e),
    }
}

/// Parses one fragment line: skips blanks, comments and unknown
/// chromosomes; validates coordinates and interval order. Never mutates
/// the dictionary.
pub fn parse_fragment_line(line: &[u8], dictionary: &ReferenceDictionary) -> (r: Result<
    Option<FragmentEntry>,
    FormatError,
>)
    ensures
        parse_result_view(r) == spec_parse_fragment(line@, dictionary@),
        r matches Ok(Some(e)) ==> e.chrom_index < dictionary@.len() && e.start + 1 <= u64::MAX,
{
    if line.len() == 0 || line[0] == COMMENT_MARKER {
        return Ok(None);
    }
    let fields = split_bytes(line, TAB);
    let ghost fs = spec_split(line@, TAB);
    proof {
        assert(views_of(fields@) == fs);
        assert(fields@.len() == fs.len());
    }
    if fields.len() < 4 {
        return Err(FormatError::MissingField);
    }
    proof {
        assert(fields@[0]@ == fs[0]);
        assert(fields@[1]@ == fs[1]);
        assert(fields@[2]@ == fs[2]);
        assert(fields@[3]@ == fs[3]);
    }
    let start = match parse_u64(fields[1].as_slice()) {
        None => {
            return Err(FormatError::InvalidCoordinate);
        },
        Some(v) => v,
    };
    if start == u64::MAX {
        return Err(FormatError::InvalidCoordinate);
    }
    let end = match parse_u64(fields[2].as_slice()) {
        None => {
            return Err(FormatError::InvalidCoordinate);
        },
        Some(v) => v,
    };
    let chrom_index = match dictionary.lookup(fields[0].as_slice()) {
        None => {
            return Ok(None);
        },
        Some(i) => i,
    };
    if end < start {
        return Err(FormatError::InvertedInterval);
    }
    let barcode = clone_bytes(&fields[3]);
    Ok(Some(FragmentEntry { chrom_index, start, length: end - start, barcode }))
}

} // verus!
