//! The streaming pipeline driver's logic: one decoded line in, its
//! encoded output lines out, in generation order; the fold over a line
//! sequence; and the order and drop laws of the stream.

use vstd::prelude::*;

use crate::dict::{dict_contains, RefSeqModel, ReferenceDictionary};
use crate::fragment::{
    parse_fragment_line, spec_parse_fragment, FormatError, FragModel,
};
use crate::synth::{
    lemma_mode_table, rec_views, record_to_line, spec_record_line, spec_synthesize, synthesize,
    OutputMode, RecModel,
};
use crate::text::{
    is_numeral, numeral_value, spec_split, views_of, COMMENT_MARKER, TAB,
};

verus! {

/// The output lines of one fragment: its records in generation order,
/// each encoded against the fragment's reference name.
pub open spec fn spec_fragment_lines(e: FragModel, mode: OutputMode, ref_name: Seq<u8>) -> Seq<
    Seq<u8>,
> {
    spec_synthesize(e, mode).map_values(|r: RecModel| spec_record_line(r, ref_name))
}

/// The output lines of one input line: none for a skipped line, the
/// fragment's lines otherwise, or its format error.
pub open spec fn spec_process_line(line: Seq<u8>, d: Seq<RefSeqModel>, mode: OutputMode) -> Result<
    Seq<Seq<u8>>,
    FormatError,
> {
    match spec_parse_fragment(line, d) {
        Err(e) => Err(e),
        Ok(None) => Ok(Seq::<Seq<u8>>::empty()),
        Ok(Some(f)) => Ok(spec_fragment_lines(f, mode, d[f.chrom_index].name)),
    }
}

/// The result of line processing, as a model.
pub open spec fn lines_result_view(r: Result<Vec<Vec<u8>>, FormatError>) -> Result<
    Seq<Seq<u8>>,
    FormatError,
> {
    match r {
        Ok(ls) => Ok(views_of(ls@)),
        Err(e) => Err(e),
    }
}

/// Processes one decoded input line: parse, then synthesize and encode
/// each record, in generation order.
pub fn process_line(line: &[u8], dictionary: &ReferenceDictionary, mode: OutputMode) -> (r: Result<
    Vec<Vec<u8>>,
    FormatError,
>)
    ensures
        lines_result_view(r) == spec_process_line(line@, dictionary@, mode),
{
    let entry = match parse_fragment_line(line, dictionary) {
        Err(e) => {
            return Err(e);
        },
        Ok(None) => {
            let out: Vec<Vec<u8>> = Vec::new();
            proof {
                assert(views_of(out@) =~= Seq::<Seq<u8>>::empty());
            }
            return Ok(out);
        },
        Ok(Some(e)) => e,
    };
    let ghost e0 = entry@;
    let ghost models = spec_synthesize(e0, mode);
    let ghost ref_name = dictionary@[e0.chrom_index].name;
    let records = synthesize(&entry, mode);
    proof {
        lemma_mode_table(e0, mode);
        assert(models.subrange(0, 0) =~= Seq::<RecModel>::empty());
    }
    let mut out: Vec<Vec<u8>> = Vec::new();
    let mut i: usize = 0;
    proof {
        assert(views_of(out@) =~= models.subrange(0, 0).map_values(
            |r: RecModel| spec_record_line(r, ref_name),
        ));
    }
    while i < records.len()
        invariant
            i <= records@.len(),
            rec_views(records@) == models,
            models.len() == records@.len(),
            models == spec_synthesize(e0, mode),
            e0.chrom_index < dictionary@.len(),
            ref_name == dictionary@[e0.chrom_index].name,
            views_of(out@) == models.subrange(0, i as int).map_values(
                |r: RecModel| spec_record_line(r, ref_name),
            ),
        decreases records@.len() - i,
    {
        proof {
            lemma_mode_table(e0, mode);
            assert(records@[i as int]@ == models[i as int]);
        }
        let encoded = record_to_line(&records[i], dictionary);
        let ghost prev = out@;
        out.push(encoded);
        i = i + 1;
        proof {
            assert(views_of(out@) =~= views_of(prev) + seq![
                spec_record_line(models[i - 1], ref_name),
            ]);
            assert(views_of(out@) =~= models.subrange(0, i as int).map_values(
                |r: RecModel| spec_record_line(r, ref_name),
            ));
        }
    }
    proof {
        assert(models.subrange(0, models.len() as int) =~= models);
        assert(views_of(out@) == spec_fragment_lines(e0, mode, ref_name));
    }
    Ok(out)
}

/// The output lines of a whole line sequence, in input order, or the
/// first error; a bad line aborts the fold.
pub open spec fn spec_process_lines(
    lines: Seq<Seq<u8>>,
    d: Seq<RefSeqModel>,
    mode: OutputMode,
) -> Result<Seq<Seq<u8>>, FormatError>
    decreases lines.len(),
{
    if lines.len() == 0 {
        Ok(Seq::<Seq<u8>>::empty())
    } else {
        match spec_process_line(lines[0], d, mode) {
            Err(e) => Err(e),
            Ok(first) => match spec_process_lines(
                lines.subrange(1, lines.len() as int),
                d,
                mode,
            ) {
                Err(e) => Err(e),
                Ok(rest) => Ok(first + rest),
            },
        }
    }
}

/// Processes decoded input lines in order: output record order exactly
/// mirrors input line order, and records of one fragment are never
/// interleaved with another's.
pub fn process_lines(lines: &Vec<Vec<u8>>, dictionary: &ReferenceDictionary, mode: OutputMode) -> (r:
    Result<Vec<Vec<u8>>, FormatError>)
    ensures
        lines_result_view(r) == spec_process_lines(views_of(lines@), dictionary@, mode),
{
    let ghost lv = views_of(lines@);
    let mut out: Vec<Vec<u8>> = Vec::new();
    let mut i: usize = 0;
    proof {
        assert(lv.subrange(0, lv.len() as int) =~= lv);
        assert(views_of(out@) =~= Seq::<Seq<u8>>::empty());
        if let Ok(rest) = spec_process_lines(lv, dictionary@, mode) {
            assert(views_of(out@) + rest =~= rest);
        }
    }
    while i < lines.len()
        invariant
            i <= lines@.len(),
            lv == views_of(lines@),
            lv.len() == lines@.len(),
            spec_process_lines(lv.subrange(i as int, lv.len() as int), dictionary@, mode)
                matches Ok(rest) ==> spec_process_lines(lv, dictionary@, mode) == Ok::<
                Seq<Seq<u8>>,
                FormatError,
            >(views_of(out@) + rest),
            spec_process_lines(lv.subrange(i as int, lv.len() as int), dictionary@, mode)
                matches Err(e) ==> spec_process_lines(lv, dictionary@, mode) == Err::<
                Seq<Seq<u8>>,
                FormatError,
            >(e),
        decreases lines@.len() - i,
    {
        let ghost suffix = lv.subrange(i as int, lv.len() as int);
        proof {
            assert(suffix[0] == lv[i as int]);
            assert(suffix.subrange(1, suffix.len() as int) =~= lv.subrange(
                i + 1,
                lv.len() as int,
            ));
            assert(lines@[i as int]@ == lv[i as int]);
        }
        let mut line_out = match process_line(lines[i].as_slice(), dictionary, mode) {
            Err(e) => {
                return Err(e);
            },
            Ok(ls) => ls,
        };
        let ghost prev = out@;
        let ghost produced = line_out@;
        out.append(&mut line_out);
        i = i + 1;
        proof {
            assert(views_of(out@) =~= views_of(prev) + views_of(produced));
            if let Ok(rest) = spec_process_lines(
                lv.subrange(i as int, lv.len() as int),
                dictionary@,
                mode,
            ) {
                assert(views_of(out@) + rest =~= views_of(prev) + (views_of(produced) + rest));
            }
        }
    }
    proof {
        assert(lv.subrange(lv.len() as int, lv.len() as int) =~= Seq::<Seq<u8>>::empty());
        assert(views_of(out@) + Seq::<Seq<u8>>::empty() =~= views_of(out@));
    }
    Ok(out)
}

/// The output lines under the recoverable policy: a malformed line is
/// skipped and contributes nothing, instead of aborting the fold.
pub open spec fn spec_process_lines_skipping(
    lines: Seq<Seq<u8>>,
    d: Seq<RefSeqModel>,
    mode: OutputMode,
) -> Seq<Seq<u8>>
    decreases lines.len(),
{
    if lines.len() == 0 {
        Seq::<Seq<u8>>::empty()
    } else {
        (match spec_process_line(lines[0], d, mode) {
            Ok(first) => first,
            Err(_) => Seq::<Seq<u8>>::empty(),
        }) + spec_process_lines_skipping(lines.subrange(1, lines.len() as int), d, mode)
    }
}

/// Processes decoded input lines under the recoverable policy: a
/// malformed fragment line is skipped and processing continues.
/// Dictionary failures stay fatal, at build time.
pub fn process_lines_skipping(
    lines: &Vec<Vec<u8>>,
    dictionary: &ReferenceDictionary,
    mode: OutputMode,
) -> (out: Vec<Vec<u8>>)
    ensures
        views_of(out@) == spec_process_lines_skipping(views_of(lines@), dictionary@, mode),
{
    let ghost lv = views_of(lines@);
    let mut out: Vec<Vec<u8>> = Vec::new();
    let mut i: usize = 0;
    proof {
        assert(lv.subrange(0, lv.len() as int) =~= lv);
        assert(views_of(out@) =~= Seq::<Seq<u8>>::empty());
        assert(views_of(out@) + spec_process_lines_skipping(lv, dictionary@, mode)
            =~= spec_process_lines_skipping(lv, dictionary@, mode));
    }
    while i < lines.len()
        invariant
            i <= lines@.len(),
            lv == views_of(lines@),
            lv.len() == lines@.len(),
            spec_process_lines_skipping(lv, dictionary@, mode) == views_of(out@)
                + spec_process_lines_skipping(
                lv.subrange(i as int, lv.len() as int),
                dictionary@,
                mode,
            ),
        decreases lines@.len() - i,
    {
        let ghost suffix = lv.subrange(i as int, lv.len() as int);
        proof {
            assert(suffix[0] == lv[i as int]);
            assert(suffix.subrange(1, suffix.len() as int) =~= lv.subrange(
                i + 1,
                lv.len() as int,
            ));
            assert(lines@[i as int]@ == lv[i as int]);
        }
        let ghost prev = out@;
        match process_line(lines[i].as_slice(), dictionary, mode) {
            Err(_) => {
                proof {
                    assert(views_of(out@) =~= views_of(prev) + Seq::<Seq<u8>>::empty());
                }
            },
            Ok(mut line_out) => {
                let ghost produced = line_out@;
                out.append(&mut line_out);
                proof {
                    assert(views_of(out@) =~= views_of(prev) + views_of(produced));
                }
            },
        }
        i = i + 1;
        proof {
            let tail = spec_process_lines_skipping(
                lv.subrange(i as int, lv.len() as int),
                dictionary@,
                mode,
            );
            assert(views_of(prev) + (spec_process_lines_skipping(suffix, dictionary@, mode))
                =~= views_of(out@) + tail);
        }
    }
    proof {
        assert(lv.subrange(lv.len() as int, lv.len() as int) =~= Seq::<Seq<u8>>::empty());
        assert(views_of(out@) + Seq::<Seq<u8>>::empty() =~= views_of(out@));
    }
    out
}

/// Synthesis is a pure function: identical fragment, mode and reference
/// name give byte-identical output lines on every run.
pub proof fn lemma_synthesis_deterministic(
    e1: FragModel,
    e2: FragModel,
    mode: OutputMode,
    ref_name: Seq<u8>,
)
    requires
        e1 == e2,
    ensures
        spec_fragment_lines(e1, mode, ref_name) == spec_fragment_lines(e2, mode, ref_name),
{
}

/// Processing a concatenation of line sequences concatenates their
/// outputs in order: nothing is sorted, dropped or reordered across the
/// boundary.
pub proof fn lemma_order_preservation(
    l1: Seq<Seq<u8>>,
    l2: Seq<Seq<u8>>,
    d: Seq<RefSeqModel>,
    mode: OutputMode,
)
    ensures
        spec_process_lines(l1, d, mode) matches Ok(o1) ==> spec_process_lines(l2, d, mode)
            matches Ok(o2) ==> spec_process_lines(l1 + l2, d, mode) == Ok::<
            Seq<Seq<u8>>,
            FormatError,
        >(o1 + o2),
    decreases l1.len(),
{
    if l1.len() == 0 {
        assert(l1 + l2 =~= l2);
        if let Ok(o2) = spec_process_lines(l2, d, mode) {
            assert(Seq::<Seq<u8>>::empty() + o2 =~= o2);
        }
    } else {
        let rest = l1.subrange(1, l1.len() as int);
        lemma_order_preservation(rest, l2, d, mode);
        let all = l1 + l2;
        assert(all[0] == l1[0]);
        assert(all.subrange(1, all.len() as int) =~= rest + l2);
        if let Ok(o1) = spec_process_lines(l1, d, mode) {
            if let Ok(o2) = spec_process_lines(l2, d, mode) {
                if let Ok(h) = spec_process_line(l1[0], d, mode) {
                    if let Ok(r1) = spec_process_lines(rest, d, mode) {
                        assert(o1 == h + r1);
                        assert(h + (r1 + o2) =~= (h + r1) + o2);
                    }
                }
            }
        }
    }
}

/// A line naming a chromosome absent from the dictionary produces no
/// output records and leaves the processing of the following lines
/// untouched.
pub proof fn lemma_unknown_chromosome_dropped(
    line: Seq<u8>,
    rest: Seq<Seq<u8>>,
    d: Seq<RefSeqModel>,
    mode: OutputMode,
)
    requires
        line.len() > 0,
        line[0] != COMMENT_MARKER,
        spec_split(line, TAB).len() >= 4,
        is_numeral(spec_split(line, TAB)[1]),
        numeral_value(spec_split(line, TAB)[1]) + 1 <= u64::MAX,
        is_numeral(spec_split(line, TAB)[2]),
        numeral_value(spec_split(line, TAB)[2]) <= u64::MAX,
        !dict_contains(d, spec_split(line, TAB)[0]),
    ensures
        spec_process_line(line, d, mode) == Ok::<Seq<Seq<u8>>, FormatError>(
            Seq::<Seq<u8>>::empty(),
        ),
        spec_process_lines(seq![line] + rest, d, mode) == spec_process_lines(rest, d, mode),
{
    let all = seq![line] + rest;
    assert(all[0] == line);
    assert(all.subrange(1, all.len() as int) =~= rest);
    match spec_process_lines(rest, d, mode) {
        Ok(o) => {
            assert(Seq::<Seq<u8>>::empty() + o =~= o);
        },
        Err(_) => {},
    }
}

} // verus!
