//! The reference dictionary: an ordered name -> (index, length) table
//! built once from the chromosome sizes text and read-only thereafter.
//! Insertion order is the header emission order, and the dense 0-based
//! index is the basis for record encoding.

use vstd::prelude::*;

use crate::text::{
    is_numeral, numeral_value, parse_u64, spec_lines, spec_split, split_bytes, split_lines,
    views_of, bytes_eq, clone_bytes, TAB,
};

verus! {

/// Mathematical model of one reference sequence entry.
pub struct RefSeqModel {
    pub name: Seq<u8>,
    pub length: int,
}

/// One reference sequence: a name and a positive length.
pub struct ReferenceSequenceDef {
    pub name: Vec<u8>,
    pub length: u64,
}

impl View for ReferenceSequenceDef {
    type V = RefSeqModel;

    open spec fn view(&self) -> RefSeqModel {
        RefSeqModel { name: self.name@, length: self.length as int }
    }
}

/// Error aborting the dictionary build; a dictionary failure is fatal,
/// since no valid header could be emitted.
#[derive(Debug, Clone, Copy, PartialEq, Eq, Structural)]
pub enum BuildError {
    /// A sizes line has no length field.
    MissingField,
    /// The length field is not a positive integer that fits in `u64`.
    InvalidLength,
    /// A reference sequence name occurs twice.
    DuplicateName,
}

/// The entries of a dictionary as models.
pub open spec fn dict_view(entries: Seq<ReferenceSequenceDef>) -> Seq<RefSeqModel> {
    entries.map_values(|e: ReferenceSequenceDef| e@)
}

/// Index of the entry named `name`, or `d.len()` if absent.
pub open spec fn dict_index_of(d: Seq<RefSeqModel>, name: Seq<u8>) -> int
    decreases d.len(),
{
    if d.len() == 0 {
        0
    } else if d[0].name == name {
        0
    } else {
        1 + dict_index_of(d.subrange(1, d.len() as int), name)
    }
}

/// Whether some entry is named `name`.
pub open spec fn dict_contains(d: Seq<RefSeqModel>, name: Seq<u8>) -> bool {
    dict_index_of(d, name) < d.len()
}

pub proof fn lemma_dict_index_of(d: Seq<RefSeqModel>, name: Seq<u8>)
    ensures
        0 <= dict_index_of(d, name) <= d.len(),
        dict_index_of(d, name) < d.len() ==> d[dict_index_of(d, name)].name == name,
        forall|k: int| 0 <= k < dict_index_of(d, name) ==> d[k].name != name,
    decreases d.len(),
{
    if d.len() == 0 {
    } else if d[0].name == name {
    } else {
        let t = d.subrange(1, d.len() as int);
        lemma_dict_index_of(t, name);
        assert forall|k: int| 0 <= k < dict_index_of(d, name) implies d[k].name != name by {
            if k > 0 {
                assert(d[k] == t[k - 1]);
            }
        }
        if dict_index_of(d, name) < d.len() {
            assert(d[dict_index_of(d, name)] == t[dict_index_of(t, name)]);
        }
    }
}

/// Well-formed dictionary contents: positive lengths, unique names.
pub open spec fn dict_wf(d: Seq<RefSeqModel>) -> bool {
    &&& forall|i: int| 0 <= i < d.len() ==> d[i].length > 0
    &&& forall|i: int, j: int| 0 <= i < j < d.len() ==> d[i].name != d[j].name
}

/// Interpretation of one sizes line: `name TAB length`, further fields
/// ignored.
pub open spec fn spec_sizes_line(line: Seq<u8>) -> Result<RefSeqModel, BuildError> {
    let fs = spec_split(line, TAB);
    if fs.len() < 2 {
        Err(BuildError::MissingField)
    } else if !(is_numeral(fs[1]) && 0 < numeral_value(fs[1]) <= u64::MAX) {
        Err(BuildError::InvalidLength)
    } else {
        Ok(RefSeqModel { name: fs[0], length: numeral_value(fs[1]) })
    }
}

/// The dictionary contents built from the sizes lines in order, or the
/// first error: a bad line or a duplicate name aborts the build.
pub open spec fn spec_build(lines: Seq<Seq<u8>>) -> Result<Seq<RefSeqModel>, BuildError>
    decreases lines.len(),
{
    if lines.len() == 0 {
        Ok(Seq::<RefSeqModel>::empty())
    } else {
        match spec_build(lines.subrange(0, lines.len() - 1)) {
            Err(e) => Err(e),
            Ok(d) => match spec_sizes_line(lines[lines.len() - 1]) {
                Err(e) => Err(e),
                Ok(r) => if dict_contains(d, r.name) {
                    Err(BuildError::DuplicateName)
                } else {
                    Ok(d.push(r))
                },
            },
        }
    }
}

/// A successful build is well-formed: indices dense in insertion order,
/// lengths positive, names unique.
pub proof fn lemma_spec_build_wf(lines: Seq<Seq<u8>>)
    ensures
        spec_build(lines) matches Ok(d) ==> dict_wf(d),
    decreases lines.len(),
{
    if lines.len() > 0 {
        let front = lines.subrange(0, lines.len() - 1);
        lemma_spec_build_wf(front);
        if let Ok(d0) = spec_build(front) {
            if let Ok(r) = spec_sizes_line(lines[lines.len() - 1]) {
                if !dict_contains(d0, r.name) {
                    lemma_dict_index_of(d0, r.name);
                    assert(forall|k: int| 0 <= k < d0.len() ==> d0[k].name != r.name);
                }
            }
        }
    }
}

/// An error on a prefix of the lines decides the whole build.
pub proof fn lemma_spec_build_prefix_err(lines: Seq<Seq<u8>>, i: int, e: BuildError)
    requires
        0 <= i <= lines.len(),
        spec_build(lines.subrange(0, i)) == Err::<Seq<RefSeqModel>, BuildError>(e),
    ensures
        spec_build(lines) == Err::<Seq<RefSeqModel>, BuildError>(e),
    decreases lines.len() - i,
{
    if i == lines.len() {
        assert(lines.subrange(0, i) =~= lines);
    } else {
        let front = lines.subrange(0, lines.len() - 1);
        assert(front.subrange(0, i) =~= lines.subrange(0, i));
        lemma_spec_build_prefix_err(front, i, e);
    }
}

/// The result of a build, as a model.
pub open spec fn build_result_view(r: Result<ReferenceDictionary, BuildError>) -> Result<
    Seq<RefSeqModel>,
    BuildError,
> {
    match r {
        Ok(d) => Ok(d@),
        Err(e) => Err(e),
    }
}

/// Ordered name -> (index, length) mapping; immutable once built.
pub struct ReferenceDictionary {
    entries: Vec<ReferenceSequenceDef>,
}

impl View for ReferenceDictionary {
    type V = Seq<RefSeqModel>;

    closed spec fn view(&self) -> Seq<RefSeqModel> {
        dict_view(self.entries@)
    }
}

/// First entry of `entries` named `name`, if any.
fn find_name(entries: &Vec<ReferenceSequenceDef>, name: &[u8]) -> (r: Option<usize>)
    ensures
        match r {
            Some(i) => i < entries@.len() && dict_index_of(dict_view(entries@), name@) == i,
            None => !dict_contains(dict_view(entries@), name@),
        },
{
    let ghost d = dict_view(entries@);
    let mut i: usize = 0;
    while i < entries.len()
        invariant
            i <= entries@.len(),
            d == dict_view(entries@),
            d.len() == entries@.len(),
            forall|k: int| 0 <= k < i ==> d[k].name != name@,
        decreases entries@.len() - i,
    {
        if bytes_eq(entries[i].name.as_slice(), name) {
            proof {
                lemma_dict_index_of(d, name@);
                assert(d[i as int].name == name@);
            }
            return Some(i);
        }
        proof {
            assert(d[i as int].name == entries@[i as int].name@);
        }
        i = i + 1;
    }
    proof {
        lemma_dict_index_of(d, name@);
    }
    None
}

impl ReferenceDictionary {
    /// Positive lengths and unique names; every built dictionary has it.
    pub open spec fn wf(&self) -> bool {
        dict_wf(self@)
    }

    /// Number of reference sequences.
    pub fn len(&self) -> (n: usize)
        ensures
            n == self@.len(),
    {
        self.entries.len()
    }

    /// The name of the reference sequence at `index`.
    pub fn name_at(&self, index: usize) -> (name: &Vec<u8>)
        requires
            index < self@.len(),
        ensures
            name@ == self@[index as int].name,
    {
        &self.entries[index].name
    }

    /// The length of the reference sequence at `index`.
    pub fn length_at(&self, index: usize) -> (length: u64)
        requires
            index < self@.len(),
        ensures
            length == self@[index as int].length,
    {
        self.entries[index].length
    }

    /// Index of `name`, if present.
    pub fn lookup(&self, name: &[u8]) -> (r: Option<usize>)
        ensures
            match r {
                Some(i) => i < self@.len() && self@[i as int].name == name@ && dict_index_of(
                    self@,
                    name@,
                ) == i,
                None => !dict_contains(self@, name@),
            },
    {
        let r = find_name(&self.entries, name);
        proof {
            lemma_dict_index_of(self@, name@);
        }
        r
    }

    /// Builds the dictionary from decoded sizes lines, in order.
    pub fn build_from_lines(lines: &Vec<Vec<u8>>) -> (r: Result<ReferenceDictionary, BuildError>)
        ensures
            build_result_view(r) == spec_build(views_of(lines@)),
            r matches Ok(d) ==> d.wf(),
    {
        let ghost lv = views_of(lines@);
        let mut entries: Vec<ReferenceSequenceDef> = Vec::new();
        let mut i: usize = 0;
        proof {
            assert(lv.subrange(0, 0) =~= Seq::<Seq<u8>>::empty());
            assert(dict_view(entries@) =~= Seq::<RefSeqModel>::empty());
        }
        while i < lines.len()
            invariant
                i <= lines@.len(),
                lv == views_of(lines@),
                lv.len() == lines@.len(),
                spec_build(lv.subrange(0, i as int)) == Ok::<Seq<RefSeqModel>, BuildError>(
                    dict_view(entries@),
                ),
            decreases lines@.len() - i,
        {
            let ghost cur = dict_view(entries@);
            let ghost prefix = lv.subrange(0, i + 1);
            proof {
                assert(prefix.subrange(0, i as int) =~= lv.subrange(0, i as int));
                assert(prefix[i as int] == lv[i as int]);
                assert(lines@[i as int]@ == lv[i as int]);
            }
            let fields = split_bytes(lines[i].as_slice(), TAB);
            let ghost fs = spec_split(lv[i as int], TAB);
            proof {
                assert(views_of(fields@) == fs);
                assert(fields@.len() == fs.len());
            }
            if fields.len() < 2 {
                proof {
                    assert(spec_build(prefix) == Err::<Seq<RefSeqModel>, BuildError>(
                        BuildError::MissingField,
                    ));
                    lemma_spec_build_prefix_err(lv, i + 1, BuildError::MissingField);
                }
                return Err(BuildError::MissingField);
            }
            proof {
                assert(fields@[1]@ == fs[1]);
            }
            let parsed = parse_u64(fields[1].as_slice());
            let length: u64 = match parsed {
                None => {
                    proof {
                        assert(spec_build(prefix) == Err::<Seq<RefSeqModel>, BuildError>(
                            BuildError::InvalidLength,
                        ));
                        lemma_spec_build_prefix_err(lv, i + 1, BuildError::InvalidLength);
                    }
                    return Err(BuildError::InvalidLength);
                },
                Some(v) => v,
            };
            if length == 0 {
                proof {
                    assert(spec_build(prefix) == Err::<Seq<RefSeqModel>, BuildError>(
                        BuildError::InvalidLength,
                    ));
                    lemma_spec_build_prefix_err(lv, i + 1, BuildError::InvalidLength);
                }
                return Err(BuildError::InvalidLength);
            }
            proof {
                assert(fields@[0]@ == fs[0]);
            }
            if find_name(&entries, fields[0].as_slice()).is_some() {
                proof {
                    assert(spec_build(prefix) == Err::<Seq<RefSeqModel>, BuildError>(
                        BuildError::DuplicateName,
                    ));
                    lemma_spec_build_prefix_err(lv, i + 1, BuildError::DuplicateName);
                }
                return Err(BuildError::DuplicateName);
            }
            let name = clone_bytes(&fields[0]);
            let ghost prev = entries@;
            entries.push(ReferenceSequenceDef { name, length });
            i = i + 1;
            proof {
                let r = RefSeqModel { name: fs[0], length: length as int };
                assert(dict_view(entries@) =~= dict_view(prev) + seq![r]);
                assert(dict_view(entries@) =~= cur.push(r));
                assert(spec_sizes_line(lv[i - 1]) == Ok::<RefSeqModel, BuildError>(r));
                assert(spec_build(lv.subrange(0, i as int)) == Ok::<Seq<RefSeqModel>, BuildError>(
                    dict_view(entries@),
                ));
            }
        }
        proof {
            assert(lv.subrange(0, lv.len() as int) =~= lv);
            lemma_spec_build_wf(lv);
        }
        Ok(ReferenceDictionary { entries })
    }

    /// Builds the dictionary from the whole sizes text.
    pub fn build_from_text(text: &[u8]) -> (r: Result<ReferenceDictionary, BuildError>)
        ensures
            build_result_view(r) == spec_build(spec_lines(text@)),
            r matches Ok(d) ==> d.wf(),
    {
        let lines = split_lines(text);
        ReferenceDictionary::build_from_lines(&lines)
    }
}

} // verus!
