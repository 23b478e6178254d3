//! Rfam annotation records and the filter-join over the two input files.
//!
//! The identifier file is tab-separated with a header row; the first column
//! of every later row is an identifier.  The annotation file is tab-separated
//! with no header and exactly nine columns per row.  Parsing is fail-fast: a
//! malformed row in either file fails the whole operation, and rows are never
//! skipped or repaired.

use vstd::prelude::*;
use crate::groups::AnnotationMap;
use crate::idset::IdentifierSet;
use crate::join::spec_join;
use crate::num::{is_float_text, spec_parse_u32, check_float_text, parse_u32_text};
use crate::text::{spec_split, spec_lines, split_str, split_lines, lemma_split_nonempty};

verus! {

/// Why a run failed.
#[derive(Clone, Copy, Debug, PartialEq, Eq, Structural)]
pub enum ParseError {
    /// a row of the identifier file whose column count differs from the
    /// header row's
    RaggedIdentifierRow,
    /// an annotation row without exactly nine columns
    AnnotationColumnCount,
    /// an annotation numeric column that does not parse as its declared type
    InvalidNumericField,
}

/// One row of the annotation table, in column order.  The two score columns
/// are floating-point values; their text is kept verbatim, validated against
/// the floating-point literal grammar.
#[derive(Debug, PartialEq, Eq)]
pub struct RfamAnnotation {
    pub urs_identifier: String,
    pub rfam_model_id: String,
    pub score: String,
    pub e_value: String,
    pub sequence_start: u32,
    pub sequence_stop: u32,
    pub model_start: u32,
    pub model_stop: u32,
    pub rfam_model_description: String,
}

/// The mathematical content of one annotation record.
pub ghost struct AnnotationView {
    pub urs_identifier: Seq<char>,
    pub rfam_model_id: Seq<char>,
    pub score: Seq<char>,
    pub e_value: Seq<char>,
    pub sequence_start: u32,
    pub sequence_stop: u32,
    pub model_start: u32,
    pub model_stop: u32,
    pub rfam_model_description: Seq<char>,
}

impl View for RfamAnnotation {
    type V = AnnotationView;

    open spec fn view(&self) -> AnnotationView {
        AnnotationView {
            urs_identifier: self.urs_identifier@,
            rfam_model_id: self.rfam_model_id@,
            score: self.score@,
            e_value: self.e_value@,
            sequence_start: self.sequence_start,
            sequence_stop: self.sequence_stop,
            model_start: self.model_start,
            model_stop: self.model_stop,
            rfam_model_description: self.rfam_model_description@,
        }
    }
}

impl RfamAnnotation {
    /// The score columns hold floating-point literals.
    pub open spec fn wf(&self) -> bool {
        is_float_text(self@.score) && is_float_text(self@.e_value)
    }

    /// A copy with the same content.
    pub fn duplicate(&self) -> (r: RfamAnnotation)
        ensures
            r@ == self@,
    {
        RfamAnnotation {
            urs_identifier: self.urs_identifier.clone(),
            rfam_model_id: self.rfam_model_id.clone(),
            score: self.score.clone(),
            e_value: self.e_value.clone(),
            sequence_start: self.sequence_start,
            sequence_stop: self.sequence_stop,
            model_start: self.model_start,
            model_stop: self.model_stop,
            rfam_model_description: self.rfam_model_description.clone(),
        }
    }
}

/// The views of a vector of records.
pub open spec fn recs_view(g: Seq<RfamAnnotation>) -> Seq<AnnotationView> {
    g.map_values(|a: RfamAnnotation| a@)
}

/// The rows of a file: its non-empty lines, each split at tabs.
pub open spec fn spec_rows(content: Seq<char>) -> Seq<Seq<Seq<char>>> {
    spec_lines(content).map_values(|l: Seq<char>| spec_split(l, '\t'))
}

/// The identifier file is well-formed when every row has as many columns as
/// the header row.
pub open spec fn spec_identifiers_ok(content: Seq<char>) -> bool {
    let rows = spec_rows(content);
    forall|i: int| 1 <= i < rows.len() ==> (#[trigger] rows[i]).len() == rows[0].len()
}

/// The first column of every row after the header.
pub open spec fn spec_identifier_seq(content: Seq<char>) -> Seq<Seq<char>> {
    let rows = spec_rows(content);
    if rows.len() == 0 {
        Seq::empty()
    } else {
        rows.skip(1).map_values(|r: Seq<Seq<char>>| r[0])
    }
}

/// The set of identifiers the loader produces.
pub open spec fn spec_identifier_set(content: Seq<char>) -> Set<Seq<char>> {
    spec_identifier_seq(content).to_set()
}

/// Reads the identifier file: the header row is discarded, and the first
/// column of every later row joins the set.  A row whose column count
/// differs from the header's fails the whole load.
pub fn load_identifiers(content: &str) -> (r: Result<IdentifierSet, ParseError>)
    ensures
        match r {
            Ok(ids) => spec_identifiers_ok(content@) && ids.wf() && ids@ == spec_identifier_set(
                content@,
            ),
            Err(e) => !spec_identifiers_ok(content@) && e == ParseError::RaggedIdentifierRow,
        },
{
    let ghost rows = spec_rows(content@);
    let lines = split_lines(content);
    let mut ids = IdentifierSet::new();
    if lines.len() == 0 {
        proof {
            assert(lines.deep_view().len() == lines@.len());
            assert(spec_lines(content@).len() == 0);
            assert(rows.len() == 0);
            assert(spec_identifier_seq(content@) =~= Seq::<Seq<char>>::empty());
            assert(spec_identifier_set(content@) =~= Set::<Seq<char>>::empty());
        }
        return Ok(ids);
    }
    let header = split_str(lines[0].as_str(), '\t');
    proof {
        assert(lines.deep_view()[0] == lines[0]@);
        assert(rows[0] == spec_split(lines[0]@, '\t'));
    }
    let expected = header.len();
    let mut i: usize = 1;
    while i < lines.len()
        invariant
            1 <= i <= lines.len(),
            lines.deep_view() == spec_lines(content@),
            rows == spec_rows(content@),
            rows.len() == lines.len(),
            expected == rows[0].len(),
            ids.wf(),
            forall|k: int| 1 <= k < i ==> (#[trigger] rows[k]).len() == rows[0].len(),
            ids@ == rows.subrange(1, i as int).map_values(|r: Seq<Seq<char>>| r[0]).to_set(),
        decreases lines.len() - i,
    {
        let fields = split_str(lines[i].as_str(), '\t');
        proof {
            assert(lines.deep_view()[i as int] == lines[i as int]@);
            assert(rows[i as int] == spec_split(lines[i as int]@, '\t'));
        }
        if fields.len() != expected {
            return Err(ParseError::RaggedIdentifierRow);
        }
        proof {
            lemma_split_nonempty(lines[i as int]@, '\t');
            assert(fields.deep_view()[0] == fields[0]@);
        }
        let ghost prev_vals = rows.subrange(1, i as int).map_values(|r: Seq<Seq<char>>| r[0]);
        let first = fields[0].clone();
        ids.insert(first);
        proof {
            assert(rows.subrange(1, i + 1).drop_last() =~= rows.subrange(1, i as int));
            assert(rows.subrange(1, i + 1).map_values(|r: Seq<Seq<char>>| r[0]) =~= prev_vals.push(
                rows[i as int][0],
            ));
            crate::idset::lemma_push_to_set(prev_vals, rows[i as int][0]);
        }
        i += 1;
    }
    proof {
        assert(rows.subrange(1, rows.len() as int) =~= rows.skip(1));
    }
    Ok(ids)
}

/// An identifier file with no rows beyond its header yields the empty set,
/// so the whole filter-join yields the empty mapping whatever the
/// annotation file holds.
pub proof fn lemma_header_only_identifiers(content: Seq<char>)
    requires
        spec_rows(content).len() <= 1,
    ensures
        spec_identifier_set(content) =~= Set::<Seq<char>>::empty(),
{
    let rows = spec_rows(content);
    if rows.len() == 0 {
        assert(spec_identifier_seq(content) == Seq::<Seq<char>>::empty());
    } else {
        assert(rows.skip(1) =~= Seq::<Seq<Seq<char>>>::empty());
        assert(spec_identifier_seq(content) =~= Seq::<Seq<char>>::empty());
    }
    assert(spec_identifier_seq(content).to_set() =~= Set::<Seq<char>>::empty());
}

/// With a header-only identifier file the result mapping is empty,
/// whatever records the annotation file holds.
pub proof fn lemma_header_only_empty_result(identifiers: Seq<char>, rows: Seq<AnnotationView>)
    requires
        spec_rows(identifiers).len() <= 1,
    ensures
        spec_join(rows, spec_identifier_set(identifiers)).keys == Seq::<Seq<char>>::empty(),
        spec_join(rows, spec_identifier_set(identifiers)).groups =~= Map::<
            Seq<char>,
            Seq<AnnotationView>,
        >::empty(),
{
    lemma_header_only_identifiers(identifiers);
    crate::join::lemma_join_empty_ids(rows);
}

/// What a row must fail with, if anything: the column count is checked
/// first, then the numeric columns.
pub open spec fn spec_row_error(fields: Seq<Seq<char>>) -> Option<ParseError> {
    if fields.len() != 9 {
        Some(ParseError::AnnotationColumnCount)
    } else if !(is_float_text(fields[2]) && is_float_text(fields[3]) && spec_parse_u32(fields[4])
        is Some && spec_parse_u32(fields[5]) is Some && spec_parse_u32(fields[6]) is Some
        && spec_parse_u32(fields[7]) is Some) {
        Some(ParseError::InvalidNumericField)
    } else {
        None
    }
}

/// The record a well-formed row parses to.
pub open spec fn spec_row_view(fields: Seq<Seq<char>>) -> AnnotationView {
    AnnotationView {
        urs_identifier: fields[0],
        rfam_model_id: fields[1],
        score: fields[2],
        e_value: fields[3],
        sequence_start: spec_parse_u32(fields[4])->Some_0,
        sequence_stop: spec_parse_u32(fields[5])->Some_0,
        model_start: spec_parse_u32(fields[6])->Some_0,
        model_stop: spec_parse_u32(fields[7])->Some_0,
        rfam_model_description: fields[8],
    }
}

/// The outcome of parsing a whole annotation file: the records of all rows
/// in file order, or the error of the first malformed row.
pub open spec fn spec_annotations(rows: Seq<Seq<Seq<char>>>) -> Result<
    Seq<AnnotationView>,
    ParseError,
>
    decreases rows.len(),
{
    if rows.len() == 0 {
        Ok(Seq::empty())
    } else {
        match spec_annotations(rows.drop_last()) {
            Err(e) => Err(e),
            Ok(vs) => match spec_row_error(rows.last()) {
                Some(e) => Err(e),
                None => Ok(vs.push(spec_row_view(rows.last()))),
            },
        }
    }
}

/// Parsing a whole annotation file succeeds exactly when every row is
/// well-formed, and then yields every row's record in file order.
pub proof fn lemma_annotations_characterization(rows: Seq<Seq<Seq<char>>>)
    ensures
        spec_annotations(rows) is Ok <==> forall|i: int|
            0 <= i < rows.len() ==> spec_row_error(#[trigger] rows[i]) is None,
        spec_annotations(rows) is Ok ==> spec_annotations(rows)->Ok_0 == rows.map_values(
            |r: Seq<Seq<char>>| spec_row_view(r),
        ),
    decreases rows.len(),
{
    if rows.len() == 0 {
        assert(spec_annotations(rows)->Ok_0 =~= rows.map_values(
            |r: Seq<Seq<char>>| spec_row_view(r),
        ));
    } else {
        let d = rows.drop_last();
        lemma_annotations_characterization(d);
        if spec_annotations(rows) is Ok {
            assert forall|i: int| 0 <= i < rows.len() implies spec_row_error(
                #[trigger] rows[i],
            ) is None by {
                if i < rows.len() - 1 {
                    assert(d[i] == rows[i]);
                }
            }
            assert(spec_annotations(rows)->Ok_0 =~= rows.map_values(
                |r: Seq<Seq<char>>| spec_row_view(r),
            ));
        } else {
            assert(spec_annotations(d) is Err || spec_row_error(rows.last()) is Some);
            if spec_annotations(d) is Err {
                let i = choose|i: int| 0 <= i < d.len() && spec_row_error(#[trigger] d[i]) is Some;
                assert(spec_row_error(rows[i]) is Some);
            } else {
                assert(spec_row_error(rows[rows.len() - 1]) is Some);
            }
        }
    }
}

/// Parses one annotation row.
fn parse_row(fields: Vec<String>) -> (r: Result<RfamAnnotation, ParseError>)
    ensures
        match r {
            Ok(a) => spec_row_error(fields.deep_view()) is None && a@ == spec_row_view(
                fields.deep_view(),
            ) && a.wf(),
            Err(e) => spec_row_error(fields.deep_view()) == Some(e),
        },
{
    let ghost fv = fields.deep_view();
    if fields.len() != 9 {
        return Err(ParseError::AnnotationColumnCount);
    }
    proof {
        assert forall|k: int| 0 <= k < 9 implies fv[k] == fields@[k]@ by {}
    }
    if !check_float_text(fields[2].as_str()) {
        return Err(ParseError::InvalidNumericField);
    }
    if !check_float_text(fields[3].as_str()) {
        return Err(ParseError::InvalidNumericField);
    }
    let sequence_start = match parse_u32_text(fields[4].as_str()) {
        Some(v) => v,
        None => {
            return Err(ParseError::InvalidNumericField);
        },
    };
    let sequence_stop = match parse_u32_text(fields[5].as_str()) {
        Some(v) => v,
        None => {
            return Err(ParseError::InvalidNumericField);
        },
    };
    let model_start = match parse_u32_text(fields[6].as_str()) {
        Some(v) => v,
        None => {
            return Err(ParseError::InvalidNumericField);
        },
    };
    let model_stop = match parse_u32_text(fields[7].as_str()) {
        Some(v) => v,
        None => {
            return Err(ParseError::InvalidNumericField);
        },
    };
    let mut it = fields;
    let rfam_model_description = it.remove(8);
    let e_value = it.remove(3);
    let score = it.remove(2);
    let rfam_model_id = it.remove(1);
    let urs_identifier = it.remove(0);
    let a = RfamAnnotation {
        urs_identifier,
        rfam_model_id,
        score,
        e_value,
        sequence_start,
        sequence_stop,
        model_start,
        model_stop,
        rfam_model_description,
    };
    proof {
        assert(a@ == spec_row_view(fv));
    }
    Ok(a)
}

/// Parses the annotation file: every non-empty line is a row of nine
/// columns.  The first malformed row fails the whole parse.
pub fn parse_annotations(content: &str) -> (r: Result<Vec<RfamAnnotation>, ParseError>)
    ensures
        match r {
            Ok(recs) => spec_annotations(spec_rows(content@)) == Ok::<_, ParseError>(
                recs_view(recs@),
            ) && forall|k: int| 0 <= k < recs@.len() ==> (#[trigger] recs@[k]).wf(),
            Err(e) => spec_annotations(spec_rows(content@)) == Err::<Seq<AnnotationView>, _>(e),
        },
{
    let ghost rows = spec_rows(content@);
    let lines = split_lines(content);
    let mut recs: Vec<RfamAnnotation> = Vec::new();
    let mut i: usize = 0;
    proof {
        assert(rows.take(0) =~= Seq::<Seq<Seq<char>>>::empty());
        assert(recs_view(recs@) =~= Seq::<AnnotationView>::empty());
    }
    while i < lines.len()
        invariant
            0 <= i <= lines.len(),
            lines.deep_view() == spec_lines(content@),
            rows == spec_rows(content@),
            rows.len() == lines.len(),
            spec_annotations(rows.take(i as int)) == Ok::<_, ParseError>(recs_view(recs@)),
            forall|k: int| 0 <= k < recs@.len() ==> (#[trigger] recs@[k]).wf(),
        decreases lines.len() - i,
    {
        let fields = split_str(lines[i].as_str(), '\t');
        proof {
            assert(lines.deep_view()[i as int] == lines[i as int]@);
            assert(rows[i as int] == spec_split(lines[i as int]@, '\t'));
            assert(rows.take(i + 1).drop_last() =~= rows.take(i as int));
            assert(rows.take(i + 1).last() == rows[i as int]);
        }
        let ghost prev = recs_view(recs@);
        match parse_row(fields) {
            Ok(a) => {
                recs.push(a);
                proof {
                    assert(recs_view(recs@) =~= prev.push(a@));
                }
            },
            Err(e) => {
                proof {
                    lemma_annotations_error_extends(rows, i + 1);
                }
                return Err(e);
            },
        }
        i += 1;
    }
    proof {
        assert(rows.take(rows.len() as int) =~= rows);
    }
    Ok(recs)
}

/// A parse that has already failed on a prefix of the rows fails on the
/// whole file with the same error.
proof fn lemma_annotations_error_extends(rows: Seq<Seq<Seq<char>>>, i: int)
    requires
        0 <= i <= rows.len(),
        spec_annotations(rows.take(i)) is Err,
    ensures
        spec_annotations(rows) == spec_annotations(rows.take(i)),
    decreases rows.len() - i,
{
    if i < rows.len() {
        assert(rows.take(i + 1).drop_last() =~= rows.take(i));
        lemma_annotations_error_extends(rows, i + 1);
    } else {
        assert(rows.take(i) =~= rows);
    }
}

/// Filters the records to those whose identifier is in the set, grouping
/// them by identifier: group order is first occurrence, record order within
/// a group is file order.
pub fn filter_join(records: &Vec<RfamAnnotation>, ids: &IdentifierSet) -> (r: AnnotationMap)
    ensures
        r.wf(),
        r.key_seq() == spec_join(recs_view(records@), ids@).keys,
        r@ == spec_join(recs_view(records@), ids@).groups,
{
    let ghost rows = recs_view(records@);
    let mut out = AnnotationMap::new();
    let mut i: usize = 0;
    proof {
        assert(rows.take(0) =~= Seq::<AnnotationView>::empty());
    }
    while i < records.len()
        invariant
            0 <= i <= records.len(),
            rows == recs_view(records@),
            rows.len() == records.len(),
            out.wf(),
            out.key_seq() == spec_join(rows.take(i as int), ids@).keys,
            out@ == spec_join(rows.take(i as int), ids@).groups,
        decreases records.len() - i,
    {
        proof {
            assert(rows.take(i + 1).drop_last() =~= rows.take(i as int));
            assert(rows.take(i + 1).last() == rows[i as int]);
            assert(rows[i as int] == records@[i as int]@);
        }
        let rec = &records[i];
        if ids.contains(rec.urs_identifier.as_str()) {
            let copy = rec.duplicate();
            out.add_record(copy);
        }
        i += 1;
    }
    proof {
        assert(rows.take(rows.len() as int) =~= rows);
    }
    out
}

/// Parses the identifier file, then the annotation file, and returns the
/// grouped records whose identifier is in the identifier set.  Any
/// malformed row in either file fails the whole run instead.
pub fn parse(identifiers_content: &str, annotations_content: &str) -> (r: Result<
    AnnotationMap,
    ParseError,
>)
    ensures
        match r {
            Ok(m) => {
                &&& spec_identifiers_ok(identifiers_content@)
                &&& spec_annotations(spec_rows(annotations_content@)) is Ok
                &&& m.wf()
                &&& m.key_seq() == spec_join(
                    spec_annotations(spec_rows(annotations_content@))->Ok_0,
                    spec_identifier_set(identifiers_content@),
                ).keys
                &&& m@ == spec_join(
                    spec_annotations(spec_rows(annotations_content@))->Ok_0,
                    spec_identifier_set(identifiers_content@),
                ).groups
            },
            Err(e) => {
                if !spec_identifiers_ok(identifiers_content@) {
                    e == ParseError::RaggedIdentifierRow
                } else {
                    spec_annotations(spec_rows(annotations_content@)) == Err::<
                        Seq<AnnotationView>,
                        _,
                    >(e)
                }
            },
        },
{
    let ids = match load_identifiers(identifiers_content) {
        Ok(ids) => ids,
        Err(e) => {
            return Err(e);
        },
    };
    let records = match parse_annotations(annotations_content) {
        Ok(recs) => recs,
        Err(e) => {
            return Err(e);
        },
    };
    Ok(filter_join(&records, &ids))
}

} // verus!
