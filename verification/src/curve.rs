//! The curves: which frames give a record, and how a curve is written.

use crate::extract::with_record;
use crate::event::XmlAttributeView;
use crate::frame::{Frame, FrameView, PgpView};
use crate::number::{number_text, write_number};
use crate::reading::{number_read, read_number};
use crate::text::{
    decimal, decimal_text, first_field, first_field_text, pad_text, padded, read_unsigned,
    parse_unsigned, text_is,
};
use vstd::prelude::*;

verus! {

/// The curves that are drawn from the timeline.
#[derive(Debug, Clone, Copy, PartialEq, Eq, Structural)]
pub enum CurveKind {
    Glare,
    SoftFocus,
    DepthOfField,
    BrightRate,
}

/// What a frame gives to a curve, as found in the document: the index of the
/// frame and the texts of the numbers, in the order of the record.
#[derive(Debug, Clone)]
pub struct CurveSample {
    pub frame_no: String,
    pub fields: Vec<String>,
}

/// The model of a sample.
pub struct CurveSampleView {
    pub frame_no: Seq<char>,
    pub fields: Seq<Seq<char>>,
}

impl View for CurveSample {
    type V = CurveSampleView;

    open spec fn view(&self) -> CurveSampleView {
        CurveSampleView { frame_no: self.frame_no@, fields: self.fields.deep_view() }
    }
}

impl DeepView for CurveSample {
    type V = CurveSampleView;

    open spec fn deep_view(&self) -> CurveSampleView {
        self@
    }
}

/// The first generic parameter with a given name.
pub open spec fn first_named(params: Seq<PgpView>, name: Seq<char>) -> Option<PgpView>
    decreases params.len(),
{
    if params.len() == 0 {
        None
    } else if params[0].name == name {
        Some(params[0])
    } else {
        first_named(params.skip(1), name)
    }
}

/// What a frame gives to a curve. A frame gives to the glare, soft focus and
/// depth of field curves if it has a record of that kind, and then its first;
/// to the brightness rate curve if it has a generic parameter `bgbout`, and
/// then the first field of the value of its first one.
pub open spec fn sample_of(kind: CurveKind, frame: FrameView) -> Option<CurveSampleView> {
    match kind {
        CurveKind::Glare => if frame.p_glare.len() > 0 {
            Some(
                CurveSampleView {
                    frame_no: frame.no,
                    fields: seq![
                        frame.p_glare[0].threshold,
                        frame.p_glare[0].subtraction_color,
                        frame.p_glare[0].composition_intensity,
                    ],
                },
            )
        } else {
            None
        },
        CurveKind::SoftFocus => if frame.p_softfocus.len() > 0 {
            Some(
                CurveSampleView { frame_no: frame.no, fields: seq![frame.p_softfocus[0].intensity] },
            )
        } else {
            None
        },
        CurveKind::DepthOfField => if frame.p_dof.len() > 0 {
            Some(
                CurveSampleView {
                    frame_no: frame.no,
                    fields: seq![
                        frame.p_dof[0].focus_distance,
                        frame.p_dof[0].near_distance,
                        frame.p_dof[0].far_distance,
                        frame.p_dof[0].blur_max_far,
                        frame.p_dof[0].blur_edge,
                    ],
                },
            )
        } else {
            None
        },
        CurveKind::BrightRate => match first_named(frame.p_gp, "bgbout"@) {
            Some(param) => Some(
                CurveSampleView { frame_no: frame.no, fields: seq![first_field(param.value)] },
            ),
            None => None,
        },
    }
}

/// What the frames of a timeline give to a curve, in the order of the
/// timeline.
pub open spec fn samples_of(kind: CurveKind, frames: Seq<FrameView>) -> Seq<CurveSampleView>
    decreases frames.len(),
{
    if frames.len() == 0 {
        Seq::empty()
    } else {
        match sample_of(kind, frames.last()) {
            Some(sample) => samples_of(kind, frames.drop_last()).push(sample),
            None => samples_of(kind, frames.drop_last()),
        }
    }
}

/// Finds the value of the first generic parameter `bgbout` of a frame.
fn bright_rate_value(frame: &Frame) -> (value: Option<String>)
    ensures
        value.deep_view() == match first_named(frame@.p_gp, "bgbout"@) {
            Some(param) => Some(param.value),
            None => None,
        },
{
    let mut i: usize = 0;
    assert(frame@.p_gp.skip(0) =~= frame@.p_gp);
    while i < frame.p_gp.len()
        invariant
            i <= frame.p_gp.len(),
            first_named(frame@.p_gp, "bgbout"@) == first_named(
                frame@.p_gp.skip(i as int),
                "bgbout"@,
            ),
        decreases frame.p_gp.len() - i,
    {
        proof {
            let rest = frame@.p_gp.skip(i as int);
            assert(rest[0] == frame.p_gp[i as int]@);
            assert(rest.skip(1) =~= frame@.p_gp.skip(i + 1));
        }
        if text_is(frame.p_gp[i].name.as_str(), "bgbout") {
            return Some(frame.p_gp[i].value.clone());
        }
        i = i + 1;
    }
    None
}

/// What a frame gives to a curve.
pub fn frame_sample(kind: CurveKind, frame: &Frame) -> (sample: Option<CurveSample>)
    ensures
        sample.deep_view() == sample_of(kind, frame@),
{
    let mut fields: Vec<String> = Vec::new();
    match kind {
        CurveKind::Glare => {
            if frame.p_glare.len() == 0 {
                return None;
            }
            let record = &frame.p_glare[0];
            fields.push(record.threshold.clone());
            fields.push(record.subtraction_color.clone());
            fields.push(record.composition_intensity.clone());
            assert(fields.deep_view() =~= sample_of(kind, frame@)->0.fields);
        },
        CurveKind::SoftFocus => {
            if frame.p_softfocus.len() == 0 {
                return None;
            }
            let record = &frame.p_softfocus[0];
            fields.push(record.intensity.clone());
            assert(fields.deep_view() =~= sample_of(kind, frame@)->0.fields);
        },
        CurveKind::DepthOfField => {
            if frame.p_dof.len() == 0 {
                return None;
            }
            let record = &frame.p_dof[0];
            fields.push(record.focus_distance.clone());
            fields.push(record.near_distance.clone());
            fields.push(record.far_distance.clone());
            fields.push(record.blur_max_far.clone());
            fields.push(record.blur_edge.clone());
            assert(fields.deep_view() =~= sample_of(kind, frame@)->0.fields);
        },
        CurveKind::BrightRate => {
            match bright_rate_value(frame) {
                Some(value) => {
                    fields.push(first_field_text(value.as_str()));
                    assert(fields.deep_view() =~= sample_of(kind, frame@)->0.fields);
                },
                None => {
                    return None;
                },
            }
        },
    }
    Some(CurveSample { frame_no: frame.no.clone(), fields })
}

/// What the frames of a timeline give to a curve, in the order of the
/// timeline.
pub fn curve_samples(kind: CurveKind, frames: &Vec<Frame>) -> (samples: Vec<CurveSample>)
    ensures
        samples.deep_view() == samples_of(kind, frames.deep_view()),
{
    let mut samples: Vec<CurveSample> = Vec::new();
    let mut i: usize = 0;
    assert(samples.deep_view() =~= samples_of(kind, frames.deep_view().take(0)));
    while i < frames.len()
        invariant
            i <= frames.len(),
            samples.deep_view() == samples_of(kind, frames.deep_view().take(i as int)),
        decreases frames.len() - i,
    {
        proof {
            let next = frames.deep_view().take(i + 1);
            assert(next.drop_last() =~= frames.deep_view().take(i as int));
            assert(next.last() == frames[i as int]@);
        }
        match frame_sample(kind, &frames[i]) {
            Some(sample) => {
                let ghost before = samples.deep_view();
                samples.push(sample);
                assert(samples.deep_view() =~= before.push(sample@));
            },
            None => {},
        }
        i = i + 1;
    }
    assert(frames.deep_view().take(i as int) =~= frames.deep_view());
    samples
}

/// A sample with its numbers read: the index of the frame as found in the
/// document, and for each number the binary floating-point number of 32 bits
/// that is nearest to what its text writes, given by its bits, or `None`
/// where the text writes no number.
#[derive(Debug, Clone)]
pub struct CurveRow {
    pub frame_no: String,
    pub values: Vec<Option<u32>>,
}

/// The model of a row.
pub struct CurveRowView {
    pub frame_no: Seq<char>,
    pub values: Seq<Option<u32>>,
}

impl View for CurveRow {
    type V = CurveRowView;

    open spec fn view(&self) -> CurveRowView {
        CurveRowView { frame_no: self.frame_no@, values: self.values.deep_view() }
    }
}

impl DeepView for CurveRow {
    type V = CurveRowView;

    open spec fn deep_view(&self) -> CurveRowView {
        self@
    }
}

/// The row of a sample: its index, and each of its numbers read.
pub open spec fn row_of(sample: CurveSampleView) -> CurveRowView {
    CurveRowView {
        frame_no: sample.frame_no,
        values: sample.fields.map_values(|field: Seq<char>| number_read(field)),
    }
}

/// The rows of the samples of a curve.
pub open spec fn rows_of(samples: Seq<CurveSampleView>) -> Seq<CurveRowView> {
    samples.map_values(|sample: CurveSampleView| row_of(sample))
}

/// Reads the numbers of a sample.
pub fn sample_row(sample: &CurveSample) -> (row: CurveRow)
    ensures
        row@ == row_of(sample@),
{
    let mut values: Vec<Option<u32>> = Vec::new();
    let mut j: usize = 0;
    while j < sample.fields.len()
        invariant
            j <= sample.fields.len(),
            values.deep_view() =~= row_of(sample@).values.take(j as int),
        decreases sample.fields.len() - j,
    {
        let number = read_number(sample.fields[j].as_str());
        let ghost before = values.deep_view();
        values.push(number);
        assert(values.deep_view() =~= before.push(number));
        j = j + 1;
    }
    let row = CurveRow { frame_no: sample.frame_no.clone(), values };
    assert(row@.values =~= row_of(sample@).values);
    row
}

/// Reads the numbers of the samples of a curve.
pub fn curve_rows(samples: &Vec<CurveSample>) -> (rows: Vec<CurveRow>)
    ensures
        rows.deep_view() == rows_of(samples.deep_view()),
{
    let mut rows: Vec<CurveRow> = Vec::new();
    let mut i: usize = 0;
    while i < samples.len()
        invariant
            i <= samples.len(),
            rows.deep_view() =~= rows_of(samples.deep_view()).take(i as int),
        decreases samples.len() - i,
    {
        let row = sample_row(&samples[i]);
        let ghost before = rows.deep_view();
        rows.push(row);
        assert(rows.deep_view() =~= before.push(row@));
        i = i + 1;
    }
    rows
}

/// Why a curve was not written.
#[derive(Debug, Clone, Copy, PartialEq, Eq, Structural)]
pub enum DataError {
    /// A text that a record needs as a number writes no number.
    Number,
    /// The index of a frame is no 32-bit unsigned number.
    FrameIndex,
}

/// The frames of the document are counted in hundredths of a key of a curve.
pub const FRAMES_PER_KEY: u32 = 100;

/// The key of a curve that a frame index falls on.
pub open spec fn curve_key(index: u32) -> nat {
    (index / FRAMES_PER_KEY) as nat
}

/// A key holds a hundred frames: those from a hundred times the key on.
pub proof fn law_key_rounds_down(index: u32)
    ensures
        curve_key(index) * FRAMES_PER_KEY <= index < (curve_key(index) + 1) * FRAMES_PER_KEY,
{
}

/// The key of a curve that the index of a frame falls on, where the index can
/// be read.
pub open spec fn frame_key_of(frame_no: Seq<char>) -> Option<nat> {
    match parse_unsigned(frame_no) {
        Some(index) => Some(curve_key(index)),
        None => None,
    }
}

/// Reads the index of a frame and gives the key of a curve that it falls on.
pub fn frame_key(frame_no: &str) -> (key: Option<u32>)
    ensures
        match frame_key_of(frame_no@) {
            Some(expected) => key matches Some(k) && k == expected,
            None => key is None,
        },
{
    match read_unsigned(frame_no) {
        Some(index) => Some(index / FRAMES_PER_KEY),
        None => None,
    }
}

/// Whether every number of a row was read.
pub open spec fn all_read(values: Seq<Option<u32>>) -> bool {
    forall|i: int| 0 <= i < values.len() ==> (#[trigger] values[i]) is Some
}

/// What stands in the way of the record of a row: first a number that was not
/// read, then an index that cannot be read.
pub open spec fn row_error(row: CurveRowView) -> Option<DataError> {
    if !all_read(row.values) {
        Some(DataError::Number)
    } else if parse_unsigned(row.frame_no) is None {
        Some(DataError::FrameIndex)
    } else {
        None
    }
}

/// The first thing that stands in the way of the records of some rows.
pub open spec fn first_error(rows: Seq<CurveRowView>) -> Option<DataError>
    decreases rows.len(),
{
    if rows.len() == 0 {
        None
    } else {
        match first_error(rows.drop_last()) {
            Some(error) => Some(error),
            None => row_error(rows.last()),
        }
    }
}

/// The numbers of a record: each written with six digits behind the point,
/// filled up to the width of a field and followed by a comma.
pub open spec fn fields_text(values: Seq<Option<u32>>) -> Seq<char>
    decreases values.len(),
{
    if values.len() == 0 {
        Seq::empty()
    } else {
        fields_text(values.drop_last()) + match values.last() {
            Some(bits) => padded(number_text(bits)) + ","@,
            None => Seq::empty(),
        }
    }
}

/// The record of a row: the key of the curve, the numbers, the end of the
/// line.
pub open spec fn record_text(row: CurveRowView) -> Seq<char> {
    decimal(curve_key(parse_unsigned(row.frame_no).unwrap())) + ","@ + fields_text(row.values)
        + "\r\n"@
}

/// The records of some rows, one behind the other.
pub open spec fn records_text(rows: Seq<CurveRowView>) -> Seq<char>
    decreases rows.len(),
{
    if rows.len() == 0 {
        Seq::empty()
    } else {
        records_text(rows.drop_last()) + record_text(rows.last())
    }
}

/// The first line of a curve, which names its kind.
pub open spec fn kind_label(kind: CurveKind) -> Seq<char> {
    match kind {
        CurveKind::Glare => "FCURVE_TYPE_GLARE"@,
        CurveKind::SoftFocus => "FCURVE_TYPE_SOFTFOCUS"@,
        CurveKind::DepthOfField => "FCURVE_TYPE_DOF"@,
        CurveKind::BrightRate => "FCURVE_TYPE_BRIGHT_RATE"@,
    }
}

/// The three lines that a curve begins with: its kind, how it is
/// interpolated, and the number of its records.
pub open spec fn header_text(label: Seq<char>, count: nat) -> Seq<char> {
    label + ",\r\n"@ + "FCURVE_INTERPOLATION_CONSTRAINT,\r\n"@ + decimal(count) + ",\r\n"@
}

/// A curve as text: its header and its records.
pub open spec fn curve_text(kind: CurveKind, rows: Seq<CurveRowView>) -> Seq<char> {
    header_text(kind_label(kind), rows.len()) + records_text(rows)
}

/// The z-range curve, which is the same for every timeline.
pub open spec fn zrange_text() -> Seq<char> {
    header_text("FCURVE_TYPE_ZRANGE"@, 1) + "1,1.000000,9000000.000000\r\n"@
}

/// The curve of the brightness and contrast adjustment, which is the same
/// for every timeline.
pub open spec fn bcadjustments_text() -> Seq<char> {
    header_text("FCURVE_TYPE_BCADJUSTMENTS"@, 1) + "0,0.00000,1.250000\r\n"@
}

/// The first line of a curve.
pub fn kind_label_text(kind: CurveKind) -> (label: &'static str)
    ensures
        label@ == kind_label(kind),
{
    match kind {
        CurveKind::Glare => "FCURVE_TYPE_GLARE",
        CurveKind::SoftFocus => "FCURVE_TYPE_SOFTFOCUS",
        CurveKind::DepthOfField => "FCURVE_TYPE_DOF",
        CurveKind::BrightRate => "FCURVE_TYPE_BRIGHT_RATE",
    }
}

/// Writes the header of a curve.
pub fn write_header(label: &str, count: usize) -> (text: String)
    ensures
        text@ == header_text(label@, count as nat),
{
    let mut text = label.to_owned();
    text.append(",\r\n");
    text.append("FCURVE_INTERPOLATION_CONSTRAINT,\r\n");
    text.append(decimal_text(count as u128).as_str());
    text.append(",\r\n");
    text
}

/// Writes the numbers of a record, if all of them were read.
pub fn write_fields(values: &Vec<Option<u32>>) -> (text: Option<String>)
    ensures
        (text is Some) == all_read(values.deep_view()),
        text matches Some(t) ==> t@ == fields_text(values.deep_view()),
{
    let mut text = String::new();
    let mut i: usize = 0;
    assert(fields_text(values.deep_view().take(0)) =~= Seq::empty());
    while i < values.len()
        invariant
            i <= values.len(),
            all_read(values.deep_view().take(i as int)),
            text@ == fields_text(values.deep_view().take(i as int)),
        decreases values.len() - i,
    {
        proof {
            let next = values.deep_view().take(i + 1);
            assert(next.drop_last() =~= values.deep_view().take(i as int));
            assert(next.last() == values[i as int]);
        }
        match values[i] {
            Some(bits) => {
                let field = pad_text(write_number(bits).as_str());
                text.append(field.as_str());
                text.append(",");
                proof {
                    let next = values.deep_view().take(i + 1);
                    assert(all_read(next)) by {
                        assert forall|j: int| 0 <= j < next.len() implies (#[trigger] next[j])
                            is Some by {
                            if j < i {
                                assert(next[j] == values.deep_view().take(i as int)[j]);
                            }
                        }
                    }
                    assert(text@ =~= fields_text(next));
                }
            },
            None => {
                assert(values.deep_view()[i as int] is None);
                return None;
            },
        }
        i = i + 1;
    }
    assert(values.deep_view().take(i as int) =~= values.deep_view());
    Some(text)
}

/// Writes the record of a row.
pub fn write_record(row: &CurveRow) -> (text: Result<String, DataError>)
    ensures
        match row_error(row@) {
            Some(error) => text == Err::<String, DataError>(error),
            None => text matches Ok(t) && t@ == record_text(row@),
        },
{
    let fields = match write_fields(&row.values) {
        Some(fields) => fields,
        None => {
            return Err(DataError::Number);
        },
    };
    let key = match frame_key(row.frame_no.as_str()) {
        Some(key) => key,
        None => {
            return Err(DataError::FrameIndex);
        },
    };
    let mut text = decimal_text(key as u128);
    text.append(",");
    text.append(fields.as_str());
    text.append("\r\n");
    Ok(text)
}

/// Writes a curve: its header and one record for each row. Nothing is
/// written if a row has a number that was not read or an index that cannot
/// be read.
pub fn encode_curve(kind: CurveKind, rows: &Vec<CurveRow>) -> (text: Result<String, DataError>)
    ensures
        match first_error(rows.deep_view()) {
            Some(error) => text == Err::<String, DataError>(error),
            None => text matches Ok(t) && t@ == curve_text(kind, rows.deep_view()),
        },
{
    let mut text = write_header(kind_label_text(kind), rows.len());
    let mut i: usize = 0;
    assert(records_text(rows.deep_view().take(0)) =~= Seq::empty());
    while i < rows.len()
        invariant
            i <= rows.len(),
            first_error(rows.deep_view().take(i as int)) is None,
            text@ == header_text(kind_label(kind), rows.len() as nat) + records_text(
                rows.deep_view().take(i as int),
            ),
        decreases rows.len() - i,
    {
        proof {
            let next = rows.deep_view().take(i + 1);
            assert(next.drop_last() =~= rows.deep_view().take(i as int));
            assert(next.last() == rows[i as int]@);
        }
        match write_record(&rows[i]) {
            Ok(record) => {
                text.append(record.as_str());
                assert(text@ =~= header_text(kind_label(kind), rows.len() as nat) + records_text(
                    rows.deep_view().take(i + 1),
                ));
            },
            Err(error) => {
                proof {
                    lemma_first_error_stays(rows.deep_view(), i + 1);
                }
                return Err(error);
            },
        }
        i = i + 1;
    }
    assert(rows.deep_view().take(i as int) =~= rows.deep_view());
    Ok(text)
}

/// An error among the first rows is the first error of all rows.
proof fn lemma_first_error_stays(rows: Seq<CurveRowView>, i: int)
    requires
        0 <= i <= rows.len(),
        first_error(rows.take(i)) is Some,
    ensures
        first_error(rows) == first_error(rows.take(i)),
    decreases rows.len() - i,
{
    if i == rows.len() {
        assert(rows.take(i) =~= rows);
    } else {
        assert(rows.take(i + 1).drop_last() =~= rows.take(i));
        lemma_first_error_stays(rows, i + 1);
    }
}

/// A timeline gives at most one sample for each of its frames to a curve.
pub proof fn law_at_most_one_sample_per_frame(kind: CurveKind, frames: Seq<FrameView>)
    ensures
        samples_of(kind, frames).len() <= frames.len(),
    decreases frames.len(),
{
    if frames.len() > 0 {
        law_at_most_one_sample_per_frame(kind, frames.drop_last());
    }
}

/// A timeline of which no frame gives a sample to a curve gives no sample to
/// it, and a timeline of which a frame gives one gives at least one.
pub proof fn law_samples_come_from_frames(kind: CurveKind, frames: Seq<FrameView>)
    ensures
        (samples_of(kind, frames).len() == 0) == (forall|i: int|
            0 <= i < frames.len() ==> sample_of(kind, #[trigger] frames[i]) is None),
    decreases frames.len(),
{
    if frames.len() > 0 {
        let front = frames.drop_last();
        law_samples_come_from_frames(kind, front);
        if samples_of(kind, frames).len() == 0 {
            assert forall|i: int| 0 <= i < frames.len() implies sample_of(
                kind,
                #[trigger] frames[i],
            ) is None by {
                if i < front.len() {
                    assert(frames[i] == front[i]);
                }
            }
        } else if sample_of(kind, frames.last()) is None {
            let i = choose|i: int| 0 <= i < front.len() && !(sample_of(kind, #[trigger] front[i]) is None);
            assert(frames[i] == front[i]);
        }
    }
}

/// Of the records of one kind that a frame has, the first alone counts: a
/// record declared behind it changes nothing of what the frame gives.
pub proof fn law_first_record_counts(frame: FrameView, attributes: Seq<XmlAttributeView>)
    ensures
        frame.p_glare.len() > 0 ==> sample_of(
            CurveKind::Glare,
            with_record(frame, "p_glare"@, attributes),
        ) == sample_of(CurveKind::Glare, frame),
        frame.p_softfocus.len() > 0 ==> sample_of(
            CurveKind::SoftFocus,
            with_record(frame, "p_softfocus"@, attributes),
        ) == sample_of(CurveKind::SoftFocus, frame),
        frame.p_dof.len() > 0 ==> sample_of(
            CurveKind::DepthOfField,
            with_record(frame, "p_dof"@, attributes),
        ) == sample_of(CurveKind::DepthOfField, frame),
{
    reveal_strlit("p_gp");
    reveal_strlit("p_glare");
    reveal_strlit("p_softfocus");
    reveal_strlit("p_dof");
    assert("p_glare"@.len() != "p_gp"@.len());
    assert("p_softfocus"@.len() != "p_gp"@.len());
    assert("p_softfocus"@.len() != "p_glare"@.len());
    assert("p_dof"@.len() != "p_gp"@.len());
    assert("p_dof"@.len() != "p_glare"@.len());
    assert("p_dof"@.len() != "p_softfocus"@.len());
}

} // verus!
