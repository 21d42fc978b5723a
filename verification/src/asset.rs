//! The assets: a curve with the name and the place under which a container
//! keeps it.

use crate::curve::{
    bcadjustments_text, curve_rows, curve_samples, curve_text, encode_curve, first_error,
    law_samples_come_from_frames, rows_of, sample_of, samples_of, write_header, zrange_text,
    CurveKind, CurveRow, CurveRowView, DataError,
};
use crate::frame::{Frame, FrameView};
use vstd::prelude::*;
use vstd::utf8::encode_utf8;

verus! {

/// The kinds of chunk that a container holds. The curves are kept as binary
/// chunks, which the container does not look into.
#[derive(Debug, Clone, Copy, PartialEq, Eq, Structural)]
pub enum ChunkType {
    Binary,
}

/// The version of the format that every asset is marked with.
pub const FORMAT_VERSION: u16 = 121;

/// A curve as the container takes it: a name, the kind of chunk, the path
/// under which the container files it, the version of the format, and the
/// curve as bytes.
#[derive(Debug, Clone)]
pub struct BinaryAsset {
    pub name: String,
    pub chunk_type: ChunkType,
    pub filepath: String,
    pub version: u16,
    pub data: Vec<u8>,
}

/// The model of an asset.
pub struct BinaryAssetView {
    pub name: Seq<char>,
    pub chunk_type: ChunkType,
    pub filepath: Seq<char>,
    pub version: u16,
    pub data: Seq<u8>,
}

impl View for BinaryAsset {
    type V = BinaryAssetView;

    open spec fn view(&self) -> BinaryAssetView {
        BinaryAssetView {
            name: self.name@,
            chunk_type: self.chunk_type,
            filepath: self.filepath@,
            version: self.version,
            data: self.data@,
        }
    }
}

impl DeepView for BinaryAsset {
    type V = BinaryAssetView;

    open spec fn deep_view(&self) -> BinaryAssetView {
        self@
    }
}

/// The name of an asset: that of the source, an underscore and what tells the
/// curves of one source apart.
pub open spec fn asset_name(filename: Seq<char>, suffix: Seq<char>) -> Seq<char> {
    filename + "_"@ + suffix
}

/// The path under which the container files an asset.
pub open spec fn asset_path(filename: Seq<char>, suffix: Seq<char>) -> Seq<char> {
    "Z:/anm/"@ + filename + "/fcv/"@ + filename + "_"@ + suffix + ".fcv"@
}

/// The asset that holds a curve, given as text.
pub open spec fn asset_of(filename: Seq<char>, suffix: Seq<char>, text: Seq<char>) -> BinaryAssetView {
    BinaryAssetView {
        name: asset_name(filename, suffix),
        chunk_type: ChunkType::Binary,
        filepath: asset_path(filename, suffix),
        version: FORMAT_VERSION,
        data: encode_utf8(text),
    }
}

/// What tells the asset of a curve from the other assets of its source.
pub open spec fn kind_suffix(kind: CurveKind) -> Seq<char> {
    match kind {
        CurveKind::Glare => "glare"@,
        CurveKind::SoftFocus => "softfocus"@,
        CurveKind::DepthOfField => "dof"@,
        CurveKind::BrightRate => "bright_rate"@,
    }
}

/// The asset of a curve with given rows: none where there is no row, and
/// none but a failure where a record cannot be written.
pub open spec fn rows_asset(kind: CurveKind, rows: Seq<CurveRowView>, filename: Seq<char>) -> Result<
    Option<BinaryAssetView>,
    DataError,
> {
    if rows.len() == 0 {
        Ok(None)
    } else {
        match first_error(rows) {
            Some(error) => Err(error),
            None => Ok(Some(asset_of(filename, kind_suffix(kind), curve_text(kind, rows)))),
        }
    }
}

/// The asset of the z-range curve.
pub open spec fn zrange_asset(filename: Seq<char>) -> BinaryAssetView {
    asset_of(filename, "zrange"@, zrange_text())
}

/// The asset of the curve of the brightness and contrast adjustment.
pub open spec fn bcadjustments_asset(filename: Seq<char>) -> BinaryAssetView {
    asset_of(filename, "bcadjustments"@, bcadjustments_text())
}

/// What tells the asset of a curve from the other assets of its source.
pub fn kind_suffix_text(kind: CurveKind) -> (suffix: &'static str)
    ensures
        suffix@ == kind_suffix(kind),
{
    match kind {
        CurveKind::Glare => "glare",
        CurveKind::SoftFocus => "softfocus",
        CurveKind::DepthOfField => "dof",
        CurveKind::BrightRate => "bright_rate",
    }
}

/// Makes the asset that holds a curve, given as text.
pub fn make_asset(filename: &str, suffix: &str, text: &str) -> (asset: BinaryAsset)
    ensures
        asset@ == asset_of(filename@, suffix@, text@),
{
    let mut name = filename.to_owned();
    name.append("_");
    name.append(suffix);
    let mut filepath = "Z:/anm/".to_owned();
    filepath.append(filename);
    filepath.append("/fcv/");
    filepath.append(filename);
    filepath.append("_");
    filepath.append(suffix);
    filepath.append(".fcv");
    BinaryAsset {
        name,
        chunk_type: ChunkType::Binary,
        filepath,
        version: FORMAT_VERSION,
        data: text.as_bytes_vec(),
    }
}

/// Whether a result is the asset `expected`, no asset, or the failure, as
/// `expected` has it.
pub open spec fn is_asset(
    asset: Result<Option<BinaryAsset>, DataError>,
    expected: Result<Option<BinaryAssetView>, DataError>,
) -> bool {
    match expected {
        Ok(Some(made)) => asset matches Ok(Some(a)) && a@ == made,
        Ok(None) => asset matches Ok(None),
        Err(error) => asset matches Err(e) && e == error,
    }
}

/// Makes the asset of a curve with given rows, if there is a row.
pub fn create_rows_asset(kind: CurveKind, rows: &Vec<CurveRow>, filename: &str) -> (asset: Result<
    Option<BinaryAsset>,
    DataError,
>)
    ensures
        is_asset(asset, rows_asset(kind, rows.deep_view(), filename@)),
{
    if rows.len() == 0 {
        return Ok(None);
    }
    match encode_curve(kind, rows) {
        Ok(text) => Ok(Some(make_asset(filename, kind_suffix_text(kind), text.as_str()))),
        Err(error) => Err(error),
    }
}

/// The asset of a curve that is drawn from a timeline: none where no frame
/// gives a sample to the curve, and none but a failure where a record cannot
/// be written.
pub open spec fn curve_asset(kind: CurveKind, frames: Seq<FrameView>, filename: Seq<char>) -> Result<
    Option<BinaryAssetView>,
    DataError,
> {
    rows_asset(kind, rows_of(samples_of(kind, frames)), filename)
}

/// Makes the asset of a curve that is drawn from a timeline, if a frame
/// gives a sample to it.
pub fn create_curve_asset(kind: CurveKind, frames: &Vec<Frame>, filename: &str) -> (asset: Result<
    Option<BinaryAsset>,
    DataError,
>)
    ensures
        is_asset(asset, curve_asset(kind, frames.deep_view(), filename@)),
{
    let samples = curve_samples(kind, frames);
    let rows = curve_rows(&samples);
    create_rows_asset(kind, &rows, filename)
}

/// Makes the asset of the glare curve: one record for each frame that has a
/// glare record, with the threshold, the subtraction colour and the
/// composition intensity of the first one.
pub fn create_glare_fcv_struct(frames: &Vec<Frame>, filename: &str) -> (asset: Result<
    Option<BinaryAsset>,
    DataError,
>)
    ensures
        is_asset(asset, curve_asset(CurveKind::Glare, frames.deep_view(), filename@)),
{
    create_curve_asset(CurveKind::Glare, frames, filename)
}

/// Makes the asset of the brightness rate curve: one record for each frame
/// that has a generic parameter `bgbout`, with the first field of the value
/// of the first one.
pub fn create_brightrate_fcv_struct(frames: &Vec<Frame>, filename: &str) -> (asset: Result<
    Option<BinaryAsset>,
    DataError,
>)
    ensures
        is_asset(asset, curve_asset(CurveKind::BrightRate, frames.deep_view(), filename@)),
{
    create_curve_asset(CurveKind::BrightRate, frames, filename)
}

/// Makes the asset of the depth of field curve: one record for each frame
/// that has a depth of field record, with the focus distance, the near and
/// the far distance, the greatest blur in the distance and the blur of the
/// edge of the first one.
pub fn create_dof_fcv_struct(frames: &Vec<Frame>, filename: &str) -> (asset: Result<
    Option<BinaryAsset>,
    DataError,
>)
    ensures
        is_asset(asset, curve_asset(CurveKind::DepthOfField, frames.deep_view(), filename@)),
{
    create_curve_asset(CurveKind::DepthOfField, frames, filename)
}

/// Makes the asset of the soft focus curve: one record for each frame that
/// has a soft focus record, with the intensity of the first one.
pub fn create_softfocus_fcv_struct(frames: &Vec<Frame>, filename: &str) -> (asset: Result<
    Option<BinaryAsset>,
    DataError,
>)
    ensures
        is_asset(asset, curve_asset(CurveKind::SoftFocus, frames.deep_view(), filename@)),
{
    create_curve_asset(CurveKind::SoftFocus, frames, filename)
}

/// Makes the asset of the z-range curve.
pub fn create_zrange_fcv_struct(filename: &str) -> (asset: BinaryAsset)
    ensures
        asset@ == zrange_asset(filename@),
{
    let mut text = write_header("FCURVE_TYPE_ZRANGE", 1);
    text.append("1,1.000000,9000000.000000\r\n");
    make_asset(filename, "zrange", text.as_str())
}

/// Makes the asset of the curve of the brightness and contrast adjustment.
pub fn create_bcadjustments_fcv_struct(filename: &str) -> (asset: BinaryAsset)
    ensures
        asset@ == bcadjustments_asset(filename@),
{
    let mut text = write_header("FCURVE_TYPE_BCADJUSTMENTS", 1);
    text.append("0,0.00000,1.250000\r\n");
    make_asset(filename, "bcadjustments", text.as_str())
}

/// A curve that no frame gives a sample to has no asset: it is left out, not
/// written without records.
pub proof fn law_no_record_no_asset(kind: CurveKind, frames: Seq<FrameView>, filename: Seq<char>)
    requires
        forall|i: int| 0 <= i < frames.len() ==> sample_of(kind, #[trigger] frames[i]) is None,
    ensures
        curve_asset(kind, frames, filename) == Ok::<Option<BinaryAssetView>, DataError>(None),
{
    law_samples_come_from_frames(kind, frames);
}

/// A curve that a frame gives a sample to has an asset, unless a record
/// cannot be written.
pub proof fn law_record_gives_asset(
    kind: CurveKind,
    frames: Seq<FrameView>,
    filename: Seq<char>,
    i: int,
)
    requires
        0 <= i < frames.len(),
        sample_of(kind, frames[i]) is Some,
    ensures
        curve_asset(kind, frames, filename) is Err || curve_asset(kind, frames, filename) matches Ok(
            Some(_),
        ),
{
    law_samples_come_from_frames(kind, frames);
}

} // verus!
