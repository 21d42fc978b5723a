//! The pages that the curves of a timeline add to a container.

use crate::asset::{
    bcadjustments_asset, create_bcadjustments_fcv_struct, create_curve_asset,
    create_zrange_fcv_struct, curve_asset, law_no_record_no_asset, zrange_asset, BinaryAsset,
    BinaryAssetView,
};
use crate::curve::{sample_of, CurveKind, DataError};
use crate::frame::{Frame, FrameView};
use vstd::prelude::*;

verus! {

/// A page of a container, with the assets that it holds.
#[derive(Debug, Clone)]
pub struct AssetPage {
    pub structs: Vec<BinaryAsset>,
}

/// The model of a page.
pub struct AssetPageView {
    pub structs: Seq<BinaryAssetView>,
}

impl View for AssetPage {
    type V = AssetPageView;

    open spec fn view(&self) -> AssetPageView {
        AssetPageView { structs: self.structs.deep_view() }
    }
}

impl DeepView for AssetPage {
    type V = AssetPageView;

    open spec fn deep_view(&self) -> AssetPageView {
        self@
    }
}

/// The page that holds one asset and nothing else.
pub open spec fn page_of(asset: BinaryAssetView) -> AssetPageView {
    AssetPageView { structs: seq![asset] }
}

/// `pages` with the page of a curve added, where the curve has an asset.
pub open spec fn with_curve_page(
    pages: Seq<AssetPageView>,
    kind: CurveKind,
    frames: Seq<FrameView>,
    filename: Seq<char>,
) -> Result<Seq<AssetPageView>, DataError> {
    match curve_asset(kind, frames, filename) {
        Ok(Some(asset)) => Ok(pages.push(page_of(asset))),
        Ok(None) => Ok(pages),
        Err(error) => Err(error),
    }
}

/// The pages of the curves that are drawn from the timeline, in their fixed
/// order: glare, soft focus, depth of field, brightness rate. The first
/// curve that cannot be written makes all of them fail.
pub open spec fn drawn_pages(frames: Seq<FrameView>, filename: Seq<char>) -> Result<
    Seq<AssetPageView>,
    DataError,
> {
    match with_curve_page(Seq::empty(), CurveKind::Glare, frames, filename) {
        Ok(first) => match with_curve_page(first, CurveKind::SoftFocus, frames, filename) {
            Ok(second) => match with_curve_page(second, CurveKind::DepthOfField, frames, filename) {
                Ok(third) => with_curve_page(third, CurveKind::BrightRate, frames, filename),
                Err(error) => Err(error),
            },
            Err(error) => Err(error),
        },
        Err(error) => Err(error),
    }
}

/// The pages of all curves: those drawn from the timeline, then the z-range
/// curve and the curve of the brightness and contrast adjustment.
pub open spec fn fcv_pages(frames: Seq<FrameView>, filename: Seq<char>) -> Result<
    Seq<AssetPageView>,
    DataError,
> {
    match drawn_pages(frames, filename) {
        Ok(pages) => Ok(
            pages.push(page_of(zrange_asset(filename))).push(
                page_of(bcadjustments_asset(filename)),
            ),
        ),
        Err(error) => Err(error),
    }
}

/// Makes the page that holds one asset.
pub fn make_page(asset: BinaryAsset) -> (page: AssetPage)
    ensures
        page@ == page_of(asset@),
{
    let mut structs: Vec<BinaryAsset> = Vec::new();
    structs.push(asset);
    assert(structs.deep_view() =~= seq![asset@]);
    AssetPage { structs }
}

/// Adds the page of a curve that is drawn from the timeline, where a frame
/// gives a sample to it.
fn add_curve_page(
    pages: &mut Vec<AssetPage>,
    kind: CurveKind,
    frames: &Vec<Frame>,
    filename: &str,
) -> (done: Result<(), DataError>)
    ensures
        match with_curve_page(old(pages).deep_view(), kind, frames.deep_view(), filename@) {
            Ok(after) => done is Ok && final(pages).deep_view() == after,
            Err(error) => done == Err::<(), DataError>(error) && final(pages).deep_view() == old(
                pages,
            ).deep_view(),
        },
{
    match create_curve_asset(kind, frames, filename) {
        Ok(Some(asset)) => {
            let page = make_page(asset);
            pages.push(page);
            assert(pages.deep_view() =~= old(pages).deep_view().push(page@));
            Ok(())
        },
        Ok(None) => Ok(()),
        Err(error) => Err(error),
    }
}

/// Adds the pages of all curves to the pages of a container: one page for
/// each curve that is drawn from the timeline and that a frame gives a
/// sample to, in the order glare, soft focus, depth of field, brightness
/// rate, then the page of the z-range curve and that of the brightness and
/// contrast adjustment. Each page holds one asset. Where a record cannot be
/// written the pages stay as they were.
pub fn create_fcv_xfbin(pages: &mut Vec<AssetPage>, frames: &Vec<Frame>, filename: &str) -> (done:
    Result<(), DataError>)
    ensures
        match fcv_pages(frames.deep_view(), filename@) {
            Ok(added) => done is Ok && final(pages).deep_view() == old(pages).deep_view() + added,
            Err(error) => done == Err::<(), DataError>(error) && final(pages).deep_view() == old(
                pages,
            ).deep_view(),
        },
{
    let mut added: Vec<AssetPage> = Vec::new();
    assert(added.deep_view() =~= Seq::empty());
    match add_curve_page(&mut added, CurveKind::Glare, frames, filename) {
        Ok(()) => {},
        Err(error) => {
            return Err(error);
        },
    }
    match add_curve_page(&mut added, CurveKind::SoftFocus, frames, filename) {
        Ok(()) => {},
        Err(error) => {
            return Err(error);
        },
    }
    match add_curve_page(&mut added, CurveKind::DepthOfField, frames, filename) {
        Ok(()) => {},
        Err(error) => {
            return Err(error);
        },
    }
    match add_curve_page(&mut added, CurveKind::BrightRate, frames, filename) {
        Ok(()) => {},
        Err(error) => {
            return Err(error);
        },
    }
    let zrange = make_page(create_zrange_fcv_struct(filename));
    let bcadjustments = make_page(create_bcadjustments_fcv_struct(filename));
    let ghost drawn = added.deep_view();
    added.push(zrange);
    added.push(bcadjustments);
    assert(added.deep_view() =~= drawn.push(zrange@).push(bcadjustments@));
    let ghost all = added.deep_view();
    let ghost before = pages.deep_view();
    pages.append(&mut added);
    assert(pages.deep_view() =~= before + all);
    Ok(())
}

/// A curve that no frame gives a sample to adds no page.
pub proof fn law_absent_curve_adds_no_page(
    pages: Seq<AssetPageView>,
    kind: CurveKind,
    frames: Seq<FrameView>,
    filename: Seq<char>,
)
    requires
        forall|i: int|
            0 <= i < frames.len() ==> sample_of(kind, #[trigger] frames[i]) is None,
    ensures
        with_curve_page(pages, kind, frames, filename) == Ok::<Seq<AssetPageView>, DataError>(
            pages,
        ),
{
    law_no_record_no_asset(kind, frames, filename);
}

/// The pages of the curves end with that of the z-range curve and that of
/// the brightness and contrast adjustment, whatever the timeline holds; for
/// a timeline without frames these two are all the pages.
pub proof fn law_constant_curves_close(frames: Seq<FrameView>, filename: Seq<char>)
    ensures
        fcv_pages(frames, filename) matches Ok(pages) ==> pages.len() >= 2 && pages[pages.len() - 2]
            == page_of(zrange_asset(filename)) && pages[pages.len() - 1] == page_of(
            bcadjustments_asset(filename),
        ),
        frames.len() == 0 ==> fcv_pages(frames, filename) == Ok::<Seq<AssetPageView>, DataError>(
            seq![page_of(zrange_asset(filename)), page_of(bcadjustments_asset(filename))],
        ),
{
    if frames.len() == 0 {
        let none = Seq::<AssetPageView>::empty();
        law_absent_curve_adds_no_page(none, CurveKind::Glare, frames, filename);
        law_absent_curve_adds_no_page(none, CurveKind::SoftFocus, frames, filename);
        law_absent_curve_adds_no_page(none, CurveKind::DepthOfField, frames, filename);
        law_absent_curve_adds_no_page(none, CurveKind::BrightRate, frames, filename);
        assert(none.push(page_of(zrange_asset(filename))).push(
            page_of(bcadjustments_asset(filename)),
        ) =~= seq![page_of(zrange_asset(filename)), page_of(bcadjustments_asset(filename))]);
    }
}

} // verus!
