//! The per-frame parameter timeline.
//!
//! Every attribute is kept as the text found in the document. Nothing is
//! parsed as a number before a curve is encoded.

use vstd::prelude::*;

verus! {

/// A generic parameter of a frame: a name and a value.
#[derive(Debug, Clone)]
pub struct Pgp {
    pub name: String,
    pub value: String,
}

/// The glare settings of a frame.
#[derive(Debug, Clone)]
pub struct PGlare {
    pub threshold: String,
    pub subtraction_color: String,
    pub composition_intensity: String,
}

/// The soft-focus settings of a frame.
#[derive(Debug, Clone)]
pub struct PSoftFocus {
    pub intensity: String,
}

/// The depth-of-field settings of a frame.
#[derive(Debug, Clone)]
pub struct PDof {
    pub focus_distance: String,
    pub near_distance: String,
    pub far_distance: String,
    pub blur_max_far: String,
    pub blur_edge: String,
}

/// One entry of the timeline. A frame keeps every record that was declared
/// for it, in the order of declaration; the encoders read the first of each
/// kind only.
#[derive(Debug, Clone)]
pub struct Frame {
    pub no: String,
    pub p_gp: Vec<Pgp>,
    pub p_glare: Vec<PGlare>,
    pub p_softfocus: Vec<PSoftFocus>,
    pub p_dof: Vec<PDof>,
}

/// The model of a generic parameter.
pub struct PgpView {
    pub name: Seq<char>,
    pub value: Seq<char>,
}

/// The model of the glare settings.
pub struct PGlareView {
    pub threshold: Seq<char>,
    pub subtraction_color: Seq<char>,
    pub composition_intensity: Seq<char>,
}

/// The model of the soft-focus settings.
pub struct PSoftFocusView {
    pub intensity: Seq<char>,
}

/// The model of the depth-of-field settings.
pub struct PDofView {
    pub focus_distance: Seq<char>,
    pub near_distance: Seq<char>,
    pub far_distance: Seq<char>,
    pub blur_max_far: Seq<char>,
    pub blur_edge: Seq<char>,
}

/// The model of a frame: its index as text, and its records by kind, each
/// kind in the order of declaration.
pub struct FrameView {
    pub no: Seq<char>,
    pub p_gp: Seq<PgpView>,
    pub p_glare: Seq<PGlareView>,
    pub p_softfocus: Seq<PSoftFocusView>,
    pub p_dof: Seq<PDofView>,
}

impl View for Pgp {
    type V = PgpView;

    open spec fn view(&self) -> PgpView {
        PgpView { name: self.name@, value: self.value@ }
    }
}

impl DeepView for Pgp {
    type V = PgpView;

    open spec fn deep_view(&self) -> PgpView {
        self@
    }
}

impl View for PGlare {
    type V = PGlareView;

    open spec fn view(&self) -> PGlareView {
        PGlareView {
            threshold: self.threshold@,
            subtraction_color: self.subtraction_color@,
            composition_intensity: self.composition_intensity@,
        }
    }
}

impl DeepView for PGlare {
    type V = PGlareView;

    open spec fn deep_view(&self) -> PGlareView {
        self@
    }
}

impl View for PSoftFocus {
    type V = PSoftFocusView;

    open spec fn view(&self) -> PSoftFocusView {
        PSoftFocusView { intensity: self.intensity@ }
    }
}

impl DeepView for PSoftFocus {
    type V = PSoftFocusView;

    open spec fn deep_view(&self) -> PSoftFocusView {
        self@
    }
}

impl View for PDof {
    type V = PDofView;

    open spec fn view(&self) -> PDofView {
        PDofView {
            focus_distance: self.focus_distance@,
            near_distance: self.near_distance@,
            far_distance: self.far_distance@,
            blur_max_far: self.blur_max_far@,
            blur_edge: self.blur_edge@,
        }
    }
}

impl DeepView for PDof {
    type V = PDofView;

    open spec fn deep_view(&self) -> PDofView {
        self@
    }
}

impl View for Frame {
    type V = FrameView;

    open spec fn view(&self) -> FrameView {
        FrameView {
            no: self.no@,
            p_gp: self.p_gp.deep_view(),
            p_glare: self.p_glare.deep_view(),
            p_softfocus: self.p_softfocus.deep_view(),
            p_dof: self.p_dof.deep_view(),
        }
    }
}

impl DeepView for Frame {
    type V = FrameView;

    open spec fn deep_view(&self) -> FrameView {
        self@
    }
}

impl FrameView {
    /// The frame that a `frame` start tag with the index `no` opens.
    pub open spec fn empty(no: Seq<char>) -> FrameView {
        FrameView {
            no,
            p_gp: Seq::empty(),
            p_glare: Seq::empty(),
            p_softfocus: Seq::empty(),
            p_dof: Seq::empty(),
        }
    }
}

impl Frame {
    /// A frame with the index text `no` and no records.
    pub fn new(no: String) -> (frame: Frame)
        ensures
            frame@ == FrameView::empty(no@),
    {
        let frame = Frame {
            no,
            p_gp: Vec::new(),
            p_glare: Vec::new(),
            p_softfocus: Vec::new(),
            p_dof: Vec::new(),
        };
        assert(frame.p_gp.deep_view() =~= Seq::empty());
        assert(frame.p_glare.deep_view() =~= Seq::empty());
        assert(frame.p_softfocus.deep_view() =~= Seq::empty());
        assert(frame.p_dof.deep_view() =~= Seq::empty());
        frame
    }
}

} // verus!
