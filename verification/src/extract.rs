//! From the events of a document to the timeline.

use crate::event::{
    attribute_value, find_attribute, XmlAttribute, XmlAttributeView, XmlEvent, XmlEventView,
};
use crate::frame::{
    Frame, FrameView, PDof, PDofView, PGlare, PGlareView, PSoftFocus, PSoftFocusView, Pgp, PgpView,
};
use crate::text::text_is;
use vstd::prelude::*;

verus! {

/// Where the extractor stands in a document: which of the three scoping
/// elements it is inside of, and the frames found so far.
#[derive(Debug, Clone)]
pub struct ExtractState {
    pub inside_frame: bool,
    pub inside_setting: bool,
    pub inside_param: bool,
    pub frames: Vec<Frame>,
}

/// The model of a state: the flags as they are, the frames as their models.
pub struct ExtractStateView {
    pub inside_frame: bool,
    pub inside_setting: bool,
    pub inside_param: bool,
    pub frames: Seq<FrameView>,
}

impl View for ExtractState {
    type V = ExtractStateView;

    open spec fn view(&self) -> ExtractStateView {
        ExtractStateView {
            inside_frame: self.inside_frame,
            inside_setting: self.inside_setting,
            inside_param: self.inside_param,
            frames: self.frames.deep_view(),
        }
    }
}

/// The record that a `p_gp` element with these attributes declares.
pub open spec fn gp_record(attributes: Seq<XmlAttributeView>) -> PgpView {
    PgpView {
        name: attribute_value(attributes, "name"@),
        value: attribute_value(attributes, "value"@),
    }
}

/// The record that a `p_glare` element with these attributes declares.
pub open spec fn glare_record(attributes: Seq<XmlAttributeView>) -> PGlareView {
    PGlareView {
        threshold: attribute_value(attributes, "threshold"@),
        subtraction_color: attribute_value(attributes, "subtractionColor"@),
        composition_intensity: attribute_value(attributes, "compositionIntensity"@),
    }
}

/// The record that a `p_softfocus` element with these attributes declares.
pub open spec fn softfocus_record(attributes: Seq<XmlAttributeView>) -> PSoftFocusView {
    PSoftFocusView { intensity: attribute_value(attributes, "intensity"@) }
}

/// The record that a `p_dof` element with these attributes declares.
pub open spec fn dof_record(attributes: Seq<XmlAttributeView>) -> PDofView {
    PDofView {
        focus_distance: attribute_value(attributes, "focusDistance"@),
        near_distance: attribute_value(attributes, "nearDistance"@),
        far_distance: attribute_value(attributes, "farDistance"@),
        blur_max_far: attribute_value(attributes, "blurMaxFar"@),
        blur_edge: attribute_value(attributes, "blurEdge"@),
    }
}

/// Whether `name` is that of one of the four parameter elements.
pub open spec fn is_record_name(name: Seq<char>) -> bool {
    name == "p_gp"@ || name == "p_glare"@ || name == "p_softfocus"@ || name == "p_dof"@
}

/// `frame` with the record that the element `name` declares added behind the
/// records of its kind; `frame` itself where `name` is no parameter element.
pub open spec fn with_record(
    frame: FrameView,
    name: Seq<char>,
    attributes: Seq<XmlAttributeView>,
) -> FrameView {
    if name == "p_gp"@ {
        FrameView { p_gp: frame.p_gp.push(gp_record(attributes)), ..frame }
    } else if name == "p_glare"@ {
        FrameView { p_glare: frame.p_glare.push(glare_record(attributes)), ..frame }
    } else if name == "p_softfocus"@ {
        FrameView { p_softfocus: frame.p_softfocus.push(softfocus_record(attributes)), ..frame }
    } else if name == "p_dof"@ {
        FrameView { p_dof: frame.p_dof.push(dof_record(attributes)), ..frame }
    } else {
        frame
    }
}

impl ExtractStateView {
    /// The state before the first event.
    pub open spec fn initial() -> ExtractStateView {
        ExtractStateView {
            inside_frame: false,
            inside_setting: false,
            inside_param: false,
            frames: Seq::empty(),
        }
    }

    /// Whether a parameter element met now belongs to a frame: it stands
    /// inside a `frame` and inside a `param`, and there is a frame to take it.
    pub open spec fn reads_records(self) -> bool {
        self.inside_frame && self.inside_param && self.frames.len() > 0
    }

    /// Every flag was raised inside a frame, so while one is up there is a
    /// last frame.
    pub open spec fn wf(self) -> bool {
        (self.inside_frame || self.inside_setting || self.inside_param) ==> self.frames.len() > 0
    }

    /// The state after one more event.
    pub open spec fn step(self, event: XmlEventView) -> ExtractStateView {
        match event {
            XmlEventView::Start { name, attributes } => {
                if name == "frame"@ {
                    ExtractStateView {
                        inside_frame: true,
                        frames: self.frames.push(
                            FrameView::empty(attribute_value(attributes, "no"@)),
                        ),
                        ..self
                    }
                } else if self.inside_frame && name == "setting"@ {
                    ExtractStateView { inside_setting: true, ..self }
                } else if self.inside_setting && name == "param"@ {
                    ExtractStateView { inside_param: true, ..self }
                } else {
                    self
                }
            },
            XmlEventView::End { name } => {
                if name == "param"@ {
                    ExtractStateView { inside_param: false, ..self }
                } else if name == "setting"@ {
                    ExtractStateView { inside_setting: false, ..self }
                } else if name == "frame"@ {
                    ExtractStateView { inside_frame: false, ..self }
                } else {
                    self
                }
            },
            XmlEventView::Empty { name, attributes } => {
                if self.reads_records() {
                    ExtractStateView {
                        frames: self.frames.drop_last().push(
                            with_record(self.frames.last(), name, attributes),
                        ),
                        ..self
                    }
                } else {
                    self
                }
            },
            XmlEventView::Other => self,
        }
    }

    /// The state after a run of events.
    pub open spec fn run(self, events: Seq<XmlEventView>) -> ExtractStateView
        decreases events.len(),
    {
        if events.len() == 0 {
            self
        } else {
            self.run(events.drop_last()).step(events.last())
        }
    }
}

/// The timeline that a run of events gives.
pub open spec fn frames_of(events: Seq<XmlEventView>) -> Seq<FrameView> {
    ExtractStateView::initial().run(events).frames
}

impl ExtractState {
    /// The state before the first event.
    pub fn new() -> (state: ExtractState)
        ensures
            state@ == ExtractStateView::initial(),
    {
        let state = ExtractState {
            inside_frame: false,
            inside_setting: false,
            inside_param: false,
            frames: Vec::new(),
        };
        assert(state.frames.deep_view() =~= Seq::empty());
        state
    }

    /// Whether a parameter element met now belongs to a frame.
    pub fn reads_records(&self) -> (reads: bool)
        ensures
            reads == self@.reads_records(),
    {
        self.inside_frame && self.inside_param && self.frames.len() > 0
    }

    /// Takes one more event.
    pub fn accept(&mut self, event: &XmlEvent)
        ensures
            final(self)@ == old(self)@.step(event@),
    {
        match event {
            XmlEvent::Start { name, attributes } => {
                if text_is(name.as_str(), "frame") {
                    let frame = Frame::new(find_attribute(attributes, "no"));
                    self.inside_frame = true;
                    self.frames.push(frame);
                    assert(self.frames.deep_view() =~= old(self).frames.deep_view().push(frame@));
                } else if self.inside_frame && text_is(name.as_str(), "setting") {
                    self.inside_setting = true;
                } else if self.inside_setting && text_is(name.as_str(), "param") {
                    self.inside_param = true;
                }
            },
            XmlEvent::End { name } => {
                if text_is(name.as_str(), "param") {
                    self.inside_param = false;
                } else if text_is(name.as_str(), "setting") {
                    self.inside_setting = false;
                } else if text_is(name.as_str(), "frame") {
                    self.inside_frame = false;
                }
            },
            XmlEvent::Empty { name, attributes } => {
                if self.reads_records() {
                    let last = self.frames.len() - 1;
                    add_record(&mut self.frames[last], name.as_str(), attributes);
                    assert(self.frames.deep_view() =~= old(self).frames.deep_view().drop_last().push(
                        with_record(
                            old(self).frames.deep_view().last(),
                            name@,
                            attributes.deep_view(),
                        ),
                    ));
                }
            },
            XmlEvent::Other => {},
        }
    }
}

/// Adds to `frame` the record that the element `name` declares.
pub fn add_record(frame: &mut Frame, name: &str, attributes: &Vec<XmlAttribute>)
    ensures
        final(frame)@ == with_record(old(frame)@, name@, attributes.deep_view()),
{
    if text_is(name, "p_gp") {
        let record = Pgp {
            name: find_attribute(attributes, "name"),
            value: find_attribute(attributes, "value"),
        };
        frame.p_gp.push(record);
        assert(frame.p_gp.deep_view() =~= old(frame).p_gp.deep_view().push(record@));
    } else if text_is(name, "p_glare") {
        let record = PGlare {
            threshold: find_attribute(attributes, "threshold"),
            subtraction_color: find_attribute(attributes, "subtractionColor"),
            composition_intensity: find_attribute(attributes, "compositionIntensity"),
        };
        frame.p_glare.push(record);
        assert(frame.p_glare.deep_view() =~= old(frame).p_glare.deep_view().push(record@));
    } else if text_is(name, "p_softfocus") {
        let record = PSoftFocus { intensity: find_attribute(attributes, "intensity") };
        frame.p_softfocus.push(record);
        assert(frame.p_softfocus.deep_view() =~= old(frame).p_softfocus.deep_view().push(
            record@,
        ));
    } else if text_is(name, "p_dof") {
        let record = PDof {
            focus_distance: find_attribute(attributes, "focusDistance"),
            near_distance: find_attribute(attributes, "nearDistance"),
            far_distance: find_attribute(attributes, "farDistance"),
            blur_max_far: find_attribute(attributes, "blurMaxFar"),
            blur_edge: find_attribute(attributes, "blurEdge"),
        };
        frame.p_dof.push(record);
        assert(frame.p_dof.deep_view() =~= old(frame).p_dof.deep_view().push(record@));
    }
}

/// Extracts the timeline from a run of events.
pub fn extract_frames(events: &Vec<XmlEvent>) -> (frames: Vec<Frame>)
    ensures
        frames.deep_view() == frames_of(events.deep_view()),
{
    let mut state = ExtractState::new();
    let mut i: usize = 0;
    while i < events.len()
        invariant
            i <= events.len(),
            state@ == ExtractStateView::initial().run(events.deep_view().take(i as int)),
        decreases events.len() - i,
    {
        proof {
            let next = events.deep_view().take(i + 1);
            assert(next.drop_last() =~= events.deep_view().take(i as int));
            assert(next.last() == events[i as int]@);
        }
        state.accept(&events[i]);
        i = i + 1;
    }
    assert(events.deep_view().take(i as int) =~= events.deep_view());
    state.frames
}

/// The index text that a `frame` start tag opens a frame with; `None` for any
/// other event.
pub open spec fn opened_index(event: XmlEventView) -> Option<Seq<char>> {
    match event {
        XmlEventView::Start { name, attributes } => if name == "frame"@ {
            Some(attribute_value(attributes, "no"@))
        } else {
            None
        },
        _ => None,
    }
}

/// The index texts of the `frame` start tags among `events`, in their order.
pub open spec fn frame_indices(events: Seq<XmlEventView>) -> Seq<Seq<char>>
    decreases events.len(),
{
    if events.len() == 0 {
        Seq::empty()
    } else {
        match opened_index(events.last()) {
            Some(no) => frame_indices(events.drop_last()).push(no),
            None => frame_indices(events.drop_last()),
        }
    }
}

/// The index texts of a timeline, in its order.
pub open spec fn indices_of(frames: Seq<FrameView>) -> Seq<Seq<char>> {
    frames.map_values(|frame: FrameView| frame.no)
}

/// One event adds a frame to the timeline if it is a `frame` start tag, and
/// leaves the number and the indices of the frames as they are if not.
proof fn lemma_step_indices(state: ExtractStateView, event: XmlEventView)
    ensures
        indices_of(state.step(event).frames) == match opened_index(event) {
            Some(no) => indices_of(state.frames).push(no),
            None => indices_of(state.frames),
        },
{
    let after = state.step(event).frames;
    match opened_index(event) {
        Some(no) => {
            assert(indices_of(after) =~= indices_of(state.frames).push(no));
        },
        None => {
            assert(indices_of(after) =~= indices_of(state.frames));
        },
    }
}

/// A timeline holds one frame for each `frame` start tag of the document, in
/// the order of the tags and with the index of its tag, whatever else stands
/// between them.
pub proof fn law_one_frame_per_frame_tag(events: Seq<XmlEventView>)
    ensures
        indices_of(frames_of(events)) == frame_indices(events),
        frames_of(events).len() == frame_indices(events).len(),
    decreases events.len(),
{
    if events.len() == 0 {
        assert(indices_of(frames_of(events)) =~= frame_indices(events));
    } else {
        law_one_frame_per_frame_tag(events.drop_last());
        lemma_step_indices(ExtractStateView::initial().run(events.drop_last()), events.last());
    }
    assert(indices_of(frames_of(events)).len() == frames_of(events).len());
}

/// One event keeps a state well formed.
proof fn lemma_step_wf(state: ExtractStateView, event: XmlEventView)
    requires
        state.wf(),
    ensures
        state.step(event).wf(),
{
}

/// While the extractor is inside one of the scoping elements there is a frame
/// to add to: no parameter element is passed over for want of one.
pub proof fn law_inside_means_frame(events: Seq<XmlEventView>)
    ensures
        ExtractStateView::initial().run(events).wf(),
    decreases events.len(),
{
    if events.len() > 0 {
        law_inside_means_frame(events.drop_last());
        lemma_step_wf(ExtractStateView::initial().run(events.drop_last()), events.last());
    }
}

/// A frame keeps every generic parameter and every glare record declared for
/// it, in the order of declaration: a second one is added behind the first.
pub proof fn law_records_kept_in_order(
    state: ExtractStateView,
    first: Seq<XmlAttributeView>,
    second: Seq<XmlAttributeView>,
)
    requires
        state.reads_records(),
    ensures
        state.step(XmlEventView::Empty { name: "p_gp"@, attributes: first }).step(
            XmlEventView::Empty { name: "p_gp"@, attributes: second },
        ).frames.last().p_gp == state.frames.last().p_gp.push(gp_record(first)).push(
            gp_record(second),
        ),
        state.step(XmlEventView::Empty { name: "p_glare"@, attributes: first }).step(
            XmlEventView::Empty { name: "p_glare"@, attributes: second },
        ).frames.last().p_glare == state.frames.last().p_glare.push(glare_record(first)).push(
            glare_record(second),
        ),
{
    reveal_strlit("p_gp");
    reveal_strlit("p_glare");
    assert("p_glare"@.len() != "p_gp"@.len());
}

} // verus!
