//! From the text of a document to the timeline.

use crate::event::{XmlAttribute, XmlAttributeView, XmlEvent, XmlEventView};
use crate::extract::{
    frame_indices, frames_of, indices_of, is_record_name, law_one_frame_per_frame_tag,
    ExtractState, ExtractStateView,
};
use crate::frame::{Frame, FrameView};
use crate::text::text_is;
use crate::xml::{
    decode_lossy, document_tokens, lossy_text, next_token, open_reader, pending_tokens,
    read_attributes, tag_attributes, RawToken, RawTokenView,
};
use vstd::prelude::*;

verus! {

/// Why a document gave no timeline.
#[derive(Debug, Clone, Copy, PartialEq, Eq, Structural)]
pub enum ExtractError {
    /// The document is not well formed.
    Markup,
    /// A tag that the extractor reads has a malformed attribute list.
    Attributes,
}

/// The attributes of a tag as texts.
pub open spec fn attribute_views(pairs: Seq<(Seq<u8>, Seq<u8>)>) -> Seq<XmlAttributeView> {
    pairs.map_values(
        |pair: (Seq<u8>, Seq<u8>)|
            XmlAttributeView { key: lossy_text(pair.0), value: lossy_text(pair.1) },
    )
}

/// Whether the extractor reads the attributes of a tag: those of every
/// `frame` start tag, and those of a parameter element that belongs to a
/// frame.
pub open spec fn reads_attributes(state: ExtractStateView, token: RawTokenView) -> bool {
    match token {
        RawTokenView::Start { name, .. } => lossy_text(name) == "frame"@,
        RawTokenView::Empty { name, .. } => state.reads_records() && is_record_name(
            lossy_text(name),
        ),
        _ => false,
    }
}

/// The attributes that the extractor is handed with a tag: the tag's own
/// where it reads them, unless they are malformed, and none where it does
/// not. A tag whose name does not lie within its content has no attributes
/// that could be read.
pub open spec fn attributes_read(wanted: bool, content: Seq<u8>, name: Seq<u8>) -> Option<
    Seq<XmlAttributeView>,
> {
    if wanted {
        if name.len() <= content.len() {
            match tag_attributes(content, name.len()) {
                Some(pairs) => Some(attribute_views(pairs)),
                None => None,
            }
        } else {
            None
        }
    } else {
        Some(Seq::empty())
    }
}

/// The event that a token stands for in a given state; `None` where the
/// attributes are read and malformed.
pub open spec fn resolve(state: ExtractStateView, token: RawTokenView) -> Option<XmlEventView> {
    match token {
        RawTokenView::Start { name, content } => match attributes_read(
            reads_attributes(state, token),
            content,
            name,
        ) {
            Some(attributes) => Some(XmlEventView::Start { name: lossy_text(name), attributes }),
            None => None,
        },
        RawTokenView::Empty { name, content } => match attributes_read(
            reads_attributes(state, token),
            content,
            name,
        ) {
            Some(attributes) => Some(XmlEventView::Empty { name: lossy_text(name), attributes }),
            None => None,
        },
        RawTokenView::End { name } => Some(XmlEventView::End { name: lossy_text(name) }),
        _ => Some(XmlEventView::Other),
    }
}

/// The events that the tokens of a document stand for, from a given state on
/// and up to the end of the document, or the first failure.
pub open spec fn document_events(state: ExtractStateView, tokens: Seq<RawTokenView>) -> Result<
    Seq<XmlEventView>,
    ExtractError,
>
    decreases tokens.len(),
{
    if tokens.len() == 0 {
        Ok(Seq::empty())
    } else {
        match tokens[0] {
            RawTokenView::Eof => Ok(Seq::empty()),
            RawTokenView::Malformed => Err(ExtractError::Markup),
            token => match resolve(state, token) {
                Some(event) => match document_events(state.step(event), tokens.skip(1)) {
                    Ok(events) => Ok(seq![event] + events),
                    Err(error) => Err(error),
                },
                None => Err(ExtractError::Attributes),
            },
        }
    }
}

/// The timeline that the tokens of a document give, from a given state on:
/// the frames after the events of the document, or the first failure.
pub open spec fn timeline_from(state: ExtractStateView, tokens: Seq<RawTokenView>) -> Result<
    Seq<FrameView>,
    ExtractError,
> {
    match document_events(state, tokens) {
        Ok(events) => Ok(state.run(events).frames),
        Err(error) => Err(error),
    }
}

/// The timeline of a document: the frames that its events give, or the
/// failure of the document.
pub open spec fn document_timeline(text: Seq<char>) -> Result<Seq<FrameView>, ExtractError> {
    timeline_from(ExtractStateView::initial(), document_tokens(text))
}

/// The timeline in its model, or the failure.
pub open spec fn outcome_view(result: Result<Vec<Frame>, ExtractError>) -> Result<
    Seq<FrameView>,
    ExtractError,
> {
    match result {
        Ok(frames) => Ok(frames.deep_view()),
        Err(error) => Err(error),
    }
}

/// Turns the attributes of a tag into texts.
fn attribute_texts(pairs: &Vec<(Vec<u8>, Vec<u8>)>) -> (attributes: Vec<XmlAttribute>)
    ensures
        attributes.deep_view() == attribute_views(pairs.deep_view()),
{
    let mut attributes: Vec<XmlAttribute> = Vec::new();
    let mut i: usize = 0;
    while i < pairs.len()
        invariant
            i <= pairs.len(),
            attributes.deep_view() =~= attribute_views(pairs.deep_view()).take(i as int),
        decreases pairs.len() - i,
    {
        let attribute = XmlAttribute {
            key: decode_lossy(pairs[i].0.as_slice()),
            value: decode_lossy(pairs[i].1.as_slice()),
        };
        let ghost before = attributes.deep_view();
        attributes.push(attribute);
        proof {
            assert(pairs@[i as int].0.deep_view() =~= pairs@[i as int].0@);
            assert(pairs@[i as int].1.deep_view() =~= pairs@[i as int].1@);
            assert(attribute@ == attribute_views(pairs.deep_view())[i as int]);
            assert(attributes.deep_view() =~= before.push(attribute@));
        }
        i = i + 1;
    }
    attributes
}

/// Reads the attributes of a tag where the extractor asks for them.
fn read_tag_attributes(wanted: bool, content: &Vec<u8>, name: &Vec<u8>) -> (attributes: Option<
    Vec<XmlAttribute>,
>)
    ensures
        attributes.deep_view() == attributes_read(wanted, content@, name@),
{
    if wanted {
        if name.len() > content.len() {
            return None;
        }
        match read_attributes(content.as_slice(), name.len()) {
            Some(pairs) => Some(attribute_texts(&pairs)),
            None => None,
        }
    } else {
        let none: Vec<XmlAttribute> = Vec::new();
        assert(none.deep_view() =~= Seq::empty());
        Some(none)
    }
}

/// Whether `name` is that of one of the four parameter elements.
pub fn names_record(name: &str) -> (is_record: bool)
    ensures
        is_record == is_record_name(name@),
{
    text_is(name, "p_gp") || text_is(name, "p_glare") || text_is(name, "p_softfocus") || text_is(
        name,
        "p_dof",
    )
}

/// Turns a token into the event that the extractor takes. The attributes of
/// a tag are read only where the extractor uses them.
pub fn resolve_token(state: &ExtractState, token: &RawToken) -> (event: Option<XmlEvent>)
    ensures
        event.deep_view() == resolve(state@, token@),
{
    match token {
        RawToken::Start { name, content } => {
            let text = decode_lossy(name.as_slice());
            let wanted = text_is(text.as_str(), "frame");
            match read_tag_attributes(wanted, content, name) {
                Some(attributes) => Some(XmlEvent::Start { name: text, attributes }),
                None => None,
            }
        },
        RawToken::Empty { name, content } => {
            let text = decode_lossy(name.as_slice());
            let wanted = state.reads_records() && names_record(text.as_str());
            match read_tag_attributes(wanted, content, name) {
                Some(attributes) => Some(XmlEvent::Empty { name: text, attributes }),
                None => None,
            }
        },
        RawToken::End { name } => Some(XmlEvent::End { name: decode_lossy(name.as_slice()) }),
        _ => Some(XmlEvent::Other),
    }
}

/// Extracts the timeline from a document.
///
/// The document is read once, front to back. A frame is added for every
/// `frame` start tag; a parameter element is added to the last frame where it
/// stands inside a `frame` and inside a `param`. Everything else is passed
/// over. A document that is not well formed gives no timeline.
pub fn get_frame_settings(xml: &str) -> (result: Result<Vec<Frame>, ExtractError>)
    ensures
        outcome_view(result) == document_timeline(xml@),
{
    let mut reader = open_reader(xml);
    let mut buf: Vec<u8> = Vec::new();
    let mut state = ExtractState::new();
    loop
        invariant
            timeline_from(state@, pending_tokens(reader)) == document_timeline(xml@),
        decreases pending_tokens(reader).len(),
    {
        let ghost pending = pending_tokens(reader);
        let token = next_token(&mut reader, &mut buf);
        match token {
            RawToken::Eof => {
                return Ok(state.frames);
            },
            RawToken::Malformed => {
                return Err(ExtractError::Markup);
            },
            _ => {},
        }
        match resolve_token(&state, &token) {
            Some(event) => {
                proof {
                    lemma_timeline_step(state@, pending);
                }
                state.accept(&event);
            },
            None => {
                return Err(ExtractError::Attributes);
            },
        }
        buf.clear();
    }
}

/// Taking an event and then a run of events is taking the run that starts
/// with the event.
proof fn lemma_run_from_front(
    state: ExtractStateView,
    event: XmlEventView,
    events: Seq<XmlEventView>,
)
    ensures
        state.run(seq![event] + events) == state.step(event).run(events),
    decreases events.len(),
{
    let all = seq![event] + events;
    if events.len() == 0 {
        assert(all.drop_last() =~= Seq::<XmlEventView>::empty());
        assert(state.run(all.drop_last()) == state);
    } else {
        lemma_run_from_front(state, event, events.drop_last());
        assert(all.drop_last() =~= seq![event] + events.drop_last());
        assert(all.last() == events.last());
    }
}

/// The timeline of some tokens is that of the tokens behind the first, from
/// the state after the event of the first.
proof fn lemma_timeline_step(state: ExtractStateView, tokens: Seq<RawTokenView>)
    requires
        tokens.len() > 0,
        !tokens[0].is_terminal(),
        resolve(state, tokens[0]) is Some,
    ensures
        timeline_from(state, tokens) == timeline_from(
            state.step(resolve(state, tokens[0]).unwrap()),
            tokens.skip(1),
        ),
{
    let event = resolve(state, tokens[0]).unwrap();
    match document_events(state.step(event), tokens.skip(1)) {
        Ok(events) => {
            lemma_run_from_front(state, event, events);
        },
        Err(_) => {},
    }
}

/// The timeline of a document that is well formed holds one frame for each
/// `frame` start tag among the events of the document, in the order of the
/// tags and with the index of its tag, whatever else stands between them.
pub proof fn law_document_frames(text: Seq<char>)
    ensures
        document_timeline(text) matches Ok(frames) ==> (document_events(
            ExtractStateView::initial(),
            document_tokens(text),
        ) matches Ok(events) && frames == frames_of(events) && indices_of(frames) == frame_indices(
            events,
        ) && frames.len() == frame_indices(events).len()),
{
    match document_events(ExtractStateView::initial(), document_tokens(text)) {
        Ok(events) => {
            law_one_frame_per_frame_tag(events);
        },
        Err(_) => {},
    }
}

} // verus!
