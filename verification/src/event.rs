//! The pieces of a document that the extractor takes.

use crate::text::text_is;
use vstd::prelude::*;

verus! {

/// An attribute of a tag: its key and its value as written.
#[derive(Debug, Clone)]
pub struct XmlAttribute {
    pub key: String,
    pub value: String,
}

/// The model of an attribute: its key and its value as texts.
pub struct XmlAttributeView {
    pub key: Seq<char>,
    pub value: Seq<char>,
}

impl View for XmlAttribute {
    type V = XmlAttributeView;

    open spec fn view(&self) -> XmlAttributeView {
        XmlAttributeView { key: self.key@, value: self.value@ }
    }
}

impl DeepView for XmlAttribute {
    type V = XmlAttributeView;

    open spec fn deep_view(&self) -> XmlAttributeView {
        self@
    }
}

/// A piece of a document, as the extractor sees it.
#[derive(Debug, Clone)]
pub enum XmlEvent {
    /// `<name ...>`
    Start { name: String, attributes: Vec<XmlAttribute> },
    /// `</name>`
    End { name: String },
    /// `<name ... />`
    Empty { name: String, attributes: Vec<XmlAttribute> },
    /// Anything that is no tag.
    Other,
}

/// The model of an event.
pub enum XmlEventView {
    Start { name: Seq<char>, attributes: Seq<XmlAttributeView> },
    End { name: Seq<char> },
    Empty { name: Seq<char>, attributes: Seq<XmlAttributeView> },
    Other,
}

impl View for XmlEvent {
    type V = XmlEventView;

    open spec fn view(&self) -> XmlEventView {
        match self {
            XmlEvent::Start { name, attributes } => XmlEventView::Start {
                name: name@,
                attributes: attributes.deep_view(),
            },
            XmlEvent::End { name } => XmlEventView::End { name: name@ },
            XmlEvent::Empty { name, attributes } => XmlEventView::Empty {
                name: name@,
                attributes: attributes.deep_view(),
            },
            XmlEvent::Other => XmlEventView::Other,
        }
    }
}

impl DeepView for XmlEvent {
    type V = XmlEventView;

    open spec fn deep_view(&self) -> XmlEventView {
        self@
    }
}

/// The value of the attribute `key`: that of its last occurrence, and the
/// empty text where the key does not occur.
pub open spec fn attribute_value(attributes: Seq<XmlAttributeView>, key: Seq<char>) -> Seq<char>
    decreases attributes.len(),
{
    if attributes.len() == 0 {
        Seq::empty()
    } else if attributes.last().key == key {
        attributes.last().value
    } else {
        attribute_value(attributes.drop_last(), key)
    }
}

/// Looks an attribute up by its key.
pub fn find_attribute(attributes: &Vec<XmlAttribute>, key: &str) -> (value: String)
    ensures
        value@ == attribute_value(attributes.deep_view(), key@),
{
    let mut value = String::new();
    let mut i: usize = 0;
    while i < attributes.len()
        invariant
            i <= attributes.len(),
            value@ == attribute_value(attributes.deep_view().take(i as int), key@),
        decreases attributes.len() - i,
    {
        proof {
            let next = attributes.deep_view().take(i + 1);
            assert(next.drop_last() =~= attributes.deep_view().take(i as int));
            assert(next.last() == attributes[i as int]@);
        }
        if text_is(attributes[i].key.as_str(), key) {
            value = attributes[i].value.clone();
        }
        i = i + 1;
    }
    assert(attributes.deep_view().take(i as int) =~= attributes.deep_view());
    value
}

} // verus!
