//! The boundary to the XML tokenizer.
//!
//! The document is cut into tags by `quick_xml`. What this module states about
//! the tokenizer is believed, not proved: each item below says what it takes
//! for granted.

use quick_xml::events::{BytesStart, Event};
use quick_xml::Reader;
use vstd::prelude::*;
use vstd::utf8::*;

verus! {

/// `quick_xml::Reader`, the pull tokenizer. Its inside is not visible here.
#[verifier::external_type_specification]
#[verifier::external_body]
#[verifier::reject_recursive_types(R)]
pub struct ExReader<R>(Reader<R>);

/// What one read of the tokenizer gave, with the parts of a tag as the bytes
/// found in the document.
#[derive(Debug)]
pub enum RawToken {
    /// `<name ...>`: the name, and all that stands between `<` and `>`.
    Start { name: Vec<u8>, content: Vec<u8> },
    /// `<name ... />`: the name, and all that stands between `<` and `/>`.
    Empty { name: Vec<u8>, content: Vec<u8> },
    /// `</name>`.
    End { name: Vec<u8> },
    /// Text, a comment, a declaration, and whatever else is no tag.
    Other,
    /// The end of the document.
    Eof,
    /// The document is not well formed at this point.
    Malformed,
}

/// The model of a token: the parts of a tag as sequences of bytes.
pub enum RawTokenView {
    Start { name: Seq<u8>, content: Seq<u8> },
    Empty { name: Seq<u8>, content: Seq<u8> },
    End { name: Seq<u8> },
    Other,
    Eof,
    Malformed,
}

impl View for RawToken {
    type V = RawTokenView;

    open spec fn view(&self) -> RawTokenView {
        match self {
            RawToken::Start { name, content } => RawTokenView::Start {
                name: name@,
                content: content@,
            },
            RawToken::Empty { name, content } => RawTokenView::Empty {
                name: name@,
                content: content@,
            },
            RawToken::End { name } => RawTokenView::End { name: name@ },
            RawToken::Other => RawTokenView::Other,
            RawToken::Eof => RawTokenView::Eof,
            RawToken::Malformed => RawTokenView::Malformed,
        }
    }
}

impl RawTokenView {
    /// After `Eof` and after `Malformed` the tokenizer gives nothing more.
    pub open spec fn is_terminal(self) -> bool {
        self is Eof || self is Malformed
    }
}

/// The tokens of a whole document: what the successive reads of a tokenizer
/// over `text`, with the trimming of text switched on, give, up to and
/// including the first `Eof` or `Malformed`.
pub uninterp spec fn document_tokens(text: Seq<char>) -> Seq<RawTokenView>;

/// The tokens that a tokenizer has yet to give, up to and including the first
/// `Eof` or `Malformed`.
pub uninterp spec fn pending_tokens(reader: Reader<&[u8]>) -> Seq<RawTokenView>;

/// The attributes of a tag, as pairs of key and raw value in the order of the
/// tag, where `content` is all of the tag between its brackets and its name
/// is the first `name_len` bytes of that; `None` where the list is malformed
/// or names a key twice.
pub uninterp spec fn tag_attributes(content: Seq<u8>, name_len: nat) -> Option<
    Seq<(Seq<u8>, Seq<u8>)>,
>;

/// The text that a lossy decoding of `bytes` gives.
pub uninterp spec fn lossy_text(bytes: Seq<u8>) -> Seq<char>;

/// Calls `Reader::from_str` and `Reader::trim_text(true)`. A tokenizer is a
/// function of the text it reads and of its settings, so what it will give is
/// named after the text.
#[verifier::external_body]
pub(crate) fn open_reader<'a>(xml: &'a str) -> (reader: Reader<&'a [u8]>)
    ensures
        pending_tokens(reader) == document_tokens(xml@),
{
    let mut reader = Reader::from_str(xml);
    reader.trim_text(true);
    reader
}

/// Calls `Reader::read_event_into`. Every read gives the first of the pending
/// tokens. After a tag or another piece of the document the rest stays
/// pending: each such read moves forward in a finite text. An error is
/// reported as `Malformed`.
#[verifier::external_body]
pub(crate) fn next_token(reader: &mut Reader<&[u8]>, buf: &mut Vec<u8>) -> (token: RawToken)
    ensures
        pending_tokens(*old(reader)).len() > 0,
        token@ == pending_tokens(*old(reader))[0],
        !token@.is_terminal() ==> pending_tokens(*final(reader)) == pending_tokens(
            *old(reader),
        ).skip(1),
{
    match reader.read_event_into(buf) {
        Ok(Event::Start(e)) => RawToken::Start { name: e.name().as_ref().to_vec(), content: e.to_vec() },
        Ok(Event::Empty(e)) => RawToken::Empty { name: e.name().as_ref().to_vec(), content: e.to_vec() },
        Ok(Event::End(e)) => RawToken::End { name: e.name().as_ref().to_vec() },
        Ok(Event::Eof) => RawToken::Eof,
        Ok(_) => RawToken::Other,
        Err(_) => RawToken::Malformed,
    }
}

/// Calls `BytesStart::attributes` on a tag made of `content` by
/// `BytesStart::from_content`, and collects what the iterator gives up to its
/// first error. The iterator starts behind the name, so the name must lie
/// within the content.
#[verifier::external_body]
pub(crate) fn read_attributes(content: &[u8], name_len: usize) -> (pairs: Option<
    Vec<(Vec<u8>, Vec<u8>)>,
>)
    requires
        name_len <= content@.len(),
    ensures
        pairs.deep_view() == tag_attributes(content@, name_len as nat),
{
    BytesStart::from_content(String::from_utf8_lossy(content), name_len)
        .attributes()
        .map(|a| a.ok().map(|a| (a.key.as_ref().to_vec(), a.value.to_vec())))
        .collect()
}

/// Calls `String::from_utf8_lossy`. Bytes that are valid UTF-8 give the text
/// that they encode.
#[verifier::external_body]
pub(crate) fn decode_lossy(bytes: &[u8]) -> (text: String)
    ensures
        text@ == lossy_text(bytes@),
        valid_utf8(bytes@) ==> text@ == decode_utf8(bytes@),
{
    String::from_utf8_lossy(bytes).into_owned()
}

} // verus!
