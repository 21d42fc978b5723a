//! Conversion of per-frame camera post-processing parameters, given as XML,
//! into fixed-format animation-curve records.
//!
//! A document is read into a timeline of frames ([`document`], [`extract`],
//! [`event`], [`frame`]); the XML itself is cut into tags by `quick_xml`
//! ([`xml`]). From the timeline the curves are drawn ([`curve`]): the frames
//! that give a record to a curve are chosen, their numbers are read
//! ([`reading`], [`nearest`], [`digits`]) and written again with six digits
//! behind the point ([`number`], [`text`]). Each curve becomes an asset
//! ([`asset`]) on a page of its own ([`pages`]).

pub mod asset;
pub mod curve;
pub mod digits;
pub mod document;
pub mod event;
pub mod extract;
pub mod frame;
pub mod nearest;
pub mod number;
pub mod pages;
pub mod reading;
pub mod text;
pub mod xml;
