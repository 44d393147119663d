//! A bilingual dictionary engine: it parses a flat-text corpus of
//! dictionary lines into structured entries, builds an immutable index of
//! headwords sorted in ascending order, and answers exact and bounded
//! edit-distance queries over that index, ranking prefix matches first.
//! The built dictionary can be encoded to a byte blob and decoded back,
//! so a later run can skip the parse.

pub mod builder;
pub mod codec;
pub mod dict;
pub mod index;
pub mod parse;
pub mod query;
pub mod text;
