//! Sets of phrases that can be searched by an approximate spelling, by the beginning of a phrase,
//! and anywhere in a text.
//!
//! A [`builder`] collects phrases and works out what the indexes of a set have to hold. From
//! indexes that were read, [`open`] puts a set together, and [`search`], [`windows`] and [`multi`]
//! search it. The indexes themselves are lookup functions, which the caller brings along; see
//! [`index`]. What the searches make of any replies is proved in [`reply_laws`]; what they come to,
//! where the indexes hold what a builder laid out, in [`laws`], [`fuzzy_laws`], [`distance_laws`],
//! [`steady_laws`], [`window_laws`], [`substring_laws`] and [`multi_laws`]. What the values that the
//! contracts speak of are in plain terms is proved in [`plain_laws`].

pub mod builder;
pub mod distance_laws;
pub mod fuzzy_laws;
pub mod index;
pub mod laws;
pub mod metadata;
pub mod multi;
pub mod multi_laws;
pub mod open;
pub mod order;
pub mod plain_laws;
pub mod query;
pub mod reply_laws;
pub mod script;
pub mod search;
pub mod steady_laws;
pub mod substring_laws;
pub mod text;
pub mod window_laws;
pub mod windows;
