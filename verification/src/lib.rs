//! Reordering the variant streams of an HLS master playlist.
//!
//! Regular variants are grouped by audio group, the groups put in ascending
//! order of their identifiers, and the I-frame variants put last; within
//! each block the highest bandwidth comes first. [`reorder::reorder`] does
//! this for a list of [`variant::Variant`] records, [`playlist::reorder_playlist`]
//! for a playlist parsed by `m3u8_rs`, and [`render::render`] goes from
//! manifest text to what is shown of the reordered playlist. The module
//! [`laws`] holds what is proved of the order.

pub mod bandwidth;
pub mod error;
pub mod grouping;
pub mod laws;
pub mod playlist;
pub mod render;
pub mod reorder;
pub mod sequences;
pub mod sorting;
pub mod text;
pub mod variant;
