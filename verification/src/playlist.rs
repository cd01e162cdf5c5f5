//! Reordering the variant list of a parsed master playlist.
//!
//! The playlist and its variant streams are values of the `m3u8_rs` crate.
//! They are carried through as they are; what the reordering needs to know
//! of a stream is copied out of it into a [`Variant`].

use vstd::prelude::*;
use m3u8_rs::playlist::{MasterPlaylist, VariantStream};
use crate::error::ReorderError;
use crate::reorder::{reorder, reorder_outcome};
use crate::sequences::lemma_map_permutation;
use crate::variant::{payloads, Variant};

verus! {

/// `m3u8_rs::playlist::MasterPlaylist`: nothing inside it is seen here.
#[verifier::external_type_specification]
#[verifier::external_body]
pub struct ExMasterPlaylist(MasterPlaylist);

/// `m3u8_rs::playlist::VariantStream`: nothing inside it is seen here.
#[verifier::external_type_specification]
#[verifier::external_body]
pub struct ExVariantStream(VariantStream);

/// The variant streams that a master playlist holds, in order.
pub uninterp spec fn playlist_streams(playlist: MasterPlaylist) -> Seq<VariantStream>;

/// A master playlist with its variant streams replaced by `streams` and
/// all else as it is.
pub uninterp spec fn with_streams(
    playlist: MasterPlaylist,
    streams: Seq<VariantStream>,
) -> MasterPlaylist;

/// The record that stands for a variant stream in the reordering: its
/// I-frame flag, audio group and bandwidth, with the stream as payload.
pub uninterp spec fn keyed(stream: VariantStream) -> Variant<VariantStream>;

/// Takes the variant streams out of `playlist`, which keeps everything else
/// (`std::mem::take` on its `variants` field). Trusted: the streams come out
/// in their order, none is left behind, and replacing the streams afterwards
/// gives what replacing them before would have given.
#[verifier::external_body]
fn take_streams(playlist: &mut MasterPlaylist) -> (streams: Vec<VariantStream>)
    ensures
        streams@ == playlist_streams(*old(playlist)),
        playlist_streams(*final(playlist)) == Seq::<VariantStream>::empty(),
        forall|s: Seq<VariantStream>| #[trigger]
            with_streams(*final(playlist), s) == with_streams(*old(playlist), s),
{
    std::mem::take(&mut playlist.variants)
}

/// Moves `streams` to the end of the variant list of `playlist`
/// (`Vec::append` on its `variants` field). Trusted: the playlist then holds
/// its former streams followed by `streams`, and `streams` is left empty.
#[verifier::external_body]
fn append_streams(playlist: &mut MasterPlaylist, streams: &mut Vec<VariantStream>)
    ensures
        *final(playlist) == with_streams(
            *old(playlist),
            playlist_streams(*old(playlist)) + old(streams)@,
        ),
        playlist_streams(*final(playlist)) == playlist_streams(*old(playlist)) + old(streams)@,
        final(streams)@ == Seq::<VariantStream>::empty(),
{
    playlist.variants.append(streams)
}

/// Makes the record for `stream`: copies of its `is_i_frame`, `audio` and
/// `bandwidth` fields, and the stream itself as payload. Trusted: the
/// payload is the stream, and the same stream always gives the same record.
#[verifier::external_body]
fn keyed_stream(stream: VariantStream) -> (variant: Variant<VariantStream>)
    ensures
        variant == keyed(stream),
        variant.payload == stream,
{
    Variant {
        is_i_frame: stream.is_i_frame,
        audio: stream.audio.clone(),
        bandwidth: stream.bandwidth.clone(),
        payload: stream,
    }
}

/// The records that stand for `streams`.
pub open spec fn keyed_all(streams: Seq<VariantStream>) -> Seq<Variant<VariantStream>> {
    streams.map_values(|s: VariantStream| keyed(s))
}

/// The streams that the records `variants` carry.
pub open spec fn streams_of(variants: Seq<Variant<VariantStream>>) -> Seq<VariantStream> {
    variants.map_values(|v: Variant<VariantStream>| v.payload)
}

/// What reordering the variant streams of `playlist` gives: the playlist
/// with its streams in the final order, or the failure.
pub open spec fn reorder_playlist_outcome(
    playlist: MasterPlaylist,
) -> Result<MasterPlaylist, ReorderError> {
    match reorder_outcome(keyed_all(playlist_streams(playlist))) {
        Ok(variants) => Ok(with_streams(playlist, streams_of(variants))),
        Err(e) => Err(e),
    }
}

/// The records for `streams`, in order.
fn variants_of(streams: Vec<VariantStream>) -> (out: Vec<Variant<VariantStream>>)
    ensures
        out@ == keyed_all(streams@),
        streams_of(out@) == streams@,
{
    let ghost s = streams@;
    let mut out: Vec<Variant<VariantStream>> = Vec::new();
    for stream in it: streams
        invariant
            it.seq() == s,
            out@ == keyed_all(s.take(it.index() as int)),
            streams_of(out@) == s.take(it.index() as int),
    {
        proof {
            let n: int = it.index() as int;
            assert(s.take(n + 1) =~= s.take(n).push(stream));
            s.take(n).lemma_push_map_commute(|s: VariantStream| keyed(s), stream);
        }
        let ghost before = out@;
        let variant = keyed_stream(stream);
        proof {
            before.lemma_push_map_commute(|v: Variant<VariantStream>| v.payload, variant);
        }
        out.push(variant);
    }
    assert(s.take(s.len() as int) =~= s);
    out
}

/// Reorders the variant streams of a master playlist and leaves the rest of
/// it alone: regular variants audio group by audio group, the groups in
/// ascending order of their identifiers, then the I-frame variants, each
/// block by bandwidth, highest first. The playlist then holds the streams it
/// held before, each as often. Fails, and gives no playlist, where a regular
/// variant names no audio group or a bandwidth is malformed.
pub fn reorder_playlist(playlist: MasterPlaylist) -> (r: Result<MasterPlaylist, ReorderError>)
    ensures
        r == reorder_playlist_outcome(playlist),
        r matches Ok(sorted) ==> playlist_streams(sorted).to_multiset() == playlist_streams(
            playlist,
        ).to_multiset(),
{
    let mut playlist = playlist;
    let streams = take_streams(&mut playlist);
    let keyed = variants_of(streams);
    let ghost unsorted = keyed@;
    match reorder(keyed) {
        Ok(variants) => {
            let mut sorted = payloads(variants);
            proof {
                lemma_map_permutation(
                    variants@,
                    unsorted,
                    |v: Variant<VariantStream>| v.payload,
                );
            }
            assert(Seq::<VariantStream>::empty() + sorted@ =~= sorted@);
            append_streams(&mut playlist, &mut sorted);
            Ok(playlist)
        },
        Err(e) => Err(e),
    }
}

} // verus!
