//! The record that the reordering works on.

use vstd::prelude::*;
use crate::bandwidth::bandwidth_value;

verus! {

/// One entry of a master playlist's variant list: the three attributes that
/// decide its place, and everything else about it as `payload`, which is
/// carried along untouched.
#[derive(Debug, Clone, PartialEq, Eq)]
pub struct Variant<P> {
    /// Whether this is an I-frame-only (trick play) variant.
    pub is_i_frame: bool,
    /// The identifier of the audio rendition group, if the variant names one.
    pub audio: Option<String>,
    /// The peak bit rate in bits per second, as written in the manifest.
    pub bandwidth: String,
    /// The rest of the entry.
    pub payload: P,
}

impl<P> Variant<P> {
    /// The audio group identifier as a sequence of characters.
    pub open spec fn group_id(self) -> Option<Seq<char>> {
        match self.audio {
            Some(id) => Some(id@),
            None => None,
        }
    }

    /// The number that the bandwidth text denotes, if it denotes one.
    pub open spec fn rate(self) -> Option<nat> {
        bandwidth_value(self.bandwidth@)
    }

    /// The sort key: the bandwidth as a number (0 where the text denotes none).
    pub open spec fn rate_or_zero(self) -> nat {
        match self.rate() {
            Some(n) => n,
            None => 0,
        }
    }

    /// A regular variant without an audio group.
    pub open spec fn is_ungrouped(self) -> bool {
        !self.is_i_frame && self.audio is None
    }

    /// A variant whose bandwidth text denotes no number.
    pub open spec fn is_malformed(self) -> bool {
        self.rate() is None
    }

    /// A regular variant of the audio group `id`.
    pub open spec fn in_group(self, id: Seq<char>) -> bool {
        !self.is_i_frame && self.group_id() == Some(id)
    }
}

/// The payloads of `variants`, in order.
pub fn payloads<P>(variants: Vec<Variant<P>>) -> (out: Vec<P>)
    ensures
        out@ == variants@.map_values(|v: Variant<P>| v.payload),
{
    let ghost s = variants@;
    let mut out: Vec<P> = Vec::new();
    for v in it: variants
        invariant
            it.seq() == s,
            out@ == s.take(it.index() as int).map_values(|v: Variant<P>| v.payload),
    {
        proof {
            let n: int = it.index() as int;
            assert(s.take(n + 1) =~= s.take(n).push(v));
            s.take(n).lemma_push_map_commute(|v: Variant<P>| v.payload, v);
        }
        out.push(v.payload);
    }
    assert(s.take(s.len() as int) =~= s);
    out
}

} // verus!
