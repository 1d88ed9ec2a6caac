//! The library's cross-function laws, stated over the same spec
//! functions the operations' contracts use. The codec's round-trip laws
//! stand beside the codec itself (`lemma_decode_encode`,
//! `lemma_encode_decode`, `lemma_encode_injective`).

use vstd::prelude::*;
use crate::codec::{fits, lemma_decode_encode, spec_decode, spec_encode};
use crate::event::{no_dup, EventView};
use crate::entity::attended_view;

verus! {

/// Issued ids strictly increase and are never reused, across restarts
/// too: every id ever issued or stored sits below the counter
/// (`store_wf`, and `create_event`'s ensures), every operation leaves the
/// counter the same or one higher, and `restart` preserves it; so an id
/// issued from a later counter state exceeds every id issued before.
pub proof fn lemma_ids_strictly_increase(earlier_id: u64, c1: u64, c2: u64)
    requires
        earlier_id < c1,
        c1 <= c2,
    ensures
        c2 > earlier_id,
{
}

/// Reading back a freshly stored event yields exactly that event: after
/// a create (or update, or attend) stores `spec_encode(v)` under `v.id`,
/// the lookup decodes those bytes to `v` and nothing else.
pub proof fn lemma_store_then_get(recs: Map<u64, Seq<u8>>, v: EventView)
    requires
        fits(v),
    ensures
        spec_decode(recs.insert(v.id, spec_encode(v))[v.id]) == Some(v),
{
    lemma_decode_encode(v);
}

/// Attending is idempotent in effect: when `who` is not yet an attendee,
/// one attend appends exactly one entry and makes `who` a member — so a
/// second attend by the same identity reports `AlreadyAttending` and the
/// list has grown by exactly one in total. Duplicate-freedom is kept.
pub proof fn lemma_attend_twice(v: EventView, who: Seq<u8>)
    requires
        !v.attendees.contains(who),
    ensures
        attended_view(v, who).attendees.contains(who),
        attended_view(v, who).attendees.len() == v.attendees.len() + 1,
        no_dup(v.attendees) ==> no_dup(attended_view(v, who).attendees),
{
    let atts = attended_view(v, who).attendees;
    assert(atts[v.attendees.len() as int] == who);
    if no_dup(v.attendees) {
        assert forall|i: int, j: int| 0 <= i < j < atts.len() implies atts[i] != atts[j] by {
            if j == v.attendees.len() {
                assert(atts[i] == v.attendees[i]);
                assert(!v.attendees.contains(who));
            }
        }
    }
}

/// A deleted id is gone: after the record table drops an id, a lookup of
/// that id finds nothing — and by `lemma_ids_strictly_increase` no later
/// create hands the id out again.
pub proof fn lemma_delete_then_get(recs: Map<u64, Seq<u8>>, id: u64)
    ensures
        !recs.remove(id).contains_key(id),
{
}

} // verus!
