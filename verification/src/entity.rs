//! The entity service: create/read/update/attend/delete over the store,
//! gated by an ownership check. Every operation is read-modify-write: it
//! loads the record, validates, and re-inserts under the same id; a
//! validation failure leaves the stored bytes unchanged. Domain errors
//! (`NotFound`, `NotAuthorized`, `AlreadyAttending`) surface to the
//! caller; a storage invariant violation (an oversized record, an
//! exhausted counter) surfaces as the distinct `StorageFault` kind.

use vstd::prelude::*;
use crate::codec::{
    att_views, decode, encode, event_fits, fits, lemma_decode_encode, spec_decode, spec_encode,
    MAX_RECORD_BYTES,
};
use crate::event::{no_dup, Error, Event, EventPayload, EventView, Identity, PayloadView};
use crate::store::{no_records, store_counter, store_records, Store};

verus! {

/// The id the first created event receives.
pub const FIRST_ID: u64 = 1;

/// The record stored under `id` decodes to a well-formed event carrying
/// that id, issued while the counter was still below its current value.
pub open spec fn record_ok(recs: Map<u64, Seq<u8>>, counter: u64, id: u64) -> bool {
    let b = recs[id];
    match spec_decode(b) {
        Some(v) => {
            &&& v.id == id
            &&& id < counter
            &&& b.len() <= MAX_RECORD_BYTES
            &&& no_dup(v.attendees)
        },
        None => false,
    }
}

/// The store's invariant: every stored record is a well-formed encoding.
pub open spec fn store_wf(s: Store) -> bool {
    forall|id: u64| #[trigger]
        store_records(s).contains_key(id) ==> record_ok(store_records(s), store_counter(s), id)
}

/// The event stored under `id`, as a mathematical value.
pub open spec fn stored_event(s: Store, id: u64) -> EventView
    recommends
        store_records(s).contains_key(id),
{
    spec_decode(store_records(s)[id])->0
}

/// The event a create request stores.
pub open spec fn created_view(id: u64, owner: Seq<u8>, now: u64, p: PayloadView) -> EventView {
    EventView {
        id,
        event_description: p.event_description,
        owner,
        event_title: p.event_title,
        event_location: p.event_location,
        event_card_imgurl: p.event_card_imgurl,
        attendees: Seq::empty(),
        created_at: now,
        updated_at: None,
    }
}

/// The event an update request stores in place of `v`.
pub open spec fn updated_view(v: EventView, p: PayloadView, now: u64) -> EventView {
    EventView {
        event_description: p.event_description,
        event_title: p.event_title,
        event_location: p.event_location,
        event_card_imgurl: p.event_card_imgurl,
        updated_at: Some(now),
        ..v
    }
}

/// The event an attend request stores in place of `v`.
pub open spec fn attended_view(v: EventView, who: Seq<u8>) -> EventView {
    EventView { attendees: v.attendees.push(who), ..v }
}

/// Inserting a well-formed record under an id below the (possibly
/// advanced) counter preserves the store invariant.
proof fn lemma_wf_after_insert(recs: Map<u64, Seq<u8>>, c0: u64, c1: u64, v: EventView)
    requires
        forall|k: u64| #[trigger] recs.contains_key(k) ==> record_ok(recs, c0, k),
        fits(v),
        no_dup(v.attendees),
        v.id < c1,
        c0 <= c1,
    ensures
        forall|k: u64| #[trigger]
            recs.insert(v.id, spec_encode(v)).contains_key(k) ==> record_ok(
                recs.insert(v.id, spec_encode(v)),
                c1,
                k,
            ),
{
    lemma_decode_encode(v);
    let recs1 = recs.insert(v.id, spec_encode(v));
    assert forall|k: u64| #[trigger] recs1.contains_key(k) implies record_ok(recs1, c1, k) by {
        if k == v.id {
            assert(recs1[k] == spec_encode(v));
        } else {
            assert(recs.contains_key(k));
            assert(recs1[k] == recs[k]);
        }
    }
}

/// The ownership gate: accepts exactly the stored event's owner.
pub fn validate_owner(event: &Event, caller: &Identity) -> (r: Result<(), Error>)
    ensures
        r is Ok <==> event@.owner == caller@,
        r is Err ==> r == Err::<(), Error>(Error::NotAuthorized),
{
    if event.owner.same_as(caller) {
        Ok(())
    } else {
        Err(Error::NotAuthorized)
    }
}

/// Opens the store the service runs on: a fresh, empty address space
/// whose counter starts at `FIRST_ID`.
pub fn init_store() -> (s: Store)
    ensures
        store_wf(s),
        store_counter(s) == FIRST_ID,
        store_records(s) == no_records(),
{
    Store::open(FIRST_ID)
}

/// Hands the same persisted state back through a fresh set of handles,
/// as a process restart does: nothing stored is lost or changed.
pub fn restart(s: Store) -> (r: Store)
    ensures
        store_counter(r) == store_counter(s),
        store_records(r) == store_records(s),
        store_wf(s) ==> store_wf(r),
{
    s.reopen()
}

/// Looks an event up by id: the decoded record, or `NotFound`.
pub fn get_event(store: &Store, id: u64) -> (r: Result<Event, Error>)
    requires
        store_wf(*store),
    ensures
        store_records(*store).contains_key(id) ==> (r matches Ok(e) && e@ == stored_event(
            *store,
            id,
        )),
        !store_records(*store).contains_key(id) ==> r == Err::<Event, Error>(Error::NotFound),
{
    match store.table_get(id) {
        None => Err(Error::NotFound),
        Some(bytes) => {
            proof {
                assert(record_ok(store_records(*store), store_counter(*store), id));
            }
            match decode(&bytes) {
                Some(e) => Ok(e),
                None => {
                    proof {
                        assert(false);
                    }
                    Err(Error::StorageFault)
                },
            }
        },
    }
}

/// Creates a new event owned by `caller`, stamped `now`: allocates the
/// next id from the durable counter, stores the encoded record, and
/// returns the event. Fails only as `StorageFault`, when the record would
/// exceed the size cap or the counter is exhausted, leaving the store
/// unchanged.
pub fn create_event(store: &mut Store, caller: &Identity, now: u64, payload: EventPayload) -> (r:
    Result<Event, Error>)
    requires
        store_wf(*old(store)),
    ensures
        store_wf(*final(store)),
        ({
            let v = created_view(store_counter(*old(store)), caller@, now, payload@);
            if fits(v) && store_counter(*old(store)) < u64::MAX {
                &&& r matches Ok(e) && e@ == v
                &&& store_counter(*final(store)) == store_counter(*old(store)) + 1
                &&& store_records(*final(store)) == store_records(*old(store)).insert(
                    v.id,
                    spec_encode(v),
                )
            } else {
                &&& r == Err::<Event, Error>(Error::StorageFault)
                &&& store_counter(*final(store)) == store_counter(*old(store))
                &&& store_records(*final(store)) == store_records(*old(store))
            }
        }),
{
    let id = store.counter_get();
    let e = Event {
        id,
        event_description: payload.event_description,
        owner: caller.duplicate(),
        event_title: payload.event_title,
        event_location: payload.event_location,
        event_card_imgurl: payload.event_card_imgurl,
        attendees: Vec::new(),
        created_at: now,
        updated_at: None,
    };
    proof {
        assert(e@ =~= created_view(store_counter(*old(store)), caller@, now, payload@));
    }
    if id == u64::MAX {
        return Err(Error::StorageFault);
    }
    if !event_fits(&e) {
        return Err(Error::StorageFault);
    }
    let bytes = encode(&e);
    store.counter_set(id + 1);
    store.table_insert(id, bytes);
    proof {
        lemma_wf_after_insert(
            store_records(*old(store)),
            store_counter(*old(store)),
            (id + 1) as u64,
            e@,
        );
    }
    Ok(e)
}

/// Replaces the caller-editable fields of the event under `id` and stamps
/// `updated_at`, provided the caller owns it. `NotFound` and
/// `NotAuthorized` leave the stored record byte-for-byte unchanged, as
/// does the `StorageFault` raised when the new record would exceed the
/// size cap.
pub fn update_event(
    store: &mut Store,
    caller: &Identity,
    now: u64,
    id: u64,
    payload: EventPayload,
) -> (r: Result<Event, Error>)
    requires
        store_wf(*old(store)),
    ensures
        store_wf(*final(store)),
        store_counter(*final(store)) == store_counter(*old(store)),
        !store_records(*old(store)).contains_key(id) ==> r == Err::<Event, Error>(Error::NotFound)
            && store_records(*final(store)) == store_records(*old(store)),
        store_records(*old(store)).contains_key(id) && stored_event(*old(store), id).owner
            != caller@ ==> r == Err::<Event, Error>(Error::NotAuthorized) && store_records(
            *final(store),
        ) == store_records(*old(store)),
        store_records(*old(store)).contains_key(id) && stored_event(*old(store), id).owner
            == caller@ ==> ({
            let v1 = updated_view(stored_event(*old(store), id), payload@, now);
            if fits(v1) {
                &&& r matches Ok(e) && e@ == v1
                &&& store_records(*final(store)) == store_records(*old(store)).insert(
                    id,
                    spec_encode(v1),
                )
            } else {
                &&& r == Err::<Event, Error>(Error::StorageFault)
                &&& store_records(*final(store)) == store_records(*old(store))
            }
        }),
{
    let e0 = match store.table_get(id) {
        None => { return Err(Error::NotFound); },
        Some(bytes) => {
            proof {
                assert(record_ok(store_records(*old(store)), store_counter(*old(store)), id));
            }
            match decode(&bytes) {
                Some(e0) => e0,
                None => {
                    proof {
                        assert(false);
                    }
                    return Err(Error::StorageFault);
                },
            }
        },
    };
    if let Err(err) = validate_owner(&e0, caller) {
        return Err(err);
    }
    let e1 = Event {
        event_description: payload.event_description,
        event_title: payload.event_title,
        event_location: payload.event_location,
        event_card_imgurl: payload.event_card_imgurl,
        updated_at: Some(now),
        ..e0
    };
    proof {
        assert(e1@ =~= updated_view(stored_event(*old(store), id), payload@, now));
    }
    if !event_fits(&e1) {
        return Err(Error::StorageFault);
    }
    let bytes = encode(&e1);
    store.table_insert(id, bytes);
    proof {
        lemma_wf_after_insert(
            store_records(*old(store)),
            store_counter(*old(store)),
            store_counter(*old(store)),
            e1@,
        );
    }
    Ok(e1)
}

/// Appends `caller` to the attendee list of the event under `id`, unless
/// already present. `NotFound` and `AlreadyAttending` leave the stored
/// record unchanged, as does the `StorageFault` raised when the grown
/// record would exceed the size cap.
pub fn attend_event(store: &mut Store, caller: &Identity, id: u64) -> (r: Result<Event, Error>)
    requires
        store_wf(*old(store)),
    ensures
        store_wf(*final(store)),
        store_counter(*final(store)) == store_counter(*old(store)),
        !store_records(*old(store)).contains_key(id) ==> r == Err::<Event, Error>(Error::NotFound)
            && store_records(*final(store)) == store_records(*old(store)),
        store_records(*old(store)).contains_key(id) && stored_event(
            *old(store),
            id,
        ).attendees.contains(caller@) ==> r == Err::<Event, Error>(Error::AlreadyAttending)
            && store_records(*final(store)) == store_records(*old(store)),
        store_records(*old(store)).contains_key(id) && !stored_event(
            *old(store),
            id,
        ).attendees.contains(caller@) ==> ({
            let v1 = attended_view(stored_event(*old(store), id), caller@);
            if fits(v1) {
                &&& r matches Ok(e) && e@ == v1
                &&& store_records(*final(store)) == store_records(*old(store)).insert(
                    id,
                    spec_encode(v1),
                )
            } else {
                &&& r == Err::<Event, Error>(Error::StorageFault)
                &&& store_records(*final(store)) == store_records(*old(store))
            }
        }),
{
    let e0 = match store.table_get(id) {
        None => { return Err(Error::NotFound); },
        Some(bytes) => {
            proof {
                assert(record_ok(store_records(*old(store)), store_counter(*old(store)), id));
            }
            match decode(&bytes) {
                Some(e0) => e0,
                None => {
                    proof {
                        assert(false);
                    }
                    return Err(Error::StorageFault);
                },
            }
        },
    };
    if crate::event::attendees_contain(&e0.attendees, caller) {
        return Err(Error::AlreadyAttending);
    }
    let mut e1 = e0;
    e1.attendees.push(caller.duplicate());
    proof {
        assert(e1@.attendees =~= att_views(e1.attendees@));
        assert(e1@ =~= attended_view(stored_event(*old(store), id), caller@));
        assert forall|i: int, j: int|
            0 <= i < j < e1@.attendees.len() implies e1@.attendees[i] != e1@.attendees[j] by {
            let v0 = stored_event(*old(store), id);
            if j == v0.attendees.len() {
                assert(v0.attendees[i] == e1@.attendees[i]);
                assert(!v0.attendees.contains(caller@));
            }
        }
        assert(no_dup(e1@.attendees));
    }
    if !event_fits(&e1) {
        return Err(Error::StorageFault);
    }
    let bytes = encode(&e1);
    store.table_insert(id, bytes);
    proof {
        lemma_wf_after_insert(
            store_records(*old(store)),
            store_counter(*old(store)),
            store_counter(*old(store)),
            e1@,
        );
    }
    Ok(e1)
}

/// Removes the event under `id` and returns its last stored value,
/// provided the caller owns it. `NotFound` and `NotAuthorized` leave the
/// stored record unchanged; the id is never handed out again, since the
/// counter does not move.
pub fn delete_event(store: &mut Store, caller: &Identity, id: u64) -> (r: Result<Event, Error>)
    requires
        store_wf(*old(store)),
    ensures
        store_wf(*final(store)),
        store_counter(*final(store)) == store_counter(*old(store)),
        !store_records(*old(store)).contains_key(id) ==> r == Err::<Event, Error>(Error::NotFound)
            && store_records(*final(store)) == store_records(*old(store)),
        store_records(*old(store)).contains_key(id) && stored_event(*old(store), id).owner
            != caller@ ==> r == Err::<Event, Error>(Error::NotAuthorized) && store_records(
            *final(store),
        ) == store_records(*old(store)),
        store_records(*old(store)).contains_key(id) && stored_event(*old(store), id).owner
            == caller@ ==> (r matches Ok(e) && e@ == stored_event(*old(store), id)
            && store_records(*final(store)) == store_records(*old(store)).remove(id)),
{
    let e0 = match store.table_get(id) {
        None => { return Err(Error::NotFound); },
        Some(bytes) => {
            proof {
                assert(record_ok(store_records(*old(store)), store_counter(*old(store)), id));
            }
            match decode(&bytes) {
                Some(e0) => e0,
                None => {
                    proof {
                        assert(false);
                    }
                    return Err(Error::StorageFault);
                },
            }
        },
    };
    if let Err(err) = validate_owner(&e0, caller) {
        return Err(err);
    }
    store.table_remove(id);
    proof {
        let recs1 = store_records(*old(store)).remove(id);
        assert forall|k: u64| #[trigger] recs1.contains_key(k) implies record_ok(
            recs1,
            store_counter(*old(store)),
            k,
        ) by {
            assert(store_records(*old(store)).contains_key(k));
            assert(recs1[k] == store_records(*old(store))[k]);
        }
    }
    Ok(e0)
}

} // verus!
