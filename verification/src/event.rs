use vstd::prelude::*;

verus! {

/// An opaque caller identity: a byte token supplied by the hosting
/// environment, used only for equality comparison and membership tests.
#[derive(Clone, Debug, PartialEq, Eq)]
pub struct Identity {
    pub bytes: Vec<u8>,
}

impl View for Identity {
    type V = Seq<u8>;

    open spec fn view(&self) -> Seq<u8> {
        self.bytes@
    }
}

impl Identity {
    pub fn new(bytes: Vec<u8>) -> (r: Identity)
        ensures
            r@ == bytes@,
    {
        Identity { bytes }
    }

    /// Returns a copy holding the same token bytes.
    pub fn duplicate(&self) -> (r: Identity)
        ensures
            r@ == self@,
    {
        Identity { bytes: copy_bytes(&self.bytes) }
    }

    /// Equality of two identity tokens.
    pub fn same_as(&self, other: &Identity) -> (r: bool)
        ensures
            r <==> self@ == other@,
    {
        bytes_eq(&self.bytes, &other.bytes)
    }
}

/// The one entity this store keeps. Text fields hold UTF-8 bytes; the
/// store only carries them through, so they are modelled as plain bytes.
#[derive(Clone, Debug, PartialEq, Eq)]
pub struct Event {
    pub id: u64,
    pub event_description: Vec<u8>,
    pub owner: Identity,
    pub event_title: Vec<u8>,
    pub event_location: Vec<u8>,
    pub event_card_imgurl: Vec<u8>,
    pub attendees: Vec<Identity>,
    pub created_at: u64,
    pub updated_at: Option<u64>,
}

/// The mathematical value of an `Event`.
#[verifier::ext_equal]
pub struct EventView {
    pub id: u64,
    pub event_description: Seq<u8>,
    pub owner: Seq<u8>,
    pub event_title: Seq<u8>,
    pub event_location: Seq<u8>,
    pub event_card_imgurl: Seq<u8>,
    pub attendees: Seq<Seq<u8>>,
    pub created_at: u64,
    pub updated_at: Option<u64>,
}

impl View for Event {
    type V = EventView;

    open spec fn view(&self) -> EventView {
        EventView {
            id: self.id,
            event_description: self.event_description@,
            owner: self.owner@,
            event_title: self.event_title@,
            event_location: self.event_location@,
            event_card_imgurl: self.event_card_imgurl@,
            attendees: Seq::new(self.attendees@.len(), |i: int| self.attendees@[i]@),
            created_at: self.created_at,
            updated_at: self.updated_at,
        }
    }
}

/// The caller-supplied fields of a create or update request.
#[derive(Clone, Debug, PartialEq, Eq)]
pub struct EventPayload {
    pub event_description: Vec<u8>,
    pub event_title: Vec<u8>,
    pub event_location: Vec<u8>,
    pub event_card_imgurl: Vec<u8>,
}

/// The mathematical value of an `EventPayload`.
#[verifier::ext_equal]
pub struct PayloadView {
    pub event_description: Seq<u8>,
    pub event_title: Seq<u8>,
    pub event_location: Seq<u8>,
    pub event_card_imgurl: Seq<u8>,
}

impl View for EventPayload {
    type V = PayloadView;

    open spec fn view(&self) -> PayloadView {
        PayloadView {
            event_description: self.event_description@,
            event_title: self.event_title@,
            event_location: self.event_location@,
            event_card_imgurl: self.event_card_imgurl@,
        }
    }
}

/// The domain errors a caller can branch on, plus the one unrecoverable
/// kind (`StorageFault`) that a storage invariant violation surfaces as.
#[derive(PartialEq, Eq, Structural, Clone, Copy, Debug)]
pub enum Error {
    NotFound,
    NotAuthorized,
    AlreadyAttending,
    StorageFault,
}

/// No identity occurs twice in the attendee list.
pub open spec fn no_dup(atts: Seq<Seq<u8>>) -> bool {
    forall|i: int, j: int| 0 <= i < j < atts.len() ==> atts[i] != atts[j]
}

/// Compares two byte vectors for equality of their contents.
pub fn bytes_eq(a: &Vec<u8>, b: &Vec<u8>) -> (r: bool)
    ensures
        r <==> a@ == b@,
{
    if a.len() != b.len() {
        return false;
    }
    let mut i: usize = 0;
    while i < a.len()
        invariant
            i <= a.len(),
            a.len() == b.len(),
            forall|j: int| 0 <= j < i ==> a@[j] == b@[j],
        decreases a.len() - i,
    {
        if a[i] != b[i] {
            return false;
        }
        i += 1;
    }
    proof {
        assert(a@ =~= b@);
    }
    true
}

/// Returns a copy of a byte vector with the same contents.
pub fn copy_bytes(a: &Vec<u8>) -> (r: Vec<u8>)
    ensures
        r@ == a@,
{
    let mut out: Vec<u8> = Vec::new();
    let mut i: usize = 0;
    while i < a.len()
        invariant
            i <= a.len(),
            out@ == a@.subrange(0, i as int),
        decreases a.len() - i,
    {
        out.push(a[i]);
        proof {
            assert(out@ =~= a@.subrange(0, i + 1));
        }
        i += 1;
    }
    proof {
        assert(a@.subrange(0, a@.len() as int) =~= a@);
    }
    out
}

/// Membership of an identity token in an attendee list.
pub fn attendees_contain(atts: &Vec<Identity>, who: &Identity) -> (r: bool)
    ensures
        r <==> Seq::new(atts@.len(), |i: int| atts@[i]@).contains(who@),
{
    let ghost views = Seq::new(atts@.len(), |i: int| atts@[i]@);
    let mut i: usize = 0;
    while i < atts.len()
        invariant
            i <= atts.len(),
            views == Seq::new(atts@.len(), |j: int| atts@[j]@),
            forall|j: int| 0 <= j < i ==> views[j] != who@,
        decreases atts.len() - i,
    {
        if atts[i].same_as(who) {
            proof {
                assert(views[i as int] == who@);
            }
            return true;
        }
        i += 1;
    }
    proof {
        assert forall|j: int| 0 <= j < views.len() implies views[j] != who@ by {}
    }
    false
}

} // verus!
