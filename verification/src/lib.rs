//! A persistent record store for `Event` entities: a durable monotonic
//! counter hands out identifiers, an ordered table maps each identifier to
//! a size-bounded binary encoding of the record, and a service layer
//! performs the create/read/update/attend/delete operations gated by an
//! ownership check.

pub mod codec;
pub mod entity;
pub mod event;
pub mod laws;
pub mod store;
