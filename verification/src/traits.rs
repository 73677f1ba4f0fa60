//! The capability contract between the server core and its game entities.
//!
//! Concrete entities live outside the core; they implement this trait to
//! report a position, a broadcast projection, a collision test and a type
//! tag.  Each executable method is pinned to a specification function of the
//! implementing type, so the core's own contracts can speak about what an
//! entity reported.

use crate::json::entry_views;
use crate::json::JsonNode;
use vstd::prelude::*;

verus! {

/// What every game entity offers the server core.
pub trait EntityTrait: Sized {
    /// The entity's current position on the world plane.
    open spec fn pos_spec(&self) -> (int, int) {
        (0int, 0int)
    }

    /// The entries the entity contributes to the broadcast aggregate when
    /// asked to describe itself under `name`.
    open spec fn json_spec(&self, name: Seq<char>) -> Seq<(Seq<char>, JsonNode)> {
        Seq::empty()
    }

    /// Whether the entity regards itself as colliding with `other`.
    open spec fn colliding_spec(&self, other: &Self) -> bool {
        false
    }

    /// The entity's dynamic type tag.
    open spec fn class_spec(&self) -> Seq<char> {
        "EntityTrait"@
    }

    /// The projection merged into the broadcast, keyed as the entity
    /// chooses (by convention under `name`).
    fn to_json(&self, name: &str) -> (v: Vec<(String, JsonNode)>)
        ensures
            entry_views(v@) == self.json_spec(name@),
    ;

    /// Collision test against another entity of the same kind.
    fn is_colliding(&self, other: &Self) -> (r: bool)
        ensures
            r == self.colliding_spec(other),
    ;

    /// The raw coordinates of the entity.
    fn get_x_and_y(&self) -> (p: (i64, i64))
        ensures
            p.0 as int == self.pos_spec().0,
            p.1 as int == self.pos_spec().1,
    ;

    /// The position used for spatial indexing; reports the same point as
    /// `get_x_and_y`.
    fn get_position(&self) -> (p: (i64, i64))
        ensures
            p.0 as int == self.pos_spec().0,
            p.1 as int == self.pos_spec().1,
    {
        self.get_x_and_y()
    }

    /// The entity's type tag.
    fn get_class(&self) -> (c: String)
        ensures
            c@ == self.class_spec(),
    ;
}

/// The strategy run when a packet arrives from an unknown address: it
/// builds the entity that will stand for the new client.  Applications
/// supply an implementation at start-up; without one the core drops packets
/// from unknown senders and surfaces a diagnostic.
pub trait ConnectHook<E: EntityTrait>: Sized {
    /// Builds the entity for a client that just appeared at `addr`.
    fn on_client_connect(&mut self, addr: &str) -> E;
}

} // verus!
