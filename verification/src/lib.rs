//! Authoritative server core for a real-time multiplayer world.
//!
//! The crate keeps a registry of game entities, indexes their positions in a
//! fixed spatial tile grid, tracks client liveness, classifies inbound
//! packets, and builds the periodic broadcast snapshot.  All world
//! coordinates are integers; the transport socket and wall-clock time live
//! outside the library and hand in plain values.

pub mod data_types;
pub mod json;
pub mod server_core;
pub mod traits;
pub mod table;
pub mod tiles;
pub mod utils;

use vstd::prelude::*;

verus! {

/// Largest world coordinate the grid arithmetic handles: the grid holds at
/// most `2^31` tiles of size at most `2^31` on a side, so every position
/// inside or anywhere near the world fits well within this bound.
pub const COORD_LIMIT: i64 = 0x4000_0000_0000_0000;

/// Floor division of a world coordinate by a positive tile size.
///
/// Agrees with mathematical (Euclidean) division for every `a`, including
/// negative coordinates, where machine division would round toward zero.
pub fn floor_div(a: i64, b: i64) -> (r: i64)
    requires
        1 <= b <= 0x7fff_ffff,
        -COORD_LIMIT <= a <= COORD_LIMIT,
    ensures
        r == a as int / b as int,
{
    if a >= 0 {
        a / b
    } else {
        let na: i64 = -a;
        let qn: i64 = na / b;
        let rn: i64 = na % b;
        proof {
            assert(qn == na as int / b as int);
            assert(rn == na as int % b as int);
            vstd::arithmetic::div_mod::lemma_fundamental_div_mod(na as int, b as int);
            vstd::arithmetic::div_mod::lemma_mod_bound(na as int, b as int);
            assert((-qn as int) * (b as int) == -((b as int) * (qn as int))
                && (-qn as int - 1) * (b as int) == -((b as int) * (qn as int)) - b as int)
                by (nonlinear_arith);
            if rn == 0 {
                vstd::arithmetic::div_mod::lemma_fundamental_div_mod_converse(
                    a as int,
                    b as int,
                    -qn as int,
                    0,
                );
            } else {
                vstd::arithmetic::div_mod::lemma_fundamental_div_mod_converse(
                    a as int,
                    b as int,
                    -qn as int - 1,
                    b - rn,
                );
            }
        }
        if rn == 0 {
            -qn
        } else {
            -qn - 1
        }
    }
}

} // verus!
