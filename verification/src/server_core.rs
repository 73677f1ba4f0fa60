//! The server core: client lifecycle, packet classification, liveness
//! sweeps and the broadcast snapshot.
//!
//! The core owns the client table, the entity registry and the spatial
//! grid.  The transport socket stays outside: the surrounding application
//! drains the socket, hands each packet's sender and payload to the core,
//! and sends what the core asks it to send.  Wall-clock time likewise comes
//! in as a plain millisecond value, so a whole polling cycle sees one
//! consistent snapshot of "now".

use crate::json;
use crate::json::JsonNode;
use crate::table::Table;
use crate::tiles::keeps;
use crate::tiles::Tiles;
use crate::traits::ConnectHook;
use crate::traits::EntityTrait;
use crate::utils::str_eq;
use crate::utils::views_of;
use vstd::prelude::*;

verus! {

/// Milliseconds of silence after which a client is evicted.
pub const CLIENT_TIMEOUT_MS: u64 = 4000;

/// A command tag: the first `|`-separated field of a packet's payload.
pub enum Command {
    /// Heartbeat: refreshes the sender's last-seen time.
    Packets,
    /// Explicit connect: nothing beyond the automatic connect path.
    Connect,
    /// Explicit disconnect: removes entity, tile entry and client record.
    Disconnect,
    /// Anything else: opaque application data, returned to the caller.
    Data,
}

/// How one inbound packet was handled.
pub enum PacketOutcome {
    /// The sender was unknown and no connect hook is configured: the packet
    /// was dropped.  A configuration error, not a crash.
    NoHook,
    /// A recognized command was applied.
    Handled,
    /// Opaque application data for the caller.
    Data(String),
}

/// The position of the first `|` in `s`, or its length when there is none.
pub open spec fn bar_index(s: Seq<char>) -> int
    decreases s.len(),
{
    if s.len() == 0 {
        0
    } else if s[0] == '|' {
        0
    } else {
        1 + bar_index(s.drop_first())
    }
}

/// What `bar_index` points at: no bar before it, a bar at it unless the
/// string has none.
pub proof fn lemma_bar_index(s: Seq<char>)
    ensures
        0 <= bar_index(s) <= s.len(),
        forall|j: int| 0 <= j < bar_index(s) ==> s[j] != '|',
        bar_index(s) < s.len() ==> s[bar_index(s)] == '|',
    decreases s.len(),
{
    if s.len() != 0 && s[0] != '|' {
        lemma_bar_index(s.drop_first());
        assert forall|j: int| 0 <= j < bar_index(s) implies s[j] != '|' by {
            if j > 0 {
                assert(s.drop_first()[j - 1] != '|');
            }
        }
        if bar_index(s) < s.len() {
            assert(s.drop_first()[bar_index(s) - 1] == '|');
        }
    }
}

/// The command field of a payload: everything before the first `|`.
pub open spec fn first_field(s: Seq<char>) -> Seq<char> {
    s.take(bar_index(s))
}

/// The command a payload carries.
pub open spec fn command_of(s: Seq<char>) -> Command {
    if first_field(s) == "PACKETS"@ {
        Command::Packets
    } else if first_field(s) == "CONNECT"@ {
        Command::Connect
    } else if first_field(s) == "DISCONNECT"@ {
        Command::Disconnect
    } else {
        Command::Data
    }
}

/// The position of the first `|` of `s`, or its length.
fn bar_pos(s: &str) -> (r: usize)
    ensures
        r == bar_index(s@),
{
    let n = s.unicode_len();
    let mut i: usize = 0;
    proof {
        lemma_bar_index(s@);
    }
    while i < n
        invariant
            n == s@.len(),
            i <= n,
            forall|j: int| 0 <= j < i ==> s@[j] != '|',
            0 <= bar_index(s@) <= s@.len(),
            forall|j: int| 0 <= j < bar_index(s@) ==> s@[j] != '|',
            bar_index(s@) < s@.len() ==> s@[bar_index(s@)] == '|',
        decreases n - i,
    {
        if s.get_char(i) == '|' {
            return i;
        }
        i += 1;
    }
    n
}

/// Classifies a payload by its first `|`-separated field.
pub fn classify_command(payload: &str) -> (c: Command)
    ensures
        c == command_of(payload@),
{
    let bar = bar_pos(payload);
    proof {
        lemma_bar_index(payload@);
    }
    let field = payload.substring_char(0, bar);
    proof {
        assert(field@ =~= first_field(payload@));
    }
    if str_eq(field, "PACKETS") {
        Command::Packets
    } else if str_eq(field, "CONNECT") {
        Command::Connect
    } else if str_eq(field, "DISCONNECT") {
        Command::Disconnect
    } else {
        Command::Data
    }
}

/// The registry key of the player entity for the client at `addr`.
pub open spec fn player_key_spec(addr: Seq<char>) -> Seq<char> {
    "player"@ + addr
}

/// Builds the registry key of the player entity for `addr`.
pub fn player_key(addr: &str) -> (k: String)
    ensures
        k@ == player_key_spec(addr@),
{
    let mut k = String::from_str("player");
    k.append(addr);
    k
}

/// Player keys of distinct addresses are distinct.
pub proof fn lemma_player_key_injective(a1: Seq<char>, a2: Seq<char>)
    requires
        player_key_spec(a1) == player_key_spec(a2),
    ensures
        a1 == a2,
{
    let p = "player"@;
    assert(p + a1 == p + a2);
    assert((p + a1).len() == p.len() + a1.len());
    assert((p + a2).len() == p.len() + a2.len());
    assert(a1.len() == a2.len());
    assert forall|i: int| 0 <= i < a1.len() implies a1[i] == a2[i] by {
        assert((p + a1)[p.len() + i] == a1[i]);
        assert((p + a2)[p.len() + i] == a2[i]);
    }
    assert(a1 =~= a2);
}

/// The grid `t1` is `t0` with `id` appended to the tile of `pos`, when that
/// position is inside the grid; outside it, `t1` is `t0` unchanged.
pub open spec fn tiles_added(t0: Tiles, t1: Tiles, id: Seq<char>, pos: (int, int)) -> bool {
    &&& t1.spec_width() == t0.spec_width()
    &&& t1.spec_height() == t0.spec_height()
    &&& t1.spec_tile_size() == t0.spec_tile_size()
    &&& match t0.spec_tile_index(pos.0, pos.1) {
        Some(t) => {
            &&& t1.ids_at(t.0, t.1) == t0.ids_at(t.0, t.1).push(id)
            &&& forall|tx: int, ty: int|
                0 <= tx < t0.spec_width() && 0 <= ty < t0.spec_height() && (tx, ty) != t
                    ==> #[trigger] t1.ids_at(tx, ty) == t0.ids_at(tx, ty)
        },
        None => t1 == t0,
    }
}

/// The grid `t1` is `t0` with `id` removed from the tile of `pos`, when
/// that position is inside the grid; outside it, `t1` is `t0` unchanged.
pub open spec fn tiles_removed(t0: Tiles, t1: Tiles, id: Seq<char>, pos: (int, int)) -> bool {
    &&& t1.spec_width() == t0.spec_width()
    &&& t1.spec_height() == t0.spec_height()
    &&& t1.spec_tile_size() == t0.spec_tile_size()
    &&& match t0.spec_tile_index(pos.0, pos.1) {
        Some(t) => {
            &&& t1.ids_at(t.0, t.1) == t0.ids_at(t.0, t.1).filter(keeps(id))
            &&& forall|tx: int, ty: int|
                0 <= tx < t0.spec_width() && 0 <= ty < t0.spec_height() && (tx, ty) != t
                    ==> #[trigger] t1.ids_at(tx, ty) == t0.ids_at(tx, ty)
        },
        None => t1 == t0,
    }
}

/// Whether the record of client `a` is stale at `now`.
pub open spec fn expired(c: Table<u64>, a: Seq<char>, now: u64) -> bool {
    match c.spec_get(a) {
        Some(t) => now >= t + CLIENT_TIMEOUT_MS,
        None => false,
    }
}

/// The server core: client table, entity registry, spatial grid and the
/// connect strategy, driven by the application's polling loop.
pub struct ServerCore<E, H> {
    /// Liveness records: address to last-seen time in milliseconds.
    pub clients: Table<u64>,
    /// The entity registry, keyed by entity identifier.
    pub entities: Table<E>,
    /// The spatial tile index over entity identifiers.
    pub tiles: Tiles,
    /// The connect strategy, if one was installed.
    pub hook: Option<H>,
}

impl<E: EntityTrait, H: ConnectHook<E>> ServerCore<E, H> {
    /// Whether a connect hook has been configured.
    pub open spec fn has_hook(self) -> bool {
        self.hook is Some
    }

    /// All three owned structures are well-formed.
    pub open spec fn wf(self) -> bool {
        &&& self.clients.wf()
        &&& self.entities.wf()
        &&& self.tiles.wf()
    }

    /// A fresh core: no clients, no entities, no hook, and a 500 by 500
    /// grid of 16-unit tiles.
    pub fn new() -> (r: Self)
        ensures
            r.wf(),
            !r.has_hook(),
            r.clients.key_seq().len() == 0,
            r.entities.key_seq().len() == 0,
            forall|k: Seq<char>| !r.clients.has_key(k),
            forall|k: Seq<char>| !r.entities.has_key(k),
            r.tiles.spec_width() == 500,
            r.tiles.spec_height() == 500,
            r.tiles.spec_tile_size() == 16,
            forall|tx: int, ty: int|
                0 <= tx < 500 && 0 <= ty < 500 ==> #[trigger] r.tiles.ids_at(tx, ty).len() == 0,
    {
        ServerCore {
            clients: Table::new(),
            entities: Table::new(),
            tiles: Tiles::new(500, 500, 16),
            hook: None,
        }
    }

    /// Installs the connect strategy, replacing any previous one.
    pub fn set_on_client_connect(&mut self, hook: H)
        ensures
            final(self).hook == Some(hook),
            final(self).clients == old(self).clients,
            final(self).entities == old(self).entities,
            final(self).tiles == old(self).tiles,
    {
        self.hook = Some(hook);
    }

    /// The player entity registered for the client at `src`, if any.
    pub fn get_player(&self, src: &str) -> (r: Option<&E>)
        requires
            self.wf(),
        ensures
            match r {
                Some(e) => self.entities.spec_get(player_key_spec(src@)) == Some(*e),
                None => self.entities.spec_get(player_key_spec(src@)) is None,
            },
    {
        let key = player_key(src);
        self.entities.get(key.as_str())
    }

    /// The disconnect path's effect: the client record and the player
    /// entity for `addr` are gone, the entity's identifier is removed from
    /// the tile of its last known position, and nothing else changed.
    pub open spec fn disconnected(pre: Self, post: Self, addr: Seq<char>) -> bool {
        let pk = player_key_spec(addr);
        &&& post.hook == pre.hook
        &&& !post.clients.has_key(addr)
        &&& forall|k: Seq<char>|
            k != addr ==> #[trigger] post.clients.spec_get(k) == pre.clients.spec_get(k)
        &&& !post.entities.has_key(pk)
        &&& forall|k: Seq<char>|
            k != pk ==> #[trigger] post.entities.spec_get(k) == pre.entities.spec_get(k)
        &&& match pre.entities.spec_get(pk) {
            Some(e) => tiles_removed(pre.tiles, post.tiles, pk, e.pos_spec()),
            None => post.tiles == pre.tiles,
        }
    }

    /// Removes the client at `src` together with its player entity and that
    /// entity's tile entry.  Misses at any step are silent no-ops.
    fn disconnect_client(&mut self, src: &String)
        requires
            old(self).wf(),
        ensures
            final(self).wf(),
            Self::disconnected(*old(self), *final(self), src@),
    {
        let key = player_key(src.as_str());
        let mut pos: Option<(i64, i64)> = None;
        match self.entities.get(key.as_str()) {
            Some(e) => {
                pos = Some(e.get_position());
            },
            None => {},
        }
        match pos {
            Some((x, y)) => {
                match self.tiles.world_to_tile_index(x, y) {
                    Some((tx, ty)) => {
                        self.tiles.remove_entity(key.as_str(), tx, ty);
                    },
                    None => {},
                }
            },
            None => {},
        }
        self.entities.remove(key.as_str());
        self.clients.remove(src.as_str());
    }

    /// The connect action's effect: the client is recorded at `now`, and
    /// the hook's entity stands registered under the player key and indexed
    /// at its position — unless that key was already taken, in which case
    /// registry and grid are left alone.
    pub open spec fn connected(pre: Self, post: Self, addr: Seq<char>, now: u64) -> bool {
        let pk = player_key_spec(addr);
        &&& post.has_hook() == pre.has_hook()
        &&& post.clients.key_seq() == pre.clients.key_seq().push(addr)
        &&& post.clients.spec_get(addr) == Some(now)
        &&& forall|k: Seq<char>|
            k != addr ==> #[trigger] post.clients.spec_get(k) == pre.clients.spec_get(k)
        &&& if pre.entities.has_key(pk) {
            post.entities == pre.entities && post.tiles == pre.tiles
        } else {
            exists|e: E|
                {
                    &&& #[trigger] post.entities.spec_get(pk) == Some(e)
                    &&& post.entities.key_seq() == pre.entities.key_seq().push(pk)
                    &&& forall|k: Seq<char>|
                        k != pk ==> #[trigger] post.entities.spec_get(k) == pre.entities.spec_get(
                            k,
                        )
                    &&& tiles_added(pre.tiles, post.tiles, pk, e.pos_spec())
                }
        }
    }

    /// Runs the connect hook for the unknown address `src` and registers
    /// what it builds; without a hook, does nothing and reports it.
    fn add_client(&mut self, src: &String, now: u64) -> (did: bool)
        requires
            old(self).wf(),
            !old(self).clients.has_key(src@),
        ensures
            final(self).wf(),
            did == old(self).has_hook(),
            did ==> Self::connected(*old(self), *final(self), src@, now),
            !did ==> *final(self) == *old(self),
    {
        let e_opt = match &mut self.hook {
            Some(h) => Some(h.on_client_connect(src.as_str())),
            None => None,
        };
        match e_opt {
            Some(e) => {
                let ghost ge = e;
                let key = player_key(src.as_str());
                let pos = e.get_position();
                let ok = self.entities.insert(key.clone(), e);
                if ok {
                    self.tiles.add_entity(key, pos.0, pos.1);
                }
                let _ = self.clients.insert(src.clone(), now);
                proof {
                    if !old(self).entities.has_key(player_key_spec(src@)) {
                        assert(self.entities.spec_get(player_key_spec(src@)) == Some(ge));
                    }
                    assert(Self::connected(*old(self), *self, src@, now));
                }
                true
            },
            None => false,
        }
    }

    /// The effect of one classified command from `addr` on the state.
    pub open spec fn command_applied(
        mid: Self,
        post: Self,
        addr: Seq<char>,
        payload: Seq<char>,
        now: u64,
        r: PacketOutcome,
    ) -> bool {
        match command_of(payload) {
            Command::Packets => {
                &&& r is Handled
                &&& post.entities == mid.entities
                &&& post.tiles == mid.tiles
                &&& post.hook == mid.hook
                &&& post.clients.key_seq() == mid.clients.key_seq()
                &&& (mid.clients.has_key(addr) ==> post.clients.spec_get(addr) == Some(now))
                &&& (!mid.clients.has_key(addr) ==> post.clients == mid.clients)
                &&& forall|k: Seq<char>|
                    k != addr ==> #[trigger] post.clients.spec_get(k) == mid.clients.spec_get(k)
            },
            Command::Connect => r is Handled && post == mid,
            Command::Disconnect => r is Handled && Self::disconnected(mid, post, addr),
            Command::Data => post == mid && (r matches PacketOutcome::Data(d) && d@ == payload),
        }
    }

    /// Classifies and applies one inbound packet.  A packet from an unknown
    /// address first runs the connect path — exactly once, before any
    /// command is looked at — when a hook is configured; without one the
    /// packet is dropped and `NoHook` surfaces the configuration error.
    pub fn handle_packet(&mut self, src: &String, payload: &String, now: u64) -> (r: PacketOutcome)
        requires
            old(self).wf(),
        ensures
            final(self).wf(),
            old(self).clients.has_key(src@) ==> Self::command_applied(
                *old(self),
                *final(self),
                src@,
                payload@,
                now,
                r,
            ),
            !old(self).clients.has_key(src@) && old(self).has_hook() ==> exists|mid: Self|
                {
                    &&& #[trigger] Self::connected(*old(self), mid, src@, now)
                    &&& mid.wf()
                    &&& Self::command_applied(mid, *final(self), src@, payload@, now, r)
                },
            !old(self).clients.has_key(src@) && !old(self).has_hook() ==> r is NoHook
                && *final(self) == *old(self),
            Self::packet_applied(*old(self), *final(self), src@, payload@, now, r),
    {
        let known = self.clients.contains_key(src.as_str());
        if !known {
            let did = self.add_client(src, now);
            if !did {
                return PacketOutcome::NoHook;
            }
        }
        let ghost mid = *self;
        let cmd = classify_command(payload.as_str());
        let r = match cmd {
            Command::Packets => {
                let _ = self.clients.update(src.as_str(), now);
                PacketOutcome::Handled
            },
            Command::Connect => PacketOutcome::Handled,
            Command::Disconnect => {
                self.disconnect_client(src);
                PacketOutcome::Handled
            },
            Command::Data => PacketOutcome::Data(payload.clone()),
        };
        proof {
            assert(Self::command_applied(mid, *self, src@, payload@, now, r));
            if !old(self).clients.has_key(src@) {
                assert(Self::connected(*old(self), mid, src@, now) && mid.wf()
                    && Self::command_applied(mid, *self, src@, payload@, now, r));
            }
            assert(Self::packet_applied(*old(self), *self, src@, payload@, now, r));
        }
        r
    }

    /// The full effect of one inbound packet, outcome included: a known
    /// sender gets the command applied; an unknown sender is connected
    /// first when a hook is installed; without one the packet is dropped
    /// whole and the state untouched.
    pub open spec fn packet_applied(
        pre: Self,
        post: Self,
        addr: Seq<char>,
        payload: Seq<char>,
        now: u64,
        r: PacketOutcome,
    ) -> bool {
        if pre.clients.has_key(addr) {
            Self::command_applied(pre, post, addr, payload, now, r)
        } else if pre.has_hook() {
            exists|mid: Self|
                {
                    &&& #[trigger] Self::connected(pre, mid, addr, now)
                    &&& mid.wf()
                    &&& Self::command_applied(mid, post, addr, payload, now, r)
                }
        } else {
            r is NoHook && post == pre
        }
    }

    /// The application-data map after one packet: a data payload replaces
    /// the sender's entry, anything else leaves the map alone.
    pub open spec fn data_after(
        d: Map<Seq<char>, Seq<char>>,
        addr: Seq<char>,
        r: PacketOutcome,
    ) -> Map<Seq<char>, Seq<char>> {
        match r {
            PacketOutcome::Data(p) => d.insert(addr, p@),
            _ => d,
        }
    }

    /// One polling cycle: each packet of `events` applied in arrival order,
    /// starting from `pre` and the data map `d0`, ending in `post` with the
    /// data map `d1`.
    pub open spec fn batch_applied(
        pre: Self,
        post: Self,
        events: Seq<(String, String)>,
        now: u64,
        d0: Map<Seq<char>, Seq<char>>,
        d1: Map<Seq<char>, Seq<char>>,
    ) -> bool
        decreases events.len(),
    {
        if events.len() == 0 {
            post == pre && d1 == d0
        } else {
            exists|mid: Self, r: PacketOutcome|
                {
                    &&& #[trigger] Self::packet_applied(
                        pre,
                        mid,
                        events[0].0@,
                        events[0].1@,
                        now,
                        r,
                    )
                    &&& Self::batch_applied(
                        mid,
                        post,
                        events.drop_first(),
                        now,
                        Self::data_after(d0, events[0].0@, r),
                        d1,
                    )
                }
        }
    }

    /// A batch relation extends by one packet applied at its end.
    proof fn lemma_batch_applied_snoc(
        pre: Self,
        mid: Self,
        post: Self,
        events: Seq<(String, String)>,
        x: (String, String),
        now: u64,
        d0: Map<Seq<char>, Seq<char>>,
        d1: Map<Seq<char>, Seq<char>>,
        r: PacketOutcome,
    )
        requires
            Self::batch_applied(pre, mid, events, now, d0, d1),
            Self::packet_applied(mid, post, x.0@, x.1@, now, r),
        ensures
            Self::batch_applied(
                pre,
                post,
                events.push(x),
                now,
                d0,
                Self::data_after(d1, x.0@, r),
            ),
        decreases events.len(),
    {
        if events.len() == 0 {
            assert(events.push(x)[0] == x);
            assert(events.push(x).drop_first() =~= Seq::<(String, String)>::empty());
            assert(Self::packet_applied(pre, post, x.0@, x.1@, now, r) && Self::batch_applied(
                post,
                post,
                events.push(x).drop_first(),
                now,
                Self::data_after(d0, x.0@, r),
                Self::data_after(d1, x.0@, r),
            ));
        } else {
            let (m1, r1) = choose|m1: Self, r1: PacketOutcome|
                {
                    &&& #[trigger] Self::packet_applied(
                        pre,
                        m1,
                        events[0].0@,
                        events[0].1@,
                        now,
                        r1,
                    )
                    &&& Self::batch_applied(
                        m1,
                        mid,
                        events.drop_first(),
                        now,
                        Self::data_after(d0, events[0].0@, r1),
                        d1,
                    )
                };
            Self::lemma_batch_applied_snoc(
                m1,
                mid,
                post,
                events.drop_first(),
                x,
                now,
                Self::data_after(d0, events[0].0@, r1),
                d1,
                r,
            );
            assert(events.push(x)[0] == events[0]);
            assert(events.push(x).drop_first() =~= events.drop_first().push(x));
            assert(Self::packet_applied(pre, m1, events[0].0@, events[0].1@, now, r1)
                && Self::batch_applied(
                m1,
                post,
                events.push(x).drop_first(),
                now,
                Self::data_after(d0, events[0].0@, r1),
                Self::data_after(d1, x.0@, r),
            ));
        }
    }

    /// The view of the returned application-data map: each sender's last
    /// surfaced payload.
    pub open spec fn data_view(t: Table<String>) -> Map<Seq<char>, Seq<char>> {
        Map::new(|a: Seq<char>| t.has_key(a), |a: Seq<char>| t.spec_get(a)->Some_0@)
    }

    /// Whether `k` is the player key of some address in `addrs`.
    pub open spec fn player_key_of_any(addrs: Seq<Seq<char>>, k: Seq<char>) -> bool {
        exists|j: int| 0 <= j < addrs.len() && k == player_key_spec(#[trigger] addrs[j])
    }

    /// Whether `k` belongs to a client that a sweep of `pre` at `now`
    /// evicts.
    pub open spec fn evicted_key(pre: Self, k: Seq<char>, now: u64) -> bool {
        exists|a: Seq<char>| #[trigger] expired(pre.clients, a, now) && k == player_key_spec(a)
    }

    /// Whether sweeping the addresses `addrs` out of `pre` removes `id`
    /// from the tile at `(tx, ty)`.
    pub open spec fn swept_from_tile(
        pre: Self,
        addrs: Seq<Seq<char>>,
        id: Seq<char>,
        tx: int,
        ty: int,
    ) -> bool {
        &&& Self::player_key_of_any(addrs, id)
        &&& match pre.entities.spec_get(id) {
            Some(e) => pre.tiles.spec_tile_index(e.pos_spec().0, e.pos_spec().1) == Some(
                (tx, ty),
            ),
            None => false,
        }
    }

    /// Whether a sweep of `pre` at `now` removes `id` from tile `(tx, ty)`.
    pub open spec fn tile_evicted(pre: Self, id: Seq<char>, tx: int, ty: int, now: u64) -> bool {
        &&& Self::evicted_key(pre, id, now)
        &&& match pre.entities.spec_get(id) {
            Some(e) => pre.tiles.spec_tile_index(e.pos_spec().0, e.pos_spec().1) == Some(
                (tx, ty),
            ),
            None => false,
        }
    }

    /// The predicate keeping, at tile `(tx, ty)`, every id that sweeping
    /// the addresses `addrs` out of `pre` does not remove.
    pub open spec fn sweep_keeps(pre: Self, addrs: Seq<Seq<char>>, tx: int, ty: int) -> spec_fn(
        Seq<char>,
    ) -> bool {
        |id: Seq<char>| !Self::swept_from_tile(pre, addrs, id, tx, ty)
    }

    /// The predicate keeping, at tile `(tx, ty)`, every id that a sweep of
    /// `pre` at `now` does not remove.
    pub open spec fn evict_keeps(pre: Self, now: u64, tx: int, ty: int) -> spec_fn(
        Seq<char>,
    ) -> bool {
        |id: Seq<char>| !Self::tile_evicted(pre, id, tx, ty, now)
    }

    /// The liveness sweep: evicts exactly the clients whose last-seen time
    /// is `CLIENT_TIMEOUT_MS` or more behind `now`, removing client record,
    /// player entity and tile entry just as an explicit disconnect does.
    /// `now` is one snapshot for the whole pass, so a record refreshed to
    /// `now` right before the sweep is never evicted by it.
    pub fn check_clients(&mut self, now: u64)
        requires
            old(self).wf(),
        ensures
            final(self).wf(),
            final(self).hook == old(self).hook,
            forall|a: Seq<char>| #[trigger]
                final(self).clients.spec_get(a) == (if expired(old(self).clients, a, now) {
                    None::<u64>
                } else {
                    old(self).clients.spec_get(a)
                }),
            forall|k: Seq<char>| #[trigger]
                final(self).entities.spec_get(k) == (if Self::evicted_key(*old(self), k, now) {
                    None::<E>
                } else {
                    old(self).entities.spec_get(k)
                }),
            final(self).tiles.spec_width() == old(self).tiles.spec_width(),
            final(self).tiles.spec_height() == old(self).tiles.spec_height(),
            final(self).tiles.spec_tile_size() == old(self).tiles.spec_tile_size(),
            forall|tx: int, ty: int|
                0 <= tx < old(self).tiles.spec_width() && 0 <= ty < old(self).tiles.spec_height()
                    ==> #[trigger] final(self).tiles.ids_at(tx, ty) == old(self).tiles.ids_at(
                    tx,
                    ty,
                ).filter(Self::evict_keeps(*old(self), now, tx, ty)),
            forall|id: Seq<char>, tx: int, ty: int|
                0 <= tx < old(self).tiles.spec_width() && 0 <= ty < old(self).tiles.spec_height()
                    ==> (#[trigger] final(self).tiles.ids_at(tx, ty).contains(id) <==> (old(
                    self,
                ).tiles.ids_at(tx, ty).contains(id) && !Self::tile_evicted(
                    *old(self),
                    id,
                    tx,
                    ty,
                    now,
                ))),
    {
        let ghost pre = *self;
        let mut stale: Vec<String> = Vec::new();
        let n = self.clients.len();
        let mut i: usize = 0;
        while i < n
            invariant
                *self == pre,
                pre.wf(),
                n == pre.clients.key_seq().len(),
                i <= n,
                forall|j: int|
                    0 <= j < stale@.len() ==> expired(
                        pre.clients,
                        (#[trigger] stale@[j])@,
                        now,
                    ),
                forall|j: int|
                    0 <= j < i && expired(pre.clients, #[trigger] pre.clients.key_seq()[j], now)
                        ==> views_of(stale@).contains(pre.clients.key_seq()[j]),
                forall|j1: int, j2: int|
                    0 <= j1 < j2 < stale@.len() ==> (#[trigger] stale@[j1])@ != (
                    #[trigger] stale@[j2])@,
                forall|j: int|
                    0 <= j < stale@.len() ==> exists|mm: int|
                        0 <= mm < i && (#[trigger] stale@[j])@ == pre.clients.key_seq()[mm],
            decreases n - i,
        {
            let e = self.clients.entry_at(i);
            let t = *e.1;
            proof {
                let k = pre.clients.key_seq()[i as int];
                assert(pre.clients.has_key(k));
                let idx = pre.clients.idx_of(k);
                assert(pre.clients.key_seq()[idx] == k);
                assert(idx == i);
                assert(pre.clients.spec_get(k) == Some(pre.clients.val_at(i as int)));
            }
            if t <= now && now - t >= CLIENT_TIMEOUT_MS {
                let ghost prev = stale@;
                proof {
                    assert(!views_of(prev).contains(pre.clients.key_seq()[i as int])) by {
                        if views_of(prev).contains(pre.clients.key_seq()[i as int]) {
                            let j = choose|j: int|
                                0 <= j < views_of(prev).len() && views_of(prev)[j]
                                    == pre.clients.key_seq()[i as int];
                            assert(prev[j]@ == pre.clients.key_seq()[i as int]);
                            let mm = choose|mm: int|
                                0 <= mm < i && prev[j]@ == pre.clients.key_seq()[mm];
                            assert(pre.clients.key_seq()[mm] == pre.clients.key_seq()[i as int]);
                        }
                    }
                }
                stale.push(e.0.clone());
                proof {
                    assert forall|j1: int, j2: int| 0 <= j1 < j2 < stale@.len() implies (
                    #[trigger] stale@[j1])@ != (#[trigger] stale@[j2])@ by {
                        if j2 == stale@.len() - 1 {
                            assert(views_of(prev)[j1] == prev[j1]@);
                        }
                    }
                    assert forall|j: int|
                        0 <= j < stale@.len() implies exists|mm: int|
                        0 <= mm < i + 1 && (#[trigger] stale@[j])@ == pre.clients.key_seq()[mm] by {
                        if j < stale@.len() - 1 {
                            let mm = choose|mm: int|
                                0 <= mm < i && (#[trigger] prev[j])@ == pre.clients.key_seq()[mm];
                            assert(stale@[j] == prev[j]);
                        } else {
                            assert(stale@[j]@ == pre.clients.key_seq()[i as int]);
                        }
                    }
                    assert forall|j: int|
                        0 <= j < i + 1 && expired(
                            pre.clients,
                            #[trigger] pre.clients.key_seq()[j],
                            now,
                        ) implies views_of(stale@).contains(pre.clients.key_seq()[j]) by {
                        if j < i {
                            let m = choose|m: int|
                                0 <= m < views_of(prev).len() && views_of(prev)[m]
                                    == pre.clients.key_seq()[j];
                            assert(views_of(stale@)[m] == pre.clients.key_seq()[j]);
                        } else {
                            assert(views_of(stale@)[stale@.len() - 1]
                                == pre.clients.key_seq()[i as int]);
                        }
                    }
                }
            }
            i += 1;
        }
        proof {
            assert forall|a: Seq<char>| #[trigger]
                views_of(stale@).contains(a) <==> expired(pre.clients, a, now) by {
                if views_of(stale@).contains(a) {
                    let j = choose|j: int|
                        0 <= j < views_of(stale@).len() && views_of(stale@)[j] == a;
                    assert(stale@[j]@ == a);
                }
                if expired(pre.clients, a, now) {
                    assert(pre.clients.has_key(a));
                    let m = pre.clients.idx_of(a);
                    assert(pre.clients.key_seq()[m] == a);
                }
            }
            assert forall|tx: int, ty: int|
                0 <= tx < pre.tiles.spec_width() && 0 <= ty < pre.tiles.spec_height()
                implies #[trigger] self.tiles.ids_at(tx, ty) == pre.tiles.ids_at(tx, ty).filter(
                Self::sweep_keeps(pre, views_of(stale@).take(0), tx, ty),
            ) by {
                let p0 = Self::sweep_keeps(pre, views_of(stale@).take(0), tx, ty);
                assert(views_of(stale@).take(0) =~= Seq::<Seq<char>>::empty());
                assert forall|id: Seq<char>|
                    pre.tiles.ids_at(tx, ty).contains(id) implies #[trigger] p0(id) by {}
                crate::utils::lemma_filter_all(pre.tiles.ids_at(tx, ty), p0);
            }
        }
        let m = stale.len();
        let mut j: usize = 0;
        while j < m
            invariant
                self.wf(),
                self.hook == pre.hook,
                pre.wf(),
                m == stale@.len(),
                j <= m,
                forall|a: Seq<char>| #[trigger]
                    views_of(stale@).contains(a) <==> expired(pre.clients, a, now),
                forall|j1: int, j2: int|
                    0 <= j1 < j2 < stale@.len() ==> (#[trigger] stale@[j1])@ != (
                    #[trigger] stale@[j2])@,
                forall|a: Seq<char>| #[trigger]
                    self.clients.spec_get(a) == (if views_of(stale@).take(j as int).contains(a) {
                        None::<u64>
                    } else {
                        pre.clients.spec_get(a)
                    }),
                forall|k: Seq<char>| #[trigger]
                    self.entities.spec_get(k) == (if Self::player_key_of_any(
                        views_of(stale@).take(j as int),
                        k,
                    ) {
                        None::<E>
                    } else {
                        pre.entities.spec_get(k)
                    }),
                self.tiles.spec_width() == pre.tiles.spec_width(),
                self.tiles.spec_height() == pre.tiles.spec_height(),
                self.tiles.spec_tile_size() == pre.tiles.spec_tile_size(),
                forall|tx: int, ty: int|
                    0 <= tx < pre.tiles.spec_width() && 0 <= ty < pre.tiles.spec_height()
                        ==> #[trigger] self.tiles.ids_at(tx, ty) == pre.tiles.ids_at(tx, ty).filter(
                        Self::sweep_keeps(pre, views_of(stale@).take(j as int), tx, ty),
                    ),
            decreases m - j,
        {
            let ghost sj = *self;
            let ghost aj = stale@[j as int]@;
            let ghost pkj = player_key_spec(aj);
            proof {
                assert(views_of(stale@)[j as int] == aj);
                assert(!Self::player_key_of_any(views_of(stale@).take(j as int), pkj)) by {
                    if Self::player_key_of_any(views_of(stale@).take(j as int), pkj) {
                        let jj = choose|jj: int|
                            0 <= jj < j && pkj == player_key_spec(
                                views_of(stale@).take(j as int)[jj],
                            );
                        lemma_player_key_injective(aj, views_of(stale@)[jj]);
                    }
                }
                assert(sj.entities.spec_get(pkj) == pre.entities.spec_get(pkj));
            }
            self.disconnect_client(&stale[j]);
            proof {
                let taken = views_of(stale@).take(j as int);
                let taken1 = views_of(stale@).take(j + 1);
                assert(taken1 =~= taken.push(aj));
                assert forall|a: Seq<char>| #[trigger]
                    self.clients.spec_get(a) == (if taken1.contains(a) {
                        None::<u64>
                    } else {
                        pre.clients.spec_get(a)
                    }) by {
                    assert(sj.clients.spec_get(a) == (if taken.contains(a) {
                        None::<u64>
                    } else {
                        pre.clients.spec_get(a)
                    }));
                    if a == aj {
                        assert(!self.clients.has_key(a));
                        assert(taken1[j as int] == aj);
                        assert(taken1.contains(aj));
                    } else {
                        assert(self.clients.spec_get(a) == sj.clients.spec_get(a));
                        if taken1.contains(a) {
                            let x = choose|x: int| 0 <= x < taken1.len() && taken1[x] == a;
                            assert(x < j);
                            assert(taken[x] == a);
                            assert(taken.contains(a));
                        }
                        if taken.contains(a) {
                            let x = choose|x: int| 0 <= x < taken.len() && taken[x] == a;
                            assert(taken1[x] == a);
                            assert(taken1.contains(a));
                        }
                    }
                }
                assert forall|k: Seq<char>| #[trigger]
                    self.entities.spec_get(k) == (if Self::player_key_of_any(taken1, k) {
                        None::<E>
                    } else {
                        pre.entities.spec_get(k)
                    }) by {
                    if k == pkj {
                        assert(!self.entities.has_key(k));
                        assert(taken1[j as int] == aj);
                        assert(Self::player_key_of_any(taken1, k));
                    } else {
                        assert(self.entities.spec_get(k) == sj.entities.spec_get(k));
                        if Self::player_key_of_any(taken1, k) {
                            let x = choose|x: int|
                                0 <= x < taken1.len() && k == player_key_spec(taken1[x]);
                            assert(x < j);
                            assert(taken[x] == taken1[x]);
                            assert(Self::player_key_of_any(taken, k));
                        }
                        if Self::player_key_of_any(taken, k) {
                            let x = choose|x: int|
                                0 <= x < taken.len() && k == player_key_spec(taken[x]);
                            assert(taken1[x] == taken[x]);
                        }
                    }
                }
                assert forall|id: Seq<char>| #[trigger]
                    Self::player_key_of_any(taken1, id) <==> (Self::player_key_of_any(taken, id)
                    || id == pkj) by {
                    if Self::player_key_of_any(taken1, id) {
                        let x = choose|x: int|
                            0 <= x < taken1.len() && id == player_key_spec(taken1[x]);
                        if x < j {
                            assert(taken[x] == taken1[x]);
                        }
                    }
                    if Self::player_key_of_any(taken, id) {
                        let x = choose|x: int|
                            0 <= x < taken.len() && id == player_key_spec(taken[x]);
                        assert(taken1[x] == taken[x]);
                    }
                    if id == pkj {
                        assert(taken1[j as int] == aj);
                    }
                }
                assert forall|tx: int, ty: int|
                    0 <= tx < pre.tiles.spec_width() && 0 <= ty < pre.tiles.spec_height()
                    implies #[trigger] self.tiles.ids_at(tx, ty) == pre.tiles.ids_at(
                    tx,
                    ty,
                ).filter(Self::sweep_keeps(pre, taken1, tx, ty)) by {
                    let p0 = Self::sweep_keeps(pre, taken, tx, ty);
                    let p1 = Self::sweep_keeps(pre, taken1, tx, ty);
                    assert(sj.tiles.ids_at(tx, ty) == pre.tiles.ids_at(tx, ty).filter(p0));
                    match pre.entities.spec_get(pkj) {
                        Some(e) => {
                            let px = e.pos_spec().0;
                            let py = e.pos_spec().1;
                            assert(sj.tiles.spec_tile_index(px, py) == pre.tiles.spec_tile_index(
                                px,
                                py,
                            ));
                            match pre.tiles.spec_tile_index(px, py) {
                                Some(t) => {
                                    if (tx, ty) == t {
                                        assert(self.tiles.ids_at(tx, ty) == sj.tiles.ids_at(
                                            tx,
                                            ty,
                                        ).filter(keeps(pkj)));
                                        assert forall|id: Seq<char>| #[trigger]
                                            p1(id) == (p0(id) && keeps(pkj)(id)) by {}
                                        crate::utils::lemma_filter_compose(
                                            pre.tiles.ids_at(tx, ty),
                                            p0,
                                            keeps(pkj),
                                            p1,
                                        );
                                    } else {
                                        assert(self.tiles.ids_at(tx, ty) == sj.tiles.ids_at(
                                            tx,
                                            ty,
                                        ));
                                        assert forall|id: Seq<char>| #[trigger]
                                            p0(id) == p1(id) by {}
                                        crate::utils::lemma_filter_ext(
                                            pre.tiles.ids_at(tx, ty),
                                            p0,
                                            p1,
                                        );
                                    }
                                },
                                None => {
                                    assert forall|id: Seq<char>| #[trigger] p0(id) == p1(id) by {}
                                    crate::utils::lemma_filter_ext(
                                        pre.tiles.ids_at(tx, ty),
                                        p0,
                                        p1,
                                    );
                                },
                            }
                        },
                        None => {
                            assert forall|id: Seq<char>| #[trigger] p0(id) == p1(id) by {}
                            crate::utils::lemma_filter_ext(pre.tiles.ids_at(tx, ty), p0, p1);
                        },
                    }
                }
            }
            j += 1;
        }
        proof {
            assert(views_of(stale@).take(m as int) =~= views_of(stale@));
            assert forall|k: Seq<char>| #[trigger]
                Self::player_key_of_any(views_of(stale@), k) <==> Self::evicted_key(
                    pre,
                    k,
                    now,
                ) by {
                if Self::player_key_of_any(views_of(stale@), k) {
                    let x = choose|x: int|
                        0 <= x < views_of(stale@).len() && k == player_key_spec(
                            views_of(stale@)[x],
                        );
                    assert(views_of(stale@).contains(views_of(stale@)[x]));
                    assert(expired(pre.clients, views_of(stale@)[x], now));
                }
                if Self::evicted_key(pre, k, now) {
                    let a = choose|a: Seq<char>|
                        expired(pre.clients, a, now) && k == player_key_spec(a);
                    assert(views_of(stale@).contains(a));
                    let x = choose|x: int|
                        0 <= x < views_of(stale@).len() && views_of(stale@)[x] == a;
                }
            }
            assert forall|tx: int, ty: int|
                0 <= tx < pre.tiles.spec_width() && 0 <= ty < pre.tiles.spec_height()
                implies #[trigger] self.tiles.ids_at(tx, ty) == pre.tiles.ids_at(tx, ty).filter(
                Self::evict_keeps(pre, now, tx, ty),
            ) by {
                let pf = Self::sweep_keeps(pre, views_of(stale@), tx, ty);
                let pe = Self::evict_keeps(pre, now, tx, ty);
                assert(self.tiles.ids_at(tx, ty) == pre.tiles.ids_at(tx, ty).filter(pf));
                assert forall|id: Seq<char>| #[trigger] pf(id) == pe(id) by {}
                crate::utils::lemma_filter_ext(pre.tiles.ids_at(tx, ty), pf, pe);
            }
            assert forall|id: Seq<char>, tx: int, ty: int|
                0 <= tx < pre.tiles.spec_width() && 0 <= ty < pre.tiles.spec_height() implies (
            #[trigger] self.tiles.ids_at(tx, ty).contains(id) <==> (pre.tiles.ids_at(
                tx,
                ty,
            ).contains(id) && !Self::tile_evicted(pre, id, tx, ty, now))) by {
                crate::utils::lemma_filter_contains_iff(
                    pre.tiles.ids_at(tx, ty),
                    Self::evict_keeps(pre, now, tx, ty),
                    id,
                );
            }
        }
    }

    /// The broadcast aggregate built from the first `i` registry entries:
    /// each entity's projection merged in, in registry order.
    pub open spec fn combined_entries(self, i: int) -> Seq<(Seq<char>, JsonNode)>
        decreases i,
    {
        if i <= 0 {
            Seq::empty()
        } else {
            json::merge_entries(
                self.combined_entries(i - 1),
                self.entities.val_at(i - 1).json_spec(self.entities.key_seq()[i - 1]),
            )
        }
    }

    /// A player omitted from every projection is omitted from the
    /// broadcast: when no projection of the first `n` registry entries
    /// carries the key `k`, the merged aggregate has no entry under `k`.
    pub proof fn lemma_broadcast_omits_key(self, k: Seq<char>, n: int)
        requires
            0 <= n <= self.entities.key_seq().len(),
            forall|i: int, x: int|
                0 <= i < n && 0 <= x < self.entities.val_at(i).json_spec(
                    self.entities.key_seq()[i],
                ).len() ==> (#[trigger] self.entities.val_at(i).json_spec(
                    self.entities.key_seq()[i],
                )[x]).0 != k,
        ensures
            !json::view_has_key(self.combined_entries(n), k),
        decreases n,
    {
        if n > 0 {
            self.lemma_broadcast_omits_key(k, n - 1);
            json::lemma_merge_no_key(
                self.combined_entries(n - 1),
                self.entities.val_at(n - 1).json_spec(self.entities.key_seq()[n - 1]),
                k,
            );
        }
    }

    /// The broadcast snapshot: `LIBRARYEVENT|` followed by the aggregate of
    /// every entity's projection, together with the addresses of every
    /// currently known client, which the caller sends it to (best effort,
    /// unreliable by design).
    pub fn broadcast(&self) -> (r: (String, Vec<String>))
        requires
            self.wf(),
        ensures
            r.0@ == "LIBRARYEVENT|"@ + json::object_text(
                self.combined_entries(self.entities.key_seq().len() as int),
            ),
            views_of(r.1@) == self.clients.key_seq(),
    {
        let mut combined: Table<JsonNode> = Table::new();
        proof {
            assert(json::table_entries(combined) =~= Seq::<(Seq<char>, JsonNode)>::empty());
        }
        let n = self.entities.len();
        let mut i: usize = 0;
        while i < n
            invariant
                self.wf(),
                combined.wf(),
                n == self.entities.key_seq().len(),
                i <= n,
                json::table_entries(combined) == self.combined_entries(i as int),
            decreases n - i,
        {
            let e = self.entities.entry_at(i);
            let mut proj = e.1.to_json(e.0.as_str());
            let ghost target = self.combined_entries(i + 1);
            proof {
                assert(json::merge_entries(
                    json::table_entries(combined),
                    json::entry_views(proj@),
                ) == target);
            }
            while proj.len() > 0
                invariant
                    combined.wf(),
                    json::merge_entries(json::table_entries(combined), json::entry_views(proj@))
                        == target,
                decreases proj@.len(),
            {
                let ghost pv = proj@;
                let (k, v) = proj.remove(0);
                let ghost gk = k@;
                let ghost gv = v;
                let ghost tb = combined;
                proof {
                    assert(json::entry_views(pv)[0] == (gk, gv));
                    assert(json::entry_views(pv).drop_first() =~= json::entry_views(proj@));
                }
                if combined.contains_key(k.as_str()) {
                    let _ = combined.update(k.as_str(), v);
                } else {
                    let _ = combined.insert(k, v);
                }
                proof {
                    let before = json::table_entries(tb);
                    let after = json::table_entries(combined);
                    if tb.has_key(gk) {
                        assert(json::view_has_key(before, gk)) by {
                            let x = tb.idx_of(gk);
                            assert(tb.key_seq()[x] == gk);
                            assert(before[x].0 == gk);
                        }
                        let vx = json::view_idx_of(before, gk);
                        assert(before[vx].0 == gk);
                        assert(tb.key_seq()[vx] == gk);
                        assert(combined.spec_get(gk) == Some(gv));
                        let cx = combined.idx_of(gk);
                        assert(combined.key_seq()[cx] == gk);
                        assert(cx == vx);
                        assert(combined.val_at(vx) == gv);
                        assert forall|x: int| 0 <= x < after.len() && x != vx implies after[x]
                            == before[x] by {
                            assert(tb.key_seq()[x] != gk);
                            assert(combined.val_at(x) == tb.val_at(x));
                        }
                        assert(after =~= json::upsert_view(before, gk, gv));
                    } else {
                        assert(!json::view_has_key(before, gk)) by {
                            if json::view_has_key(before, gk) {
                                let x = json::view_idx_of(before, gk);
                                assert(before[x].0 == gk);
                                assert(tb.key_seq()[x] == gk);
                                assert(tb.has_key(gk));
                            }
                        }
                        assert(after =~= json::upsert_view(before, gk, gv)) by {
                            assert(combined.key_seq() == tb.key_seq().push(gk));
                            assert(combined.spec_get(gk) == Some(gv));
                            let cx = combined.idx_of(gk);
                            assert(combined.key_seq()[cx] == gk);
                            assert(cx == tb.key_seq().len()) by {
                                if cx < tb.key_seq().len() {
                                    assert(tb.key_seq()[cx] == gk);
                                    assert(tb.has_key(gk));
                                }
                            }
                            assert(combined.val_at(cx) == gv);
                        }
                    }
                }
            }
            i += 1;
        }
        let body = json::json_object_string(&combined);
        let mut msg = String::from_str("LIBRARYEVENT|");
        msg.append(body.as_str());
        let recipients = self.clients.keys();
        (msg, recipients)
    }

    /// The payload of the last application-data packet from `a`, if any.
    pub open spec fn last_data(events: Seq<(String, String)>, a: Seq<char>) -> Option<Seq<char>>
        decreases events.len(),
    {
        if events.len() == 0 {
            None
        } else if events.last().0@ == a && command_of(events.last().1@) is Data {
            Some(events.last().1@)
        } else {
            Self::last_data(events.drop_last(), a)
        }
    }

    /// Drains one polling cycle's packets, in arrival order, and returns
    /// the application data keyed by sender — the last payload per sender
    /// winning, as `last_data` says, provided a connect hook is installed.
    /// The state after the cycle is the fold of `packet_applied` over the
    /// batch, in order: auto-connects, heartbeats, disconnects and no-hook
    /// drops all happen exactly as `handle_packet` says for each packet.
    pub fn receive_events(&mut self, events: Vec<(String, String)>, now: u64) -> (unhandled: Table<
        String,
    >)
        requires
            old(self).wf(),
        ensures
            final(self).wf(),
            unhandled.wf(),
            final(self).has_hook() == old(self).has_hook(),
            Self::batch_applied(
                *old(self),
                *final(self),
                events@,
                now,
                Map::empty(),
                Self::data_view(unhandled),
            ),
            old(self).has_hook() ==> forall|a: Seq<char>|
                {
                    match #[trigger] unhandled.spec_get(a) {
                        Some(d) => Self::last_data(events@, a) == Some(d@),
                        None => Self::last_data(events@, a) is None,
                    }
                },
            forall|a: Seq<char>|
                #[trigger] unhandled.has_key(a) ==> exists|i: int|
                    0 <= i < events@.len() && (#[trigger] events@[i]).0@ == a && events@[i].1@
                        == unhandled.spec_get(a)->Some_0@ && command_of(events@[i].1@) is Data,
    {
        let mut unhandled: Table<String> = Table::new();
        proof {
            assert(events@.take(0) =~= Seq::<(String, String)>::empty());
            assert(Self::data_view(unhandled) =~= Map::<Seq<char>, Seq<char>>::empty());
        }
        let n = events.len();
        let mut i: usize = 0;
        while i < n
            invariant
                self.wf(),
                unhandled.wf(),
                n == events@.len(),
                i <= n,
                self.has_hook() == old(self).has_hook(),
                Self::batch_applied(
                    *old(self),
                    *self,
                    events@.take(i as int),
                    now,
                    Map::empty(),
                    Self::data_view(unhandled),
                ),
                old(self).has_hook() ==> forall|a: Seq<char>|
                    {
                        match #[trigger] unhandled.spec_get(a) {
                            Some(d) => Self::last_data(events@.take(i as int), a) == Some(d@),
                            None => Self::last_data(events@.take(i as int), a) is None,
                        }
                    },
                forall|a: Seq<char>|
                    #[trigger] unhandled.has_key(a) ==> exists|ii: int|
                        0 <= ii < i && (#[trigger] events@[ii]).0@ == a && events@[ii].1@
                            == unhandled.spec_get(a)->Some_0@ && command_of(events@[ii].1@) is Data,
            decreases n - i,
        {
            let ghost s0 = *self;
            let src = &events[i].0;
            let payload = &events[i].1;
            let outcome = self.handle_packet(src, payload, now);
            let ghost goutcome = outcome;
            let ghost before = unhandled;
            match outcome {
                PacketOutcome::Data(d) => {
                    if unhandled.contains_key(src.as_str()) {
                        let _ = unhandled.update(src.as_str(), d);
                    } else {
                        let _ = unhandled.insert(src.clone(), d);
                    }
                },
                _ => {},
            }
            proof {
                let a0 = events@[i as int].0@;
                let d_pre = Self::data_view(before);
                match goutcome {
                    PacketOutcome::Data(p) => {
                        assert(unhandled.spec_get(a0) == Some(p));
                        assert forall|a: Seq<char>| #[trigger]
                            unhandled.has_key(a) == d_pre.insert(a0, p@).dom().contains(a) by {
                            if a != a0 {
                                assert(unhandled.spec_get(a) == before.spec_get(a));
                            }
                        }
                        assert forall|a: Seq<char>|
                            unhandled.has_key(a) implies #[trigger] Self::data_view(unhandled)[a]
                            == d_pre.insert(a0, p@)[a] by {
                            if a != a0 {
                                assert(unhandled.spec_get(a) == before.spec_get(a));
                            }
                        }
                        assert(Self::data_view(unhandled) =~= d_pre.insert(a0, p@));
                    },
                    _ => {
                        assert(unhandled == before);
                    },
                }
                assert(Self::data_view(unhandled) == Self::data_after(d_pre, a0, goutcome));
                Self::lemma_batch_applied_snoc(
                    *old(self),
                    s0,
                    *self,
                    events@.take(i as int),
                    events@[i as int],
                    now,
                    Map::empty(),
                    d_pre,
                    goutcome,
                );
                assert(events@.take(i + 1) =~= events@.take(i as int).push(events@[i as int]));
                if old(self).has_hook() {
                    assert forall|a: Seq<char>|
                        match #[trigger] unhandled.spec_get(a) {
                            Some(d) => Self::last_data(events@.take(i + 1), a) == Some(d@),
                            None => Self::last_data(events@.take(i + 1), a) is None,
                        } by {
                        assert(events@.take(i + 1).drop_last() =~= events@.take(i as int));
                        assert(events@.take(i + 1).last() == events@[i as int]);
                    }
                }
            }
            i += 1;
        }
        proof {
            assert(events@.take(n as int) =~= events@);
        }
        unhandled
    }
}

} // verus!
