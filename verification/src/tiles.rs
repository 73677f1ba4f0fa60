//! Fixed-size spatial tile grid that indexes entity identifiers by position.
//!
//! The grid is created once with a fixed extent and never resizes.  World
//! positions are mapped to grid coordinates by floor division with the tile
//! size; positions that fall outside the grid are rejected by an explicit
//! bounds check rather than wrapping.

use crate::floor_div;
use crate::utils::str_eq;
use crate::utils::views_of;
use crate::COORD_LIMIT;
use vstd::prelude::*;

verus! {

/// One square cell of the world, holding the identifiers of the entities
/// whose last applied position falls inside it.  The world-space origin and
/// the texture tag are cosmetic and carry no contract.
struct Tile {
    x: i64,
    y: i64,
    tile_texture: i64,
    entity_ids: Vec<String>,
}

/// A fixed-extent grid of tiles.
pub struct Tiles {
    tiles: Vec<Vec<Tile>>,
    tile_size: i64,
}

/// The predicate that keeps every identifier other than `id`.
pub open spec fn keeps(id: Seq<char>) -> spec_fn(Seq<char>) -> bool {
    |s: Seq<char>| s != id
}

/// `v` clamped into `[0, hi]`.
pub open spec fn clamp_to(v: int, hi: int) -> int {
    if v < 0 {
        0
    } else if v > hi {
        hi
    } else {
        v
    }
}

/// Executable clamp of a wide intermediate value into `[0, hi]`.
fn clamp_idx(v: i128, hi: usize) -> (r: usize)
    requires
        hi <= 0x7fff_ffff,
    ensures
        r == clamp_to(v as int, hi as int),
{
    if v < 0 {
        0
    } else if v > hi as i128 {
        hi
    } else {
        v as usize
    }
}

impl Tiles {
    /// Number of tile rows.
    pub closed spec fn spec_height(self) -> int {
        self.tiles@.len() as int
    }

    /// Number of tile columns.
    pub closed spec fn spec_width(self) -> int {
        if self.tiles@.len() == 0 {
            0
        } else {
            self.tiles@[0]@.len() as int
        }
    }

    /// Side length of a tile in world units.
    pub closed spec fn spec_tile_size(self) -> int {
        self.tile_size as int
    }

    /// The identifiers held by the tile at grid coordinates `(tx, ty)`, in
    /// insertion order.
    pub closed spec fn ids_at(self, tx: int, ty: int) -> Seq<Seq<char>>
        recommends
            0 <= tx < self.spec_width(),
            0 <= ty < self.spec_height(),
    {
        views_of(self.tiles@[ty]@[tx].entity_ids@)
    }

    /// Well-formed grid: positive tile size, rectangular rows, and extents
    /// that fit comfortably in machine arithmetic.
    pub closed spec fn wf(self) -> bool {
        &&& 1 <= self.tile_size <= 0x7fff_ffff
        &&& self.tiles@.len() <= 0x7fff_ffff
        &&& self.spec_width() <= 0x7fff_ffff
        &&& forall|j: int|
            0 <= j < self.tiles@.len() ==> (#[trigger] self.tiles@[j])@.len() == self.spec_width()
    }

    /// The grid coordinates that world position `(x, y)` falls in, by floor
    /// division with the tile size.
    pub open spec fn spec_tile_coords(self, x: int, y: int) -> (int, int) {
        (x / self.spec_tile_size(), y / self.spec_tile_size())
    }

    /// The tile index for `(x, y)`: defined exactly when the position is
    /// non-negative and inside the grid extent.
    pub open spec fn spec_tile_index(self, x: int, y: int) -> Option<(int, int)> {
        let c = self.spec_tile_coords(x, y);
        if x >= 0 && y >= 0 && c.0 < self.spec_width() && c.1 < self.spec_height() {
            Some(c)
        } else {
            None
        }
    }

    /// Allocates a `y_max` by `x_max` grid of empty tiles.  A non-positive
    /// extent yields an empty grid.
    pub fn new(x_max: i64, y_max: i64, tile_size: i64) -> (r: Tiles)
        requires
            1 <= tile_size <= 0x7fff_ffff,
            x_max <= 0x7fff_ffff,
            y_max <= 0x7fff_ffff,
        ensures
            r.wf(),
            r.spec_tile_size() == tile_size,
            r.spec_height() == if y_max >= 0 {
                y_max as int
            } else {
                0
            },
            y_max >= 1 ==> r.spec_width() == (if x_max >= 0 {
                x_max as int
            } else {
                0
            }),
            forall|tx: int, ty: int|
                0 <= tx < r.spec_width() && 0 <= ty < r.spec_height() ==> #[trigger] r.ids_at(
                    tx,
                    ty,
                ).len() == 0,
    {
        let cols: i64 = if x_max >= 0 {
            x_max
        } else {
            0
        };
        let mut tiles: Vec<Vec<Tile>> = Vec::new();
        let mut y: i64 = 0;
        while y < y_max
            invariant
                0 <= y,
                y_max >= 0 ==> y <= y_max,
                y_max < 0 ==> y == 0,
                tiles@.len() == y,
                1 <= tile_size <= 0x7fff_ffff,
                x_max <= 0x7fff_ffff,
                y_max <= 0x7fff_ffff,
                cols == if x_max >= 0 {
                    x_max as int
                } else {
                    0
                },
                forall|j: int|
                    0 <= j < y ==> (#[trigger] tiles@[j])@.len() == cols,
                forall|j: int, k: int|
                    0 <= j < y && 0 <= k < cols ==> (#[trigger] tiles@[j]@[k].entity_ids)@.len()
                        == 0,
            decreases y_max - y,
        {
            let mut row: Vec<Tile> = Vec::new();
            let mut x: i64 = 0;
            while x < cols
                invariant
                    0 <= x <= cols,
                    cols <= 0x7fff_ffff,
                    1 <= tile_size <= 0x7fff_ffff,
                    0 <= y <= 0x7fff_ffff,
                    row@.len() == x,
                    forall|k: int| 0 <= k < x ==> (#[trigger] row@[k].entity_ids)@.len() == 0,
                decreases cols - x,
            {
                proof {
                    assert(x * tile_size <= 0x7fff_ffff * 0x7fff_ffff && x * tile_size >= 0
                        && y * tile_size <= 0x7fff_ffff * 0x7fff_ffff && y * tile_size >= 0)
                        by (nonlinear_arith)
                        requires
                            0 <= x <= 0x7fff_ffff,
                            0 <= y <= 0x7fff_ffff,
                            1 <= tile_size <= 0x7fff_ffff,
                    ;
                }
                row.push(
                    Tile {
                        x: x * tile_size,
                        y: y * tile_size,
                        tile_texture: 1,
                        entity_ids: Vec::new(),
                    },
                );
                x += 1;
            }
            tiles.push(row);
            y += 1;
        }
        let r = Tiles { tiles, tile_size };
        proof {
            assert forall|tx: int, ty: int|
                0 <= tx < r.spec_width() && 0 <= ty < r.spec_height() implies #[trigger] r.ids_at(
                tx,
                ty,
            ).len() == 0 by {
                assert(r.tiles@[ty]@[tx].entity_ids@.len() == 0);
            }
        }
        r
    }

    /// A coordinate beyond `COORD_LIMIT` lands past every grid column or row.
    proof fn lemma_far_coord_out(self, w: int)
        requires
            self.wf(),
            w > COORD_LIMIT,
        ensures
            w / self.spec_tile_size() > 0x7fff_ffff,
    {
        vstd::arithmetic::div_mod::lemma_div_is_ordered(
            COORD_LIMIT as int,
            w,
            self.spec_tile_size(),
        );
        vstd::arithmetic::div_mod::lemma_div_is_ordered_by_denominator(
            COORD_LIMIT as int,
            self.spec_tile_size(),
            0x7fff_ffff,
        );
        assert(COORD_LIMIT as int / 0x7fff_ffff > 0x7fff_ffff);
    }

    /// The grid coordinates of the tile that holds `(x, y)`, or `None` when
    /// the position is negative or outside the grid extent.
    pub fn world_to_tile_index(&self, x: i64, y: i64) -> (r: Option<(usize, usize)>)
        requires
            self.wf(),
        ensures
            match r {
                Some(t) => self.spec_tile_index(x as int, y as int) == Some(
                    (t.0 as int, t.1 as int),
                ),
                None => self.spec_tile_index(x as int, y as int) is None,
            },
    {
        if x < 0 || y < 0 {
            return None;
        }
        if x > COORD_LIMIT || y > COORD_LIMIT {
            proof {
                if x > COORD_LIMIT {
                    self.lemma_far_coord_out(x as int);
                }
                if y > COORD_LIMIT {
                    self.lemma_far_coord_out(y as int);
                }
            }
            return None;
        }
        let tx = floor_div(x, self.tile_size);
        let ty = floor_div(y, self.tile_size);
        proof {
            vstd::arithmetic::div_mod::lemma_div_pos_is_pos(x as int, self.tile_size as int);
            vstd::arithmetic::div_mod::lemma_div_pos_is_pos(y as int, self.tile_size as int);
        }
        let h = self.tiles.len();
        let w = if h == 0 {
            0
        } else {
            self.tiles[0].len()
        };
        if tx < w as i64 && ty < h as i64 {
            Some((tx as usize, ty as usize))
        } else {
            None
        }
    }

    /// Appends `entity_id` to the tile computed from `(x, y)`; a position
    /// outside the grid leaves the grid unchanged.  No duplicate check is
    /// made: callers add an entity at most once.
    pub fn add_entity(&mut self, entity_id: String, x: i64, y: i64)
        requires
            old(self).wf(),
        ensures
            final(self).wf(),
            final(self).spec_height() == old(self).spec_height(),
            final(self).spec_width() == old(self).spec_width(),
            final(self).spec_tile_size() == old(self).spec_tile_size(),
            match old(self).spec_tile_index(x as int, y as int) {
                Some(t) => {
                    &&& final(self).ids_at(t.0, t.1) == old(self).ids_at(t.0, t.1).push(
                        entity_id@,
                    )
                    &&& forall|tx: int, ty: int|
                        0 <= tx < old(self).spec_width() && 0 <= ty < old(self).spec_height() && (
                        tx,
                        ty,
                        ) != t ==> #[trigger] final(self).ids_at(tx, ty) == old(self).ids_at(tx, ty)
                },
                None => *final(self) == *old(self),
            },
    {
        let idx = self.world_to_tile_index(x, y);
        match idx {
            Some((tx, ty)) => {
                let ghost pre = *self;
                let row: &mut Vec<Tile> = &mut self.tiles[ty];
                let cell: &mut Tile = &mut row[tx];
                cell.entity_ids.push(entity_id);
                proof {
                    let t = pre.spec_tile_index(x as int, y as int)->Some_0;
                    assert(self.tiles@[t.1]@[t.0].entity_ids@ == pre.tiles@[t.1]@[t.0].entity_ids@.push(
                        entity_id,
                    ));
                    assert(self.ids_at(t.0, t.1) =~= pre.ids_at(t.0, t.1).push(entity_id@));
                    assert forall|a: int, b: int|
                        0 <= a < pre.spec_width() && 0 <= b < pre.spec_height() && (a, b) != t
                        implies #[trigger] self.ids_at(a, b) == pre.ids_at(a, b) by {
                        assert(self.tiles@[b]@[a] == pre.tiles@[b]@[a]);
                    }
                }
            },
            None => {},
        }
    }

    /// Removes every occurrence of `entity_id` from the tile at
    /// `(tile_x, tile_y)`; a miss is a silent no-op.
    pub fn remove_entity(&mut self, entity_id: &str, tile_x: usize, tile_y: usize)
        requires
            old(self).wf(),
            tile_x < old(self).spec_width(),
            tile_y < old(self).spec_height(),
        ensures
            final(self).wf(),
            final(self).spec_height() == old(self).spec_height(),
            final(self).spec_width() == old(self).spec_width(),
            final(self).spec_tile_size() == old(self).spec_tile_size(),
            final(self).ids_at(tile_x as int, tile_y as int) == old(self).ids_at(
                tile_x as int,
                tile_y as int,
            ).filter(keeps(entity_id@)),
            forall|tx: int, ty: int|
                0 <= tx < old(self).spec_width() && 0 <= ty < old(self).spec_height() && (tx, ty)
                    != (tile_x as int, tile_y as int) ==> #[trigger] final(self).ids_at(tx, ty)
                    == old(self).ids_at(tx, ty),
    {
        let ghost pre = *self;
        let mut kept: Vec<String> = Vec::new();
        let n = self.tiles[tile_y][tile_x].entity_ids.len();
        let mut i: usize = 0;
        proof {
            assert(views_of(pre.tiles@[tile_y as int]@[tile_x as int].entity_ids@).take(0)
                =~= Seq::<Seq<char>>::empty());
            assert(Seq::<Seq<char>>::empty().filter(keeps(entity_id@)) =~= Seq::<
                Seq<char>,
            >::empty());
        }
        while i < n
            invariant
                *self == pre,
                pre.wf(),
                tile_x < pre.spec_width(),
                tile_y < pre.spec_height(),
                n == pre.tiles@[tile_y as int]@[tile_x as int].entity_ids@.len(),
                i <= n,
                views_of(kept@) == pre.ids_at(tile_x as int, tile_y as int).take(i as int).filter(
                    keeps(entity_id@),
                ),
            decreases n - i,
        {
            let ids = &self.tiles[tile_y][tile_x].entity_ids;
            let keep = !str_eq(ids[i].as_str(), entity_id);
            proof {
                let full = pre.ids_at(tile_x as int, tile_y as int);
                assert(full[i as int] == ids@[i as int]@);
                assert(full.take(i + 1) =~= full.take(i as int).push(full[i as int]));
                crate::utils::lemma_filter_push(
                    full.take(i as int),
                    full[i as int],
                    keeps(entity_id@),
                );
            }
            if keep {
                kept.push(ids[i].clone());
                proof {
                    let full = pre.ids_at(tile_x as int, tile_y as int);
                    assert(views_of(kept@) =~= full.take(i as int).filter(keeps(entity_id@)).push(
                        full[i as int],
                    ));
                }
            }
            i += 1;
        }
        proof {
            let full = pre.ids_at(tile_x as int, tile_y as int);
            assert(full.take(n as int) =~= full);
        }
        let row: &mut Vec<Tile> = &mut self.tiles[tile_y];
        let cell: &mut Tile = &mut row[tile_x];
        cell.entity_ids = kept;
        proof {
            assert forall|tx: int, ty: int|
                0 <= tx < pre.spec_width() && 0 <= ty < pre.spec_height() && (tx, ty) != (
                tile_x as int,
                tile_y as int,
                ) implies #[trigger] self.ids_at(tx, ty) == pre.ids_at(tx, ty) by {
                assert(self.tiles@[ty]@[tx] == pre.tiles@[ty]@[tx]);
            }
        }
    }

    /// Moves `entity_id` between the tiles computed from the old and the new
    /// position.  When both positions map to the same tile (or both fall
    /// outside the grid) the grid is left untouched.
    pub fn move_entity(&mut self, entity_id: &str, old_x: i64, old_y: i64, new_x: i64, new_y: i64)
        requires
            old(self).wf(),
        ensures
            final(self).wf(),
            final(self).spec_height() == old(self).spec_height(),
            final(self).spec_width() == old(self).spec_width(),
            final(self).spec_tile_size() == old(self).spec_tile_size(),
            old(self).spec_tile_index(old_x as int, old_y as int) == old(self).spec_tile_index(
                new_x as int,
                new_y as int,
            ) ==> *final(self) == *old(self),
            old(self).spec_tile_index(old_x as int, old_y as int) != old(self).spec_tile_index(
                new_x as int,
                new_y as int,
            ) ==> forall|tx: int, ty: int|
                0 <= tx < old(self).spec_width() && 0 <= ty < old(self).spec_height()
                    ==> #[trigger] final(self).ids_at(tx, ty) == {
                    let o = old(self).spec_tile_index(old_x as int, old_y as int);
                    let nn = old(self).spec_tile_index(new_x as int, new_y as int);
                    let base = if o == Some((tx, ty)) {
                        old(self).ids_at(tx, ty).filter(keeps(entity_id@))
                    } else {
                        old(self).ids_at(tx, ty)
                    };
                    if nn == Some((tx, ty)) {
                        base.push(entity_id@)
                    } else {
                        base
                    }
                },
    {
        let o = self.world_to_tile_index(old_x, old_y);
        let nn = self.world_to_tile_index(new_x, new_y);
        let same = match (o, nn) {
            (None, None) => true,
            (Some(a), Some(b)) => a.0 == b.0 && a.1 == b.1,
            _ => false,
        };
        if !same {
            if let Some((ox, oy)) = o {
                self.remove_entity(entity_id, ox, oy);
            }
            if nn.is_some() {
                self.add_entity(entity_id.to_owned(), new_x, new_y);
            }
        }
    }

    /// The identifiers in row `ty`, columns `xlo` (inclusive) up to `xhi`
    /// (exclusive), concatenated left to right.
    pub open spec fn scan_row(self, ty: int, xlo: int, xhi: int) -> Seq<Seq<char>>
        decreases xhi - xlo,
    {
        if xlo >= xhi {
            Seq::empty()
        } else {
            self.ids_at(xlo, ty) + self.scan_row(ty, xlo + 1, xhi)
        }
    }

    /// The identifiers in rows `ylo` up to `yhi`, columns `xlo` up to `xhi`,
    /// concatenated in row-major order.
    pub open spec fn scan_rows(self, ylo: int, yhi: int, xlo: int, xhi: int) -> Seq<Seq<char>>
        decreases yhi - ylo,
    {
        if ylo >= yhi {
            Seq::empty()
        } else {
            self.scan_row(ylo, xlo, xhi) + self.scan_rows(ylo + 1, yhi, xlo, xhi)
        }
    }

    /// Everything `get_entities_in_radius` returns: the contents of the tiles
    /// within Chebyshev distance `radius` of the centre tile, clipped to the
    /// grid extent, in row-major scan order.
    pub open spec fn spec_radius_ids(self, x: int, y: int, radius: int) -> Seq<Seq<char>> {
        let c = self.spec_tile_coords(x, y);
        self.scan_rows(
            clamp_to(c.1 - radius, self.spec_height()),
            clamp_to(c.1 + radius + 1, self.spec_height()),
            clamp_to(c.0 - radius, self.spec_width()),
            clamp_to(c.0 + radius + 1, self.spec_width()),
        )
    }

    proof fn lemma_scan_row_snoc(self, ty: int, xlo: int, xhi: int)
        requires
            xlo <= xhi,
        ensures
            self.scan_row(ty, xlo, xhi + 1) == self.scan_row(ty, xlo, xhi) + self.ids_at(xhi, ty),
        decreases xhi - xlo,
    {
        reveal_with_fuel(Tiles::scan_row, 3);
        if xlo == xhi {
            assert(self.scan_row(ty, xlo, xhi + 1) =~= self.scan_row(ty, xlo, xhi) + self.ids_at(
                xhi,
                ty,
            ));
        } else {
            self.lemma_scan_row_snoc(ty, xlo + 1, xhi);
            assert(self.scan_row(ty, xlo, xhi + 1) =~= self.scan_row(ty, xlo, xhi) + self.ids_at(
                xhi,
                ty,
            ));
        }
    }

    proof fn lemma_scan_rows_snoc(self, ylo: int, yhi: int, xlo: int, xhi: int)
        requires
            ylo <= yhi,
        ensures
            self.scan_rows(ylo, yhi + 1, xlo, xhi) == self.scan_rows(ylo, yhi, xlo, xhi)
                + self.scan_row(yhi, xlo, xhi),
        decreases yhi - ylo,
    {
        reveal_with_fuel(Tiles::scan_rows, 3);
        if ylo == yhi {
            assert(self.scan_rows(ylo, yhi + 1, xlo, xhi) =~= self.scan_rows(ylo, yhi, xlo, xhi)
                + self.scan_row(yhi, xlo, xhi));
        } else {
            self.lemma_scan_rows_snoc(ylo + 1, yhi, xlo, xhi);
            assert(self.scan_rows(ylo, yhi + 1, xlo, xhi) =~= self.scan_rows(ylo, yhi, xlo, xhi)
                + self.scan_row(yhi, xlo, xhi));
        }
    }

    proof fn lemma_scan_row_mem(self, ty: int, xlo: int, xhi: int, id: Seq<char>)
        ensures
            self.scan_row(ty, xlo, xhi).contains(id) <==> exists|tx: int|
                xlo <= tx < xhi && (#[trigger] self.ids_at(tx, ty)).contains(id),
        decreases xhi - xlo,
    {
        if xlo < xhi {
            crate::utils::lemma_concat_contains(
                self.ids_at(xlo, ty),
                self.scan_row(ty, xlo + 1, xhi),
                id,
            );
            self.lemma_scan_row_mem(ty, xlo + 1, xhi, id);
        }
    }

    proof fn lemma_scan_rows_mem(self, ylo: int, yhi: int, xlo: int, xhi: int, id: Seq<char>)
        ensures
            self.scan_rows(ylo, yhi, xlo, xhi).contains(id) <==> exists|tx: int, ty: int|
                ylo <= ty < yhi && xlo <= tx < xhi && (#[trigger] self.ids_at(tx, ty)).contains(
                    id,
                ),
        decreases yhi - ylo,
    {
        if ylo < yhi {
            crate::utils::lemma_concat_contains(
                self.scan_row(ylo, xlo, xhi),
                self.scan_rows(ylo + 1, yhi, xlo, xhi),
                id,
            );
            self.lemma_scan_row_mem(ylo, xlo, xhi, id);
            self.lemma_scan_rows_mem(ylo + 1, yhi, xlo, xhi, id);
        }
    }

    /// An identifier is returned by a radius query exactly when some in-grid
    /// tile within Chebyshev distance `radius` of the centre tile holds it.
    pub proof fn lemma_radius_mem(self, x: int, y: int, radius: int, id: Seq<char>)
        ensures
            self.spec_radius_ids(x, y, radius).contains(id) <==> exists|tx: int, ty: int|
                {
                    let c = self.spec_tile_coords(x, y);
                    &&& 0 <= tx < self.spec_width()
                    &&& 0 <= ty < self.spec_height()
                    &&& c.0 - radius <= tx <= c.0 + radius
                    &&& c.1 - radius <= ty <= c.1 + radius
                    &&& (#[trigger] self.ids_at(tx, ty)).contains(id)
                },
    {
        let c = self.spec_tile_coords(x, y);
        self.lemma_scan_rows_mem(
            clamp_to(c.1 - radius, self.spec_height()),
            clamp_to(c.1 + radius + 1, self.spec_height()),
            clamp_to(c.0 - radius, self.spec_width()),
            clamp_to(c.0 + radius + 1, self.spec_width()),
            id,
        );
    }

    /// Radius monotonicity: for a fixed centre, every identifier returned at
    /// radius `r1` is also returned at any radius `r2 >= r1`.
    pub proof fn lemma_radius_monotonic(self, x: int, y: int, r1: int, r2: int)
        requires
            r1 <= r2,
        ensures
            forall|id: Seq<char>| #[trigger]
                self.spec_radius_ids(x, y, r1).contains(id) ==> self.spec_radius_ids(
                    x,
                    y,
                    r2,
                ).contains(id),
    {
        assert forall|id: Seq<char>| #[trigger]
            self.spec_radius_ids(x, y, r1).contains(id) implies self.spec_radius_ids(
            x,
            y,
            r2,
        ).contains(id) by {
            self.lemma_radius_mem(x, y, r1, id);
            self.lemma_radius_mem(x, y, r2, id);
        }
    }

    /// A zero-radius query returns exactly the contents of the tile that
    /// holds the centre position.
    pub proof fn lemma_radius_zero_is_tile(self, x: int, y: int)
        requires
            self.wf(),
            self.spec_tile_index(x, y) is Some,
        ensures
            self.spec_radius_ids(x, y, 0) == {
                let t = self.spec_tile_index(x, y)->Some_0;
                self.ids_at(t.0, t.1)
            },
    {
        reveal_with_fuel(Tiles::scan_row, 3);
        reveal_with_fuel(Tiles::scan_rows, 3);
        vstd::arithmetic::div_mod::lemma_div_pos_is_pos(x, self.spec_tile_size());
        vstd::arithmetic::div_mod::lemma_div_pos_is_pos(y, self.spec_tile_size());
        let t = self.spec_tile_index(x, y)->Some_0;
        assert(self.spec_radius_ids(x, y, 0) =~= self.ids_at(t.0, t.1));
    }

    /// All entity identifiers within `radius` tiles (Chebyshev distance) of
    /// the tile holding `(x, y)`, row by row, each tile's identifiers in
    /// insertion order.  Tiles outside the grid are skipped; the distance is
    /// measured on tiles, so the true Euclidean distance of a returned entity
    /// may exceed the radius.
    pub fn get_entities_in_radius(&self, x: i64, y: i64, radius: i64) -> (r: Vec<String>)
        requires
            self.wf(),
            -COORD_LIMIT <= x <= COORD_LIMIT,
            -COORD_LIMIT <= y <= COORD_LIMIT,
        ensures
            views_of(r@) == self.spec_radius_ids(x as int, y as int, radius as int),
    {
        let cx = floor_div(x, self.tile_size);
        let cy = floor_div(y, self.tile_size);
        let h = self.tiles.len();
        let w = if h == 0 {
            0
        } else {
            self.tiles[0].len()
        };
        let ylo = clamp_idx(cy as i128 - radius as i128, h);
        let yhi = clamp_idx(cy as i128 + radius as i128 + 1, h);
        let xlo = clamp_idx(cx as i128 - radius as i128, w);
        let xhi = clamp_idx(cx as i128 + radius as i128 + 1, w);
        let mut out: Vec<String> = Vec::new();
        proof {
            assert(views_of(out@) =~= Seq::<Seq<char>>::empty());
        }
        let mut ty: usize = ylo;
        while ty < yhi
            invariant
                self.wf(),
                ylo <= ty,
                ty <= yhi || ty == ylo,
                yhi <= self.spec_height(),
                xlo <= self.spec_width(),
                xhi <= self.spec_width(),
                views_of(out@) == self.scan_rows(ylo as int, ty as int, xlo as int, xhi as int),
            decreases yhi - ty,
        {
            let mut tx: usize = xlo;
            proof {
                assert(views_of(out@) + self.scan_row(ty as int, xlo as int, xlo as int)
                    =~= views_of(out@));
            }
            while tx < xhi
                invariant
                    self.wf(),
                    ylo <= ty < yhi,
                    yhi <= self.spec_height(),
                    xlo <= tx,
                    tx <= xhi || tx == xlo,
                    xhi <= self.spec_width(),
                    views_of(out@) == self.scan_rows(ylo as int, ty as int, xlo as int, xhi as int)
                        + self.scan_row(ty as int, xlo as int, tx as int),
                decreases xhi - tx,
            {
                let ids = &self.tiles[ty][tx].entity_ids;
                let m = ids.len();
                let ghost before = views_of(out@);
                let mut k: usize = 0;
                proof {
                    assert(before + self.ids_at(tx as int, ty as int).take(0) =~= before);
                }
                while k < m
                    invariant
                        self.wf(),
                        ty < self.spec_height(),
                        tx < self.spec_width(),
                        k <= m,
                        m == self.tiles@[ty as int]@[tx as int].entity_ids@.len(),
                        ids == &self.tiles@[ty as int]@[tx as int].entity_ids,
                        views_of(out@) == before + self.ids_at(tx as int, ty as int).take(k as int),
                    decreases m - k,
                {
                    let ghost prev = out@;
                    out.push(ids[k].clone());
                    proof {
                        let cell = self.ids_at(tx as int, ty as int);
                        assert(cell[k as int] == ids@[k as int]@);
                        assert(views_of(out@) =~= views_of(prev).push(ids@[k as int]@));
                        assert(cell.take(k + 1) =~= cell.take(k as int).push(cell[k as int]));
                        assert(views_of(out@) =~= before + cell.take(k + 1));
                    }
                    k += 1;
                }
                proof {
                    assert(self.ids_at(tx as int, ty as int).take(m as int) =~= self.ids_at(
                        tx as int,
                        ty as int,
                    ));
                    self.lemma_scan_row_snoc(ty as int, xlo as int, tx as int);
                    assert(views_of(out@) =~= self.scan_rows(
                        ylo as int,
                        ty as int,
                        xlo as int,
                        xhi as int,
                    ) + self.scan_row(ty as int, xlo as int, tx + 1));
                }
                tx += 1;
            }
            proof {
                self.lemma_scan_rows_snoc(ylo as int, ty as int, xlo as int, xhi as int);
                if xlo < xhi {
                    assert(views_of(out@) =~= self.scan_rows(
                        ylo as int,
                        ty + 1,
                        xlo as int,
                        xhi as int,
                    ));
                } else {
                    assert(self.scan_row(ty as int, xlo as int, xhi as int)
                        =~= Seq::<Seq<char>>::empty());
                    assert(views_of(out@) =~= self.scan_rows(
                        ylo as int,
                        ty + 1,
                        xlo as int,
                        xhi as int,
                    ));
                }
            }
            ty += 1;
        }
        proof {
            assert(views_of(out@) =~= self.spec_radius_ids(x as int, y as int, radius as int));
        }
        out
    }
}

} // verus!
