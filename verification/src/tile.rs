//! The tile map: layer configuration and coordinate conversion, chunked
//! sparse tile storage, the material registry and the per-material cache.
//!
//! A layer stores a 16-bit material id for every integer tile coordinate;
//! id `0` is air. Storage is chunked: 16 by 16 tiles form a chunk, kept in
//! a sparse chunk list plus a single-chunk cache holding the last-touched
//! chunk. The cache is purely an optimization: [`TileLayerData::spec_tile`]
//! is the abstract content, and `get`/`set` are specified against it alone.

use vstd::prelude::*;
use crate::aabb::{Aabb, AabbI, Vec2I};
use crate::scalar::{floor_div, floor_rem, in_world, WORLD_MAX};
use crate::world::Entity;

verus! {

/// Tiles per chunk edge.
pub const CHUNK_EDGE: i64 = 16;

/// Tiles per chunk.
pub const CHUNK_AREA: usize = 256;

/// Largest tile edge length: a thousand world units.
pub const MAX_TILE_SIZE: i64 = 1_000_000_000;

/// Index of a layer within its [`TileMap`].
#[derive(Debug, Copy, Clone, PartialEq, Eq, Structural)]
pub struct LayerIndex(pub usize);

/// Geometry of one layer: its tile edge length (fixed-point) and a world
/// offset. The offset is carried for callers to read; the conversions
/// below do not apply it.
#[derive(Debug, Copy, Clone, PartialEq, Eq, Structural)]
pub struct TileLayerConfig {
    pub size: i64,
    pub offset: Vec2I,
}

impl TileLayerConfig {
    /// The tile edge length is positive and bounded.
    pub open spec fn wf(self) -> bool {
        0 < self.size <= MAX_TILE_SIZE
    }

    pub fn from_size(size: i64) -> (r: TileLayerConfig)
        requires
            0 < size <= MAX_TILE_SIZE,
        ensures
            r == (TileLayerConfig { size, offset: Vec2I { x: 0, y: 0 } }),
            r.wf(),
    {
        TileLayerConfig { size, offset: Vec2I { x: 0, y: 0 } }
    }

    /// Tile index holding world coordinate `value` on either axis: floor
    /// division, so negative coordinates map below zero rather than
    /// truncating toward it.
    pub fn actor_to_tile_axis(&self, value: i64) -> (r: i64)
        requires
            self.wf(),
            in_world(value as int),
        ensures
            r == value as int / self.size as int,
            in_world(r as int),
    {
        proof {
            crate::scalar::lemma_floor_div_in_range(
                value as int,
                self.size as int,
                WORLD_MAX as int,
            );
        }
        floor_div(value, self.size)
    }

    /// Tile coordinate of the world point `pos`.
    pub fn actor_to_tile(&self, pos: Vec2I) -> (r: Vec2I)
        requires
            self.wf(),
            pos.wf(),
        ensures
            r.x == pos.x as int / self.size as int,
            r.y == pos.y as int / self.size as int,
            r.wf(),
    {
        Vec2I { x: self.actor_to_tile_axis(pos.x), y: self.actor_to_tile_axis(pos.y) }
    }

    /// Tile-coordinate rectangle whose corners hold the world box's
    /// corners. Callers wanting every overlapped tile widen it with
    /// [`AabbI::inclusive`].
    pub fn actor_aabb_to_tile(&self, aabb: Aabb) -> (r: AabbI)
        requires
            self.wf(),
            aabb.wf(),
        ensures
            r.min.x == aabb.min.x as int / self.size as int,
            r.min.y == aabb.min.y as int / self.size as int,
            r.max.x == aabb.max.x as int / self.size as int,
            r.max.y == aabb.max.y as int / self.size as int,
            r.wf(),
    {
        AabbI { min: self.actor_to_tile(aabb.min), max: self.actor_to_tile(aabb.max) }
    }

    /// World-space square of the tile at `pos`.
    pub fn tile_to_actor_rect(&self, pos: Vec2I) -> (r: Aabb)
        requires
            self.wf(),
            in_world(pos.x * self.size),
            in_world(pos.y * self.size),
        ensures
            r.min.x == pos.x * self.size,
            r.min.y == pos.y * self.size,
            r.max.x == pos.x * self.size + self.size,
            r.max.y == pos.y * self.size + self.size,
    {
        let min = Vec2I { x: pos.x * self.size, y: pos.y * self.size };
        Aabb { min, max: Vec2I { x: min.x + self.size, y: min.y + self.size } }
    }
}

/// Converting a tile to its world square and back lands on the same tile:
/// the square's min corner, and every world point short of the next tile's
/// edge, floor-divides to `t`.
pub proof fn lemma_tile_round_trip(c: TileLayerConfig, t: Vec2I, p: Vec2I)
    requires
        c.wf(),
        in_world(t.x * c.size),
        in_world(t.y * c.size),
        t.x * c.size <= p.x < t.x * c.size + c.size,
        t.y * c.size <= p.y < t.y * c.size + c.size,
    ensures
        p.x as int / c.size as int == t.x,
        p.y as int / c.size as int == t.y,
        (t.x * c.size) as int / c.size as int == t.x,
        (t.y * c.size) as int / c.size as int == t.y,
{
    let s = c.size as int;
    vstd::arithmetic::div_mod::lemma_fundamental_div_mod_converse(
        p.x as int,
        s,
        t.x as int,
        p.x - t.x * s,
    );
    vstd::arithmetic::div_mod::lemma_fundamental_div_mod_converse(
        p.y as int,
        s,
        t.y as int,
        p.y - t.y * s,
    );
    vstd::arithmetic::div_mod::lemma_fundamental_div_mod_converse(t.x * s, s, t.x as int, 0);
    vstd::arithmetic::div_mod::lemma_fundamental_div_mod_converse(t.y * s, s, t.y as int, 0);
}

/// Number of non-air (non-zero) entries in a chunk's tile data.
pub open spec fn count_nonair(s: Seq<u16>) -> int
    decreases s.len(),
{
    if s.len() == 0 {
        0
    } else {
        count_nonair(s.drop_last()) + if s.last() != 0 {
            1int
        } else {
            0int
        }
    }
}

/// The non-air count is bounded by the data length.
pub proof fn lemma_count_nonair_bounds(s: Seq<u16>)
    ensures
        0 <= count_nonair(s) <= s.len(),
    decreases s.len(),
{
    if s.len() > 0 {
        lemma_count_nonair_bounds(s.drop_last());
    }
}

/// Overwriting one entry moves the non-air count by the status change of
/// that entry.
pub proof fn lemma_count_nonair_update(s: Seq<u16>, i: int, v: u16)
    requires
        0 <= i < s.len(),
    ensures
        count_nonair(s.update(i, v)) == count_nonair(s) + (if v != 0 {
            1int
        } else {
            0int
        }) - (if s[i] != 0 {
            1int
        } else {
            0int
        }),
    decreases s.len(),
{
    let t = s.update(i, v);
    if i == s.len() - 1 {
        assert(t.drop_last() =~= s.drop_last());
    } else {
        assert(t.drop_last() =~= s.drop_last().update(i, v));
        lemma_count_nonair_update(s.drop_last(), i, v);
    }
}

/// A chunk with no non-air entries is all air.
pub proof fn lemma_count_nonair_zero(s: Seq<u16>)
    requires
        count_nonair(s) == 0,
    ensures
        forall|i: int| 0 <= i < s.len() ==> s[i] == 0,
    decreases s.len(),
{
    if s.len() > 0 {
        lemma_count_nonair_bounds(s.drop_last());
        lemma_count_nonair_zero(s.drop_last());
        assert forall|i: int| 0 <= i < s.len() implies s[i] == 0 by {
            if i < s.len() - 1 {
                assert(s.drop_last()[i] == 0);
            }
        }
    }
}

/// An all-air chunk counts zero.
pub proof fn lemma_count_nonair_all_zero(s: Seq<u16>)
    requires
        forall|i: int| 0 <= i < s.len() ==> s[i] == 0,
    ensures
        count_nonair(s) == 0,
    decreases s.len(),
{
    if s.len() > 0 {
        lemma_count_nonair_all_zero(s.drop_last());
    }
}

/// A dense 16 by 16 block of material ids with a running non-air count,
/// kept so the eviction decision is constant-time.
#[derive(Debug, Clone)]
pub struct TileChunk {
    pub non_air_count: u32,
    pub data: Vec<u16>,
}

impl TileChunk {
    pub open spec fn wf(self) -> bool {
        self.data@.len() == CHUNK_AREA && self.non_air_count == count_nonair(self.data@)
    }

    /// A chunk of all air.
    pub fn new_empty() -> (r: TileChunk)
        ensures
            r.wf(),
            forall|i: int| 0 <= i < CHUNK_AREA ==> r.data@[i] == 0,
    {
        let mut data: Vec<u16> = Vec::new();
        let mut i: usize = 0;
        while i < CHUNK_AREA
            invariant
                data@.len() == i,
                0 <= i <= CHUNK_AREA,
                forall|j: int| 0 <= j < i ==> data@[j] == 0,
            decreases CHUNK_AREA - i,
        {
            data.push(0);
            i = i + 1;
        }
        proof {
            lemma_count_nonair_all_zero(data@);
        }
        TileChunk { non_air_count: 0, data }
    }
}

/// Chunk coordinate holding tile `pos`.
pub open spec fn spec_chunk_of(pos: Vec2I) -> Vec2I {
    Vec2I { x: (pos.x as int / 16) as i64, y: (pos.y as int / 16) as i64 }
}

/// Index of tile `pos` within its chunk's data, row-major.
pub open spec fn spec_slot_of(pos: Vec2I) -> int {
    (pos.y as int % 16) * 16 + (pos.x as int % 16)
}

/// Chunk coordinate and slot together pin down the tile.
pub proof fn lemma_decompose_injective(p: Vec2I, q: Vec2I)
    requires
        spec_chunk_of(p) == spec_chunk_of(q),
        spec_slot_of(p) == spec_slot_of(q),
    ensures
        p == q,
{
    vstd::arithmetic::div_mod::lemma_fundamental_div_mod(p.x as int, 16);
    vstd::arithmetic::div_mod::lemma_fundamental_div_mod(p.y as int, 16);
    vstd::arithmetic::div_mod::lemma_fundamental_div_mod(q.x as int, 16);
    vstd::arithmetic::div_mod::lemma_fundamental_div_mod(q.y as int, 16);
    vstd::arithmetic::div_mod::lemma_mod_bound(p.x as int, 16);
    vstd::arithmetic::div_mod::lemma_mod_bound(p.y as int, 16);
    vstd::arithmetic::div_mod::lemma_mod_bound(q.x as int, 16);
    vstd::arithmetic::div_mod::lemma_mod_bound(q.y as int, 16);
    assert(p.x as int % 16 == q.x as int % 16 && p.y as int % 16 == q.y as int % 16) by {
        let px = p.x as int % 16;
        let py = p.y as int % 16;
        let qx = q.x as int % 16;
        let qy = q.y as int % 16;
        assert(py * 16 + px == qy * 16 + qx);
        assert(py == qy && px == qx) by (nonlinear_arith)
            requires
                py * 16 + px == qy * 16 + qx,
                0 <= px < 16,
                0 <= py < 16,
                0 <= qx < 16,
                0 <= qy < 16,
        ;
    }
}

/// Split a tile coordinate into its chunk coordinate and in-chunk slot.
pub fn decompose_world_pos(pos: Vec2I) -> (r: (Vec2I, usize))
    requires
        pos.wf(),
    ensures
        r.0 == spec_chunk_of(pos),
        r.1 == spec_slot_of(pos),
        r.1 < CHUNK_AREA,
        r.0.wf(),
{
    let cx = floor_div(pos.x, 16);
    let cy = floor_div(pos.y, 16);
    let lx = floor_rem(pos.x, 16);
    let ly = floor_rem(pos.y, 16);
    (Vec2I { x: cx, y: cy }, (ly * 16 + lx) as usize)
}

/// Row-major slot of an in-chunk coordinate pair; the inverse direction of
/// [`decompose_world_pos`]'s slot.
pub fn to_tile_index(local: Vec2I) -> (r: usize)
    requires
        0 <= local.x < 16,
        0 <= local.y < 16,
    ensures
        r == local.y * 16 + local.x,
        r < CHUNK_AREA,
{
    (local.y * 16 + local.x) as usize
}

/// Chunked sparse storage of one layer's material ids.
///
/// The last-touched chunk sits decoded in `cache`; a chunk that becomes
/// all air is dropped instead of flushed, bounding memory.
#[derive(Debug, Clone)]
pub struct TileLayerData {
    /// Sparse chunk list; keys unique, never the cached coordinate.
    pub chunks: Vec<(Vec2I, TileChunk)>,
    /// Chunk coordinate the cache slot talks about.
    pub cache_pos: Vec2I,
    /// Decoded chunk at `cache_pos`, if any is loaded.
    pub cache: Option<TileChunk>,
}

impl TileLayerData {
    /// Whether the sparse list holds chunk `c`.
    pub open spec fn spec_has_chunk(self, c: Vec2I) -> bool {
        exists|i: int| 0 <= i < self.chunks@.len() && self.chunks@[i].0 == c
    }

    /// The stored chunk at `c`.
    pub open spec fn spec_chunk_at(self, c: Vec2I) -> TileChunk {
        self.chunks@[choose|i: int| 0 <= i < self.chunks@.len() && self.chunks@[i].0 == c].1
    }

    pub open spec fn wf(self) -> bool {
        &&& forall|i: int, j: int|
            0 <= i < j < self.chunks@.len() ==> self.chunks@[i].0 != self.chunks@[j].0
        &&& forall|i: int| 0 <= i < self.chunks@.len() ==> (#[trigger] self.chunks@[i].1).wf()
        &&& forall|i: int|
            0 <= i < self.chunks@.len() ==> (#[trigger] self.chunks@[i].1).non_air_count > 0
        &&& match self.cache {
            Some(ch) => ch.wf(),
            None => true,
        }
        &&& !self.spec_has_chunk(self.cache_pos)
    }

    /// The abstract content: the material id at every tile coordinate.
    pub open spec fn spec_tile(self, pos: Vec2I) -> u16 {
        let c = spec_chunk_of(pos);
        let slot = spec_slot_of(pos);
        if c == self.cache_pos {
            match self.cache {
                Some(ch) => ch.data@[slot],
                None => 0,
            }
        } else if self.spec_has_chunk(c) {
            self.spec_chunk_at(c).data@[slot]
        } else {
            0
        }
    }

    /// An all-air layer.
    pub fn new() -> (r: TileLayerData)
        ensures
            r.wf(),
            forall|q: Vec2I| r.spec_tile(q) == 0,
    {
        TileLayerData { chunks: Vec::new(), cache_pos: Vec2I { x: 0, y: 0 }, cache: None }
    }

    /// The pair at `i` is the stored chunk of its key.
    proof fn lemma_entry_is_chunk_at(self, i: int)
        requires
            self.wf(),
            0 <= i < self.chunks@.len(),
        ensures
            self.spec_has_chunk(self.chunks@[i].0),
            self.spec_chunk_at(self.chunks@[i].0) == self.chunks@[i].1,
    {
        let c = self.chunks@[i].0;
        let w = choose|w: int| 0 <= w < self.chunks@.len() && self.chunks@[w].0 == c;
        assert(w == i);
    }

    /// Index of chunk `c` in the sparse list, if stored.
    fn chunk_find(&self, c: Vec2I) -> (r: Option<usize>)
        ensures
            match r {
                Some(i) => i < self.chunks@.len() && self.chunks@[i as int].0 == c,
                None => !self.spec_has_chunk(c),
            },
    {
        let mut i: usize = 0;
        while i < self.chunks.len()
            invariant
                0 <= i <= self.chunks@.len(),
                forall|j: int| 0 <= j < i ==> self.chunks@[j].0 != c,
            decreases self.chunks@.len() - i,
        {
            if self.chunks[i].0 == c {
                return Some(i);
            }
            i = i + 1;
        }
        None
    }

    /// Point the cache slot at chunk `c`, flushing or dropping whatever it
    /// held; pure bookkeeping, the content is untouched.
    fn update_cache(&mut self, c: Vec2I)
        requires
            old(self).wf(),
        ensures
            final(self).wf(),
            final(self).cache_pos == c,
            forall|q: Vec2I| final(self).spec_tile(q) == old(self).spec_tile(q),
    {
        if self.cache_pos != c {
            let ghost st0 = *self;
            // Unload the old cache if it still holds anything.
            let prior = self.cache.take();
            match prior {
                Some(cached) => {
                    if cached.non_air_count > 0 {
                        let ghost st1 = *self;
                        self.chunks.push((self.cache_pos, cached));
                        proof {
                            let n = st1.chunks@.len() as int;
                            assert forall|k: Vec2I, i: int|
                                0 <= i < self.chunks@.len() && self.chunks@[i].0 == k
                                    implies (k == st1.cache_pos || st1.spec_has_chunk(k)) by {
                                if i < n {
                                    assert(st1.chunks@[i].0 == k);
                                }
                            }
                            assert(self.chunks@[n].0 == st1.cache_pos);
                            assert forall|a: int, b: int|
                                0 <= a < b < self.chunks@.len() implies self.chunks@[a].0
                                    != self.chunks@[b].0 by {
                                if b < n {
                                    assert(self.chunks@[a] == st1.chunks@[a]);
                                    assert(self.chunks@[b] == st1.chunks@[b]);
                                } else {
                                    assert(self.chunks@[a] == st1.chunks@[a]);
                                    st1.lemma_entry_is_chunk_at(a);
                                }
                            }
                            assert forall|q: Vec2I| self.spec_tile_nocache(q)
                                == st0.spec_tile(q) by {
                                self.lemma_flush_point(st1, st0, q, n);
                            }
                        }
                    } else {
                        proof {
                            lemma_count_nonair_zero(cached.data@);
                            assert(self.chunks@ == st0.chunks@);
                            assert(self.cache is None);
                            assert(st0.cache == Some(cached));
                            assert forall|q: Vec2I| self.spec_tile_nocache(q)
                                == st0.spec_tile(q) by {
                                let qs = spec_slot_of(q);
                                assert(0 <= qs < 256) by {
                                    vstd::arithmetic::div_mod::lemma_mod_bound(q.x as int, 16);
                                    vstd::arithmetic::div_mod::lemma_mod_bound(q.y as int, 16);
                                    assert((q.y as int % 16) * 16 + (q.x as int % 16)
                                        < 256) by (nonlinear_arith)
                                        requires
                                            0 <= q.x as int % 16 < 16,
                                            0 <= q.y as int % 16 < 16,
                                    ;
                                }
                                if spec_chunk_of(q) == st0.cache_pos {
                                    assert(cached.data@[qs] == 0);
                                    assert(!st0.spec_has_chunk(st0.cache_pos));
                                    assert(self.spec_tile_nocache(q) == 0);
                                } else {
                                    assert(self.spec_has_chunk(spec_chunk_of(q))
                                        == st0.spec_has_chunk(spec_chunk_of(q)));
                                }
                            }
                        }
                    }
                },
                None => {},
            }
            // Load the target chunk from the sparse list if it is there.
            let ghost st2 = *self;
            match self.chunk_find(c) {
                Some(i) => {
                    let pair = self.chunks.swap_remove(i);
                    self.cache_pos = c;
                    self.cache = Some(pair.1);
                    proof {
                        self.lemma_load_ok(st2, st0, c, i as int);
                    }
                },
                None => {
                    self.cache_pos = c;
                    self.cache = None;
                    proof {
                        assert forall|q: Vec2I| self.spec_tile(q) == st0.spec_tile(q) by {
                            assert(self.spec_tile_nocache(q) == st2.spec_tile_nocache(q));
                        }
                    }
                },
            }
        }
    }

    /// The content read as if no cache slot existed: sparse list only.
    pub open spec fn spec_tile_nocache(self, pos: Vec2I) -> u16 {
        let c = spec_chunk_of(pos);
        let slot = spec_slot_of(pos);
        if self.spec_has_chunk(c) {
            self.spec_chunk_at(c).data@[slot]
        } else {
            0
        }
    }

    /// After pushing the flushed cache chunk, the sparse list alone reads
    /// as the pre-flush state did.
    proof fn lemma_flush_point(self, st1: TileLayerData, st0: TileLayerData, q: Vec2I, n: int)
        requires
            st0.wf(),
            st1.chunks@ == st0.chunks@,
            st1.cache_pos == st0.cache_pos,
            st1.cache is None,
            st0.cache is Some,
            n == st1.chunks@.len(),
            self.chunks@ == st1.chunks@.push((st1.cache_pos, st0.cache->Some_0)),
            self.cache_pos == st1.cache_pos,
            self.cache is None,
        ensures
            self.spec_tile_nocache(q) == st0.spec_tile(q),
    {
        let c = spec_chunk_of(q);
        let slot = spec_slot_of(q);
        assert(self.chunks@[n].0 == st0.cache_pos);
        assert forall|a: int, b: int|
            0 <= a < b < self.chunks@.len() implies self.chunks@[a].0 != self.chunks@[b].0 by {
            if b < n {
                assert(self.chunks@[a] == st0.chunks@[a]);
                assert(self.chunks@[b] == st0.chunks@[b]);
            } else {
                assert(self.chunks@[a] == st0.chunks@[a]);
                st0.lemma_entry_is_chunk_at(a);
            }
        }
        if c == st0.cache_pos {
            assert(self.chunks@[n] == (st0.cache_pos, st0.cache->Some_0));
            self.lemma_entry_is_chunk_at_nu(n);
        } else {
            if st0.spec_has_chunk(c) {
                let i = choose|i: int| 0 <= i < st0.chunks@.len() && st0.chunks@[i].0 == c;
                assert(self.chunks@[i] == st0.chunks@[i]);
                self.lemma_entry_is_chunk_at_nu(i);
                st0.lemma_entry_is_chunk_at(i);
            } else {
                if self.spec_has_chunk(c) {
                    let i = choose|i: int|
                        0 <= i < self.chunks@.len() && self.chunks@[i].0 == c;
                    assert(i == n);
                }
            }
        }
    }

    /// Like [`TileLayerData::lemma_entry_is_chunk_at`] but proving
    /// uniqueness inline rather than taking `wf`.
    proof fn lemma_entry_is_chunk_at_nu(self, i: int)
        requires
            forall|a: int, b: int|
                0 <= a < b < self.chunks@.len() ==> self.chunks@[a].0 != self.chunks@[b].0,
            0 <= i < self.chunks@.len(),
        ensures
            self.spec_has_chunk(self.chunks@[i].0),
            self.spec_chunk_at(self.chunks@[i].0) == self.chunks@[i].1,
    {
        let c = self.chunks@[i].0;
        let w = choose|w: int| 0 <= w < self.chunks@.len() && self.chunks@[w].0 == c;
        assert(w == i);
    }

    /// After loading chunk `i` out of the sparse list into the cache, the
    /// whole state reads as it did before the cache rotation began.
    proof fn lemma_load_ok(self, st2: TileLayerData, st0: TileLayerData, c: Vec2I, i: int)
        requires
            forall|a: int, b: int|
                0 <= a < b < st2.chunks@.len() ==> st2.chunks@[a].0 != st2.chunks@[b].0,
            forall|a: int|
                0 <= a < st2.chunks@.len() ==> (#[trigger] st2.chunks@[a].1).wf(),
            forall|a: int|
                0 <= a < st2.chunks@.len() ==> (#[trigger] st2.chunks@[a].1).non_air_count > 0,
            forall|q: Vec2I| st2.spec_tile_nocache(q) == st0.spec_tile(q),
            0 <= i < st2.chunks@.len(),
            st2.chunks@[i].0 == c,
            self.chunks@ == st2.chunks@.update(i, st2.chunks@.last()).drop_last(),
            self.cache_pos == c,
            self.cache == Some(st2.chunks@[i].1),
        ensures
            self.wf(),
            forall|q: Vec2I| self.spec_tile(q) == st0.spec_tile(q),
    {
        let n = st2.chunks@.len() as int;
        assert forall|a: int, b: int|
            0 <= a < b < self.chunks@.len() implies self.chunks@[a].0 != self.chunks@[b].0 by {
            let pa: int = if a == i {
                n - 1
            } else {
                a
            };
            let pb: int = if b == i {
                n - 1
            } else {
                b
            };
            assert(self.chunks@[a] == st2.chunks@[pa]);
            assert(self.chunks@[b] == st2.chunks@[pb]);
        }
        assert forall|a: int| 0 <= a < self.chunks@.len() implies (
        #[trigger] self.chunks@[a].1).wf() && self.chunks@[a].1.non_air_count > 0 by {
            let pa: int = if a == i {
                n - 1
            } else {
                a
            };
            assert(self.chunks@[a] == st2.chunks@[pa]);
        }
        st2.lemma_entry_is_chunk_at_nu(i);
        assert(!self.spec_has_chunk(c)) by {
            if self.spec_has_chunk(c) {
                let j = choose|j: int| 0 <= j < self.chunks@.len() && self.chunks@[j].0 == c;
                let pj: int = if j == i {
                    n - 1
                } else {
                    j
                };
                assert(self.chunks@[j] == st2.chunks@[pj]);
                if pj != i {
                    assert(st2.chunks@[pj].0 != st2.chunks@[i].0);
                }
            }
        }
        assert forall|q: Vec2I| self.spec_tile(q) == st0.spec_tile(q) by {
            let qc = spec_chunk_of(q);
            if qc == c {
                assert(st2.spec_tile_nocache(q) == st0.spec_tile(q));
            } else {
                if st2.spec_has_chunk(qc) {
                    let j = choose|j: int|
                        0 <= j < st2.chunks@.len() && st2.chunks@[j].0 == qc;
                    assert(j != i);
                    let nj: int = if j == n - 1 {
                        i
                    } else {
                        j
                    };
                    if j == n - 1 && i == n - 1 {
                        assert(false);
                    }
                    assert(self.chunks@[nj] == st2.chunks@[j]);
                    self.lemma_entry_is_chunk_at_nu(nj);
                    st2.lemma_entry_is_chunk_at_nu(j);
                } else {
                    if self.spec_has_chunk(qc) {
                        let j = choose|j: int|
                            0 <= j < self.chunks@.len() && self.chunks@[j].0 == qc;
                        let pj: int = if j == i {
                            n - 1
                        } else {
                            j
                        };
                        assert(self.chunks@[j] == st2.chunks@[pj]);
                        st2.lemma_entry_is_chunk_at_nu(pj);
                    }
                }
                assert(st2.spec_tile_nocache(q) == st0.spec_tile(q));
            }
        }
    }

    /// Material id at tile `pos`. Takes the layer mutably to rotate the
    /// chunk cache; the content is unchanged.
    pub fn get(&mut self, pos: Vec2I) -> (r: u16)
        requires
            old(self).wf(),
            pos.wf(),
        ensures
            final(self).wf(),
            r == old(self).spec_tile(pos),
            forall|q: Vec2I| final(self).spec_tile(q) == old(self).spec_tile(q),
    {
        let (c, slot) = decompose_world_pos(pos);
        self.update_cache(c);
        proof {
            vstd::arithmetic::div_mod::lemma_mod_bound(pos.x as int, 16);
            vstd::arithmetic::div_mod::lemma_mod_bound(pos.y as int, 16);
        }
        match &self.cache {
            Some(ch) => ch.data[slot],
            None => 0,
        }
    }

    /// Write material id `v` at tile `pos`: the content at `pos` becomes
    /// `v` and every other tile keeps its id, whatever chunk was cached.
    pub fn set(&mut self, pos: Vec2I, v: u16)
        requires
            old(self).wf(),
            pos.wf(),
        ensures
            final(self).wf(),
            final(self).spec_tile(pos) == v,
            forall|q: Vec2I| q != pos ==> final(self).spec_tile(q) == old(self).spec_tile(q),
    {
        let (c, slot) = decompose_world_pos(pos);
        self.update_cache(c);
        let ghost mid = *self;
        if self.cache.is_none() {
            self.cache = Some(TileChunk::new_empty());
            proof {
                assert forall|q: Vec2I| self.spec_tile(q) == mid.spec_tile(q) by {
                    vstd::arithmetic::div_mod::lemma_mod_bound(q.x as int, 16);
                    vstd::arithmetic::div_mod::lemma_mod_bound(q.y as int, 16);
                }
            }
        }
        let ghost mid2 = *self;
        proof {
            vstd::arithmetic::div_mod::lemma_mod_bound(pos.x as int, 16);
            vstd::arithmetic::div_mod::lemma_mod_bound(pos.y as int, 16);
        }
        match &mut self.cache {
            Some(ch) => {
                let old_v: u16 = ch.data[slot];
                ch.data[slot] = v;
                let was: u32 = if old_v != 0 {
                    1
                } else {
                    0
                };
                let is_set: u32 = if v != 0 {
                    1
                } else {
                    0
                };
                proof {
                    lemma_count_nonair_bounds(mid2.cache->Some_0.data@);
                    lemma_count_nonair_update(mid2.cache->Some_0.data@, slot as int, v);
                    lemma_count_nonair_update(mid2.cache->Some_0.data@, slot as int, 0);
                    lemma_count_nonair_bounds(mid2.cache->Some_0.data@.update(slot as int, 0));
                    lemma_count_nonair_bounds(mid2.cache->Some_0.data@.update(slot as int, v));
                }
                ch.non_air_count = (ch.non_air_count - was) + is_set;
            },
            None => {
                proof {
                    assert(false);
                }
            },
        }
        proof {
            assert(self.chunks@ == mid2.chunks@);
            assert(self.cache_pos == mid2.cache_pos);
            assert(self.cache_pos == spec_chunk_of(pos));
            assert(self.cache is Some && mid2.cache is Some);
            assert(self.cache->Some_0.data@ == mid2.cache->Some_0.data@.update(
                slot as int,
                v,
            ));
            assert forall|q: Vec2I| q != pos implies self.spec_tile(q) == mid2.spec_tile(
                q,
            ) by {
                let qc = spec_chunk_of(q);
                let qs = spec_slot_of(q);
                if qc == self.cache_pos {
                    if qs == slot as int {
                        lemma_decompose_injective(q, pos);
                    } else {
                        assert(self.cache->Some_0.data@[qs] == mid2.cache->Some_0.data@[qs]);
                    }
                } else {
                    assert(self.spec_has_chunk(qc) == mid2.spec_has_chunk(qc));
                    if self.spec_has_chunk(qc) {
                        assert(self.spec_chunk_at(qc) == mid2.spec_chunk_at(qc));
                    }
                }
            }
            assert(self.spec_tile(pos) == v);
        }
    }
}

/// Which grid face a stepped ray crosses: an axis and the direction of
/// travel along it.
#[derive(Debug, Copy, Clone, PartialEq, Eq, Structural)]
pub struct TileFace {
    pub axis: crate::aabb::Axis2,
    pub sign: crate::aabb::Sign,
}

impl TileFace {
    pub fn compose(axis: crate::aabb::Axis2, sign: crate::aabb::Sign) -> (r: TileFace)
        ensures
            r == (TileFace { axis, sign }),
    {
        TileFace { axis, sign }
    }

    /// The one-tile step this face crossing makes.
    pub open spec fn spec_step(self) -> Vec2I {
        let v: i64 = if self.sign is Negative {
            -1i64
        } else {
            1i64
        };
        if self.axis is X {
            Vec2I { x: v, y: 0 }
        } else {
            Vec2I { x: 0, y: v }
        }
    }

    pub fn as_ivec(self) -> (r: Vec2I)
        ensures
            r == self.spec_step(),
    {
        let v: i64 = if self.sign == crate::aabb::Sign::Negative {
            -1
        } else {
            1
        };
        match self.axis {
            crate::aabb::Axis2::X => Vec2I { x: v, y: 0 },
            crate::aabb::Axis2::Y => Vec2I { x: 0, y: v },
        }
    }
}

/// One grid-line crossing of a stepped ray: the face crossed, the tile
/// entered, and the crossing point.
#[derive(Debug, Copy, Clone, PartialEq, Eq, Structural)]
pub struct RayIntersection {
    pub face: TileFace,
    pub entered_tile: Vec2I,
    pub isect_pos: Vec2I,
}

/// Rational floor `n / d` for nonzero `d`, as the spec-level division with
/// a positive divisor.
pub open spec fn floor_ratio(n: int, d: int) -> int {
    if d < 0 {
        (-n) / (-d)
    } else {
        n / d
    }
}

/// Whether `r` is a true crossing of the ray `origin + t * delta`: its
/// face points along the travel direction on its axis, its position sits
/// exactly on a grid line strictly past the origin and no further than the
/// destination, and the other coordinate is the ray's exact (floored)
/// value there.
#[verifier::opaque]
pub open spec fn valid_crossing(
    c: TileLayerConfig,
    origin: Vec2I,
    delta: Vec2I,
    r: RayIntersection,
) -> bool {
    let ax = r.face.axis;
    let other = if ax is X {
        crate::aabb::Axis2::Y
    } else {
        crate::aabb::Axis2::X
    };
    let o = origin.spec_axis(ax) as int;
    let dl = delta.spec_axis(ax) as int;
    let b = r.isect_pos.spec_axis(ax) as int;
    let oo = origin.spec_axis(other) as int;
    let dlo = delta.spec_axis(other) as int;
    &&& dl != 0
    &&& r.face.sign == (if dl < 0 {
        crate::aabb::Sign::Negative
    } else {
        crate::aabb::Sign::Positive
    })
    &&& b % (c.size as int) == 0
    &&& (if dl < 0 {
        o + dl < b <= o
    } else {
        o < b <= o + dl
    })
    &&& r.isect_pos.spec_axis(other) == oo + floor_ratio(dlo * (b - o), dl)
}

/// The crossing's progress along the ray, as the fraction
/// `num / den` with positive denominator.
#[verifier::opaque]
pub open spec fn cross_num(origin: Vec2I, r: RayIntersection) -> int {
    let ax = r.face.axis;
    crate::kinematic::iabs(r.isect_pos.spec_axis(ax) - origin.spec_axis(ax))
}

/// The crossing's progress denominator: the delta magnitude on its axis.
#[verifier::opaque]
pub open spec fn cross_den(delta: Vec2I, r: RayIntersection) -> int {
    crate::kinematic::iabs(delta.spec_axis(r.face.axis) as int)
}

/// Crossing `a` is no further along the ray than `b`.
#[verifier::opaque]
pub open spec fn cross_le(origin: Vec2I, delta: Vec2I, a: RayIntersection, b: RayIntersection) -> bool {
    cross_num(origin, a) * cross_den(delta, b) <= cross_num(origin, b) * cross_den(delta, a)
}

/// Floored `a * b / c`, the ray interpolation step; `|b| <= |c|` keeps the
/// result within a unit of `|a|`.
fn muldiv(a: i64, b: i64, c: i64) -> (r: i64)
    requires
        c != 0,
        in_world(a as int),
        crate::kinematic::iabs(b as int) <= crate::kinematic::iabs(c as int),
    ensures
        r == floor_ratio(a as int * b as int, c as int),
        -WORLD_MAX - 1 <= r <= WORLD_MAX + 1,
{
    proof {
        assert((a as int) * (b as int) <= 0x4000_0000_0000_0000_0000_0000_0000_0000int
            && -0x4000_0000_0000_0000_0000_0000_0000_0000int <= (a as int) * (b as int)
            && crate::kinematic::iabs((a as int) * (b as int)) <= (WORLD_MAX as int)
            * crate::kinematic::iabs(c as int)) by (nonlinear_arith)
            requires
                -0x8000_0000_0000_0000int <= (a as int) < 0x8000_0000_0000_0000int,
                -0x8000_0000_0000_0000int <= (b as int) < 0x8000_0000_0000_0000int,
                in_world(a as int),
                crate::kinematic::iabs(b as int) <= crate::kinematic::iabs(c as int),
        ;
    }
    let p: i128 = (a as i128) * (b as i128);
    let (pn, pd): (i128, i128) = if c < 0 {
        (-p, -(c as i128))
    } else {
        (p, c as i128)
    };
    proof {
        crate::scalar::lemma_floor_div_in_range(
            pn as int,
            pd as int,
            0x4000_0000_0000_0000_0000_0000_0000_0000int,
        );
    }
    let q: i128 = pn.checked_div_euclid(pd).unwrap();
    proof {
        vstd::arithmetic::div_mod::lemma_fundamental_div_mod(pn as int, pd as int);
        vstd::arithmetic::div_mod::lemma_mod_bound(pn as int, pd as int);
        assert(-(WORLD_MAX as int) - 1 <= q <= (WORLD_MAX as int) + 1) by (nonlinear_arith)
            requires
                (pd as int) >= 1,
                (pn as int) == (pd as int) * (q as int) + ((pn as int) % (pd as int)),
                0 <= (pn as int) % (pd as int) < (pd as int),
                crate::kinematic::iabs(pn as int) <= (WORLD_MAX as int) * (pd as int),
        ;
    }
    q as i64
}

/// How many grid lines perpendicular to `axis` the segment from `origin`
/// to `origin + delta` passes: the tile-index distance it covers there.
#[verifier::opaque]
pub open spec fn spec_crossing_count(
    c: TileLayerConfig,
    origin: Vec2I,
    delta: Vec2I,
    axis: crate::aabb::Axis2,
) -> int {
    crate::kinematic::iabs(
        ((origin.spec_axis(axis) + delta.spec_axis(axis)) as int) / (c.size as int) - (
        origin.spec_axis(axis) as int) / (c.size as int),
    )
}

/// The full contract of a stepped ray's crossing list: every entry a true
/// crossing, non-decreasing ray order overall, strictly increasing per
/// axis, and the entered tiles chaining from the origin tile by each
/// crossed face.
#[verifier::opaque]
pub open spec fn ray_result_ok(
    c: TileLayerConfig,
    origin: Vec2I,
    delta: Vec2I,
    r: Seq<RayIntersection>,
) -> bool {
    &&& forall|i: int| 0 <= i < r.len() ==> valid_crossing(c, origin, delta, #[trigger] r[i])
    &&& forall|i: int, j: int| 0 <= i < j < r.len() ==> cross_le(origin, delta, r[i], r[j])
    &&& forall|i: int, j: int|
        0 <= i < j < r.len() && (#[trigger] r[i]).face.axis == (#[trigger] r[j]).face.axis
            ==> cross_num(origin, r[i]) < cross_num(origin, r[j])
    &&& (r.len() > 0 ==> r[0].entered_tile == (Vec2I {
        x: ((origin.x as int) / (c.size as int)) as i64,
        y: ((origin.y as int) / (c.size as int)) as i64,
    }).add_spec(r[0].face.spec_step()))
    &&& forall|i: int|
        #![trigger r[i].entered_tile, r[i - 1].entered_tile]
        1 <= i < r.len() ==> r[i].entered_tile == r[i - 1].entered_tile.add_spec(
            r[i].face.spec_step(),
        )
}

impl TileLayerConfig {
    /// Every grid-line crossing between `origin` and `origin + delta`, in
    /// increasing distance order, each tagged with the face crossed and
    /// the tile entered. The count is exact — one crossing per grid line
    /// passed on each axis — so a caller can paint every tile along a drag
    /// without tunneling; a zero delta yields none.
    #[verifier::rlimit(100)]
    #[verifier::spinoff_prover]
    pub fn step_ray(&self, origin: Vec2I, delta: Vec2I) -> (r: Vec<RayIntersection>)
        requires
            self.wf(),
            origin.wf(),
            delta.wf(),
            in_world(origin.x + delta.x),
            in_world(origin.y + delta.y),
            spec_crossing_count(*self, origin, delta, crate::aabb::Axis2::X) < 10_000,
            spec_crossing_count(*self, origin, delta, crate::aabb::Axis2::Y) < 10_000,
        ensures
            r@.len() == spec_crossing_count(*self, origin, delta, crate::aabb::Axis2::X)
                + spec_crossing_count(*self, origin, delta, crate::aabb::Axis2::Y),
            ray_result_ok(*self, origin, delta, r@),
    {
        let xs = self.axis_crossings(origin, delta, crate::aabb::Axis2::X);
        let ys = self.axis_crossings(origin, delta, crate::aabb::Axis2::Y);
        self.assemble_ray(origin, delta, &xs, &ys)
    }

    /// Merge the per-axis crossing runs and walk them, tagging each with
    /// the tile entered.
    #[verifier::rlimit(100)]
    #[verifier::spinoff_prover]
    fn assemble_ray(
        &self,
        origin: Vec2I,
        delta: Vec2I,
        xs: &Vec<RayIntersection>,
        ys: &Vec<RayIntersection>,
    ) -> (r: Vec<RayIntersection>)
        requires
            self.wf(),
            origin.wf(),
            delta.wf(),
            xs@.len() < 10_000,
            ys@.len() < 10_000,
            forall|i: int|
                0 <= i < xs@.len() ==> valid_crossing(*self, origin, delta, #[trigger] xs@[i])
                    && xs@[i].face.axis is X,
            forall|i: int|
                0 <= i < ys@.len() ==> valid_crossing(*self, origin, delta, #[trigger] ys@[i])
                    && ys@[i].face.axis is Y,
            forall|i: int, j: int|
                0 <= i < j < xs@.len() ==> cross_num(origin, #[trigger] xs@[i]) < cross_num(
                    origin,
                    #[trigger] xs@[j],
                ),
            forall|i: int, j: int|
                0 <= i < j < ys@.len() ==> cross_num(origin, #[trigger] ys@[i]) < cross_num(
                    origin,
                    #[trigger] ys@[j],
                ),
        ensures
            r@.len() == xs@.len() + ys@.len(),
            ray_result_ok(*self, origin, delta, r@),
    {
        let s = self.size;
        let merged = merge_crossings(self, origin, delta, xs, ys);
        proof {
            crate::scalar::lemma_floor_div_in_range(origin.x as int, s as int, WORLD_MAX as int);
            crate::scalar::lemma_floor_div_in_range(origin.y as int, s as int, WORLD_MAX as int);
        }
        let tx0 = floor_div(origin.x, s);
        let ty0 = floor_div(origin.y, s);
        let r = tag_entered_tiles(&merged, tx0, ty0);
        proof {
            lemma_retag_keeps_crossings(*self, origin, delta, merged@, r@, tx0, ty0);
        }
        r
    }

    /// The crossings of the grid lines perpendicular to `axis`, nearest
    /// first.
    #[verifier::rlimit(100)]
    fn axis_crossings(&self, origin: Vec2I, delta: Vec2I, axis: crate::aabb::Axis2) -> (r: Vec<
        RayIntersection,
    >)
        requires
            self.wf(),
            origin.wf(),
            delta.wf(),
            in_world(origin.x + delta.x),
            in_world(origin.y + delta.y),
            spec_crossing_count(*self, origin, delta, axis) < 10_000,
        ensures
            r@.len() == spec_crossing_count(*self, origin, delta, axis),
            forall|i: int|
                0 <= i < r@.len() ==> valid_crossing(*self, origin, delta, #[trigger] r@[i])
                    && r@[i].face.axis == axis,
            forall|i: int, j: int|
                0 <= i < j < r@.len() ==> cross_num(origin, #[trigger] r@[i]) < cross_num(
                    origin,
                    #[trigger] r@[j],
                ),
    {
        proof {
            reveal(spec_crossing_count);
        }
        let s = self.size;
        let o = origin.get_axis(axis);
        let dl = delta.get_axis(axis);
        let other_o = if axis == crate::aabb::Axis2::X {
            origin.y
        } else {
            origin.x
        };
        let other_dl = if axis == crate::aabb::Axis2::X {
            delta.y
        } else {
            delta.x
        };
        proof {
            crate::scalar::lemma_floor_div_in_range(o as int, s as int, WORLD_MAX as int);
            crate::scalar::lemma_floor_div_in_range(
                (o + dl) as int,
                s as int,
                WORLD_MAX as int,
            );
        }
        let t0 = floor_div(o, s);
        let t1 = floor_div(o + dl, s);
        let mut r: Vec<RayIntersection> = Vec::new();
        if dl == 0 {
            proof {
                assert(t0 == t1);
            }
            return r;
        }
        let n: i64 = if t1 >= t0 {
            t1 - t0
        } else {
            t0 - t1
        };
        let sign = crate::aabb::Sign::of_biased(dl);
        let face = TileFace::compose(axis, sign);
        let mut k: i64 = 1;
        while k <= n
            invariant
                self.wf(),
                origin.wf(),
                delta.wf(),
                in_world(origin.x + delta.x),
                in_world(origin.y + delta.y),
                o == origin.spec_axis(axis),
                dl == delta.spec_axis(axis),
                dl != 0,
                other_o == origin.spec_axis(
                    if axis is X {
                        crate::aabb::Axis2::Y
                    } else {
                        crate::aabb::Axis2::X
                    },
                ),
                other_dl == delta.spec_axis(
                    if axis is X {
                        crate::aabb::Axis2::Y
                    } else {
                        crate::aabb::Axis2::X
                    },
                ),
                t0 == o as int / s as int,
                t1 == (o + dl) as int / s as int,
                in_world(t0 as int) && in_world(t1 as int),
                n == crate::kinematic::iabs(t1 as int - t0 as int),
                n < 10_000,
                face == (TileFace {
                    axis,
                    sign: if dl < 0 {
                        crate::aabb::Sign::Negative
                    } else {
                        crate::aabb::Sign::Positive
                    },
                }),
                s == self.size,
                self.wf(),
                1 <= k <= n + 1,
                r@.len() == k - 1,
                forall|i: int|
                    0 <= i < r@.len() ==> valid_crossing(*self, origin, delta, #[trigger] r@[i])
                        && r@[i].face.axis == axis,
                forall|i: int|
                    0 <= i < r@.len() ==> cross_num(origin, #[trigger] r@[i]) == (if dl < 0 {
                        (o as int) - ((t0 as int - i) * (s as int))
                    } else {
                        ((t0 as int + i + 1) * (s as int)) - (o as int)
                    }),
                forall|i: int, j: int|
                    0 <= i < j < r@.len() ==> cross_num(origin, #[trigger] r@[i]) < cross_num(
                        origin,
                        #[trigger] r@[j],
                    ),
            decreases n + 1 - k,
        {
            let bt: i64 = if dl < 0 {
                t0 - k + 1
            } else {
                t0 + k
            };
            proof {
                lemma_boundary_bounds(o as int, dl as int, s as int, t0 as int, t1 as int, k as int);
            }
            let b: i64 = bt * s;
            let off = muldiv(other_dl, b - o, dl);
            let iso = other_o + off;
            let isect = if axis == crate::aabb::Axis2::X {
                Vec2I { x: b, y: iso }
            } else {
                Vec2I { x: iso, y: b }
            };
            let cross = RayIntersection {
                face,
                entered_tile: Vec2I { x: 0, y: 0 },
                isect_pos: isect,
            };
            proof {
                vstd::arithmetic::div_mod::lemma_fundamental_div_mod_converse(
                    (bt as int) * (s as int),
                    s as int,
                    bt as int,
                    0,
                );
                reveal(valid_crossing);
                reveal(cross_num);
                assert(valid_crossing(*self, origin, delta, cross));
                assert(cross_num(origin, cross) == (if dl < 0 {
                    (o as int) - ((t0 as int - (k - 1)) * (s as int))
                } else {
                    ((t0 as int + k) * (s as int)) - (o as int)
                }));
                assert forall|i: int|
                    0 <= i < r@.len() implies cross_num(origin, #[trigger] r@[i]) < cross_num(
                    origin,
                    cross,
                ) by {
                    if dl < 0 {
                        assert(((t0 as int - (k - 1)) * (s as int)) < ((t0 as int - i) * (
                        s as int))) by (nonlinear_arith)
                            requires
                                s as int > 0,
                                0 <= i < k - 1,
                        ;
                    } else {
                        assert(((t0 as int + i + 1) * (s as int)) < ((t0 as int + k) * (
                        s as int))) by (nonlinear_arith)
                            requires
                                s as int > 0,
                                0 <= i < k - 1,
                        ;
                    }
                }
            }
            r.push(cross);
            k = k + 1;
        }
        r
    }
}

/// A valid crossing's progress numerator never exceeds its denominator,
/// which is in world range.
proof fn lemma_crossing_bounds(c: TileLayerConfig, origin: Vec2I, delta: Vec2I, r: RayIntersection)
    requires
        valid_crossing(c, origin, delta, r),
        delta.wf(),
    ensures
        0 <= cross_num(origin, r) <= cross_den(delta, r),
        0 < cross_den(delta, r) <= WORLD_MAX,
{
    reveal(valid_crossing);
    reveal(cross_num);
    reveal(cross_den);
}

/// Merge the two per-axis crossing runs into one list ordered by progress
/// along the ray.
#[verifier::rlimit(100)]
fn merge_crossings(
    c: &TileLayerConfig,
    origin: Vec2I,
    delta: Vec2I,
    xs: &Vec<RayIntersection>,
    ys: &Vec<RayIntersection>,
) -> (merged: Vec<RayIntersection>)
    requires
        c.wf(),
        origin.wf(),
        delta.wf(),
        forall|i: int|
            0 <= i < xs@.len() ==> valid_crossing(*c, origin, delta, #[trigger] xs@[i])
                && xs@[i].face.axis is X,
        forall|i: int|
            0 <= i < ys@.len() ==> valid_crossing(*c, origin, delta, #[trigger] ys@[i])
                && ys@[i].face.axis is Y,
        forall|i: int, j: int|
            0 <= i < j < xs@.len() ==> cross_num(origin, #[trigger] xs@[i]) < cross_num(
                origin,
                #[trigger] xs@[j],
            ),
        forall|i: int, j: int|
            0 <= i < j < ys@.len() ==> cross_num(origin, #[trigger] ys@[i]) < cross_num(
                origin,
                #[trigger] ys@[j],
            ),
    ensures
        merged@.len() == xs@.len() + ys@.len(),
        forall|i: int|
            0 <= i < merged@.len() ==> valid_crossing(*c, origin, delta, #[trigger] merged@[i]),
        forall|i: int, j: int|
            0 <= i < j < merged@.len() ==> cross_le(origin, delta, merged@[i], merged@[j]),
        forall|i: int, j: int|
            0 <= i < j < merged@.len() && (#[trigger] merged@[i]).face.axis == (
            #[trigger] merged@[j]).face.axis ==> cross_num(origin, merged@[i]) < cross_num(
                origin,
                merged@[j],
            ),
{
    let mut merged: Vec<RayIntersection> = Vec::new();
        let mut xi: usize = 0;
        let mut yi: usize = 0;
        while xi < xs.len() || yi < ys.len()
            invariant
                c.wf(),
                origin.wf(),
                delta.wf(),
                0 <= xi <= xs@.len(),
                0 <= yi <= ys@.len(),
                merged@.len() == xi + yi,
                forall|i: int|
                    0 <= i < xs@.len() ==> valid_crossing(*c, origin, delta, #[trigger] xs@[i])
                        && xs@[i].face.axis is X,
                forall|i: int|
                    0 <= i < ys@.len() ==> valid_crossing(*c, origin, delta, #[trigger] ys@[i])
                        && ys@[i].face.axis is Y,
                forall|i: int, j: int|
                    0 <= i < j < xs@.len() ==> cross_num(origin, #[trigger] xs@[i])
                        < cross_num(origin, #[trigger] xs@[j]),
                forall|i: int, j: int|
                    0 <= i < j < ys@.len() ==> cross_num(origin, #[trigger] ys@[i])
                        < cross_num(origin, #[trigger] ys@[j]),
                forall|i: int|
                    0 <= i < merged@.len() ==> valid_crossing(
                        *c,
                        origin,
                        delta,
                        #[trigger] merged@[i],
                    ),
                forall|i: int, j: int|
                    0 <= i < j < merged@.len() ==> cross_le(origin, delta, merged@[i], merged@[j]),
                forall|i: int, j: int|
                    0 <= i < merged@.len() && xi <= j < xs@.len() ==> cross_le(
                        origin,
                        delta,
                        merged@[i],
                        xs@[j],
                    ),
                forall|i: int, j: int|
                    0 <= i < merged@.len() && yi <= j < ys@.len() ==> cross_le(
                        origin,
                        delta,
                        merged@[i],
                        ys@[j],
                    ),
                forall|i: int, j: int|
                    0 <= i < j < merged@.len() && (#[trigger] merged@[i]).face.axis == (
                    #[trigger] merged@[j]).face.axis ==> cross_num(origin, merged@[i])
                        < cross_num(origin, merged@[j]),
                forall|i: int, j: int|
                    0 <= i < merged@.len() && (#[trigger] merged@[i]).face.axis is X && xi <= j
                        < xs@.len() ==> cross_num(origin, merged@[i]) < cross_num(
                        origin,
                        #[trigger] xs@[j],
                    ),
                forall|i: int, j: int|
                    0 <= i < merged@.len() && (#[trigger] merged@[i]).face.axis is Y && yi <= j
                        < ys@.len() ==> cross_num(origin, merged@[i]) < cross_num(
                        origin,
                        #[trigger] ys@[j],
                    ),
            decreases xs@.len() - xi + ys@.len() - yi,
        {
            let take_x: bool = if xi < xs.len() && yi < ys.len() {
                proof {
                    lemma_crossing_bounds(*c, origin, delta, xs@[xi as int]);
                    lemma_crossing_bounds(*c, origin, delta, ys@[yi as int]);
                }
                cross_le_exec(origin, delta, &xs[xi], &ys[yi])
            } else {
                xi < xs.len()
            };
            let picked = if take_x {
                let v = xs[xi];
                xi = xi + 1;
                v
            } else {
                let v = ys[yi];
                yi = yi + 1;
                v
            };
            proof {
                if take_x {
                    assert(picked == xs@[xi - 1]);
                    assert forall|j: int| xi <= j < xs@.len() implies cross_le(
                        origin,
                        delta,
                        picked,
                        xs@[j],
                    ) by {
                        lemma_same_axis_le(origin, delta, picked, xs@[j]);
                    }
                    assert forall|j: int| yi <= j < ys@.len() implies cross_le(
                        origin,
                        delta,
                        picked,
                        ys@[j],
                    ) by {
                        assert(cross_le(origin, delta, picked, ys@[yi as int]));
                        if j > yi {
                            lemma_crossing_bounds(*c, origin, delta, ys@[yi as int]);
                            lemma_same_axis_le(origin, delta, ys@[yi as int], ys@[j]);
                            lemma_cross_le_trans(
                                origin,
                                delta,
                                picked,
                                ys@[yi as int],
                                ys@[j],
                            );
                        }
                    }
                } else {
                    assert(picked == ys@[yi - 1]);
                    assert forall|j: int| yi <= j < ys@.len() implies cross_le(
                        origin,
                        delta,
                        picked,
                        ys@[j],
                    ) by {
                        lemma_same_axis_le(origin, delta, picked, ys@[j]);
                    }
                    assert forall|j: int| xi <= j < xs@.len() implies cross_le(
                        origin,
                        delta,
                        picked,
                        xs@[j],
                    ) by {
                        lemma_cross_le_total(origin, delta, picked, xs@[xi as int]);
                        assert(cross_le(origin, delta, picked, xs@[xi as int]));
                        if j > xi {
                            lemma_crossing_bounds(*c, origin, delta, xs@[xi as int]);
                            lemma_same_axis_le(origin, delta, xs@[xi as int], xs@[j]);
                            lemma_cross_le_trans(
                                origin,
                                delta,
                                picked,
                                xs@[xi as int],
                                xs@[j],
                            );
                        }
                    }
                }
            }
            merged.push(picked);
        }
    merged
}

/// Re-tag a merged crossing list with the tiles entered, walking from the
/// origin tile and stepping by each crossed face.
#[verifier::rlimit(100)]
fn tag_entered_tiles(merged: &Vec<RayIntersection>, tx0: i64, ty0: i64) -> (r: Vec<
    RayIntersection,
>)
    requires
        in_world(tx0 as int),
        in_world(ty0 as int),
        merged@.len() < 20_000,
    ensures
        r@.len() == merged@.len(),
        forall|j: int|
            0 <= j < r@.len() ==> (#[trigger] r@[j]).face == merged@[j].face && r@[j].isect_pos
                == merged@[j].isect_pos,
        r@.len() > 0 ==> r@[0].entered_tile == (Vec2I { x: tx0, y: ty0 }).add_spec(
            r@[0].face.spec_step(),
        ),
        forall|i: int|
            #![trigger r@[i].entered_tile, r@[i - 1].entered_tile]
            1 <= i < r@.len() ==> r@[i].entered_tile == r@[i - 1].entered_tile.add_spec(
                r@[i].face.spec_step(),
            ),
{
    let mut cur = Vec2I { x: tx0, y: ty0 };
    let mut r: Vec<RayIntersection> = Vec::new();
    let mut i: usize = 0;
    while i < merged.len()
        invariant
            in_world(tx0 as int),
            in_world(ty0 as int),
            merged@.len() < 20_000,
            0 <= i <= merged@.len(),
            r@.len() == i,
            forall|j: int|
                0 <= j < i ==> (#[trigger] r@[j]).face == merged@[j].face && r@[j].isect_pos
                    == merged@[j].isect_pos,
            i > 0 ==> r@[0].entered_tile == (Vec2I { x: tx0, y: ty0 }).add_spec(
                r@[0].face.spec_step(),
            ),
            forall|j: int|
                #![trigger r@[j].entered_tile, r@[j - 1].entered_tile]
                1 <= j < i ==> r@[j].entered_tile == r@[j - 1].entered_tile.add_spec(
                    r@[j].face.spec_step(),
                ),
            cur == (if i == 0 {
                Vec2I { x: tx0, y: ty0 }
            } else {
                r@[i - 1].entered_tile
            }),
            crate::kinematic::iabs(cur.x as int) <= crate::kinematic::iabs(tx0 as int) + i,
            crate::kinematic::iabs(cur.y as int) <= crate::kinematic::iabs(ty0 as int) + i,
        decreases merged@.len() - i,
    {
        let m = merged[i];
        let step = m.face.as_ivec();
        let next = Vec2I { x: cur.x + step.x, y: cur.y + step.y };
        r.push(RayIntersection { face: m.face, entered_tile: next, isect_pos: m.isect_pos });
        cur = next;
        i = i + 1;
    }
    r
}

/// Re-tagging entered tiles touches neither validity nor order — both
/// read only the face and the crossing point — and the tagged chain walks
/// from the origin tile, so the result meets the whole ray contract.
#[verifier::rlimit(100)]
#[verifier::spinoff_prover]
proof fn lemma_retag_keeps_crossings(
    c: TileLayerConfig,
    origin: Vec2I,
    delta: Vec2I,
    merged: Seq<RayIntersection>,
    r: Seq<RayIntersection>,
    tx0: i64,
    ty0: i64,
)
    requires
        tx0 == (origin.x as int) / (c.size as int),
        ty0 == (origin.y as int) / (c.size as int),
        r.len() > 0 ==> r[0].entered_tile == (Vec2I { x: tx0, y: ty0 }).add_spec(
            r[0].face.spec_step(),
        ),
        forall|i: int|
            #![trigger r[i].entered_tile, r[i - 1].entered_tile]
            1 <= i < r.len() ==> r[i].entered_tile == r[i - 1].entered_tile.add_spec(
                r[i].face.spec_step(),
            ),
        r.len() == merged.len(),
        forall|j: int|
            0 <= j < r.len() ==> (#[trigger] r[j]).face == merged[j].face && r[j].isect_pos
                == merged[j].isect_pos,
        forall|i: int| 0 <= i < merged.len() ==> valid_crossing(c, origin, delta, #[trigger] merged[i]),
        forall|i: int, j: int|
            0 <= i < j < merged.len() ==> cross_le(origin, delta, merged[i], merged[j]),
        forall|i: int, j: int|
            0 <= i < j < merged.len() && (#[trigger] merged[i]).face.axis == (
            #[trigger] merged[j]).face.axis ==> cross_num(origin, merged[i]) < cross_num(
                origin,
                merged[j],
            ),
    ensures
        ray_result_ok(c, origin, delta, r),
{
    assert forall|i: int| 0 <= i < r.len() implies valid_crossing(
        c,
        origin,
        delta,
        #[trigger] r[i],
    ) by {
        reveal(valid_crossing);
        assert(valid_crossing(c, origin, delta, merged[i]));
    }
    assert forall|i: int, j: int| 0 <= i < j < r.len() implies cross_le(
        origin,
        delta,
        r[i],
        r[j],
    ) by {
        reveal(cross_le);
        reveal(cross_num);
        reveal(cross_den);
        assert(cross_le(origin, delta, merged[i], merged[j]));
    }
    assert forall|i: int, j: int|
        0 <= i < j < r.len() && (#[trigger] r[i]).face.axis == (#[trigger] r[j]).face.axis
            implies cross_num(origin, r[i]) < cross_num(origin, r[j]) by {
        reveal(cross_num);
        assert(merged[i].face.axis == merged[j].face.axis);
        assert(cross_num(origin, merged[i]) < cross_num(origin, merged[j]));
    }
    assert(ray_result_ok(c, origin, delta, r)) by {
        reveal(ray_result_ok);
    }
}

/// Two crossings always compare: the ordering by ray progress is total.
proof fn lemma_cross_le_total(origin: Vec2I, delta: Vec2I, a: RayIntersection, b: RayIntersection)
    ensures
        cross_le(origin, delta, a, b) || cross_le(origin, delta, b, a),
{
    reveal(cross_le);
}

/// Ray order is transitive through a crossing on a moving axis.
proof fn lemma_cross_le_trans(
    origin: Vec2I,
    delta: Vec2I,
    a: RayIntersection,
    b: RayIntersection,
    c: RayIntersection,
)
    requires
        cross_le(origin, delta, a, b),
        cross_le(origin, delta, b, c),
        cross_den(delta, b) > 0,
    ensures
        cross_le(origin, delta, a, c),
{
    reveal(cross_le);
    reveal(cross_num);
    reveal(cross_den);
    let na = cross_num(origin, a);
    let nb = cross_num(origin, b);
    let nc = cross_num(origin, c);
    let da = cross_den(delta, a);
    let db = cross_den(delta, b);
    let dc = cross_den(delta, c);
    assert(na * dc <= nc * da) by (nonlinear_arith)
        requires
            na * db <= nb * da,
            nb * dc <= nc * db,
            db > 0,
            da >= 0,
            dc >= 0,
            na >= 0,
            nb >= 0,
            nc >= 0,
    ;
}

/// Exact executable comparison of two crossings' ray progress.
fn cross_le_exec(origin: Vec2I, delta: Vec2I, a: &RayIntersection, b: &RayIntersection) -> (r:
    bool)
    requires
        0 <= cross_num(origin, *a) <= 2 * WORLD_MAX,
        0 <= cross_num(origin, *b) <= 2 * WORLD_MAX,
        0 <= cross_den(delta, *a) <= WORLD_MAX,
        0 <= cross_den(delta, *b) <= WORLD_MAX,
    ensures
        r == cross_le(origin, delta, *a, *b),
{
    proof {
        reveal(cross_le);
        reveal(cross_num);
        reveal(cross_den);
    }
    let na: i128 = iabs_diff(
        a.isect_pos.get_axis(a.face.axis),
        origin.get_axis(a.face.axis),
    );
    let nb: i128 = iabs_diff(
        b.isect_pos.get_axis(b.face.axis),
        origin.get_axis(b.face.axis),
    );
    let da: i128 = iabs128(delta.get_axis(a.face.axis));
    let db: i128 = iabs128(delta.get_axis(b.face.axis));
    proof {
        assert(na * db == cross_num(origin, *a) * cross_den(delta, *b) && nb * da == cross_num(
            origin,
            *b,
        ) * cross_den(delta, *a) && na * db < 0x4000_0000_0000_0000_0000_0000_0000_0000
            && nb * da < 0x4000_0000_0000_0000_0000_0000_0000_0000 && na * db
            > -0x4000_0000_0000_0000_0000_0000_0000_0000 && nb * da
            > -0x4000_0000_0000_0000_0000_0000_0000_0000) by (nonlinear_arith)
            requires
                na == cross_num(origin, *a),
                nb == cross_num(origin, *b),
                da == cross_den(delta, *a),
                db == cross_den(delta, *b),
                0 <= na <= 2 * (WORLD_MAX as int),
                0 <= nb <= 2 * (WORLD_MAX as int),
                0 <= da <= WORLD_MAX as int,
                0 <= db <= WORLD_MAX as int,
        ;
    }
    na * db <= nb * da
}

/// `|a - b|` widened to 128 bits.
fn iabs_diff(a: i64, b: i64) -> (r: i128)
    ensures
        r == crate::kinematic::iabs(a as int - b as int),
        0 <= r < 0x2_0000_0000_0000_0000,
{
    let d: i128 = (a as i128) - (b as i128);
    if d < 0 {
        -d
    } else {
        d
    }
}

/// `|a|` widened to 128 bits.
fn iabs128(a: i64) -> (r: i128)
    ensures
        r == crate::kinematic::iabs(a as int),
        0 <= r < 0x2_0000_0000_0000_0000,
{
    let d: i128 = a as i128;
    if d < 0 {
        -d
    } else {
        d
    }
}

/// On one axis the denominators agree, so the numerator order is the ray
/// order.
proof fn lemma_same_axis_le(origin: Vec2I, delta: Vec2I, a: RayIntersection, b: RayIntersection)
    requires
        a.face.axis == b.face.axis,
        cross_num(origin, a) <= cross_num(origin, b),
    ensures
        cross_le(origin, delta, a, b),
{
    reveal(cross_le);
    reveal(cross_num);
    reveal(cross_den);
    assert(cross_num(origin, a) * cross_den(delta, b) <= cross_num(origin, b) * cross_den(
        delta,
        a,
    )) by (nonlinear_arith)
        requires
            cross_num(origin, a) <= cross_num(origin, b),
            cross_den(delta, a) == cross_den(delta, b),
            0 <= cross_den(delta, a),
            0 <= cross_num(origin, a),
    ;
}

/// The `k`-th boundary toward the destination stays between origin and
/// destination and in world range.
proof fn lemma_boundary_bounds(o: int, dl: int, s: int, t0: int, t1: int, k: int)
    requires
        s > 0,
        dl != 0,
        t0 == o / s,
        t1 == (o + dl) / s,
        -WORLD_MAX <= o <= WORLD_MAX,
        -WORLD_MAX <= o + dl <= WORLD_MAX,
        1 <= k <= crate::kinematic::iabs(t1 - t0),
    ensures
        dl > 0 ==> o < (t0 + k) * s <= o + dl && in_world((t0 + k) * s),
        dl < 0 ==> o + dl < (t0 - k + 1) * s <= o && in_world((t0 - k + 1) * s),
{
    vstd::arithmetic::div_mod::lemma_fundamental_div_mod(o, s);
    vstd::arithmetic::div_mod::lemma_mod_bound(o, s);
    vstd::arithmetic::div_mod::lemma_fundamental_div_mod(o + dl, s);
    vstd::arithmetic::div_mod::lemma_mod_bound(o + dl, s);
    if dl > 0 {
        vstd::arithmetic::div_mod::lemma_div_is_ordered(o, o + dl, s);
        assert(o < (t0 + k) * s <= o + dl && in_world((t0 + k) * s)) by (nonlinear_arith)
            requires
                s > 0,
                o == s * t0 + o % s,
                0 <= o % s < s,
                o + dl == s * t1 + (o + dl) % s,
                0 <= (o + dl) % s < s,
                1 <= k <= t1 - t0,
                dl > 0,
                -WORLD_MAX <= o <= WORLD_MAX,
                -WORLD_MAX <= o + dl <= WORLD_MAX,
        ;
    } else {
        vstd::arithmetic::div_mod::lemma_div_is_ordered(o + dl, o, s);
        assert(o + dl < (t0 - k + 1) * s <= o && in_world((t0 - k + 1) * s))
            by (nonlinear_arith)
            requires
                s > 0,
                o == s * t0 + o % s,
                0 <= o % s < s,
                o + dl == s * t1 + (o + dl) % s,
                0 <= (o + dl) % s < s,
                1 <= k <= t0 - t1,
                dl < 0,
                -WORLD_MAX <= o <= WORLD_MAX,
                -WORLD_MAX <= o + dl <= WORLD_MAX,
        ;
    }
}

/// Character-exact string equality.
pub fn str_eq(a: &str, b: &str) -> (r: bool)
    ensures
        r == (a@ == b@),
{
    let la = a.unicode_len();
    let lb = b.unicode_len();
    if la != lb {
        proof {
            assert(a@ != b@);
        }
        return false;
    }
    let mut i: usize = 0;
    while i < la
        invariant
            la == a@.len(),
            la == b@.len(),
            0 <= i <= la,
            forall|j: int| 0 <= j < i ==> a@[j] == b@[j],
        decreases la - i,
    {
        if a.get_char(i) != b.get_char(i) {
            return false;
        }
        i = i + 1;
    }
    proof {
        assert(a@ =~= b@);
    }
    true
}

/// A registered material: its 16-bit id and its descriptor entity.
#[derive(Debug, Copy, Clone, PartialEq, Eq, Structural)]
pub struct MaterialInfo {
    pub id: u16,
    pub descriptor: Entity,
}

/// Latest id registered under `name`, scanning the newest entries first.
pub open spec fn spec_name_lookup(s: Seq<(String, u16)>, name: Seq<char>) -> Option<u16>
    decreases s.len(),
{
    if s.len() == 0 {
        None
    } else if s.last().0@ == name {
        Some(s.last().1)
    } else {
        spec_name_lookup(s.drop_last(), name)
    }
}

/// Name-to-id registry of material descriptor entities. Ids are assigned
/// sequentially and fit in 16 bits: at most 65536 materials can ever be
/// registered in one registry.
#[derive(Debug)]
pub struct MaterialRegistry {
    /// Descriptor entity of each id, in registration order.
    pub by_id: Vec<Entity>,
    /// Registration log of names; the newest entry for a name wins.
    pub by_name: Vec<(String, u16)>,
}

impl MaterialRegistry {
    pub open spec fn wf(self) -> bool {
        &&& self.by_id@.len() <= 0x10000
        &&& forall|i: int|
            0 <= i < self.by_name@.len() ==> (#[trigger] self.by_name@[i].1)
                < self.by_id@.len()
    }

    /// How many materials have been registered.
    pub open spec fn spec_len(self) -> int {
        self.by_id@.len() as int
    }

    pub fn new() -> (r: MaterialRegistry)
        ensures
            r.wf(),
            r.spec_len() == 0,
    {
        MaterialRegistry { by_id: Vec::new(), by_name: Vec::new() }
    }

    /// Register `descriptor` under `name`, assigning the next sequential
    /// id. The sixty-five-thousandth-odd registration is the registry's
    /// capacity; beyond it registration is excluded by contract.
    pub fn register(&mut self, name: String, descriptor: Entity) -> (r: MaterialInfo)
        requires
            old(self).wf(),
            old(self).spec_len() < 0x10000,
        ensures
            final(self).wf(),
            r.id == old(self).spec_len(),
            r.descriptor == descriptor,
            final(self).by_id@ == old(self).by_id@.push(descriptor),
            final(self).spec_len() == old(self).spec_len() + 1,
            spec_name_lookup(final(self).by_name@, name@) == Some(r.id),
            forall|n: Seq<char>|
                n != name@ ==> spec_name_lookup(final(self).by_name@, n) == spec_name_lookup(
                    old(self).by_name@,
                    n,
                ),
    {
        let id: u16 = self.by_id.len() as u16;
        self.by_id.push(descriptor);
        self.by_name.push((name, id));
        proof {
            assert(self.by_name@.drop_last() =~= old(self).by_name@);
            assert forall|i: int| 0 <= i < self.by_name@.len() implies (
            #[trigger] self.by_name@[i].1) < self.by_id@.len() by {
                if i < old(self).by_name@.len() {
                    assert(self.by_name@[i] == old(self).by_name@[i]);
                }
            }
        }
        MaterialInfo { id, descriptor }
    }

    /// The material with id `id`; ids come from registration, so a stale
    /// or foreign id is excluded by contract.
    pub fn get(&self, id: u16) -> (r: MaterialInfo)
        requires
            self.wf(),
            id < self.spec_len(),
        ensures
            r.id == id,
            r.descriptor == self.by_id@[id as int],
    {
        MaterialInfo { id, descriptor: self.by_id[id as usize] }
    }

    /// The material registered under `name`, if any.
    pub fn try_get_by_name(&self, name: &str) -> (r: Option<MaterialInfo>)
        requires
            self.wf(),
        ensures
            match r {
                Some(info) => spec_name_lookup(self.by_name@, name@) == Some(info.id)
                    && info.id < self.spec_len() && info.descriptor == self.by_id@[info.id as int],
                None => spec_name_lookup(self.by_name@, name@) is None,
            },
    {
        let mut i: usize = self.by_name.len();
        proof {
            assert(self.by_name@.take(i as int) =~= self.by_name@);
        }
        while i > 0
            invariant
                self.wf(),
                0 <= i <= self.by_name@.len(),
                spec_name_lookup(self.by_name@, name@) == spec_name_lookup(
                    self.by_name@.take(i as int),
                    name@,
                ),
            decreases i,
        {
            proof {
                assert(self.by_name@.take(i as int).last() == self.by_name@[i - 1]);
                assert(self.by_name@.take(i as int).drop_last() =~= self.by_name@.take(
                    i - 1,
                ));
            }
            i = i - 1;
            let entry_id: u16 = self.by_name[i].1;
            if str_eq(self.by_name[i].0.as_str(), name) {
                return Some(self.get(entry_id));
            }
        }
        None
    }

    /// The material registered under `name`; an unknown name is a scene
    /// configuration error, excluded by contract.
    pub fn get_by_name(&self, name: &str) -> (r: MaterialInfo)
        requires
            self.wf(),
            spec_name_lookup(self.by_name@, name@) is Some,
        ensures
            Some(r.id) == spec_name_lookup(self.by_name@, name@),
            r.id < self.spec_len(),
            r.descriptor == self.by_id@[r.id as int],
    {
        self.try_get_by_name(name).unwrap()
    }
}

/// One named grid plane of the tile map.
#[derive(Debug)]
pub struct TileLayer {
    pub data: TileLayerData,
    pub config: TileLayerConfig,
}

/// An ordered list of named layers and the material registry they share.
#[derive(Debug)]
pub struct TileMap {
    pub layers: Vec<TileLayer>,
    /// Registration log of layer names; the newest entry for a name wins.
    pub layer_names: Vec<(String, u16)>,
    pub materials: MaterialRegistry,
}

impl TileMap {
    pub open spec fn wf(self) -> bool {
        &&& forall|i: int| 0 <= i < self.layers@.len() ==> (#[trigger] self.layers@[i]).data.wf()
        &&& forall|i: int|
            0 <= i < self.layers@.len() ==> (#[trigger] self.layers@[i]).config.wf()
        &&& forall|i: int|
            0 <= i < self.layer_names@.len() ==> (#[trigger] self.layer_names@[i].1)
                < self.layers@.len()
        &&& self.layers@.len() <= 0x10000
        &&& self.materials.wf()
        &&& forall|l: int, q: Vec2I|
            0 <= l < self.layers@.len() ==> (#[trigger] self.layers@[l].data.spec_tile(q)) == 0
                || self.layers@[l].data.spec_tile(q) < self.materials.by_id@.len()
    }

    /// Every view the map exposes agrees between the two states: layer
    /// count and geometry, every tile, the name log and the registry. The
    /// states may still differ in which chunks sit decoded in caches.
    pub open spec fn views_eq(self, other: TileMap) -> bool {
        &&& self.layers@.len() == other.layers@.len()
        &&& forall|l: int|
            0 <= l < self.layers@.len() ==> (#[trigger] self.layers@[l].config)
                == other.layers@[l].config
        &&& forall|l: int, q: Vec2I|
            0 <= l < self.layers@.len() ==> (#[trigger] self.layers@[l].data.spec_tile(q))
                == other.layers@[l].data.spec_tile(q)
        &&& self.layer_names == other.layer_names
        &&& self.materials.by_id@ == other.materials.by_id@
        &&& self.materials.by_name@ == other.materials.by_name@
    }

    /// Material id at `pos` on layer `layer`, as the layer's abstract
    /// content has it.
    pub open spec fn spec_tile(self, layer: LayerIndex, pos: Vec2I) -> u16 {
        self.layers@[layer.0 as int].data.spec_tile(pos)
    }

    pub open spec fn spec_layer_count(self) -> int {
        self.layers@.len() as int
    }

    pub fn new() -> (r: TileMap)
        ensures
            r.wf(),
            r.spec_layer_count() == 0,
            r.materials.spec_len() == 0,
    {
        TileMap { layers: Vec::new(), layer_names: Vec::new(), materials: MaterialRegistry::new() }
    }

    /// Append an all-air layer under `name` with the given geometry,
    /// returning its index.
    pub fn push_layer(&mut self, name: String, config: TileLayerConfig) -> (r: LayerIndex)
        requires
            old(self).wf(),
            config.wf(),
            old(self).spec_layer_count() < 0x10000,
        ensures
            final(self).wf(),
            r.0 == old(self).spec_layer_count(),
            final(self).spec_layer_count() == old(self).spec_layer_count() + 1,
            final(self).layers@[r.0 as int].config == config,
            forall|q: Vec2I| final(self).spec_tile(r, q) == 0,
            forall|l: LayerIndex, q: Vec2I|
                l.0 < old(self).spec_layer_count() ==> final(self).spec_tile(l, q) == old(self).spec_tile(l, q),
            final(self).materials == old(self).materials,
            spec_name_lookup(final(self).layer_names@, name@) == Some(r.0 as u16),
    {
        let index = self.layers.len();
        self.layers.push(TileLayer { data: TileLayerData::new(), config });
        self.layer_names.push((name, index as u16));
        proof {
            assert forall|i: int| 0 <= i < self.layers@.len() implies (
            #[trigger] self.layers@[i]).data.wf() && self.layers@[i].config.wf() by {
                if i < old(self).layers@.len() {
                    assert(self.layers@[i] == old(self).layers@[i]);
                }
            }
            assert forall|i: int| 0 <= i < self.layer_names@.len() implies (
            #[trigger] self.layer_names@[i].1) < self.layers@.len() by {
                if i < old(self).layer_names@.len() {
                    assert(self.layer_names@[i] == old(self).layer_names@[i]);
                }
            }
            assert forall|l: int, q: Vec2I|
                0 <= l < self.layers@.len() implies (#[trigger] self.layers@[l].data.spec_tile(
                q,
            )) == 0 || self.layers@[l].data.spec_tile(q) < self.materials.by_id@.len() by {
                if l < old(self).layers@.len() {
                    assert(self.layers@[l] == old(self).layers@[l]);
                }
            }
        }
        LayerIndex(index)
    }

    /// The layer registered under `name`, if any.
    pub fn try_layer(&self, name: &str) -> (r: Option<LayerIndex>)
        requires
            self.wf(),
        ensures
            match r {
                Some(l) => spec_name_lookup(self.layer_names@, name@) == Some(l.0 as u16)
                    && l.0 < self.spec_layer_count(),
                None => spec_name_lookup(self.layer_names@, name@) is None,
            },
    {
        let mut i: usize = self.layer_names.len();
        proof {
            assert(self.layer_names@.take(i as int) =~= self.layer_names@);
        }
        while i > 0
            invariant
                self.wf(),
                0 <= i <= self.layer_names@.len(),
                spec_name_lookup(self.layer_names@, name@) == spec_name_lookup(
                    self.layer_names@.take(i as int),
                    name@,
                ),
            decreases i,
        {
            proof {
                assert(self.layer_names@.take(i as int).last() == self.layer_names@[i - 1]);
                assert(self.layer_names@.take(i as int).drop_last() =~= self.layer_names@.take(
                    i - 1,
                ));
            }
            i = i - 1;
            let entry: u16 = self.layer_names[i].1;
            if str_eq(self.layer_names[i].0.as_str(), name) {
                return Some(LayerIndex(entry as usize));
            }
        }
        None
    }

    /// The layer registered under `name`; an unknown name is a scene
    /// configuration error, excluded by contract.
    pub fn layer(&self, name: &str) -> (r: LayerIndex)
        requires
            self.wf(),
            spec_name_lookup(self.layer_names@, name@) is Some,
        ensures
            spec_name_lookup(self.layer_names@, name@) == Some(r.0 as u16),
            r.0 < self.spec_layer_count(),
    {
        self.try_layer(name).unwrap()
    }

    /// How many layers the map has; layer indices below this are valid.
    pub fn layer_count(&self) -> (r: usize)
        ensures
            r == self.spec_layer_count(),
    {
        self.layers.len()
    }

    pub fn layer_config(&self, layer: LayerIndex) -> (r: TileLayerConfig)
        requires
            self.wf(),
            layer.0 < self.spec_layer_count(),
        ensures
            r == self.layers@[layer.0 as int].config,
            r.wf(),
    {
        self.layers[layer.0].config
    }

    /// The raw material id at `pos` on `layer`, without touching the
    /// registry; air is plain `0`.
    pub fn get_id(&mut self, layer: LayerIndex, pos: Vec2I) -> (r: u16)
        requires
            old(self).wf(),
            layer.0 < old(self).spec_layer_count(),
            pos.wf(),
        ensures
            final(self).wf(),
            r == old(self).spec_tile(layer, pos),
            final(self).views_eq(*old(self)),
            final(self).materials == old(self).materials,
    {
        let data = &mut self.layers[layer.0].data;
        let id = data.get(pos);
        proof {
            assert forall|l: int, q: Vec2I|
                0 <= l < self.layers@.len() implies (#[trigger] self.layers@[l].data.spec_tile(
                q,
            )) == old(self).layers@[l].data.spec_tile(q) by {
                if l != layer.0 {
                    assert(self.layers@[l] == old(self).layers@[l]);
                }
            }
            assert forall|i: int| 0 <= i < self.layers@.len() implies (
            #[trigger] self.layers@[i]).data.wf() && self.layers@[i].config == old(
                self,
            ).layers@[i].config by {
                if i != layer.0 {
                    assert(self.layers@[i] == old(self).layers@[i]);
                }
            }
        }
        id
    }

    /// The registered material at `pos` on `layer`.
    pub fn get(&mut self, layer: LayerIndex, pos: Vec2I) -> (r: MaterialInfo)
        requires
            old(self).wf(),
            layer.0 < old(self).spec_layer_count(),
            pos.wf(),
            old(self).spec_tile(layer, pos) < old(self).materials.spec_len(),
        ensures
            final(self).wf(),
            r.id == old(self).spec_tile(layer, pos),
            r.descriptor == old(self).materials.by_id@[r.id as int],
            final(self).materials == old(self).materials,
            final(self).layer_names == old(self).layer_names,
            final(self).spec_layer_count() == old(self).spec_layer_count(),
            forall|l: LayerIndex, q: Vec2I|
                l.0 < old(self).spec_layer_count() ==> final(self).spec_tile(l, q) == old(self).spec_tile(l, q),
            forall|l: int| #![trigger final(self).layers@[l].config]
                0 <= l < old(self).spec_layer_count() ==> final(self).layers@[l].config == old(self).layers@[l].config,
    {
        let data = &mut self.layers[layer.0].data;
        let id = data.get(pos);
        proof {
            assert forall|l: LayerIndex, q: Vec2I|
                l.0 < old(self).spec_layer_count() implies self.spec_tile(l, q) == old(self).spec_tile(l, q) by {
                if l.0 != layer.0 {
                    assert(self.layers@[l.0 as int] == old(self).layers@[l.0 as int]);
                }
            }
            assert forall|i: int| 0 <= i < self.layers@.len() implies (
            #[trigger] self.layers@[i]).data.wf() && self.layers@[i].config.wf() by {
                if i != layer.0 {
                    assert(self.layers@[i] == old(self).layers@[i]);
                }
            }
            assert forall|l: int, q: Vec2I|
                0 <= l < self.layers@.len() implies (#[trigger] self.layers@[l].data.spec_tile(
                q,
            )) == 0 || self.layers@[l].data.spec_tile(q) < self.materials.by_id@.len() by {
                assert(self.layers@[l].data.spec_tile(q) == old(self).layers@[
                l].data.spec_tile(q));
            }
        }
        self.materials.get(id)
    }

    /// Write material `info` at `pos` on `layer`: that tile alone changes,
    /// on that layer alone.
    pub fn set(&mut self, layer: LayerIndex, pos: Vec2I, info: MaterialInfo)
        requires
            old(self).wf(),
            layer.0 < old(self).spec_layer_count(),
            pos.wf(),
            info.id == 0 || info.id < old(self).materials.spec_len(),
        ensures
            final(self).wf(),
            final(self).spec_tile(layer, pos) == info.id,
            forall|l: LayerIndex, q: Vec2I|
                l.0 < old(self).spec_layer_count() && (l != layer || q != pos) ==> final(self).spec_tile(l, q) == old(self).spec_tile(l, q),
            final(self).materials == old(self).materials,
            final(self).layer_names == old(self).layer_names,
            final(self).spec_layer_count() == old(self).spec_layer_count(),
            forall|l: int| #![trigger final(self).layers@[l].config]
                0 <= l < old(self).spec_layer_count() ==> final(self).layers@[l].config == old(self).layers@[l].config,
    {
        let data = &mut self.layers[layer.0].data;
        data.set(pos, info.id);
        proof {
            assert forall|l: LayerIndex, q: Vec2I|
                l.0 < old(self).spec_layer_count() && (l != layer || q != pos) implies self.spec_tile(
                l,
                q,
            ) == old(self).spec_tile(l, q) by {
                if l.0 != layer.0 {
                    assert(self.layers@[l.0 as int] == old(self).layers@[l.0 as int]);
                }
            }
            assert forall|i: int| 0 <= i < self.layers@.len() implies (
            #[trigger] self.layers@[i]).data.wf() && self.layers@[i].config.wf() by {
                if i != layer.0 {
                    assert(self.layers@[i] == old(self).layers@[i]);
                }
            }
            assert forall|l: int, q: Vec2I|
                0 <= l < self.layers@.len() implies (#[trigger] self.layers@[l].data.spec_tile(
                q,
            )) == 0 || self.layers@[l].data.spec_tile(q) < self.materials.by_id@.len() by {
                if l != layer.0 {
                    assert(self.layers@[l] == old(self).layers@[l]);
                } else {
                    if q != pos {
                        assert(self.spec_tile(layer, q) == old(self).spec_tile(layer, q));
                    }
                }
            }
        }
    }

    /// Tile coordinate of world point `pos` on `layer`.
    pub fn actor_to_tile(&self, layer: LayerIndex, pos: Vec2I) -> (r: Vec2I)
        requires
            self.wf(),
            layer.0 < self.spec_layer_count(),
            pos.wf(),
        ensures
            r.x == pos.x as int / self.layers@[layer.0 as int].config.size as int,
            r.y == pos.y as int / self.layers@[layer.0 as int].config.size as int,
            r.wf(),
    {
        let config = self.layer_config(layer);
        config.actor_to_tile(pos)
    }

    /// Tile-coordinate rectangle holding the world box's corners on
    /// `layer`.
    pub fn actor_aabb_to_tile(&self, layer: LayerIndex, aabb: Aabb) -> (r: AabbI)
        requires
            self.wf(),
            layer.0 < self.spec_layer_count(),
            aabb.wf(),
        ensures
            r.min.x == aabb.min.x as int / self.layers@[layer.0 as int].config.size as int,
            r.min.y == aabb.min.y as int / self.layers@[layer.0 as int].config.size as int,
            r.max.x == aabb.max.x as int / self.layers@[layer.0 as int].config.size as int,
            r.max.y == aabb.max.y as int / self.layers@[layer.0 as int].config.size as int,
            r.wf(),
    {
        let config = self.layer_config(layer);
        config.actor_aabb_to_tile(aabb)
    }

    /// World-space square of tile `pos` on `layer`.
    pub fn tile_to_actor_rect(&self, layer: LayerIndex, pos: Vec2I) -> (r: Aabb)
        requires
            self.wf(),
            layer.0 < self.spec_layer_count(),
            in_world(pos.x * self.layers@[layer.0 as int].config.size),
            in_world(pos.y * self.layers@[layer.0 as int].config.size),
        ensures
            r.min.x == pos.x * self.layers@[layer.0 as int].config.size,
            r.min.y == pos.y * self.layers@[layer.0 as int].config.size,
            r.max.x == r.min.x + self.layers@[layer.0 as int].config.size,
            r.max.y == r.min.y + self.layers@[layer.0 as int].config.size,
    {
        let config = self.layer_config(layer);
        config.tile_to_actor_rect(pos)
    }
}

/// Memoized per-material-id lookup of the descriptor entity, a growing
/// array indexed by id that spares the registry scan in hot per-tile
/// paths.
#[derive(Debug)]
pub struct MaterialCache {
    pub cached: Vec<Option<Entity>>,
}

impl MaterialCache {
    /// Every filled slot agrees with the registry it caches for.
    pub open spec fn wf(self, reg: MaterialRegistry) -> bool {
        forall|i: int|
            0 <= i < self.cached@.len() && self.cached@[i] is Some ==> i < reg.by_id@.len()
                && (#[trigger] self.cached@[i]) == Some(reg.by_id@[i])
    }

    pub fn new() -> (r: MaterialCache)
        ensures
            forall|reg: MaterialRegistry| r.wf(reg),
    {
        MaterialCache { cached: Vec::new() }
    }

    /// Descriptor entity of `info`, memoizing it by id.
    pub fn lookup(&mut self, reg: &MaterialRegistry, info: MaterialInfo) -> (r: Entity)
        requires
            old(self).wf(*reg),
            reg.wf(),
            info.id < reg.spec_len(),
            info.descriptor == reg.by_id@[info.id as int],
        ensures
            final(self).wf(*reg),
            r == reg.by_id@[info.id as int],
    {
        let slot = crate::lang::ensure_index(&mut self.cached, info.id as usize);
        match slot {
            Some(e) => {
                let r = *e;
                proof {
                    assert(*final(slot) == Some(r));
                }
                r
            },
            None => {
                *slot = Some(info.descriptor);
                info.descriptor
            },
        }
    }

    /// Descriptor entity of the material with `id`, memoizing it.
    pub fn lookup_id(&mut self, reg: &MaterialRegistry, id: u16) -> (r: Entity)
        requires
            old(self).wf(*reg),
            reg.wf(),
            id < reg.spec_len(),
        ensures
            final(self).wf(*reg),
            r == reg.by_id@[id as int],
    {
        let info = reg.get(id);
        self.lookup(reg, info)
    }
}

} // verus!
