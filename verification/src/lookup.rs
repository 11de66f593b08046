//! The caching spatial lookup layer over one decoded world shard.

use vstd::prelude::*;
use vstd::set::axiom_set_insert_len;
use vstd::set_lib::lemma_int_range;
use vstd::set_lib::lemma_len_subset;
use vstd::set_lib::set_int_range;

use crate::MiningError;
use crate::coords::Coord;
use crate::world::ChunkData;
use crate::world::ChunkDecoder;
use crate::world::in_grid;
use crate::world::void_ident;

verus! {

/// The caching spatial lookup layer: wraps one decoded world shard and
/// memoizes per-chunk decoding, so that repeated, spatially clustered block
/// queries are cheap.
///
/// The shard is a 32 x 32 grid of chunks; the cache stores each decoded
/// chunk at index `cx * 32 + cz`. There is no eviction: a shard is bounded,
/// so caching every touched chunk for the lookup's lifetime is cheap and
/// guarantees that a chunk is decoded at most once per instance.
pub struct CachingLookup<D: ChunkDecoder> {
    source: D,
    cache: Vec<Option<ChunkData>>,
    decode_count: u64,
}

impl<D: ChunkDecoder> CachingLookup<D> {
    /// The grid cells whose chunk has already been decoded and cached.
    pub closed spec fn cached_ids(self) -> Set<int> {
        Set::new(|i: int| 0 <= i < 1024 && self.cache@[i] is Some)
    }

    /// Whether the chunk covering world column (x, z) is already cached.
    /// Chunk coordinates come from floor division by the chunk width, so
    /// negative world coordinates resolve to negative chunk coordinates
    /// (outside this shard's grid), never to chunk 0.
    pub open spec fn has_chunk(self, x: int, z: int) -> bool {
        self.cached_ids().contains((x / 16) * 32 + z / 16)
    }

    /// The block identity the underlying shard holds at every position.
    pub closed spec fn spec_model(self) -> spec_fn(int, int, int) -> Seq<char> {
        self.source.model()
    }

    /// How many chunk decodes have been performed so far.
    pub closed spec fn spec_decode_count(self) -> int {
        self.decode_count as int
    }

    pub closed spec fn wf(self) -> bool {
        &&& self.source.inv()
        &&& self.cache@.len() == 1024
        &&& self.cached_ids().finite()
        &&& self.decode_count as int == self.cached_ids().len()
        &&& forall|i: int|
            0 <= i < 1024 ==> ((#[trigger] self.cache@[i]) matches Some(c) ==> c.wf()
                && forall|x: int, y: int, z: int|
                0 <= x < 16 && 0 <= z < 16 ==> #[trigger] c.spec_ident(x, y, z) == (
                self.source.model())(16 * (i / 32) + x, y, 16 * (i % 32) + z))
    }

    /// A fresh lookup over `source`, with an empty cache.
    pub fn new(source: D) -> (l: CachingLookup<D>)
        requires
            source.inv(),
        ensures
            l.wf(),
            l.spec_model() == source.model(),
            l.spec_decode_count() == 0,
            l.cached_ids() == Set::<int>::empty(),
    {
        let mut cache: Vec<Option<ChunkData>> = Vec::new();
        let mut i: usize = 0;
        while i < 1024
            invariant
                i <= 1024,
                cache@.len() == i,
                forall|j: int| 0 <= j < i ==> (#[trigger] cache@[j]) is None,
            decreases 1024 - i,
        {
            cache.push(None);
            i = i + 1;
        }
        let l = CachingLookup { source, cache, decode_count: 0 };
        proof {
            assert(l.cached_ids() =~= Set::<int>::empty());
        }
        l
    }

    /// Observe the decode counter (for instrumentation and tests).
    pub fn decode_count(&self) -> (n: u64)
        ensures
            n as int == self.spec_decode_count(),
    {
        self.decode_count
    }

    /// Law: a chunk is decoded at most once per lookup instance — the decode
    /// counter always equals the number of distinct chunks cached so far.
    pub proof fn lemma_one_decode_per_chunk(self)
        requires
            self.wf(),
        ensures
            self.spec_decode_count() == self.cached_ids().len(),
    {
    }

    /// The block identity at world position (x, y, z), which must address a
    /// chunk inside the shard's grid. On a cache miss the chunk is decoded
    /// and cached; on a hit the lookup is left exactly as it was, so a
    /// repeated query at the same coordinate never decodes twice.
    pub fn get_block_in_grid(&mut self, x: i64, y: i64, z: i64) -> (r: String)
        requires
            old(self).wf(),
            in_grid(x as int, z as int),
        ensures
            final(self).wf(),
            final(self).spec_model() == old(self).spec_model(),
            r@ == (old(self).spec_model())(x as int, y as int, z as int),
            final(self).has_chunk(x as int, z as int),
            old(self).has_chunk(x as int, z as int) ==> *final(self) == *old(self),
            !old(self).has_chunk(x as int, z as int) ==> final(self).spec_decode_count() == old(
                self,
            ).spec_decode_count() + 1 && final(self).cached_ids() == old(
                self,
            ).cached_ids().insert((x as int / 16) * 32 + z as int / 16),
    {
        let cx: usize = (x as usize) / 16;
        let cz: usize = (z as usize) / 16;
        let idx: usize = cx * 32 + cz;
        assert(idx as int == (x as int / 16) * 32 + z as int / 16);
        if self.cache[idx].is_none() {
            let c = self.source.decode_chunk(cx, cz);
            proof {
                lemma_int_range(0, 1024);
                lemma_len_subset(old(self).cached_ids(), set_int_range(0, 1024));
            }
            self.cache.set(idx, Some(c));
            self.decode_count = self.decode_count + 1;
            proof {
                assert(self.cached_ids() =~= old(self).cached_ids().insert(idx as int));
                axiom_set_insert_len(old(self).cached_ids(), idx as int);
                assert(idx as int / 32 == cx as int && idx as int % 32 == cz as int);
            }
        }
        let r = match &self.cache[idx] {
            Some(c) => c.ident((x as usize) % 16, (z as usize) % 16, y),
            None => {
                proof {
                    assert(false);
                }
                void_ident()
            },
        };
        proof {
            assert(16 * (idx as int / 32) + (x as int) % 16 == x as int);
            assert(16 * (idx as int % 32) + (z as int) % 16 == z as int);
        }
        r
    }

    /// The public query: the identity at `coord`, or `OutOfRange` if
    /// the coordinate's chunk lies outside the owned shard's 32 x 32 grid.
    /// An out-of-range query leaves the lookup untouched; an in-range one
    /// behaves as [`Self::get_block_in_grid`].
    pub fn get_block(&mut self, coord: Coord) -> (r: Result<String, MiningError>)
        requires
            old(self).wf(),
        ensures
            final(self).wf(),
            final(self).spec_model() == old(self).spec_model(),
            !in_grid(coord.0 as int, coord.2 as int) ==> r == Result::<
                String,
                MiningError,
            >::Err(MiningError::OutOfRange) && *final(self) == *old(self),
            in_grid(coord.0 as int, coord.2 as int) ==> (r matches Ok(s) && s@ == (old(
                self,
            ).spec_model())(coord.0 as int, coord.1 as int, coord.2 as int)),
            in_grid(coord.0 as int, coord.2 as int) && old(self).has_chunk(
                coord.0 as int,
                coord.2 as int,
            ) ==> *final(self) == *old(self),
            in_grid(coord.0 as int, coord.2 as int) ==> final(self).has_chunk(
                coord.0 as int,
                coord.2 as int,
            ),
            in_grid(coord.0 as int, coord.2 as int) && !old(self).has_chunk(
                coord.0 as int,
                coord.2 as int,
            ) ==> final(self).spec_decode_count() == old(self).spec_decode_count() + 1
                && final(self).cached_ids() == old(self).cached_ids().insert(
                (coord.0 as int / 16) * 32 + coord.2 as int / 16,
            ),
    {
        let (x, y, z) = coord;
        if x < 0 || x >= 512 || z < 0 || z >= 512 {
            Err(MiningError::OutOfRange)
        } else {
            Ok(self.get_block_in_grid(x, y, z))
        }
    }
}

} // verus!
