//! Decoded world data: chunks of block identities, and the collaborator
//! trait that decodes them shard by shard.

use vstd::prelude::*;

verus! {

/// The identity reported for any position outside a chunk's stored vertical
/// range. Excavation layouts routinely probe one block above or below their
/// shafts, so such probes answer "void" instead of failing.
pub open spec fn spec_void_ident() -> Seq<char> {
    "void"@
}

pub fn void_ident() -> (r: String)
    ensures
        r@ == spec_void_ident(),
{
    "void".to_owned()
}

/// Whether the chunk holding world column (x, z) lies inside the owned
/// shard's 32 x 32 chunk grid of 16 x 16 columns.
pub open spec fn in_grid(x: int, z: int) -> bool {
    0 <= x < 512 && 0 <= z < 512
}

/// One decoded chunk: block identities for a 16 x 16 column footprint over a
/// contiguous vertical range of `height` blocks starting at `y_min`.
///
/// Identities are stored in a flat vector indexed by
/// `(y - y_min) * 256 + z * 16 + x`.
pub struct ChunkData {
    y_min: i32,
    height: u16,
    idents: Vec<String>,
}

impl ChunkData {
    pub closed spec fn wf(self) -> bool {
        self.idents@.len() == 256 * (self.height as int)
    }

    pub closed spec fn spec_y_min(self) -> int {
        self.y_min as int
    }

    pub closed spec fn spec_height(self) -> int {
        self.height as int
    }

    /// The identity stored at local column (x, z) and absolute height y;
    /// void for any position outside the stored box.
    pub closed spec fn spec_ident(self, x: int, y: int, z: int) -> Seq<char> {
        if 0 <= x < 16 && 0 <= z < 16 && self.spec_y_min() <= y < self.spec_y_min()
            + self.spec_height() {
            self.idents@[(y - self.spec_y_min()) * 256 + z * 16 + x]@
        } else {
            spec_void_ident()
        }
    }

    /// A chunk that stores no blocks at all: every probe answers void.
    pub fn new_empty(y_min: i32) -> (c: ChunkData)
        ensures
            c.wf(),
            c.spec_y_min() == y_min as int,
            c.spec_height() == 0,
            forall|x: int, y: int, z: int| c.spec_ident(x, y, z) == spec_void_ident(),
    {
        ChunkData { y_min, height: 0, idents: Vec::new() }
    }

    /// A chunk whose every stored block carries the same identity.
    pub fn filled(y_min: i32, height: u16, ident: &String) -> (c: ChunkData)
        ensures
            c.wf(),
            c.spec_y_min() == y_min as int,
            c.spec_height() == height as int,
            forall|x: int, y: int, z: int|
                c.spec_ident(x, y, z) == if 0 <= x < 16 && 0 <= z < 16 && y_min <= y < y_min
                    + height {
                    ident@
                } else {
                    spec_void_ident()
                },
    {
        let n: usize = 256 * (height as usize);
        let mut idents: Vec<String> = Vec::new();
        let mut i: usize = 0;
        while i < n
            invariant
                i <= n,
                n == 256 * (height as int),
                idents@.len() == i,
                forall|j: int| 0 <= j < i ==> idents@[j] == *ident,
            decreases n - i,
        {
            idents.push(ident.clone());
            i = i + 1;
        }
        ChunkData { y_min, height, idents }
    }

    /// Overwrite the identity stored at local column (x, z) and height y;
    /// used to build worlds with distinctive blocks in chosen places.
    pub fn set_ident(&mut self, x: usize, z: usize, y: i64, ident: String)
        requires
            old(self).wf(),
            x < 16,
            z < 16,
            old(self).spec_y_min() <= y as int,
            (y as int) < old(self).spec_y_min() + old(self).spec_height(),
        ensures
            final(self).wf(),
            final(self).spec_y_min() == old(self).spec_y_min(),
            final(self).spec_height() == old(self).spec_height(),
            forall|p: int, q: int, r: int|
                final(self).spec_ident(p, q, r) == if p == x as int && q == y as int && r == z as int {
                    ident@
                } else {
                    old(self).spec_ident(p, q, r)
                },
    {
        let ymin: i64 = self.y_min as i64;
        let off: usize = ((y - ymin) as usize) * 256 + z * 16 + x;
        self.idents.set(off, ident);
        assert forall|p: int, q: int, r: int|
            self.spec_ident(p, q, r) == if p == x as int && q == y as int && r == z as int {
                self.idents@[off as int]@
            } else {
                old(self).spec_ident(p, q, r)
            } by {
            if 0 <= p < 16 && 0 <= r < 16 && self.spec_y_min() <= q < self.spec_y_min()
                + self.spec_height() {
                let i1: int = (q - self.spec_y_min()) * 256 + r * 16 + p;
                let i2: int = (y - self.spec_y_min()) * 256 + (z as int) * 16 + (x as int);
                if (p, q, r) != (x as int, y as int, z as int) {
                    assert(i1 != i2);
                }
            }
        }
    }

    /// The identity at local column (x, z) and absolute height y.
    pub fn ident(&self, x: usize, z: usize, y: i64) -> (r: String)
        requires
            self.wf(),
            x < 16,
            z < 16,
        ensures
            r@ == self.spec_ident(x as int, y as int, z as int),
    {
        let ymin: i64 = self.y_min as i64;
        if y < ymin || y >= ymin + self.height as i64 {
            void_ident()
        } else {
            let off: usize = ((y - ymin) as usize) * 256 + z * 16 + x;
            self.idents[off].clone()
        }
    }

    /// An owned copy, identical block for block.
    pub fn duplicate(&self) -> (c: ChunkData)
        requires
            self.wf(),
        ensures
            c.wf(),
            c.spec_y_min() == self.spec_y_min(),
            c.spec_height() == self.spec_height(),
            forall|x: int, y: int, z: int|
                #[trigger] c.spec_ident(x, y, z) == self.spec_ident(x, y, z),
    {
        let n: usize = self.idents.len();
        let mut idents: Vec<String> = Vec::new();
        let mut i: usize = 0;
        while i < n
            invariant
                i <= n,
                n == self.idents@.len(),
                idents@.len() == i,
                forall|j: int| 0 <= j < i ==> idents@[j] == self.idents@[j],
            decreases n - i,
        {
            idents.push(self.idents[i].clone());
            i = i + 1;
        }
        assert(idents@ =~= self.idents@);
        ChunkData { y_min: self.y_min, height: self.height, idents }
    }
}

/// The world-decode collaborator: anything that can decode one chunk of the
/// owned shard's 32 x 32 chunk grid into a block-queryable [`ChunkData`].
///
/// `model` is the block identity the decoded world holds at every world
/// position; `decode_chunk` must agree with it, which makes decoding
/// deterministic: the caching layer may decode each chunk at most once and
/// still answer every repeated query identically.
pub trait ChunkDecoder: Sized {
    spec fn inv(&self) -> bool;

    spec fn model(&self) -> spec_fn(int, int, int) -> Seq<char>;

    fn decode_chunk(&self, cx: usize, cz: usize) -> (c: ChunkData)
        requires
            self.inv(),
            cx < 32,
            cz < 32,
        ensures
            c.wf(),
            forall|x: int, y: int, z: int|
                0 <= x < 16 && 0 <= z < 16 ==> #[trigger] c.spec_ident(x, y, z) == (self.model())(
                    16 * cx + x,
                    y,
                    16 * cz + z,
                ),
    ;
}

/// A shard held entirely in memory, chunk by chunk: the decoder used by the
/// tests and by callers that already have their world data decoded.
///
/// Chunks are stored row-major at index `cx * 32 + cz`.
pub struct InMemoryShard {
    chunks: Vec<ChunkData>,
}

impl InMemoryShard {
    closed spec fn wf(self) -> bool {
        self.chunks@.len() == 1024 && forall|i: int|
            0 <= i < 1024 ==> (#[trigger] self.chunks@[i]).wf()
    }

    /// A shard of 1024 empty chunks: every probe answers void.
    pub fn new() -> (s: InMemoryShard)
        ensures
            s.inv(),
            forall|x: int, y: int, z: int| #[trigger] (s.model())(x, y, z) == spec_void_ident(),
    {
        let mut chunks: Vec<ChunkData> = Vec::new();
        let mut i: usize = 0;
        while i < 1024
            invariant
                i <= 1024,
                chunks@.len() == i,
                forall|j: int|
                    0 <= j < i ==> (#[trigger] chunks@[j]).wf() && forall|x: int, y: int, z: int|
                        chunks@[j].spec_ident(x, y, z) == spec_void_ident(),
            decreases 1024 - i,
        {
            chunks.push(ChunkData::new_empty(0));
            i = i + 1;
        }
        InMemoryShard { chunks }
    }

    /// Replace the chunk stored for grid cell (cx, cz).
    pub fn set_chunk(&mut self, cx: usize, cz: usize, c: ChunkData)
        requires
            old(self).inv(),
            cx < 32,
            cz < 32,
            c.wf(),
        ensures
            final(self).inv(),
            forall|x: int, y: int, z: int|
                #[trigger] (final(self).model())(x, y, z) == if in_grid(x, z) && x / 16 == cx as int && z / 16
                    == cz as int {
                    c.spec_ident(x % 16, y, z % 16)
                } else {
                    (old(self).model())(x, y, z)
                },
    {
        let idx: usize = cx * 32 + cz;
        self.chunks.set(idx, c);
        assert forall|x: int, y: int, z: int|
            #[trigger] (self.model())(x, y, z) == if in_grid(x, z) && x / 16 == cx as int && z / 16
                == cz as int {
                c.spec_ident(x % 16, y, z % 16)
            } else {
                (old(self).model())(x, y, z)
            } by {
            if in_grid(x, z) {
                if x / 16 == cx as int && z / 16 == cz as int {
                } else {
                    assert((x / 16) * 32 + z / 16 != idx as int);
                }
            }
        }
    }
}

impl ChunkDecoder for InMemoryShard {
    closed spec fn inv(&self) -> bool {
        self.wf()
    }

    closed spec fn model(&self) -> spec_fn(int, int, int) -> Seq<char> {
        |x: int, y: int, z: int|
            if in_grid(x, z) {
                self.chunks@[(x / 16) * 32 + z / 16].spec_ident(x % 16, y, z % 16)
            } else {
                spec_void_ident()
            }
    }

    fn decode_chunk(&self, cx: usize, cz: usize) -> (c: ChunkData) {
        let c = self.chunks[cx * 32 + cz].duplicate();
        assert forall|x: int, y: int, z: int|
            0 <= x < 16 && 0 <= z < 16 implies #[trigger] c.spec_ident(x, y, z) == (self.model())(
            16 * cx + x,
            y,
            16 * cz + z,
        ) by {
            let wx: int = 16 * cx + x;
            let wz: int = 16 * cz + z;
            assert(wx / 16 == cx as int);
            assert(wz / 16 == cz as int);
            assert(wx % 16 == x);
            assert(wz % 16 == z);
        }
        c
    }
}

} // verus!
