//! The geometry primitives every technique composes: a straight shaft,
//! its terminal cap, and a short side poke.

use vstd::prelude::*;

use crate::aggregate::AggregateResult;
use crate::aggregate::SampledBlock;
use crate::aggregate::lemma_samples_match_concat;
use crate::aggregate::samples_match;
use crate::coords::Coord;
use crate::coords::Direction;
use crate::coords::shift_coords;
use crate::coords::spec_shift;
use crate::coords::view3;
use crate::lookup::CachingLookup;
use crate::world::ChunkDecoder;
use crate::world::in_grid;

verus! {

/// Whether a position's column lies inside the owned shard's chunk grid.
pub open spec fn pos_in_grid(p: (int, int, int)) -> bool {
    in_grid(p.0, p.2)
}

/// Every position of the sequence lies inside the shard's chunk grid.
pub open spec fn all_in_grid(ps: Seq<(int, int, int)>) -> bool {
    forall|i: int| 0 <= i < ps.len() ==> pos_in_grid(#[trigger] ps[i])
}

pub proof fn lemma_all_in_grid_split(p1: Seq<(int, int, int)>, p2: Seq<(int, int, int)>)
    requires
        all_in_grid(p1 + p2),
    ensures
        all_in_grid(p1),
        all_in_grid(p2),
{
    assert forall|i: int| 0 <= i < p1.len() implies pos_in_grid(#[trigger] p1[i]) by {
        assert((p1 + p2)[i] == p1[i]);
    }
    assert forall|i: int| 0 <= i < p2.len() implies pos_in_grid(#[trigger] p2[i]) by {
        assert((p1 + p2)[p1.len() + i] == p2[i]);
    }
}

/// The positions a shaft call samples: a 1-wide, 2-tall corridor of `len`
/// steps along `d` from `c` — at each step the corridor block and the block
/// above it. A non-positive `len` samples nothing.
pub open spec fn shaft_positions(d: Direction, c: (int, int, int), len: int) -> Seq<
    (int, int, int),
> {
    Seq::new(
        (if len <= 0 {
            0int
        } else {
            2 * len
        }) as nat,
        |i: int|
            {
                let p = spec_shift(d, c, i / 2);
                (p.0, p.1 + i % 2, p.2)
            },
    )
}

/// Counting rule of a shaft: each of its `len` steps removes the 2 corridor
/// blocks and exposes the 4 side-wall faces of that slice.
pub open spec fn shaft_excavated(len: int) -> int {
    if len <= 0 {
        0
    } else {
        2 * len
    }
}

pub open spec fn shaft_exposed(len: int) -> int {
    if len <= 0 {
        0
    } else {
        4 * len
    }
}

/// The positions a terminal-cap call samples: the two face blocks
/// immediately past the corridor block at `c`, at corridor height and one
/// above.
pub open spec fn cap_positions(d: Direction, c: (int, int, int)) -> Seq<(int, int, int)> {
    let p = spec_shift(d, c, 1);
    seq![(p.0, p.1, p.2), (p.0, p.1 + 1, p.2)]
}

/// The positions a poke call samples: a 1-block-tall side tunnel of `reach`
/// blocks, starting one step along `d` from its anchor `c`.
pub open spec fn poke_positions(d: Direction, c: (int, int, int), reach: int) -> Seq<
    (int, int, int),
> {
    Seq::new(
        (if reach <= 0 {
            0int
        } else {
            reach
        }) as nat,
        |i: int| spec_shift(d, c, i + 1),
    )
}

/// Counting rule of a poke: each reached block is removed and exposes its
/// three new faces.
pub open spec fn poke_excavated(reach: int) -> int {
    if reach <= 0 {
        0
    } else {
        reach
    }
}

pub open spec fn poke_exposed(reach: int) -> int {
    if reach <= 0 {
        0
    } else {
        3 * reach
    }
}

/// The positions a branch samples: its shaft body, then its terminal cap
/// just past the body's last block.
pub open spec fn branch_positions(d: Direction, c: (int, int, int), len: int) -> Seq<
    (int, int, int),
> {
    shaft_positions(d, c, len) + cap_positions(d, spec_shift(d, c, len - 1))
}

pub open spec fn branch_excavated(len: int) -> int {
    shaft_excavated(len)
}

pub open spec fn branch_exposed(len: int) -> int {
    shaft_exposed(len) + 2
}

/// `spec_shift` composes additively along one direction.
pub proof fn lemma_shift_add(d: Direction, c: (int, int, int), a: int, b: int)
    ensures
        spec_shift(d, spec_shift(d, c, a), b) == spec_shift(d, c, a + b),
{
    let dd = d.spec_delta();
    assert(dd.0 * a + dd.0 * b == dd.0 * (a + b)) by (nonlinear_arith);
    assert(dd.1 * a + dd.1 * b == dd.1 * (a + b)) by (nonlinear_arith);
}

/// Each direction steps by exactly one unit on exactly one axis.
proof fn lemma_delta_shape(d: Direction)
    ensures
        (d.spec_delta().0 == 0 && (d.spec_delta().1 == 1 || d.spec_delta().1 == -1)) || (
        d.spec_delta().1 == 0 && (d.spec_delta().0 == 1 || d.spec_delta().0 == -1)),
{
}

/// Distinct step counts along one direction land on distinct columns.
pub proof fn lemma_shift_injective(d: Direction, c: (int, int, int), m1: int, m2: int)
    requires
        m1 != m2,
    ensures
        spec_shift(d, c, m1).0 != spec_shift(d, c, m2).0 || spec_shift(d, c, m1).2 != spec_shift(
            d,
            c,
            m2,
        ).2,
{
    let dd = d.spec_delta();
    lemma_delta_shape(d);
    assert(!(dd.0 * m1 == dd.0 * m2 && dd.1 * m1 == dd.1 * m2)) by (nonlinear_arith)
        requires
            m1 != m2,
            (dd.0 == 0 && (dd.1 == 1 || dd.1 == -1)) || (dd.1 == 0 && (dd.0 == 1 || dd.0 == -1)),
    ;
}

/// A column between two in-grid columns on one direction's line is itself in
/// the grid.
pub proof fn lemma_segment_in_grid(d: Direction, c: (int, int, int), lo: int, m: int, hi: int)
    requires
        lo <= m <= hi,
        pos_in_grid(spec_shift(d, c, lo)),
        pos_in_grid(spec_shift(d, c, hi)),
    ensures
        pos_in_grid(spec_shift(d, c, m)),
{
    let dd = d.spec_delta();
    assert(dd.0 * lo <= dd.0 * m <= dd.0 * hi || dd.0 * hi <= dd.0 * m <= dd.0 * lo)
        by (nonlinear_arith)
        requires
            lo <= m <= hi,
    ;
    assert(dd.1 * lo <= dd.1 * m <= dd.1 * hi || dd.1 * hi <= dd.1 * m <= dd.1 * lo)
        by (nonlinear_arith)
        requires
            lo <= m <= hi,
    ;
}

/// Law: a single branch call never samples the same coordinate in its body
/// and in its cap — the cap sits one step past the body's last block.
pub proof fn lemma_branch_body_cap_disjoint(d: Direction, c: (int, int, int), len: int)
    requires
        len >= 1,
    ensures
        forall|i: int, j: int|
            0 <= i < shaft_positions(d, c, len).len() && 0 <= j < cap_positions(
                d,
                spec_shift(d, c, len - 1),
            ).len() ==> #[trigger] shaft_positions(d, c, len)[i] != #[trigger] cap_positions(
                d,
                spec_shift(d, c, len - 1),
            )[j],
{
    let body = shaft_positions(d, c, len);
    let cap = cap_positions(d, spec_shift(d, c, len - 1));
    assert forall|i: int, j: int|
        0 <= i < body.len() && 0 <= j < cap.len() implies body[i] != cap[j] by {
        let k = i / 2;
        assert(0 <= k < len);
        let p = spec_shift(d, c, k);
        assert(body[i] == (p.0, p.1 + i % 2, p.2));
        lemma_shift_add(d, c, len - 1, 1);
        let e = spec_shift(d, c, len);
        assert(cap[j] == if j == 0 {
            (e.0, e.1, e.2)
        } else {
            (e.0, e.1 + 1, e.2)
        });
        lemma_shift_injective(d, c, k, len);
    }
}

/// A whole shaft lies in the grid when its two endpoint columns do: every
/// sampled column sits between them on the one moving axis.
pub proof fn lemma_shaft_in_grid(d: Direction, c: (int, int, int), len: int)
    requires
        len >= 1,
        pos_in_grid(c),
        pos_in_grid(spec_shift(d, c, len - 1)),
    ensures
        all_in_grid(shaft_positions(d, c, len)),
{
    let ps = shaft_positions(d, c, len);
    assert forall|i: int| 0 <= i < ps.len() implies pos_in_grid(#[trigger] ps[i]) by {
        let k = i / 2;
        assert(0 <= k <= len - 1);
        let p = spec_shift(d, c, k);
        assert(ps[i] == (p.0, p.1 + i % 2, p.2));
        assert(spec_shift(d, c, 0) == c);
        lemma_segment_in_grid(d, c, 0, k, len - 1);
    }
}

pub proof fn lemma_poke_in_grid(d: Direction, c: (int, int, int), reach: int)
    requires
        reach >= 1,
        pos_in_grid(spec_shift(d, c, 1)),
        pos_in_grid(spec_shift(d, c, reach)),
    ensures
        all_in_grid(poke_positions(d, c, reach)),
{
    let ps = poke_positions(d, c, reach);
    assert forall|i: int| 0 <= i < ps.len() implies pos_in_grid(#[trigger] ps[i]) by {
        assert(ps[i] == spec_shift(d, c, i + 1));
        lemma_segment_in_grid(d, c, 1, i + 1, reach);
    }
}

pub proof fn lemma_branch_in_grid(d: Direction, c: (int, int, int), len: int)
    requires
        len >= 1,
        pos_in_grid(c),
        pos_in_grid(spec_shift(d, c, len)),
    ensures
        all_in_grid(branch_positions(d, c, len)),
{
    assert(spec_shift(d, c, 0) == c);
    lemma_segment_in_grid(d, c, 0, len - 1, len);
    lemma_shaft_in_grid(d, c, len);
    let body = shaft_positions(d, c, len);
    let q = spec_shift(d, c, len - 1);
    let cap = cap_positions(d, q);
    lemma_shift_add(d, c, len - 1, 1);
    let e = spec_shift(d, c, len);
    assert(cap[0] == (e.0, e.1, e.2));
    assert(cap[1] == (e.0, e.1 + 1, e.2));
    assert(all_in_grid(cap));
    let ps = branch_positions(d, c, len);
    assert forall|i: int| 0 <= i < ps.len() implies pos_in_grid(#[trigger] ps[i]) by {
        if i < body.len() {
            assert(ps[i] == body[i]);
        } else {
            assert(ps[i] == cap[i - body.len()]);
        }
    }
}

/// Sample a 1-wide, 2-tall corridor of `length` blocks along `direction`
/// from `coords`. A non-positive `length` samples nothing.
pub fn shaft<D: ChunkDecoder>(
    lookup: &mut CachingLookup<D>,
    direction: Direction,
    coords: Coord,
    length: i64,
) -> (r: AggregateResult)
    requires
        old(lookup).wf(),
        all_in_grid(shaft_positions(direction, view3(coords), length as int)),
        coords.1 + 1 <= i64::MAX,
    ensures
        final(lookup).wf(),
        final(lookup).spec_model() == old(lookup).spec_model(),
        samples_match(
            r.samples@,
            shaft_positions(direction, view3(coords), length as int),
            old(lookup).spec_model(),
        ),
        r.excavated == shaft_excavated(length as int),
        r.exposed == shaft_exposed(length as int),
{
    let ghost ps = shaft_positions(direction, view3(coords), length as int);
    let mut r = AggregateResult::empty();
    if length <= 0 {
        assert(ps.len() == 0);
        return r;
    }
    proof {
        assert(pos_in_grid(ps[0]));
        assert(pos_in_grid(ps[2 * (length as int - 1)]));
    }
    let mut i: i64 = 0;
    while i < length
        invariant
            0 <= i <= length,
            1 <= length <= 512,
            lookup.wf(),
            lookup.spec_model() == old(lookup).spec_model(),
            coords.1 + 1 <= i64::MAX,
            ps == shaft_positions(direction, view3(coords), length as int),
            all_in_grid(ps),
            samples_match(r.samples@, ps.subrange(0, 2 * i), old(lookup).spec_model()),
            r.excavated == 2 * i,
            r.exposed == 4 * i,
        decreases length - i,
    {
        proof {
            assert(pos_in_grid(ps[2 * i]));
            assert(ps[2 * i] == (view3(coords).0 + direction.spec_delta().0 * i, view3(
                coords,
            ).1, view3(coords).2 + direction.spec_delta().1 * i));
        }
        let col = shift_coords(direction, coords, i);
        let s1 = lookup.get_block_in_grid(col.0, col.1, col.2);
        r.samples.push(SampledBlock { position: col, identity: s1 });
        let s2 = lookup.get_block_in_grid(col.0, col.1 + 1, col.2);
        r.samples.push(SampledBlock { position: (col.0, col.1 + 1, col.2), identity: s2 });
        r.excavated = r.excavated + 2;
        r.exposed = r.exposed + 4;
        i = i + 1;
        proof {
            assert(ps[2 * i - 2] == (col.0 as int, col.1 as int, col.2 as int));
            assert(ps[2 * i - 1] == (col.0 as int, col.1 as int + 1, col.2 as int));
            assert(ps.subrange(0, 2 * i) =~= ps.subrange(0, 2 * i - 2) + seq![
                ps[2 * i - 2],
                ps[2 * i - 1],
            ]);
        }
    }
    proof {
        assert(ps.subrange(0, 2 * (length as int)) =~= ps);
    }
    r
}

/// Sample the terminal face cap immediately past a shaft's last block at
/// `coords`.
pub fn shaft_end<D: ChunkDecoder>(
    lookup: &mut CachingLookup<D>,
    direction: Direction,
    coords: Coord,
) -> (r: AggregateResult)
    requires
        old(lookup).wf(),
        all_in_grid(cap_positions(direction, view3(coords))),
        coords.1 + 1 <= i64::MAX,
        i64::MIN <= view3(coords).0 + direction.spec_delta().0 <= i64::MAX,
        i64::MIN <= view3(coords).2 + direction.spec_delta().1 <= i64::MAX,
    ensures
        final(lookup).wf(),
        final(lookup).spec_model() == old(lookup).spec_model(),
        samples_match(
            r.samples@,
            cap_positions(direction, view3(coords)),
            old(lookup).spec_model(),
        ),
        r.excavated == 0,
        r.exposed == 2,
{
    let ghost ps = cap_positions(direction, view3(coords));
    proof {
        assert(pos_in_grid(ps[0]));
    }
    let p = shift_coords(direction, coords, 1);
    let mut r = AggregateResult::empty();
    let s1 = lookup.get_block_in_grid(p.0, p.1, p.2);
    r.samples.push(SampledBlock { position: p, identity: s1 });
    let s2 = lookup.get_block_in_grid(p.0, p.1 + 1, p.2);
    r.samples.push(SampledBlock { position: (p.0, p.1 + 1, p.2), identity: s2 });
    r.exposed = 2;
    r
}

/// Sample a short 1-block-tall side-exploration tunnel of `reach` blocks,
/// starting one step along `direction` from the anchor `coords`.
pub fn poke<D: ChunkDecoder>(
    lookup: &mut CachingLookup<D>,
    direction: Direction,
    coords: Coord,
    reach: i64,
) -> (r: AggregateResult)
    requires
        old(lookup).wf(),
        all_in_grid(poke_positions(direction, view3(coords), reach as int)),
    ensures
        final(lookup).wf(),
        final(lookup).spec_model() == old(lookup).spec_model(),
        samples_match(
            r.samples@,
            poke_positions(direction, view3(coords), reach as int),
            old(lookup).spec_model(),
        ),
        r.excavated == poke_excavated(reach as int),
        r.exposed == poke_exposed(reach as int),
{
    let ghost ps = poke_positions(direction, view3(coords), reach as int);
    let mut r = AggregateResult::empty();
    if reach <= 0 {
        assert(ps.len() == 0);
        return r;
    }
    proof {
        assert(pos_in_grid(ps[0]));
        assert(pos_in_grid(ps[reach as int - 1]));
    }
    let mut i: i64 = 0;
    while i < reach
        invariant
            0 <= i <= reach,
            1 <= reach <= 512,
            lookup.wf(),
            lookup.spec_model() == old(lookup).spec_model(),
            ps == poke_positions(direction, view3(coords), reach as int),
            all_in_grid(ps),
            samples_match(r.samples@, ps.subrange(0, i as int), old(lookup).spec_model()),
            r.excavated == i,
            r.exposed == 3 * i,
        decreases reach - i,
    {
        proof {
            assert(pos_in_grid(ps[i as int]));
            assert(ps[i as int] == spec_shift(direction, view3(coords), i + 1));
        }
        let p = shift_coords(direction, coords, i + 1);
        let s1 = lookup.get_block_in_grid(p.0, p.1, p.2);
        r.samples.push(SampledBlock { position: p, identity: s1 });
        r.excavated = r.excavated + 1;
        r.exposed = r.exposed + 3;
        i = i + 1;
        proof {
            assert(ps.subrange(0, i as int) =~= ps.subrange(0, i - 1) + seq![ps[i - 1]]);
        }
    }
    proof {
        assert(ps.subrange(0, reach as int) =~= ps);
    }
    r
}

/// Sample a whole branch: its shaft body of `branch_length` blocks along
/// `direction` from `coords`, then its terminal cap one step past the
/// body's last block. Body and cap sample disjoint coordinates
/// ([`lemma_branch_body_cap_disjoint`]).
pub fn branch<D: ChunkDecoder>(
    lookup: &mut CachingLookup<D>,
    branch_length: i64,
    direction: Direction,
    coords: Coord,
) -> (r: AggregateResult)
    requires
        old(lookup).wf(),
        branch_length >= 1,
        all_in_grid(branch_positions(direction, view3(coords), branch_length as int)),
        coords.1 + 1 <= i64::MAX,
    ensures
        final(lookup).wf(),
        final(lookup).spec_model() == old(lookup).spec_model(),
        samples_match(
            r.samples@,
            branch_positions(direction, view3(coords), branch_length as int),
            old(lookup).spec_model(),
        ),
        r.excavated == branch_excavated(branch_length as int),
        r.exposed == branch_exposed(branch_length as int),
{
    let ghost body = shaft_positions(direction, view3(coords), branch_length as int);
    let ghost cap = cap_positions(
        direction,
        spec_shift(direction, view3(coords), branch_length as int - 1),
    );
    proof {
        lemma_all_in_grid_split(body, cap);
        assert(pos_in_grid(body[2 * (branch_length as int - 1)]));
    }
    let mut r = shaft(lookup, direction, coords, branch_length);
    let end = shift_coords(direction, coords, branch_length - 1);
    proof {
        assert(pos_in_grid(cap[0]));
    }
    let r2 = shaft_end(lookup, direction, end);
    let ghost sm1 = r.samples@;
    let ghost sm2 = r2.samples@;
    r.absorb(r2);
    proof {
        lemma_samples_match_concat(sm1, sm2, body, cap, old(lookup).spec_model());
    }
    r
}


/// A sampled point described by its place on one direction's line: `off`
/// steps out along `dir` from `base`, raised `dy` blocks.
pub open spec fn line_point(dir: Direction, base: (int, int, int), off: int, dy: int) -> (
    int,
    int,
    int,
) {
    (base.0 + dir.spec_delta().0 * off, base.1 + dy, base.2 + dir.spec_delta().1 * off)
}

/// Stepping out from an already shifted base adds the offsets.
pub proof fn lemma_line_point_shift(dir: Direction, c: (int, int, int), a: int, off: int, dy: int)
    ensures
        line_point(dir, spec_shift(dir, c, a), off, dy) == line_point(dir, c, a + off, dy),
{
    let dd = dir.spec_delta();
    assert(dd.0 * a + dd.0 * off == dd.0 * (a + off)) by (nonlinear_arith);
    assert(dd.1 * a + dd.1 * off == dd.1 * (a + off)) by (nonlinear_arith);
}

/// Every sample of a branch lies on the branch's own line: at some offset
/// 0 through `l` (the cap sits at `l`) and at branch height or one above.
pub proof fn lemma_branch_pos_char(dp: Direction, c1: (int, int, int), l: int, i: int)
    requires
        l >= 1,
        0 <= i < branch_positions(dp, c1, l).len(),
    ensures
        exists|m: int, dy: int|
            0 <= m <= l && 0 <= dy <= 1 && branch_positions(dp, c1, l)[i] == #[trigger] line_point(
                dp,
                c1,
                m,
                dy,
            ),
{
    let body = shaft_positions(dp, c1, l);
    let cap = cap_positions(dp, spec_shift(dp, c1, l - 1));
    if i < body.len() {
        let m = i / 2;
        let dy = i % 2;
        assert(branch_positions(dp, c1, l)[i] == body[i]);
        assert(body[i] == line_point(dp, c1, m, dy));
    } else {
        let j = i - body.len();
        lemma_shift_add(dp, c1, l - 1, 1);
        assert(branch_positions(dp, c1, l)[i] == cap[j]);
        let e = spec_shift(dp, c1, l);
        if j == 0 {
            assert(cap[0] == (e.0, e.1, e.2));
            assert(cap[0] == line_point(dp, c1, l, 0));
        } else {
            assert(cap[1] == (e.0, e.1 + 1, e.2));
            assert(cap[1] == line_point(dp, c1, l, 1));
        }
    }
}

} // verus!
