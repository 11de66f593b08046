//! The technique registry and the branch-mining composer, with the laws
//! that its calls never sample a coordinate twice.

use vstd::prelude::*;

use crate::MiningError;
use crate::aggregate::AggregateResult;
use crate::aggregate::SampledBlock;
use crate::aggregate::lemma_samples_match_concat;
use crate::aggregate::samples_match;
use crate::coords::Coord;
use crate::coords::Direction;
use crate::coords::shift_coords;
use crate::coords::spec_shift;
use crate::coords::view3;
use crate::geometry::all_in_grid;
use crate::geometry::lemma_all_in_grid_split;
use crate::geometry::branch;
use crate::geometry::branch_excavated;
use crate::geometry::branch_exposed;
use crate::geometry::branch_positions;
use crate::geometry::lemma_branch_in_grid;
use crate::geometry::lemma_branch_pos_char;
use crate::geometry::lemma_line_point_shift;
use crate::geometry::lemma_shift_injective;
use crate::geometry::line_point;
use crate::geometry::cap_positions;
use crate::geometry::lemma_segment_in_grid;
use crate::geometry::lemma_shaft_in_grid;
use crate::geometry::lemma_shift_add;
use crate::geometry::pos_in_grid;
use crate::geometry::shaft;
use crate::geometry::shaft_excavated;
use crate::geometry::shaft_exposed;
use crate::geometry::shaft_positions;
use crate::lookup::CachingLookup;
use crate::world::ChunkData;
use crate::world::ChunkDecoder;

verus! {

/// If a column `m >= 0` steps from an in-grid column is still in the grid,
/// then `m` can be at most 511: the grid is only 512 columns wide.
pub proof fn lemma_offset_bound(d: Direction, c: (int, int, int), m: int)
    requires
        m >= 0,
        pos_in_grid(c),
        pos_in_grid(spec_shift(d, c, m)),
    ensures
        m <= 511,
{
    let dd = d.spec_delta();
    assert((dd.0 == 0 && (dd.1 == 1 || dd.1 == -1)) || (dd.1 == 0 && (dd.0 == 1 || dd.0 == -1)));
    assert(m <= 511) by (nonlinear_arith)
        requires
            m >= 0,
            (dd.0 == 0 && (dd.1 == 1 || dd.1 == -1)) || (dd.1 == 0 && (dd.0 == 1 || dd.0 == -1)),
            0 <= c.0 < 512,
            0 <= c.2 < 512,
            0 <= c.0 + dd.0 * m < 512,
            0 <= c.2 + dd.1 * m < 512,
    ;
}

/// The 12 special vertical samples of one corridor expansion: the slice
/// coincident with this segment's branch junction (offset 0), the slice one
/// block after it (offset 1), and the slice one block before the next branch
/// junction (offset `s - 1`), each across the four vertical positions y - 1
/// through y + 2 — the 2-tall corridor plus one buffer block above and below.
pub open spec fn corridor_slice_positions(d: Direction, c: (int, int, int), s: int) -> Seq<
    (int, int, int),
> {
    Seq::new(
        12,
        |i: int|
            {
                let off = if i % 3 == 0 {
                    0int
                } else if i % 3 == 1 {
                    1int
                } else {
                    s - 1
                };
                let p = spec_shift(d, c, off);
                (p.0, p.1 + (i / 3 - 1), p.2)
            },
    )
}

/// Everything one corridor expansion samples: the 12 special slices, then a
/// generic shaft over the remaining span (offsets 2 through `s - 2`), which
/// is empty for spacing 2 or 3.
pub open spec fn corridor_positions(d: Direction, c: (int, int, int), s: int) -> Seq<
    (int, int, int),
> {
    corridor_slice_positions(d, c, s) + shaft_positions(d, spec_shift(d, c, 2), s - 3)
}

/// Counting rule of a corridor expansion: each of the 12 special samples
/// contributes exactly +2 excavated / +4 exposed — fixed, independent of
/// spacing — plus whatever the remaining-span shaft contributes.
pub open spec fn corridor_excavated(s: int) -> int {
    24 + shaft_excavated(s - 3)
}

pub open spec fn corridor_exposed(s: int) -> int {
    48 + shaft_exposed(s - 3)
}

/// Law: the special slices of a corridor expansion contribute exactly
/// +24 excavated / +48 exposed whatever the spacing; for spacing 2 the
/// remaining-span argument is negative and for spacing 3 it is zero, so in
/// both boundary cases the whole call contributes exactly that fixed amount.
pub proof fn lemma_corridor_fixed_contribution(s: int)
    requires
        s >= 2,
    ensures
        corridor_excavated(s) - shaft_excavated(s - 3) == 24,
        corridor_exposed(s) - shaft_exposed(s - 3) == 48,
        s <= 3 ==> corridor_excavated(s) == 24 && corridor_exposed(s) == 48,
{
}

pub proof fn lemma_corridor_in_grid(d: Direction, c: (int, int, int), s: int)
    requires
        s >= 2,
        pos_in_grid(c),
        pos_in_grid(spec_shift(d, c, s - 1)),
    ensures
        all_in_grid(corridor_positions(d, c, s)),
{
    let sl = corridor_slice_positions(d, c, s);
    let sh = shaft_positions(d, spec_shift(d, c, 2), s - 3);
    assert(spec_shift(d, c, 0) == c);
    assert forall|i: int| 0 <= i < sl.len() implies pos_in_grid(#[trigger] sl[i]) by {
        let off = if i % 3 == 0 {
            0int
        } else if i % 3 == 1 {
            1int
        } else {
            s - 1
        };
        let p = spec_shift(d, c, off);
        assert(sl[i] == (p.0, p.1 + (i / 3 - 1), p.2));
        lemma_segment_in_grid(d, c, 0, off, s - 1);
    }
    if s >= 4 {
        lemma_segment_in_grid(d, c, 0, 2, s - 1);
        lemma_shift_add(d, c, 2, s - 4);
        lemma_segment_in_grid(d, c, 0, s - 2, s - 1);
        lemma_shaft_in_grid(d, spec_shift(d, c, 2), s - 3);
    } else {
        assert(sh.len() == 0);
    }
    let ps = corridor_positions(d, c, s);
    assert forall|i: int| 0 <= i < ps.len() implies pos_in_grid(#[trigger] ps[i]) by {
        if i < sl.len() {
            assert(ps[i] == sl[i]);
        } else {
            assert(ps[i] == sh[i - sl.len()]);
        }
    }
}

/// Sample the corridor segment between one branch junction and the next:
/// the three junction-adjacent slices a generic shaft sampler would miss
/// (counted at the fixed rate that avoids double-counting exposed faces at
/// the junction), then a generic shaft over the remaining span.
///
/// At spacing 2 — and only there — the "one block after" slice and the
/// "one block before the next junction" slice are the same column, so its
/// four vertical samples appear twice and the fixed +24/+48 counts them
/// twice: a boundary artifact of the fixed slice rule, internal to the one
/// call ([`lemma_corridor_call_distinct`]).
pub fn expand_corridor<D: ChunkDecoder>(
    lookup: &mut CachingLookup<D>,
    direction: Direction,
    branch_spacing: i64,
    coords: Coord,
) -> (r: AggregateResult)
    requires
        old(lookup).wf(),
        branch_spacing >= 2,
        all_in_grid(corridor_positions(direction, view3(coords), branch_spacing as int)),
        coords.1 - 1 >= i64::MIN,
        coords.1 + 2 <= i64::MAX,
    ensures
        final(lookup).wf(),
        final(lookup).spec_model() == old(lookup).spec_model(),
        samples_match(
            r.samples@,
            corridor_positions(direction, view3(coords), branch_spacing as int),
            old(lookup).spec_model(),
        ),
        r.excavated == corridor_excavated(branch_spacing as int),
        r.exposed == corridor_exposed(branch_spacing as int),
{
    let ghost s = branch_spacing as int;
    let ghost c = view3(coords);
    let ghost sl = corridor_slice_positions(direction, c, s);
    let ghost sh = shaft_positions(direction, spec_shift(direction, c, 2), s - 3);
    proof {
        lemma_all_in_grid_split(sl, sh);
        assert(pos_in_grid(sl[0]));
        assert(sl[0] == (c.0, c.1 - 1, c.2));
        assert(pos_in_grid(sl[2]));
        assert(sl[2] == (spec_shift(direction, c, s - 1).0, c.1 - 1, spec_shift(
            direction,
            c,
            s - 1,
        ).2));
        lemma_offset_bound(direction, c, s - 1);
    }
    let mut r = AggregateResult::empty();
    let mut yi: i64 = 0;
    while yi < 4
        invariant
            0 <= yi <= 4,
            2 <= branch_spacing <= 512,
            lookup.wf(),
            lookup.spec_model() == old(lookup).spec_model(),
            coords.1 - 1 >= i64::MIN,
            coords.1 + 2 <= i64::MAX,
            s == branch_spacing as int,
            c == view3(coords),
            sl == corridor_slice_positions(direction, c, s),
            all_in_grid(sl),
            samples_match(r.samples@, sl.subrange(0, 3 * yi), old(lookup).spec_model()),
            r.excavated == 6 * yi,
            r.exposed == 12 * yi,
        decreases 4 - yi,
    {
        let y: i64 = (coords.1 - 1) + yi;
        proof {
            assert(pos_in_grid(sl[3 * yi]));
            assert(sl[3 * yi] == (c.0, c.1 + (yi - 1), c.2));
            assert(pos_in_grid(sl[3 * yi + 1]));
            assert(sl[3 * yi + 1] == (spec_shift(direction, c, 1).0, c.1 + (yi - 1), spec_shift(
                direction,
                c,
                1,
            ).2));
            assert(pos_in_grid(sl[3 * yi + 2]));
            assert(sl[3 * yi + 2] == (spec_shift(direction, c, s - 1).0, c.1 + (yi - 1), spec_shift(
                direction,
                c,
                s - 1,
            ).2));
        }
        let s1 = lookup.get_block_in_grid(coords.0, y, coords.2);
        r.samples.push(SampledBlock { position: (coords.0, y, coords.2), identity: s1 });
        let p1 = shift_coords(direction, coords, 1);
        let s2 = lookup.get_block_in_grid(p1.0, y, p1.2);
        r.samples.push(SampledBlock { position: (p1.0, y, p1.2), identity: s2 });
        let p2 = shift_coords(direction, coords, branch_spacing - 1);
        let s3 = lookup.get_block_in_grid(p2.0, y, p2.2);
        r.samples.push(SampledBlock { position: (p2.0, y, p2.2), identity: s3 });
        r.excavated = r.excavated + 6;
        r.exposed = r.exposed + 12;
        yi = yi + 1;
        proof {
            assert(sl.subrange(0, 3 * yi) =~= sl.subrange(0, 3 * (yi - 1)) + seq![
                sl[3 * yi - 3],
                sl[3 * yi - 2],
                sl[3 * yi - 1],
            ]);
        }
    }
    proof {
        assert(sl.subrange(0, 12) =~= sl);
    }
    let start2 = shift_coords(direction, coords, 2);
    let r2 = shaft(lookup, direction, start2, branch_spacing - 3);
    let ghost sm1 = r.samples@;
    let ghost sm2 = r2.samples@;
    r.absorb(r2);
    proof {
        lemma_samples_match_concat(sm1, sm2, sl, sh, old(lookup).spec_model());
    }
    r
}


/// The two corners `a` steps out along `d` and `b` steps out along a
/// perpendicular direction stay in the grid whenever the three extreme
/// corners do: the two directions move different axes, and each axis
/// coordinate lies between in-grid values.
pub proof fn lemma_grid_box(
    d: Direction,
    dp: Direction,
    c: (int, int, int),
    amax: int,
    bmax: int,
    a: int,
    b: int,
)
    requires
        dp == d.spec_perpendicular_pair().0 || dp == d.spec_perpendicular_pair().1,
        0 <= a <= amax,
        0 <= b <= bmax,
        pos_in_grid(c),
        pos_in_grid(spec_shift(d, c, amax)),
        pos_in_grid(spec_shift(dp, c, bmax)),
    ensures
        pos_in_grid(spec_shift(dp, spec_shift(d, c, a), b)),
{
    let dd = d.spec_delta();
    let pp = dp.spec_delta();
    assert(dd.0 * pp.0 == 0 && dd.1 * pp.1 == 0 && (dd.0 == 0 || dd.0 == 1 || dd.0 == -1) && (dd.1
        == 0 || dd.1 == 1 || dd.1 == -1) && (pp.0 == 0 || pp.0 == 1 || pp.0 == -1) && (pp.1 == 0
        || pp.1 == 1 || pp.1 == -1));
    assert(0 <= c.0 + dd.0 * a + pp.0 * b < 512 && 0 <= c.2 + dd.1 * a + pp.1 * b < 512)
        by (nonlinear_arith)
        requires
            dd.0 * pp.0 == 0,
            dd.1 * pp.1 == 0,
            (dd.0 == 0 || dd.0 == 1 || dd.0 == -1),
            (dd.1 == 0 || dd.1 == 1 || dd.1 == -1),
            (pp.0 == 0 || pp.0 == 1 || pp.0 == -1),
            (pp.1 == 0 || pp.1 == 1 || pp.1 == -1),
            0 <= a <= amax,
            0 <= b <= bmax,
            0 <= c.0 < 512,
            0 <= c.2 < 512,
            0 <= c.0 + dd.0 * amax < 512,
            0 <= c.2 + dd.1 * amax < 512,
            0 <= c.0 + pp.0 * bmax < 512,
            0 <= c.2 + pp.1 * bmax < 512,
    ;
}

/// Everything one branch pair samples: a branch along each of the two
/// directions perpendicular to `d`, each laid one block off `base`.
pub open spec fn pair_positions(d: Direction, base: (int, int, int), l: int) -> Seq<
    (int, int, int),
> {
    let d1 = d.spec_perpendicular_pair().0;
    let d2 = d.spec_perpendicular_pair().1;
    branch_positions(d1, spec_shift(d1, base, 1), l) + branch_positions(
        d2,
        spec_shift(d2, base, 1),
        l,
    )
}

pub open spec fn pair_excavated(l: int) -> int {
    2 * branch_excavated(l)
}

pub open spec fn pair_exposed(l: int) -> int {
    2 * branch_exposed(l)
}

/// Samples of a branch-mining composition after the initial pair and `n`
/// loop rounds, each round being one corridor expansion at offset
/// `round * s` followed by one further pair at offset `(round + 1) * s`.
pub open spec fn bm_prefix_positions(
    d: Direction,
    c: (int, int, int),
    l: int,
    s: int,
    n: nat,
) -> Seq<(int, int, int)>
    decreases n,
{
    if n == 0 {
        pair_positions(d, spec_shift(d, c, 0), l)
    } else {
        bm_prefix_positions(d, c, l, s, (n - 1) as nat) + corridor_positions(
            d,
            spec_shift(d, c, (n - 1) * s),
            s,
        ) + pair_positions(d, spec_shift(d, c, n * s), l)
    }
}

/// Everything a whole branch-mining composition samples.
pub open spec fn branch_mining_positions(
    d: Direction,
    c: (int, int, int),
    p: int,
    l: int,
    s: int,
) -> Seq<(int, int, int)> {
    bm_prefix_positions(d, c, l, s, (p - 1) as nat)
}

pub open spec fn branch_mining_excavated(p: int, l: int, s: int) -> int {
    p * pair_excavated(l) + (p - 1) * corridor_excavated(s)
}

pub open spec fn branch_mining_exposed(p: int, l: int, s: int) -> int {
    p * pair_exposed(l) + (p - 1) * corridor_exposed(s)
}

/// The parameters a branch-mining composition accepts: at least one pair,
/// branches of at least one block, and spacing of at least two (anything
/// tighter would sample adjacent corridor segments twice).
pub open spec fn bm_params_ok(p: int, l: int, s: int) -> bool {
    p >= 1 && l >= 1 && s >= 2
}

/// Whether the whole layout fits the shard's chunk grid, stated over its
/// extreme corners: the corridor line spans base offsets 0 through
/// `(p - 1) * s`, and each pair spans perpendicular offsets up to `l + 1`
/// (branch body plus cap) on both sides.
pub open spec fn branch_mining_in_grid(
    d: Direction,
    c: (int, int, int),
    p: int,
    l: int,
    s: int,
) -> bool {
    let far = spec_shift(d, c, (p - 1) * s);
    let d1 = d.spec_perpendicular_pair().0;
    let d2 = d.spec_perpendicular_pair().1;
    &&& pos_in_grid(c)
    &&& pos_in_grid(far)
    &&& pos_in_grid(spec_shift(d1, c, l + 1))
    &&& pos_in_grid(spec_shift(d2, c, l + 1))
    &&& pos_in_grid(spec_shift(d1, far, l + 1))
    &&& pos_in_grid(spec_shift(d2, far, l + 1))
}

/// Law: with a single branch pair the composition is exactly the two
/// symmetric branch calls — no corridor expansion — so its counters are
/// twice one branch's counters.
pub proof fn lemma_branch_mining_single_pair(d: Direction, c: (int, int, int), l: int, s: int)
    ensures
        branch_mining_positions(d, c, 1, l, s) == pair_positions(d, c, l),
        branch_mining_excavated(1, l, s) == 2 * branch_excavated(l),
        branch_mining_exposed(1, l, s) == 2 * branch_exposed(l),
{
    assert(spec_shift(d, c, 0) == c);
}

/// Law: a composition with `p` pairs is the composition with `p - 1` pairs
/// followed by one more corridor expansion and one further pair; so it
/// issues 2 initial branch calls, `p - 1` corridor expansions and
/// `2 * (p - 1)` further branch calls in all.
pub proof fn lemma_branch_mining_step(d: Direction, c: (int, int, int), p: int, l: int, s: int)
    requires
        p >= 2,
    ensures
        branch_mining_positions(d, c, p, l, s) == branch_mining_positions(d, c, p - 1, l, s)
            + corridor_positions(d, spec_shift(d, c, (p - 2) * s), s) + pair_positions(
            d,
            spec_shift(d, c, (p - 1) * s),
            l,
        ),
{
}

/// Law: the composition's counters are the closed-form sum over its calls:
/// `p` pairs of two branches each, plus `p - 1` corridor expansions.
pub proof fn lemma_branch_mining_counter_sum(p: int, l: int, s: int)
    ensures
        branch_mining_excavated(p, l, s) == p * (2 * branch_excavated(l)) + (p - 1)
            * corridor_excavated(s),
        branch_mining_exposed(p, l, s) == p * (2 * branch_exposed(l)) + (p - 1)
            * corridor_exposed(s),
{
}

/// Column-shift that reports failure instead of overflowing; a coordinate
/// beyond the i64 range is certainly outside the 512-column grid.
pub(crate) fn checked_shift(direction: Direction, coords: Coord, amount: i64) -> (r: Option<Coord>)
    ensures
        (r matches Some(c) ==> view3(c) == spec_shift(direction, view3(coords), amount as int)),
        (r is None ==> !pos_in_grid(spec_shift(direction, view3(coords), amount as int))),
{
    match direction {
        Direction::North => match coords.2.checked_sub(amount) {
            Some(v) => Some((coords.0, coords.1, v)),
            None => None,
        },
        Direction::South => match coords.2.checked_add(amount) {
            Some(v) => Some((coords.0, coords.1, v)),
            None => None,
        },
        Direction::East => match coords.0.checked_add(amount) {
            Some(v) => Some((v, coords.1, coords.2)),
            None => None,
        },
        Direction::West => match coords.0.checked_sub(amount) {
            Some(v) => Some((v, coords.1, coords.2)),
            None => None,
        },
    }
}

pub(crate) fn col_in_grid(c: Coord) -> (b: bool)
    ensures
        b == pos_in_grid(view3(c)),
{
    0 <= c.0 && c.0 < 512 && 0 <= c.2 && c.2 < 512
}

/// Lay one branch pair: a branch along each perpendicular direction, each
/// starting one block off `base`.
fn lay_pair<D: ChunkDecoder>(
    lookup: &mut CachingLookup<D>,
    d: Direction,
    base: Coord,
    branch_length: i64,
) -> (r: AggregateResult)
    requires
        old(lookup).wf(),
        branch_length >= 1,
        base.1 + 1 <= i64::MAX,
        pos_in_grid(view3(base)),
        all_in_grid(pair_positions(d, view3(base), branch_length as int)),
    ensures
        final(lookup).wf(),
        final(lookup).spec_model() == old(lookup).spec_model(),
        samples_match(
            r.samples@,
            pair_positions(d, view3(base), branch_length as int),
            old(lookup).spec_model(),
        ),
        r.excavated == pair_excavated(branch_length as int),
        r.exposed == pair_exposed(branch_length as int),
{
    let ghost l = branch_length as int;
    let ghost d1s = d.spec_perpendicular_pair().0;
    let ghost d2s = d.spec_perpendicular_pair().1;
    let ghost ps1 = branch_positions(d1s, spec_shift(d1s, view3(base), 1), l);
    let ghost ps2 = branch_positions(d2s, spec_shift(d2s, view3(base), 1), l);
    proof {
        lemma_all_in_grid_split(ps1, ps2);
        assert(pos_in_grid(ps1[0]));
        assert(ps1[0] == spec_shift(d1s, view3(base), 1));
        assert(pos_in_grid(ps2[0]));
        assert(ps2[0] == spec_shift(d2s, view3(base), 1));
    }
    let (d1, d2) = d.perpendicular_pair();
    let b1 = shift_coords(d1, base, 1);
    let ghost c1 = view3(b1);
    proof {
        lemma_branch_len_bound(d1s, c1, l);
    }
    let mut r = branch(lookup, branch_length, d1, b1);
    let b2 = shift_coords(d2, base, 1);
    let ghost c2 = view3(b2);
    proof {
        lemma_branch_len_bound(d2s, c2, l);
    }
    let r2 = branch(lookup, branch_length, d2, b2);
    let ghost sm1 = r.samples@;
    let ghost sm2 = r2.samples@;
    r.absorb(r2);
    proof {
        lemma_samples_match_concat(sm1, sm2, ps1, ps2, old(lookup).spec_model());
    }
    r
}

/// From a branch's positions being in the grid, bound its length: the cap
/// column sits `l` steps past the body's first column.
pub proof fn lemma_branch_len_bound(d: Direction, c: (int, int, int), l: int)
    requires
        l >= 1,
        all_in_grid(branch_positions(d, c, l)),
    ensures
        l <= 511,
{
    let body = shaft_positions(d, c, l);
    let cap = cap_positions(d, spec_shift(d, c, l - 1));
    lemma_all_in_grid_split(body, cap);
    assert(pos_in_grid(body[0]));
    assert(body[0] == (c.0, c.1, c.2));
    assert(pos_in_grid(cap[0]));
    lemma_shift_add(d, c, l - 1, 1);
    assert(cap[0] == (spec_shift(d, c, l).0, spec_shift(d, c, l).1, spec_shift(d, c, l).2));
    lemma_offset_bound(d, c, l);
}


/// All positions of the branch pair at corridor offset `k * s` lie in the
/// grid whenever the layout's extreme corners do.
pub proof fn lemma_pair_in_grid(d: Direction, c: (int, int, int), p: int, l: int, s: int, k: int)
    requires
        bm_params_ok(p, l, s),
        branch_mining_in_grid(d, c, p, l, s),
        0 <= k <= p - 1,
    ensures
        all_in_grid(pair_positions(d, spec_shift(d, c, k * s), l)),
        pos_in_grid(spec_shift(d, c, k * s)),
{
    let d1 = d.spec_perpendicular_pair().0;
    let d2 = d.spec_perpendicular_pair().1;
    let a = k * s;
    let amax = (p - 1) * s;
    assert(0 <= k * s <= (p - 1) * s) by (nonlinear_arith)
        requires
            0 <= k <= p - 1,
            s >= 2,
    ;
    let base = spec_shift(d, c, a);
    lemma_grid_box(d, d1, c, amax, l + 1, a, 0);
    assert(spec_shift(d1, base, 0) == base);
    lemma_grid_box(d, d1, c, amax, l + 1, a, 1);
    lemma_grid_box(d, d1, c, amax, l + 1, a, l + 1);
    lemma_shift_add(d1, base, 1, l);
    lemma_branch_in_grid(d1, spec_shift(d1, base, 1), l);
    lemma_grid_box(d, d2, c, amax, l + 1, a, 1);
    lemma_grid_box(d, d2, c, amax, l + 1, a, l + 1);
    lemma_shift_add(d2, base, 1, l);
    lemma_branch_in_grid(d2, spec_shift(d2, base, 1), l);
    let ps = pair_positions(d, base, l);
    let b1 = branch_positions(d1, spec_shift(d1, base, 1), l);
    let b2 = branch_positions(d2, spec_shift(d2, base, 1), l);
    assert forall|i: int| 0 <= i < ps.len() implies pos_in_grid(#[trigger] ps[i]) by {
        if i < b1.len() {
            assert(ps[i] == b1[i]);
        } else {
            assert(ps[i] == b2[i - b1.len()]);
        }
    }
}

/// All positions of the corridor expansion at offset `n * s` lie in the
/// grid whenever the layout's extreme corners do.
pub proof fn lemma_corridor_at_in_grid(
    d: Direction,
    c: (int, int, int),
    p: int,
    s: int,
    n: int,
)
    requires
        p >= 1,
        s >= 2,
        0 <= n <= p - 2,
        pos_in_grid(c),
        pos_in_grid(spec_shift(d, c, (p - 1) * s)),
    ensures
        all_in_grid(corridor_positions(d, spec_shift(d, c, n * s), s)),
        pos_in_grid(spec_shift(d, c, n * s)),
{
    let amax = (p - 1) * s;
    assert(0 <= n * s && n * s + (s - 1) <= (p - 1) * s) by (nonlinear_arith)
        requires
            0 <= n <= p - 2,
            s >= 2,
    ;
    assert(spec_shift(d, c, 0) == c);
    lemma_segment_in_grid(d, c, 0, n * s, amax);
    lemma_shift_add(d, c, n * s, s - 1);
    lemma_segment_in_grid(d, c, 0, n * s + (s - 1), amax);
    lemma_corridor_in_grid(d, spec_shift(d, c, n * s), s);
}

/// Evaluate the branch-mining technique: lay an initial branch pair one
/// block off `starting_coords` along the two directions perpendicular to
/// `base_direction`; then, `branch_pair_count - 1` times over, expand the
/// corridor one segment further and lay the next pair `branch_spacing`
/// blocks on.
///
/// Parameters are validated before any lookup access: a spacing below 2
/// (which would let adjacent corridor segments sample the same slice), or a
/// non-positive pair count or branch length, fail with `InvalidParameter`;
/// a layout whose extreme corners leave the shard's chunk grid fails with
/// `OutOfRange`. Either error leaves the lookup untouched.
pub fn branch_mining<D: ChunkDecoder>(
    lookup: &mut CachingLookup<D>,
    base_direction: Direction,
    starting_coords: Coord,
    branch_pair_count: i32,
    branch_length: i32,
    branch_spacing: i32,
) -> (r: Result<AggregateResult, MiningError>)
    requires
        old(lookup).wf(),
        starting_coords.1 - 1 >= i64::MIN,
        starting_coords.1 + 2 <= i64::MAX,
    ensures
        final(lookup).wf(),
        final(lookup).spec_model() == old(lookup).spec_model(),
        (r == Result::<AggregateResult, MiningError>::Err(MiningError::InvalidParameter) <==> !bm_params_ok(
            branch_pair_count as int,
            branch_length as int,
            branch_spacing as int,
        )),
        bm_params_ok(branch_pair_count as int, branch_length as int, branch_spacing as int) ==> (r
            == Result::<AggregateResult, MiningError>::Err(MiningError::OutOfRange)
            <==> !branch_mining_in_grid(
            base_direction,
            view3(starting_coords),
            branch_pair_count as int,
            branch_length as int,
            branch_spacing as int,
        )),
        (r is Err ==> *final(lookup) == *old(lookup)),
        (r is Ok <==> bm_params_ok(
            branch_pair_count as int,
            branch_length as int,
            branch_spacing as int,
        ) && branch_mining_in_grid(
            base_direction,
            view3(starting_coords),
            branch_pair_count as int,
            branch_length as int,
            branch_spacing as int,
        )),
        (r matches Ok(a) ==> samples_match(
            a.samples@,
            branch_mining_positions(
                base_direction,
                view3(starting_coords),
                branch_pair_count as int,
                branch_length as int,
                branch_spacing as int,
            ),
            old(lookup).spec_model(),
        ) && a.excavated as int == branch_mining_excavated(
            branch_pair_count as int,
            branch_length as int,
            branch_spacing as int,
        ) && a.exposed as int == branch_mining_exposed(
            branch_pair_count as int,
            branch_length as int,
            branch_spacing as int,
        )),
{
    let ghost p = branch_pair_count as int;
    let ghost l = branch_length as int;
    let ghost s = branch_spacing as int;
    let ghost c0 = view3(starting_coords);
    let ghost mdl = old(lookup).spec_model();
    if branch_spacing < 2 {
        return Err(MiningError::InvalidParameter);
    }
    if branch_pair_count < 1 || branch_length < 1 {
        return Err(MiningError::InvalidParameter);
    }
    let p64: i64 = branch_pair_count as i64;
    let l64: i64 = branch_length as i64;
    let s64: i64 = branch_spacing as i64;
    proof {
        assert((p64 - 1) * s64 < 0x4000000000000000i64) by (nonlinear_arith)
            requires
                0 <= p64 - 1 < 0x80000000i64,
                0 <= s64 < 0x80000000i64,
        ;
    }
    let far_off: i64 = (p64 - 1) * s64;
    let (d1, d2) = base_direction.perpendicular_pair();
    if !col_in_grid(starting_coords) {
        return Err(MiningError::OutOfRange);
    }
    let far = match checked_shift(base_direction, starting_coords, far_off) {
        Some(f) => f,
        None => {
            return Err(MiningError::OutOfRange);
        },
    };
    if !col_in_grid(far) {
        return Err(MiningError::OutOfRange);
    }
    let e1 = match checked_shift(d1, starting_coords, l64 + 1) {
        Some(f) => f,
        None => {
            return Err(MiningError::OutOfRange);
        },
    };
    let e2 = match checked_shift(d2, starting_coords, l64 + 1) {
        Some(f) => f,
        None => {
            return Err(MiningError::OutOfRange);
        },
    };
    let e3 = match checked_shift(d1, far, l64 + 1) {
        Some(f) => f,
        None => {
            return Err(MiningError::OutOfRange);
        },
    };
    let e4 = match checked_shift(d2, far, l64 + 1) {
        Some(f) => f,
        None => {
            return Err(MiningError::OutOfRange);
        },
    };
    if !col_in_grid(e1) || !col_in_grid(e2) || !col_in_grid(e3) || !col_in_grid(e4) {
        return Err(MiningError::OutOfRange);
    }
    proof {
        assert(branch_mining_in_grid(base_direction, c0, p, l, s));
        lemma_offset_bound(d1, c0, l + 1);
        assert((p - 1) * s >= 0) by (nonlinear_arith)
            requires
                p >= 1,
                s >= 2,
        ;
        lemma_offset_bound(base_direction, c0, (p - 1) * s);
        if p >= 2 {
            assert(s <= 511 && p - 1 <= 255) by (nonlinear_arith)
                requires
                    (p - 1) * s <= 511,
                    p >= 2,
                    s >= 2,
            ;
        }
        lemma_pair_in_grid(base_direction, c0, p, l, s, 0);
        assert(spec_shift(base_direction, c0, 0) == c0);
    }
    let mut acc = lay_pair(lookup, base_direction, starting_coords, l64);
    let mut n: i64 = 0;
    while n < p64 - 1
        invariant
            0 <= n <= p64 - 1,
            p == p64 as int,
            l == l64 as int,
            s == s64 as int,
            bm_params_ok(p, l, s),
            branch_mining_in_grid(base_direction, c0, p, l, s),
            c0 == view3(starting_coords),
            starting_coords.1 - 1 >= i64::MIN,
            starting_coords.1 + 2 <= i64::MAX,
            l <= 510,
            p64 >= 2 ==> s <= 511 && p <= 256,
            lookup.wf(),
            lookup.spec_model() == mdl,
            mdl == old(lookup).spec_model(),
            samples_match(
                acc.samples@,
                bm_prefix_positions(base_direction, c0, l, s, n as nat),
                mdl,
            ),
            acc.excavated as int == (n + 1) * pair_excavated(l) + n * corridor_excavated(s),
            acc.exposed as int == (n + 1) * pair_exposed(l) + n * corridor_exposed(s),
        decreases p64 - 1 - n,
    {
        proof {
            lemma_corridor_at_in_grid(base_direction, c0, p, s, n as int);
            assert(n * s64 == (n as int) * s) by (nonlinear_arith)
                requires
                    s == s64 as int,
            ;
            assert(0 <= n * s64 <= 255 * 511) by (nonlinear_arith)
                requires
                    0 <= n <= 255,
                    2 <= s64 <= 511,
            ;
        }
        let cbase = shift_coords(base_direction, starting_coords, n * s64);
        let rc = expand_corridor(lookup, base_direction, s64, cbase);
        let ghost sm_a = acc.samples@;
        let ghost sm_c = rc.samples@;
        proof {
            assert(0 <= pair_excavated(l) <= 2100 && 0 <= corridor_excavated(s) <= 2100 && 0
                <= pair_exposed(l) <= 4200 && 0 <= corridor_exposed(s) <= 4200);
            assert((n + 1) * pair_excavated(l) + n * corridor_excavated(s) + corridor_excavated(s)
                + pair_excavated(l) <= 0xffffffff) by (nonlinear_arith)
                requires
                    0 <= n <= 255,
                    0 <= pair_excavated(l) <= 2100,
                    0 <= corridor_excavated(s) <= 2100,
            ;
            assert((n + 1) * pair_exposed(l) + n * corridor_exposed(s) + corridor_exposed(s)
                + pair_exposed(l) <= 0xffffffff) by (nonlinear_arith)
                requires
                    0 <= n <= 255,
                    0 <= pair_exposed(l) <= 4200,
                    0 <= corridor_exposed(s) <= 4200,
            ;
        }
        acc.absorb(rc);
        proof {
            lemma_samples_match_concat(
                sm_a,
                sm_c,
                bm_prefix_positions(base_direction, c0, l, s, n as nat),
                corridor_positions(base_direction, spec_shift(base_direction, c0, (n as int) * s), s),
                mdl,
            );
            lemma_pair_in_grid(base_direction, c0, p, l, s, n as int + 1);
            assert((n + 1) * s64 == (n as int + 1) * s) by (nonlinear_arith)
                requires
                    s == s64 as int,
            ;
            assert(0 <= (n + 1) * s64 <= 256 * 511) by (nonlinear_arith)
                requires
                    0 <= n + 1 <= 256,
                    2 <= s64 <= 511,
            ;
        }
        let pbase = shift_coords(base_direction, starting_coords, (n + 1) * s64);
        let rp = lay_pair(lookup, base_direction, pbase, l64);
        let ghost sm_b = acc.samples@;
        let ghost sm_p = rp.samples@;
        acc.absorb(rp);
        proof {
            lemma_samples_match_concat(
                sm_b,
                sm_p,
                bm_prefix_positions(base_direction, c0, l, s, n as nat) + corridor_positions(
                    base_direction,
                    spec_shift(base_direction, c0, (n as int) * s),
                    s,
                ),
                pair_positions(
                    base_direction,
                    spec_shift(base_direction, c0, (n as int + 1) * s),
                    l,
                ),
                mdl,
            );
            assert(((n + 1) + 1) * pair_excavated(l) + (n + 1) * corridor_excavated(s) == (n + 1)
                * pair_excavated(l) + n * corridor_excavated(s) + corridor_excavated(s)
                + pair_excavated(l)) by (nonlinear_arith);
            assert(((n + 1) + 1) * pair_exposed(l) + (n + 1) * corridor_exposed(s) == (n + 1)
                * pair_exposed(l) + n * corridor_exposed(s) + corridor_exposed(s) + pair_exposed(
                l,
            )) by (nonlinear_arith);
        }
        n = n + 1;
    }
    proof {
        assert(n == p64 - 1);
        assert((p - 1 + 1) * pair_excavated(l) + (p - 1) * corridor_excavated(s) == p
            * pair_excavated(l) + (p - 1) * corridor_excavated(s)) by (nonlinear_arith);
        assert((p - 1 + 1) * pair_exposed(l) + (p - 1) * corridor_exposed(s) == p * pair_exposed(l)
            + (p - 1) * corridor_exposed(s)) by (nonlinear_arith);
    }
    Ok(acc)
}



/// A named, parameterized excavation layout.
#[derive(Clone, Debug, PartialEq, Eq, Structural)]
pub enum Technique {
    Branch,
    BranchWithPoke,
    ChunkBaseline,
}

impl Technique {
    /// The canonical machine-facing name; deliberately a different
    /// vocabulary from the human display label.
    pub open spec fn spec_name(self) -> Seq<char> {
        match self {
            Technique::Branch => "branch"@,
            Technique::BranchWithPoke => "poke"@,
            Technique::ChunkBaseline => "chunk"@,
        }
    }

    pub open spec fn spec_display_label(self) -> Seq<char> {
        match self {
            Technique::Branch => "Branch Mining"@,
            Technique::BranchWithPoke => "Branch Mining with Pokes"@,
            Technique::ChunkBaseline => "Chunk Baseline"@,
        }
    }

    /// The canonical machine-facing name of this technique.
    pub fn name(self) -> (r: String)
        ensures
            r@ == self.spec_name(),
    {
        match self {
            Technique::Branch => "branch".to_owned(),
            Technique::BranchWithPoke => "poke".to_owned(),
            Technique::ChunkBaseline => "chunk".to_owned(),
        }
    }

    /// The human-facing display label of this technique.
    pub fn display_label(self) -> (r: String)
        ensures
            r@ == self.spec_display_label(),
    {
        match self {
            Technique::Branch => "Branch Mining".to_owned(),
            Technique::BranchWithPoke => "Branch Mining with Pokes".to_owned(),
            Technique::ChunkBaseline => "Chunk Baseline".to_owned(),
        }
    }

    /// All display labels, in a fixed order (what a selection UI lists).
    pub fn iterable() -> (r: Vec<String>)
        ensures
            r@.len() == 3,
            r@[0]@ == Technique::Branch.spec_display_label(),
            r@[1]@ == Technique::BranchWithPoke.spec_display_label(),
            r@[2]@ == Technique::ChunkBaseline.spec_display_label(),
    {
        let mut v: Vec<String> = Vec::new();
        v.push(Technique::Branch.display_label());
        v.push(Technique::BranchWithPoke.display_label());
        v.push(Technique::ChunkBaseline.display_label());
        v
    }

    /// Parse a display label back to its technique; a string that is no
    /// technique's display label fails with `UnknownTechnique`.
    pub fn parse_label(label: &String) -> (r: Result<Technique, MiningError>)
        ensures
            label@ == Technique::Branch.spec_display_label() ==> r == Result::<
                Technique,
                MiningError,
            >::Ok(Technique::Branch),
            label@ == Technique::BranchWithPoke.spec_display_label() ==> r == Result::<
                Technique,
                MiningError,
            >::Ok(Technique::BranchWithPoke),
            label@ == Technique::ChunkBaseline.spec_display_label() ==> r == Result::<
                Technique,
                MiningError,
            >::Ok(Technique::ChunkBaseline),
            label@ != Technique::Branch.spec_display_label() && label@
                != Technique::BranchWithPoke.spec_display_label() && label@
                != Technique::ChunkBaseline.spec_display_label() ==> r == Result::<
                Technique,
                MiningError,
            >::Err(MiningError::UnknownTechnique),
    {
        proof {
            reveal_strlit("Branch Mining");
            reveal_strlit("Branch Mining with Pokes");
            reveal_strlit("Chunk Baseline");
            assert("Branch Mining"@.len() == 13);
            assert("Branch Mining with Pokes"@.len() == 24);
            assert("Chunk Baseline"@.len() == 14);
        }
        if label.eq(&Technique::Branch.display_label()) {
            Ok(Technique::Branch)
        } else if label.eq(&Technique::BranchWithPoke.display_label()) {
            Ok(Technique::BranchWithPoke)
        } else if label.eq(&Technique::ChunkBaseline.display_label()) {
            Ok(Technique::ChunkBaseline)
        } else {
            Err(MiningError::UnknownTechnique)
        }
    }
}

/// The chunk-baseline technique: look up, directly on one decoded chunk and
/// bypassing the caching layer, the identity of every block of its 16 x 16
/// horizontal slice at height `y`, in z-major order (index `z * 16 + x`).
/// Its per-lookup cost is the floor against which the caching layer's
/// amortized cost is measured; the caller times the call.
pub fn chunk_baseline(chunk: &ChunkData, y: i64) -> (r: Vec<String>)
    requires
        chunk.wf(),
    ensures
        r@.len() == 256,
        forall|i: int|
            0 <= i < 256 ==> (#[trigger] r@[i])@ == chunk.spec_ident(i % 16, y as int, i / 16),
{
    let mut r: Vec<String> = Vec::new();
    let mut z: usize = 0;
    while z < 16
        invariant
            z <= 16,
            chunk.wf(),
            r@.len() == 16 * z,
            forall|i: int|
                0 <= i < 16 * z ==> (#[trigger] r@[i])@ == chunk.spec_ident(
                    i % 16,
                    y as int,
                    i / 16,
                ),
        decreases 16 - z,
    {
        let mut x: usize = 0;
        while x < 16
            invariant
                z < 16,
                x <= 16,
                chunk.wf(),
                r@.len() == 16 * z + x,
                forall|i: int|
                    0 <= i < 16 * z + x ==> (#[trigger] r@[i])@ == chunk.spec_ident(
                        i % 16,
                        y as int,
                        i / 16,
                    ),
            decreases 16 - x,
        {
            r.push(chunk.ident(x, z, y));
            assert((16 * z + x) % 16 == x && (16 * z + x) / 16 == z as int);
            x = x + 1;
        }
        z = z + 1;
    }
    r
}


/// Every sample of a corridor expansion lies on the corridor line itself:
/// at some offset 0 through `s - 1` along `d` from the call's base, and
/// between one block below and two blocks above corridor height.
pub proof fn lemma_corridor_pos_char(d: Direction, base: (int, int, int), s: int, i: int)
    requires
        s >= 2,
        0 <= i < corridor_positions(d, base, s).len(),
    ensures
        exists|off: int, dy: int|
            0 <= off <= s - 1 && -1 <= dy <= 2 && corridor_positions(d, base, s)[i]
                == #[trigger] line_point(d, base, off, dy),
{
    let sl = corridor_slice_positions(d, base, s);
    let sh = shaft_positions(d, spec_shift(d, base, 2), s - 3);
    if i < 12 {
        let off = if i % 3 == 0 {
            0int
        } else if i % 3 == 1 {
            1int
        } else {
            s - 1
        };
        let dy = i / 3 - 1;
        assert(corridor_positions(d, base, s)[i] == sl[i]);
        assert(sl[i] == line_point(d, base, off, dy));
    } else {
        let j = i - 12;
        let step = j / 2;
        let dy = j % 2;
        assert(corridor_positions(d, base, s)[i] == sh[j]);
        assert(sh[j] == line_point(d, spec_shift(d, base, 2), step, dy));
        lemma_line_point_shift(d, base, 2, step, dy);
        assert(sh[j] == line_point(d, base, 2 + step, dy));
        assert(0 <= 2 + step <= s - 1);
    }
}

/// Every sample of one branch of a branch pair lies on that branch's line:
/// between 1 and `l + 1` blocks out from the pair's base along the branch's
/// own direction, at corridor height or one above.
pub proof fn lemma_pair_branch_pos_char(
    dp: Direction,
    base: (int, int, int),
    l: int,
    i: int,
)
    requires
        l >= 1,
        0 <= i < branch_positions(dp, spec_shift(dp, base, 1), l).len(),
    ensures
        exists|m: int, dy: int|
            1 <= m <= l + 1 && 0 <= dy <= 1 && branch_positions(dp, spec_shift(dp, base, 1), l)[i]
                == #[trigger] line_point(dp, base, m, dy),
{
    lemma_branch_pos_char(dp, spec_shift(dp, base, 1), l, i);
    let (m0, dy0): (int, int) = choose|m: int, dy: int|
        0 <= m <= l && 0 <= dy <= 1 && branch_positions(dp, spec_shift(dp, base, 1), l)[i]
            == #[trigger] line_point(dp, spec_shift(dp, base, 1), m, dy);
    lemma_line_point_shift(dp, base, 1, m0, dy0);
    assert(branch_positions(dp, spec_shift(dp, base, 1), l)[i] == line_point(
        dp,
        base,
        1 + m0,
        dy0,
    ));
}

/// The two directions of a perpendicular pair step oppositely.
proof fn lemma_pair_opposite_deltas(d: Direction)
    ensures
        d.spec_perpendicular_pair().1.spec_delta().0 == -d.spec_perpendicular_pair().0.spec_delta().0,
        d.spec_perpendicular_pair().1.spec_delta().1 == -d.spec_perpendicular_pair().0.spec_delta().1,
{
}

/// A direction and either member of its perpendicular pair move different
/// axes, each by one unit.
proof fn lemma_axes(d: Direction, dp: Direction)
    requires
        dp == d.spec_perpendicular_pair().0 || dp == d.spec_perpendicular_pair().1,
    ensures
        (d.spec_delta().0 == 0 && (d.spec_delta().1 == 1 || d.spec_delta().1 == -1) && (
        dp.spec_delta().0 == 1 || dp.spec_delta().0 == -1) && dp.spec_delta().1 == 0) || (
        d.spec_delta().1 == 0 && (d.spec_delta().0 == 1 || d.spec_delta().0 == -1)
            && dp.spec_delta().0 == 0 && (dp.spec_delta().1 == 1 || dp.spec_delta().1 == -1)),
{
    match d {
        Direction::North | Direction::South => {
            assert(dp == Direction::East || dp == Direction::West);
        },
        Direction::East | Direction::West => {
            assert(dp == Direction::North || dp == Direction::South);
        },
    }
}

/// Law: two corridor expansions of one composition sample disjoint
/// coordinates — expansion `n` covers corridor offsets `n * s` through
/// `(n + 1) * s - 1`, and for any spacing of at least 2 these ranges never
/// meet.
pub proof fn lemma_corridor_calls_disjoint(
    d: Direction,
    c: (int, int, int),
    s: int,
    n1: int,
    n2: int,
)
    requires
        s >= 2,
        0 <= n1 < n2,
    ensures
        forall|i: int, j: int|
            0 <= i < corridor_positions(d, spec_shift(d, c, n1 * s), s).len() && 0 <= j
                < corridor_positions(d, spec_shift(d, c, n2 * s), s).len()
                ==> #[trigger] corridor_positions(d, spec_shift(d, c, n1 * s), s)[i]
                != #[trigger] corridor_positions(d, spec_shift(d, c, n2 * s), s)[j],
{
    let a = corridor_positions(d, spec_shift(d, c, n1 * s), s);
    let b = corridor_positions(d, spec_shift(d, c, n2 * s), s);
    assert forall|i: int, j: int|
        0 <= i < a.len() && 0 <= j < b.len() implies a[i] != b[j] by {
        lemma_corridor_pos_char(d, spec_shift(d, c, n1 * s), s, i);
        let (o1, y1): (int, int) = choose|off: int, dy: int|
            0 <= off <= s - 1 && -1 <= dy <= 2 && a[i] == #[trigger] line_point(
                d,
                spec_shift(d, c, n1 * s),
                off,
                dy,
            );
        lemma_corridor_pos_char(d, spec_shift(d, c, n2 * s), s, j);
        let (o2, y2): (int, int) = choose|off: int, dy: int|
            0 <= off <= s - 1 && -1 <= dy <= 2 && b[j] == #[trigger] line_point(
                d,
                spec_shift(d, c, n2 * s),
                off,
                dy,
            );
        lemma_line_point_shift(d, c, n1 * s, o1, y1);
        lemma_line_point_shift(d, c, n2 * s, o2, y2);
        assert(n1 * s + o1 < n2 * s + o2) by (nonlinear_arith)
            requires
                0 <= o1 <= s - 1,
                0 <= o2,
                n1 < n2,
                s >= 2,
        ;
        lemma_shift_injective(d, c, n1 * s + o1, n2 * s + o2);
        assert(line_point(d, c, n1 * s + o1, y1).0 == spec_shift(d, c, n1 * s + o1).0);
        assert(line_point(d, c, n2 * s + o2, y2).0 == spec_shift(d, c, n2 * s + o2).0);
        assert(line_point(d, c, n1 * s + o1, y1).2 == spec_shift(d, c, n1 * s + o1).2);
        assert(line_point(d, c, n2 * s + o2, y2).2 == spec_shift(d, c, n2 * s + o2).2);
    }
}

/// Law: a corridor expansion samples only columns on the corridor line,
/// while every branch sample sits at least one block off it, so a corridor
/// call and a branch call of one composition never sample the same
/// coordinate.
pub proof fn lemma_corridor_never_meets_branch(
    d: Direction,
    dp: Direction,
    c: (int, int, int),
    l: int,
    s: int,
    n: int,
    k: int,
)
    requires
        s >= 2,
        l >= 1,
        dp == d.spec_perpendicular_pair().0 || dp == d.spec_perpendicular_pair().1,
    ensures
        forall|i: int, j: int|
            0 <= i < corridor_positions(d, spec_shift(d, c, n * s), s).len() && 0 <= j
                < branch_positions(dp, spec_shift(dp, spec_shift(d, c, k * s), 1), l).len()
                ==> #[trigger] corridor_positions(d, spec_shift(d, c, n * s), s)[i]
                != #[trigger] branch_positions(dp, spec_shift(dp, spec_shift(d, c, k * s), 1), l)[j],
{
    let a = corridor_positions(d, spec_shift(d, c, n * s), s);
    let b = branch_positions(dp, spec_shift(dp, spec_shift(d, c, k * s), 1), l);
    let dd = d.spec_delta();
    let pp = dp.spec_delta();
    lemma_axes(d, dp);
    assert forall|i: int, j: int|
        0 <= i < a.len() && 0 <= j < b.len() implies a[i] != b[j] by {
        lemma_corridor_pos_char(d, spec_shift(d, c, n * s), s, i);
        let (o1, y1): (int, int) = choose|off: int, dy: int|
            0 <= off <= s - 1 && -1 <= dy <= 2 && a[i] == #[trigger] line_point(
                d,
                spec_shift(d, c, n * s),
                off,
                dy,
            );
        lemma_line_point_shift(d, c, n * s, o1, y1);
        lemma_pair_branch_pos_char(dp, spec_shift(d, c, k * s), l, j);
        let (m2, y2): (int, int) = choose|m: int, dy: int|
            1 <= m <= l + 1 && 0 <= dy <= 1 && b[j] == #[trigger] line_point(
                dp,
                spec_shift(d, c, k * s),
                m,
                dy,
            );
        assert(a[i] == (c.0 + dd.0 * (n * s + o1), c.1 + y1, c.2 + dd.1 * (n * s + o1)));
        assert(b[j] == (c.0 + dd.0 * (k * s) + pp.0 * m2, c.1 + y2, c.2 + dd.1 * (k * s) + pp.1
            * m2));
        assert(!(c.0 + dd.0 * (n * s + o1) == c.0 + dd.0 * (k * s) + pp.0 * m2 && c.2 + dd.1 * (n
            * s + o1) == c.2 + dd.1 * (k * s) + pp.1 * m2)) by (nonlinear_arith)
            requires
                m2 >= 1,
                (dd.0 == 0 && (dd.1 == 1 || dd.1 == -1) && (pp.0 == 1 || pp.0 == -1) && pp.1 == 0)
                    || (dd.1 == 0 && (dd.0 == 1 || dd.0 == -1) && pp.0 == 0 && (pp.1 == 1 || pp.1
                    == -1)),
        ;
    }
}

/// Law: two distinct branch calls of one composition sample disjoint
/// coordinates — branches of different pairs differ along the corridor
/// axis, and the two branches of one pair leave its base in opposite
/// directions.
pub proof fn lemma_branch_calls_disjoint(
    d: Direction,
    c: (int, int, int),
    l: int,
    s: int,
    k1: int,
    dp1: Direction,
    k2: int,
    dp2: Direction,
)
    requires
        s >= 2,
        l >= 1,
        dp1 == d.spec_perpendicular_pair().0 || dp1 == d.spec_perpendicular_pair().1,
        dp2 == d.spec_perpendicular_pair().0 || dp2 == d.spec_perpendicular_pair().1,
        k1 != k2 || dp1 != dp2,
    ensures
        forall|i: int, j: int|
            0 <= i < branch_positions(dp1, spec_shift(dp1, spec_shift(d, c, k1 * s), 1), l).len()
                && 0 <= j < branch_positions(
                dp2,
                spec_shift(dp2, spec_shift(d, c, k2 * s), 1),
                l,
            ).len() ==> #[trigger] branch_positions(
                dp1,
                spec_shift(dp1, spec_shift(d, c, k1 * s), 1),
                l,
            )[i] != #[trigger] branch_positions(
                dp2,
                spec_shift(dp2, spec_shift(d, c, k2 * s), 1),
                l,
            )[j],
{
    let a = branch_positions(dp1, spec_shift(dp1, spec_shift(d, c, k1 * s), 1), l);
    let b = branch_positions(dp2, spec_shift(dp2, spec_shift(d, c, k2 * s), 1), l);
    let dd = d.spec_delta();
    let p1 = dp1.spec_delta();
    let p2 = dp2.spec_delta();
    lemma_axes(d, dp1);
    lemma_axes(d, dp2);
    lemma_pair_opposite_deltas(d);
    assert(dp1 == dp2 || (p2.0 == -p1.0 && p2.1 == -p1.1));
    assert(k1 != k2 ==> k1 * s != k2 * s) by (nonlinear_arith)
        requires
            s >= 2,
    ;
    assert forall|i: int, j: int|
        0 <= i < a.len() && 0 <= j < b.len() implies a[i] != b[j] by {
        lemma_pair_branch_pos_char(dp1, spec_shift(d, c, k1 * s), l, i);
        let (m1, y1): (int, int) = choose|m: int, dy: int|
            1 <= m <= l + 1 && 0 <= dy <= 1 && a[i] == #[trigger] line_point(
                dp1,
                spec_shift(d, c, k1 * s),
                m,
                dy,
            );
        lemma_pair_branch_pos_char(dp2, spec_shift(d, c, k2 * s), l, j);
        let (m2, y2): (int, int) = choose|m: int, dy: int|
            1 <= m <= l + 1 && 0 <= dy <= 1 && b[j] == #[trigger] line_point(
                dp2,
                spec_shift(d, c, k2 * s),
                m,
                dy,
            );
        assert(a[i] == (c.0 + dd.0 * (k1 * s) + p1.0 * m1, c.1 + y1, c.2 + dd.1 * (k1 * s) + p1.1
            * m1));
        assert(b[j] == (c.0 + dd.0 * (k2 * s) + p2.0 * m2, c.1 + y2, c.2 + dd.1 * (k2 * s) + p2.1
            * m2));
        if dp1 == dp2 {
            assert(!(c.0 + dd.0 * (k1 * s) + p1.0 * m1 == c.0 + dd.0 * (k2 * s) + p1.0 * m2 && c.2
                + dd.1 * (k1 * s) + p1.1 * m1 == c.2 + dd.1 * (k2 * s) + p1.1 * m2))
                by (nonlinear_arith)
                requires
                    k1 * s != k2 * s,
                    (dd.0 == 0 && (dd.1 == 1 || dd.1 == -1) && (p1.0 == 1 || p1.0 == -1) && p1.1
                        == 0) || (dd.1 == 0 && (dd.0 == 1 || dd.0 == -1) && p1.0 == 0 && (p1.1 == 1
                        || p1.1 == -1)),
            ;
        } else {
            assert(!(c.0 + dd.0 * (k1 * s) + p1.0 * m1 == c.0 + dd.0 * (k2 * s) + p2.0 * m2 && c.2
                + dd.1 * (k1 * s) + p1.1 * m1 == c.2 + dd.1 * (k2 * s) + p2.1 * m2))
                by (nonlinear_arith)
                requires
                    m1 >= 1,
                    m2 >= 1,
                    p2.0 == -p1.0 && p2.1 == -p1.1,
                    (dd.0 == 0 && (dd.1 == 1 || dd.1 == -1) && (p1.0 == 1 || p1.0 == -1) && p1.1
                        == 0) || (dd.1 == 0 && (dd.0 == 1 || dd.0 == -1) && p1.0 == 0 && (p1.1 == 1
                        || p1.1 == -1)),
            ;
        }
    }
}


/// No position occurs twice in the sequence.
pub open spec fn distinct_positions(ps: Seq<(int, int, int)>) -> bool {
    forall|i: int, j: int| 0 <= i < j < ps.len() ==> #[trigger] ps[i] != #[trigger] ps[j]
}

proof fn lemma_distinct_concat(a: Seq<(int, int, int)>, b: Seq<(int, int, int)>)
    requires
        distinct_positions(a),
        distinct_positions(b),
        forall|i: int, j: int|
            0 <= i < a.len() && 0 <= j < b.len() ==> #[trigger] a[i] != #[trigger] b[j],
    ensures
        distinct_positions(a + b),
{
    assert forall|i: int, j: int|
        0 <= i < j < (a + b).len() implies #[trigger] (a + b)[i] != #[trigger] (a + b)[j] by {
        if j < a.len() {
            assert((a + b)[i] == a[i] && (a + b)[j] == a[j]);
        } else if i < a.len() {
            assert((a + b)[i] == a[i] && (a + b)[j] == b[j - a.len()]);
        } else {
            assert((a + b)[i] == b[i - a.len()] && (a + b)[j] == b[j - a.len()]);
        }
    }
}

/// Law: for every spacing of at least 3, one corridor expansion samples
/// pairwise distinct positions. (At spacing 2 — and only there — its
/// offset-1 slice and its offset-(s-1) slice coincide, so those four
/// vertical samples are taken and counted twice within the one call; that
/// boundary duplication follows from the fixed +24/+48 slice rule itself.)
pub proof fn lemma_corridor_call_distinct(d: Direction, base: (int, int, int), s: int)
    requires
        s >= 3,
    ensures
        distinct_positions(corridor_positions(d, base, s)),
{
    let ps = corridor_positions(d, base, s);
    let sl = corridor_slice_positions(d, base, s);
    let sh = shaft_positions(d, spec_shift(d, base, 2), s - 3);
    assert forall|i: int, j: int|
        0 <= i < j < ps.len() implies #[trigger] ps[i] != #[trigger] ps[j] by {
        let o1 = if i < 12 {
            if i % 3 == 0 {
                0int
            } else if i % 3 == 1 {
                1int
            } else {
                s - 1
            }
        } else {
            2 + (i - 12) / 2
        };
        let y1 = if i < 12 {
            i / 3 - 1
        } else {
            (i - 12) % 2
        };
        let o2 = if j < 12 {
            if j % 3 == 0 {
                0int
            } else if j % 3 == 1 {
                1int
            } else {
                s - 1
            }
        } else {
            2 + (j - 12) / 2
        };
        let y2 = if j < 12 {
            j / 3 - 1
        } else {
            (j - 12) % 2
        };
        if i < 12 {
            assert(ps[i] == sl[i]);
            assert(sl[i] == line_point(d, base, o1, y1));
        } else {
            assert(ps[i] == sh[i - 12]);
            assert(sh[i - 12] == line_point(d, spec_shift(d, base, 2), (i - 12) / 2, y1));
            lemma_line_point_shift(d, base, 2, (i - 12) / 2, y1);
        }
        if j < 12 {
            assert(ps[j] == sl[j]);
            assert(sl[j] == line_point(d, base, o2, y2));
        } else {
            assert(ps[j] == sh[j - 12]);
            assert(sh[j - 12] == line_point(d, spec_shift(d, base, 2), (j - 12) / 2, y2));
            lemma_line_point_shift(d, base, 2, (j - 12) / 2, y2);
        }
        assert(ps[i] == line_point(d, base, o1, y1));
        assert(ps[j] == line_point(d, base, o2, y2));
        if i < 12 && j >= 12 {
            // slice offsets 0, 1 and s-1 never meet the span 2 .. s-2
            assert(2 <= o2 <= s - 2);
            assert(o1 != o2);
        }
        assert(o1 != o2 || y1 != y2);
        if o1 != o2 {
            lemma_shift_injective(d, base, o1, o2);
        } else {
            assert(ps[i].1 != ps[j].1);
        }
    }
}

/// Law: one branch call samples pairwise distinct positions: each body
/// step is its own column, and the cap sits one step past the last.
pub proof fn lemma_branch_call_distinct(dp: Direction, c1: (int, int, int), l: int)
    requires
        l >= 1,
    ensures
        distinct_positions(branch_positions(dp, c1, l)),
{
    let ps = branch_positions(dp, c1, l);
    let body = shaft_positions(dp, c1, l);
    let cap = cap_positions(dp, spec_shift(dp, c1, l - 1));
    assert forall|i: int, j: int|
        0 <= i < j < ps.len() implies #[trigger] ps[i] != #[trigger] ps[j] by {
        let m1 = if i < 2 * l {
            i / 2
        } else {
            l
        };
        let y1 = if i < 2 * l {
            i % 2
        } else {
            i - 2 * l
        };
        let m2 = if j < 2 * l {
            j / 2
        } else {
            l
        };
        let y2 = if j < 2 * l {
            j % 2
        } else {
            j - 2 * l
        };
        lemma_shift_add(dp, c1, l - 1, 1);
        if i < 2 * l {
            assert(ps[i] == body[i]);
            assert(body[i] == line_point(dp, c1, m1, y1));
        } else {
            assert(ps[i] == cap[i - 2 * l]);
            assert(cap[i - 2 * l] == line_point(dp, c1, l, y1));
        }
        if j < 2 * l {
            assert(ps[j] == body[j]);
            assert(body[j] == line_point(dp, c1, m2, y2));
        } else {
            assert(ps[j] == cap[j - 2 * l]);
            assert(cap[j - 2 * l] == line_point(dp, c1, l, y2));
        }
        assert(m1 != m2 || y1 != y2);
        if m1 != m2 {
            lemma_shift_injective(dp, c1, m1, m2);
        } else {
            assert(ps[i].1 != ps[j].1);
        }
    }
}

/// Law: no two calls within one branch-mining composition ever sample the
/// same coordinate, for every admitted spacing. A composition's calls are
/// the corridor expansions at offsets n * s and the branch calls of each
/// pair, one along each perpendicular direction; the three clauses cover
/// every pair of distinct calls. (Within a single corridor call at spacing
/// 2 the offset-1 and offset-(s-1) slices coincide; that duplication is
/// internal to one call and gone for spacing >= 3 — see
/// [`lemma_branch_mining_positions_distinct`].)
pub proof fn lemma_branch_mining_calls_disjoint(
    d: Direction,
    c: (int, int, int),
    l: int,
    s: int,
)
    requires
        l >= 1,
        s >= 2,
    ensures
        forall|n1: int, n2: int, i: int, j: int|
            0 <= n1 < n2 && 0 <= i < corridor_positions(d, spec_shift(d, c, n1 * s), s).len() && 0
                <= j < corridor_positions(d, spec_shift(d, c, n2 * s), s).len()
                ==> #[trigger] corridor_positions(d, spec_shift(d, c, n1 * s), s)[i]
                != #[trigger] corridor_positions(d, spec_shift(d, c, n2 * s), s)[j],
        forall|n: int, k: int, dp: Direction, i: int, j: int|
            (dp == d.spec_perpendicular_pair().0 || dp == d.spec_perpendicular_pair().1) && 0 <= i
                < corridor_positions(d, spec_shift(d, c, n * s), s).len() && 0 <= j
                < branch_positions(dp, spec_shift(dp, spec_shift(d, c, k * s), 1), l).len()
                ==> #[trigger] corridor_positions(d, spec_shift(d, c, n * s), s)[i]
                != #[trigger] branch_positions(dp, spec_shift(dp, spec_shift(d, c, k * s), 1), l)[j],
        forall|k1: int, dp1: Direction, k2: int, dp2: Direction, i: int, j: int|
            (dp1 == d.spec_perpendicular_pair().0 || dp1 == d.spec_perpendicular_pair().1) && (dp2
                == d.spec_perpendicular_pair().0 || dp2 == d.spec_perpendicular_pair().1) && (k1
                != k2 || dp1 != dp2) && 0 <= i < branch_positions(
                dp1,
                spec_shift(dp1, spec_shift(d, c, k1 * s), 1),
                l,
            ).len() && 0 <= j < branch_positions(
                dp2,
                spec_shift(dp2, spec_shift(d, c, k2 * s), 1),
                l,
            ).len() ==> #[trigger] branch_positions(
                dp1,
                spec_shift(dp1, spec_shift(d, c, k1 * s), 1),
                l,
            )[i] != #[trigger] branch_positions(
                dp2,
                spec_shift(dp2, spec_shift(d, c, k2 * s), 1),
                l,
            )[j],
{
    assert forall|n1: int, n2: int, i: int, j: int|
        0 <= n1 < n2 && 0 <= i < corridor_positions(d, spec_shift(d, c, n1 * s), s).len() && 0 <= j
            < corridor_positions(d, spec_shift(d, c, n2 * s), s).len() implies #[trigger] corridor_positions(
        d,
        spec_shift(d, c, n1 * s),
        s,
    )[i] != #[trigger] corridor_positions(d, spec_shift(d, c, n2 * s), s)[j] by {
        lemma_corridor_calls_disjoint(d, c, s, n1, n2);
    }
    assert forall|n: int, k: int, dp: Direction, i: int, j: int|
        (dp == d.spec_perpendicular_pair().0 || dp == d.spec_perpendicular_pair().1) && 0 <= i
            < corridor_positions(d, spec_shift(d, c, n * s), s).len() && 0 <= j < branch_positions(
            dp,
            spec_shift(dp, spec_shift(d, c, k * s), 1),
            l,
        ).len() implies #[trigger] corridor_positions(d, spec_shift(d, c, n * s), s)[i]
        != #[trigger] branch_positions(dp, spec_shift(dp, spec_shift(d, c, k * s), 1), l)[j] by {
        lemma_corridor_never_meets_branch(d, dp, c, l, s, n, k);
    }
    assert forall|k1: int, dp1: Direction, k2: int, dp2: Direction, i: int, j: int|
        (dp1 == d.spec_perpendicular_pair().0 || dp1 == d.spec_perpendicular_pair().1) && (dp2
            == d.spec_perpendicular_pair().0 || dp2 == d.spec_perpendicular_pair().1) && (k1 != k2
            || dp1 != dp2) && 0 <= i < branch_positions(
            dp1,
            spec_shift(dp1, spec_shift(d, c, k1 * s), 1),
            l,
        ).len() && 0 <= j < branch_positions(
            dp2,
            spec_shift(dp2, spec_shift(d, c, k2 * s), 1),
            l,
        ).len() implies #[trigger] branch_positions(
        dp1,
        spec_shift(dp1, spec_shift(d, c, k1 * s), 1),
        l,
    )[i] != #[trigger] branch_positions(dp2, spec_shift(dp2, spec_shift(d, c, k2 * s), 1), l)[j] by {
        lemma_branch_calls_disjoint(d, c, l, s, k1, dp1, k2, dp2);
    }
}


/// `e` is a position some call of the composition's first rounds samples:
/// either a corridor expansion up to round `n - 1`, or a branch of a pair
/// up to pair `n`.
pub open spec fn bm_elem_ok(
    d: Direction,
    c: (int, int, int),
    l: int,
    s: int,
    n: int,
    e: (int, int, int),
) -> bool {
    ||| exists|n2: int, j: int|
        0 <= n2 <= n - 1 && 0 <= j < corridor_positions(d, spec_shift(d, c, n2 * s), s).len() && e
            == #[trigger] corridor_positions(d, spec_shift(d, c, n2 * s), s)[j]
    ||| exists|k: int, dp: Direction, j: int|
        0 <= k <= n && (dp == d.spec_perpendicular_pair().0 || dp
            == d.spec_perpendicular_pair().1) && 0 <= j < branch_positions(
            dp,
            spec_shift(dp, spec_shift(d, c, k * s), 1),
            l,
        ).len() && e == #[trigger] branch_positions(
            dp,
            spec_shift(dp, spec_shift(d, c, k * s), 1),
            l,
        )[j]
}

proof fn lemma_elem_ok_mono(
    d: Direction,
    c: (int, int, int),
    l: int,
    s: int,
    n1: int,
    n2: int,
    e: (int, int, int),
)
    requires
        n1 <= n2,
        bm_elem_ok(d, c, l, s, n1, e),
    ensures
        bm_elem_ok(d, c, l, s, n2, e),
{
}

/// Law: one branch pair samples pairwise distinct positions: each branch
/// does, and the two branches leave the pair's base in opposite directions.
pub proof fn lemma_pair_call_distinct(d: Direction, c: (int, int, int), l: int, s: int, k: int)
    requires
        l >= 1,
        s >= 2,
    ensures
        distinct_positions(pair_positions(d, spec_shift(d, c, k * s), l)),
{
    let base = spec_shift(d, c, k * s);
    let d1 = d.spec_perpendicular_pair().0;
    let d2 = d.spec_perpendicular_pair().1;
    let b1 = branch_positions(d1, spec_shift(d1, base, 1), l);
    let b2 = branch_positions(d2, spec_shift(d2, base, 1), l);
    lemma_branch_call_distinct(d1, spec_shift(d1, base, 1), l);
    lemma_branch_call_distinct(d2, spec_shift(d2, base, 1), l);
    lemma_branch_calls_disjoint(d, c, l, s, k, d1, k, d2);
    lemma_distinct_concat(b1, b2);
}

proof fn lemma_bm_prefix_distinct(d: Direction, c: (int, int, int), l: int, s: int, n: nat)
    requires
        l >= 1,
        s >= 3,
    ensures
        distinct_positions(bm_prefix_positions(d, c, l, s, n)),
        forall|i: int|
            0 <= i < bm_prefix_positions(d, c, l, s, n).len() ==> bm_elem_ok(
                d,
                c,
                l,
                s,
                n as int,
                #[trigger] bm_prefix_positions(d, c, l, s, n)[i],
            ),
    decreases n,
{
    let pre = bm_prefix_positions(d, c, l, s, n);
    let d1 = d.spec_perpendicular_pair().0;
    let d2 = d.spec_perpendicular_pair().1;
    if n == 0 {
        assert(spec_shift(d, c, 0) == spec_shift(d, c, 0 * s));
        lemma_pair_call_distinct(d, c, l, s, 0);
        assert(pre == pair_positions(d, spec_shift(d, c, 0 * s), l));
        let b1 = branch_positions(d1, spec_shift(d1, spec_shift(d, c, 0 * s), 1), l);
        let b2 = branch_positions(d2, spec_shift(d2, spec_shift(d, c, 0 * s), 1), l);
        assert forall|i: int|
            0 <= i < pre.len() implies bm_elem_ok(d, c, l, s, n as int, #[trigger] pre[i]) by {
            if i < b1.len() {
                assert(pre[i] == b1[i]);
            } else {
                assert(pre[i] == b2[i - b1.len()]);
            }
        }
    } else {
        lemma_bm_prefix_distinct(d, c, l, s, (n - 1) as nat);
        let older = bm_prefix_positions(d, c, l, s, (n - 1) as nat);
        let corr = corridor_positions(d, spec_shift(d, c, (n - 1) * s), s);
        let pairp = pair_positions(d, spec_shift(d, c, n as int * s), l);
        let b1 = branch_positions(d1, spec_shift(d1, spec_shift(d, c, n as int * s), 1), l);
        let b2 = branch_positions(d2, spec_shift(d2, spec_shift(d, c, n as int * s), 1), l);
        assert(pre == older + corr + pairp);
        lemma_corridor_call_distinct(d, spec_shift(d, c, (n - 1) * s), s);
        lemma_pair_call_distinct(d, c, l, s, n as int);
        // the new corridor call never meets the new pair
        lemma_corridor_never_meets_branch(d, d1, c, l, s, n as int - 1, n as int);
        lemma_corridor_never_meets_branch(d, d2, c, l, s, n as int - 1, n as int);
        // nothing older meets the new corridor call
        assert forall|i: int, j: int|
            0 <= i < older.len() && 0 <= j < corr.len() implies #[trigger] older[i]
            != #[trigger] corr[j] by {
            assert(bm_elem_ok(d, c, l, s, n as int - 1, older[i]));
            if exists|n2: int, j2: int|
                0 <= n2 <= n as int - 2 && 0 <= j2 < corridor_positions(
                    d,
                    spec_shift(d, c, n2 * s),
                    s,
                ).len() && older[i] == #[trigger] corridor_positions(
                    d,
                    spec_shift(d, c, n2 * s),
                    s,
                )[j2] {
                let (n2, j2): (int, int) = choose|n2: int, j2: int|
                    0 <= n2 <= n as int - 2 && 0 <= j2 < corridor_positions(
                        d,
                        spec_shift(d, c, n2 * s),
                        s,
                    ).len() && older[i] == #[trigger] corridor_positions(
                        d,
                        spec_shift(d, c, n2 * s),
                        s,
                    )[j2];
                lemma_corridor_calls_disjoint(d, c, s, n2, n as int - 1);
            } else {
                let (k, dp, j2): (int, Direction, int) = choose|k: int, dp: Direction, j2: int|
                    0 <= k <= n as int - 1 && (dp == d.spec_perpendicular_pair().0 || dp
                        == d.spec_perpendicular_pair().1) && 0 <= j2 < branch_positions(
                        dp,
                        spec_shift(dp, spec_shift(d, c, k * s), 1),
                        l,
                    ).len() && older[i] == #[trigger] branch_positions(
                        dp,
                        spec_shift(dp, spec_shift(d, c, k * s), 1),
                        l,
                    )[j2];
                lemma_corridor_never_meets_branch(d, dp, c, l, s, n as int - 1, k);
            }
        }
        // nothing older meets the new pair
        assert forall|i: int, j: int|
            0 <= i < older.len() && 0 <= j < pairp.len() implies #[trigger] older[i]
            != #[trigger] pairp[j] by {
            let dpj = if j < b1.len() {
                d1
            } else {
                d2
            };
            if j < b1.len() {
                assert(pairp[j] == b1[j]);
            } else {
                assert(pairp[j] == b2[j - b1.len()]);
            }
            assert(bm_elem_ok(d, c, l, s, n as int - 1, older[i]));
            if exists|n2: int, j2: int|
                0 <= n2 <= n as int - 2 && 0 <= j2 < corridor_positions(
                    d,
                    spec_shift(d, c, n2 * s),
                    s,
                ).len() && older[i] == #[trigger] corridor_positions(
                    d,
                    spec_shift(d, c, n2 * s),
                    s,
                )[j2] {
                let (n2, j2): (int, int) = choose|n2: int, j2: int|
                    0 <= n2 <= n as int - 2 && 0 <= j2 < corridor_positions(
                        d,
                        spec_shift(d, c, n2 * s),
                        s,
                    ).len() && older[i] == #[trigger] corridor_positions(
                        d,
                        spec_shift(d, c, n2 * s),
                        s,
                    )[j2];
                lemma_corridor_never_meets_branch(d, dpj, c, l, s, n2, n as int);
            } else {
                let (k, dp, j2): (int, Direction, int) = choose|k: int, dp: Direction, j2: int|
                    0 <= k <= n as int - 1 && (dp == d.spec_perpendicular_pair().0 || dp
                        == d.spec_perpendicular_pair().1) && 0 <= j2 < branch_positions(
                        dp,
                        spec_shift(dp, spec_shift(d, c, k * s), 1),
                        l,
                    ).len() && older[i] == #[trigger] branch_positions(
                        dp,
                        spec_shift(dp, spec_shift(d, c, k * s), 1),
                        l,
                    )[j2];
                lemma_branch_calls_disjoint(d, c, l, s, k, dp, n as int, dpj);
            }
        }
        // the new corridor call never meets the new pair, value for value
        assert forall|i: int, j: int|
            0 <= i < corr.len() && 0 <= j < pairp.len() implies #[trigger] corr[i]
            != #[trigger] pairp[j] by {
            if j < b1.len() {
                assert(pairp[j] == b1[j]);
            } else {
                assert(pairp[j] == b2[j - b1.len()]);
            }
        }
        lemma_distinct_concat(older, corr);
        assert forall|i: int, j: int|
            0 <= i < (older + corr).len() && 0 <= j < pairp.len() implies #[trigger] (older
            + corr)[i] != #[trigger] pairp[j] by {
            if i < older.len() {
                assert((older + corr)[i] == older[i]);
            } else {
                assert((older + corr)[i] == corr[i - older.len()]);
            }
        }
        lemma_distinct_concat(older + corr, pairp);
        // membership for the grown prefix
        assert forall|i: int|
            0 <= i < pre.len() implies bm_elem_ok(d, c, l, s, n as int, #[trigger] pre[i]) by {
            if i < older.len() {
                assert(pre[i] == older[i]);
                lemma_elem_ok_mono(d, c, l, s, n as int - 1, n as int, older[i]);
            } else if i < older.len() + corr.len() {
                assert(pre[i] == corr[i - older.len()]);
            } else {
                let j = i - older.len() - corr.len();
                assert(pre[i] == pairp[j]);
                if j < b1.len() {
                    assert(pairp[j] == b1[j]);
                } else {
                    assert(pairp[j] == b2[j - b1.len()]);
                }
            }
        }
    }
}

/// Law: for every spacing of at least 3, a whole branch-mining composition
/// samples pairwise distinct coordinates — no block or face is counted
/// twice anywhere in the layout. At spacing 2 the only repetition is the
/// one inside each single corridor call noted at
/// [`lemma_corridor_call_distinct`]; distinct calls still never share a
/// coordinate ([`lemma_branch_mining_calls_disjoint`]).
pub proof fn lemma_branch_mining_positions_distinct(
    d: Direction,
    c: (int, int, int),
    p: int,
    l: int,
    s: int,
)
    requires
        p >= 1,
        l >= 1,
        s >= 3,
    ensures
        distinct_positions(branch_mining_positions(d, c, p, l, s)),
{
    lemma_bm_prefix_distinct(d, c, l, s, (p - 1) as nat);
}

} // verus!
