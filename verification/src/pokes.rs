//! The branch-mining-with-poke-holes composer.

use vstd::prelude::*;

use crate::MiningError;
use crate::aggregate::AggregateResult;
use crate::aggregate::lemma_samples_match_concat;
use crate::aggregate::samples_match;
use crate::coords::Coord;
use crate::coords::Direction;
use crate::coords::shift_coords;
use crate::coords::spec_shift;
use crate::coords::view3;
use crate::geometry::all_in_grid;
use crate::geometry::branch;
use crate::geometry::branch_excavated;
use crate::geometry::branch_exposed;
use crate::geometry::branch_positions;
use crate::geometry::lemma_all_in_grid_split;
use crate::geometry::lemma_branch_in_grid;
use crate::geometry::lemma_segment_in_grid;
use crate::geometry::lemma_shift_add;
use crate::geometry::poke;
use crate::geometry::poke_positions;
use crate::geometry::pos_in_grid;
use crate::lookup::CachingLookup;
use crate::techniques::checked_shift;
use crate::techniques::col_in_grid;
use crate::techniques::corridor_excavated;
use crate::techniques::corridor_exposed;
use crate::techniques::corridor_positions;
use crate::techniques::expand_corridor;
use crate::techniques::lemma_corridor_at_in_grid;
use crate::techniques::lemma_grid_box;
use crate::techniques::lemma_offset_bound;
use crate::world::ChunkDecoder;

verus! {

/// The two pokes hung off one anchor of a poke-hole branch: the anchor sits
/// at offset `k * ps - 1` along the branch from its start, and a reach-5
/// poke leaves it along each direction perpendicular to the branch.
pub open spec fn poke_pair_positions(dp: Direction, c: (int, int, int), ps: int, k: int) -> Seq<
    (int, int, int),
> {
    let q1 = dp.spec_perpendicular_pair().0;
    let q2 = dp.spec_perpendicular_pair().1;
    let a = spec_shift(dp, c, k * ps - 1);
    poke_positions(q1, a, 5) + poke_positions(q2, a, 5)
}

/// The pokes of the first `k` anchors of a poke-hole branch.
pub open spec fn poke_branch_prefix(dp: Direction, c: (int, int, int), ps: int, k: nat) -> Seq<
    (int, int, int),
>
    decreases k,
{
    if k == 0 {
        Seq::empty()
    } else {
        poke_branch_prefix(dp, c, ps, (k - 1) as nat) + poke_pair_positions(dp, c, ps, k - 1)
    }
}

/// Everything one poke-hole branch samples: all its pokes first, then the
/// branch's own body over the full span `pokes * ps` and its cap — the body
/// is sampled once, in full, after all pokes are placed, anchored at the
/// branch's original start.
pub open spec fn poke_branch_positions(
    dp: Direction,
    c: (int, int, int),
    pokes: int,
    ps: int,
) -> Seq<(int, int, int)> {
    poke_branch_prefix(dp, c, ps, pokes as nat) + branch_positions(dp, c, pokes * ps)
}

pub open spec fn poke_branch_excavated(pokes: int, ps: int) -> int {
    10 * pokes + branch_excavated(pokes * ps)
}

pub open spec fn poke_branch_exposed(pokes: int, ps: int) -> int {
    30 * pokes + branch_exposed(pokes * ps)
}

/// Everything one pair of poke-hole branches samples.
pub open spec fn poke_pair_branches_positions(
    d: Direction,
    base: (int, int, int),
    pokes: int,
    ps: int,
) -> Seq<(int, int, int)> {
    let d1 = d.spec_perpendicular_pair().0;
    let d2 = d.spec_perpendicular_pair().1;
    poke_branch_positions(d1, spec_shift(d1, base, 1), pokes, ps) + poke_branch_positions(
        d2,
        spec_shift(d2, base, 1),
        pokes,
        ps,
    )
}

/// Samples of a poke-hole composition after the initial pair and `n` loop
/// rounds, mirroring the plain branch-mining composition.
pub open spec fn bmp_prefix_positions(
    d: Direction,
    c: (int, int, int),
    pokes: int,
    ps: int,
    s: int,
    n: nat,
) -> Seq<(int, int, int)>
    decreases n,
{
    if n == 0 {
        poke_pair_branches_positions(d, spec_shift(d, c, 0), pokes, ps)
    } else {
        bmp_prefix_positions(d, c, pokes, ps, s, (n - 1) as nat) + corridor_positions(
            d,
            spec_shift(d, c, (n - 1) * s),
            s,
        ) + poke_pair_branches_positions(d, spec_shift(d, c, n * s), pokes, ps)
    }
}

/// Everything a whole poke-hole composition samples.
pub open spec fn branch_mining_with_pokes_positions(
    d: Direction,
    c: (int, int, int),
    p: int,
    pokes: int,
    ps: int,
    s: int,
) -> Seq<(int, int, int)> {
    bmp_prefix_positions(d, c, pokes, ps, s, (p - 1) as nat)
}

pub open spec fn branch_mining_with_pokes_excavated(p: int, pokes: int, ps: int, s: int) -> int {
    p * (2 * poke_branch_excavated(pokes, ps)) + (p - 1) * corridor_excavated(s)
}

pub open spec fn branch_mining_with_pokes_exposed(p: int, pokes: int, ps: int, s: int) -> int {
    p * (2 * poke_branch_exposed(pokes, ps)) + (p - 1) * corridor_exposed(s)
}

pub open spec fn bmp_params_ok(p: int, pokes: int, ps: int, s: int) -> bool {
    p >= 1 && pokes >= 1 && ps >= 1 && s >= 2
}

/// Whether a whole poke-hole layout fits the shard's chunk grid, stated
/// over its extreme corners: besides the plain layout's corners, the pokes
/// reach 5 columns beyond both ends of the corridor line, and the branches
/// span `pokes * ps + 1` perpendicular blocks.
pub open spec fn bmp_in_grid(
    d: Direction,
    c: (int, int, int),
    p: int,
    pokes: int,
    ps: int,
    s: int,
) -> bool {
    let far = spec_shift(d, c, (p - 1) * s);
    let t = pokes * ps;
    let d1 = d.spec_perpendicular_pair().0;
    let d2 = d.spec_perpendicular_pair().1;
    &&& pos_in_grid(c)
    &&& pos_in_grid(far)
    &&& pos_in_grid(spec_shift(d, c, -5))
    &&& pos_in_grid(spec_shift(d, far, 5))
    &&& pos_in_grid(spec_shift(d1, c, t + 1))
    &&& pos_in_grid(spec_shift(d2, c, t + 1))
    &&& pos_in_grid(spec_shift(d1, far, t + 1))
    &&& pos_in_grid(spec_shift(d2, far, t + 1))
}


proof fn lemma_perp_delta(d: Direction, dp: Direction)
    requires
        dp == d.spec_perpendicular_pair().0 || dp == d.spec_perpendicular_pair().1,
    ensures
        d.spec_delta().0 * dp.spec_delta().0 == 0,
        d.spec_delta().1 * dp.spec_delta().1 == 0,
{
    match d {
        Direction::North | Direction::South => {
            assert(d.spec_delta().0 == 0);
            assert(dp == Direction::East || dp == Direction::West);
            assert(dp.spec_delta().1 == 0);
        },
        Direction::East | Direction::West => {
            assert(d.spec_delta().1 == 0);
            assert(dp == Direction::North || dp == Direction::South);
            assert(dp.spec_delta().0 == 0);
        },
    }
}

proof fn lemma_poke_delta(d: Direction, dp: Direction, q: Direction)
    requires
        dp == d.spec_perpendicular_pair().0 || dp == d.spec_perpendicular_pair().1,
        q == dp.spec_perpendicular_pair().0 || q == dp.spec_perpendicular_pair().1,
    ensures
        q.spec_delta() == d.spec_delta() || (q.spec_delta().0 == -d.spec_delta().0
            && q.spec_delta().1 == -d.spec_delta().1),
{
    match d {
        Direction::North | Direction::South => {
            assert(dp == Direction::East || dp == Direction::West);
            assert(q == Direction::North || q == Direction::South);
            if q == d {
                assert(q.spec_delta() == d.spec_delta());
            } else {
                assert(q.spec_delta().0 == -d.spec_delta().0 && q.spec_delta().1
                    == -d.spec_delta().1);
            }
        },
        Direction::East | Direction::West => {
            assert(dp == Direction::North || dp == Direction::South);
            assert(q == Direction::East || q == Direction::West);
            if q == d {
                assert(q.spec_delta() == d.spec_delta());
            } else {
                assert(q.spec_delta().0 == -d.spec_delta().0 && q.spec_delta().1
                    == -d.spec_delta().1);
            }
        },
    }
}

/// One poke sample of a poke-hole layout lies in the grid: it sits `a0`
/// columns out along the corridor axis (give or take the poke's reach of at
/// most 5), and `b0` columns out along the branch axis.
proof fn lemma_poke_pos_in_grid(
    d: Direction,
    dp: Direction,
    q: Direction,
    c: (int, int, int),
    amax: int,
    bmax: int,
    a0: int,
    b0: int,
    i: int,
)
    requires
        dp == d.spec_perpendicular_pair().0 || dp == d.spec_perpendicular_pair().1,
        q == dp.spec_perpendicular_pair().0 || q == dp.spec_perpendicular_pair().1,
        0 <= a0 <= amax,
        0 <= b0 <= bmax,
        1 <= i <= 5,
        pos_in_grid(c),
        pos_in_grid(spec_shift(d, c, amax)),
        pos_in_grid(spec_shift(d, c, -5)),
        pos_in_grid(spec_shift(d, spec_shift(d, c, amax), 5)),
        pos_in_grid(spec_shift(dp, c, bmax)),
    ensures
        pos_in_grid(spec_shift(q, spec_shift(dp, spec_shift(d, c, a0), b0), i)),
{
    let dd = d.spec_delta();
    let pp = dp.spec_delta();
    let qq = q.spec_delta();
    lemma_perp_delta(d, dp);
    lemma_poke_delta(d, dp, q);
    assert((dd.0 == 0 || dd.0 == 1 || dd.0 == -1) && (dd.1 == 0 || dd.1 == 1 || dd.1 == -1) && (
    pp.0 == 0 || pp.0 == 1 || pp.0 == -1) && (pp.1 == 0 || pp.1 == 1 || pp.1 == -1));
    assert(0 <= c.0 + dd.0 * a0 + pp.0 * b0 + qq.0 * i < 512 && 0 <= c.2 + dd.1 * a0 + pp.1 * b0
        + qq.1 * i < 512) by (nonlinear_arith)
        requires
            dd.0 * pp.0 == 0,
            dd.1 * pp.1 == 0,
            (qq == dd || (qq.0 == -dd.0 && qq.1 == -dd.1)),
            (dd.0 == 0 || dd.0 == 1 || dd.0 == -1),
            (dd.1 == 0 || dd.1 == 1 || dd.1 == -1),
            (pp.0 == 0 || pp.0 == 1 || pp.0 == -1),
            (pp.1 == 0 || pp.1 == 1 || pp.1 == -1),
            0 <= a0 <= amax,
            0 <= b0 <= bmax,
            1 <= i <= 5,
            0 <= c.0 < 512,
            0 <= c.2 < 512,
            0 <= c.0 + dd.0 * amax < 512,
            0 <= c.2 + dd.1 * amax < 512,
            0 <= c.0 + dd.0 * (-5) < 512,
            0 <= c.2 + dd.1 * (-5) < 512,
            0 <= c.0 + dd.0 * amax + dd.0 * 5 < 512,
            0 <= c.2 + dd.1 * amax + dd.1 * 5 < 512,
            0 <= c.0 + pp.0 * bmax < 512,
            0 <= c.2 + pp.1 * bmax < 512,
    ;
}

/// All pokes of the first `k` anchors of the poke-hole branch of pair `j`
/// lie in the grid.
proof fn lemma_poke_prefix_in_grid(
    d: Direction,
    dp: Direction,
    c: (int, int, int),
    p: int,
    pokes: int,
    ps: int,
    s: int,
    j: int,
    k: nat,
)
    requires
        bmp_params_ok(p, pokes, ps, s),
        bmp_in_grid(d, c, p, pokes, ps, s),
        dp == d.spec_perpendicular_pair().0 || dp == d.spec_perpendicular_pair().1,
        0 <= j <= p - 1,
        k <= pokes,
    ensures
        all_in_grid(
            poke_branch_prefix(
                dp,
                spec_shift(dp, spec_shift(d, c, j * s), 1),
                ps,
                k,
            ),
        ),
    decreases k,
{
    let base = spec_shift(d, c, j * s);
    let c1 = spec_shift(dp, base, 1);
    if k == 0 {
    } else {
        lemma_poke_prefix_in_grid(d, dp, c, p, pokes, ps, s, j, (k - 1) as nat);
        let pre = poke_branch_prefix(dp, c1, ps, (k - 1) as nat);
        let pair = poke_pair_positions(dp, c1, ps, k - 1);
        let q1 = dp.spec_perpendicular_pair().0;
        let q2 = dp.spec_perpendicular_pair().1;
        lemma_shift_add(dp, base, 1, (k - 1) * ps - 1);
        let a = spec_shift(dp, c1, (k - 1) * ps - 1);
        assert(a == spec_shift(dp, base, (k - 1) * ps));
        let t = pokes * ps;
        assert(0 <= (k - 1) * ps <= t + 1 && 0 <= j * s <= (p - 1) * s) by (nonlinear_arith)
            requires
                0 <= k - 1 < pokes,
                ps >= 1,
                t == pokes * ps,
                0 <= j <= p - 1,
                s >= 2,
        ;
        let pk1 = poke_positions(q1, a, 5);
        let pk2 = poke_positions(q2, a, 5);
        assert forall|i: int| 0 <= i < pk1.len() implies pos_in_grid(#[trigger] pk1[i]) by {
            assert(pk1[i] == spec_shift(q1, a, i + 1));
            lemma_poke_pos_in_grid(d, dp, q1, c, (p - 1) * s, t + 1, j * s, (k - 1) * ps, i + 1);
        }
        assert forall|i: int| 0 <= i < pk2.len() implies pos_in_grid(#[trigger] pk2[i]) by {
            assert(pk2[i] == spec_shift(q2, a, i + 1));
            lemma_poke_pos_in_grid(d, dp, q2, c, (p - 1) * s, t + 1, j * s, (k - 1) * ps, i + 1);
        }
        assert forall|i: int| 0 <= i < pair.len() implies pos_in_grid(#[trigger] pair[i]) by {
            if i < pk1.len() {
                assert(pair[i] == pk1[i]);
            } else {
                assert(pair[i] == pk2[i - pk1.len()]);
            }
        }
        let whole = poke_branch_prefix(dp, c1, ps, k);
        assert forall|i: int| 0 <= i < whole.len() implies pos_in_grid(#[trigger] whole[i]) by {
            if i < pre.len() {
                assert(whole[i] == pre[i]);
            } else {
                assert(whole[i] == pair[i - pre.len()]);
            }
        }
    }
}

/// The whole poke-hole branch of pair `j` lies in the grid whenever the
/// layout's extreme corners do.
pub proof fn lemma_poke_branch_in_grid(
    d: Direction,
    dp: Direction,
    c: (int, int, int),
    p: int,
    pokes: int,
    ps: int,
    s: int,
    j: int,
)
    requires
        bmp_params_ok(p, pokes, ps, s),
        bmp_in_grid(d, c, p, pokes, ps, s),
        dp == d.spec_perpendicular_pair().0 || dp == d.spec_perpendicular_pair().1,
        0 <= j <= p - 1,
    ensures
        all_in_grid(
            poke_branch_positions(
                dp,
                spec_shift(dp, spec_shift(d, c, j * s), 1),
                pokes,
                ps,
            ),
        ),
        pos_in_grid(spec_shift(d, c, j * s)),
        pos_in_grid(spec_shift(dp, spec_shift(d, c, j * s), 1)),
{
    let base = spec_shift(d, c, j * s);
    let c1 = spec_shift(dp, base, 1);
    let t = pokes * ps;
    assert(0 <= j * s <= (p - 1) * s && 1 <= t <= t + 1) by (nonlinear_arith)
        requires
            0 <= j <= p - 1,
            s >= 2,
            pokes >= 1,
            ps >= 1,
            t == pokes * ps,
    ;
    lemma_grid_box(d, dp, c, (p - 1) * s, t + 1, j * s, 0);
    assert(spec_shift(dp, base, 0) == base);
    lemma_grid_box(d, dp, c, (p - 1) * s, t + 1, j * s, 1);
    lemma_grid_box(d, dp, c, (p - 1) * s, t + 1, j * s, t + 1);
    lemma_shift_add(dp, base, 1, t);
    lemma_branch_in_grid(dp, c1, t);
    lemma_poke_prefix_in_grid(d, dp, c, p, pokes, ps, s, j, pokes as nat);
    let pre = poke_branch_prefix(dp, c1, ps, pokes as nat);
    let br = branch_positions(dp, c1, t);
    let whole = poke_branch_positions(dp, c1, pokes, ps);
    assert forall|i: int| 0 <= i < whole.len() implies pos_in_grid(#[trigger] whole[i]) by {
        if i < pre.len() {
            assert(whole[i] == pre[i]);
        } else {
            assert(whole[i] == br[i - pre.len()]);
        }
    }
}


/// From `k < kk`, the pokes of anchor `k` (and the whole shorter prefix)
/// lie in the grid whenever the pokes of the first `kk` anchors do.
proof fn lemma_prefix_split_pair(dp: Direction, c: (int, int, int), ps: int, kk: nat, k: nat)
    requires
        k < kk,
        all_in_grid(poke_branch_prefix(dp, c, ps, kk)),
    ensures
        all_in_grid(poke_pair_positions(dp, c, ps, k as int)),
        all_in_grid(poke_branch_prefix(dp, c, ps, k)),
    decreases kk,
{
    let pre = poke_branch_prefix(dp, c, ps, (kk - 1) as nat);
    let pair = poke_pair_positions(dp, c, ps, kk - 1);
    lemma_all_in_grid_split(pre, pair);
    if k == kk - 1 {
    } else {
        lemma_prefix_split_pair(dp, c, ps, (kk - 1) as nat, k);
    }
}

/// Sample one poke-hole branch: for each of its `pokes` anchors, spaced
/// `ps` blocks apart starting one block behind the branch start, a reach-5
/// poke along each direction perpendicular to the branch; then the branch's
/// own body over the full span `pokes * ps` and its terminal cap. The body
/// is sampled once, in full, after all pokes are placed, anchored at the
/// branch's original start.
fn poke_branch<D: ChunkDecoder>(
    lookup: &mut CachingLookup<D>,
    dp: Direction,
    c1: Coord,
    pokes: i64,
    ps: i64,
) -> (r: AggregateResult)
    requires
        old(lookup).wf(),
        pokes >= 1,
        ps >= 1,
        pokes * ps <= 510,
        all_in_grid(poke_branch_positions(dp, view3(c1), pokes as int, ps as int)),
        pos_in_grid(spec_shift(dp, view3(c1), -1)),
        c1.1 + 1 <= i64::MAX,
    ensures
        final(lookup).wf(),
        final(lookup).spec_model() == old(lookup).spec_model(),
        samples_match(
            r.samples@,
            poke_branch_positions(dp, view3(c1), pokes as int, ps as int),
            old(lookup).spec_model(),
        ),
        r.excavated as int == poke_branch_excavated(pokes as int, ps as int),
        r.exposed as int == poke_branch_exposed(pokes as int, ps as int),
{
    let ghost cv = view3(c1);
    let ghost t = (pokes * ps) as int;
    let ghost mdl = old(lookup).spec_model();
    let ghost pre = poke_branch_prefix(dp, cv, ps as int, pokes as nat);
    let ghost br = branch_positions(dp, cv, t);
    proof {
        assert(t == (pokes as int) * (ps as int));
        assert(1 <= pokes * ps && pokes <= pokes * ps && ps <= pokes * ps) by (nonlinear_arith)
            requires
                pokes >= 1,
                ps >= 1,
        ;
        lemma_all_in_grid_split(pre, br);
        assert(spec_shift(dp, cv, 0) == cv);
        assert(pos_in_grid(br[0]));
        assert(br[0] == (cv.0, cv.1, cv.2));
        assert(pos_in_grid(br[2 * t]));
        lemma_shift_add(dp, cv, t - 1, 1);
        assert(br[2 * t] == (spec_shift(dp, cv, t).0, spec_shift(dp, cv, t).1, spec_shift(
            dp,
            cv,
            t,
        ).2));
    }
    let mut r = AggregateResult::empty();
    let (q1, q2) = dp.perpendicular_pair();
    let mut k: i64 = 0;
    while k < pokes
        invariant
            0 <= k <= pokes,
            1 <= pokes <= 510,
            1 <= ps <= 510,
            pokes * ps <= 510,
            1 <= t <= 510,
            t == (pokes * ps) as int,
            cv == view3(c1),
            c1.1 + 1 <= i64::MAX,
            q1 == dp.spec_perpendicular_pair().0,
            q2 == dp.spec_perpendicular_pair().1,
            lookup.wf(),
            lookup.spec_model() == mdl,
            mdl == old(lookup).spec_model(),
            pre == poke_branch_prefix(dp, cv, ps as int, pokes as nat),
            all_in_grid(pre),
            pos_in_grid(spec_shift(dp, cv, -1)),
            pos_in_grid(spec_shift(dp, cv, t)),
            samples_match(r.samples@, poke_branch_prefix(dp, cv, ps as int, k as nat), mdl),
            r.excavated == 10 * k,
            r.exposed == 30 * k,
        decreases pokes - k,
    {
        proof {
            lemma_prefix_split_pair(dp, cv, ps as int, pokes as nat, k as nat);
            assert(0 <= k * ps && k * ps <= t - 1) by (nonlinear_arith)
                requires
                    0 <= k < pokes,
                    ps >= 1,
                    t == (pokes * ps) as int,
                    pokes * ps <= 510,
            ;
            lemma_segment_in_grid(dp, cv, -1, k * ps - 1, t);
        }
        let anchor = shift_coords(dp, c1, k * ps - 1);
        let ghost pk1 = poke_positions(q1, view3(anchor), 5);
        let ghost pk2 = poke_positions(q2, view3(anchor), 5);
        proof {
            lemma_all_in_grid_split(pk1, pk2);
        }
        let ghost sm0 = r.samples@;
        let r1 = poke(lookup, q1, anchor, 5);
        let ghost sm1 = r1.samples@;
        let r2 = poke(lookup, q2, anchor, 5);
        let ghost sm2 = r2.samples@;
        r.absorb(r1);
        r.absorb(r2);
        proof {
            lemma_samples_match_concat(
                sm0,
                sm1,
                poke_branch_prefix(dp, cv, ps as int, k as nat),
                pk1,
                mdl,
            );
            lemma_samples_match_concat(
                sm0 + sm1,
                sm2,
                poke_branch_prefix(dp, cv, ps as int, k as nat) + pk1,
                pk2,
                mdl,
            );
            assert(poke_branch_prefix(dp, cv, ps as int, (k + 1) as nat) == poke_branch_prefix(
                dp,
                cv,
                ps as int,
                k as nat,
            ) + poke_pair_positions(dp, cv, ps as int, k as int));
            assert(poke_branch_prefix(dp, cv, ps as int, k as nat) + pk1 + pk2
                =~= poke_branch_prefix(dp, cv, ps as int, k as nat) + (pk1 + pk2));
        }
        k = k + 1;
    }
    let total: i64 = pokes * ps;
    proof {
        assert(total >= 1);
    }
    let rb = branch(lookup, total, dp, c1);
    let ghost smp = r.samples@;
    let ghost smb = rb.samples@;
    r.absorb(rb);
    proof {
        lemma_samples_match_concat(smp, smb, pre, br, mdl);
    }
    r
}

/// Lay one pair of poke-hole branches, one along each direction
/// perpendicular to `d`, each starting one block off `base`.
fn lay_poke_pair<D: ChunkDecoder>(
    lookup: &mut CachingLookup<D>,
    d: Direction,
    base: Coord,
    pokes: i64,
    ps: i64,
) -> (r: AggregateResult)
    requires
        old(lookup).wf(),
        pokes >= 1,
        ps >= 1,
        pokes * ps <= 510,
        base.1 + 1 <= i64::MAX,
        pos_in_grid(view3(base)),
        all_in_grid(poke_pair_branches_positions(d, view3(base), pokes as int, ps as int)),
    ensures
        final(lookup).wf(),
        final(lookup).spec_model() == old(lookup).spec_model(),
        samples_match(
            r.samples@,
            poke_pair_branches_positions(d, view3(base), pokes as int, ps as int),
            old(lookup).spec_model(),
        ),
        r.excavated as int == 2 * poke_branch_excavated(pokes as int, ps as int),
        r.exposed as int == 2 * poke_branch_exposed(pokes as int, ps as int),
{
    let ghost d1s = d.spec_perpendicular_pair().0;
    let ghost d2s = d.spec_perpendicular_pair().1;
    let ghost ps1 = poke_branch_positions(d1s, spec_shift(d1s, view3(base), 1), pokes as int, ps as int);
    let ghost ps2 = poke_branch_positions(d2s, spec_shift(d2s, view3(base), 1), pokes as int, ps as int);
    proof {
        assert(1 <= pokes * ps) by (nonlinear_arith)
            requires
                pokes >= 1,
                ps >= 1,
        ;
        lemma_all_in_grid_split(ps1, ps2);
        let pre1 = poke_branch_prefix(d1s, spec_shift(d1s, view3(base), 1), ps as int, pokes as nat);
        let br1 = branch_positions(d1s, spec_shift(d1s, view3(base), 1), (pokes * ps) as int);
        lemma_all_in_grid_split(pre1, br1);
        assert(pos_in_grid(br1[0]));
        assert(br1[0] == (spec_shift(d1s, view3(base), 1).0, spec_shift(d1s, view3(base), 1).1, spec_shift(d1s, view3(base), 1).2));
        let pre2 = poke_branch_prefix(d2s, spec_shift(d2s, view3(base), 1), ps as int, pokes as nat);
        let br2 = branch_positions(d2s, spec_shift(d2s, view3(base), 1), (pokes * ps) as int);
        lemma_all_in_grid_split(pre2, br2);
        assert(pos_in_grid(br2[0]));
        assert(br2[0] == (spec_shift(d2s, view3(base), 1).0, spec_shift(d2s, view3(base), 1).1, spec_shift(d2s, view3(base), 1).2));
    }
    let (d1, d2) = d.perpendicular_pair();
    let b1 = shift_coords(d1, base, 1);
    proof {
        lemma_shift_add(d1s, view3(base), 1, -1);
        assert(spec_shift(d1s, view3(b1), -1) == spec_shift(d1s, view3(base), 0));
        assert(spec_shift(d1s, view3(base), 0) == view3(base));
    }
    let mut r = poke_branch(lookup, d1, b1, pokes, ps);
    let b2 = shift_coords(d2, base, 1);
    proof {
        lemma_shift_add(d2s, view3(base), 1, -1);
        assert(spec_shift(d2s, view3(b2), -1) == spec_shift(d2s, view3(base), 0));
        assert(spec_shift(d2s, view3(base), 0) == view3(base));
    }
    let r2 = poke_branch(lookup, d2, b2, pokes, ps);
    let ghost sm1 = r.samples@;
    let ghost sm2 = r2.samples@;
    proof {
        assert(pokes <= 510 && ps <= 510) by (nonlinear_arith)
            requires
                pokes >= 1,
                ps >= 1,
                pokes * ps <= 510,
        ;
    }
    r.absorb(r2);
    proof {
        lemma_samples_match_concat(sm1, sm2, ps1, ps2, old(lookup).spec_model());
    }
    r
}



/// Both poke-hole branches of the pair at corridor offset `j * s` lie in
/// the grid whenever the layout's extreme corners do.
pub proof fn lemma_poke_pair_branches_in_grid(
    d: Direction,
    c: (int, int, int),
    p: int,
    pokes: int,
    ps: int,
    s: int,
    j: int,
)
    requires
        bmp_params_ok(p, pokes, ps, s),
        bmp_in_grid(d, c, p, pokes, ps, s),
        0 <= j <= p - 1,
    ensures
        all_in_grid(
            poke_pair_branches_positions(d, spec_shift(d, c, j * s), pokes, ps),
        ),
        pos_in_grid(spec_shift(d, c, j * s)),
{
    let d1 = d.spec_perpendicular_pair().0;
    let d2 = d.spec_perpendicular_pair().1;
    lemma_poke_branch_in_grid(d, d1, c, p, pokes, ps, s, j);
    lemma_poke_branch_in_grid(d, d2, c, p, pokes, ps, s, j);
    let base = spec_shift(d, c, j * s);
    let b1 = poke_branch_positions(d1, spec_shift(d1, base, 1), pokes, ps);
    let b2 = poke_branch_positions(d2, spec_shift(d2, base, 1), pokes, ps);
    let whole = poke_pair_branches_positions(d, base, pokes, ps);
    assert forall|i: int| 0 <= i < whole.len() implies pos_in_grid(#[trigger] whole[i]) by {
        if i < b1.len() {
            assert(whole[i] == b1[i]);
        } else {
            assert(whole[i] == b2[i - b1.len()]);
        }
    }
}

/// Evaluate the branch-mining-with-poke-holes technique: the composition of
/// [`crate::techniques::branch_mining`] with each plain branch replaced by a
/// poke-hole branch. Validation mirrors the plain technique: spacing below
/// 2, or a non-positive pair count, pokes-per-branch or poke spacing, fail
/// with `InvalidParameter` before any lookup access; a layout whose extreme
/// corners leave the shard's chunk grid fails with `OutOfRange`. Either
/// error leaves the lookup untouched.
pub fn branch_mining_with_poke_holes<D: ChunkDecoder>(
    lookup: &mut CachingLookup<D>,
    base_direction: Direction,
    starting_coords: Coord,
    branch_pair_count: u32,
    pokes_per_branch: u32,
    poke_spacing: u32,
    branch_spacing: u32,
) -> (r: Result<AggregateResult, MiningError>)
    requires
        old(lookup).wf(),
        starting_coords.1 - 1 >= i64::MIN,
        starting_coords.1 + 2 <= i64::MAX,
    ensures
        final(lookup).wf(),
        final(lookup).spec_model() == old(lookup).spec_model(),
        (r == Result::<AggregateResult, MiningError>::Err(MiningError::InvalidParameter)
            <==> !bmp_params_ok(
            branch_pair_count as int,
            pokes_per_branch as int,
            poke_spacing as int,
            branch_spacing as int,
        )),
        bmp_params_ok(
            branch_pair_count as int,
            pokes_per_branch as int,
            poke_spacing as int,
            branch_spacing as int,
        ) ==> (r == Result::<AggregateResult, MiningError>::Err(MiningError::OutOfRange)
            <==> !bmp_in_grid(
            base_direction,
            view3(starting_coords),
            branch_pair_count as int,
            pokes_per_branch as int,
            poke_spacing as int,
            branch_spacing as int,
        )),
        (r is Err ==> *final(lookup) == *old(lookup)),
        (r is Ok <==> bmp_params_ok(
            branch_pair_count as int,
            pokes_per_branch as int,
            poke_spacing as int,
            branch_spacing as int,
        ) && bmp_in_grid(
            base_direction,
            view3(starting_coords),
            branch_pair_count as int,
            pokes_per_branch as int,
            poke_spacing as int,
            branch_spacing as int,
        )),
        (r matches Ok(a) ==> samples_match(
            a.samples@,
            branch_mining_with_pokes_positions(
                base_direction,
                view3(starting_coords),
                branch_pair_count as int,
                pokes_per_branch as int,
                poke_spacing as int,
                branch_spacing as int,
            ),
            old(lookup).spec_model(),
        ) && a.excavated as int == branch_mining_with_pokes_excavated(
            branch_pair_count as int,
            pokes_per_branch as int,
            poke_spacing as int,
            branch_spacing as int,
        ) && a.exposed as int == branch_mining_with_pokes_exposed(
            branch_pair_count as int,
            pokes_per_branch as int,
            poke_spacing as int,
            branch_spacing as int,
        )),
{
    let ghost p = branch_pair_count as int;
    let ghost pk = pokes_per_branch as int;
    let ghost psd = poke_spacing as int;
    let ghost s = branch_spacing as int;
    let ghost c0 = view3(starting_coords);
    let ghost mdl = old(lookup).spec_model();
    if branch_spacing < 2 {
        return Err(MiningError::InvalidParameter);
    }
    if branch_pair_count < 1 || pokes_per_branch < 1 || poke_spacing < 1 {
        return Err(MiningError::InvalidParameter);
    }
    let ghost d1g = base_direction.spec_perpendicular_pair().0;
    if !col_in_grid(starting_coords) {
        return Err(MiningError::OutOfRange);
    }
    if pokes_per_branch > 510 || poke_spacing > 510 {
        proof {
            if bmp_in_grid(base_direction, c0, p, pk, psd, s) {
                assert(pk * psd >= 511) by (nonlinear_arith)
                    requires
                        pk >= 1,
                        psd >= 1,
                        pk >= 511 || psd >= 511,
                ;
                lemma_offset_bound(d1g, c0, pk * psd + 1);
            }
        }
        return Err(MiningError::OutOfRange);
    }
    let p64: i64 = branch_pair_count as i64;
    let pk64: i64 = pokes_per_branch as i64;
    let ps64: i64 = poke_spacing as i64;
    let s64: i64 = branch_spacing as i64;
    proof {
        assert(pk64 * ps64 <= 510 * 510) by (nonlinear_arith)
            requires
                1 <= pk64 <= 510,
                1 <= ps64 <= 510,
        ;
    }
    let t64: i64 = pk64 * ps64;
    if t64 > 510 {
        proof {
            if bmp_in_grid(base_direction, c0, p, pk, psd, s) {
                lemma_offset_bound(d1g, c0, pk * psd + 1);
            }
        }
        return Err(MiningError::OutOfRange);
    }
    let far_off: i64 = match (p64 - 1).checked_mul(s64) {
        Some(v) => v,
        None => {
            proof {
                if bmp_in_grid(base_direction, c0, p, pk, psd, s) {
                    assert((p - 1) * s >= 0) by (nonlinear_arith)
                        requires
                            p >= 1,
                            s >= 2,
                    ;
                    lemma_offset_bound(base_direction, c0, (p - 1) * s);
                }
            }
            return Err(MiningError::OutOfRange);
        },
    };
    let (d1, d2) = base_direction.perpendicular_pair();
    let far = match checked_shift(base_direction, starting_coords, far_off) {
        Some(f) => f,
        None => {
            return Err(MiningError::OutOfRange);
        },
    };
    if !col_in_grid(far) {
        return Err(MiningError::OutOfRange);
    }
    let back5 = match checked_shift(base_direction, starting_coords, -5) {
        Some(f) => f,
        None => {
            return Err(MiningError::OutOfRange);
        },
    };
    let far5 = match checked_shift(base_direction, far, 5) {
        Some(f) => f,
        None => {
            return Err(MiningError::OutOfRange);
        },
    };
    let e1 = match checked_shift(d1, starting_coords, t64 + 1) {
        Some(f) => f,
        None => {
            return Err(MiningError::OutOfRange);
        },
    };
    let e2 = match checked_shift(d2, starting_coords, t64 + 1) {
        Some(f) => f,
        None => {
            return Err(MiningError::OutOfRange);
        },
    };
    let e3 = match checked_shift(d1, far, t64 + 1) {
        Some(f) => f,
        None => {
            return Err(MiningError::OutOfRange);
        },
    };
    let e4 = match checked_shift(d2, far, t64 + 1) {
        Some(f) => f,
        None => {
            return Err(MiningError::OutOfRange);
        },
    };
    if !col_in_grid(back5) || !col_in_grid(far5) || !col_in_grid(e1) || !col_in_grid(e2)
        || !col_in_grid(e3) || !col_in_grid(e4) {
        return Err(MiningError::OutOfRange);
    }
    proof {
        assert(bmp_in_grid(base_direction, c0, p, pk, psd, s));
        assert((p - 1) * s >= 0) by (nonlinear_arith)
            requires
                p >= 1,
                s >= 2,
        ;
        lemma_offset_bound(base_direction, c0, (p - 1) * s);
        if p >= 2 {
            assert(s <= 511 && p - 1 <= 255) by (nonlinear_arith)
                requires
                    (p - 1) * s <= 511,
                    p >= 2,
                    s >= 2,
            ;
        }
        lemma_poke_pair_branches_in_grid(base_direction, c0, p, pk, psd, s, 0);
        assert(spec_shift(base_direction, c0, 0) == c0);
    }
    let mut acc = lay_poke_pair(lookup, base_direction, starting_coords, pk64, ps64);
    let mut n: i64 = 0;
    while n < p64 - 1
        invariant
            0 <= n <= p64 - 1,
            p == p64 as int,
            pk == pk64 as int,
            psd == ps64 as int,
            s == s64 as int,
            bmp_params_ok(p, pk, psd, s),
            bmp_in_grid(base_direction, c0, p, pk, psd, s),
            c0 == view3(starting_coords),
            starting_coords.1 - 1 >= i64::MIN,
            starting_coords.1 + 2 <= i64::MAX,
            1 <= pk64 <= 510,
            1 <= ps64 <= 510,
            pk64 * ps64 <= 510,
            p64 >= 2 ==> s <= 511 && p <= 256,
            lookup.wf(),
            lookup.spec_model() == mdl,
            mdl == old(lookup).spec_model(),
            samples_match(
                acc.samples@,
                bmp_prefix_positions(base_direction, c0, pk, psd, s, n as nat),
                mdl,
            ),
            acc.excavated as int == (n + 1) * (2 * poke_branch_excavated(pk, psd)) + n
                * corridor_excavated(s),
            acc.exposed as int == (n + 1) * (2 * poke_branch_exposed(pk, psd)) + n
                * corridor_exposed(s),
        decreases p64 - 1 - n,
    {
        proof {
            lemma_corridor_at_in_grid(base_direction, c0, p, s, n as int);
            assert(n * s64 == (n as int) * s) by (nonlinear_arith)
                requires
                    s == s64 as int,
            ;
            assert(0 <= n * s64 <= 255 * 511) by (nonlinear_arith)
                requires
                    0 <= n <= 255,
                    2 <= s64 <= 511,
            ;
        }
        let cbase = shift_coords(base_direction, starting_coords, n * s64);
        let rc = expand_corridor(lookup, base_direction, s64, cbase);
        let ghost sm_a = acc.samples@;
        let ghost sm_c = rc.samples@;
        proof {
            assert(0 <= 2 * poke_branch_excavated(pk, psd) <= 13000 && 0 <= 2
                * poke_branch_exposed(pk, psd) <= 35000);
            assert((n + 1) * (2 * poke_branch_excavated(pk, psd)) + n * corridor_excavated(s)
                + corridor_excavated(s) + 2 * poke_branch_excavated(pk, psd) <= 0xffffffff)
                by (nonlinear_arith)
                requires
                    0 <= n <= 255,
                    0 <= 2 * poke_branch_excavated(pk, psd) <= 13000,
                    0 <= corridor_excavated(s) <= 2100,
            ;
            assert((n + 1) * (2 * poke_branch_exposed(pk, psd)) + n * corridor_exposed(s)
                + corridor_exposed(s) + 2 * poke_branch_exposed(pk, psd) <= 0xffffffff)
                by (nonlinear_arith)
                requires
                    0 <= n <= 255,
                    0 <= 2 * poke_branch_exposed(pk, psd) <= 35000,
                    0 <= corridor_exposed(s) <= 4200,
            ;
        }
        acc.absorb(rc);
        proof {
            lemma_samples_match_concat(
                sm_a,
                sm_c,
                bmp_prefix_positions(base_direction, c0, pk, psd, s, n as nat),
                corridor_positions(
                    base_direction,
                    spec_shift(base_direction, c0, (n as int) * s),
                    s,
                ),
                mdl,
            );
            lemma_poke_pair_branches_in_grid(base_direction, c0, p, pk, psd, s, n as int + 1);
            assert((n + 1) * s64 == (n as int + 1) * s) by (nonlinear_arith)
                requires
                    s == s64 as int,
            ;
            assert(0 <= (n + 1) * s64 <= 256 * 511) by (nonlinear_arith)
                requires
                    0 <= n + 1 <= 256,
                    2 <= s64 <= 511,
            ;
        }
        let pbase = shift_coords(base_direction, starting_coords, (n + 1) * s64);
        let rp = lay_poke_pair(lookup, base_direction, pbase, pk64, ps64);
        let ghost sm_b = acc.samples@;
        let ghost sm_p = rp.samples@;
        acc.absorb(rp);
        proof {
            lemma_samples_match_concat(
                sm_b,
                sm_p,
                bmp_prefix_positions(base_direction, c0, pk, psd, s, n as nat)
                    + corridor_positions(
                    base_direction,
                    spec_shift(base_direction, c0, (n as int) * s),
                    s,
                ),
                poke_pair_branches_positions(
                    base_direction,
                    spec_shift(base_direction, c0, (n as int + 1) * s),
                    pk,
                    psd,
                ),
                mdl,
            );
            assert(((n + 1) + 1) * (2 * poke_branch_excavated(pk, psd)) + (n + 1)
                * corridor_excavated(s) == (n + 1) * (2 * poke_branch_excavated(pk, psd)) + n
                * corridor_excavated(s) + corridor_excavated(s) + 2 * poke_branch_excavated(
                pk,
                psd,
            )) by (nonlinear_arith);
            assert(((n + 1) + 1) * (2 * poke_branch_exposed(pk, psd)) + (n + 1) * corridor_exposed(
                s,
            ) == (n + 1) * (2 * poke_branch_exposed(pk, psd)) + n * corridor_exposed(s)
                + corridor_exposed(s) + 2 * poke_branch_exposed(pk, psd)) by (nonlinear_arith);
        }
        n = n + 1;
    }
    proof {
        assert(n == p64 - 1);
        assert((p - 1 + 1) * (2 * poke_branch_excavated(pk, psd)) + (p - 1) * corridor_excavated(s)
            == p * (2 * poke_branch_excavated(pk, psd)) + (p - 1) * corridor_excavated(s))
            by (nonlinear_arith);
        assert((p - 1 + 1) * (2 * poke_branch_exposed(pk, psd)) + (p - 1) * corridor_exposed(s)
            == p * (2 * poke_branch_exposed(pk, psd)) + (p - 1) * corridor_exposed(s))
            by (nonlinear_arith);
    }
    Ok(acc)
}

} // verus!
