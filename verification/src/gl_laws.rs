//! Laws on two runs of the global localizer, where equal arguments give equal
//! results.
use vstd::prelude::*;

use crate::global_loc::{
    free_places, is_dispersed, is_dispersed_by, is_inside, is_pick, is_top, is_unit_draw,
    law_top_is_lowest, score_ranks, CpuGlobalLoc, OccGrid, PoseHypothesis,
};
use crate::num::{at_most, is_nan, Num};
use crate::numerics::Numerics;
use crate::ranking::{is_order, law_ranking_is_unique};
use crate::ray_laws::law_caer_repeats;
use crate::repeat::scalars_repeat;
use crate::rng::xorshift_after;

verus! {

proof fn lemma_unit_draw_repeats<K: Numerics>(s: u64, u: Num, v: Num)
    requires
        scalars_repeat::<K>(),
        is_unit_draw::<K>(s, u),
        is_unit_draw::<K>(s, v),
    ensures
        u == v,
{
}

proof fn lemma_inside_repeats<K: Numerics>(o: Num, res: Num, c: u64, u: Num, x: Num, y: Num)
    requires
        scalars_repeat::<K>(),
        is_inside::<K>(o, res, c, u, x),
        is_inside::<K>(o, res, c, u, y),
    ensures
        x == y,
{
}

proof fn lemma_pick_repeats<K: Numerics>(free: Seq<int>, u: Num, p: int, q: int)
    requires
        scalars_repeat::<K>(),
        is_pick::<K>(free, u, p),
        is_pick::<K>(free, u, q),
    ensures
        p == q,
{
}

proof fn lemma_dispersed_repeats<K: Numerics>(
    g: &OccGrid,
    s: u64,
    h: (Num, Num, Num),
    k: (Num, Num, Num),
)
    requires
        scalars_repeat::<K>(),
        is_dispersed::<K>(g, s, h),
        is_dispersed::<K>(g, s, k),
    ensures
        h == k,
{
    let (u, p, ux, uy, ut, t) = choose|u: Num, p: int, ux: Num, uy: Num, ut: Num, t: Num|
        is_dispersed_by::<K>(g, s, h, u, p, ux, uy, ut, t);
    let (u2, p2, ux2, uy2, ut2, t2) = choose|u: Num, p: int, ux: Num, uy: Num, ut: Num, t: Num|
        is_dispersed_by::<K>(g, s, k, u, p, ux, uy, ut, t);
    lemma_unit_draw_repeats::<K>(xorshift_after(s, 1), u, u2);
    lemma_pick_repeats::<K>(free_places(g.cells@), u, p, p2);
    lemma_unit_draw_repeats::<K>(xorshift_after(s, 2), ux, ux2);
    lemma_inside_repeats::<K>(g.origin.x, g.res, (p % g.w as int) as u64, ux, h.0, k.0);
    lemma_unit_draw_repeats::<K>(xorshift_after(s, 3), uy, uy2);
    lemma_inside_repeats::<K>(g.origin.y, g.res, (p / g.w as int) as u64, uy, h.1, k.1);
    lemma_unit_draw_repeats::<K>(xorshift_after(s, 4), ut, ut2);
}

/// Two localizers that differ at most in how many hypotheses they disperse
/// and keep.
pub open spec fn are_alike(a: &CpuGlobalLoc, b: &CpuGlobalLoc) -> bool {
    &&& a.grid == b.grid
    &&& a.params.seed == b.params.seed
    &&& a.params.rmax == b.params.rmax
    &&& a.params.ang_span == b.params.ang_span
}

/// The hypotheses of the smaller dispersion are the first of the larger one.
pub proof fn law_dispersions_agree<K: Numerics>(
    a: &CpuGlobalLoc,
    b: &CpuGlobalLoc,
    scan: Seq<Num>,
    sa: Seq<PoseHypothesis>,
    sb: Seq<PoseHypothesis>,
)
    requires
        scalars_repeat::<K>(),
        are_alike(a, b),
        a.params.hypotheses <= b.params.hypotheses,
        a.is_scored::<K>(scan, sa),
        b.is_scored::<K>(scan, sb),
    ensures
        sa == sb.take(sa.len() as int),
{
    assert forall|i: int| 0 <= i < sa.len() implies sa[i] == sb[i] by {
        assert(a.is_scored_at::<K>(scan, i, sa[i]));
        assert(b.is_scored_at::<K>(scan, i, sb[i]));
        let p = choose|p: (Num, Num, Num)| #[trigger]
            is_dispersed::<K>(&a.grid, a.state_before(i), p) && a.is_scored_pose::<K>(
                scan,
                p,
                sa[i],
            );
        let q = choose|p: (Num, Num, Num)| #[trigger]
            is_dispersed::<K>(&b.grid, b.state_before(i), p) && b.is_scored_pose::<K>(
                scan,
                p,
                sb[i],
            );
        lemma_dispersed_repeats::<K>(&a.grid, a.state_before(i), p, q);
        law_caer_repeats::<K>(
            &a.grid,
            scan,
            sa[i].x,
            sa[i].y,
            sa[i].theta,
            a.params.ang_span,
            a.params.rmax,
            sa[i].caer,
            sb[i].caer,
        );
    }
    assert(sa =~= sb.take(sa.len() as int));
}

/// Keeping fewer of the same hypotheses keeps the first of them.
pub proof fn law_fewer_kept_are_first(
    scored: Seq<PoseHypothesis>,
    k: nat,
    m: nat,
    top: Seq<PoseHypothesis>,
    more: Seq<PoseHypothesis>,
)
    requires
        scored.len() <= usize::MAX,
        k <= m,
        is_top(scored, k, top),
        is_top(scored, m, more),
    ensures
        top.len() <= more.len(),
        top == more.take(top.len() as int),
{
    let keys = score_ranks(scored);
    let a = choose|order: Seq<usize>|
        {
            &&& #[trigger] is_order(keys, 0, scored.len() as int, order)
            &&& top.len() == (if k < scored.len() {
                k
            } else {
                scored.len()
            })
            &&& forall|i: int| 0 <= i < top.len() ==> #[trigger] top[i] == scored[order[i] as int]
        };
    let b = choose|order: Seq<usize>|
        {
            &&& #[trigger] is_order(keys, 0, scored.len() as int, order)
            &&& more.len() == (if m < scored.len() {
                m
            } else {
                scored.len()
            })
            &&& forall|i: int| 0 <= i < more.len() ==> #[trigger] more[i] == scored[order[i] as int]
        };
    law_ranking_is_unique(keys, a, b);
    assert(top =~= more.take(top.len() as int));
}

/// With equal numbers of hypotheses, what a localizer with a smaller `topk`
/// returns is the start of what the other one returns.
pub proof fn law_smaller_topk_is_a_prefix<K: Numerics>(
    a: &CpuGlobalLoc,
    b: &CpuGlobalLoc,
    scan: Seq<Num>,
    sa: Seq<PoseHypothesis>,
    sb: Seq<PoseHypothesis>,
    ta: Seq<PoseHypothesis>,
    tb: Seq<PoseHypothesis>,
)
    requires
        scalars_repeat::<K>(),
        are_alike(a, b),
        a.params.hypotheses == b.params.hypotheses,
        a.params.topk <= b.params.topk,
        a.is_scored::<K>(scan, sa),
        b.is_scored::<K>(scan, sb),
        is_top(sa, a.params.topk as nat, ta),
        is_top(sb, b.params.topk as nat, tb),
    ensures
        ta.len() <= tb.len(),
        ta == tb.take(ta.len() as int),
{
    law_dispersions_agree::<K>(a, b, scan, sa, sb);
    assert(sb.take(sa.len() as int) =~= sb);
    law_fewer_kept_are_first(sa, a.params.topk as nat, b.params.topk as nat, ta, tb);
}

/// More hypotheses never raise the best score.
pub proof fn law_more_hypotheses_never_raise<K: Numerics>(
    a: &CpuGlobalLoc,
    b: &CpuGlobalLoc,
    scan: Seq<Num>,
    sa: Seq<PoseHypothesis>,
    sb: Seq<PoseHypothesis>,
    ta: Seq<PoseHypothesis>,
    tb: Seq<PoseHypothesis>,
)
    requires
        scalars_repeat::<K>(),
        are_alike(a, b),
        1 <= a.params.hypotheses <= b.params.hypotheses,
        a.params.topk >= 1,
        b.params.topk >= 1,
        a.is_scored::<K>(scan, sa),
        b.is_scored::<K>(scan, sb),
        forall|i: int| 0 <= i < sb.len() ==> !is_nan(#[trigger] sb[i].caer),
        is_top(sa, a.params.topk as nat, ta),
        is_top(sb, b.params.topk as nat, tb),
    ensures
        ta.len() >= 1,
        tb.len() >= 1,
        at_most(tb[0].caer, ta[0].caer),
{
    law_dispersions_agree::<K>(a, b, scan, sa, sb);
    assert forall|i: int| 0 <= i < sa.len() implies !is_nan(#[trigger] sa[i].caer) by {
        assert(sa[i] == sb[i]);
    }
    law_top_is_lowest(sa, a.params.topk as nat, ta);
    law_top_is_lowest(sb, b.params.topk as nat, tb);
    assert(sa.contains(ta[0]));
    let p = choose|p: int| 0 <= p < sa.len() && sa[p] == ta[0];
    assert(sb[p] == ta[0]);
    let kept = choose|kept: Set<int>|
        {
            &&& kept.finite()
            &&& kept.len() == tb.len()
            &&& forall|p: int| #[trigger]
                kept.contains(p) ==> 0 <= p < sb.len() && tb.contains(sb[p])
            &&& forall|p: int, i: int|
                0 <= p < sb.len() && !(#[trigger] kept.contains(p)) && 0 <= i < tb.len()
                    ==> at_most(#[trigger] tb[i].caer, sb[p].caer)
        };
    if kept.contains(p) {
        let i = choose|i: int| 0 <= i < tb.len() && tb[i] == sb[p];
        if i > 0 {
            assert(at_most(tb[0].caer, tb[i].caer));
        } else {
            assert(!is_nan(sb[p].caer));
        }
    } else {
        assert(at_most(tb[0].caer, sb[p].caer));
    }
}

} // verus!
