//! Global localization over an occupancy grid: disperse pose hypotheses,
//! raycast virtual map-scans, score CAER = sum |real - virtual|, keep the
//! hypotheses with the lowest scores.
use vstd::prelude::*;

use crate::num::{at_most, is_nan, num, rank, Num, MILLION, MINUS_PI, TAU, TEN};
use crate::numerics::{
    from_single, from_u64, is_from_single, is_from_u64, is_product, is_quotient, is_sum,
    is_to_index, is_to_single, product, quotient, sum, to_index, to_single, Numerics,
};
use crate::par::par_map;
use crate::ranking::{is_order, precedes, ranking};
use crate::rng::{xorshift_after, xorshift_step};

pub use crate::grid::OccGrid;

verus! {

/// A scored pose hypothesis.
#[derive(Debug, Clone, Copy, PartialEq)]
pub struct PoseHypothesis {
    pub x: Num,
    pub y: Num,
    pub theta: Num,
    pub caer: Num,
}

/// Parameters shared by the backends.
#[derive(Debug, Clone)]
pub struct GlParams {
    /// Number of hypotheses dispersed per localize() call.
    pub hypotheses: usize,
    /// Rays per virtual scan.
    pub rays: usize,
    /// Max range [m].
    pub rmax: Num,
    /// Sensor angular span [rad]; PI = frontal, TAU = panoramic.
    pub ang_span: Num,
    /// Number of top hypotheses returned.
    pub topk: usize,
    /// RNG seed.
    pub seed: u64,
}

impl Default for GlParams {
    fn default() -> (r: Self)
        ensures
            r == (GlParams {
                hypotheses: 50_000,
                rays: 360,
                rmax: num(TEN),
                ang_span: num(TAU),
                topk: 10,
                seed: 42,
            }),
    {
        GlParams {
            hypotheses: 50_000,
            rays: 360,
            rmax: num(TEN),
            ang_span: num(TAU),
            topk: 10,
            seed: 42,
        }
    }
}

/// The places of the free cells, in order.
pub open spec fn free_places(cells: Seq<u8>) -> Seq<int>
    decreases cells.len(),
{
    if cells.len() == 0 {
        seq![]
    } else if cells.last() == 0 {
        free_places(cells.drop_last()).push(cells.len() - 1)
    } else {
        free_places(cells.drop_last())
    }
}

/// The free places are the places of the free cells, from the first to the
/// last, each once.
pub proof fn law_free_places(cells: Seq<u8>)
    ensures
        forall|k: int|
            0 <= k < free_places(cells).len() ==> 0 <= #[trigger] free_places(cells)[k]
                < cells.len() && cells[free_places(cells)[k]] == 0,
        forall|k: int, l: int|
            0 <= k < l < free_places(cells).len() ==> #[trigger] free_places(cells)[k]
                < #[trigger] free_places(cells)[l],
        forall|i: int| 0 <= i < cells.len() && cells[i] == 0 ==> #[trigger] free_places(cells).contains(i),
    decreases cells.len(),
{
    if cells.len() > 0 {
        let rest = cells.drop_last();
        law_free_places(rest);
        let f = free_places(cells);
        let g = free_places(rest);
        assert forall|i: int| 0 <= i < cells.len() && cells[i] == 0 implies #[trigger] f.contains(i) by {
            if i < rest.len() {
                assert(rest[i] == 0);
                assert(g.contains(i));
                let k = choose|k: int| 0 <= k < g.len() && g[k] == i;
                assert(f[k] == i);
            } else {
                assert(f[f.len() - 1] == i);
            }
        }
    }
}

/// `u` is the uniform draw in [0, 1) that a generator state gives.
pub open spec fn is_unit_draw<K: Numerics>(state: u64, u: Num) -> bool {
    exists|n: Num|
        #[trigger] is_from_u64::<K>(state % 1_000_000, n) && is_quotient::<K>(n, num(MILLION), u)
}

fn unit_draw<K: Numerics>(state: u64) -> (u: Num)
    ensures
        is_unit_draw::<K>(state, u),
{
    let n = from_u64::<K>(state % 1_000_000);
    let u = quotient::<K>(n, num(MILLION));
    assert(is_from_u64::<K>(state % 1_000_000, n) && is_quotient::<K>(n, num(MILLION), u));
    u
}

/// `x` lies in the cell `cell` of an axis, the fraction `u` into it.
pub open spec fn is_inside<K: Numerics>(origin: Num, res: Num, cell: u64, u: Num, x: Num) -> bool {
    exists|c: Num, f: Num, m: Num|
        {
            &&& is_from_u64::<K>(cell, c)
            &&& #[trigger] is_sum::<K>(c, u, f)
            &&& #[trigger] is_product::<K>(f, res, m)
            &&& is_sum::<K>(origin, m, x)
        }
}

fn inside<K: Numerics>(origin: Num, res: Num, cell: u64, u: Num) -> (x: Num)
    ensures
        is_inside::<K>(origin, res, cell, u, x),
{
    let c = from_u64::<K>(cell);
    let f = sum::<K>(c, u);
    let m = product::<K>(f, res);
    sum::<K>(origin, m)
}

/// `place` is the free place that the draw `u` picks.
pub open spec fn is_pick<K: Numerics>(free: Seq<int>, u: Num, place: int) -> bool {
    exists|count: Num, scaled: Num, k: usize|
        {
            &&& is_from_u64::<K>(free.len() as u64, count)
            &&& #[trigger] is_product::<K>(u, count, scaled)
            &&& #[trigger] is_to_index::<K>(scaled, k)
            &&& place == free[if k < free.len() {
                k as int
            } else {
                free.len() - 1
            }]
        }
}

/// `h` is the pose that four draws from the state `s` on disperse over the free
/// cells.
pub open spec fn is_dispersed<K: Numerics>(grid: &OccGrid, s: u64, h: (Num, Num, Num)) -> bool {
    exists|u: Num, place: int, ux: Num, uy: Num, ut: Num, turn: Num|
        is_dispersed_by::<K>(grid, s, h, u, place, ux, uy, ut, turn)
}

/// `h` comes from the draws `u`, `ux`, `uy` and `ut`: a free place, a point in
/// its cell, and a heading.
pub open spec fn is_dispersed_by<K: Numerics>(
    grid: &OccGrid,
    s: u64,
    h: (Num, Num, Num),
    u: Num,
    place: int,
    ux: Num,
    uy: Num,
    ut: Num,
    turn: Num,
) -> bool {
    &&& is_unit_draw::<K>(xorshift_after(s, 1), u)
    &&& is_pick::<K>(free_places(grid.cells@), u, place)
    &&& is_unit_draw::<K>(xorshift_after(s, 2), ux)
    &&& is_inside::<K>(grid.origin.x, grid.res, (place % grid.w as int) as u64, ux, h.0)
    &&& is_unit_draw::<K>(xorshift_after(s, 3), uy)
    &&& is_inside::<K>(grid.origin.y, grid.res, (place / grid.w as int) as u64, uy, h.1)
    &&& is_unit_draw::<K>(xorshift_after(s, 4), ut)
    &&& is_product::<K>(ut, num(TAU), turn)
    &&& is_sum::<K>(num(MINUS_PI), turn, h.2)
}

/// The integers by which hypotheses are ranked.
pub open spec fn score_ranks(scored: Seq<PoseHypothesis>) -> Seq<i64> {
    scored.map_values(|h: PoseHypothesis| rank(h.caer) as i64)
}

/// Two scores or more, and one of them a NaN: there is no order to keep.
pub open spec fn is_unrankable(scored: Seq<PoseHypothesis>) -> bool {
    scored.len() > 1 && exists|i: int| 0 <= i < scored.len() && is_nan(#[trigger] scored[i].caer)
}

/// `top` holds the first `k` hypotheses by ascending score, equal scores in
/// their order: all of them where there are fewer.
pub open spec fn is_top(scored: Seq<PoseHypothesis>, k: nat, top: Seq<PoseHypothesis>) -> bool {
    exists|order: Seq<usize>|
        {
            &&& #[trigger] is_order(score_ranks(scored), 0, scored.len() as int, order)
            &&& top.len() == (if k < scored.len() {
                k
            } else {
                scored.len()
            })
            &&& forall|i: int| 0 <= i < top.len() ==> #[trigger] top[i] == scored[order[i] as int]
        }
}

/// What is kept is ascending by score, and no hypothesis left out scores lower
/// than one that is kept.
pub proof fn law_top_is_lowest(scored: Seq<PoseHypothesis>, k: nat, top: Seq<PoseHypothesis>)
    requires
        scored.len() <= usize::MAX,
        is_top(scored, k, top),
        forall|i: int| 0 <= i < scored.len() ==> !is_nan(#[trigger] scored[i].caer),
    ensures
        forall|i: int, j: int|
            0 <= i < j < top.len() ==> at_most(#[trigger] top[i].caer, #[trigger] top[j].caer),
        forall|i: int| 0 <= i < top.len() ==> scored.contains(#[trigger] top[i]),
        exists|kept: Set<int>|
            {
                &&& kept.finite()
                &&& kept.len() == top.len()
                &&& forall|p: int| #[trigger]
                    kept.contains(p) ==> 0 <= p < scored.len() && top.contains(scored[p])
                &&& forall|p: int, i: int|
                    0 <= p < scored.len() && !(#[trigger] kept.contains(p)) && 0 <= i < top.len()
                        ==> at_most(#[trigger] top[i].caer, scored[p].caer)
            },
{
    let keys = score_ranks(scored);
    let n = scored.len() as int;
    let order = choose|order: Seq<usize>|
        {
            &&& #[trigger] is_order(keys, 0, n, order)
            &&& top.len() == (if k < scored.len() {
                k
            } else {
                scored.len()
            })
            &&& forall|i: int| 0 <= i < top.len() ==> #[trigger] top[i] == scored[order[i] as int]
        };
    assert forall|i: int, j: int| 0 <= i < j < n implies at_most(
        scored[#[trigger] order[i] as int].caer,
        scored[#[trigger] order[j] as int].caer,
    ) by {
        assert(precedes(keys, order[i], order[j]));
        lemma_rank_fits(scored[order[i] as int].caer);
        lemma_rank_fits(scored[order[j] as int].caer);
    }
    assert forall|i: int| 0 <= i < top.len() implies scored.contains(#[trigger] top[i]) by {
        assert(scored[order[i] as int] == top[i]);
    }
    let kept = Set::new(
        |p: int| exists|i: int| 0 <= i < top.len() && p == #[trigger] order[i] as int,
    );
    lemma_prefix_set(keys, n, order, top.len());
    assert(kept =~= prefix_set(order, top.len()));
    assert forall|p: int| #[trigger] kept.contains(p) implies 0 <= p < n && top.contains(
        scored[p],
    ) by {
        let i = choose|i: int| 0 <= i < top.len() && p == #[trigger] order[i] as int;
        assert(top[i] == scored[p]);
    }
    assert forall|p: int, i: int|
        0 <= p < n && !(#[trigger] kept.contains(p)) && 0 <= i < top.len() implies at_most(
        #[trigger] top[i].caer,
        scored[p].caer,
    ) by {
        assert(order.contains(p as usize));
        let j = choose|j: int| 0 <= j < order.len() && order[j] == p as usize;
        assert(j >= top.len());
        assert(top[i] == scored[order[i] as int]);
    }
}

proof fn lemma_rank_fits(x: Num)
    ensures
        rank(x) as i64 == rank(x),
{
}

/// The first `n` places of an order.
spec fn prefix_set(order: Seq<usize>, n: nat) -> Set<int>
    decreases n,
{
    if n == 0 {
        Set::empty()
    } else {
        prefix_set(order, (n - 1) as nat).insert(order[n - 1] as int)
    }
}

proof fn lemma_prefix_set(keys: Seq<i64>, len: int, order: Seq<usize>, n: nat)
    requires
        is_order(keys, 0, len, order),
        n <= order.len(),
    ensures
        prefix_set(order, n).finite(),
        prefix_set(order, n).len() == n,
        forall|p: int| #[trigger]
            prefix_set(order, n).contains(p) <==> exists|i: int|
                0 <= i < n && p == #[trigger] order[i] as int,
    decreases n,
{
    if n > 0 {
        let m = (n - 1) as nat;
        lemma_prefix_set(keys, len, order, m);
        assert(!prefix_set(order, m).contains(order[n - 1] as int)) by {
            if prefix_set(order, m).contains(order[n - 1] as int) {
                let i = choose|i: int|
                    0 <= i < m && order[n - 1] as int == #[trigger] order[i] as int;
                assert(precedes(keys, order[i], order[n - 1]));
            }
        }
        assert forall|p: int| #[trigger] prefix_set(order, n).contains(p) implies exists|i: int|
            0 <= i < n && p == #[trigger] order[i] as int by {
            if p == order[n - 1] as int {
            } else {
                assert(prefix_set(order, m).contains(p));
            }
        }
        assert forall|p: int|
            (exists|i: int| 0 <= i < n && p == #[trigger] order[i] as int) implies #[trigger] prefix_set(
            order,
            n,
        ).contains(p) by {
            let i = choose|i: int| 0 <= i < n && p == #[trigger] order[i] as int;
            if i < m {
                assert(prefix_set(order, m).contains(p));
            }
        }
    }
}

/// The hypotheses to keep: none where a NaN leaves no order.
pub fn keep_top(scored: &Vec<PoseHypothesis>, topk: usize) -> (r: Option<Vec<PoseHypothesis>>)
    ensures
        match r {
            None => is_unrankable(scored@),
            Some(top) => !is_unrankable(scored@) && is_top(scored@, topk as nat, top@),
        },
{
    let n = scored.len();
    let mut keys: Vec<i64> = Vec::new();
    for i in 0..n
        invariant
            n == scored@.len(),
            keys@.len() == i,
            forall|j: int| 0 <= j < i ==> #[trigger] keys@[j] == rank(scored@[j].caer),
            n > 1 ==> forall|j: int| 0 <= j < i ==> !is_nan(#[trigger] scored@[j].caer),
    {
        if n > 1 && scored[i].caer.is_nan() {
            assert(is_nan(scored@[i as int].caer));
            return None;
        }
        keys.push(scored[i].caer.rank());
    }
    assert(keys@ == score_ranks(scored@)) by {
        assert forall|j: int| 0 <= j < n implies keys@[j] == score_ranks(scored@)[j] by {
            lemma_rank_fits(scored@[j].caer);
        }
    }
    let order = ranking(&keys);
    let kept: usize = if topk < n {
        topk
    } else {
        n
    };
    let mut top: Vec<PoseHypothesis> = Vec::new();
    for i in 0..kept
        invariant
            kept <= n,
            n == scored@.len(),
            is_order(keys@, 0, n as int, order@),
            top@.len() == i,
            forall|j: int| 0 <= j < i ==> #[trigger] top@[j] == scored@[order@[j] as int],
    {
        let p = order[i];
        top.push(scored[p]);
    }
    assert(is_order(score_ranks(scored@), 0, scored@.len() as int, order@));
    Some(top)
}

/// `h` is the `i`th pose with its CAER.
spec fn is_scored_item<K: Numerics>(
    loc: &CpuGlobalLoc,
    real_scan: Seq<Num>,
    poses: Seq<(Num, Num, Num)>,
    i: usize,
    h: PoseHypothesis,
) -> bool {
    loc.is_scored_pose::<K>(real_scan, poses[i as int], h)
}

/// Parallel CPU localizer.
pub struct CpuGlobalLoc {
    pub grid: OccGrid,
    pub params: GlParams,
}

impl CpuGlobalLoc {
    pub fn new(grid: OccGrid, params: GlParams) -> (r: Self)
        ensures
            r.grid == grid,
            r.params == params,
    {
        CpuGlobalLoc { grid, params }
    }

    /// The grid is whole and has a free cell.
    pub open spec fn wf(&self) -> bool {
        self.grid.wf() && exists|i: int|
            0 <= i < self.grid.cells@.len() && self.grid.cells@[i] == 0
    }

    /// The generator state before the `i`th hypothesis: four draws for each.
    pub open spec fn state_before(&self, i: int) -> u64 {
        xorshift_after(self.params.seed | 1, (4 * i) as nat)
    }

    /// Uniform dispersion of the hypotheses over the free cells.
    fn disperse<K: Numerics>(&self) -> (hyps: Vec<(Num, Num, Num)>)
        requires
            self.wf(),
        ensures
            hyps@.len() == self.params.hypotheses,
            forall|i: int|
                0 <= i < hyps@.len() ==> is_dispersed::<K>(
                    &self.grid,
                    self.state_before(i),
                    #[trigger] hyps@[i],
                ),
    {
        let total = self.grid.cells.len();
        let w = self.grid.w;
        let ghost cells = self.grid.cells@;
        let mut free: Vec<usize> = Vec::new();
        for i in 0..total
            invariant
                total == cells.len(),
                cells == self.grid.cells@,
                free@.map_values(|p: usize| p as int) == free_places(cells.take(i as int)),
        {
            assert(cells.take(i + 1).drop_last() == cells.take(i as int));
            let ghost before = free@;
            if self.grid.cells[i] == 0 {
                free.push(i);
                assert(free@.map_values(|p: usize| p as int) == before.map_values(
                    |p: usize| p as int,
                ).push(i as int));
            }
        }
        assert(cells.take(total as int) == cells);
        let ghost places = free_places(cells);
        proof {
            law_free_places(cells);
            let i = choose|i: int| 0 <= i < cells.len() && cells[i] == 0;
            assert(places.contains(i));
            assert(places.len() == free@.len());
            assert(w > 0) by (nonlinear_arith)
                requires
                    0 <= i < w * self.grid.h,
                    0 <= w,
                    0 <= self.grid.h,
            ;
        }
        let mut s: u64 = self.params.seed | 1;
        let mut out: Vec<(Num, Num, Num)> = Vec::new();
        for i in 0..self.params.hypotheses
            invariant
                w > 0,
                w == self.grid.w,
                cells == self.grid.cells@,
                places == free_places(cells),
                places == free@.map_values(|p: usize| p as int),
                free@.len() > 0,
                s == self.state_before(i as int),
                out@.len() == i,
                forall|j: int|
                    0 <= j < i ==> is_dispersed::<K>(
                        &self.grid,
                        self.state_before(j),
                        #[trigger] out@[j],
                    ),
        {
            let s1 = xorshift_step(s);
            let s2 = xorshift_step(s1);
            let s3 = xorshift_step(s2);
            let s4 = xorshift_step(s3);
            proof {
                reveal_with_fuel(xorshift_after, 5);
                let base: u64 = self.params.seed | 1;
                let k = (4 * i) as nat;
                assert(xorshift_after(base, k + 1) == s1);
                assert(xorshift_after(base, k + 2) == s2);
                assert(xorshift_after(base, k + 3) == s3);
                assert(xorshift_after(base, k + 4) == s4);
                assert(xorshift_after(s, 1) == s1);
                assert(xorshift_after(s, 2) == s2);
                assert(xorshift_after(s, 3) == s3);
                assert(xorshift_after(s, 4) == s4);
            }
            let u = unit_draw::<K>(s1);
            let count = from_u64::<K>(free.len() as u64);
            let scaled = product::<K>(u, count);
            let k = to_index::<K>(scaled);
            let last = free.len() - 1;
            let place: usize = free[if k < last {
                k
            } else {
                last
            }];
            assert(is_pick::<K>(places, u, place as int)) by {
                assert(is_product::<K>(u, count, scaled) && is_to_index::<K>(scaled, k));
            }
            let ux = unit_draw::<K>(s2);
            let x = inside::<K>(self.grid.origin.x, self.grid.res, (place % w) as u64, ux);
            let uy = unit_draw::<K>(s3);
            let y = inside::<K>(self.grid.origin.y, self.grid.res, (place / w) as u64, uy);
            let ut = unit_draw::<K>(s4);
            let turn = product::<K>(ut, num(TAU));
            let theta = sum::<K>(num(MINUS_PI), turn);
            assert(is_dispersed_by::<K>(
                &self.grid,
                s,
                (x, y, theta),
                u,
                place as int,
                ux,
                uy,
                ut,
                turn,
            ));
            out.push((x, y, theta));
            s = s4;
        }
        out
    }

    /// `scored` are the dispersed hypotheses, each with its CAER.
    pub open spec fn is_scored<K: Numerics>(
        &self,
        real_scan: Seq<Num>,
        scored: Seq<PoseHypothesis>,
    ) -> bool {
        &&& scored.len() == self.params.hypotheses
        &&& forall|i: int|
            0 <= i < scored.len() ==> self.is_scored_at::<K>(real_scan, i, #[trigger] scored[i])
    }

    pub open spec fn is_scored_at<K: Numerics>(
        &self,
        real_scan: Seq<Num>,
        i: int,
        h: PoseHypothesis,
    ) -> bool {
        exists|pose: (Num, Num, Num)| #[trigger]
            is_dispersed::<K>(&self.grid, self.state_before(i), pose) && self.is_scored_pose::<K>(
                real_scan,
                pose,
                h,
            )
    }

    /// `h` is `pose` with its CAER.
    pub open spec fn is_scored_pose<K: Numerics>(
        &self,
        real_scan: Seq<Num>,
        pose: (Num, Num, Num),
        h: PoseHypothesis,
    ) -> bool {
        &&& (h.x, h.y, h.theta) == pose
        &&& self.grid.is_caer::<K>(
            real_scan,
            h.x,
            h.y,
            h.theta,
            self.params.ang_span,
            self.params.rmax,
            h.caer,
        )
    }

    fn score<K: Numerics>(&self, real_scan: &[Num], pose: (Num, Num, Num)) -> (h: PoseHypothesis)
        requires
            self.wf(),
        ensures
            self.is_scored_pose::<K>(real_scan@, pose, h),
    {
        let (x, y, theta) = pose;
        let caer = self.grid.caer_of::<K>(
            real_scan,
            x,
            y,
            theta,
            self.params.ang_span,
            self.params.rmax,
        );
        PoseHypothesis { x, y, theta, caer }
    }

    /// The `topk` hypotheses with the lowest CAER, ascending; `None` where a
    /// score is a NaN and there are others to compare it with.
    pub fn localize<K: Numerics>(&self, real_scan: &[Num]) -> (r: Option<Vec<PoseHypothesis>>)
        requires
            self.wf(),
        ensures
            exists|scored: Seq<PoseHypothesis>| #[trigger]
                self.is_scored::<K>(real_scan@, scored) && match r {
                    None => is_unrankable(scored),
                    Some(top) => !is_unrankable(scored) && is_top(
                        scored,
                        self.params.topk as nat,
                        top@,
                    ),
                },
    {
        let hyps = self.disperse::<K>();
        let score_one = |i: usize| -> (h: PoseHypothesis)
            requires
                self.wf(),
                i < hyps@.len(),
            ensures
                is_scored_item::<K>(self, real_scan@, hyps@, i, h),
            { self.score::<K>(real_scan, hyps[i]) };
        let scored = par_map(hyps.len(), score_one);
        assert forall|i: int| 0 <= i < scored@.len() implies self.is_scored_at::<K>(
            real_scan@,
            i,
            #[trigger] scored@[i],
        ) by {
            assert(is_dispersed::<K>(&self.grid, self.state_before(i), hyps@[i]));
        }
        assert(self.is_scored::<K>(real_scan@, scored@));
        keep_top(&scored, self.params.topk)
    }
}

/// A grid as a device takes it: single-precision bits beside the cells.
#[derive(Clone, Copy, Debug, PartialEq, Eq, Structural)]
pub struct DeviceGrid {
    pub w: usize,
    pub h: usize,
    pub res: u32,
    pub ox: u32,
    pub oy: u32,
}

/// The localization kernels of a device. A kernel that changes the device's
/// memory takes the device and gives it back. Nothing is assumed of what the
/// kernels do.
pub trait GlKernels: Sized {
    /// Device memory for a grid and for `cap_hyp` hypotheses, `None` where it
    /// cannot be had.
    fn create(grid: DeviceGrid, cells: &Vec<u8>, cap_hyp: usize) -> Option<Self>;

    /// The number of free cells.
    fn free_cells(&self) -> i32;

    /// Disperse `n` hypotheses; 0 for success.
    fn generate(self, n: usize, seed: u64) -> (i32, Self);

    /// Score the hypotheses against a scan; 0 for success.
    fn score(self, scan: &[u32], rmax: u32, ang_span: u32) -> (i32, Self);

    /// How many of the `k` best hypotheses there are, and these as triples.
    fn topk(&self, k: usize) -> (i32, Vec<u32>);
}

/// `r` is an answer of [`GlKernels::create`].
pub open spec fn is_grid_creation<D: GlKernels>(
    grid: DeviceGrid,
    cells: Vec<u8>,
    cap_hyp: usize,
    r: Option<D>,
) -> bool {
    call_ensures(D::create, (grid, &cells, cap_hyp), r)
}

/// `r` is an answer of [`GlKernels::free_cells`].
pub open spec fn is_free_count<D: GlKernels>(d: D, r: i32) -> bool {
    call_ensures(D::free_cells, (&d,), r)
}

/// `r` is an answer of [`GlKernels::generate`], with the device after it.
pub open spec fn is_generation<D: GlKernels>(d: D, n: usize, seed: u64, r: (i32, D)) -> bool {
    call_ensures(D::generate, (d, n, seed), r)
}

/// `r` is an answer of [`GlKernels::score`], with the device after it.
pub open spec fn is_scoring<D: GlKernels>(
    d: D,
    scan: &[u32],
    rmax: u32,
    ang_span: u32,
    r: (i32, D),
) -> bool {
    call_ensures(D::score, (d, scan, rmax, ang_span), r)
}

/// `r` is an answer of [`GlKernels::topk`].
pub open spec fn is_selection<D: GlKernels>(d: D, k: usize, r: (i32, Vec<u32>)) -> bool {
    call_ensures(D::topk, (&d, k), r)
}

fn create_grid<D: GlKernels>(grid: DeviceGrid, cells: &Vec<u8>, cap_hyp: usize) -> (r: Option<D>)
    ensures
        is_grid_creation(grid, *cells, cap_hyp, r),
{
    D::create(grid, cells, cap_hyp)
}

fn free_count<D: GlKernels>(d: &D) -> (r: i32)
    ensures
        is_free_count(*d, r),
{
    d.free_cells()
}

fn generate<D: GlKernels>(d: D, n: usize, seed: u64) -> (r: (i32, D))
    ensures
        is_generation(d, n, seed, r),
{
    d.generate(n, seed)
}

fn score_scan<D: GlKernels>(d: D, scan: &[u32], rmax: u32, ang_span: u32) -> (r: (i32, D))
    ensures
        is_scoring(d, scan, rmax, ang_span, r),
{
    d.score(scan, rmax, ang_span)
}

fn select<D: GlKernels>(d: &D, k: usize) -> (r: (i32, Vec<u32>))
    ensures
        is_selection(*d, k, r),
{
    d.topk(k)
}

/// `t` is the frame of `grid` in singles.
pub open spec fn is_device_grid<K: Numerics>(grid: OccGrid, t: DeviceGrid) -> bool {
    &&& t.w == grid.w
    &&& t.h == grid.h
    &&& is_to_single::<K>(grid.res, t.res)
    &&& is_to_single::<K>(grid.origin.x, t.ox)
    &&& is_to_single::<K>(grid.origin.y, t.oy)
}

/// CUDA global-localization backend. The device is only away while one of its
/// kernels runs.
pub struct CudaGlobalLoc<D: GlKernels> {
    pub device: Option<D>,
    pub grid: OccGrid,
    pub grid_w: usize,
    pub grid_h: usize,
    pub params: GlParams,
}

/// `wide` is the numbers that a scan of singles holds.
pub open spec fn is_widened<K: Numerics>(scan: Seq<u32>, wide: Seq<Num>) -> bool {
    &&& wide.len() == scan.len()
    &&& forall|i: int| 0 <= i < wide.len() ==> is_from_single::<K>(scan[i], #[trigger] wide[i])
}

fn widened<K: Numerics>(scan: &[u32]) -> (wide: Vec<Num>)
    ensures
        is_widened::<K>(scan@, wide@),
{
    let mut wide: Vec<Num> = Vec::new();
    for i in 0..scan.len()
        invariant
            wide@.len() == i,
            forall|k: int| 0 <= k < i ==> is_from_single::<K>(scan@[k], #[trigger] wide@[k]),
    {
        wide.push(from_single::<K>(scan[i]));
    }
    wide
}

/// `h` is a pose in a device's triples, with its CAER on the grid.
pub open spec fn is_rescored<K: Numerics>(
    grid: &OccGrid,
    params: GlParams,
    wide: Seq<Num>,
    out: Seq<u32>,
    i: int,
    h: PoseHypothesis,
) -> bool {
    &&& is_from_single::<K>(out[3 * i], h.x)
    &&& is_from_single::<K>(out[3 * i + 1], h.y)
    &&& is_from_single::<K>(out[3 * i + 2], h.theta)
    &&& grid.is_caer::<K>(wide, h.x, h.y, h.theta, params.ang_span, params.rmax, h.caer)
}

/// How many poses a device's answer holds: as many as it found, as far as its
/// array goes.
pub open spec fn found(k: i32, out: Seq<u32>) -> nat {
    if k <= 0 {
        0
    } else if k < out.len() / 3 {
        k as nat
    } else {
        out.len() / 3
    }
}

/// `hs` is the poses that a device found, in its order, each with its CAER.
pub open spec fn are_rescored<K: Numerics>(
    grid: &OccGrid,
    params: GlParams,
    wide: Seq<Num>,
    k: i32,
    out: Seq<u32>,
    hs: Seq<PoseHypothesis>,
) -> bool {
    &&& hs.len() == found(k, out)
    &&& forall|i: int|
        0 <= i < hs.len() ==> is_rescored::<K>(grid, params, wide, out, i, #[trigger] hs[i])
}

/// The poses that a device found, scored on the host.
fn rescored<K: Numerics>(
    grid: &OccGrid,
    params: &GlParams,
    wide: &Vec<Num>,
    k: i32,
    out: &Vec<u32>,
) -> (hs: Vec<PoseHypothesis>)
    requires
        grid.wf(),
    ensures
        are_rescored::<K>(grid, *params, wide@, k, out@, hs@),
{
    let whole: usize = out.len() / 3;
    let m: usize = if k <= 0 {
        0
    } else if (k as u64) < (whole as u64) {
        k as usize
    } else {
        whole
    };
    let mut hs: Vec<PoseHypothesis> = Vec::new();
    for i in 0..m
        invariant
            grid.wf(),
            m <= out@.len() / 3,
            hs@.len() == i,
            forall|j: int|
                0 <= j < i ==> is_rescored::<K>(grid, *params, wide@, out@, j, #[trigger] hs@[j]),
    {
        assert(out.len() == out@.len());
        let x = from_single::<K>(out[3 * i]);
        let y = from_single::<K>(out[3 * i + 1]);
        let theta = from_single::<K>(out[3 * i + 2]);
        let caer = grid.caer_of::<K>(
            wide.as_slice(),
            x,
            y,
            theta,
            params.ang_span,
            params.rmax,
        );
        hs.push(PoseHypothesis { x, y, theta, caer });
    }
    hs
}

/// `hs` is `raw` by ascending score; as it was, where a NaN leaves no order.
pub open spec fn is_ranked(raw: Seq<PoseHypothesis>, hs: Seq<PoseHypothesis>) -> bool {
    if is_unrankable(raw) {
        hs == raw
    } else {
        is_top(raw, raw.len(), hs)
    }
}

/// The scores never fall along `hs`, where none of them is a NaN.
pub open spec fn is_ascending(hs: Seq<PoseHypothesis>) -> bool {
    (forall|i: int| 0 <= i < hs.len() ==> !is_nan(#[trigger] hs[i].caer)) ==> forall|i: int, j: int|
        0 <= i < j < hs.len() ==> at_most(#[trigger] hs[i].caer, #[trigger] hs[j].caer)
}

/// Ranked poses are as many as there were, and their scores never fall.
pub proof fn law_ranked_ascend(raw: Seq<PoseHypothesis>, hs: Seq<PoseHypothesis>)
    requires
        raw.len() <= usize::MAX,
        is_ranked(raw, hs),
    ensures
        hs.len() == raw.len(),
        is_ascending(hs),
{
    if !is_unrankable(raw) && raw.len() > 1 {
        law_top_is_lowest(raw, raw.len(), hs);
    }
}

fn ranked(raw: Vec<PoseHypothesis>) -> (hs: Vec<PoseHypothesis>)
    ensures
        is_ranked(raw@, hs@),
        is_ascending(hs@),
{
    let n = raw.len();
    match keep_top(&raw, n) {
        Some(hs) => {
            proof {
                law_ranked_ascend(raw@, hs@);
            }
            hs
        },
        None => raw,
    }
}

/// `hs` is the poses that a device found, scored on the host and ranked.
pub open spec fn is_answer<K: Numerics>(
    grid: &OccGrid,
    params: GlParams,
    scan: Seq<u32>,
    k: i32,
    out: Seq<u32>,
    hs: Seq<PoseHypothesis>,
) -> bool {
    exists|wide: Seq<Num>, raw: Seq<PoseHypothesis>|
        {
            &&& #[trigger] is_widened::<K>(scan, wide)
            &&& are_rescored::<K>(grid, params, wide, k, out, raw)
            &&& #[trigger] is_ranked(raw, hs)
        }
}

/// What a run on the device gives, and the device after it: hypotheses are
/// generated, then scored, then the best are read. The first step that fails
/// is told, and none after it is tried.
pub open spec fn is_device_run<K: Numerics, D: GlKernels>(
    d: D,
    grid: &OccGrid,
    params: GlParams,
    scan: &[u32],
    after: D,
    r: Result<Vec<PoseHypothesis>, String>,
) -> bool {
    exists|g: (i32, D)| #[trigger]
        is_generation(d, params.hypotheses, params.seed, g) && if g.0 != 0 {
            after == g.1 && (r matches Err(e) && e@ == "pfgl_generate failed"@)
        } else {
            is_scored_run::<K, D>(g.1, grid, params, scan, after, r)
        }
}

pub open spec fn is_scored_run<K: Numerics, D: GlKernels>(
    d: D,
    grid: &OccGrid,
    params: GlParams,
    scan: &[u32],
    after: D,
    r: Result<Vec<PoseHypothesis>, String>,
) -> bool {
    exists|rmax: u32, span: u32, code: i32|
        {
            &&& is_to_single::<K>(params.rmax, rmax)
            &&& is_to_single::<K>(params.ang_span, span)
            &&& #[trigger] is_scoring(d, scan, rmax, span, (code, after))
            &&& if code != 0 {
                r matches Err(e) && e@ == "pfgl_score failed"@
            } else {
                is_selected_run::<K, D>(after, grid, params, scan, r)
            }
        }
}

pub open spec fn is_selected_run<K: Numerics, D: GlKernels>(
    d: D,
    grid: &OccGrid,
    params: GlParams,
    scan: &[u32],
    r: Result<Vec<PoseHypothesis>, String>,
) -> bool {
    exists|t: (i32, Vec<u32>)| #[trigger]
        is_selection(d, params.topk, t) && if t.0 <= 0 {
            r matches Err(e) && e@ == "pfgl_topk failed"@
        } else {
            r matches Ok(hs) && is_answer::<K>(grid, params, scan@, t.0, t.1@, hs@)
        }
}

impl<D: GlKernels> CudaGlobalLoc<D> {
    /// The device is there and the grid is whole.
    pub open spec fn wf(&self) -> bool {
        self.device is Some && self.grid.wf()
    }

    pub fn new<K: Numerics>(grid: &OccGrid, params: GlParams) -> (r: Result<Self, String>)
        requires
            grid.wf(),
        ensures
            exists|t: DeviceGrid, c: Option<D>|
                {
                    &&& is_device_grid::<K>(*grid, t)
                    &&& #[trigger] is_grid_creation(t, grid.cells, params.hypotheses, c)
                    &&& match c {
                        None => r matches Err(e) && e@ == "pfgl_create failed"@,
                        Some(d) => r matches Ok(loc) && loc.wf() && loc.device == Some(d)
                            && loc.grid.is_copy(grid) && loc.grid_w == grid.w && loc.grid_h
                            == grid.h && loc.params == params,
                    }
                },
    {
        let t = DeviceGrid {
            w: grid.w,
            h: grid.h,
            res: to_single::<K>(grid.res),
            ox: to_single::<K>(grid.origin.x),
            oy: to_single::<K>(grid.origin.y),
        };
        let c = create_grid::<D>(t, &grid.cells, params.hypotheses);
        let ghost created = c;
        assert(is_grid_creation(t, grid.cells, params.hypotheses, created));
        match c {
            None => Err("pfgl_create failed".to_owned()),
            Some(device) => Ok(
                CudaGlobalLoc {
                    device: Some(device),
                    grid: grid.copied(),
                    grid_w: grid.w,
                    grid_h: grid.h,
                    params,
                },
            ),
        }
    }

    /// Localize: the bottom-k hypotheses by CAER, ascending. The device picks
    /// them; their CAER is computed, and ranked by, on the host.
    pub fn localize<K: Numerics>(&mut self, real_scan: &[u32]) -> (r: Result<
        Vec<PoseHypothesis>,
        String,
    >)
        requires
            old(self).wf(),
        ensures
            final(self).wf(),
            final(self).grid == old(self).grid,
            final(self).grid_w == old(self).grid_w,
            final(self).grid_h == old(self).grid_h,
            final(self).params == old(self).params,
            is_device_run::<K, D>(
                old(self).device->0,
                &old(self).grid,
                old(self).params,
                real_scan,
                final(self).device->0,
                r,
            ),
            r matches Ok(hs) ==> is_ascending(hs@),
    {
        let d = self.device.take().unwrap();
        let (code, d) = generate(d, self.params.hypotheses, self.params.seed);
        let ghost g = (code, d);
        assert(is_generation(
            old(self).device->0,
            self.params.hypotheses,
            self.params.seed,
            g,
        ));
        if code != 0 {
            self.device = Some(d);
            return Err("pfgl_generate failed".to_owned());
        }
        let rmax: u32 = to_single::<K>(self.params.rmax);
        let span: u32 = to_single::<K>(self.params.ang_span);
        let (code, d) = score_scan(d, real_scan, rmax, span);
        self.device = Some(d);
        assert(is_scoring(g.1, real_scan, rmax, span, (code, self.device->0)));
        if code != 0 {
            return Err("pfgl_score failed".to_owned());
        }
        let t = select(self.device.as_ref().unwrap(), self.params.topk);
        assert(is_selection(self.device->0, self.params.topk, t));
        if t.0 <= 0 {
            return Err("pfgl_topk failed".to_owned());
        }
        let wide = widened::<K>(real_scan);
        let raw = rescored::<K>(&self.grid, &self.params, &wide, t.0, &t.1);
        let ghost given = raw@;
        assert(is_widened::<K>(real_scan@, wide@));
        let hs = ranked(raw);
        assert(is_answer::<K>(&self.grid, self.params, real_scan@, t.0, t.1@, hs@)) by {
            assert(is_ranked(given, hs@));
        }
        Ok(hs)
    }

    pub fn free_cells(&self) -> (r: i32)
        requires
            self.wf(),
        ensures
            is_free_count(self.device->0, r),
    {
        free_count(self.device.as_ref().unwrap())
    }
}

} // verus!
