//! What grids, scans and hypotheses are, where no operation rounds.
use vstd::prelude::*;

use crate::exact::{scalars_are_exact, total, Reading};
use crate::global_loc::{
    free_places, is_dispersed, is_dispersed_by, is_inside, is_unit_draw, law_free_places,
    CpuGlobalLoc, OccGrid, PoseHypothesis,
};
use crate::grid::{at, is_axis, is_cell, is_error_sum, Ray, RayPlace, MAX_CROSSINGS};
use crate::num::{
    absolute, at_most, is_finite, is_nan, less, num, rank, same, Num, INFINITY, MILLION, MINUS_PI,
    N255, NANO, ONE, TAU, ZERO,
};
use crate::numerics::{
    is_difference, is_from_u64, is_product, is_quotient, is_sin_cos, is_sum, is_to_index, Numerics,
};
use crate::ray_laws::{
    differences_tell, law_own_scan_scores_zero, law_scan_repeats, lemma_cast_repeats,
    sums_never_fall,
};
use crate::repeat::scalars_repeat;
use crate::rng::xorshift_after;

verus! {

proof fn lemma_quotient_back(a: real, d: real)
    requires
        0real < d,
    ensures
        a / d * d == a,
{
    assert(a / d * d == a) by (nonlinear_arith)
        requires
            0real < d,
    ;
}

/// An integer times a length is not above a multiple of it, and so on.
proof fn lemma_cell_range(f: real, k: nat, res: real)
    requires
        0real < res,
    ensures
        k as real <= f ==> k as real * res <= f * res,
        f < k as real ==> f * res < k as real * res,
        k as real <= f < k as real + 1real ==> f * res < (k as real + 1real) * res,
        k as real * res <= f * res ==> k as real <= f,
{
    let x = k as real;
    assert(x <= f ==> x * res <= f * res) by (nonlinear_arith)
        requires
            0real < res,
    ;
    assert(f < x ==> f * res < x * res) by (nonlinear_arith)
        requires
            0real < res,
    ;
    assert(f < x + 1real ==> f * res < (x + 1real) * res) by (nonlinear_arith)
        requires
            0real < res,
    ;
    assert(x * res <= f * res ==> x <= f) by (nonlinear_arith)
        requires
            0real < res,
    ;
}

/// The coordinate `p` lies in the cell `k` of an axis.
pub open spec fn holds(val: Reading, origin: Num, res: Num, k: int, p: real) -> bool {
    val(origin) + k as real * val(res) <= p < val(origin) + (k as real + 1real) * val(res)
}

/// The cell that is found for a point holds it; where none is found the point
/// lies off the grid.
pub proof fn law_cell_holds_its_point<K: Numerics>(
    val: Reading,
    g: &OccGrid,
    wx: Num,
    wy: Num,
    c: Option<(usize, usize)>,
)
    requires
        scalars_are_exact::<K>(val),
        0real < val(g.res),
        g.is_cell_at::<K>(wx, wy, c),
    ensures
        match c {
            Some((cx, cy)) => {
                &&& cx < g.w && cy < g.h
                &&& holds(val, g.origin.x, g.res, cx as int, val(wx))
                &&& holds(val, g.origin.y, g.res, cy as int, val(wy))
            },
            None => {
                ||| val(wx) < val(g.origin.x)
                ||| val(wy) < val(g.origin.y)
                ||| val(g.origin.x) + g.w as real * val(g.res) <= val(wx)
                ||| val(g.origin.y) + g.h as real * val(g.res) <= val(wy)
            },
        },
{
    let (dx, dy, fx, fy) = choose|dx: Num, dy: Num, fx: Num, fy: Num|
        {
            &&& is_difference::<K>(wx, g.origin.x, dx)
            &&& is_difference::<K>(wy, g.origin.y, dy)
            &&& #[trigger] is_quotient::<K>(dx, g.res, fx)
            &&& #[trigger] is_quotient::<K>(dy, g.res, fy)
            &&& if less(fx, num(ZERO)) || less(fy, num(ZERO)) {
                c is None
            } else {
                exists|cx: usize, cy: usize|
                    {
                        &&& #[trigger] is_to_index::<K>(fx, cx)
                        &&& #[trigger] is_to_index::<K>(fy, cy)
                        &&& c == (if cx < g.w && cy < g.h {
                            Some((cx, cy))
                        } else {
                            None
                        })
                    }
            }
        };
    let res = val(g.res);
    lemma_quotient_back(val(dx), res);
    lemma_quotient_back(val(dy), res);
    assert(val(fx) * res == val(wx) - val(g.origin.x));
    assert(val(fy) * res == val(wy) - val(g.origin.y));
    if less(fx, num(ZERO)) || less(fy, num(ZERO)) {
        lemma_cell_range(val(fx), 0, res);
        lemma_cell_range(val(fy), 0, res);
        assert(0real * res == 0real) by (nonlinear_arith);
    } else {
        let (cx, cy) = choose|cx: usize, cy: usize|
            {
                &&& #[trigger] is_to_index::<K>(fx, cx)
                &&& #[trigger] is_to_index::<K>(fy, cy)
                &&& c == (if cx < g.w && cy < g.h {
                    Some((cx, cy))
                } else {
                    None
                })
            };
        lemma_cell_range(val(fx), cx as nat, res);
        lemma_cell_range(val(fy), cy as nat, res);
        lemma_cell_range(val(fx), g.w as nat, res);
        lemma_cell_range(val(fy), g.h as nat, res);
        if g.w <= cx {
            assert(g.w as real <= cx as real);
        }
        if g.h <= cy {
            assert(g.h as real <= cy as real);
        }
    }
}

/// A point lies in one cell of an axis.
proof fn lemma_one_cell(val: Reading, origin: Num, res: Num, a: int, b: int, p: real)
    requires
        0real < val(res),
        holds(val, origin, res, a, p),
        holds(val, origin, res, b, p),
    ensures
        a == b,
{
    let r = val(res);
    let (x, y) = (a as real, b as real);
    if a < b {
        assert(x + 1real <= y);
        assert((x + 1real) * r <= y * r) by (nonlinear_arith)
            requires
                0real < r,
                x + 1real <= y,
        ;
    } else if b < a {
        assert(y + 1real <= x);
        assert((y + 1real) * r <= x * r) by (nonlinear_arith)
            requires
                0real < r,
                y + 1real <= x,
        ;
    }
}

/// The fraction that a generator state gives.
pub open spec fn fraction(state: u64) -> real {
    (state % 1_000_000) as real / 1_000_000real
}

proof fn lemma_fraction(state: u64)
    ensures
        0real <= fraction(state) < 1real,
{
    let k = (state % 1_000_000) as real;
    assert(0real <= k < 1_000_000real);
}

proof fn lemma_unit_draw<K: Numerics>(val: Reading, state: u64, u: Num)
    requires
        scalars_are_exact::<K>(val),
        val(num(MILLION)) == 1_000_000real,
        is_unit_draw::<K>(state, u),
    ensures
        val(u) == fraction(state),
        0real <= val(u) < 1real,
{
    lemma_fraction(state);
}

proof fn lemma_inside<K: Numerics>(
    val: Reading,
    origin: Num,
    res: Num,
    cell: u64,
    u: Num,
    x: Num,
)
    requires
        scalars_are_exact::<K>(val),
        0real < val(res),
        0real <= val(u) < 1real,
        is_inside::<K>(origin, res, cell, u, x),
    ensures
        val(x) == val(origin) + (cell as real + val(u)) * val(res),
        holds(val, origin, res, cell as int, val(x)),
{
    let (c, f, m) = choose|c: Num, f: Num, m: Num|
        {
            &&& is_from_u64::<K>(cell, c)
            &&& #[trigger] is_sum::<K>(c, u, f)
            &&& #[trigger] is_product::<K>(f, res, m)
            &&& is_sum::<K>(origin, m, x)
        };
    lemma_cell_range(val(f), cell as nat, val(res));
}

/// `place` is the free place whose equal share of the unit interval holds `u`.
pub open spec fn is_share_of(free: Seq<int>, u: real, place: int) -> bool {
    exists|j: int|
        {
            &&& 0 <= j < free.len()
            &&& place == #[trigger] free[j]
            &&& j as real <= u * (free.len() as real)
            &&& u * (free.len() as real) < j as real + 1real
        }
}

/// A dispersed hypothesis stands in the column and the row of a free cell,
/// looks the way that its last draw says, and each of its four numbers comes
/// from a draw of its own.
pub proof fn law_hypothesis<K: Numerics>(
    val: Reading,
    g: &OccGrid,
    s: u64,
    h: (Num, Num, Num),
)
    requires
        scalars_are_exact::<K>(val),
        val(num(MILLION)) == 1_000_000real,
        g.wf(),
        0real < val(g.res),
        exists|i: int| 0 <= i < g.cells@.len() && #[trigger] g.cells@[i] == 0,
        is_dispersed::<K>(g, s, h),
    ensures
        exists|cx: int, cy: int|
            {
                &&& 0 <= cx < g.w && 0 <= cy < g.h
                &&& #[trigger] g.cells@[at(g.w as int, cy, cx)] == 0
                &&& val(h.0) == val(g.origin.x) + (cx as real + fraction(xorshift_after(s, 2)))
                    * val(g.res)
                &&& val(h.1) == val(g.origin.y) + (cy as real + fraction(xorshift_after(s, 3)))
                    * val(g.res)
                &&& holds(val, g.origin.x, g.res, cx, val(h.0))
                &&& holds(val, g.origin.y, g.res, cy, val(h.1))
                &&& is_share_of(
                    free_places(g.cells@),
                    fraction(xorshift_after(s, 1)),
                    at(g.w as int, cy, cx),
                )
            },
        val(h.2) == val(num(MINUS_PI)) + fraction(xorshift_after(s, 4)) * val(num(TAU)),
{
    let (u, place, ux, uy, ut, turn) = choose|
        u: Num,
        place: int,
        ux: Num,
        uy: Num,
        ut: Num,
        turn: Num,
    |
        is_dispersed_by::<K>(g, s, h, u, place, ux, uy, ut, turn);
    lemma_unit_draw::<K>(val, xorshift_after(s, 1), u);
    lemma_unit_draw::<K>(val, xorshift_after(s, 2), ux);
    lemma_unit_draw::<K>(val, xorshift_after(s, 3), uy);
    lemma_unit_draw::<K>(val, xorshift_after(s, 4), ut);
    let free = free_places(g.cells@);
    law_free_places(g.cells@);
    let i = choose|i: int| 0 <= i < g.cells@.len() && #[trigger] g.cells@[i] == 0;
    assert(free.contains(i));
    assert(free.len() > 0);
    let (count, scaled, k) = choose|count: Num, scaled: Num, k: usize|
        {
            &&& is_from_u64::<K>(free.len() as u64, count)
            &&& #[trigger] is_product::<K>(u, count, scaled)
            &&& #[trigger] is_to_index::<K>(scaled, k)
            &&& place == free[if k < free.len() {
                k as int
            } else {
                free.len() - 1
            }]
        };
    let n = free.len() as real;
    lemma_free_count(g.cells@);
    assert(g.cells@.len() <= usize::MAX) by {
        assert(g.cells@.len() == g.cells.len());
    }
    assert(val(count) == n);
    assert(0real <= val(u) * n < n) by (nonlinear_arith)
        requires
            0real <= val(u) < 1real,
            0real < n,
    ;
    assert(k as real <= val(scaled) < n);
    assert(k < free.len());
    assert(place == free[k as int]);
    let w = g.w as int;
    assert(w > 0) by (nonlinear_arith)
        requires
            0 <= place < w * g.h,
            0 <= w,
            0 <= g.h,
    ;
    let (cx, cy) = (place % w, place / w);
    assert(place == w * cy + cx) by (nonlinear_arith)
        requires
            cx == place % w,
            cy == place / w,
            w > 0,
    ;
    assert(0 <= cy < g.h) by (nonlinear_arith)
        requires
            0 <= place < w * g.h,
            cy == place / w,
            w > 0,
    ;
    assert(at(w, cy, cx) == place) by (nonlinear_arith)
        requires
            place == w * cy + cx,
            at(w, cy, cx) == cy * w + cx,
    ;
    lemma_inside::<K>(val, g.origin.x, g.res, cx as u64, ux, h.0);
    lemma_inside::<K>(val, g.origin.y, g.res, cy as u64, uy, h.1);
    assert(g.cells@[at(w, cy, cx)] == 0);
    assert(at(w, cy, cx) == free[k as int]);
}

proof fn lemma_free_count(cells: Seq<u8>)
    ensures
        free_places(cells).len() <= cells.len(),
    decreases cells.len(),
{
    if cells.len() > 0 {
        lemma_free_count(cells.drop_last());
    }
}

/// Every hypothesis lies in a free cell: the one that the grid itself finds
/// for the point.
pub proof fn law_hypotheses_lie_in_free_cells<K: Numerics>(
    val: Reading,
    g: &OccGrid,
    s: u64,
    h: (Num, Num, Num),
    c: Option<(usize, usize)>,
)
    requires
        scalars_are_exact::<K>(val),
        val(num(MILLION)) == 1_000_000real,
        g.wf(),
        0real < val(g.res),
        exists|i: int| 0 <= i < g.cells@.len() && #[trigger] g.cells@[i] == 0,
        is_dispersed::<K>(g, s, h),
        g.is_cell_at::<K>(h.0, h.1, c),
    ensures
        c matches Some((cx, cy)) && cx < g.w && cy < g.h && g.cells@[cy * g.w + cx] == 0,
{
    law_hypothesis::<K>(val, g, s, h);
    let (cx, cy) = choose|cx: int, cy: int|
        {
            &&& 0 <= cx < g.w && 0 <= cy < g.h
            &&& #[trigger] g.cells@[at(g.w as int, cy, cx)] == 0
            &&& val(h.0) == val(g.origin.x) + (cx as real + fraction(xorshift_after(s, 2))) * val(
                g.res,
            )
            &&& val(h.1) == val(g.origin.y) + (cy as real + fraction(xorshift_after(s, 3))) * val(
                g.res,
            )
            &&& holds(val, g.origin.x, g.res, cx, val(h.0))
            &&& holds(val, g.origin.y, g.res, cy, val(h.1))
        };
    law_cell_holds_its_point::<K>(val, g, h.0, h.1, c);
    let r = val(g.res);
    let (x, y) = (cx as real, cy as real);
    assert(0real <= x * r && (x + 1real) * r <= g.w as real * r) by (nonlinear_arith)
        requires
            0real < r,
            0real <= x,
            x + 1real <= g.w as real,
    ;
    assert(0real <= y * r && (y + 1real) * r <= g.h as real * r) by (nonlinear_arith)
        requires
            0real < r,
            0real <= y,
            y + 1real <= g.h as real,
    ;
    if let Some((a, b)) = c {
        lemma_one_cell(val, g.origin.x, g.res, a as int, cx, val(h.0));
        lemma_one_cell(val, g.origin.y, g.res, b as int, cy, val(h.1));
    }
}

/// The hypotheses of a localizer take their draws one after another: four for
/// each, none used twice.
pub proof fn law_draws_do_not_overlap(loc: &CpuGlobalLoc, i: int)
    requires
        0 <= i,
    ensures
        loc.state_before(0) == loc.params.seed | 1,
        loc.state_before(i + 1) == xorshift_after(loc.state_before(i), 4),
{
    lemma_after(loc.params.seed | 1, (4 * i) as nat, 4);
}

proof fn lemma_after(s: u64, a: nat, b: nat)
    ensures
        xorshift_after(s, a + b) == xorshift_after(xorshift_after(s, a), b),
    decreases b,
{
    if b > 0 {
        lemma_after(s, a, (b - 1) as nat);
    }
}

/// A hypothesis is scored by what its own pose sees over the localizer's span
/// and range: the score is 0 exactly where that is the scan.
pub proof fn law_hypothesis_scores_by_its_own_view<K: Numerics>(
    loc: &CpuGlobalLoc,
    scan: Seq<Num>,
    i: int,
    h: PoseHypothesis,
    seen: Seq<Num>,
)
    requires
        scalars_repeat::<K>(),
        sums_never_fall::<K>(),
        differences_tell::<K>(),
        loc.is_scored_at::<K>(scan, i, h),
        loc.grid.is_scan::<K>(
            h.x,
            h.y,
            h.theta,
            scan.len(),
            loc.params.ang_span,
            loc.params.rmax,
            seen,
        ),
        forall|k: int|
            0 <= k < scan.len() ==> is_finite(#[trigger] scan[k])
                && is_finite(seen[k]),
    ensures
        rank(h.caer) == 0 <==> forall|k: int|
            0 <= k < scan.len() ==> same(#[trigger] scan[k], seen[k]),
{
    law_own_scan_scores_zero::<K>(
        &loc.grid,
        scan,
        h.x,
        h.y,
        h.theta,
        loc.params.ang_span,
        loc.params.rmax,
        seen,
        h.caer,
    );
}

/// Beam `i` of `n` looks `i / (n - 1)` of the span past `theta`.
pub proof fn law_beams_are_spread_over_the_span<K: Numerics>(
    val: Reading,
    theta: Num,
    span: Num,
    n: nat,
    i: int,
    a: Num,
)
    requires
        scalars_are_exact::<K>(val),
        n <= usize::MAX,
        0 <= i < n,
        OccGrid::is_angle::<K>(theta, span, n, i, a),
    ensures
        n > 1 ==> val(a) == val(theta) + val(span) * i as real / (n - 1) as real,
        n <= 1 ==> val(a) == val(theta),
{
    let off = choose|off: Num|
        #[trigger] is_sum::<K>(theta, off, a) && if n > 1 {
            exists|k: Num, last: Num, turn: Num|
                {
                    &&& is_from_u64::<K>(i as u64, k)
                    &&& is_from_u64::<K>((n - 1) as u64, last)
                    &&& #[trigger] is_product::<K>(span, k, turn)
                    &&& #[trigger] is_quotient::<K>(turn, last, off)
                }
        } else {
            off == num(ZERO)
        };
    if n > 1 {
        assert((n - 1) as real > 0real);
    }
}

/// A product divided by one of its factors gives the other one back.
pub open spec fn products_are_undone<K: Numerics>() -> bool {
    forall|x: Num, k: Num, t: Num, q: Num|
        #[trigger] is_product::<K>(x, k, t) && #[trigger] is_quotient::<K>(t, k, q) ==> q == x
}

/// The last of several beams looks along `theta + span`.
pub proof fn law_last_beam_ends_the_span<K: Numerics>(theta: Num, span: Num, n: nat, a: Num)
    requires
        scalars_repeat::<K>(),
        products_are_undone::<K>(),
        1 < n <= usize::MAX,
        OccGrid::is_angle::<K>(theta, span, n, n - 1, a),
    ensures
        is_sum::<K>(theta, span, a),
{
    let off = choose|off: Num|
        #[trigger] is_sum::<K>(theta, off, a) && exists|k: Num, last: Num, turn: Num|
            {
                &&& is_from_u64::<K>((n - 1) as u64, k)
                &&& is_from_u64::<K>((n - 1) as u64, last)
                &&& #[trigger] is_product::<K>(span, k, turn)
                &&& #[trigger] is_quotient::<K>(turn, last, off)
            };
}

/// Zero stays as it is when multiplied by a count and divided by one.
pub open spec fn zero_stays<K: Numerics>() -> bool {
    forall|x: Num, i: u64, k: Num, t: Num, j: u64, l: Num, q: Num|
        rank(x) == 0 && j > 0 && #[trigger] is_from_u64::<K>(i, k) && #[trigger] is_product::<K>(
            x,
            k,
            t,
        ) && #[trigger] is_from_u64::<K>(j, l) && #[trigger] is_quotient::<K>(t, l, q) ==> q == x
}

/// Every beam of a scan over no span sees the same distance.
pub proof fn law_no_span_no_difference<K: Numerics>(
    g: &OccGrid,
    x: Num,
    y: Num,
    theta: Num,
    n: nat,
    span: Num,
    rmax: Num,
    scan: Seq<Num>,
    i: int,
    j: int,
)
    requires
        scalars_repeat::<K>(),
        zero_stays::<K>(),
        rank(span) == 0,
        n <= usize::MAX,
        g.is_scan::<K>(x, y, theta, n, span, rmax, scan),
        0 <= i < n,
        0 <= j < n,
    ensures
        scan[i] == scan[j],
{
    assert(g.is_beam::<K>(x, y, theta, n, span, rmax, i, scan[i]));
    assert(g.is_beam::<K>(x, y, theta, n, span, rmax, j, scan[j]));
    let (a, sc) = choose|a: Num, sc: (Num, Num)|
        {
            &&& OccGrid::is_angle::<K>(theta, span, n, i, a)
            &&& #[trigger] is_sin_cos::<K>(a, sc)
            &&& g.is_cast::<K>(x, y, sc.1, sc.0, rmax, scan[i])
        };
    let (b, sd) = choose|a: Num, sc: (Num, Num)|
        {
            &&& OccGrid::is_angle::<K>(theta, span, n, j, a)
            &&& #[trigger] is_sin_cos::<K>(a, sc)
            &&& g.is_cast::<K>(x, y, sc.1, sc.0, rmax, scan[j])
        };
    if n > 1 {
        lemma_no_turn::<K>(theta, span, n, i, a);
        lemma_no_turn::<K>(theta, span, n, j, b);
        assert(a == b);
        lemma_cast_repeats::<K>(g, x, y, sc.1, sc.0, rmax, scan[i], scan[j]);
    }
}

proof fn lemma_no_turn<K: Numerics>(theta: Num, span: Num, n: nat, i: int, a: Num)
    requires
        zero_stays::<K>(),
        rank(span) == 0,
        1 < n <= usize::MAX,
        0 <= i < n,
        OccGrid::is_angle::<K>(theta, span, n, i, a),
    ensures
        is_sum::<K>(theta, span, a),
{
    let off = choose|off: Num|
        #[trigger] is_sum::<K>(theta, off, a) && exists|k: Num, last: Num, turn: Num|
            {
                &&& is_from_u64::<K>(i as u64, k)
                &&& is_from_u64::<K>((n - 1) as u64, last)
                &&& #[trigger] is_product::<K>(span, k, turn)
                &&& #[trigger] is_quotient::<K>(turn, last, off)
            };
    assert((n - 1) as u64 > 0);
}

/// The error of a scan is the sum of the distances between the two, beam by
/// beam.
pub proof fn law_error_is_the_sum_of_gaps<K: Numerics>(
    val: Reading,
    a: Seq<Num>,
    b: Seq<Num>,
    n: nat,
    r: Num,
)
    requires
        scalars_are_exact::<K>(val),
        is_error_sum::<K>(a, b, n, r),
    ensures
        val(r) == total(
            n,
            |i: int|
                if val(a[i]) < val(b[i]) {
                    val(b[i]) - val(a[i])
                } else {
                    val(a[i]) - val(b[i])
                },
        ),
    decreases n,
{
    let f = |i: int|
        if val(a[i]) < val(b[i]) {
            val(b[i]) - val(a[i])
        } else {
            val(a[i]) - val(b[i])
        };
    if n > 0 {
        let (prev, gap) = choose|prev: Num, gap: Num|
            {
                &&& is_error_sum::<K>(a, b, (n - 1) as nat, prev)
                &&& #[trigger] is_difference::<K>(a[n - 1], b[n - 1], gap)
                &&& #[trigger] is_sum::<K>(prev, absolute(gap), r)
            };
        law_error_is_the_sum_of_gaps::<K>(val, a, b, (n - 1) as nat, prev);
        assert(f(n - 1) == if val(a[n - 1]) < val(b[n - 1]) {
            val(b[n - 1]) - val(a[n - 1])
        } else {
            val(a[n - 1]) - val(b[n - 1])
        });
    }
}

/// A pixel is an occupied cell where its darkness is above the threshold.
pub proof fn law_dark_pixels_are_occupied<K: Numerics>(
    val: Reading,
    pixel: u8,
    threshold: Num,
    cell: u8,
)
    requires
        scalars_are_exact::<K>(val),
        val(num(N255)) == 255real,
        !is_nan(threshold),
        is_cell::<K>(pixel, threshold, cell),
    ensures
        cell == (if val(threshold) < (255 - pixel) as real / 255real {
            1u8
        } else {
            0u8
        }),
{
}

/// A ray leaves a cell of an axis where it meets the border ahead: the far one
/// going up, the near one going down. From border to border it is the size of a
/// cell over the ray's slope.
pub proof fn law_ray_meets_the_border<K: Numerics>(
    val: Reading,
    p: Num,
    origin: Num,
    res: Num,
    dir: Num,
    c: usize,
    step: Num,
    first: Num,
)
    requires
        scalars_are_exact::<K>(val),
        0real < val(res),
        0real < val(num(NANO)),
        less(num(NANO), absolute(dir)),
        is_axis::<K>(p, origin, res, dir, c, step, first),
    ensures
        0real < val(step),
        val(dir) > 0real ==> {
            &&& val(p) + val(dir) * val(first) == val(origin) + (c as real + 1real) * val(res)
            &&& val(dir) * val(step) == val(res)
        },
        val(dir) < 0real ==> {
            &&& val(p) + val(dir) * val(first) == val(origin) + c as real * val(res)
            &&& val(dir) * val(step) == -val(res)
        },
        val(dir) != 0real,
{
    let (off, f, cell, inner) = choose|off: Num, f: Num, cell: Num, inner: Num|
        {
            &&& is_quotient::<K>(res, absolute(dir), step)
            &&& is_difference::<K>(p, origin, off)
            &&& #[trigger] is_quotient::<K>(off, res, f)
            &&& is_from_u64::<K>(c as u64, cell)
            &&& #[trigger] is_difference::<K>(f, cell, inner)
            &&& if less(num(ZERO), dir) {
                exists|gap: Num|
                    #[trigger] is_difference::<K>(num(ONE), inner, gap) && is_product::<K>(
                        gap,
                        step,
                        first,
                    )
            } else {
                is_product::<K>(inner, step, first)
            }
        };
    let (r, d) = (val(res), val(dir));
    lemma_quotient_back(val(off), r);
    let a = val(absolute(dir));
    assert(0real < a);
    assert(r / a > 0real && r / a * a == r) by (nonlinear_arith)
        requires
            0real < r,
            0real < a,
    ;
    let st = val(step);
    let x = val(inner);
    let (fv, cv) = (val(f), c as real);
    if d > 0real {
        assert(!is_nan(dir));
        assert(less(num(ZERO), dir));
        assert(d * st == r) by (nonlinear_arith)
            requires
                st * d == r,
        ;
        assert(d * ((1real - x) * st) == (1real - x) * r) by (nonlinear_arith)
            requires
                d * st == r,
        ;
        assert((1real - (fv - cv)) * r == (cv + 1real) * r - fv * r) by (nonlinear_arith);
    } else {
        assert(d * st == -r) by (nonlinear_arith)
            requires
                st * (-d) == r,
        ;
        assert(d * (x * st) == -(x * r)) by (nonlinear_arith)
            requires
                d * st == -r,
        ;
        assert((fv - cv) * r == fv * r - cv * r) by (nonlinear_arith);
    }
}

/// The coordinate `p` lies in the cell `k` of an axis or on its border.
pub open spec fn touches(val: Reading, origin: Num, res: Num, k: int, p: real) -> bool {
    val(origin) + k as real * val(res) <= p <= val(origin) + (k as real + 1real) * val(res)
}

/// A ray's slope along an axis is none at all, or one that counts.
pub open spec fn is_plain_slope(val: Reading, dir: Num) -> bool {
    val(dir) == 0real && !is_nan(dir) || less(num(NANO), absolute(dir))
}

/// Along one axis: `t` is where the ray from `p` leaves the cell `c`, infinite
/// for a ray that runs across the axis, and `step` takes it on to the next one.
spec fn is_leaving(
    val: Reading,
    p: Num,
    origin: Num,
    res: Num,
    dir: Num,
    c: int,
    step: Num,
    t: Num,
) -> bool {
    &&& !is_nan(t)
    &&& if val(dir) == 0real {
        t == num(INFINITY)
    } else {
        &&& less(num(NANO), absolute(dir))
        &&& 0real < val(step)
        &&& val(dir) > 0real ==> {
            &&& val(p) + val(dir) * val(t) == val(origin) + (c as real + 1real) * val(res)
            &&& val(dir) * val(step) == val(res)
        }
        &&& val(dir) < 0real ==> {
            &&& val(p) + val(dir) * val(t) == val(origin) + c as real * val(res)
            &&& val(dir) * val(step) == -val(res)
        }
    }
}

/// Between touching a cell and leaving it, the ray touches it.
proof fn lemma_still_touches(
    val: Reading,
    p: Num,
    origin: Num,
    res: Num,
    dir: Num,
    c: int,
    step: Num,
    leave: Num,
    from: real,
    t: real,
)
    requires
        0real < val(res),
        is_leaving(val, p, origin, res, dir, c, step, leave),
        touches(val, origin, res, c, val(p) + val(dir) * from),
        from <= t,
        val(dir) == 0real || t <= val(leave),
    ensures
        touches(val, origin, res, c, val(p) + val(dir) * t),
{
    let (d, l) = (val(dir), val(leave));
    if d == 0real {
        assert(d * from == d * t) by (nonlinear_arith)
            requires
                d == 0real,
        ;
    } else if d > 0real {
        assert(d * from <= d * t && d * t <= d * l) by (nonlinear_arith)
            requires
                d > 0real,
                from <= t <= l,
        ;
    } else {
        assert(d * from >= d * t && d * t >= d * l) by (nonlinear_arith)
            requires
                d < 0real,
                from <= t <= l,
        ;
    }
}

/// Where the ray leaves a cell it touches the next one, and it leaves that one
/// a step on.
proof fn lemma_next_cell<K: Numerics>(
    val: Reading,
    p: Num,
    origin: Num,
    res: Num,
    dir: Num,
    c: int,
    step: Num,
    t: Num,
    next: Num,
)
    requires
        scalars_are_exact::<K>(val),
        0real < val(res),
        val(dir) != 0real,
        is_leaving(val, p, origin, res, dir, c, step, t),
    ensures
        touches(
            val,
            origin,
            res,
            if val(dir) > 0real {
                c + 1
            } else {
                c - 1
            },
            val(p) + val(dir) * val(t),
        ),
        is_sum::<K>(t, step, next) ==> val(t) < val(next) && is_leaving(
            val,
            p,
            origin,
            res,
            dir,
            if val(dir) > 0real {
                c + 1
            } else {
                c - 1
            },
            step,
            next,
        ),
{
    let (d, a, b, r) = (val(dir), val(t), val(step), val(res));
    assert(d * (a + b) == d * a + d * b) by (nonlinear_arith);
    let x = c as real;
    assert((x + 1real) * r == x * r + r) by (nonlinear_arith);
    assert((x + 1real + 1real) * r == (x + 1real) * r + r) by (nonlinear_arith);
    assert((x - 1real) * r == x * r - r) by (nonlinear_arith);
    assert((x - 1real + 1real) * r == x * r) by (nonlinear_arith);
    assert((c + 1) as real == x + 1real);
    assert((c - 1) as real == x - 1real);
}

/// A walk that ends before its range ends where the ray touches an occupied
/// cell.
proof fn lemma_walk_stops_at_a_wall<K: Numerics>(
    val: Reading,
    g: &OccGrid,
    px: Num,
    py: Num,
    dirx: Num,
    diry: Num,
    ray: Ray,
    from: RayPlace,
    crossings: nat,
    at: real,
    d: Num,
)
    requires
        scalars_are_exact::<K>(val),
        0real < val(g.res),
        is_finite(ray.rmax),
        ray.right == less(num(ZERO), dirx),
        ray.up == less(num(ZERO), diry),
        !is_nan(dirx) && !is_nan(diry),
        is_leaving(val, px, g.origin.x, g.res, dirx, from.cx as int, ray.dx, from.tx),
        is_leaving(val, py, g.origin.y, g.res, diry, from.cy as int, ray.dy, from.ty),
        touches(val, g.origin.x, g.res, from.cx as int, val(px) + val(dirx) * at),
        touches(val, g.origin.y, g.res, from.cy as int, val(py) + val(diry) * at),
        val(dirx) == 0real || at <= val(from.tx),
        val(diry) == 0real || at <= val(from.ty),
        g.is_walk::<K>(ray, from, crossings, d),
        d != ray.rmax,
    ensures
        stops_at_a_wall(val, g, px, py, dirx, diry, d),
    decreases crossings,
{
    let along_x = at_most(from.tx, from.ty);
    let dist = if along_x {
        from.tx
    } else {
        from.ty
    };
    let cx = from.cx + (if !along_x {
        0int
    } else if ray.right {
        1
    } else {
        -1
    });
    let cy = from.cy + (if along_x {
        0int
    } else if ray.up {
        1
    } else {
        -1
    });
    assert(crossings > 0);
    assert(!less(ray.rmax, dist) && 0 <= cx < g.w && 0 <= cy < g.h);
    assert(dist != num(INFINITY));
    if along_x {
        assert(val(dirx) != 0real);
        lemma_next_cell::<K>(
            val,
            px,
            g.origin.x,
            g.res,
            dirx,
            from.cx as int,
            ray.dx,
            from.tx,
            dist,
        );
        lemma_still_touches(
            val,
            py,
            g.origin.y,
            g.res,
            diry,
            from.cy as int,
            ray.dy,
            from.ty,
            at,
            val(dist),
        );
        if !g.is_occupied(cx, cy) {
            let t = choose|t: Num|
                #[trigger] is_sum::<K>(from.tx, ray.dx, t) && g.is_walk::<K>(
                    ray,
                    RayPlace { cx: cx as usize, cy: cy as usize, tx: t, ty: from.ty },
                    (crossings - 1) as nat,
                    d,
                );
            lemma_next_cell::<K>(
                val,
                px,
                g.origin.x,
                g.res,
                dirx,
                from.cx as int,
                ray.dx,
                from.tx,
                t,
            );
            lemma_walk_stops_at_a_wall::<K>(
                val,
                g,
                px,
                py,
                dirx,
                diry,
                ray,
                RayPlace { cx: cx as usize, cy: cy as usize, tx: t, ty: from.ty },
                (crossings - 1) as nat,
                val(dist),
                d,
            );
        }
    } else {
        assert(val(diry) != 0real);
        lemma_next_cell::<K>(
            val,
            py,
            g.origin.y,
            g.res,
            diry,
            from.cy as int,
            ray.dy,
            from.ty,
            dist,
        );
        lemma_still_touches(
            val,
            px,
            g.origin.x,
            g.res,
            dirx,
            from.cx as int,
            ray.dx,
            from.tx,
            at,
            val(dist),
        );
        if !g.is_occupied(cx, cy) {
            let t = choose|t: Num|
                #[trigger] is_sum::<K>(from.ty, ray.dy, t) && g.is_walk::<K>(
                    ray,
                    RayPlace { cx: cx as usize, cy: cy as usize, tx: from.tx, ty: t },
                    (crossings - 1) as nat,
                    d,
                );
            lemma_next_cell::<K>(
                val,
                py,
                g.origin.y,
                g.res,
                diry,
                from.cy as int,
                ray.dy,
                from.ty,
                t,
            );
            lemma_walk_stops_at_a_wall::<K>(
                val,
                g,
                px,
                py,
                dirx,
                diry,
                ray,
                RayPlace { cx: cx as usize, cy: cy as usize, tx: from.tx, ty: t },
                (crossings - 1) as nat,
                val(dist),
                d,
            );
        }
    }
    if g.is_occupied(cx, cy) {
        assert(val(d) == val(dist));
        assert(g.is_occupied(cx, cy) && touches(
            val,
            g.origin.x,
            g.res,
            cx,
            val(px) + val(dirx) * val(d),
        ));
    }
}

/// The point at the distance `d` along a ray touches an occupied cell.
pub open spec fn stops_at_a_wall(
    val: Reading,
    g: &OccGrid,
    px: Num,
    py: Num,
    dirx: Num,
    diry: Num,
    d: Num,
) -> bool {
    exists|cx: int, cy: int|
        {
            &&& 0 <= cx < g.w && 0 <= cy < g.h
            &&& #[trigger] g.is_occupied(cx, cy)
            &&& touches(val, g.origin.x, g.res, cx, val(px) + val(dirx) * val(d))
            &&& touches(val, g.origin.y, g.res, cy, val(py) + val(diry) * val(d))
        }
}

/// A ray that does not see its range sees a wall: the point at the distance it
/// gives touches an occupied cell.
pub proof fn law_ray_stops_at_a_wall<K: Numerics>(
    val: Reading,
    g: &OccGrid,
    px: Num,
    py: Num,
    dirx: Num,
    diry: Num,
    rmax: Num,
    d: Num,
)
    requires
        scalars_are_exact::<K>(val),
        0real < val(g.res),
        0real < val(num(NANO)),
        is_finite(rmax),
        is_plain_slope(val, dirx),
        is_plain_slope(val, diry),
        g.is_cast::<K>(px, py, dirx, diry, rmax, d),
        d != rmax,
    ensures
        stops_at_a_wall(val, g, px, py, dirx, diry, d),
{
    let c = choose|c: Option<(usize, usize)>|
        #[trigger] g.is_cell_at::<K>(px, py, c) && match c {
            None => d == rmax,
            Some((cx, cy)) => exists|dx: Num, dy: Num, tx: Num, ty: Num|
                {
                    &&& #[trigger] is_axis::<K>(px, g.origin.x, g.res, dirx, cx, dx, tx)
                    &&& #[trigger] is_axis::<K>(py, g.origin.y, g.res, diry, cy, dy, ty)
                    &&& g.is_walk::<K>(
                        Ray {
                            right: less(num(ZERO), dirx),
                            up: less(num(ZERO), diry),
                            dx,
                            dy,
                            rmax,
                        },
                        RayPlace { cx, cy, tx, ty },
                        MAX_CROSSINGS as nat,
                        d,
                    )
                },
        };
    law_cell_holds_its_point::<K>(val, g, px, py, c);
    let (cx, cy) = c->0;
    let (dx, dy, tx, ty) = choose|dx: Num, dy: Num, tx: Num, ty: Num|
        {
            &&& #[trigger] is_axis::<K>(px, g.origin.x, g.res, dirx, cx, dx, tx)
            &&& #[trigger] is_axis::<K>(py, g.origin.y, g.res, diry, cy, dy, ty)
            &&& g.is_walk::<K>(
                Ray { right: less(num(ZERO), dirx), up: less(num(ZERO), diry), dx, dy, rmax },
                RayPlace { cx, cy, tx, ty },
                MAX_CROSSINGS as nat,
                d,
            )
        };
    lemma_first_border::<K>(val, px, g.origin.x, g.res, dirx, cx, dx, tx);
    lemma_first_border::<K>(val, py, g.origin.y, g.res, diry, cy, dy, ty);
    assert(val(dirx) * 0real == 0real && val(diry) * 0real == 0real) by (nonlinear_arith);
    lemma_walk_stops_at_a_wall::<K>(
        val,
        g,
        px,
        py,
        dirx,
        diry,
        Ray { right: less(num(ZERO), dirx), up: less(num(ZERO), diry), dx, dy, rmax },
        RayPlace { cx, cy, tx, ty },
        MAX_CROSSINGS as nat,
        0real,
        d,
    );
}

proof fn lemma_first_border<K: Numerics>(
    val: Reading,
    p: Num,
    origin: Num,
    res: Num,
    dir: Num,
    c: usize,
    step: Num,
    first: Num,
)
    requires
        scalars_are_exact::<K>(val),
        0real < val(res),
        0real < val(num(NANO)),
        is_plain_slope(val, dir),
        holds(val, origin, res, c as int, val(p)),
        is_axis::<K>(p, origin, res, dir, c, step, first),
    ensures
        !is_nan(dir),
        is_leaving(val, p, origin, res, dir, c as int, step, first),
        val(dir) == 0real || 0real <= val(first),
{
    if val(dir) == 0real {
        assert(!less(num(NANO), absolute(dir)));
    } else {
        law_ray_meets_the_border::<K>(val, p, origin, res, dir, c, step, first);
        let (d, f) = (val(dir), val(first));
        if d > 0real {
            assert(d * f >= 0real ==> f >= 0real) by (nonlinear_arith)
                requires
                    d > 0real,
            ;
        } else {
            assert(d * f <= 0real ==> f >= 0real) by (nonlinear_arith)
                requires
                    d < 0real,
            ;
        }
    }
}

/// The coordinate `p` lies between the borders of the cell `k` of an axis.
pub open spec fn is_within(val: Reading, origin: Num, res: Num, k: int, p: real) -> bool {
    val(origin) + k as real * val(res) < p < val(origin) + (k as real + 1real) * val(res)
}

/// Only one cell is touched by what lies inside it.
proof fn lemma_only_cell(val: Reading, origin: Num, res: Num, c: int, k: int, p: real)
    requires
        0real < val(res),
        touches(val, origin, res, c, p),
        is_within(val, origin, res, k, p),
    ensures
        c == k,
{
    let (r, a, b) = (val(res), c as real, k as real);
    assert(a < b + 1real && b < a + 1real) by (nonlinear_arith)
        requires
            0real < r,
            a * r < (b + 1real) * r,
            b * r < (a + 1real) * r,
    ;
}

/// A ray that has left the grid along an axis does not come back.
proof fn lemma_stays_off(
    val: Reading,
    p: Num,
    origin: Num,
    res: Num,
    dir: Num,
    c: int,
    step: Num,
    leave: Num,
    t: real,
    k: int,
    n: int,
)
    requires
        0real < val(res),
        val(dir) != 0real,
        is_leaving(val, p, origin, res, dir, c, step, leave),
        val(leave) <= t,
        0 <= k < n,
        val(dir) > 0real ==> n <= c + 1,
        val(dir) < 0real ==> c <= 0,
    ensures
        !is_within(val, origin, res, k, val(p) + val(dir) * t),
{
    let (d, l, r) = (val(dir), val(leave), val(res));
    let (a, b) = (c as real, k as real);
    if d > 0real {
        assert(d * l <= d * t) by (nonlinear_arith)
            requires
                d > 0real,
                l <= t,
        ;
        assert(b + 1real <= a + 1real);
        assert((b + 1real) * r <= (a + 1real) * r) by (nonlinear_arith)
            requires
                b + 1real <= a + 1real,
                0real < r,
        ;
    } else {
        assert(d * l >= d * t) by (nonlinear_arith)
            requires
                d < 0real,
                l <= t,
        ;
        assert(a * r <= b * r) by (nonlinear_arith)
            requires
                a <= b,
                0real < r,
        ;
    }
}

/// How many cells of an axis with `n` cells a ray has ahead, its own counted.
spec fn ahead(forward: bool, c: int, n: int) -> int {
    if forward {
        n - c
    } else {
        c + 1
    }
}

/// A walk passes no occupied cell before it ends, but for the one it is in.
#[verifier::spinoff_prover]
#[verifier::rlimit(40)]
proof fn lemma_nothing_before<K: Numerics>(
    val: Reading,
    g: &OccGrid,
    px: Num,
    py: Num,
    dirx: Num,
    diry: Num,
    ray: Ray,
    from: RayPlace,
    crossings: nat,
    at: real,
    d: Num,
    t: real,
    kx: int,
    ky: int,
)
    requires
        scalars_are_exact::<K>(val),
        0real < val(g.res),
        is_finite(ray.rmax),
        ray.right == less(num(ZERO), dirx),
        ray.up == less(num(ZERO), diry),
        !is_nan(dirx) && !is_nan(diry),
        is_leaving(val, px, g.origin.x, g.res, dirx, from.cx as int, ray.dx, from.tx),
        is_leaving(val, py, g.origin.y, g.res, diry, from.cy as int, ray.dy, from.ty),
        touches(val, g.origin.x, g.res, from.cx as int, val(px) + val(dirx) * at),
        touches(val, g.origin.y, g.res, from.cy as int, val(py) + val(diry) * at),
        val(dirx) == 0real || at <= val(from.tx),
        val(diry) == 0real || at <= val(from.ty),
        from.cx < g.w && from.cy < g.h,
        ahead(ray.right, from.cx as int, g.w as int) + ahead(ray.up, from.cy as int, g.h as int)
            <= crossings,
        g.is_walk::<K>(ray, from, crossings, d),
        at <= t < val(d),
        0 <= kx < g.w && 0 <= ky < g.h,
        g.is_occupied(kx, ky),
        is_within(val, g.origin.x, g.res, kx, val(px) + val(dirx) * t),
        is_within(val, g.origin.y, g.res, ky, val(py) + val(diry) * t),
    ensures
        kx == from.cx && ky == from.cy,
    decreases crossings,
{
    let along_x = at_most(from.tx, from.ty);
    let dist = if along_x {
        from.tx
    } else {
        from.ty
    };
    let cx = from.cx + (if !along_x {
        0int
    } else if ray.right {
        1
    } else {
        -1
    });
    let cy = from.cy + (if along_x {
        0int
    } else if ray.up {
        1
    } else {
        -1
    });
    assert(crossings > 0);
    assert(val(dist) <= val(from.tx) && val(dist) <= val(from.ty));
    if t < val(dist) {
        lemma_still_touches(
            val,
            px,
            g.origin.x,
            g.res,
            dirx,
            from.cx as int,
            ray.dx,
            from.tx,
            at,
            t,
        );
        lemma_still_touches(
            val,
            py,
            g.origin.y,
            g.res,
            diry,
            from.cy as int,
            ray.dy,
            from.ty,
            at,
            t,
        );
        lemma_only_cell(
            val,
            g.origin.x,
            g.res,
            from.cx as int,
            kx,
            val(px) + val(dirx) * t,
        );
        lemma_only_cell(
            val,
            g.origin.y,
            g.res,
            from.cy as int,
            ky,
            val(py) + val(diry) * t,
        );
    } else if less(ray.rmax, dist) {
        assert(d == ray.rmax);
        assert(val(d) < val(dist));
    } else if along_x {
        assert(from.tx != num(INFINITY));
        assert(val(dirx) != 0real);
        lemma_next_cell::<K>(
            val,
            px,
            g.origin.x,
            g.res,
            dirx,
            from.cx as int,
            ray.dx,
            from.tx,
            dist,
        );
        if !(0 <= cx < g.w) {
            lemma_stays_off(
                val,
                px,
                g.origin.x,
                g.res,
                dirx,
                from.cx as int,
                ray.dx,
                dist,
                t,
                kx,
                g.w as int,
            );
        } else if !g.is_occupied(cx, cy) {
            lemma_still_touches(
                val,
                py,
                g.origin.y,
                g.res,
                diry,
                from.cy as int,
                ray.dy,
                from.ty,
                at,
                val(dist),
            );
            let t0 = choose|t0: Num|
                #[trigger] is_sum::<K>(from.tx, ray.dx, t0) && g.is_walk::<K>(
                    ray,
                    RayPlace { cx: cx as usize, cy: cy as usize, tx: t0, ty: from.ty },
                    (crossings - 1) as nat,
                    d,
                );
            lemma_next_cell::<K>(
                val,
                px,
                g.origin.x,
                g.res,
                dirx,
                from.cx as int,
                ray.dx,
                from.tx,
                t0,
            );
            lemma_nothing_before::<K>(
                val,
                g,
                px,
                py,
                dirx,
                diry,
                ray,
                RayPlace { cx: cx as usize, cy: cy as usize, tx: t0, ty: from.ty },
                (crossings - 1) as nat,
                val(dist),
                d,
                t,
                kx,
                ky,
            );
        }
    } else {
        assert(from.ty != num(INFINITY));
        assert(val(diry) != 0real);
        lemma_next_cell::<K>(
            val,
            py,
            g.origin.y,
            g.res,
            diry,
            from.cy as int,
            ray.dy,
            from.ty,
            dist,
        );
        if !(0 <= cy < g.h) {
            lemma_stays_off(
                val,
                py,
                g.origin.y,
                g.res,
                diry,
                from.cy as int,
                ray.dy,
                dist,
                t,
                ky,
                g.h as int,
            );
        } else if !g.is_occupied(cx, cy) {
            lemma_still_touches(
                val,
                px,
                g.origin.x,
                g.res,
                dirx,
                from.cx as int,
                ray.dx,
                from.tx,
                at,
                val(dist),
            );
            let t0 = choose|t0: Num|
                #[trigger] is_sum::<K>(from.ty, ray.dy, t0) && g.is_walk::<K>(
                    ray,
                    RayPlace { cx: cx as usize, cy: cy as usize, tx: from.tx, ty: t0 },
                    (crossings - 1) as nat,
                    d,
                );
            lemma_next_cell::<K>(
                val,
                py,
                g.origin.y,
                g.res,
                diry,
                from.cy as int,
                ray.dy,
                from.ty,
                t0,
            );
            lemma_nothing_before::<K>(
                val,
                g,
                px,
                py,
                dirx,
                diry,
                ray,
                RayPlace { cx: cx as usize, cy: cy as usize, tx: from.tx, ty: t0 },
                (crossings - 1) as nat,
                val(dist),
                d,
                t,
                kx,
                ky,
            );
        }
    }
}

/// Nothing stands in the way of a ray: at no distance before the one it gives
/// is its point inside an occupied cell, but for the cell it starts in.
pub proof fn law_ray_sees_the_first_wall<K: Numerics>(
    val: Reading,
    g: &OccGrid,
    px: Num,
    py: Num,
    dirx: Num,
    diry: Num,
    rmax: Num,
    d: Num,
    t: real,
    kx: int,
    ky: int,
)
    requires
        scalars_are_exact::<K>(val),
        0real < val(g.res),
        0real < val(num(NANO)),
        is_finite(rmax),
        is_plain_slope(val, dirx),
        is_plain_slope(val, diry),
        g.w + g.h <= 8192,
        val(g.origin.x) <= val(px) < val(g.origin.x) + g.w as real * val(g.res),
        val(g.origin.y) <= val(py) < val(g.origin.y) + g.h as real * val(g.res),
        g.is_cast::<K>(px, py, dirx, diry, rmax, d),
        0real <= t < val(d),
        0 <= kx < g.w && 0 <= ky < g.h,
        g.is_occupied(kx, ky),
        is_within(val, g.origin.x, g.res, kx, val(px) + val(dirx) * t),
        is_within(val, g.origin.y, g.res, ky, val(py) + val(diry) * t),
    ensures
        holds(val, g.origin.x, g.res, kx, val(px)),
        holds(val, g.origin.y, g.res, ky, val(py)),
{
    let c = choose|c: Option<(usize, usize)>|
        #[trigger] g.is_cell_at::<K>(px, py, c) && match c {
            None => d == rmax,
            Some((cx, cy)) => exists|dx: Num, dy: Num, tx: Num, ty: Num|
                {
                    &&& #[trigger] is_axis::<K>(px, g.origin.x, g.res, dirx, cx, dx, tx)
                    &&& #[trigger] is_axis::<K>(py, g.origin.y, g.res, diry, cy, dy, ty)
                    &&& g.is_walk::<K>(
                        Ray {
                            right: less(num(ZERO), dirx),
                            up: less(num(ZERO), diry),
                            dx,
                            dy,
                            rmax,
                        },
                        RayPlace { cx, cy, tx, ty },
                        MAX_CROSSINGS as nat,
                        d,
                    )
                },
        };
    law_cell_holds_its_point::<K>(val, g, px, py, c);
    let (cx, cy) = c->0;
    let (dx, dy, tx, ty) = choose|dx: Num, dy: Num, tx: Num, ty: Num|
        {
            &&& #[trigger] is_axis::<K>(px, g.origin.x, g.res, dirx, cx, dx, tx)
            &&& #[trigger] is_axis::<K>(py, g.origin.y, g.res, diry, cy, dy, ty)
            &&& g.is_walk::<K>(
                Ray { right: less(num(ZERO), dirx), up: less(num(ZERO), diry), dx, dy, rmax },
                RayPlace { cx, cy, tx, ty },
                MAX_CROSSINGS as nat,
                d,
            )
        };
    lemma_first_border::<K>(val, px, g.origin.x, g.res, dirx, cx, dx, tx);
    lemma_first_border::<K>(val, py, g.origin.y, g.res, diry, cy, dy, ty);
    assert(val(dirx) * 0real == 0real && val(diry) * 0real == 0real) by (nonlinear_arith);
    lemma_nothing_before::<K>(
        val,
        g,
        px,
        py,
        dirx,
        diry,
        Ray { right: less(num(ZERO), dirx), up: less(num(ZERO), diry), dx, dy, rmax },
        RayPlace { cx, cy, tx, ty },
        MAX_CROSSINGS as nat,
        0real,
        d,
        t,
        kx,
        ky,
    );
}

/// A ray from a point off the grid sees its range.
pub proof fn law_ray_from_outside<K: Numerics>(
    val: Reading,
    g: &OccGrid,
    px: Num,
    py: Num,
    dirx: Num,
    diry: Num,
    rmax: Num,
    d: Num,
)
    requires
        scalars_are_exact::<K>(val),
        0real < val(g.res),
        g.is_cast::<K>(px, py, dirx, diry, rmax, d),
        val(px) < val(g.origin.x) || val(py) < val(g.origin.y) || val(g.origin.x) + g.w as real
            * val(g.res) <= val(px) || val(g.origin.y) + g.h as real * val(g.res) <= val(py),
    ensures
        d == rmax,
{
    let c = choose|c: Option<(usize, usize)>|
        #[trigger] g.is_cell_at::<K>(px, py, c) && (c is None ==> d == rmax);
    law_cell_holds_its_point::<K>(val, g, px, py, c);
    if let Some((cx, cy)) = c {
        let (r, x, y) = (val(g.res), cx as real, cy as real);
        assert(0real <= x * r && (x + 1real) * r <= g.w as real * r) by (nonlinear_arith)
            requires
                0real < r,
                0real <= x,
                x + 1real <= g.w as real,
        ;
        assert(0real <= y * r && (y + 1real) * r <= g.h as real * r) by (nonlinear_arith)
            requires
                0real < r,
                0real <= y,
                y + 1real <= g.h as real,
        ;
    }
}

/// What a scan holds for beam `i` is what a ray from the same point sees within
/// the same range, along the cosine and the sine of `theta` and the beam's part
/// of the span.
pub proof fn law_scan_looks_along_its_beams<K: Numerics>(
    val: Reading,
    g: &OccGrid,
    x: Num,
    y: Num,
    theta: Num,
    n: usize,
    span: Num,
    rmax: Num,
    scan: Vec<Num>,
    i: int,
)
    requires
        scalars_are_exact::<K>(val),
        call_ensures(OccGrid::map_scan::<K>, (g, x, y, theta, n, span, rmax), scan),
        0 <= i < n,
    ensures
        scan@.len() == n,
        exists|a: Num, sine: Num, cosine: Num|
            {
                &&& #[trigger] call_ensures(K::sin_cos, (a,), (sine, cosine))
                &&& val(a) == val(theta) + (if n > 1 {
                    val(span) * i as real / (n - 1) as real
                } else {
                    0real
                })
                &&& g.is_cast::<K>(x, y, cosine, sine, rmax, scan@[i])
            },
{
    assert(g.is_beam::<K>(x, y, theta, n as nat, span, rmax, i, scan@[i]));
    let (a, sc) = choose|a: Num, sc: (Num, Num)|
        {
            &&& OccGrid::is_angle::<K>(theta, span, n as nat, i, a)
            &&& #[trigger] is_sin_cos::<K>(a, sc)
            &&& g.is_cast::<K>(x, y, sc.1, sc.0, rmax, scan@[i])
        };
    law_beams_are_spread_over_the_span::<K>(val, theta, span, n as nat, i, a);
    assert(call_ensures(K::sin_cos, (a,), (sc.0, sc.1)));
}

/// The score of a pose is how far the scan is off what the pose sees: the sum
/// of the distances between the two, beam by beam.
pub proof fn law_score_is_how_far_off<K: Numerics>(
    val: Reading,
    g: &OccGrid,
    scan: &[Num],
    x: Num,
    y: Num,
    theta: Num,
    span: Num,
    rmax: Num,
    r: Num,
    seen: Seq<Num>,
)
    requires
        scalars_repeat::<K>(),
        scalars_are_exact::<K>(val),
        call_ensures(OccGrid::caer_of::<K>, (g, scan, x, y, theta, span, rmax), r),
        g.is_scan::<K>(x, y, theta, scan@.len(), span, rmax, seen),
    ensures
        val(r) == total(
            scan@.len(),
            |i: int|
                if val(scan@[i]) < val(seen[i]) {
                    val(seen[i]) - val(scan@[i])
                } else {
                    val(scan@[i]) - val(seen[i])
                },
        ),
{
    let own = choose|own: Seq<Num>|
        #[trigger] g.is_scan::<K>(x, y, theta, scan@.len(), span, rmax, own) && is_error_sum::<K>(
            scan@,
            own,
            scan@.len(),
            r,
        );
    law_scan_repeats::<K>(g, x, y, theta, scan@.len(), span, rmax, own, seen);
    law_error_is_the_sum_of_gaps::<K>(val, scan@, seen, scan@.len(), r);
}

/// Hypothesis `i` of a localizer takes four draws of its own behind those of
/// the hypotheses before it, and its score is that of its own pose over the
/// set span and range.
pub proof fn law_each_hypothesis<K: Numerics>(
    loc: &CpuGlobalLoc,
    scan: Seq<Num>,
    scored: Seq<PoseHypothesis>,
    i: int,
)
    requires
        loc.is_scored::<K>(scan, scored),
        0 <= i < scored.len(),
    ensures
        scored.len() == loc.params.hypotheses,
        is_dispersed::<K>(
            &loc.grid,
            xorshift_after(loc.params.seed | 1, (4 * i) as nat),
            (scored[i].x, scored[i].y, scored[i].theta),
        ),
        loc.grid.is_caer::<K>(
            scan,
            scored[i].x,
            scored[i].y,
            scored[i].theta,
            loc.params.ang_span,
            loc.params.rmax,
            scored[i].caer,
        ),
{
    assert(loc.is_scored_at::<K>(scan, i, scored[i]));
}

} // verus!
