//! Laws of ray casts and scan errors, where the arithmetic behaves.
//!
//! Each law names what it asks of the arithmetic: that equal arguments give
//! equal results, that sums of non-negative numbers do not fall, and the like.
//! Binary64 arithmetic does all of it.
use vstd::prelude::*;

use crate::grid::{is_axis, is_error_sum, OccGrid, Ray, RayPlace, MAX_CROSSINGS};
use crate::num::{absolute, at_most, is_finite, is_nan, less, num, rank, same, smaller, Num, ZERO};
use crate::numerics::{is_difference, is_sin_cos, is_sum, Numerics};
use crate::repeat::scalars_repeat;

verus! {

/// A sum of non-negative numbers is not below either of them, and zero where
/// both are.
pub open spec fn sums_never_fall<K: Numerics>() -> bool {
    forall|a: Num, b: Num, r: Num| #[trigger]
        is_sum::<K>(a, b, r) && at_most(num(ZERO), a) && at_most(num(ZERO), b) ==> {
            &&& at_most(a, r)
            &&& at_most(b, r)
            &&& rank(a) == 0 && rank(b) == 0 ==> rank(r) == 0
        }
}

/// The difference of two finite numbers is zero exactly where they are equal.
pub open spec fn differences_tell<K: Numerics>() -> bool {
    forall|a: Num, b: Num, r: Num| #[trigger]
        is_difference::<K>(a, b, r) && is_finite(a) && is_finite(b) ==> {
            &&& !is_nan(r)
            &&& rank(r) == 0 <==> same(a, b)
        }
}

proof fn lemma_cell_repeats<K: Numerics>(
    g: &OccGrid,
    x: Num,
    y: Num,
    c: Option<(usize, usize)>,
    d: Option<(usize, usize)>,
)
    requires
        scalars_repeat::<K>(),
        g.is_cell_at::<K>(x, y, c),
        g.is_cell_at::<K>(x, y, d),
    ensures
        c == d,
{
}

proof fn lemma_axis_repeats<K: Numerics>(
    p: Num,
    origin: Num,
    res: Num,
    dir: Num,
    c: usize,
    s: Num,
    f: Num,
    s2: Num,
    f2: Num,
)
    requires
        scalars_repeat::<K>(),
        is_axis::<K>(p, origin, res, dir, c, s, f),
        is_axis::<K>(p, origin, res, dir, c, s2, f2),
    ensures
        s == s2 && f == f2,
{
}

/// How far the next border of a walk is.
pub open spec fn next_border(from: RayPlace) -> Num {
    if at_most(from.tx, from.ty) {
        from.tx
    } else {
        from.ty
    }
}

/// A walk that has only non-negative distances before it.
pub open spec fn goes_forward(ray: Ray, from: RayPlace) -> bool {
    &&& at_most(num(ZERO), ray.dx)
    &&& at_most(num(ZERO), ray.dy)
    &&& at_most(num(ZERO), from.tx)
    &&& at_most(num(ZERO), from.ty)
}

/// The column and the row of the cell behind the next border.
spec fn cell_ahead(ray: Ray, from: RayPlace) -> (int, int) {
    let along_x = at_most(from.tx, from.ty);
    (
        from.cx + (if !along_x {
            0int
        } else if ray.right {
            1
        } else {
            -1
        }),
        from.cy + (if along_x {
            0int
        } else if ray.up {
            1
        } else {
            -1
        }),
    )
}

/// The next border is in range, with a cell of the grid behind it.
spec fn is_reachable(g: &OccGrid, ray: Ray, from: RayPlace) -> bool {
    let (cx, cy) = cell_ahead(ray, from);
    !less(ray.rmax, next_border(from)) && 0 <= cx < g.w && 0 <= cy < g.h
}

/// The cell ahead is occupied.
spec fn is_blocked(g: &OccGrid, ray: Ray, from: RayPlace) -> bool {
    let (cx, cy) = cell_ahead(ray, from);
    g.is_occupied(cx, cy)
}

/// The walk goes on from `from` to `next`.
spec fn is_crossing<K: Numerics>(ray: Ray, from: RayPlace, next: RayPlace) -> bool {
    let (cx, cy) = cell_ahead(ray, from);
    &&& next.cx == cx && next.cy == cy
    &&& if at_most(from.tx, from.ty) {
        is_sum::<K>(from.tx, ray.dx, next.tx) && next.ty == from.ty
    } else {
        is_sum::<K>(from.ty, ray.dy, next.ty) && next.tx == from.tx
    }
}

/// A walk ends at its next border, or it goes on.
proof fn lemma_walk_goes_on<K: Numerics>(
    g: &OccGrid,
    ray: Ray,
    from: RayPlace,
    n: nat,
    d: Num,
) -> (next: RayPlace)
    requires
        n > 0,
        g.is_walk::<K>(ray, from, n, d),
    ensures
        if !is_reachable(g, ray, from) {
            d == ray.rmax
        } else if is_blocked(g, ray, from) {
            d == smaller(next_border(from), ray.rmax)
        } else {
            is_crossing::<K>(ray, from, next) && g.is_walk::<K>(ray, next, (n - 1) as nat, d)
        },
{
    let (cx, cy) = cell_ahead(ray, from);
    if !is_reachable(g, ray, from) || is_blocked(g, ray, from) {
        from
    } else if at_most(from.tx, from.ty) {
        let t = choose|t: Num|
            #[trigger] is_sum::<K>(from.tx, ray.dx, t) && g.is_walk::<K>(
                ray,
                RayPlace { cx: cx as usize, cy: cy as usize, tx: t, ty: from.ty },
                (n - 1) as nat,
                d,
            );
        RayPlace { cx: cx as usize, cy: cy as usize, tx: t, ty: from.ty }
    } else {
        let t = choose|t: Num|
            #[trigger] is_sum::<K>(from.ty, ray.dy, t) && g.is_walk::<K>(
                ray,
                RayPlace { cx: cx as usize, cy: cy as usize, tx: from.tx, ty: t },
                (n - 1) as nat,
                d,
            );
        RayPlace { cx: cx as usize, cy: cy as usize, tx: from.tx, ty: t }
    }
}

/// Borders come one behind the other.
proof fn lemma_crossing<K: Numerics>(ray: Ray, from: RayPlace, next: RayPlace)
    requires
        sums_never_fall::<K>(),
        goes_forward(ray, from),
        is_crossing::<K>(ray, from, next),
    ensures
        goes_forward(ray, next),
        at_most(next_border(from), next_border(next)),
{
}

/// A walk tells no distance short of its next border, but for its range.
proof fn lemma_walk_is_far<K: Numerics>(g: &OccGrid, ray: Ray, from: RayPlace, n: nat, d: Num)
    requires
        sums_never_fall::<K>(),
        !is_nan(ray.rmax),
        goes_forward(ray, from),
        g.is_walk::<K>(ray, from, n, d),
    ensures
        !is_nan(d),
        at_most(smaller(next_border(from), ray.rmax), d),
        at_most(d, ray.rmax),
    decreases n,
{
    if n > 0 {
        let next = lemma_walk_goes_on::<K>(g, ray, from, n, d);
        if is_reachable(g, ray, from) && !is_blocked(g, ray, from) {
            lemma_crossing::<K>(ray, from, next);
            lemma_walk_is_far::<K>(g, ray, next, (n - 1) as nat, d);
        }
    }
}

/// The same ray with another range.
pub open spec fn ranged(ray: Ray, rmax: Num) -> Ray {
    Ray { rmax, ..ray }
}

proof fn lemma_walk_clips<K: Numerics>(
    g: &OccGrid,
    ray: Ray,
    from: RayPlace,
    n: nat,
    r1: Num,
    r2: Num,
    d1: Num,
    d2: Num,
)
    requires
        scalars_repeat::<K>(),
        sums_never_fall::<K>(),
        at_most(r1, r2),
        goes_forward(ray, from),
        g.is_walk::<K>(ranged(ray, r1), from, n, d1),
        g.is_walk::<K>(ranged(ray, r2), from, n, d2),
    ensures
        same(d1, smaller(d2, r1)),
    decreases n,
{
    lemma_walk_is_far::<K>(g, ranged(ray, r1), from, n, d1);
    lemma_walk_is_far::<K>(g, ranged(ray, r2), from, n, d2);
    if n > 0 {
        let a = lemma_walk_goes_on::<K>(g, ranged(ray, r1), from, n, d1);
        let b = lemma_walk_goes_on::<K>(g, ranged(ray, r2), from, n, d2);
        assert(cell_ahead(ranged(ray, r1), from) == cell_ahead(ranged(ray, r2), from));
        if is_reachable(g, ranged(ray, r1), from) && !is_blocked(g, ranged(ray, r1), from) {
            assert(a == b);
            lemma_crossing::<K>(ranged(ray, r1), from, a);
            lemma_walk_clips::<K>(g, ray, a, (n - 1) as nat, r1, r2, d1, d2);
        }
    }
}

/// The second grid has the frame of the first, and is occupied wherever the
/// first is.
pub open spec fn has_more_obstacles(a: &OccGrid, b: &OccGrid) -> bool {
    &&& a.w == b.w
    &&& a.h == b.h
    &&& a.res == b.res
    &&& a.origin == b.origin
    &&& forall|x: int, y: int|
        0 <= x < a.w && 0 <= y < a.h && #[trigger] a.is_occupied(x, y) ==> b.is_occupied(x, y)
}

proof fn lemma_walk_shortens<K: Numerics>(
    a: &OccGrid,
    b: &OccGrid,
    ray: Ray,
    from: RayPlace,
    n: nat,
    da: Num,
    db: Num,
)
    requires
        scalars_repeat::<K>(),
        sums_never_fall::<K>(),
        has_more_obstacles(a, b),
        !is_nan(ray.rmax),
        goes_forward(ray, from),
        a.is_walk::<K>(ray, from, n, da),
        b.is_walk::<K>(ray, from, n, db),
    ensures
        at_most(db, da),
    decreases n,
{
    lemma_walk_is_far::<K>(a, ray, from, n, da);
    lemma_walk_is_far::<K>(b, ray, from, n, db);
    if n > 0 {
        let p = lemma_walk_goes_on::<K>(a, ray, from, n, da);
        let q = lemma_walk_goes_on::<K>(b, ray, from, n, db);
        if is_reachable(a, ray, from) && !is_blocked(b, ray, from) {
            assert(!is_blocked(a, ray, from));
            assert(p == q);
            lemma_crossing::<K>(ray, from, p);
            lemma_walk_shortens::<K>(a, b, ray, p, (n - 1) as nat, da, db);
        }
    }
}

/// The distances that the ray measures are non-negative, as they are of a
/// point in its cell on a grid of positive resolution.
pub open spec fn measures_forward<K: Numerics>(
    g: &OccGrid,
    px: Num,
    py: Num,
    dirx: Num,
    diry: Num,
) -> bool {
    forall|cx: usize, cy: usize, dx: Num, dy: Num, tx: Num, ty: Num|
        g.is_cell_at::<K>(px, py, Some((cx, cy))) && #[trigger] is_axis::<K>(
            px,
            g.origin.x,
            g.res,
            dirx,
            cx,
            dx,
            tx,
        ) && #[trigger] is_axis::<K>(py, g.origin.y, g.res, diry, cy, dy, ty) ==> {
            &&& at_most(num(ZERO), dx)
            &&& at_most(num(ZERO), dy)
            &&& at_most(num(ZERO), tx)
            &&& at_most(num(ZERO), ty)
        }
}

/// The start of a cast: none outside the grid.
spec fn is_start<K: Numerics>(
    g: &OccGrid,
    px: Num,
    py: Num,
    dirx: Num,
    diry: Num,
    rmax: Num,
    start: Option<(Ray, RayPlace)>,
    d: Num,
) -> bool {
    match start {
        None => g.is_cell_at::<K>(px, py, None) && d == rmax,
        Some((ray, at)) => {
            &&& g.is_cell_at::<K>(px, py, Some((at.cx, at.cy)))
            &&& is_axis::<K>(px, g.origin.x, g.res, dirx, at.cx, ray.dx, at.tx)
            &&& is_axis::<K>(py, g.origin.y, g.res, diry, at.cy, ray.dy, at.ty)
            &&& ray.right == less(num(ZERO), dirx)
            &&& ray.up == less(num(ZERO), diry)
            &&& g.is_walk::<K>(ranged(ray, rmax), at, MAX_CROSSINGS as nat, d)
        },
    }
}

proof fn lemma_start<K: Numerics>(
    g: &OccGrid,
    px: Num,
    py: Num,
    dirx: Num,
    diry: Num,
    rmax: Num,
    d: Num,
) -> (start: Option<(Ray, RayPlace)>)
    requires
        g.is_cast::<K>(px, py, dirx, diry, rmax, d),
    ensures
        is_start::<K>(g, px, py, dirx, diry, rmax, start, d),
        start matches Some(s) ==> s.0.rmax == rmax,
{
    let c = choose|c: Option<(usize, usize)>|
        #[trigger] g.is_cell_at::<K>(px, py, c) && match c {
            None => d == rmax,
            Some((cx, cy)) => exists|dx: Num, dy: Num, tx: Num, ty: Num|
                {
                    &&& #[trigger] is_axis::<K>(px, g.origin.x, g.res, dirx, cx, dx, tx)
                    &&& #[trigger] is_axis::<K>(py, g.origin.y, g.res, diry, cy, dy, ty)
                    &&& g.is_walk::<K>(
                        Ray {
                            right: less(num(ZERO), dirx),
                            up: less(num(ZERO), diry),
                            dx,
                            dy,
                            rmax,
                        },
                        RayPlace { cx, cy, tx, ty },
                        MAX_CROSSINGS as nat,
                        d,
                    )
                },
        };
    match c {
        None => None,
        Some((cx, cy)) => {
            let (dx, dy, tx, ty) = choose|dx: Num, dy: Num, tx: Num, ty: Num|
                {
                    &&& #[trigger] is_axis::<K>(px, g.origin.x, g.res, dirx, cx, dx, tx)
                    &&& #[trigger] is_axis::<K>(py, g.origin.y, g.res, diry, cy, dy, ty)
                    &&& g.is_walk::<K>(
                        Ray {
                            right: less(num(ZERO), dirx),
                            up: less(num(ZERO), diry),
                            dx,
                            dy,
                            rmax,
                        },
                        RayPlace { cx, cy, tx, ty },
                        MAX_CROSSINGS as nat,
                        d,
                    )
                };
            let ray = Ray {
                right: less(num(ZERO), dirx),
                up: less(num(ZERO), diry),
                dx,
                dy,
                rmax,
            };
            assert(ranged(ray, rmax) == ray);
            Some((ray, RayPlace { cx, cy, tx, ty }))
        },
    }
}

/// Shortening the range only clips the answer, and no answer is negative or
/// beyond its range.
pub proof fn law_shorter_range_clips<K: Numerics>(
    g: &OccGrid,
    px: Num,
    py: Num,
    dirx: Num,
    diry: Num,
    r1: Num,
    r2: Num,
    d1: Num,
    d2: Num,
)
    requires
        scalars_repeat::<K>(),
        sums_never_fall::<K>(),
        measures_forward::<K>(g, px, py, dirx, diry),
        at_most(num(ZERO), r1),
        at_most(r1, r2),
        g.is_cast::<K>(px, py, dirx, diry, r1, d1),
        g.is_cast::<K>(px, py, dirx, diry, r2, d2),
    ensures
        same(d1, smaller(d2, r1)),
        at_most(num(ZERO), d1) && at_most(d1, r1),
        at_most(num(ZERO), d2) && at_most(d2, r2),
{
    let a = lemma_start::<K>(g, px, py, dirx, diry, r1, d1);
    let b = lemma_start::<K>(g, px, py, dirx, diry, r2, d2);
    let ca = match a {
        None => None,
        Some((_, at)) => Some((at.cx, at.cy)),
    };
    let cb = match b {
        None => None,
        Some((_, at)) => Some((at.cx, at.cy)),
    };
    lemma_cell_repeats::<K>(g, px, py, ca, cb);
    if let (Some((ray, at)), Some((ray2, at2))) = (a, b) {
        lemma_axis_repeats::<K>(
            px,
            g.origin.x,
            g.res,
            dirx,
            at.cx,
            ray.dx,
            at.tx,
            ray2.dx,
            at2.tx,
        );
        lemma_axis_repeats::<K>(
            py,
            g.origin.y,
            g.res,
            diry,
            at.cy,
            ray.dy,
            at.ty,
            ray2.dy,
            at2.ty,
        );
        assert(at == at2 && ranged(ray, r2) == ranged(ray2, r2));
        lemma_walk_is_far::<K>(g, ranged(ray, r1), at, MAX_CROSSINGS as nat, d1);
        lemma_walk_is_far::<K>(g, ranged(ray, r2), at, MAX_CROSSINGS as nat, d2);
        lemma_walk_clips::<K>(g, ray, at, MAX_CROSSINGS as nat, r1, r2, d1, d2);
    }
}

/// Adding obstacles never lengthens a ray.
pub proof fn law_obstacles_never_lengthen<K: Numerics>(
    a: &OccGrid,
    b: &OccGrid,
    px: Num,
    py: Num,
    dirx: Num,
    diry: Num,
    rmax: Num,
    da: Num,
    db: Num,
)
    requires
        scalars_repeat::<K>(),
        sums_never_fall::<K>(),
        measures_forward::<K>(a, px, py, dirx, diry),
        has_more_obstacles(a, b),
        !is_nan(rmax),
        a.is_cast::<K>(px, py, dirx, diry, rmax, da),
        b.is_cast::<K>(px, py, dirx, diry, rmax, db),
    ensures
        at_most(db, da),
{
    let p = lemma_start::<K>(a, px, py, dirx, diry, rmax, da);
    let q = lemma_start::<K>(b, px, py, dirx, diry, rmax, db);
    let cp = match p {
        None => None,
        Some((_, at)) => Some((at.cx, at.cy)),
    };
    let cq = match q {
        None => None,
        Some((_, at)) => Some((at.cx, at.cy)),
    };
    assert(a.is_cell_at::<K>(px, py, cq));
    lemma_cell_repeats::<K>(a, px, py, cp, cq);
    if let (Some((ray, at)), Some((ray2, at2))) = (p, q) {
        lemma_axis_repeats::<K>(
            px,
            a.origin.x,
            a.res,
            dirx,
            at.cx,
            ray.dx,
            at.tx,
            ray2.dx,
            at2.tx,
        );
        lemma_axis_repeats::<K>(
            py,
            a.origin.y,
            a.res,
            diry,
            at.cy,
            ray.dy,
            at.ty,
            ray2.dy,
            at2.ty,
        );
        assert(at == at2 && ray == ray2 && ranged(ray, rmax) == ray);
        lemma_walk_shortens::<K>(a, b, ray, at, MAX_CROSSINGS as nat, da, db);
    }
}

proof fn lemma_angle_repeats<K: Numerics>(theta: Num, span: Num, n: nat, i: int, a: Num, b: Num)
    requires
        scalars_repeat::<K>(),
        OccGrid::is_angle::<K>(theta, span, n, i, a),
        OccGrid::is_angle::<K>(theta, span, n, i, b),
    ensures
        a == b,
{
}

proof fn lemma_walk_repeats<K: Numerics>(
    g: &OccGrid,
    ray: Ray,
    from: RayPlace,
    n: nat,
    d: Num,
    e: Num,
)
    requires
        scalars_repeat::<K>(),
        g.is_walk::<K>(ray, from, n, d),
        g.is_walk::<K>(ray, from, n, e),
    ensures
        d == e,
    decreases n,
{
    if n > 0 {
        let p = lemma_walk_goes_on::<K>(g, ray, from, n, d);
        let q = lemma_walk_goes_on::<K>(g, ray, from, n, e);
        if is_reachable(g, ray, from) && !is_blocked(g, ray, from) {
            assert(p == q);
            lemma_walk_repeats::<K>(g, ray, p, (n - 1) as nat, d, e);
        }
    }
}

pub(crate) proof fn lemma_cast_repeats<K: Numerics>(
    g: &OccGrid,
    px: Num,
    py: Num,
    dirx: Num,
    diry: Num,
    rmax: Num,
    d: Num,
    e: Num,
)
    requires
        scalars_repeat::<K>(),
        g.is_cast::<K>(px, py, dirx, diry, rmax, d),
        g.is_cast::<K>(px, py, dirx, diry, rmax, e),
    ensures
        d == e,
{
    let p = lemma_start::<K>(g, px, py, dirx, diry, rmax, d);
    let q = lemma_start::<K>(g, px, py, dirx, diry, rmax, e);
    let cp = match p {
        None => None,
        Some((_, at)) => Some((at.cx, at.cy)),
    };
    let cq = match q {
        None => None,
        Some((_, at)) => Some((at.cx, at.cy)),
    };
    lemma_cell_repeats::<K>(g, px, py, cp, cq);
    if let (Some((ray, at)), Some((ray2, at2))) = (p, q) {
        lemma_axis_repeats::<K>(
            px,
            g.origin.x,
            g.res,
            dirx,
            at.cx,
            ray.dx,
            at.tx,
            ray2.dx,
            at2.tx,
        );
        lemma_axis_repeats::<K>(
            py,
            g.origin.y,
            g.res,
            diry,
            at.cy,
            ray.dy,
            at.ty,
            ray2.dy,
            at2.ty,
        );
        assert(at == at2 && ray == ray2 && ranged(ray, rmax) == ray);
        lemma_walk_repeats::<K>(g, ray, at, MAX_CROSSINGS as nat, d, e);
    }
}

/// Two scans of one pose are equal, where equal arguments give equal results.
pub proof fn law_scan_repeats<K: Numerics>(
    g: &OccGrid,
    x: Num,
    y: Num,
    theta: Num,
    n: nat,
    span: Num,
    rmax: Num,
    a: Seq<Num>,
    b: Seq<Num>,
)
    requires
        scalars_repeat::<K>(),
        g.is_scan::<K>(x, y, theta, n, span, rmax, a),
        g.is_scan::<K>(x, y, theta, n, span, rmax, b),
    ensures
        a == b,
{
    assert forall|i: int| 0 <= i < n implies a[i] == b[i] by {
        assert(g.is_beam::<K>(x, y, theta, n, span, rmax, i, a[i]));
        assert(g.is_beam::<K>(x, y, theta, n, span, rmax, i, b[i]));
        let (t, sc) = choose|t: Num, sc: (Num, Num)|
            {
                &&& OccGrid::is_angle::<K>(theta, span, n, i, t)
                &&& #[trigger] is_sin_cos::<K>(t, sc)
                &&& g.is_cast::<K>(x, y, sc.1, sc.0, rmax, a[i])
            };
        let (t2, sc2) = choose|t: Num, sc: (Num, Num)|
            {
                &&& OccGrid::is_angle::<K>(theta, span, n, i, t)
                &&& #[trigger] is_sin_cos::<K>(t, sc)
                &&& g.is_cast::<K>(x, y, sc.1, sc.0, rmax, b[i])
            };
        lemma_angle_repeats::<K>(theta, span, n, i, t, t2);
        lemma_cast_repeats::<K>(g, x, y, sc.1, sc.0, rmax, a[i], b[i]);
    }
    assert(a =~= b);
}

proof fn lemma_error_sum_repeats<K: Numerics>(a: Seq<Num>, b: Seq<Num>, n: nat, r: Num, s: Num)
    requires
        scalars_repeat::<K>(),
        is_error_sum::<K>(a, b, n, r),
        is_error_sum::<K>(a, b, n, s),
    ensures
        r == s,
    decreases n,
{
    if n > 0 {
        let (d, p) = choose|d: Num, p: Num|
            {
                &&& is_error_sum::<K>(a, b, (n - 1) as nat, d)
                &&& #[trigger] is_difference::<K>(a[n - 1], b[n - 1], p)
                &&& #[trigger] is_sum::<K>(d, absolute(p), r)
            };
        let (d2, p2) = choose|d: Num, p: Num|
            {
                &&& is_error_sum::<K>(a, b, (n - 1) as nat, d)
                &&& #[trigger] is_difference::<K>(a[n - 1], b[n - 1], p)
                &&& #[trigger] is_sum::<K>(d, absolute(p), s)
            };
        lemma_error_sum_repeats::<K>(a, b, (n - 1) as nat, d, d2);
    }
}

/// Two scores of one pose against one scan are equal, where equal arguments
/// give equal results.
pub proof fn law_caer_repeats<K: Numerics>(
    g: &OccGrid,
    real_scan: Seq<Num>,
    x: Num,
    y: Num,
    theta: Num,
    span: Num,
    rmax: Num,
    r: Num,
    s: Num,
)
    requires
        scalars_repeat::<K>(),
        g.is_caer::<K>(real_scan, x, y, theta, span, rmax, r),
        g.is_caer::<K>(real_scan, x, y, theta, span, rmax, s),
    ensures
        r == s,
{
    let a = choose|scan: Seq<Num>|
        #[trigger] g.is_scan::<K>(x, y, theta, real_scan.len(), span, rmax, scan) && is_error_sum::<K>(
            real_scan,
            scan,
            real_scan.len(),
            r,
        );
    let b = choose|scan: Seq<Num>|
        #[trigger] g.is_scan::<K>(x, y, theta, real_scan.len(), span, rmax, scan) && is_error_sum::<K>(
            real_scan,
            scan,
            real_scan.len(),
            s,
        );
    law_scan_repeats::<K>(g, x, y, theta, real_scan.len(), span, rmax, a, b);
    lemma_error_sum_repeats::<K>(real_scan, a, real_scan.len(), r, s);
}

proof fn lemma_error_sum_is_distance<K: Numerics>(a: Seq<Num>, b: Seq<Num>, n: nat, r: Num)
    requires
        sums_never_fall::<K>(),
        differences_tell::<K>(),
        n <= a.len(),
        n <= b.len(),
        forall|i: int| 0 <= i < n ==> is_finite(#[trigger] a[i]) && is_finite(b[i]),
        is_error_sum::<K>(a, b, n, r),
    ensures
        at_most(num(ZERO), r),
        rank(r) == 0 <==> forall|i: int| 0 <= i < n ==> same(#[trigger] a[i], b[i]),
    decreases n,
{
    if n > 0 {
        let (d, p) = choose|d: Num, p: Num|
            {
                &&& is_error_sum::<K>(a, b, (n - 1) as nat, d)
                &&& #[trigger] is_difference::<K>(a[n - 1], b[n - 1], p)
                &&& #[trigger] is_sum::<K>(d, absolute(p), r)
            };
        lemma_error_sum_is_distance::<K>(a, b, (n - 1) as nat, d);
        assert(is_finite(a[n - 1]) && is_finite(b[n - 1]));
        assert(at_most(num(ZERO), absolute(p)));
        assert(rank(absolute(p)) == 0 <==> rank(p) == 0);
        if rank(r) == 0 {
            assert(rank(d) == 0 && rank(p) == 0);
            assert forall|i: int| 0 <= i < n implies same(#[trigger] a[i], b[i]) by {
                if i < n - 1 {
                    assert(same(a[i], b[i]));
                }
            }
        }
        if forall|i: int| 0 <= i < n ==> same(#[trigger] a[i], b[i]) {
            assert(same(a[n - 1], b[n - 1]));
        }
    }
}

/// A score is never negative, and zero exactly where the scan is what the
/// pose sees: a pose scored against its own map-scan gets 0.
pub proof fn law_own_scan_scores_zero<K: Numerics>(
    g: &OccGrid,
    real_scan: Seq<Num>,
    x: Num,
    y: Num,
    theta: Num,
    span: Num,
    rmax: Num,
    seen: Seq<Num>,
    r: Num,
)
    requires
        scalars_repeat::<K>(),
        sums_never_fall::<K>(),
        differences_tell::<K>(),
        g.is_scan::<K>(x, y, theta, real_scan.len(), span, rmax, seen),
        forall|i: int|
            0 <= i < real_scan.len() ==> is_finite(#[trigger] real_scan[i]) && is_finite(seen[i]),
        g.is_caer::<K>(real_scan, x, y, theta, span, rmax, r),
    ensures
        at_most(num(ZERO), r),
        rank(r) == 0 <==> forall|i: int|
            0 <= i < real_scan.len() ==> same(#[trigger] real_scan[i], seen[i]),
{
    let a = choose|scan: Seq<Num>|
        #[trigger] g.is_scan::<K>(x, y, theta, real_scan.len(), span, rmax, scan) && is_error_sum::<K>(
            real_scan,
            scan,
            real_scan.len(),
            r,
        );
    law_scan_repeats::<K>(g, x, y, theta, real_scan.len(), span, rmax, a, seen);
    lemma_error_sum_is_distance::<K>(real_scan, seen, real_scan.len(), r);
}

} // verus!
