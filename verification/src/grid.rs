//! Occupancy grids: reading them from a picture, and casting rays in them.
use vstd::prelude::*;

use crate::map_yaml::{
    coordinate, coordinates, has_number, is_list, number_of, origin_of, origin_text,
};
use crate::num::{
    absolute, at_most, is_nan, less, num, smaller, Num, INFINITY, N255, NANO, ONE, P65, ZERO,
};
use crate::numerics::{
    difference, from_u64, is_difference, is_from_u64, is_product, is_quotient, is_sin_cos, is_sum,
    is_to_index, product, quotient, sin_cos, sum, to_index, Numerics,
};
use crate::pgm::{image, read_image};
use crate::text::{chars_of, lines, split_lines, views};
use crate::types::Vector2;

verus! {

/// A ray crosses this many cell borders at most.
pub const MAX_CROSSINGS: usize = 8192;

/// 2D occupancy grid: row-major, 1 = occupied, meters-per-cell resolution.
#[derive(Debug, Clone)]
pub struct OccGrid {
    pub w: usize,
    pub h: usize,
    pub res: Num,
    /// World coordinates of cell (0,0)'s lower corner.
    pub origin: Vector2,
    pub cells: Vec<u8>,
}

/// Where the cell in column `x` of row `y` stands among the cells.
pub open spec fn at(w: int, y: int, x: int) -> int {
    y * w + x
}

/// `b` has the rows of `a` in the opposite order.
pub open spec fn is_flipped(a: Seq<u8>, b: Seq<u8>, w: int, h: int) -> bool {
    &&& a.len() == w * h
    &&& b.len() == w * h
    &&& forall|y: int, x: int|
        0 <= y < h && 0 <= x < w ==> #[trigger] b[at(w, y, x)] == a[at(w, h - 1 - y, x)]
}

pub proof fn lemma_at(w: int, h: int, y: int, x: int)
    requires
        0 <= y < h,
        0 <= x < w,
    ensures
        0 <= at(w, y, x) < w * h,
        at(w, y, x) / w == y,
        at(w, y, x) % w == x,
{
    assert(y * w + x < w * h) by (nonlinear_arith)
        requires
            0 <= y < h,
            0 <= x < w,
    ;
    assert(0 <= y * w) by (nonlinear_arith)
        requires
            0 <= y,
            0 < w,
    ;
    vstd::arithmetic::div_mod::lemma_fundamental_div_mod_converse(at(w, y, x), w, y, x);
}

/// Every place among the cells is one cell's.
pub proof fn lemma_at_covers(w: int, h: int, i: int)
    requires
        0 <= i < w * h,
        0 <= w,
        0 <= h,
    ensures
        0 <= i / w < h,
        0 <= i % w < w,
        i == at(w, i / w, i % w),
{
    assert(w > 0) by (nonlinear_arith)
        requires
            0 <= i < w * h,
            0 <= w,
            0 <= h,
    ;
    vstd::arithmetic::div_mod::lemma_fundamental_div_mod(i, w);
    assert(w * (i / w) == (i / w) * w) by (nonlinear_arith);
    vstd::arithmetic::div_mod::lemma_div_pos_is_pos(i, w);
    assert(w * h == h * w) by (nonlinear_arith);
    vstd::arithmetic::div_mod::lemma_multiply_divide_lt(i, w, h);
}

/// Flipping twice gives the rows back.
pub proof fn law_flip_undoes_itself(a: Seq<u8>, b: Seq<u8>, c: Seq<u8>, w: nat, h: nat)
    requires
        is_flipped(a, b, w as int, h as int),
        is_flipped(b, c, w as int, h as int),
    ensures
        a == c,
{
    let (w, h) = (w as int, h as int);
    assert forall|i: int| 0 <= i < a.len() implies a[i] == c[i] by {
        lemma_at_covers(w, h, i);
        let (y, x) = (i / w, i % w);
        assert(c[at(w, y, x)] == b[at(w, h - 1 - y, x)]);
        assert(b[at(w, h - 1 - y, x)] == a[at(w, h - 1 - (h - 1 - y), x)]);
    }
    assert(a =~= c);
}

/// A flip is one rearrangement: no two results of flipping `a` differ.
pub proof fn law_flip_is_unique(a: Seq<u8>, b: Seq<u8>, c: Seq<u8>, w: nat, h: nat)
    requires
        is_flipped(a, b, w as int, h as int),
        is_flipped(a, c, w as int, h as int),
    ensures
        b == c,
{
    let (w, h) = (w as int, h as int);
    assert forall|i: int| 0 <= i < b.len() implies b[i] == c[i] by {
        lemma_at_covers(w, h, i);
        let (y, x) = (i / w, i % w);
        assert(b[at(w, y, x)] == c[at(w, y, x)]);
    }
    assert(b =~= c);
}

/// What `p(occ) = (255 - pixel) / 255` against the threshold makes of a pixel.
pub open spec fn is_cell<K: Numerics>(pixel: u8, threshold: Num, cell: u8) -> bool {
    exists|dark: Num, p: Num|
        is_from_u64::<K>((255 - pixel) as u64, dark) && #[trigger] is_quotient::<K>(
            dark,
            num(N255),
            p,
        ) && cell == (if less(threshold, p) {
            1u8
        } else {
            0u8
        })
}

fn cell_of<K: Numerics>(pixel: u8, threshold: Num) -> (cell: u8)
    ensures
        is_cell::<K>(pixel, threshold, cell),
{
    let dark = from_u64::<K>((255 - pixel) as u64);
    let p = quotient::<K>(dark, num(N255));
    assert(is_from_u64::<K>((255 - pixel) as u64, dark));
    assert(is_quotient::<K>(dark, num(N255), p));
    if threshold.less(p) {
        1
    } else {
        0
    }
}

/// `g` holds the picture `px`, its top row at the largest `y`.
pub open spec fn is_drawn<K: Numerics>(px: Seq<u8>, threshold: Num, g: OccGrid) -> bool {
    &&& g.wf()
    &&& px.len() == g.w * g.h
    &&& forall|y: int, x: int|
        0 <= y < g.h && 0 <= x < g.w ==> is_cell::<K>(
            px[at(g.w as int, g.h - 1 - y, x)],
            threshold,
            #[trigger] g.cells@[at(g.w as int, y, x)],
        )
}

/// The occupancy threshold where the description names none.
pub open spec fn threshold_or_default(t: Option<Num>) -> Num {
    match t {
        Some(v) => v,
        None => num(P65),
    }
}

/// What a picture and its description give, once the description's numbers
/// are known.
pub open spec fn is_grid<K: Numerics>(
    pgm: Seq<u8>,
    lines: Seq<Seq<char>>,
    res: Option<Num>,
    ps: Seq<Result<Num, String>>,
    threshold: Option<Num>,
    r: Result<OccGrid, String>,
) -> bool {
    if res is None {
        r matches Err(e) && e@ == "yaml: no resolution"@
    } else if origin_text(lines) is None {
        r matches Err(e) && e@ == "yaml: no origin"@
    } else {
        match image(pgm) {
            Err(msg) => r matches Err(e) && e@ == msg,
            Ok((w, h, px)) => r matches Ok(g) && g.w == w && g.h == h && res == Some(g.res)
                && g.origin.x == coordinate(ps, 0) && g.origin.y == coordinate(ps, 1)
                && is_drawn::<K>(px, threshold_or_default(threshold), g),
        }
    }
}

/// The numbers that a description holds: the resolution, the origin's list
/// (empty where there is no origin) and the threshold.
pub open spec fn is_description<K: Numerics>(
    lines: Seq<Seq<char>>,
    res: Option<Num>,
    ps: Seq<Result<Num, String>>,
    threshold: Option<Num>,
) -> bool {
    &&& has_number::<K>(lines, "resolution"@, res)
    &&& has_number::<K>(lines, "occupied_thresh"@, threshold)
    &&& origin_text(lines) matches Some(text) ==> is_list::<K>(text, ps)
}

impl OccGrid {
    /// There is one cell for each place.
    pub open spec fn wf(&self) -> bool {
        self.cells@.len() == self.w * self.h
    }

    /// The cell in column `x` of row `y` is occupied.
    pub open spec fn is_occupied(&self, x: int, y: int) -> bool {
        self.cells@[at(self.w as int, y, x)] == 1
    }

    /// The same grid as `other`.
    pub open spec fn is_copy(&self, other: &OccGrid) -> bool {
        &&& self.w == other.w
        &&& self.h == other.h
        &&& self.res == other.res
        &&& self.origin == other.origin
        &&& self.cells@ == other.cells@
    }

    pub(crate) fn copied(&self) -> (r: OccGrid)
        ensures
            r.is_copy(self),
    {
        let mut cells: Vec<u8> = Vec::new();
        for i in 0..self.cells.len()
            invariant
                cells@ == self.cells@.take(i as int),
        {
            cells.push(self.cells[i]);
            assert(self.cells@.take(i + 1) =~= self.cells@.take(i as int).push(
                self.cells@[i as int],
            ));
        }
        assert(self.cells@.take(self.cells@.len() as int) =~= self.cells@);
        OccGrid { w: self.w, h: self.h, res: self.res, origin: self.origin, cells }
    }

    /// Reads a ROS `map_server` picture and its description, occupied = 1.
    pub fn from_pgm_yaml<K: Numerics>(pgm_bytes: &[u8], yaml: &str) -> (r: Result<Self, String>)
        ensures
            exists|res: Option<Num>, ps: Seq<Result<Num, String>>, threshold: Option<Num>|
                is_description::<K>(lines(yaml@), res, ps, threshold) && #[trigger] is_grid::<K>(
                    pgm_bytes@,
                    lines(yaml@),
                    res,
                    ps,
                    threshold,
                    r,
                ),
    {
        let text = chars_of(yaml);
        let rows = split_lines(text.as_slice());
        let ghost ls = lines(yaml@);
        assert(views(rows@) == ls);
        let res_key = chars_of("resolution");
        let origin_key = chars_of("origin");
        let threshold_key = chars_of("occupied_thresh");
        let res = number_of::<K>(&rows, res_key.as_slice());
        let threshold = number_of::<K>(&rows, threshold_key.as_slice());
        let origin = origin_of(&rows, origin_key.as_slice());
        let (ox, oy) = match origin {
            None => (num(ZERO), num(ZERO)),
            Some(list) => coordinates::<K>(list),
        };
        let ghost ps: Seq<Result<Num, String>> = match origin {
            None => seq![],
            Some(list) => choose|ps: Seq<Result<Num, String>>| #[trigger]
                is_list::<K>(list@, ps) && (ox, oy) == (coordinate(ps, 0), coordinate(ps, 1)),
        };
        assert(is_description::<K>(ls, res, ps, threshold));
        let r = match res {
            None => Err("yaml: no resolution".to_owned()),
            Some(res) => match origin {
                None => Err("yaml: no origin".to_owned()),
                Some(_) => match read_image(pgm_bytes) {
                    Err(msg) => Err(msg),
                    Ok(img) => {
                        let limit = match threshold {
                            Some(t) => t,
                            None => num(P65),
                        };
                        let mut cells: Vec<u8> = Vec::new();
                        let n = img.px.len();
                        for i in 0..n
                            invariant
                                n == img.px@.len(),
                                cells@.len() == i,
                                forall|j: int|
                                    0 <= j < i ==> is_cell::<K>(
                                        img.px@[j],
                                        limit,
                                        #[trigger] cells@[j],
                                    ),
                        {
                            let c = cell_of::<K>(img.px[i], limit);
                            cells.push(c);
                        }
                        let ghost drawn = cells@;
                        let mut g = OccGrid {
                            w: img.w,
                            h: img.h,
                            res,
                            origin: Vector2 { x: ox, y: oy },
                            cells,
                        };
                        g.flip_rows();
                        assert forall|y: int, x: int| 0 <= y < g.h && 0 <= x < g.w implies is_cell::<
                            K,
                        >(
                            img.px@[at(g.w as int, g.h - 1 - y, x)],
                            limit,
                            #[trigger] g.cells@[at(g.w as int, y, x)],
                        ) by {
                            lemma_at(g.w as int, g.h as int, g.h - 1 - y, x);
                            assert(g.cells@[at(g.w as int, y, x)] == drawn[at(
                                g.w as int,
                                g.h - 1 - y,
                                x,
                            )]);
                        }
                        Ok(g)
                    },
                },
            },
        };
        assert(is_grid::<K>(pgm_bytes@, ls, res, ps, threshold, r));
        r
    }

    /// Puts the rows in the opposite order.
    pub fn flip_rows(&mut self)
        requires
            old(self).wf(),
        ensures
            final(self).wf(),
            is_flipped(old(self).cells@, final(self).cells@, final(self).w as int, final(self).h as int),
            final(self).w == old(self).w,
            final(self).h == old(self).h,
            final(self).res == old(self).res,
            final(self).origin == old(self).origin,
    {
        let w = self.w;
        let h = self.h;
        let total = self.cells.len();
        let ghost first = self.cells@;
        for y in 0..h / 2
            invariant
                w == self.w == old(self).w,
                h == self.h == old(self).h,
                self.res == old(self).res,
                self.origin == old(self).origin,
                first == old(self).cells@,
                total == first.len() == w * h,
                self.cells@.len() == w * h,
                forall|r: int, x: int|
                    0 <= r < h && 0 <= x < w ==> #[trigger] self.cells@[at(w as int, r, x)] == (
                    if r < y || r > h - 1 - y {
                        first[at(w as int, h - 1 - r, x)]
                    } else {
                        first[at(w as int, r, x)]
                    }),
        {
            for x in 0..w
                invariant
                    y < h / 2,
                    w == self.w == old(self).w,
                    h == self.h == old(self).h,
                    self.res == old(self).res,
                    self.origin == old(self).origin,
                    first == old(self).cells@,
                    total == first.len() == w * h,
                    self.cells@.len() == w * h,
                    forall|r: int, c: int|
                        0 <= r < h && 0 <= c < w ==> #[trigger] self.cells@[at(w as int, r, c)] == (
                        if r < y || r > h - 1 - y || ((r == y || r == h - 1 - y) && c < x) {
                            first[at(w as int, h - 1 - r, c)]
                        } else {
                            first[at(w as int, r, c)]
                        }),
            {
                let ghost now = self.cells@;
                let ghost top = at(w as int, y as int, x as int);
                let ghost bottom = at(w as int, h - 1 - y, x as int);
                proof {
                    lemma_at(w as int, h as int, y as int, x as int);
                    lemma_at(w as int, h as int, h - 1 - y, x as int);
                    assert(0 <= y * w <= top) by (nonlinear_arith)
                        requires
                            top == y * w + x,
                            y >= 0,
                            w >= 0,
                            x >= 0,
                    ;
                    assert(0 <= (h - 1 - y) * w <= bottom) by (nonlinear_arith)
                        requires
                            bottom == (h - 1 - y) * w + x,
                            h - 1 - y >= 0,
                            w >= 0,
                            x >= 0,
                    ;
                }
                let a: usize = y * w + x;
                let b: usize = (h - 1 - y) * w + x;
                let upper: u8 = self.cells[a];
                let lower: u8 = self.cells[b];
                self.cells.set(a, lower);
                self.cells.set(b, upper);
                assert forall|r: int, c: int| 0 <= r < h && 0 <= c < w implies #[trigger] self.cells@[at(
                    w as int,
                    r,
                    c,
                )] == (if r < y || r > h - 1 - y || ((r == y || r == h - 1 - y) && c < x + 1) {
                    first[at(w as int, h - 1 - r, c)]
                } else {
                    first[at(w as int, r, c)]
                }) by {
                    lemma_at(w as int, h as int, r, c);
                    assert(now[at(w as int, r, c)] == now[at(w as int, r, c)]);
                    assert(now[top] == first[top]);
                    assert(now[bottom] == first[bottom]);
                    if r == y && c == x {
                        assert(at(w as int, r, c) == top);
                    } else if r == h - 1 - y && c == x {
                        assert(at(w as int, r, c) == bottom);
                        assert(h - 1 - r == y);
                    } else {
                        assert(at(w as int, r, c) != top);
                        assert(at(w as int, r, c) != bottom);
                    }
                }
            }
        }
        assert forall|r: int, x: int| 0 <= r < h && 0 <= x < w implies #[trigger] self.cells@[at(
            w as int,
            r,
            x,
        )] == first[at(w as int, h - 1 - r, x)] by {
            if !(r < h / 2 || r > h - 1 - h / 2) {
                assert(r == h - 1 - r);
            }
        }
    }

    /// Whether the cell in column `cx` of row `cy` is occupied.
    pub fn occupied(&self, cx: usize, cy: usize) -> (r: bool)
        requires
            at(self.w as int, cy as int, cx as int) < self.cells@.len(),
        ensures
            r == self.is_occupied(cx as int, cy as int),
    {
        assert(self.cells.len() == self.cells@.len());
        assert(0 <= cy * self.w) by (nonlinear_arith)
            requires
                0 <= cy,
                0 <= self.w,
        ;
        self.cells[cy * self.w + cx] == 1
    }

    /// `c` is the cell that holds the world point `(wx, wy)`: none where the
    /// point lies outside.
    pub open spec fn is_cell_at<K: Numerics>(
        &self,
        wx: Num,
        wy: Num,
        c: Option<(usize, usize)>,
    ) -> bool {
        exists|dx: Num, dy: Num, fx: Num, fy: Num|
            {
                &&& is_difference::<K>(wx, self.origin.x, dx)
                &&& is_difference::<K>(wy, self.origin.y, dy)
                &&& #[trigger] is_quotient::<K>(dx, self.res, fx)
                &&& #[trigger] is_quotient::<K>(dy, self.res, fy)
                &&& if less(fx, num(ZERO)) || less(fy, num(ZERO)) {
                    c is None
                } else {
                    exists|cx: usize, cy: usize|
                        {
                            &&& #[trigger] is_to_index::<K>(fx, cx)
                            &&& #[trigger] is_to_index::<K>(fy, cy)
                            &&& c == (if cx < self.w && cy < self.h {
                                Some((cx, cy))
                            } else {
                                None
                            })
                        }
                }
            }
    }

    /// The cell that holds the world point `(wx, wy)`.
    fn world_to_cell<K: Numerics>(&self, wx: Num, wy: Num) -> (c: Option<(usize, usize)>)
        ensures
            self.is_cell_at::<K>(wx, wy, c),
            c matches Some(p) ==> p.0 < self.w && p.1 < self.h,
    {
        let dx = difference::<K>(wx, self.origin.x);
        let dy = difference::<K>(wy, self.origin.y);
        let fx = quotient::<K>(dx, self.res);
        let fy = quotient::<K>(dy, self.res);
        if fx.less(num(ZERO)) || fy.less(num(ZERO)) {
            return None;
        }
        let cx = to_index::<K>(fx);
        let cy = to_index::<K>(fy);
        let c = if cx < self.w && cy < self.h {
            Some((cx, cy))
        } else {
            None
        };
        assert(is_to_index::<K>(fx, cx) && is_to_index::<K>(fy, cy));
        c
    }

    /// `d` is the distance that the walk of `ray` from `at` has left to tell,
    /// with `crossings` cell borders still to cross at most: where the nearer
    /// border lies beyond the range, or the next cell outside the grid, it is
    /// the range; an occupied cell ends the walk at its border.
    pub open spec fn is_walk<K: Numerics>(
        &self,
        ray: Ray,
        from: RayPlace,
        crossings: nat,
        d: Num,
    ) -> bool
        decreases crossings,
    {
        if crossings == 0 {
            d == ray.rmax
        } else {
            let along_x = at_most(from.tx, from.ty);
            let dist = if along_x {
                from.tx
            } else {
                from.ty
            };
            let cx = from.cx + (if !along_x {
                0int
            } else if ray.right {
                1
            } else {
                -1
            });
            let cy = from.cy + (if along_x {
                0int
            } else if ray.up {
                1
            } else {
                -1
            });
            if less(ray.rmax, dist) || !(0 <= cx < self.w && 0 <= cy < self.h) {
                d == ray.rmax
            } else if self.is_occupied(cx, cy) {
                d == smaller(dist, ray.rmax)
            } else if along_x {
                exists|t: Num|
                    #[trigger] is_sum::<K>(from.tx, ray.dx, t) && self.is_walk::<K>(
                        ray,
                        RayPlace { cx: cx as usize, cy: cy as usize, tx: t, ty: from.ty },
                        (crossings - 1) as nat,
                        d,
                    )
            } else {
                exists|t: Num|
                    #[trigger] is_sum::<K>(from.ty, ray.dy, t) && self.is_walk::<K>(
                        ray,
                        RayPlace { cx: cx as usize, cy: cy as usize, tx: from.tx, ty: t },
                        (crossings - 1) as nat,
                        d,
                    )
            }
        }
    }

    /// `d` is the distance from `(px, py)` along `(dirx, diry)` to the first
    /// occupied cell that the ray enters, and `rmax` where there is none within
    /// `rmax` or the ray starts outside the grid.
    pub open spec fn is_cast<K: Numerics>(
        &self,
        px: Num,
        py: Num,
        dirx: Num,
        diry: Num,
        rmax: Num,
        d: Num,
    ) -> bool {
        exists|c: Option<(usize, usize)>|
            #[trigger] self.is_cell_at::<K>(px, py, c) && match c {
                None => d == rmax,
                Some((cx, cy)) => exists|dx: Num, dy: Num, tx: Num, ty: Num|
                    {
                        &&& #[trigger] is_axis::<K>(px, self.origin.x, self.res, dirx, cx, dx, tx)
                        &&& #[trigger] is_axis::<K>(py, self.origin.y, self.res, diry, cy, dy, ty)
                        &&& self.is_walk::<K>(
                            Ray {
                                right: less(num(ZERO), dirx),
                                up: less(num(ZERO), diry),
                                dx,
                                dy,
                                rmax,
                            },
                            RayPlace { cx, cy, tx, ty },
                            MAX_CROSSINGS as nat,
                            d,
                        )
                    },
            }
    }

    /// DDA raycast: the distance to the first occupied cell, `rmax` at most.
    pub fn cast_ray<K: Numerics>(&self, px: Num, py: Num, dirx: Num, diry: Num, rmax: Num) -> (d:
        Num)
        requires
            self.wf(),
        ensures
            self.is_cast::<K>(px, py, dirx, diry, rmax, d),
    {
        let start = self.world_to_cell::<K>(px, py);
        let (cx, cy) = match start {
            None => {
                return rmax;
            },
            Some(c) => c,
        };
        let (dx, tx) = axis::<K>(px, self.origin.x, self.res, dirx, cx);
        let (dy, ty) = axis::<K>(py, self.origin.y, self.res, diry, cy);
        let ray = Ray {
            right: num(ZERO).less(dirx),
            up: num(ZERO).less(diry),
            dx,
            dy,
            rmax,
        };
        let d = self.walk::<K>(ray, RayPlace { cx, cy, tx, ty });
        assert(is_axis::<K>(px, self.origin.x, self.res, dirx, cx, dx, tx));
        assert(is_axis::<K>(py, self.origin.y, self.res, diry, cy, dy, ty));
        d
    }

    /// Walks from cell to cell along `ray`.
    fn walk<K: Numerics>(&self, ray: Ray, from: RayPlace) -> (d: Num)
        requires
            self.wf(),
            from.cx < self.w,
            from.cy < self.h,
        ensures
            self.is_walk::<K>(ray, from, MAX_CROSSINGS as nat, d),
    {
        let mut here = from;
        let mut left: usize = MAX_CROSSINGS;
        while left > 0
            invariant
                self.wf(),
                left <= MAX_CROSSINGS,
                here.cx < self.w,
                here.cy < self.h,
                forall|d: Num|
                    #[trigger] self.is_walk::<K>(ray, here, left as nat, d) ==> self.is_walk::<K>(
                        ray,
                        from,
                        MAX_CROSSINGS as nat,
                        d,
                    ),
            decreases left,
        {
            let along_x = here.tx.at_most(here.ty);
            let dist = if along_x {
                here.tx
            } else {
                here.ty
            };
            if ray.rmax.less(dist) {
                assert(self.is_walk::<K>(ray, here, left as nat, ray.rmax));
                return ray.rmax;
            }
            let (inside, cx, cy) = if along_x {
                if ray.right {
                    (here.cx + 1 < self.w, here.cx + 1, here.cy)
                } else if here.cx > 0 {
                    (true, here.cx - 1, here.cy)
                } else {
                    (false, here.cx, here.cy)
                }
            } else {
                if ray.up {
                    (here.cy + 1 < self.h, here.cx, here.cy + 1)
                } else if here.cy > 0 {
                    (true, here.cx, here.cy - 1)
                } else {
                    (false, here.cx, here.cy)
                }
            };
            if !inside {
                assert(self.is_walk::<K>(ray, here, left as nat, ray.rmax));
                return ray.rmax;
            }
            proof {
                lemma_at(self.w as int, self.h as int, cy as int, cx as int);
            }
            if self.occupied(cx, cy) {
                let d = dist.min(ray.rmax);
                assert(self.is_walk::<K>(ray, here, left as nat, d));
                return d;
            }
            let ghost before = here;
            if along_x {
                let t = sum::<K>(here.tx, ray.dx);
                assert(is_sum::<K>(before.tx, ray.dx, t));
                here = RayPlace { cx, cy, tx: t, ty: here.ty };
            } else {
                let t = sum::<K>(here.ty, ray.dy);
                assert(is_sum::<K>(before.ty, ray.dy, t));
                here = RayPlace { cx, cy, tx: here.tx, ty: t };
            }
            left = left - 1;
            assert forall|d: Num| #[trigger]
                self.is_walk::<K>(ray, here, left as nat, d) implies self.is_walk::<K>(
                ray,
                from,
                MAX_CROSSINGS as nat,
                d,
            ) by {
                assert(self.is_walk::<K>(ray, before, (left + 1) as nat, d));
            }
        }
        assert(self.is_walk::<K>(ray, here, 0, ray.rmax));
        ray.rmax
    }

    /// `a` is the angle of ray `i` of `nrays`: from `theta` on, spread over
    /// `ang_span`.
    pub open spec fn is_angle<K: Numerics>(
        theta: Num,
        ang_span: Num,
        nrays: nat,
        i: int,
        a: Num,
    ) -> bool {
        exists|off: Num|
            #[trigger] is_sum::<K>(theta, off, a) && if nrays > 1 {
                exists|k: Num, last: Num, turn: Num|
                    {
                        &&& is_from_u64::<K>(i as u64, k)
                        &&& is_from_u64::<K>((nrays - 1) as u64, last)
                        &&& #[trigger] is_product::<K>(ang_span, k, turn)
                        &&& #[trigger] is_quotient::<K>(turn, last, off)
                    }
            } else {
                off == num(ZERO)
            }
    }

    fn angle<K: Numerics>(theta: Num, ang_span: Num, nrays: usize, i: usize) -> (a: Num)
        ensures
            Self::is_angle::<K>(theta, ang_span, nrays as nat, i as int, a),
    {
        let off = if nrays > 1 {
            let k = from_u64::<K>(i as u64);
            let turn = product::<K>(ang_span, k);
            let last = from_u64::<K>((nrays - 1) as u64);
            let off = quotient::<K>(turn, last);
            assert(is_product::<K>(ang_span, k, turn) && is_quotient::<K>(turn, last, off));
            off
        } else {
            num(ZERO)
        };
        let a = sum::<K>(theta, off);
        assert(is_sum::<K>(theta, off, a));
        a
    }

    /// `scan` holds, for each of `nrays` angles, a cast from `(x, y)`.
    pub open spec fn is_scan<K: Numerics>(
        &self,
        x: Num,
        y: Num,
        theta: Num,
        nrays: nat,
        ang_span: Num,
        rmax: Num,
        scan: Seq<Num>,
    ) -> bool {
        &&& scan.len() == nrays
        &&& forall|i: int|
            0 <= i < nrays ==> self.is_beam::<K>(
                x,
                y,
                theta,
                nrays,
                ang_span,
                rmax,
                i,
                #[trigger] scan[i],
            )
    }

    /// `d` is what the `i`th ray of a scan sees.
    pub open spec fn is_beam<K: Numerics>(
        &self,
        x: Num,
        y: Num,
        theta: Num,
        nrays: nat,
        ang_span: Num,
        rmax: Num,
        i: int,
        d: Num,
    ) -> bool {
        exists|a: Num, sc: (Num, Num)|
            {
                &&& Self::is_angle::<K>(theta, ang_span, nrays, i, a)
                &&& #[trigger] is_sin_cos::<K>(a, sc)
                &&& self.is_cast::<K>(x, y, sc.1, sc.0, rmax, d)
            }
    }

    /// Virtual scan (map-scan) from a pose: angles start at `theta` and span
    /// `ang_span` over `nrays`.
    pub fn map_scan<K: Numerics>(
        &self,
        x: Num,
        y: Num,
        theta: Num,
        nrays: usize,
        ang_span: Num,
        rmax: Num,
    ) -> (scan: Vec<Num>)
        requires
            self.wf(),
        ensures
            self.is_scan::<K>(x, y, theta, nrays as nat, ang_span, rmax, scan@),
    {
        let mut out: Vec<Num> = Vec::new();
        for i in 0..nrays
            invariant
                self.wf(),
                out@.len() == i,
                forall|j: int|
                    0 <= j < i ==> self.is_beam::<K>(
                        x,
                        y,
                        theta,
                        nrays as nat,
                        ang_span,
                        rmax,
                        j,
                        #[trigger] out@[j],
                    ),
        {
            let a = Self::angle::<K>(theta, ang_span, nrays, i);
            let sc = sin_cos::<K>(a);
            let d = self.cast_ray::<K>(x, y, sc.1, sc.0, rmax);
            assert(self.is_beam::<K>(x, y, theta, nrays as nat, ang_span, rmax, i as int, d));
            out.push(d);
        }
        out
    }

    /// CAER between a real scan and a pose's map-scan.
    pub open spec fn is_caer<K: Numerics>(
        &self,
        real_scan: Seq<Num>,
        x: Num,
        y: Num,
        theta: Num,
        ang_span: Num,
        rmax: Num,
        r: Num,
    ) -> bool {
        exists|scan: Seq<Num>|
            #[trigger] self.is_scan::<K>(
                x,
                y,
                theta,
                real_scan.len(),
                ang_span,
                rmax,
                scan,
            ) && is_error_sum::<K>(real_scan, scan, real_scan.len(), r)
    }

    /// The cumulative absolute error per ray between `real_scan` and the
    /// map-scan of the pose.
    pub fn caer_of<K: Numerics>(
        &self,
        real_scan: &[Num],
        x: Num,
        y: Num,
        theta: Num,
        ang_span: Num,
        rmax: Num,
    ) -> (r: Num)
        requires
            self.wf(),
        ensures
            self.is_caer::<K>(real_scan@, x, y, theta, ang_span, rmax, r),
    {
        let scan = self.map_scan::<K>(x, y, theta, real_scan.len(), ang_span, rmax);
        let mut acc: Num = num(ZERO);
        for i in 0..real_scan.len()
            invariant
                scan@.len() == real_scan@.len(),
                is_error_sum::<K>(real_scan@, scan@, i as nat, acc),
        {
            let ghost done = acc;
            let gap = difference::<K>(real_scan[i], scan[i]);
            acc = sum::<K>(acc, gap.abs());
            assert(is_difference::<K>(real_scan@[(i + 1) - 1], scan@[(i + 1) - 1], gap)
                && is_sum::<K>(done, absolute(gap), acc));
        }
        acc
    }
}

/// What stays the same while a ray walks.
#[derive(Clone, Copy)]
pub struct Ray {
    /// The ray goes towards larger columns.
    pub right: bool,
    /// The ray goes towards larger rows.
    pub up: bool,
    /// Distance along the ray between two column borders.
    pub dx: Num,
    /// Distance along the ray between two row borders.
    pub dy: Num,
    pub rmax: Num,
}

/// Where a ray stands.
#[derive(Clone, Copy)]
pub struct RayPlace {
    pub cx: usize,
    pub cy: usize,
    /// Distance to the next column border.
    pub tx: Num,
    /// Distance to the next row border.
    pub ty: Num,
}

/// Along one axis, from coordinate `p` in cell `c`: `step` is the distance
/// between two borders and `first` the distance to the first one, both infinite
/// for a ray that runs across the axis.
pub open spec fn is_axis<K: Numerics>(
    p: Num,
    origin: Num,
    res: Num,
    dir: Num,
    c: usize,
    step: Num,
    first: Num,
) -> bool {
    if less(num(NANO), absolute(dir)) {
        exists|off: Num, f: Num, cell: Num, inner: Num|
            {
                &&& is_quotient::<K>(res, absolute(dir), step)
                &&& is_difference::<K>(p, origin, off)
                &&& #[trigger] is_quotient::<K>(off, res, f)
                &&& is_from_u64::<K>(c as u64, cell)
                &&& #[trigger] is_difference::<K>(f, cell, inner)
                &&& if less(num(ZERO), dir) {
                    exists|gap: Num|
                        #[trigger] is_difference::<K>(num(ONE), inner, gap) && is_product::<K>(
                            gap,
                            step,
                            first,
                        )
                } else {
                    is_product::<K>(inner, step, first)
                }
            }
    } else {
        step == num(INFINITY) && first == num(INFINITY)
    }
}

fn axis<K: Numerics>(p: Num, origin: Num, res: Num, dir: Num, c: usize) -> (r: (Num, Num))
    ensures
        is_axis::<K>(p, origin, res, dir, c, r.0, r.1),
{
    if num(NANO).less(dir.abs()) {
        let step = quotient::<K>(res, dir.abs());
        let off = difference::<K>(p, origin);
        let f = quotient::<K>(off, res);
        let cell = from_u64::<K>(c as u64);
        let inner = difference::<K>(f, cell);
        assert(is_quotient::<K>(off, res, f) && is_difference::<K>(f, cell, inner));
        if num(ZERO).less(dir) {
            let gap = difference::<K>(num(ONE), inner);
            assert(is_difference::<K>(num(ONE), inner, gap));
            (step, product::<K>(gap, step))
        } else {
            (step, product::<K>(inner, step))
        }
    } else {
        (num(INFINITY), num(INFINITY))
    }
}

/// `r` is the sum of the first `n` absolute errors.
pub open spec fn is_error_sum<K: Numerics>(a: Seq<Num>, b: Seq<Num>, n: nat, r: Num) -> bool
    decreases n,
{
    if n == 0 {
        r == num(ZERO)
    } else {
        exists|done: Num, gap: Num|
            {
                &&& is_error_sum::<K>(a, b, (n - 1) as nat, done)
                &&& #[trigger] is_difference::<K>(a[n - 1], b[n - 1], gap)
                &&& #[trigger] is_sum::<K>(done, absolute(gap), r)
            }
    }
}

impl OccGrid {
    /// `d` is within the range, and the range itself on a grid where nothing
    /// is occupied.
    pub open spec fn is_within(&self, rmax: Num, d: Num) -> bool {
        &&& !is_nan(rmax) ==> at_most(d, rmax)
        &&& (forall|cx: int, cy: int|
            0 <= cx < self.w && 0 <= cy < self.h ==> !#[trigger] self.is_occupied(cx, cy))
            ==> d == rmax
    }

    proof fn lemma_walk_is_within<K: Numerics>(
        &self,
        ray: Ray,
        from: RayPlace,
        crossings: nat,
        d: Num,
    )
        requires
            self.is_walk::<K>(ray, from, crossings, d),
        ensures
            self.is_within(ray.rmax, d),
        decreases crossings,
    {
        if crossings > 0 {
            let along_x = at_most(from.tx, from.ty);
            let cx = from.cx + (if !along_x {
                0int
            } else if ray.right {
                1
            } else {
                -1
            });
            let cy = from.cy + (if along_x {
                0int
            } else if ray.up {
                1
            } else {
                -1
            });
            let dist = if along_x {
                from.tx
            } else {
                from.ty
            };
            if !less(ray.rmax, dist) && 0 <= cx < self.w && 0 <= cy < self.h
                && !self.is_occupied(cx, cy) {
                if along_x {
                    let t = choose|t: Num|
                        #[trigger] is_sum::<K>(from.tx, ray.dx, t) && self.is_walk::<K>(
                            ray,
                            RayPlace { cx: cx as usize, cy: cy as usize, tx: t, ty: from.ty },
                            (crossings - 1) as nat,
                            d,
                        );
                    self.lemma_walk_is_within::<K>(
                        ray,
                        RayPlace { cx: cx as usize, cy: cy as usize, tx: t, ty: from.ty },
                        (crossings - 1) as nat,
                        d,
                    );
                } else {
                    let t = choose|t: Num|
                        #[trigger] is_sum::<K>(from.ty, ray.dy, t) && self.is_walk::<K>(
                            ray,
                            RayPlace { cx: cx as usize, cy: cy as usize, tx: from.tx, ty: t },
                            (crossings - 1) as nat,
                            d,
                        );
                    self.lemma_walk_is_within::<K>(
                        ray,
                        RayPlace { cx: cx as usize, cy: cy as usize, tx: from.tx, ty: t },
                        (crossings - 1) as nat,
                        d,
                    );
                }
            }
        }
    }

    /// No ray sees beyond its range, unless the range is a NaN; on a grid
    /// where nothing is occupied every ray sees exactly its range.
    pub proof fn law_cast_is_within<K: Numerics>(
        &self,
        px: Num,
        py: Num,
        dirx: Num,
        diry: Num,
        rmax: Num,
        d: Num,
    )
        requires
            self.is_cast::<K>(px, py, dirx, diry, rmax, d),
        ensures
            self.is_within(rmax, d),
    {
        let c = choose|c: Option<(usize, usize)>|
            #[trigger] self.is_cell_at::<K>(px, py, c) && match c {
                None => d == rmax,
                Some((cx, cy)) => exists|dx: Num, dy: Num, tx: Num, ty: Num|
                    {
                        &&& #[trigger] is_axis::<K>(px, self.origin.x, self.res, dirx, cx, dx, tx)
                        &&& #[trigger] is_axis::<K>(py, self.origin.y, self.res, diry, cy, dy, ty)
                        &&& self.is_walk::<K>(
                            Ray {
                                right: less(num(ZERO), dirx),
                                up: less(num(ZERO), diry),
                                dx,
                                dy,
                                rmax,
                            },
                            RayPlace { cx, cy, tx, ty },
                            MAX_CROSSINGS as nat,
                            d,
                        )
                    },
            };
        if let Some((cx, cy)) = c {
            let (dx, dy, tx, ty) = choose|dx: Num, dy: Num, tx: Num, ty: Num|
                {
                    &&& #[trigger] is_axis::<K>(px, self.origin.x, self.res, dirx, cx, dx, tx)
                    &&& #[trigger] is_axis::<K>(py, self.origin.y, self.res, diry, cy, dy, ty)
                    &&& self.is_walk::<K>(
                        Ray {
                            right: less(num(ZERO), dirx),
                            up: less(num(ZERO), diry),
                            dx,
                            dy,
                            rmax,
                        },
                        RayPlace { cx, cy, tx, ty },
                        MAX_CROSSINGS as nat,
                        d,
                    )
                };
            self.lemma_walk_is_within::<K>(
                Ray { right: less(num(ZERO), dirx), up: less(num(ZERO), diry), dx, dy, rmax },
                RayPlace { cx, cy, tx, ty },
                MAX_CROSSINGS as nat,
                d,
            );
        }
    }

    /// The same holds of every beam of a scan.
    pub proof fn law_scan_is_within<K: Numerics>(
        &self,
        x: Num,
        y: Num,
        theta: Num,
        nrays: nat,
        ang_span: Num,
        rmax: Num,
        scan: Seq<Num>,
    )
        requires
            self.is_scan::<K>(x, y, theta, nrays, ang_span, rmax, scan),
        ensures
            scan.len() == nrays,
            forall|i: int| 0 <= i < nrays ==> self.is_within(rmax, #[trigger] scan[i]),
    {
        assert forall|i: int| 0 <= i < nrays implies self.is_within(rmax, #[trigger] scan[i]) by {
            let (a, sc) = choose|a: Num, sc: (Num, Num)|
                {
                    &&& Self::is_angle::<K>(theta, ang_span, nrays, i, a)
                    &&& #[trigger] is_sin_cos::<K>(a, sc)
                    &&& self.is_cast::<K>(x, y, sc.1, sc.0, rmax, scan[i])
                };
            self.law_cast_is_within::<K>(x, y, sc.1, sc.0, rmax, scan[i]);
        }
    }
}

} // verus!
