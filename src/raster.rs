use vstd::prelude::*;
use vstd::arithmetic::div_mod::{
    lemma_fundamental_div_mod, lemma_fundamental_div_mod_converse, lemma_mod_bound,
};
use crate::types::{BinaryMask, MaskError};

verus! {

/// Vertex coordinates are fixed-point: this many units make one pixel.
pub const COORD_SCALE: i64 = 1024;

/// The centre of pixel `i` along one axis, in fixed-point units.
pub open spec fn centre(i: int) -> int {
    i * COORD_SCALE + COORD_SCALE / 2
}

/// Polygons over a `width` by `height` grid. Each polygon is a flat list
/// `x0, y0, x1, y1, ...` of fixed-point vertex coordinates; the last vertex
/// joins the first.
pub struct PolygonSet {
    pub width: u32,
    pub height: u32,
    pub polygons: Vec<Vec<i64>>,
}

/// The edge from `(x1, y1)` to `(x2, y2)` crosses the horizontal ray that
/// runs from `(px, py)` towards growing `x`.
pub open spec fn crosses(x1: int, y1: int, x2: int, y2: int, px: int, py: int) -> bool {
    &&& (y1 > py) != (y2 > py)
    &&& if y2 > y1 {
        (px - x1) * (y2 - y1) < (py - y1) * (x2 - x1)
    } else {
        (px - x1) * (y2 - y1) > (py - y1) * (x2 - x1)
    }
}

/// Vertex `k` of a flat polygon, the vertex after the last being the first.
pub open spec fn vx(poly: Seq<i64>, k: int) -> int {
    poly[2 * (k % (poly.len() as int / 2))] as int
}

pub open spec fn vy(poly: Seq<i64>, k: int) -> int {
    poly[2 * (k % (poly.len() as int / 2)) + 1] as int
}

/// How many of the first `k` edges of `poly` the ray from `(px, py)` crosses.
pub open spec fn crossings(poly: Seq<i64>, px: int, py: int, k: int) -> int
    decreases k,
{
    if k <= 0 {
        0
    } else {
        crossings(poly, px, py, k - 1) + if crosses(
            vx(poly, k - 1),
            vy(poly, k - 1),
            vx(poly, k),
            vy(poly, k),
            px,
            py,
        ) {
            1int
        } else {
            0
        }
    }
}

/// Even-odd rule: `(px, py)` is inside `poly` when the ray crosses an odd
/// number of its edges.
pub open spec fn inside(poly: Seq<i64>, px: int, py: int) -> bool {
    crossings(poly, px, py, poly.len() as int / 2) % 2 == 1
}

/// The centre of pixel `(x, y)` is inside one of the first `k` polygons.
pub open spec fn covered(polys: Seq<Vec<i64>>, x: int, y: int, k: int) -> bool
    decreases k,
{
    if k <= 0 {
        false
    } else {
        covered(polys, x, y, k - 1) || inside(polys[k - 1]@, centre(x), centre(y))
    }
}

/// The column-major pixels of the union of the polygons' interiors.
pub open spec fn raster_pixels(p: PolygonSet) -> Seq<bool> {
    Seq::new(
        (p.width * p.height) as nat,
        |j: int| covered(p.polygons@, j / p.height as int, j % p.height as int, p.polygons@.len() as int),
    )
}

/// Coordinate `i` of a flat polygon lies on the grid: an `x` within
/// `0..=w` pixels, a `y` within `0..=h` pixels.
pub open spec fn coord_on_grid(poly: Seq<i64>, i: int, w: int, h: int) -> bool {
    0 <= poly[i] <= (if i % 2 == 0 {
        w
    } else {
        h
    }) * COORD_SCALE
}

/// The polygon lists whole vertices, all on the grid.
pub open spec fn polygon_ok(poly: Seq<i64>, w: int, h: int) -> bool {
    &&& poly.len() % 2 == 0
    &&& forall|i: int| 0 <= i < poly.len() ==> #[trigger] coord_on_grid(poly, i, w, h)
}

/// Every polygon lists whole vertices, all on the grid.
pub open spec fn polygons_ok(p: PolygonSet) -> bool {
    forall|k: int|
        0 <= k < p.polygons@.len() ==> polygon_ok(
            (#[trigger] p.polygons@[k])@,
            p.width as int,
            p.height as int,
        )
}

fn check_polygon(poly: &Vec<i64>, w: u32, h: u32) -> (r: bool)
    ensures
        r == polygon_ok(poly@, w as int, h as int),
{
    if poly.len() % 2 != 0 {
        return false;
    }
    let mut i: usize = 0;
    while i < poly.len()
        invariant
            i <= poly@.len(),
            poly@.len() % 2 == 0,
            forall|t: int| 0 <= t < i ==> #[trigger] coord_on_grid(poly@, t, w as int, h as int),
        decreases poly@.len() - i,
    {
        let limit: i64 = if i % 2 == 0 {
            w as i64 * 1024
        } else {
            h as i64 * 1024
        };
        let v = poly[i] as i64;
        if v < 0 || v > limit {
            assert(!coord_on_grid(poly@, i as int, w as int, h as int));
            return false;
        }
        i = i + 1;
    }
    true
}

fn edge_crosses(x1: i64, y1: i64, x2: i64, y2: i64, px: i64, py: i64) -> (r: bool)
    requires
        0 <= x1 <= 0x800_0000_0000,
        0 <= y1 <= 0x800_0000_0000,
        0 <= x2 <= 0x800_0000_0000,
        0 <= y2 <= 0x800_0000_0000,
        -0x1000_0000_0000 <= px <= 0x1000_0000_0000,
        -0x1000_0000_0000 <= py <= 0x1000_0000_0000,
    ensures
        r == crosses(x1 as int, y1 as int, x2 as int, y2 as int, px as int, py as int),
{
    let above1 = y1 as i64 > py;
    let above2 = y2 as i64 > py;
    if above1 == above2 {
        return false;
    }
    let dx: i128 = px as i128 - x1 as i128;
    let dy: i128 = py as i128 - y1 as i128;
    let ey: i128 = y2 as i128 - y1 as i128;
    let ex: i128 = x2 as i128 - x1 as i128;
    assert(-0x10_0000_0000_0000_0000_0000_0000 <= dx * ey <= 0x10_0000_0000_0000_0000_0000_0000) by (nonlinear_arith)
        requires
            -0x2000_0000_0000 <= dx <= 0x2000_0000_0000,
            -0x800_0000_0000 <= ey <= 0x800_0000_0000,
    ;
    assert(-0x10_0000_0000_0000_0000_0000_0000 <= dy * ex <= 0x10_0000_0000_0000_0000_0000_0000) by (nonlinear_arith)
        requires
            -0x2000_0000_0000 <= dy <= 0x2000_0000_0000,
            -0x800_0000_0000 <= ex <= 0x800_0000_0000,
    ;
    let lhs: i128 = dx * ey;
    let rhs: i128 = dy * ex;
    if y2 > y1 {
        lhs < rhs
    } else {
        lhs > rhs
    }
}

fn point_inside(poly: &Vec<i64>, w: u32, h: u32, px: i64, py: i64) -> (r: bool)
    requires
        polygon_ok(poly@, w as int, h as int),
        -0x1000_0000_0000 <= px <= 0x1000_0000_0000,
        -0x1000_0000_0000 <= py <= 0x1000_0000_0000,
    ensures
        r == inside(poly@, px as int, py as int),
{
    let len = poly.len();
    let n = len / 2;
    proof {
        lemma_fundamental_div_mod(poly@.len() as int, 2);
    }
    let mut odd = false;
    let mut k: usize = 0;
    while k < n
        invariant
            n == poly@.len() / 2,
            2 * n == poly@.len(),
            len == poly@.len(),
            poly@.len() % 2 == 0,
            polygon_ok(poly@, w as int, h as int),
            k <= n,
            -0x1000_0000_0000 <= px <= 0x1000_0000_0000,
            -0x1000_0000_0000 <= py <= 0x1000_0000_0000,
            odd == (crossings(poly@, px as int, py as int, k as int) % 2 == 1),
        decreases n - k,
    {
        let next = if k + 1 == n {
            0
        } else {
            k + 1
        };
        proof {
            lemma_fundamental_div_mod_converse(k as int, n as int, 0, k as int);
            if k + 1 == n {
                lemma_fundamental_div_mod_converse(k as int + 1, n as int, 1, 0);
            } else {
                lemma_fundamental_div_mod_converse(k as int + 1, n as int, 0, k as int + 1);
            }
        }
        assert(coord_on_grid(poly@, 2 * k as int, w as int, h as int));
        assert(coord_on_grid(poly@, 2 * k as int + 1, w as int, h as int));
        assert(coord_on_grid(poly@, 2 * next as int, w as int, h as int));
        assert(coord_on_grid(poly@, 2 * next as int + 1, w as int, h as int));
        let c = edge_crosses(poly[2 * k], poly[2 * k + 1], poly[2 * next], poly[2 * next + 1], px, py);
        if c {
            odd = !odd;
        }
        k = k + 1;
    }
    odd
}

impl PolygonSet {
    /// Scan conversion: a pixel is foreground when its centre lies inside
    /// one of the polygons by the even-odd rule.
    pub fn rasterize(&self) -> (r: Result<BinaryMask, MaskError>)
        requires
            self.width * self.height <= usize::MAX,
        ensures
            r is Ok <==> polygons_ok(*self),
            r is Err ==> r == Err::<BinaryMask, MaskError>(MaskError::ShapeMismatch),
            r matches Ok(m) ==> {
                &&& m.width == self.width
                &&& m.height == self.height
                &&& m.wf()
                &&& m.pixels() == raster_pixels(*self)
            },
    {
        let mut k: usize = 0;
        while k < self.polygons.len()
            invariant
                k <= self.polygons@.len(),
                forall|t: int|
                    0 <= t < k ==> polygon_ok(
                        (#[trigger] self.polygons@[t])@,
                        self.width as int,
                        self.height as int,
                    ),
            decreases self.polygons@.len() - k,
        {
            if !check_polygon(&self.polygons[k], self.width, self.height) {
                return Err(MaskError::ShapeMismatch);
            }
            k = k + 1;
        }
        let h = self.height as usize;
        let n: usize = self.width as usize * h;
        let mut data: Vec<u8> = Vec::new();
        let mut j: usize = 0;
        while j < n
            invariant
                polygons_ok(*self),
                h == self.height,
                n == self.width * self.height,
                j <= n,
                data@.len() == j,
                forall|t: int| 0 <= t < j ==> #[trigger] data@[t] <= 1,
                forall|t: int|
                    0 <= t < j ==> (#[trigger] data@[t] != 0) == raster_pixels(*self)[t],
            decreases n - j,
        {
            proof {
                assert(h > 0) by (nonlinear_arith)
                    requires
                        0 <= j < self.width * h,
                ;
                lemma_fundamental_div_mod(j as int, h as int);
                lemma_mod_bound(j as int, h as int);
                assert(j as int / h as int <= u32::MAX) by (nonlinear_arith)
                    requires
                        j == h * (j as int / h as int) + j as int % h as int,
                        0 <= j as int % h as int,
                        j < self.width * h,
                        h > 0,
                ;
            }
            let x = (j / h) as i64;
            let y = (j % h) as i64;
            let px = x * 1024 + 512;
            let py = y * 1024 + 512;
            let mut hit = false;
            let mut k: usize = 0;
            while k < self.polygons.len()
                invariant
                    polygons_ok(*self),
                    k <= self.polygons@.len(),
                    forall|t: int| 0 <= t < self.polygons@.len() ==> (#[trigger] self.polygons@[t])@.len() % 2 == 0,
                    0 <= x <= u32::MAX,
                    0 <= y <= u32::MAX,
                    px == centre(x as int),
                    py == centre(y as int),
                    hit == covered(self.polygons@, x as int, y as int, k as int),
                decreases self.polygons@.len() - k,
            {
                if point_inside(&self.polygons[k], self.width, self.height, px, py) {
                    hit = true;
                }
                k = k + 1;
            }
            data.push(if hit {
                1
            } else {
                0
            });
            j = j + 1;
        }
        let m = BinaryMask { width: self.width, height: self.height, data };
        assert(m.pixels() =~= raster_pixels(*self));
        Ok(m)
    }
}

/// The fixed-point outline of the pixels `y0..=y1` of column `x`, a rectangle
/// along the pixel borders.
pub open spec fn column_rect(x: int, y0: int, y1: int) -> Seq<i64> {
    seq![
        (x * COORD_SCALE) as i64,
        (y0 * COORD_SCALE) as i64,
        ((x + 1) * COORD_SCALE) as i64,
        (y0 * COORD_SCALE) as i64,
        ((x + 1) * COORD_SCALE) as i64,
        ((y1 + 1) * COORD_SCALE) as i64,
        (x * COORD_SCALE) as i64,
        ((y1 + 1) * COORD_SCALE) as i64,
    ]
}

proof fn lemma_rect_on_grid(x: int, y0: int, y1: int, w: int, h: int)
    requires
        0 <= x < w <= u32::MAX,
        0 <= y0 <= y1 < h <= u32::MAX,
    ensures
        polygon_ok(column_rect(x, y0, y1), w, h),
{
    let p = column_rect(x, y0, y1);
    assert forall|i: int| 0 <= i < p.len() implies #[trigger] coord_on_grid(p, i, w, h) by {
        if i == 0 || i == 6 {
            assert(p[i] == x * 1024);
        } else if i == 2 || i == 4 {
            assert(p[i] == (x + 1) * 1024);
        } else if i == 1 || i == 3 {
            assert(p[i] == y0 * 1024);
        } else {
            assert(p[i] == (y1 + 1) * 1024);
        }
    }
}

proof fn lemma_rect_inside(x: int, y0: int, y1: int, i: int, k: int)
    requires
        0 <= x < u32::MAX,
        0 <= y0 <= y1 < u32::MAX,
        0 <= i,
        0 <= k,
    ensures
        inside(column_rect(x, y0, y1), centre(i), centre(k)) <==> (i == x && y0 <= k <= y1),
{
    let p = column_rect(x, y0, y1);
    let px = centre(i);
    let py = centre(k);
    let xa = x * 1024;
    let xb = (x + 1) * 1024;
    let ya = y0 * 1024;
    let yb = (y1 + 1) * 1024;
    assert(p.len() == 8);
    assert(vx(p, 0) == xa && vy(p, 0) == ya);
    assert(vx(p, 1) == xb && vy(p, 1) == ya);
    assert(vx(p, 2) == xb && vy(p, 2) == yb);
    assert(vx(p, 3) == xa && vy(p, 3) == yb);
    assert(vx(p, 4) == xa && vy(p, 4) == ya);
    assert(!crosses(xa, ya, xb, ya, px, py));
    assert(!crosses(xb, yb, xa, yb, px, py));
    let band = (ya > py) != (yb > py);
    assert(band <==> (y0 <= k <= y1));
    assert((px - xb) * (yb - ya) < (py - ya) * (xb - xb) <==> i <= x) by (nonlinear_arith)
        requires
            yb > ya,
            px == i * 1024 + 512,
            xb == (x + 1) * 1024,
    ;
    assert((px - xa) * (ya - yb) > (py - yb) * (xa - xa) <==> i < x) by (nonlinear_arith)
        requires
            yb > ya,
            px == i * 1024 + 512,
            xa == x * 1024,
    ;
    reveal_with_fuel(crossings, 5);
    assert(crossings(p, px, py, 4) == (if band && i <= x {
        1int
    } else {
        0
    }) + (if band && i < x {
        1int
    } else {
        0
    }));
}

proof fn lemma_rect_pixel(x: int, y0: int, y1: int, h: int, t: int)
    requires
        0 <= x < u32::MAX,
        0 <= y0 <= y1 < h,
        h <= u32::MAX,
        0 <= t,
    ensures
        inside(column_rect(x, y0, y1), centre(t / h), centre(t % h)) <==> (x * h + y0 <= t
            <= x * h + y1),
{
    lemma_fundamental_div_mod(t, h);
    lemma_mod_bound(t, h);
    assert(t / h >= 0) by (nonlinear_arith)
        requires
            t == h * (t / h) + t % h,
            0 <= t % h < h,
            0 <= t,
    ;
    lemma_rect_inside(x, y0, y1, t / h, t % h);
    let q = t / h;
    let r = t % h;
    assert((q == x && y0 <= r <= y1) <==> (x * h + y0 <= t <= x * h + y1)) by (nonlinear_arith)
        requires
            t == h * q + r,
            0 <= r < h,
            0 <= y0 <= y1 < h,
    ;
}

proof fn lemma_covered_push(polys: Seq<Vec<i64>>, p: Vec<i64>, x: int, y: int)
    ensures
        covered(polys.push(p), x, y, polys.len() as int + 1) == (covered(polys, x, y, polys.len() as int)
            || inside(p@, centre(x), centre(y))),
{
    assert(polys.push(p)[polys.len() as int] == p);
    lemma_covered_prefix(polys, p, x, y, polys.len() as int);
}

proof fn lemma_covered_prefix(polys: Seq<Vec<i64>>, p: Vec<i64>, x: int, y: int, k: int)
    requires
        k <= polys.len(),
    ensures
        covered(polys.push(p), x, y, k) == covered(polys, x, y, k),
    decreases k,
{
    if k > 0 {
        assert(polys.push(p)[k - 1] == polys[k - 1]);
        lemma_covered_prefix(polys, p, x, y, k - 1);
    }
}

impl PolygonSet {
    /// Outlines of the foreground: one rectangle along the pixel borders for
    /// each maximal run of foreground pixels within a column. The outlines
    /// rasterize back to exactly the mask.
    pub fn from_mask(m: &BinaryMask) -> (r: PolygonSet)
        requires
            m.data@.len() == m.width * m.height,
        ensures
            r.width == m.width,
            r.height == m.height,
            polygons_ok(r),
            raster_pixels(r) == m.pixels(),
            r.polygons@.len() == 0 <==> forall|t: int|
                0 <= t < m.data@.len() ==> !#[trigger] m.pixels()[t],
    {
        let h = m.height as usize;
        let n = m.data.len();
        let mut polys: Vec<Vec<i64>> = Vec::new();
        let mut j: usize = 0;
        while j < n
            invariant
                n == m.data@.len(),
                n == m.width * m.height,
                h == m.height,
                j <= n,
                polys@.len() == 0 <==> forall|t: int| 0 <= t < j ==> !#[trigger] m.pixels()[t],
                forall|k: int|
                    0 <= k < polys@.len() ==> polygon_ok(
                        (#[trigger] polys@[k])@,
                        m.width as int,
                        m.height as int,
                    ),
                forall|t: int|
                    0 <= t < n ==> #[trigger] covered(
                        polys@,
                        t / h as int,
                        t % h as int,
                        polys@.len() as int,
                    ) == (t < j && m.pixels()[t]),
            decreases n - j,
        {
            if m.data[j] == 0 {
                proof {
                    assert forall|t: int| 0 <= t < n implies #[trigger] covered(
                        polys@,
                        t / h as int,
                        t % h as int,
                        polys@.len() as int,
                    ) == (t < j + 1 && m.pixels()[t]) by {
                        if t == j {
                            assert(!m.pixels()[t]);
                        }
                    }
                }
                j = j + 1;
            } else {
                proof {
                    assert(h > 0) by (nonlinear_arith)
                        requires
                            0 <= j < m.width * h,
                    ;
                    lemma_fundamental_div_mod(j as int, h as int);
                    lemma_mod_bound(j as int, h as int);
                    assert((j as int / h as int) < m.width) by (nonlinear_arith)
                        requires
                            j == h * (j as int / h as int) + j as int % h as int,
                            0 <= j as int % h as int,
                            j < m.width * h,
                            h > 0,
                    ;
                }
                let x = j / h;
                let y0 = j % h;
                let start = j;
                let mut e = j + 1;
                let mut y = y0 + 1;
                while e < n && y < h && m.data[e] != 0
                    invariant
                        n == m.data@.len(),
                        start < e <= n,
                        y == y0 + (e - start),
                        y <= h,
                        forall|t: int| start <= t < e ==> #[trigger] m.pixels()[t],
                    decreases n - e,
                {
                    e = e + 1;
                    y = y + 1;
                }
                let y1 = y - 1;
                let xa = (x as i64) * 1024;
                let xb = (x as i64 + 1) * 1024;
                let ya = (y0 as i64) * 1024;
                let yb = (y1 as i64 + 1) * 1024;
                let mut rect: Vec<i64> = Vec::new();
                rect.push(xa);
                rect.push(ya);
                rect.push(xb);
                rect.push(ya);
                rect.push(xb);
                rect.push(yb);
                rect.push(xa);
                rect.push(yb);
                proof {
                    assert(rect@ =~= column_rect(x as int, y0 as int, y1 as int));
                    lemma_rect_on_grid(x as int, y0 as int, y1 as int, m.width as int, h as int);
                    assert(polys@.push(rect)[polys@.len() as int] == rect);
                    lemma_fundamental_div_mod(start as int, h as int);
                    assert(x * h == h * x) by (nonlinear_arith);
                    assert(start == x * h + y0);
                    assert forall|t: int| 0 <= t < n implies #[trigger] covered(
                        polys@.push(rect),
                        t / h as int,
                        t % h as int,
                        polys@.len() as int + 1,
                    ) == (t < e && m.pixels()[t]) by {
                        lemma_covered_push(polys@, rect, t / h as int, t % h as int);
                        lemma_rect_pixel(x as int, y0 as int, y1 as int, h as int, t);
                    }
                }
                polys.push(rect);
                assert(m.pixels()[start as int]);
                j = e;
            }
        }
        let r = PolygonSet { width: m.width, height: m.height, polygons: polys };
        assert(raster_pixels(r) =~= m.pixels());
        r
    }
}

} // verus!
