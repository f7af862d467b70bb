use vstd::prelude::*;
use vstd::arithmetic::div_mod::{
    lemma_div_is_ordered, lemma_fundamental_div_mod, lemma_fundamental_div_mod_converse,
};
use crate::types::{BinaryMask, MaskError, PixelBox, RLE};

verus! {

/// The pixels described by `runs`, the first run having colour `fg`.
pub open spec fn expand(runs: Seq<u32>, fg: bool) -> Seq<bool>
    decreases runs.len(),
{
    if runs.len() == 0 {
        Seq::empty()
    } else {
        Seq::new(runs[0] as nat, |_i: int| fg) + expand(runs.drop_first(), !fg)
    }
}

/// The column-major pixels of a run list that starts with background.
pub open spec fn run_pixels(runs: Seq<u32>) -> Seq<bool> {
    expand(runs, false)
}

/// The colour of the run at `index`: odd runs are foreground.
pub open spec fn run_colour(index: int) -> bool {
    index % 2 == 1
}

/// The one run list that each pixel sequence has: at least one run, and every
/// run after the first is non-empty.
pub open spec fn canonical(runs: Seq<u32>) -> bool {
    &&& runs.len() >= 1
    &&& forall|i: int| 1 <= i < runs.len() ==> #[trigger] runs[i] > 0
}

/// The sum of all runs.
pub open spec fn run_sum(runs: Seq<u32>) -> int
    decreases runs.len(),
{
    if runs.len() == 0 {
        0
    } else {
        run_sum(runs.drop_last()) + runs.last()
    }
}

/// The sum of the foreground (odd-index) runs.
pub open spec fn fg_sum(runs: Seq<u32>) -> int
    decreases runs.len(),
{
    if runs.len() == 0 {
        0
    } else {
        fg_sum(runs.drop_last()) + if run_colour(runs.len() - 1) {
            runs.last() as int
        } else {
            0
        }
    }
}

/// The number of foreground pixels.
pub open spec fn count_fg(px: Seq<bool>) -> int
    decreases px.len(),
{
    if px.len() == 0 {
        0
    } else {
        count_fg(px.drop_last()) + if px.last() {
            1int
        } else {
            0
        }
    }
}

/// The bytes of a 0/1 grid for the given pixels.
pub open spec fn grid_of(px: Seq<bool>) -> Seq<u8> {
    px.map_values(|b: bool| if b { 1u8 } else { 0u8 })
}

/// `runs` agree with the declared size.
pub open spec fn shape_ok(r: RLE) -> bool {
    r.size@.len() == 2 && run_sum(r.counts@) == r.pixel_count()
}

/// Pixel `p` exists and is foreground.
pub open spec fn fg_at(px: Seq<bool>, p: int) -> bool {
    0 <= p < px.len() && px[p]
}

/// Columns `x0..=x1` and rows `y0..=y1` hold every foreground pixel, and each
/// of the four bounds is reached by one (column `p / h`, row `p % h`).
pub open spec fn spans(px: Seq<bool>, h: int, x0: int, x1: int, y0: int, y1: int) -> bool {
    &&& forall|p: int| #[trigger]
        fg_at(px, p) ==> x0 <= p / h <= x1 && y0 <= p % h <= y1
    &&& exists|p: int| #[trigger] fg_at(px, p) && p / h == x0
    &&& exists|p: int| #[trigger] fg_at(px, p) && p / h == x1
    &&& exists|p: int| #[trigger] fg_at(px, p) && p % h == y0
    &&& exists|p: int| #[trigger] fg_at(px, p) && p % h == y1
}

/// `b` is the tight box of the foreground of `px` in a grid of height `h`,
/// or all zero when there is no foreground.
pub open spec fn is_tight_box(px: Seq<bool>, h: int, b: PixelBox) -> bool {
    if exists|p: int| fg_at(px, p) {
        &&& b.width >= 1
        &&& b.height >= 1
        &&& spans(
            px,
            h,
            b.left as int,
            b.left + b.width - 1,
            b.top as int,
            b.top + b.height - 1,
        )
    } else {
        b == PixelBox { left: 0, top: 0, width: 0, height: 0 }
    }
}

proof fn lemma_col_row(p: int, h: int, q: int, r: int)
    requires
        h > 0,
        0 <= r < h,
        p == q * h + r,
    ensures
        p / h == q,
        p % h == r,
{
    lemma_fundamental_div_mod_converse(p, h, q, r);
}

/// Where a run of pixels `s..=e` lies: its columns, and its rows (all of them
/// once it passes into a second column).
proof fn lemma_run_extent(s: int, e: int, h: int)
    requires
        0 <= s <= e,
        h > 0,
    ensures
        forall|p: int| s <= p <= e ==> s / h <= #[trigger] (p / h) <= e / h,
        s / h == e / h ==> forall|p: int| s <= p <= e ==> s % h <= #[trigger] (p % h) <= e % h,
        forall|p: int| 0 <= #[trigger] (p % h) < h,
        s / h < e / h ==> {
            let a = (s / h) * h + h - 1;
            let c = (e / h) * h;
            &&& s <= a <= e
            &&& a % h == h - 1
            &&& a / h == s / h
            &&& s <= c <= e
            &&& c % h == 0
            &&& c / h == e / h
        },
{
    assert forall|p: int| s <= p <= e implies s / h <= #[trigger] (p / h) <= e / h by {
        lemma_div_is_ordered(s, p, h);
        lemma_div_is_ordered(p, e, h);
    }
    assert forall|p: int| 0 <= #[trigger] (p % h) < h by {
        lemma_fundamental_div_mod(p, h);
        vstd::arithmetic::div_mod::lemma_mod_bound(p, h);
    }
    lemma_fundamental_div_mod(s, h);
    lemma_fundamental_div_mod(e, h);
    if s / h == e / h {
        assert forall|p: int| s <= p <= e implies s % h <= #[trigger] (p % h) <= e % h by {
            lemma_div_is_ordered(s, p, h);
            lemma_div_is_ordered(p, e, h);
            lemma_fundamental_div_mod(p, h);
            assert(h * (p / h) == h * (s / h));
        }
    }
    if s / h < e / h {
        let xs = s / h;
        let xe = e / h;
        let a = xs * h + h - 1;
        let c = xe * h;
        lemma_col_row(a, h, xs, h - 1);
        lemma_col_row(c, h, xe, 0);
        vstd::arithmetic::div_mod::lemma_mod_bound(s, h);
        vstd::arithmetic::div_mod::lemma_mod_bound(e, h);
        assert(h * xs == xs * h) by (nonlinear_arith);
        assert(h * xe == xe * h) by (nonlinear_arith);
        assert(xe * h >= (xs + 1) * h) by (nonlinear_arith)
            requires
                xe >= xs + 1,
                h > 0,
        ;
        assert((xs + 1) * h == xs * h + h) by (nonlinear_arith);
    }
}

pub proof fn lemma_expand_push(runs: Seq<u32>, x: u32, fg: bool)
    ensures
        expand(runs.push(x), fg) == expand(runs, fg) + Seq::new(
            x as nat,
            |_i: int| fg != run_colour(runs.len() as int),
        ),
    decreases runs.len(),
{
    if runs.len() == 0 {
        assert(runs.push(x).drop_first() =~= Seq::<u32>::empty());
        assert(runs.push(x)[0] == x);
        assert(expand(Seq::<u32>::empty(), !fg) =~= Seq::<bool>::empty());
        assert(expand(runs, fg) =~= Seq::<bool>::empty());
        assert(expand(runs.push(x), fg) =~= Seq::new(x as nat, |_i: int| fg));
    } else {
        assert(runs.push(x).drop_first() =~= runs.drop_first().push(x));
        lemma_expand_push(runs.drop_first(), x, !fg);
        assert(expand(runs.push(x), fg) =~= expand(runs, fg) + Seq::new(
            x as nat,
            |_i: int| fg != run_colour(runs.len() as int),
        ));
    }
}

pub proof fn lemma_expand_len(runs: Seq<u32>, fg: bool)
    ensures
        expand(runs, fg).len() == run_sum(runs),
    decreases runs.len(),
{
    if runs.len() > 0 {
        lemma_expand_push(runs.drop_last(), runs.last(), fg);
        assert(runs.drop_last().push(runs.last()) =~= runs);
        lemma_expand_len(runs.drop_last(), fg);
    }
}

proof fn lemma_count_concat(a: Seq<bool>, b: Seq<bool>)
    ensures
        count_fg(a + b) == count_fg(a) + count_fg(b),
    decreases b.len(),
{
    if b.len() == 0 {
        assert(a + b =~= a);
    } else {
        assert((a + b).drop_last() =~= a + b.drop_last());
        lemma_count_concat(a, b.drop_last());
    }
}

proof fn lemma_count_const(n: nat, c: bool)
    ensures
        count_fg(Seq::new(n, |_i: int| c)) == if c {
            n as int
        } else {
            0
        },
    decreases n,
{
    if n > 0 {
        assert(Seq::new(n, |_i: int| c).drop_last() =~= Seq::new((n - 1) as nat, |_i: int| c));
        lemma_count_const((n - 1) as nat, c);
    }
}

/// The area of a run list, the sum of its foreground runs, is the number of
/// foreground pixels that it describes.
pub proof fn lemma_area_counts_pixels(runs: Seq<u32>)
    ensures
        fg_sum(runs) == count_fg(run_pixels(runs)),
    decreases runs.len(),
{
    if runs.len() > 0 {
        let init = runs.drop_last();
        lemma_area_counts_pixels(init);
        lemma_expand_push(init, runs.last(), false);
        assert(init.push(runs.last()) =~= runs);
        let c = false != run_colour(init.len() as int);
        lemma_count_concat(run_pixels(init), Seq::new(runs.last() as nat, |_i: int| c));
        lemma_count_const(runs.last() as nat, c);
    }
}

proof fn lemma_expand_unique(a: Seq<u32>, b: Seq<u32>, fg: bool)
    requires
        a.len() >= 1,
        b.len() >= 1,
        forall|i: int| 1 <= i < a.len() ==> #[trigger] a[i] > 0,
        forall|i: int| 1 <= i < b.len() ==> #[trigger] b[i] > 0,
        expand(a, fg) == expand(b, fg),
    ensures
        a == b,
    decreases a.len(),
{
    let ea = expand(a, fg);
    let ra = expand(a.drop_first(), !fg);
    let rb = expand(b.drop_first(), !fg);
    if a[0] == b[0] {
        assert(ra =~= ea.subrange(a[0] as int, ea.len() as int));
        assert(rb =~= ea.subrange(a[0] as int, ea.len() as int));
        if a.len() == 1 && b.len() == 1 {
            assert(a =~= b);
        } else if a.len() == 1 {
            assert(rb.len() >= b[1]);
        } else if b.len() == 1 {
            assert(ra.len() >= a[1]);
        } else {
            lemma_expand_unique(a.drop_first(), b.drop_first(), !fg);
            assert forall|i: int| 0 <= i < a.len() implies a[i] == b[i] by {
                if i > 0 {
                    assert(a[i] == a.drop_first()[i - 1]);
                    assert(b[i] == b.drop_first()[i - 1]);
                }
            }
            assert(a =~= b);
        }
    } else if a[0] < b[0] {
        assert(expand(b, fg)[a[0] as int] == fg);
        if a.len() == 1 {
            assert(ea.len() == a[0]);
        } else {
            assert(ra[0] == !fg);
            assert(ea[a[0] as int] == ra[0]);
        }
    } else {
        assert(ea[b[0] as int] == fg);
        if b.len() == 1 {
            assert(expand(b, fg).len() == b[0]);
        } else {
            assert(rb[0] == !fg);
            assert(expand(b, fg)[b[0] as int] == rb[0]);
        }
    }
}

/// Two canonical run lists that describe the same pixels are equal.
pub proof fn lemma_canonical_unique(a: Seq<u32>, b: Seq<u32>)
    requires
        canonical(a),
        canonical(b),
        run_pixels(a) == run_pixels(b),
    ensures
        a == b,
{
    lemma_expand_unique(a, b, false);
}

/// Runs survive a trip through the pixel grid: when `back` are the canonical
/// runs of the grid that the canonical `runs` describe, `back` is `runs`.
pub proof fn lemma_runs_mask_runs(runs: Seq<u32>, back: Seq<u32>)
    requires
        canonical(runs),
        canonical(back),
        run_pixels(back) == grid_of(run_pixels(runs)).map_values(|v: u8| v != 0),
    ensures
        back == runs,
{
    assert(grid_of(run_pixels(runs)).map_values(|v: u8| v != 0) =~= run_pixels(runs));
    lemma_canonical_unique(back, runs);
}

/// A 0/1 grid survives a trip through its runs: the grid of its pixels is
/// the grid itself.
pub proof fn lemma_mask_runs_mask(m: BinaryMask)
    requires
        m.wf(),
    ensures
        grid_of(m.pixels()) == m.data@,
{
    assert forall|i: int| 0 <= i < m.data@.len() implies #[trigger] grid_of(m.pixels())[i]
        == m.data@[i] by {
        assert(m.data@[i] <= 1);
    }
    assert(grid_of(m.pixels()) =~= m.data@);
}

/// Pushes `n` copies of `v`.
fn push_repeat(data: &mut Vec<u8>, v: u8, n: u32)
    ensures
        final(data)@ == old(data)@ + Seq::new(n as nat, |_i: int| v),
{
    let mut j: u32 = 0;
    while j < n
        invariant
            j <= n,
            data@ == old(data)@ + Seq::new(j as nat, |_i: int| v),
        decreases n - j,
    {
        data.push(v);
        j = j + 1;
        assert(data@ =~= old(data)@ + Seq::new(j as nat, |_i: int| v));
    }
}

/// Sum of the runs, or `None` when it exceeds `u64`.
pub(crate) fn sum_runs(counts: &Vec<u32>) -> (r: Option<u64>)
    ensures
        match r {
            Some(s) => s == run_sum(counts@),
            None => run_sum(counts@) > u64::MAX,
        },
{
    let mut acc: u128 = 0;
    let mut i: usize = 0;
    while i < counts.len()
        invariant
            i <= counts@.len(),
            acc == run_sum(counts@.take(i as int)),
            acc <= i * 0xffff_ffffu128,
        decreases counts@.len() - i,
    {
        assert(counts@.take(i as int + 1).drop_last() =~= counts@.take(i as int));
        acc = acc + counts[i] as u128;
        i = i + 1;
    }
    assert(counts@.take(i as int) =~= counts@);
    if acc > u64::MAX as u128 {
        None
    } else {
        Some(acc as u64)
    }
}

impl RLE {
    /// Checks that `size` is a `[height, width]` pair and that the runs cover
    /// exactly `width * height` pixels.
    pub fn check_shape(&self) -> (r: Result<(), MaskError>)
        ensures
            r is Ok <==> shape_ok(*self),
            r is Err ==> r == Err::<(), MaskError>(MaskError::ShapeMismatch),
    {
        if self.size.len() != 2 {
            return Err(MaskError::ShapeMismatch);
        }
        let h = self.size[0] as u64;
        let w = self.size[1] as u64;
        assert(h * w <= u64::MAX) by (nonlinear_arith)
            requires
                h <= u32::MAX,
                w <= u32::MAX,
        ;
        let total = h * w;
        match sum_runs(&self.counts) {
            Some(s) => {
                if s == total {
                    Ok(())
                } else {
                    Err(MaskError::ShapeMismatch)
                }
            },
            None => Err(MaskError::ShapeMismatch),
        }
    }

    /// The number of foreground pixels: the sum of the odd-index runs.
    pub fn area(&self) -> (r: Result<u64, MaskError>)
        ensures
            r is Ok <==> shape_ok(*self),
            r matches Ok(a) ==> a == fg_sum(self.counts@),
            r is Err ==> r == Err::<u64, MaskError>(MaskError::ShapeMismatch),
    {
        self.check_shape()?;
        proof {
            let h = self.size@[0];
            let w = self.size@[1];
            assert(h * w <= u64::MAX) by (nonlinear_arith)
                requires
                    h <= u32::MAX,
                    w <= u32::MAX,
            ;
        }
        let mut acc: u64 = 0;
        let mut i: usize = 0;
        proof {
            lemma_fg_le_sum(self.counts@);
        }
        while i < self.counts.len()
            invariant
                i <= self.counts@.len(),
                shape_ok(*self),
                acc == fg_sum(self.counts@.take(i as int)),
                run_sum(self.counts@.take(i as int)) <= run_sum(self.counts@),
                run_sum(self.counts@) <= u64::MAX,
                fg_sum(self.counts@.take(i as int)) <= run_sum(self.counts@.take(i as int)),
            decreases self.counts@.len() - i,
        {
            let ghost t = self.counts@.take(i as int + 1);
            assert(t.drop_last() =~= self.counts@.take(i as int));
            proof {
                lemma_fg_le_sum(t);
                lemma_prefix_sum_le(self.counts@, i as int + 1);
            }
            if i % 2 == 1 {
                acc = acc + self.counts[i] as u64;
            }
            i = i + 1;
        }
        assert(self.counts@.take(i as int) =~= self.counts@);
        Ok(acc)
    }
    /// The pixel grid that the runs describe.
    pub fn to_mask(&self) -> (r: Result<BinaryMask, MaskError>)
        ensures
            r is Ok <==> shape_ok(*self),
            r is Err ==> r == Err::<BinaryMask, MaskError>(MaskError::ShapeMismatch),
            r matches Ok(m) ==> {
                &&& m.height == self.size@[0]
                &&& m.width == self.size@[1]
                &&& m.data@ == grid_of(run_pixels(self.counts@))
                &&& m.wf()
            },
    {
        self.check_shape()?;
        let mut data: Vec<u8> = Vec::new();
        let mut i: usize = 0;
        while i < self.counts.len()
            invariant
                i <= self.counts@.len(),
                data@ == grid_of(run_pixels(self.counts@.take(i as int))),
            decreases self.counts@.len() - i,
        {
            let v: u8 = if i % 2 == 1 { 1 } else { 0 };
            push_repeat(&mut data, v, self.counts[i]);
            proof {
                let t = self.counts@.take(i as int);
                assert(t.push(self.counts@[i as int]) =~= self.counts@.take(i as int + 1));
                lemma_expand_push(t, self.counts@[i as int], false);
                assert(data@ =~= grid_of(run_pixels(self.counts@.take(i as int + 1))));
            }
            i = i + 1;
        }
        assert(self.counts@.take(i as int) =~= self.counts@);
        proof {
            lemma_expand_len(self.counts@, false);
            let h = self.size@[0] as int;
            let w = self.size@[1] as int;
            assert(h * w == w * h) by (nonlinear_arith);
        }
        assert(forall|j: int| 0 <= j < data@.len() ==> #[trigger] data@[j] <= 1);
        Ok(BinaryMask { width: self.size[1], height: self.size[0], data })
    }

    /// The tight box of the foreground pixels, found from the runs alone: a
    /// run within one column spans its own rows, a run across columns spans
    /// them all.
    pub fn bbox(&self) -> (r: Result<PixelBox, MaskError>)
        ensures
            r is Ok <==> shape_ok(*self),
            r is Err ==> r == Err::<PixelBox, MaskError>(MaskError::ShapeMismatch),
            r matches Ok(b) ==> is_tight_box(run_pixels(self.counts@), self.size@[0] as int, b),
    {
        self.check_shape()?;
        let h = self.size[0] as u64;
        let w = self.size[1] as u64;
        assert(h * w <= u64::MAX) by (nonlinear_arith)
            requires
                h <= u32::MAX,
                w <= u32::MAX,
        ;
        let mut cursor: u64 = 0;
        let mut found = false;
        let mut x0: u64 = 0;
        let mut x1: u64 = 0;
        let mut y0: u64 = 0;
        let mut y1: u64 = 0;
        let mut i: usize = 0;
        proof {
            assert(self.counts@.take(0) =~= Seq::<u32>::empty());
            assert(run_pixels(self.counts@.take(0)) =~= Seq::<bool>::empty());
        }
        while i < self.counts.len()
            invariant
                h == self.size@[0],
                w == self.size@[1],
                w <= u32::MAX,
                h * w <= u64::MAX,
                run_sum(self.counts@) == h * w,
                i <= self.counts@.len(),
                cursor == run_sum(self.counts@.take(i as int)),
                cursor <= h * w,
                run_pixels(self.counts@.take(i as int)).len() == cursor,
                found <==> exists|p: int| fg_at(run_pixels(self.counts@.take(i as int)), p),
                found ==> x0 <= x1 < w && y0 <= y1 < h && spans(
                    run_pixels(self.counts@.take(i as int)),
                    h as int,
                    x0 as int,
                    x1 as int,
                    y0 as int,
                    y1 as int,
                ),
            decreases self.counts@.len() - i,
        {
            let n = self.counts[i];
            let ghost t = self.counts@.take(i as int);
            let ghost px = run_pixels(t);
            let ghost px2 = run_pixels(self.counts@.take(i as int + 1));
            proof {
                assert(t.push(n) =~= self.counts@.take(i as int + 1));
                lemma_expand_push(t, n, false);
                lemma_expand_len(self.counts@.take(i as int + 1), false);
                lemma_prefix_sum_le(self.counts@, i as int + 1);
                assert(self.counts@.take(i as int + 1).drop_last() =~= t);
                assert forall|p: int| #[trigger] fg_at(px2, p) <==> fg_at(px, p) || (run_colour(
                    i as int,
                ) && cursor <= p < cursor + n) by {
                    if 0 <= p < px.len() {
                        assert(px2[p] == px[p]);
                    } else if px.len() <= p < px2.len() {
                        assert(px2[p] == run_colour(i as int));
                    }
                }
            }
            if i % 2 == 1 && n > 0 {
                let s = cursor;
                let e = cursor + n as u64 - 1;
                proof {
                    assert(h > 0) by (nonlinear_arith)
                        requires
                            e < h * w,
                            h >= 0,
                    ;
                }
                let xs = s / h;
                let xe = e / h;
                let (ys, ye) = if xs == xe {
                    (s % h, e % h)
                } else {
                    (0, h - 1)
                };
                proof {
                    lemma_run_extent(s as int, e as int, h as int);
                    lemma_fundamental_div_mod(e as int, h as int);
                    vstd::arithmetic::div_mod::lemma_mod_bound(e as int, h as int);
                    assert(xe < w) by (nonlinear_arith)
                        requires
                            e == h * xe + e % h,
                            0 <= e % h,
                            e < h * w,
                            h > 0,
                    ;
                    assert(fg_at(px2, s as int));
                    assert(fg_at(px2, e as int));
                    if xs != xe {
                        assert(fg_at(px2, (xs * h + h - 1) as int));
                        assert(fg_at(px2, (xe * h) as int));
                    }
                }
                let ghost (ox0, ox1, oy0, oy1) = (x0, x1, y0, y1);
                let ghost ofound = found;
                if !found || xs < x0 {
                    x0 = xs;
                }
                if !found || xe > x1 {
                    x1 = xe;
                }
                if !found || ys < y0 {
                    y0 = ys;
                }
                if !found || ye > y1 {
                    y1 = ye;
                }
                found = true;
                proof {
                    if ofound {
                        let a0 = choose|p: int| #[trigger] fg_at(px, p) && p / (h as int) == ox0;
                        let a1 = choose|p: int| #[trigger] fg_at(px, p) && p / (h as int) == ox1;
                        let b0 = choose|p: int| #[trigger] fg_at(px, p) && p % (h as int) == oy0;
                        let b1 = choose|p: int| #[trigger] fg_at(px, p) && p % (h as int) == oy1;
                        assert(fg_at(px2, a0) && fg_at(px2, a1) && fg_at(px2, b0) && fg_at(px2, b1));
                    }
                    assert(spans(px2, h as int, x0 as int, x1 as int, y0 as int, y1 as int));
                }
            } else {
                proof {
                    if found {
                        let a0 = choose|p: int| #[trigger] fg_at(px, p) && p / (h as int) == x0;
                        let a1 = choose|p: int| #[trigger] fg_at(px, p) && p / (h as int) == x1;
                        let b0 = choose|p: int| #[trigger] fg_at(px, p) && p % (h as int) == y0;
                        let b1 = choose|p: int| #[trigger] fg_at(px, p) && p % (h as int) == y1;
                        assert(fg_at(px2, a0) && fg_at(px2, a1) && fg_at(px2, b0) && fg_at(px2, b1));
                    } else {
                        assert forall|p: int| !fg_at(px2, p) by {
                            assert(!fg_at(px, p));
                        }
                    }
                }
            }
            cursor = cursor + n as u64;
            i = i + 1;
        }
        assert(self.counts@.take(i as int) =~= self.counts@);
        if found {
            Ok(PixelBox {
                left: x0 as u32,
                top: y0 as u32,
                width: (x1 - x0 + 1) as u32,
                height: (y1 - y0 + 1) as u32,
            })
        } else {
            Ok(PixelBox { left: 0, top: 0, width: 0, height: 0 })
        }
    }

    /// The canonical runs of a pixel grid, scanned in column-major order.
    pub fn from_mask(mask: &BinaryMask) -> (r: RLE)
        requires
            mask.data@.len() == mask.width as int * mask.height as int,
            mask.data@.len() <= u32::MAX,
        ensures
            r.size@ == seq![mask.height, mask.width],
            canonical(r.counts@),
            run_pixels(r.counts@) == mask.pixels(),
            shape_ok(r),
    {
        let mut runs: Vec<u32> = Vec::new();
        let mut c: u32 = 0;
        let mut prev: bool = false;
        let mut k: usize = 0;
        let n = mask.data.len();
        proof {
            lemma_expand_push(runs@, 0, false);
            assert(expand(Seq::<u32>::empty(), false) =~= Seq::<bool>::empty());
            assert(run_pixels(runs@.push(0)) =~= mask.pixels().take(0));
        }
        while k < n
            invariant
                n == mask.data@.len(),
                k <= n,
                n <= u32::MAX,
                c <= k,
                runs@.len() >= 1 ==> c > 0,
                forall|i: int| 1 <= i < runs@.len() ==> #[trigger] runs@[i] > 0,
                prev == run_colour(runs@.len() as int),
                run_pixels(runs@.push(c)) == mask.pixels().take(k as int),
            decreases n - k,
        {
            let p = mask.data[k] != 0;
            proof {
                assert(mask.pixels().take(k as int + 1) =~= mask.pixels().take(k as int).push(p));
            }
            if p != prev {
                proof {
                    lemma_expand_push(runs@.push(c), 1, false);
                    lemma_expand_push(runs@, c, false);
                }
                runs.push(c);
                c = 1;
                prev = p;
                assert(run_pixels(runs@.push(c)) =~= mask.pixels().take(k as int + 1));
            } else {
                proof {
                    lemma_expand_push(runs@, c, false);
                    lemma_expand_push(runs@, (c + 1) as u32, false);
                }
                c = c + 1;
                assert(run_pixels(runs@.push(c)) =~= mask.pixels().take(k as int + 1));
            }
            k = k + 1;
        }
        runs.push(c);
        assert(mask.pixels().take(n as int) =~= mask.pixels());
        proof {
            lemma_expand_len(runs@, false);
            let h = mask.height as int;
            let w = mask.width as int;
            assert(h * w == w * h) by (nonlinear_arith);
        }
        let mut size: Vec<u32> = Vec::new();
        size.push(mask.height);
        size.push(mask.width);
        assert(size@ =~= seq![mask.height, mask.width]);
        RLE { size, counts: runs }
    }
}

proof fn lemma_fg_le_sum(runs: Seq<u32>)
    ensures
        0 <= fg_sum(runs) <= run_sum(runs),
    decreases runs.len(),
{
    if runs.len() > 0 {
        lemma_fg_le_sum(runs.drop_last());
    }
}

proof fn lemma_prefix_sum_le(runs: Seq<u32>, k: int)
    requires
        0 <= k <= runs.len(),
    ensures
        run_sum(runs.take(k)) <= run_sum(runs),
    decreases runs.len(),
{
    if k < runs.len() {
        assert(runs.drop_last().take(k) =~= runs.take(k));
        lemma_prefix_sum_le(runs.drop_last(), k);
    } else {
        assert(runs.take(k) =~= runs);
    }
}

} // verus!
