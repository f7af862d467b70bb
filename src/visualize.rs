use vstd::prelude::*;
use vstd::arithmetic::div_mod::{lemma_fundamental_div_mod, lemma_mod_bound};
use crate::types::{BinaryMask, MaskError, PixelBox};

verus! {

/// An opaque `0RGB` display pixel.
pub open spec fn pack_rgb(r: u8, g: u8, b: u8) -> u32 {
    (0xFF00_0000 + r as int * 65536 + g as int * 256 + b as int) as u32
}

/// The display pixels of a row-major RGB image of `n` pixels.
pub open spec fn base_frame(rgb: Seq<u8>, n: int) -> Seq<u32> {
    Seq::new(n as nat, |j: int| pack_rgb(rgb[3 * j], rgb[3 * j + 1], rgb[3 * j + 2]))
}

/// The column-major index of display pixel `j` (row-major) of a `w` by `h`
/// grid.
pub open spec fn mask_index(j: int, w: int, h: int) -> int {
    (j % w) * h + j / w
}

/// `frame` with the foreground pixels of `m` painted in colour `c`.
pub open spec fn painted(frame: Seq<u32>, m: Seq<bool>, w: int, h: int, c: (u8, u8, u8)) -> Seq<
    u32,
> {
    Seq::new(
        frame.len(),
        |j: int|
            if m[mask_index(j, w, h)] {
                pack_rgb(c.0, c.1, c.2)
            } else {
                frame[j]
            },
    )
}

/// `frame` with the first `k` masks painted in turn, each in its colour.
pub open spec fn overlay(
    frame: Seq<u32>,
    masks: Seq<BinaryMask>,
    colours: Seq<(u8, u8, u8)>,
    w: int,
    h: int,
    k: int,
) -> Seq<u32>
    decreases k,
{
    if k <= 0 {
        frame
    } else {
        painted(
            overlay(frame, masks, colours, w, h, k - 1),
            masks[k - 1].pixels(),
            w,
            h,
            colours[k - 1],
        )
    }
}

/// The inputs fit together: three bytes per pixel, one colour per mask, and
/// every mask of the image's size.
pub open spec fn frame_inputs_ok(
    rgb: Seq<u8>,
    width: u32,
    height: u32,
    masks: Seq<BinaryMask>,
    colours: Seq<(u8, u8, u8)>,
) -> bool {
    &&& rgb.len() == 3 * width * height
    &&& masks.len() == colours.len()
    &&& forall|k: int|
        0 <= k < masks.len() ==> {
            &&& (#[trigger] masks[k]).width == width
            &&& masks[k].height == height
            &&& masks[k].data@.len() == width * height
        }
}

proof fn lemma_mask_index_bound(j: int, w: int, h: int)
    requires
        w > 0,
        h >= 0,
        0 <= j < w * h,
    ensures
        0 <= mask_index(j, w, h) < w * h,
{
    lemma_fundamental_div_mod(j, w);
    lemma_mod_bound(j, w);
    let x = j % w;
    let y = j / w;
    assert(0 <= y < h) by (nonlinear_arith)
        requires
            j == w * y + x,
            0 <= x < w,
            0 <= j < w * h,
    ;
    assert(0 <= x * h + y < w * h) by (nonlinear_arith)
        requires
            0 <= x < w,
            0 <= y < h,
    ;
}

proof fn lemma_overlay_len(
    frame: Seq<u32>,
    masks: Seq<BinaryMask>,
    colours: Seq<(u8, u8, u8)>,
    w: int,
    h: int,
    k: int,
)
    ensures
        overlay(frame, masks, colours, w, h, k).len() == frame.len(),
    decreases k,
{
    if k > 0 {
        lemma_overlay_len(frame, masks, colours, w, h, k - 1);
    }
}

fn pack(r: u8, g: u8, b: u8) -> (v: u32)
    ensures
        v == pack_rgb(r, g, b),
{
    0xFF00_0000u32 + (r as u32) * 65536 + (g as u32) * 256 + b as u32
}

fn paint(frame: &mut Vec<u32>, mask: &BinaryMask, w: u32, h: u32, c: (u8, u8, u8))
    requires
        old(frame)@.len() == w * h,
        mask.data@.len() == w * h,
        w * h <= usize::MAX,
    ensures
        final(frame)@ == painted(old(frame)@, mask.pixels(), w as int, h as int, c),
{
    let n = frame.len();
    let colour = pack(c.0, c.1, c.2);
    let mut j: usize = 0;
    while j < n
        invariant
            n == frame@.len(),
            n == old(frame)@.len(),
            colour == pack_rgb(c.0, c.1, c.2),
            n == w * h,
            n == mask.data@.len(),
            j <= n,
            forall|t: int|
                0 <= t < j ==> #[trigger] frame@[t] == painted(
                    old(frame)@,
                    mask.pixels(),
                    w as int,
                    h as int,
                    c,
                )[t],
            forall|t: int| j <= t < n ==> #[trigger] frame@[t] == old(frame)@[t],
        decreases n - j,
    {
        assert(w > 0) by (nonlinear_arith)
            requires
                0 <= j < w * h,
        ;
        let x = (j as u64 % w as u64) as usize;
        let y = (j as u64 / w as u64) as usize;
        proof {
            lemma_mask_index_bound(j as int, w as int, h as int);
        }
        let mi = x * (h as usize) + y;
        assert(mi == mask_index(j as int, w as int, h as int));
        assert(mask.pixels()[mi as int] == (mask.data@[mi as int] != 0));
        assert(frame@[j as int] == old(frame)@[j as int]);
        let ghost pj = painted(old(frame)@, mask.pixels(), w as int, h as int, c);
        assert(pj[j as int] == if mask.pixels()[mi as int] {
            pack_rgb(c.0, c.1, c.2)
        } else {
            old(frame)@[j as int]
        });
        if mask.data[mi] != 0 {
            frame.set(j, colour);
        }
        assert(frame@[j as int] == pj[j as int]);
        j = j + 1;
    }
    assert(frame@ =~= painted(old(frame)@, mask.pixels(), w as int, h as int, c));
}

/// The display buffer of an image with its masks drawn over it: each pixel of
/// the row-major RGB image becomes an opaque `0RGB` value, and the foreground
/// of each mask, in turn, is painted in that mask's colour.
pub fn visualize_img(
    rgb: &Vec<u8>,
    width: u32,
    height: u32,
    masks: &Vec<BinaryMask>,
    colours: &Vec<(u8, u8, u8)>,
) -> (r: Result<Vec<u32>, MaskError>)
    requires
        width * height <= usize::MAX / 4,
    ensures
        r is Ok <==> frame_inputs_ok(rgb@, width, height, masks@, colours@),
        r is Err ==> r == Err::<Vec<u32>, MaskError>(MaskError::ShapeMismatch),
        r matches Ok(buf) ==> buf@ == overlay(
            base_frame(rgb@, width * height),
            masks@,
            colours@,
            width as int,
            height as int,
            masks@.len() as int,
        ),
{
    let n: usize = width as usize * height as usize;
    assert(3 * width * height == 3 * n) by (nonlinear_arith)
        requires
            n == width * height,
    ;
    if rgb.len() != 3 * n || masks.len() != colours.len() {
        return Err(MaskError::ShapeMismatch);
    }
    let mut k: usize = 0;
    while k < masks.len()
        invariant
            k <= masks@.len(),
            n == width * height,
            forall|t: int|
                0 <= t < k ==> {
                    &&& (#[trigger] masks@[t]).width == width
                    &&& masks@[t].height == height
                    &&& masks@[t].data@.len() == width * height
                },
        decreases masks@.len() - k,
    {
        let m = &masks[k];
        if m.width != width || m.height != height || m.data.len() != n {
            return Err(MaskError::ShapeMismatch);
        }
        k = k + 1;
    }
    let mut frame: Vec<u32> = Vec::new();
    let mut j: usize = 0;
    while j < n
        invariant
            j <= n,
            n == width * height,
            rgb@.len() == 3 * n,
            n <= usize::MAX / 4,
            frame@ == base_frame(rgb@, j as int),
        decreases n - j,
    {
        let v = pack(rgb[3 * j], rgb[3 * j + 1], rgb[3 * j + 2]);
        frame.push(v);
        j = j + 1;
        assert(frame@ =~= base_frame(rgb@, j as int));
    }
    let mut k: usize = 0;
    while k < masks.len()
        invariant
            k <= masks@.len(),
            masks@.len() == colours@.len(),
            n == width * height,
            n <= usize::MAX / 4,
            frame_inputs_ok(rgb@, width, height, masks@, colours@),
            frame@ == overlay(
                base_frame(rgb@, n as int),
                masks@,
                colours@,
                width as int,
                height as int,
                k as int,
            ),
        decreases masks@.len() - k,
    {
        assert(masks@[k as int].data@.len() == width * height);
        proof {
            lemma_overlay_len(base_frame(rgb@, n as int), masks@, colours@, width as int, height as int, k as int);
        }
        paint(&mut frame, &masks[k], width, height, colours[k]);
        k = k + 1;
    }
    Ok(frame)
}

/// Pixel `(x, y)` lies on the one-pixel border of box `b`.
pub open spec fn on_outline(b: PixelBox, x: int, y: int) -> bool {
    let right = b.left + b.width - 1;
    let bottom = b.top + b.height - 1;
    &&& b.left <= x <= right
    &&& b.top <= y <= bottom
    &&& (x == b.left || x == right || y == b.top || y == bottom)
}

/// `frame`, a row-major `w`-wide buffer, with the border of `b` painted in
/// colour `c`.
pub open spec fn outlined(frame: Seq<u32>, w: int, b: PixelBox, c: (u8, u8, u8)) -> Seq<u32> {
    Seq::new(
        frame.len(),
        |j: int|
            if on_outline(b, j % w, j / w) {
                pack_rgb(c.0, c.1, c.2)
            } else {
                frame[j]
            },
    )
}

/// Paints the one-pixel border of box `b` into a row-major display buffer
/// of the given size; what falls outside the buffer is left out.
pub fn draw_box(frame: &mut Vec<u32>, width: u32, height: u32, b: PixelBox, c: (u8, u8, u8)) -> (r:
    Result<(), MaskError>)
    ensures
        r is Ok <==> old(frame)@.len() == width * height,
        r is Err ==> r == Err::<(), MaskError>(MaskError::ShapeMismatch) && final(frame)@ == old(
            frame,
        )@,
        r is Ok ==> final(frame)@ == outlined(old(frame)@, width as int, b, c),
{
    let n = frame.len();
    assert(width * height <= u64::MAX) by (nonlinear_arith)
        requires
            width <= u32::MAX,
            height <= u32::MAX,
    ;
    if n as u64 != width as u64 * height as u64 {
        return Err(MaskError::ShapeMismatch);
    }
    let colour = pack(c.0, c.1, c.2);
    let left = b.left as u64;
    let top = b.top as u64;
    let right = left + b.width as u64;
    let bottom = top + b.height as u64;
    let mut j: usize = 0;
    while j < n
        invariant
            n == frame@.len(),
            n == old(frame)@.len(),
            n == width * height,
            colour == pack_rgb(c.0, c.1, c.2),
            left == b.left,
            top == b.top,
            right == b.left + b.width,
            bottom == b.top + b.height,
            j <= n,
            forall|t: int|
                0 <= t < j ==> #[trigger] frame@[t] == outlined(old(frame)@, width as int, b, c)[t],
            forall|t: int| j <= t < n ==> #[trigger] frame@[t] == old(frame)@[t],
        decreases n - j,
    {
        assert(width > 0) by (nonlinear_arith)
            requires
                0 <= j < width * height,
        ;
        let x = j as u64 % width as u64;
        let y = j as u64 / width as u64;
        let inside = left <= x && x < right && top <= y && y < bottom;
        let border = x == left || x + 1 == right || y == top || y + 1 == bottom;
        let ghost oj = outlined(old(frame)@, width as int, b, c);
        assert(oj[j as int] == if on_outline(b, x as int, y as int) {
            pack_rgb(c.0, c.1, c.2)
        } else {
            old(frame)@[j as int]
        });
        if inside && border {
            frame.set(j, colour);
        }
        assert(frame@[j as int] == oj[j as int]);
        j = j + 1;
    }
    assert(frame@ =~= outlined(old(frame)@, width as int, b, c));
    Ok(())
}

} // verus!
