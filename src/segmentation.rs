use vstd::prelude::*;
use crate::codec::{as_ints, decode, decoded_runs, compact_bytes, decodes, lemma_run_sum_ints};
use crate::raster::{polygons_ok, raster_pixels, PolygonSet};
use crate::rle::{
    count_fg, is_tight_box, lemma_area_counts_pixels, run_pixels, shape_ok,
};
use crate::types::{BinaryMask, EncodedRLE, MaskError, PixelBox, RLE};

verus! {

/// A segmentation in any of its three forms.
pub enum Segmentation {
    Polygon(PolygonSet),
    RLE(RLE),
    EncodedRLE(EncodedRLE),
}

/// The runs of a compact string that decodes.
pub open spec fn compact_runs(e: EncodedRLE) -> Seq<u32> {
    decoded_runs(compact_bytes(e)).unwrap().map_values(|x: int| x as u32)
}

/// The column-major pixels of a segmentation, or `None` when it is invalid.
pub open spec fn seg_pixels(s: Segmentation) -> Option<Seq<bool>> {
    match s {
        Segmentation::Polygon(p) => if polygons_ok(p) {
            Some(raster_pixels(p))
        } else {
            None
        },
        Segmentation::RLE(r) => if shape_ok(r) {
            Some(run_pixels(r.counts@))
        } else {
            None
        },
        Segmentation::EncodedRLE(e) => if decodes(e) {
            Some(run_pixels(compact_runs(e)))
        } else {
            None
        },
    }
}

/// The error that an invalid segmentation gives.
pub open spec fn seg_error(s: Segmentation) -> MaskError {
    match s {
        Segmentation::EncodedRLE(e) => if e.size@.len() == 2 {
            MaskError::MalformedEncoding
        } else {
            MaskError::ShapeMismatch
        },
        _ => MaskError::ShapeMismatch,
    }
}

/// The grid height that a segmentation declares.
pub open spec fn seg_height(s: Segmentation) -> int {
    match s {
        Segmentation::Polygon(p) => p.height as int,
        Segmentation::RLE(r) => r.size@[0] as int,
        Segmentation::EncodedRLE(e) => e.size@[0] as int,
    }
}

/// The grid width that a segmentation declares.
pub open spec fn seg_width(s: Segmentation) -> int {
    match s {
        Segmentation::Polygon(p) => p.width as int,
        Segmentation::RLE(r) => r.size@[1] as int,
        Segmentation::EncodedRLE(e) => e.size@[1] as int,
    }
}

/// A polygon grid small enough to be materialised and run-length encoded.
pub open spec fn seg_fits(s: Segmentation) -> bool {
    s matches Segmentation::Polygon(p) ==> p.width * p.height <= u32::MAX
}

impl BinaryMask {
    /// The number of foreground pixels.
    pub fn area(&self) -> (r: u64)
        ensures
            r == count_fg(self.pixels()),
    {
        let mut acc: u64 = 0;
        let mut i: usize = 0;
        while i < self.data.len()
            invariant
                i <= self.data@.len(),
                acc <= i,
                acc == count_fg(self.pixels().take(i as int)),
            decreases self.data@.len() - i,
        {
            assert(self.pixels().take(i as int + 1).drop_last() =~= self.pixels().take(i as int));
            if self.data[i] != 0 {
                acc = acc + 1;
            }
            i = i + 1;
        }
        assert(self.pixels().take(i as int) =~= self.pixels());
        acc
    }

    /// The tight box of the foreground pixels.
    pub fn bbox(&self) -> (r: PixelBox)
        requires
            self.data@.len() == self.width * self.height,
            self.data@.len() <= u32::MAX,
        ensures
            is_tight_box(self.pixels(), self.height as int, r),
    {
        let rle = RLE::from_mask(self);
        match rle.bbox() {
            Ok(b) => b,
            Err(_) => PixelBox { left: 0, top: 0, width: 0, height: 0 },
        }
    }
}

proof fn lemma_compact_shape(e: EncodedRLE, r: RLE)
    requires
        decodes(e),
        r.size@ == e.size@,
        as_ints(r.counts@) == decoded_runs(compact_bytes(e)).unwrap(),
    ensures
        shape_ok(r),
        r.counts@ == compact_runs(e),
{
    lemma_run_sum_ints(r.counts@);
    assert(r.counts@ =~= compact_runs(e)) by {
        assert forall|k: int| 0 <= k < r.counts@.len() implies r.counts@[k] == compact_runs(e)[k] by {
            assert(as_ints(r.counts@)[k] == r.counts@[k] as int);
        }
    }
}

impl Segmentation {
    /// The pixel grid of the segmentation.
    pub fn to_mask(&self) -> (r: Result<BinaryMask, MaskError>)
        requires
            seg_fits(*self),
        ensures
            r is Ok <==> seg_pixels(*self) is Some,
            r matches Err(e) ==> e == seg_error(*self),
            r matches Ok(m) ==> {
                &&& m.wf()
                &&& m.height == seg_height(*self)
                &&& m.width == seg_width(*self)
                &&& m.pixels() == seg_pixels(*self).unwrap()
            },
    {
        match self {
            Segmentation::Polygon(p) => p.rasterize(),
            Segmentation::RLE(r) => {
                let res = r.to_mask();
                proof {
                    if res is Ok {
                        assert(res.unwrap().pixels() =~= run_pixels(r.counts@));
                    }
                }
                res
            },
            Segmentation::EncodedRLE(e) => {
                let r = decode(e)?;
                proof {
                    lemma_compact_shape(*e, r);
                }
                let res = r.to_mask();
                proof {
                    if res is Ok {
                        assert(res.unwrap().pixels() =~= run_pixels(r.counts@));
                    }
                }
                res
            },
        }
    }

    /// The number of foreground pixels, from the runs where there are runs.
    pub fn area(&self) -> (r: Result<u64, MaskError>)
        requires
            seg_fits(*self),
        ensures
            r is Ok <==> seg_pixels(*self) is Some,
            r matches Err(e) ==> e == seg_error(*self),
            r matches Ok(a) ==> a == count_fg(seg_pixels(*self).unwrap()),
    {
        match self {
            Segmentation::Polygon(p) => {
                let m = p.rasterize()?;
                Ok(m.area())
            },
            Segmentation::RLE(r) => {
                proof {
                    lemma_area_counts_pixels(r.counts@);
                }
                r.area()
            },
            Segmentation::EncodedRLE(e) => {
                let r = decode(e)?;
                proof {
                    lemma_compact_shape(*e, r);
                    lemma_area_counts_pixels(r.counts@);
                }
                r.area()
            },
        }
    }

    /// The tight box of the foreground pixels, from the runs where there are
    /// runs.
    pub fn to_bbox(&self) -> (r: Result<PixelBox, MaskError>)
        requires
            seg_fits(*self),
        ensures
            r is Ok <==> seg_pixels(*self) is Some,
            r matches Err(e) ==> e == seg_error(*self),
            r matches Ok(b) ==> is_tight_box(seg_pixels(*self).unwrap(), seg_height(*self), b),
    {
        match self {
            Segmentation::Polygon(p) => {
                let m = p.rasterize()?;
                Ok(m.bbox())
            },
            Segmentation::RLE(r) => r.bbox(),
            Segmentation::EncodedRLE(e) => {
                let r = decode(e)?;
                proof {
                    lemma_compact_shape(*e, r);
                }
                r.bbox()
            },
        }
    }
}

} // verus!
