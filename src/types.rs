use vstd::prelude::*;

verus! {

/// An image record of an annotation dataset.
pub struct Image {
    pub id: u32,
    pub width: u32,
    pub height: u32,
    pub file_name: String,
}

/// A category record of an annotation dataset.
pub struct Category {
    pub id: u32,
    pub name: String,
    pub supercategory: String,
}

/// Uncompressed run lengths: `size` is `[height, width]`, `counts` alternate
/// background and foreground runs over the pixels in column-major order,
/// starting with a (possibly empty) background run.
pub struct RLE {
    pub size: Vec<u32>,
    pub counts: Vec<u32>,
}

/// Compact run lengths: `size` is `[height, width]`, `counts` packs the runs
/// into characters `'0'..='o'`.
pub struct EncodedRLE {
    pub size: Vec<u32>,
    pub counts: String,
}

/// A pixel grid in column-major order: pixel `(x, y)` is `data[x * height + y]`,
/// and a pixel is foreground when its byte is not zero.
pub struct BinaryMask {
    pub width: u32,
    pub height: u32,
    pub data: Vec<u8>,
}

/// The tight box around the foreground pixels, in pixel units; all zero when
/// there is no foreground pixel.
#[derive(Clone, Copy, Debug, PartialEq, Eq, Structural)]
pub struct PixelBox {
    pub left: u32,
    pub top: u32,
    pub width: u32,
    pub height: u32,
}

/// What can go wrong when a segmentation is read.
#[derive(Clone, Copy, Debug, PartialEq, Eq, Structural)]
pub enum MaskError {
    /// A compact run-length string that does not decode.
    MalformedEncoding,
    /// Sizes that disagree with each other.
    ShapeMismatch,
    /// No polygon where one is needed.
    EmptyInput,
}

impl BinaryMask {
    /// The foreground flags of the pixels, column-major.
    pub open spec fn pixels(&self) -> Seq<bool> {
        self.data@.map_values(|v: u8| v != 0)
    }

    /// The grid holds `width * height` pixels, each 0 or 1.
    pub open spec fn wf(&self) -> bool {
        &&& self.data@.len() == self.width as int * self.height as int
        &&& forall|i: int| 0 <= i < self.data@.len() ==> #[trigger] self.data@[i] <= 1
    }
}

impl RLE {
    /// The number of pixels that `size` declares (zero when it is not a pair).
    pub open spec fn pixel_count(&self) -> int {
        if self.size@.len() == 2 {
            self.size@[0] as int * self.size@[1] as int
        } else {
            0
        }
    }
}

} // verus!
