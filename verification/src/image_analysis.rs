//! Pixel data of a FITS image and the 8-bit preprocessing steps of the
//! simple star detector.

use vstd::prelude::*;
use crate::accord_imaging::{ImageUtility, interior, px, dilated, shifted};
use crate::flood::{pt, listed, no_repeats, lists_component, visited_at, visit_closed, count_unset, lemma_count_unset_set,
    closed_under_touch, lemma_closed_holds_component, lemma_visited_component};
use crate::grid::{adjacent8, fg, fg_path, connected, lemma_connected_refl, lemma_connected_touch, lemma_connected_trans, lemma_connected_symm};
use crate::grid::{pix, in_grid, raster_before, lemma_pix_bounds, lemma_pix_injective, lemma_pix_div_mod};
use crate::text::decimal_string;
use vstd::string::StringExecFns;

verus! {

/// A single-plane FITS image with 16-bit samples in row-major order.
pub struct FitsImage {
    pub width: usize,
    pub height: usize,
    pub bit_depth: i32,
    pub data: Vec<u16>,
}

/// The 3x3 binomial blur (weights 1-2-1 by 1-2-1, divided by 16, rounded
/// down) at `(x, y)`.
pub open spec fn binomial_blur(img: Seq<u8>, w: int, x: int, y: int) -> int {
    (px(img, w, x - 1, y - 1) + 2 * px(img, w, x, y - 1) + px(img, w, x + 1, y - 1)
        + 2 * px(img, w, x - 1, y) + 4 * px(img, w, x, y) + 2 * px(img, w, x + 1, y)
        + px(img, w, x - 1, y + 1) + 2 * px(img, w, x, y + 1) + px(img, w, x + 1, y + 1)) / 16
}

/// `(x, y)` lies on the outer ring of the grid.
pub open spec fn on_border(w: int, h: int, x: int, y: int) -> bool {
    in_grid(w, h, x, y) && (x == 0 || x == w - 1 || y == 0 || y == h - 1)
}

impl FitsImage {
    /// The samples reduced to 8 bits by keeping their high byte.
    pub fn convert_to_8bit(&self) -> (r: Vec<u8>)
        ensures
            r@.len() == self.data@.len(),
            forall|i: int| 0 <= i < r@.len() ==> r@[i] as int == #[trigger] self.data@[i] as int / 256,
    {
        ImageUtility::convert_16bpp_to_8bpp(self.data.as_slice())
    }

    /// 3x3 binomial blur of the interior pixels; border pixels are copied and
    /// entries past the grid are 0.
    pub fn gaussian_blur_3x3(data: &[u8], width: usize, height: usize) -> (r: Vec<u8>)
        requires
            width >= 1,
            height >= 1,
            width * height <= data@.len(),
        ensures
            r@.len() == data@.len(),
            forall|x: int, y: int| #![trigger r@[pix(width as int, x, y)]]
                in_grid(width as int, height as int, x, y) ==> r@[pix(width as int, x, y)] as int == (if on_border(
                    width as int, height as int, x, y) { data@[pix(width as int, x, y)] as int } else { binomial_blur(data@, width as int, x, y) }),
            forall|i: int| width * height <= i < r@.len() ==> #[trigger] r@[i] == 0,
    {
        let ghost w = width as int;
        let ghost h = height as int;
        let ghost img = data@;
        let n = data.len();
        let mut blurred: Vec<u8> = vec![0u8; n];
        proof {
            assert forall|x1: int, y1: int| #![trigger blurred@[pix(w, x1, y1)]]
                in_grid(w, h, x1, y1) implies blurred@[pix(w, x1, y1)] == 0 by {
                lemma_pix_bounds(w, h, x1, y1);
            }
        }
        let mut y: usize = 1;
        while y < height - 1
            invariant
                w == width, h == height, img == data@, n == img.len(),
                width >= 1, height >= 1, width * height <= n,
                blurred@.len() == n,
                1 <= y <= height,
                height >= 2 ==> y <= height - 1,
                forall|x1: int, y1: int| #![trigger blurred@[pix(w, x1, y1)]]
                    in_grid(w, h, x1, y1) ==> blurred@[pix(w, x1, y1)] as int == (if interior(w, h, x1, y1) && y1 < y { binomial_blur(img, w, x1, y1) } else { 0 }),
                forall|i: int| w * h <= i < n ==> #[trigger] blurred@[i] == 0,
            decreases height - y,
        {
            let mut x: usize = 1;
            while x < width - 1
                invariant
                    w == width, h == height, img == data@, n == img.len(),
                    width >= 1, height >= 3, width * height <= n,
                    blurred@.len() == n,
                    1 <= y < height - 1,
                    1 <= x <= width,
                    width >= 2 ==> x <= width - 1,
                    forall|x1: int, y1: int| #![trigger blurred@[pix(w, x1, y1)]]
                        in_grid(w, h, x1, y1) ==> blurred@[pix(w, x1, y1)] as int == (if interior(w, h, x1, y1) && (y1 < y || (y1 == y && x1 < x)) { binomial_blur(img, w, x1, y1) } else { 0 }),
                    forall|i: int| w * h <= i < n ==> #[trigger] blurred@[i] == 0,
                decreases width - x,
            {
                proof {
                    lemma_pix_bounds(w, h, x as int + 1, y as int + 1);
                    lemma_pix_bounds(w, h, x as int - 1, y as int - 1);
                    lemma_pix_bounds(w, h, x as int, y as int);
                }
                let up = (y - 1) * width;
                let mid = y * width;
                let down = (y + 1) * width;
                proof {
                    assert(up == pix(w, 0, y as int - 1) && down == pix(w, 0, y as int + 1)) by (nonlinear_arith)
                        requires
                            up == (y - 1) * width,
                            down == (y + 1) * width,
                            w == width,
                    ;
                    lemma_pix_bounds(w, h, x as int + 1, y as int - 1);
                    lemma_pix_bounds(w, h, x as int - 1, y as int + 1);
                    lemma_pix_bounds(w, h, x as int + 1, y as int);
                }
                let sum: u32 = data[up + x - 1] as u32 + 2 * data[up + x] as u32 + data[up + x + 1] as u32
                    + 2 * data[mid + x - 1] as u32 + 4 * data[mid + x] as u32 + 2 * data[mid + x + 1] as u32
                    + data[down + x - 1] as u32 + 2 * data[down + x] as u32 + data[down + x + 1] as u32;
                proof {
                    assert(sum as int == 16 * binomial_blur(img, w, x as int, y as int) + sum as int % 16);
                }
                let ghost before = blurred@;
                blurred.set(mid + x, (sum / 16) as u8);
                proof {
                    assert forall|x1: int, y1: int| #![trigger blurred@[pix(w, x1, y1)]]
                        in_grid(w, h, x1, y1) implies blurred@[pix(w, x1, y1)] as int == (if interior(w, h, x1, y1) && (y1 < y || (y1 == y && x1 < x + 1)) { binomial_blur(img, w, x1, y1) } else { 0 }) by {
                        lemma_pix_bounds(w, h, x1, y1);
                        if !(x1 == x && y1 == y) {
                            if pix(w, x1, y1) == pix(w, x as int, y as int) {
                                lemma_pix_injective(w, x1, y1, x as int, y as int);
                            }
                            assert(blurred@[pix(w, x1, y1)] == before[pix(w, x1, y1)]);
                        }
                    }
                }
                x = x + 1;
            }
            y = y + 1;
        }
        let ghost inner = blurred@;
        let mut x: usize = 0;
        while x < width
            invariant
                w == width, h == height, img == data@, n == img.len(),
                width >= 1, height >= 1, width * height <= n,
                blurred@.len() == n,
                x <= width,
                forall|x1: int, y1: int| #![trigger blurred@[pix(w, x1, y1)]]
                    in_grid(w, h, x1, y1) ==> blurred@[pix(w, x1, y1)] == (if (y1 == 0 || y1 == h - 1) && x1 < x { img[pix(w, x1, y1)] } else { inner[pix(w, x1, y1)] }),
                forall|i: int| w * h <= i < n ==> #[trigger] blurred@[i] == inner[i],
            decreases width - x,
        {
            proof {
                lemma_pix_bounds(w, h, x as int, 0);
                lemma_pix_bounds(w, h, x as int, h - 1);
            }
            let ghost before = blurred@;
            blurred.set(x, data[x]);
            let last = (height - 1) * width + x;
            blurred.set(last, data[last]);
            proof {
                assert forall|x1: int, y1: int| #![trigger blurred@[pix(w, x1, y1)]]
                    in_grid(w, h, x1, y1) implies blurred@[pix(w, x1, y1)] == (if (y1 == 0 || y1 == h - 1) && x1 < x + 1 { img[pix(w, x1, y1)] } else { inner[pix(w, x1, y1)] }) by {
                    lemma_pix_bounds(w, h, x1, y1);
                    if pix(w, x1, y1) == pix(w, x as int, 0) {
                        lemma_pix_injective(w, x1, y1, x as int, 0);
                    }
                    if pix(w, x1, y1) == pix(w, x as int, h - 1) {
                        lemma_pix_injective(w, x1, y1, x as int, h - 1);
                    }
                    if !((x1 == x && y1 == 0) || (x1 == x && y1 == h - 1)) {
                        assert(blurred@[pix(w, x1, y1)] == before[pix(w, x1, y1)]);
                    }
                }
            }
            x = x + 1;
        }
        let ghost rows_done = blurred@;
        let mut y: usize = 0;
        while y < height
            invariant
                w == width, h == height, img == data@, n == img.len(),
                width >= 1, height >= 1, width * height <= n,
                blurred@.len() == n,
                y <= height,
                forall|x1: int, y1: int| #![trigger blurred@[pix(w, x1, y1)]]
                    in_grid(w, h, x1, y1) ==> blurred@[pix(w, x1, y1)] == (if (x1 == 0 || x1 == w - 1) && y1 < y { img[pix(w, x1, y1)] } else { rows_done[pix(w, x1, y1)] }),
                forall|i: int| w * h <= i < n ==> #[trigger] blurred@[i] == rows_done[i],
            decreases height - y,
        {
            proof {
                lemma_pix_bounds(w, h, 0, y as int);
                lemma_pix_bounds(w, h, w - 1, y as int);
            }
            let ghost before = blurred@;
            let first = y * width;
            blurred.set(first, data[first]);
            let end = y * width + width - 1;
            blurred.set(end, data[end]);
            proof {
                assert forall|x1: int, y1: int| #![trigger blurred@[pix(w, x1, y1)]]
                    in_grid(w, h, x1, y1) implies blurred@[pix(w, x1, y1)] == (if (x1 == 0 || x1 == w - 1) && y1 < y + 1 { img[pix(w, x1, y1)] } else { rows_done[pix(w, x1, y1)] }) by {
                    lemma_pix_bounds(w, h, x1, y1);
                    if pix(w, x1, y1) == pix(w, 0, y as int) {
                        lemma_pix_injective(w, x1, y1, 0, y as int);
                    }
                    if pix(w, x1, y1) == pix(w, w - 1, y as int) {
                        lemma_pix_injective(w, x1, y1, w - 1, y as int);
                    }
                    if !((x1 == 0 && y1 == y) || (x1 == w - 1 && y1 == y)) {
                        assert(blurred@[pix(w, x1, y1)] == before[pix(w, x1, y1)]);
                    }
                }
            }
            y = y + 1;
        }
        blurred
    }

    /// 3x3 binary dilation of the interior pixels: 255 where the window holds
    /// a non-zero pixel, 0 elsewhere; border pixels and entries past the grid
    /// are 0.
    pub fn binary_dilation_3x3(data: &[u8], width: usize, height: usize) -> (r: Vec<u8>)
        requires
            height >= 1,
            height >= 3 ==> width >= 1,
            width >= 3 && height >= 3 ==> width * height <= data@.len(),
        ensures
            r@.len() == data@.len(),
            forall|x: int, y: int| #![trigger r@[pix(width as int, x, y)]]
                interior(width as int, height as int, x, y) ==> r@[pix(width as int, x, y)] == (if dilated(
                    data@, width as int, height as int, x, y) { 255u8 } else { 0u8 }),
            forall|i: int| 0 <= i < r@.len() && !(exists|x: int, y: int| #[trigger] interior(width as int, height as int, x, y)
                && i == pix(width as int, x, y)) ==> #[trigger] r@[i] == 0,
    {
        let ghost w = width as int;
        let ghost h = height as int;
        let ghost img = data@;
        let n = data.len();
        let mut dilated_img: Vec<u8> = vec![0u8; n];
        let mut y: usize = 1;
        while y < height - 1
            invariant
                w == width, h == height, img == data@, n == img.len(),
                height >= 1,
                height >= 3 ==> width >= 1,
                width >= 3 && height >= 3 ==> width * height <= n,
                dilated_img@.len() == n,
                1 <= y <= height,
                height >= 2 ==> y <= height - 1,
                forall|x1: int, y1: int| #![trigger dilated_img@[pix(w, x1, y1)]]
                    interior(w, h, x1, y1) && y1 < y ==> dilated_img@[pix(w, x1, y1)] == (if dilated(img, w, h, x1, y1) { 255u8 } else { 0u8 }),
                forall|i: int| 0 <= i < n && !(exists|x1: int, y1: int| #[trigger] interior(w, h, x1, y1) && y1 < y && i == pix(w, x1, y1)) ==> #[trigger] dilated_img@[i] == 0,
            decreases height - y,
        {
            let mut x: usize = 1;
            while x < width - 1
                invariant
                    w == width, h == height, img == data@, n == img.len(),
                    width >= 1, height >= 3,
                    width >= 3 ==> width * height <= n,
                    dilated_img@.len() == n,
                    1 <= y < height - 1,
                    1 <= x <= width,
                    width >= 2 ==> x <= width - 1,
                    forall|x1: int, y1: int| #![trigger dilated_img@[pix(w, x1, y1)]]
                        interior(w, h, x1, y1) && (y1 < y || (y1 == y && x1 < x)) ==> dilated_img@[pix(w, x1, y1)] == (if dilated(img, w, h, x1, y1) { 255u8 } else { 0u8 }),
                    forall|i: int| 0 <= i < n && !(exists|x1: int, y1: int| #[trigger] interior(w, h, x1, y1) && (y1 < y || (y1 == y && x1 < x)) && i == pix(w, x1, y1)) ==> #[trigger] dilated_img@[i] == 0,
                decreases width - x,
            {
                proof {
                    lemma_pix_bounds(w, h, x as int, y as int);
                    lemma_pix_bounds(w, h, x as int + 1, y as int + 1);
                    lemma_pix_bounds(w, h, x as int - 1, y as int - 1);
                }
                let has_edge = window_has_nonzero(data, width, height, x, y);
                let ghost before = dilated_img@;
                if has_edge {
                    dilated_img.set(y * width + x, 255);
                }
                proof {
                    let idx = pix(w, x as int, y as int);
                    assert(interior(w, h, x as int, y as int));
                    assert forall|x1: int, y1: int| #![trigger dilated_img@[pix(w, x1, y1)]]
                        interior(w, h, x1, y1) && (y1 < y || (y1 == y && x1 < x + 1)) implies dilated_img@[pix(w, x1, y1)] == (if dilated(img, w, h, x1, y1) { 255u8 } else { 0u8 }) by {
                        lemma_pix_bounds(w, h, x1, y1);
                        if !(x1 == x && y1 == y) {
                            if pix(w, x1, y1) == idx {
                                lemma_pix_injective(w, x1, y1, x as int, y as int);
                            }
                        } else if !has_edge {
                            assert(before[idx] == 0) by {
                                if exists|xa: int, ya: int| #[trigger] interior(w, h, xa, ya) && (ya < y || (ya == y && xa < x)) && idx == pix(w, xa, ya) {
                                    let (xa, ya) = choose|xa: int, ya: int| #[trigger] interior(w, h, xa, ya) && (ya < y || (ya == y && xa < x)) && idx == pix(w, xa, ya);
                                    lemma_pix_injective(w, xa, ya, x as int, y as int);
                                }
                            }
                        }
                    }
                    assert forall|i: int| 0 <= i < n && !(exists|x1: int, y1: int| #[trigger] interior(w, h, x1, y1) && (y1 < y || (y1 == y && x1 < x + 1)) && i == pix(w, x1, y1)) implies #[trigger] dilated_img@[i] == 0 by {
                        assert(i != idx);
                        assert(!(exists|x1: int, y1: int| #[trigger] interior(w, h, x1, y1) && (y1 < y || (y1 == y && x1 < x)) && i == pix(w, x1, y1)));
                    }
                }
                x = x + 1;
            }
            proof {
                assert forall|i: int| 0 <= i < n && !(exists|x1: int, y1: int| #[trigger] interior(w, h, x1, y1) && y1 < y + 1 && i == pix(w, x1, y1)) implies #[trigger] dilated_img@[i] == 0 by {
                    assert(!(exists|x1: int, y1: int| #[trigger] interior(w, h, x1, y1) && (y1 < y || (y1 == y && x1 < x)) && i == pix(w, x1, y1)));
                }
            }
            y = y + 1;
        }
        proof {
            assert forall|i: int| 0 <= i < n && !(exists|x1: int, y1: int| #[trigger] interior(w, h, x1, y1) && i == pix(w, x1, y1)) implies #[trigger] dilated_img@[i] == 0 by {
                assert(!(exists|x1: int, y1: int| #[trigger] interior(w, h, x1, y1) && y1 < y && i == pix(w, x1, y1)));
            }
        }
        dilated_img
    }
}

/// The image turned upside down: row `y` of the grid becomes row `h - 1 - y`;
/// entries past the grid stay where they are.
pub open spec fn flipped_rows(img: Seq<u8>, w: int, h: int) -> Seq<u8> {
    Seq::new(img.len(), |i: int| if 0 <= i < w * h { img[pix(w, i % w, h - 1 - i / w)] } else { img[i] })
}

/// An image that is zero everywhere but at position `k`, which holds `v`.
pub open spec fn single_spot(n: nat, k: int, v: u8) -> Seq<u8> {
    Seq::new(n, |i: int| if i == k { v } else { 0u8 })
}

/// Weight of the 1-2-1 by 1-2-1 kernel at offset `(dx, dy)` from its centre.
pub open spec fn binomial_weight(dx: int, dy: int) -> int {
    if -1 <= dx <= 1 && -1 <= dy <= 1 {
        if dx == 0 && dy == 0 { 4 } else if dx == 0 || dy == 0 { 2 } else { 1 }
    } else {
        0
    }
}

proof fn lemma_flipped_at(img: Seq<u8>, w: int, h: int, x: int, y: int)
    requires
        w > 0,
        w * h <= img.len(),
        in_grid(w, h, x, y),
    ensures
        px(flipped_rows(img, w, h), w, x, h - 1 - y) == px(img, w, x, y),
{
    let i = pix(w, x, h - 1 - y);
    lemma_pix_bounds(w, h, x, h - 1 - y);
    lemma_pix_div_mod(w, h, i);
    lemma_pix_injective(w, i % w, i / w, x, h - 1 - y);
}

proof fn lemma_spot_at(n: nat, w: int, h: int, qx: int, qy: int, v: u8, x: int, y: int)
    requires
        w > 0,
        w * h <= n,
        in_grid(w, h, qx, qy),
        in_grid(w, h, x, y),
    ensures
        px(single_spot(n, pix(w, qx, qy), v), w, x, y) == (if x == qx && y == qy { v as int } else { 0 }),
{
    lemma_pix_bounds(w, h, x, y);
    lemma_pix_bounds(w, h, qx, qy);
    if pix(w, x, y) == pix(w, qx, qy) {
        lemma_pix_injective(w, x, y, qx, qy);
    }
}

/// Turning the image upside down turns the blurred interior upside down:
/// the blur of the flipped image at `(x, h - 1 - y)` is the blur of the image
/// at `(x, y)`, because the kernel is the same above and below its centre.
pub proof fn law_blur_commutes_with_flip(img: Seq<u8>, w: int, h: int, x: int, y: int)
    requires
        w * h <= img.len(),
        interior(w, h, x, y),
    ensures
        binomial_blur(flipped_rows(img, w, h), w, x, h - 1 - y) == binomial_blur(img, w, x, y),
{
    lemma_flipped_at(img, w, h, x - 1, y - 1);
    lemma_flipped_at(img, w, h, x, y - 1);
    lemma_flipped_at(img, w, h, x + 1, y - 1);
    lemma_flipped_at(img, w, h, x - 1, y);
    lemma_flipped_at(img, w, h, x, y);
    lemma_flipped_at(img, w, h, x + 1, y);
    lemma_flipped_at(img, w, h, x - 1, y + 1);
    lemma_flipped_at(img, w, h, x, y + 1);
    lemma_flipped_at(img, w, h, x + 1, y + 1);
}

/// Each of the nine window pixels enters the blur with its binomial weight:
/// on an image that holds `v` at one grid point and zero elsewhere, the blur
/// at an interior `(x, y)` is `v` times the weight at that point's offset,
/// divided by 16 and rounded down.
pub proof fn law_blur_weights(n: nat, w: int, h: int, qx: int, qy: int, v: u8, x: int, y: int)
    requires
        w * h <= n,
        in_grid(w, h, qx, qy),
        interior(w, h, x, y),
    ensures
        binomial_blur(single_spot(n, pix(w, qx, qy), v), w, x, y) == binomial_weight(qx - x, qy - y) * v / 16,
{
    lemma_spot_at(n, w, h, qx, qy, v, x - 1, y - 1);
    lemma_spot_at(n, w, h, qx, qy, v, x, y - 1);
    lemma_spot_at(n, w, h, qx, qy, v, x + 1, y - 1);
    lemma_spot_at(n, w, h, qx, qy, v, x - 1, y);
    lemma_spot_at(n, w, h, qx, qy, v, x, y);
    lemma_spot_at(n, w, h, qx, qy, v, x + 1, y);
    lemma_spot_at(n, w, h, qx, qy, v, x - 1, y + 1);
    lemma_spot_at(n, w, h, qx, qy, v, x, y + 1);
    lemma_spot_at(n, w, h, qx, qy, v, x + 1, y + 1);
    let dx = qx - x;
    let dy = qy - y;
    if binomial_weight(dx, dy) == 4 {
        assert(binomial_weight(dx, dy) * v == 4 * v);
    } else if binomial_weight(dx, dy) == 2 {
        assert(binomial_weight(dx, dy) * v == 2 * v);
    } else if binomial_weight(dx, dy) == 1 {
        assert(binomial_weight(dx, dy) * v == v);
    }
}

/// Whether the 3x3 window around interior pixel `(x, y)` holds a non-zero pixel.
fn window_has_nonzero(data: &[u8], width: usize, height: usize, x: usize, y: usize) -> (r: bool)
    requires
        interior(width as int, height as int, x as int, y as int),
        width * height <= data@.len(),
    ensures
        r == dilated(data@, width as int, height as int, x as int, y as int),
{
    let ghost w = width as int;
    let ghost h = height as int;
    let slen = data.len();
    let mut dy: usize = 0;
    while dy < 3
        invariant
            slen == data@.len(),
            interior(w, h, x as int, y as int),
            w == width, h == height,
            width * height <= data@.len(),
            dy <= 3,
            forall|x2: int, y2: int| #![trigger data@[pix(w, x2, y2)]]
                -1 <= x2 - x <= 1 && -1 <= y2 - y < dy as int - 1 ==> data@[pix(w, x2, y2)] == 0,
        decreases 3 - dy,
    {
        let mut dx: usize = 0;
        while dx < 3
            invariant
                slen == data@.len(),
                interior(w, h, x as int, y as int),
                w == width, h == height,
                width * height <= data@.len(),
                dy < 3, dx <= 3,
                forall|x2: int, y2: int| #![trigger data@[pix(w, x2, y2)]]
                    -1 <= x2 - x <= 1 && (-1 <= y2 - y < dy as int - 1 || (y2 == y + dy - 1 && x2 - x < dx as int - 1)) ==> data@[pix(w, x2, y2)] == 0,
            decreases 3 - dx,
        {
            let nx = x + dx - 1;
            let ny = y + dy - 1;
            proof {
                lemma_pix_bounds(w, h, nx as int, ny as int);
            }
            if data[ny * width + nx] > 0 {
                proof {
                    assert(in_grid(w, h, nx as int, ny as int));
                }
                return true;
            }
            dx = dx + 1;
        }
        dy = dy + 1;
    }
    false
}

/// A signed sample read as unsigned: the value plus 32768, clamped to
/// `0..=65535`; a missing sample reads as 0.
pub open spec fn sample_of_i32(v: Option<i32>) -> int {
    match v {
        Some(x) => if x + 32768 < 0 { 0 } else if x + 32768 > 65535 { 65535 } else { x + 32768 },
        None => 0,
    }
}

/// An unsigned sample capped at 65535; a missing sample reads as 0.
pub open spec fn sample_of_u32(v: Option<u32>) -> int {
    match v {
        Some(x) => if x > 65535 { 65535 } else { x as int },
        None => 0,
    }
}

/// Signed 32-bit samples as 16-bit unsigned ones.
pub fn samples_from_i32(data: &[Option<i32>]) -> (r: Vec<u16>)
    requires
        forall|i: int| 0 <= i < data@.len() ==> (#[trigger] data@[i] matches Some(x) ==> x <= i32::MAX - 32768),
    ensures
        r@.len() == data@.len(),
        forall|i: int| 0 <= i < r@.len() ==> r@[i] as int == sample_of_i32(#[trigger] data@[i]),
{
    let mut r: Vec<u16> = Vec::new();
    let mut i: usize = 0;
    while i < data.len()
        invariant
            i <= data@.len(),
            r@.len() == i,
            forall|j: int| 0 <= j < data@.len() ==> (#[trigger] data@[j] matches Some(x) ==> x <= i32::MAX - 32768),
            forall|j: int| 0 <= j < i ==> r@[j] as int == sample_of_i32(#[trigger] data@[j]),
        decreases data@.len() - i,
    {
        let v = match data[i] {
            Some(x) => {
                let shifted = x + 32768;
                if shifted < 0 {
                    0u16
                } else if shifted > 65535 {
                    65535u16
                } else {
                    shifted as u16
                }
            },
            None => 0u16,
        };
        r.push(v);
        i = i + 1;
    }
    r
}

/// Unsigned 32-bit samples as 16-bit ones.
pub fn samples_from_u32(data: &[Option<u32>]) -> (r: Vec<u16>)
    ensures
        r@.len() == data@.len(),
        forall|i: int| 0 <= i < r@.len() ==> r@[i] as int == sample_of_u32(#[trigger] data@[i]),
{
    let mut r: Vec<u16> = Vec::new();
    let mut i: usize = 0;
    while i < data.len()
        invariant
            i <= data@.len(),
            r@.len() == i,
            forall|j: int| 0 <= j < i ==> r@[j] as int == sample_of_u32(#[trigger] data@[j]),
        decreases data@.len() - i,
    {
        let v = match data[i] {
            Some(x) => if x > 65535 { 65535u16 } else { x as u16 },
            None => 0u16,
        };
        r.push(v);
        i = i + 1;
    }
    r
}

impl FitsImage {
    /// An image from its samples, refused when their number is not
    /// `width * height`.
    pub fn from_samples(width: usize, height: usize, bit_depth: i32, data: Vec<u16>) -> (r: Result<FitsImage, String>)
        ensures
            match r {
                Ok(img) => width * height == data@.len() && img.width == width && img.height == height
                    && img.bit_depth == bit_depth && img.data@ == data@,
                Err(_) => width * height != data@.len(),
            },
    {
        let n = data.len();
        match width.checked_mul(height) {
            Some(expected) => {
                if expected == n {
                    Ok(FitsImage { width, height, bit_depth, data })
                } else {
                    let mut e = String::from_str("Data size mismatch: expected ");
                    let a = decimal_string(expected as u64);
                    e.append(a.as_str());
                    e.append(" pixels, got ");
                    let b = decimal_string(n as u64);
                    e.append(b.as_str());
                    Err(e)
                }
            },
            None => {
                let mut e = String::from_str("Data size mismatch: expected more pixels than fit in memory, got ");
                let b = decimal_string(n as u64);
                e.append(b.as_str());
                Err(e)
            },
        }
    }
}

/// An axis-aligned box: top-left corner, and the distance from the first to
/// the last column (`width`) and row (`height`) it spans.
#[derive(Debug, Clone, Copy)]
pub struct BoundingBox {
    pub x: usize,
    pub y: usize,
    pub width: usize,
    pub height: usize,
}

/// An 8-connected group of non-zero pixels, listed in the order a
/// breadth-first search from its first pixel reached them.
#[derive(Debug, Clone)]
pub struct Blob {
    pub bounds: BoundingBox,
    pub pixels: Vec<(usize, usize)>,
}

/// `b` is the bounding box of `ps`: every pixel lies in it and each side
/// touches a pixel.
pub open spec fn box_of(ps: Seq<(usize, usize)>, b: BoundingBox) -> bool {
    &&& forall|i: int| 0 <= i < ps.len() ==> b.x <= (#[trigger] ps[i]).0 <= b.x + b.width && b.y <= ps[i].1 <= b.y + b.height
    &&& exists|i: int| 0 <= i < ps.len() && (#[trigger] ps[i]).0 == b.x
    &&& exists|i: int| 0 <= i < ps.len() && (#[trigger] ps[i]).0 == b.x + b.width
    &&& exists|i: int| 0 <= i < ps.len() && (#[trigger] ps[i]).1 == b.y
    &&& exists|i: int| 0 <= i < ps.len() && (#[trigger] ps[i]).1 == b.y + b.height
}

/// Invariant of the breadth-first search from `seed`: `reached` (the popped
/// pixels followed by the queue) lists distinct foreground pixels connected to
/// the seed, starting with it; the marks record exactly the pixels marked
/// before plus the reached ones; and every foreground neighbour of a popped
/// pixel is marked.
pub open spec fn search_inv(img: Seq<u8>, w: int, h: int, v0: Seq<bool>, v: Seq<bool>, seed: (usize, usize),
    popped: Seq<(usize, usize)>, reached: Seq<(usize, usize)>) -> bool {
    &&& v.len() == v0.len()
    &&& reached.len() > 0 && reached[0] == seed
    &&& popped.len() <= reached.len()
    &&& popped == reached.subrange(0, popped.len() as int)
    &&& no_repeats(reached)
    &&& forall|i: int| 0 <= i < reached.len() ==> connected(img, w, h, true, pt(seed), #[trigger] pt(reached[i]))
    &&& forall|p: (int, int)| in_grid(w, h, p.0, p.1) ==> (#[trigger] visited_at(v, w, p) == (visited_at(v0, w, p) || listed(reached, p)))
    &&& forall|i: int| w * h <= i < v.len() ==> #[trigger] v[i] == v0[i]
    &&& forall|i: int, q: (int, int)| #![trigger popped[i], fg(img, w, h, q)]
        0 <= i < popped.len() && fg(img, w, h, q) && adjacent8(popped[i].0 as int, popped[i].1 as int, q.0, q.1) ==> visited_at(v, w, q)
}

/// A pixel connected to another lies in the grid.
proof fn lemma_connected_in_grid(img: Seq<u8>, w: int, h: int, a: (int, int), b: (int, int))
    requires
        connected(img, w, h, true, a, b),
    ensures
        fg(img, w, h, b),
        fg(img, w, h, a),
{
    let path = choose|path: Seq<(int, int)>| #[trigger] fg_path(img, w, h, true, path) && path[0] == a && path.last() == b;
    assert(fg(img, w, h, path[path.len() - 1]));
    assert(fg(img, w, h, path[0]));
}

/// Adding a pixel to a listing stretches its bounding box over it.
proof fn lemma_box_extend(ps: Seq<(usize, usize)>, c: (usize, usize), ox0: usize, oy0: usize, ox1: usize, oy1: usize,
    nx0: usize, ny0: usize, nx1: usize, ny1: usize)
    requires
        ps.len() == 0 ==> ox0 == c.0 && ox1 == c.0 && oy0 == c.1 && oy1 == c.1,
        ps.len() > 0 ==> ox0 <= ox1 && oy0 <= oy1
            && box_of(ps, BoundingBox { x: ox0, y: oy0, width: (ox1 - ox0) as usize, height: (oy1 - oy0) as usize }),
        nx0 == (if c.0 < ox0 { c.0 } else { ox0 }),
        nx1 == (if c.0 > ox1 { c.0 } else { ox1 }),
        ny0 == (if c.1 < oy0 { c.1 } else { oy0 }),
        ny1 == (if c.1 > oy1 { c.1 } else { oy1 }),
    ensures
        box_of(ps.push(c), BoundingBox { x: nx0, y: ny0, width: (nx1 - nx0) as usize, height: (ny1 - ny0) as usize }),
{
    let q = ps.push(c);
    let k = ps.len() as int;
    assert(q[k] == c);
    assert forall|i: int| 0 <= i < q.len() implies nx0 <= (#[trigger] q[i]).0 <= nx1 && ny0 <= q[i].1 <= ny1 by {
        if i < k {
            assert(q[i] == ps[i]);
        }
    }
    if ps.len() > 0 {
        let b = BoundingBox { x: ox0, y: oy0, width: (ox1 - ox0) as usize, height: (oy1 - oy0) as usize };
        let i0 = choose|i: int| 0 <= i < ps.len() && (#[trigger] ps[i]).0 == b.x;
        let i1 = choose|i: int| 0 <= i < ps.len() && (#[trigger] ps[i]).0 == b.x + b.width;
        let i2 = choose|i: int| 0 <= i < ps.len() && (#[trigger] ps[i]).1 == b.y;
        let i3 = choose|i: int| 0 <= i < ps.len() && (#[trigger] ps[i]).1 == b.y + b.height;
        assert(q[i0] == ps[i0] && q[i1] == ps[i1] && q[i2] == ps[i2] && q[i3] == ps[i3]);
    }
}

/// Pixels `p` and `q` touch, sides or corners.
pub open spec fn touch8(p: (usize, usize), q: (usize, usize)) -> bool {
    adjacent8(p.0 as int, p.1 as int, q.0 as int, q.1 as int)
}

/// Where pixel `q` lies in the 3x3 window around pixel `p`, counted row by
/// row from 0 at the top left.
pub open spec fn window_place(p: (usize, usize), q: (usize, usize)) -> int {
    (q.1 as int - p.1 as int + 1) * 3 + (q.0 as int - p.0 as int + 1)
}

/// Position `j` of `ps`, before position `i`, holds the first pixel that
/// touches `ps[i]`.
pub open spec fn first_touch(ps: Seq<(usize, usize)>, i: int, j: int) -> bool {
    &&& 0 <= j < i
    &&& touch8(ps[j], ps[i])
    &&& forall|k: int| 0 <= k < j ==> !touch8(#[trigger] ps[k], ps[i])
}

/// Some position before `i` holds a pixel that touches `ps[i]`.
pub open spec fn touched_before(ps: Seq<(usize, usize)>, i: int) -> bool {
    exists|j: int| #[trigger] first_touch(ps, i, j)
}

/// `ps` is in breadth-first order from its first pixel, each pixel's
/// neighbours taken row by row: every later pixel touches an earlier one, and
/// pixels come in order of the first pixel they touch, then of their place in
/// that pixel's 3x3 window.
pub open spec fn breadth_first(ps: Seq<(usize, usize)>) -> bool {
    &&& forall|i: int| 1 <= i < ps.len() ==> #[trigger] touched_before(ps, i)
    &&& forall|i: int, k: int, a: int, b: int|
        1 <= i < k < ps.len() && #[trigger] first_touch(ps, i, a) && #[trigger] first_touch(ps, k, b)
        ==> a < b || (a == b && window_place(ps[a], ps[i]) < window_place(ps[b], ps[k]))
}

/// Every pixel of `ps` after the first was reached from a position before
/// `t`, or from position `t` at a window place before `place`.
spec fn reached_before(ps: Seq<(usize, usize)>, t: int, place: int) -> bool {
    forall|i: int, a: int| 1 <= i < ps.len() && #[trigger] first_touch(ps, i, a)
        ==> a < t || (a == t && window_place(ps[a], ps[i]) < place)
}

/// Appending a pixel reached from position `t` at window place `place`, which
/// no earlier position touches, keeps the breadth-first order.
proof fn lemma_order_push(img: Seq<u8>, w: int, h: int, v0: Seq<bool>, vb: Seq<bool>, seed: (usize, usize),
    popped: Seq<(usize, usize)>, qb: Seq<(usize, usize)>, n: (usize, usize), place: int)
    requires
        search_inv(img, w, h, v0, vb, seed, popped.drop_last(), popped + qb),
        popped.len() > 0,
        breadth_first(popped + qb),
        reached_before(popped + qb, popped.len() - 1, place),
        in_grid(w, h, n.0 as int, n.1 as int),
        img[pix(w, n.0 as int, n.1 as int)] > 0,
        !vb[pix(w, n.0 as int, n.1 as int)],
        touch8(popped.last(), n),
        window_place(popped.last(), n) == place,
    ensures
        breadth_first((popped + qb).push(n)),
        reached_before((popped + qb).push(n), popped.len() - 1, place + 1),
{
    let r = popped + qb;
    let r2 = r.push(n);
    let t = popped.len() - 1;
    let pd = popped.drop_last();
    let m = r.len() as int;
    assert(r[t] == popped.last());
    assert(fg(img, w, h, pt(n)));
    assert forall|j: int| 0 <= j < t implies !touch8(#[trigger] r2[j], n) by {
        assert(r2[j] == r[j]);
        assert(pd[j] == r[j]);
        if touch8(r[j], n) {
            assert(visited_at(vb, w, pt(n)));
        }
    }
    assert forall|i: int, a: int| 0 <= i < m implies #[trigger] first_touch(r2, i, a) == first_touch(r, i, a) by {
        assert(r2[i] == r[i]);
        if 0 <= a < i {
            assert(r2[a] == r[a]);
            if first_touch(r, i, a) {
                assert forall|k: int| 0 <= k < a implies !touch8(#[trigger] r2[k], r2[i]) by {
                    assert(r2[k] == r[k]);
                    assert(!touch8(r[k], r[i]));
                }
            }
            if first_touch(r2, i, a) {
                assert forall|k: int| 0 <= k < a implies !touch8(#[trigger] r[k], r[i]) by {
                    assert(r2[k] == r[k]);
                    assert(!touch8(r2[k], r2[i]));
                }
            }
        }
    }
    assert(first_touch(r2, m, t)) by {
        assert(r2[m] == n);
        assert(r2[t] == r[t]);
    }
    assert forall|a: int| #[trigger] first_touch(r2, m, a) implies a == t by {
        if a > t {
            assert(touch8(r2[t], r2[m]));
        }
    }
    assert forall|i: int| 1 <= i < r2.len() implies #[trigger] touched_before(r2, i) by {
        if i < m {
            assert(touched_before(r, i));
            let j = choose|j: int| #[trigger] first_touch(r, i, j);
            assert(first_touch(r2, i, j));
        } else {
            assert(first_touch(r2, m, t));
        }
    }
    assert forall|i: int, k: int, a: int, b: int|
        1 <= i < k < r2.len() && #[trigger] first_touch(r2, i, a) && #[trigger] first_touch(r2, k, b)
        implies a < b || (a == b && window_place(r2[a], r2[i]) < window_place(r2[b], r2[k])) by {
        assert(first_touch(r, i, a));
        assert(r2[i] == r[i] && r2[a] == r[a]);
        if k < m {
            assert(first_touch(r, k, b));
            assert(r2[k] == r[k] && r2[b] == r[b]);
        } else {
            assert(b == t);
            assert(r2[b] == r[t] && r2[k] == n);
        }
    }
    assert forall|i: int, a: int| 1 <= i < r2.len() && #[trigger] first_touch(r2, i, a)
        implies a < t || (a == t && window_place(r2[a], r2[i]) < place + 1) by {
        if i < m {
            assert(first_touch(r, i, a));
            assert(r2[i] == r[i] && r2[a] == r[a]);
        } else {
            assert(a == t);
            assert(r2[a] == r[t] && r2[i] == n);
        }
    }
}

/// Marking and queueing an unmarked foreground neighbour of a reached pixel
/// keeps the search invariant.
proof fn lemma_search_push(img: Seq<u8>, w: int, h: int, v0: Seq<bool>, vb: Seq<bool>, v: Seq<bool>, seed: (usize, usize),
    popped: Seq<(usize, usize)>, qb: Seq<(usize, usize)>, q: Seq<(usize, usize)>, c: (usize, usize), n: (usize, usize))
    requires
        search_inv(img, w, h, v0, vb, seed, popped.drop_last(), popped + qb),
        w * h <= v0.len(),
        popped.len() > 0,
        popped.last() == c,
        in_grid(w, h, n.0 as int, n.1 as int),
        img[pix(w, n.0 as int, n.1 as int)] > 0,
        !vb[pix(w, n.0 as int, n.1 as int)],
        adjacent8(c.0 as int, c.1 as int, n.0 as int, n.1 as int),
        v == vb.update(pix(w, n.0 as int, n.1 as int), true),
        q == qb.push(n),
    ensures
        search_inv(img, w, h, v0, v, seed, popped.drop_last(), popped + q),
{
    let r0 = popped + qb;
    let r = popped + q;
    let pd = popped.drop_last();
    let ni = pix(w, n.0 as int, n.1 as int);
    lemma_pix_bounds(w, h, n.0 as int, n.1 as int);
    assert(r =~= r0.push(n));
    assert(r0[popped.len() - 1] == c);
    assert(connected(img, w, h, true, pt(seed), pt(r0[popped.len() - 1])));
    assert(fg(img, w, h, pt(c))) by {
        lemma_connected_in_grid(img, w, h, pt(seed), pt(c));
    }
    assert(connected(img, w, h, true, pt(seed), pt(n))) by {
        lemma_connected_touch(img, w, h, true, pt(c), pt(n));
        lemma_connected_trans(img, w, h, true, pt(seed), pt(c), pt(n));
    }
    assert(!listed(r0, pt(n))) by {
        if listed(r0, pt(n)) {
            let j = choose|j: int| 0 <= j < r0.len() && #[trigger] pt(r0[j]) == pt(n);
            assert(visited_at(vb, w, pt(r0[j])));
        }
    }
    assert(no_repeats(r)) by {
        assert forall|i: int, j: int| 0 <= i < j < r.len() implies #[trigger] r[i] != #[trigger] r[j] by {
            if j == r.len() - 1 {
                if r[i] == r[j] {
                    assert(pt(r0[i]) == pt(n));
                }
            } else {
                assert(r[i] == r0[i] && r[j] == r0[j]);
            }
        }
    }
    assert forall|p: (int, int)| in_grid(w, h, p.0, p.1) implies (#[trigger] visited_at(v, w, p) == (visited_at(v0, w, p) || listed(r, p))) by {
        lemma_pix_bounds(w, h, p.0, p.1);
        if pix(w, p.0, p.1) == ni {
            lemma_pix_injective(w, p.0, p.1, n.0 as int, n.1 as int);
            assert(pt(r[r.len() - 1]) == p);
        } else {
            assert(visited_at(v, w, p) == visited_at(vb, w, p));
            if listed(r, p) {
                let j = choose|j: int| 0 <= j < r.len() && #[trigger] pt(r[j]) == p;
                if j == r.len() - 1 {
                    assert(p == pt(n));
                } else {
                    assert(pt(r0[j]) == p);
                }
            }
            if listed(r0, p) {
                let j = choose|j: int| 0 <= j < r0.len() && #[trigger] pt(r0[j]) == p;
                assert(pt(r[j]) == p);
            }
        }
    }
    assert forall|i: int, qq: (int, int)| #![trigger pd[i], fg(img, w, h, qq)]
        0 <= i < pd.len() && fg(img, w, h, qq) && adjacent8(pd[i].0 as int, pd[i].1 as int, qq.0, qq.1) implies visited_at(v, w, qq) by {
        assert(visited_at(vb, w, qq));
        lemma_pix_bounds(w, h, qq.0, qq.1);
    }
    assert(pd == r.subrange(0, pd.len() as int));
    assert forall|i: int| 0 <= i < r.len() implies connected(img, w, h, true, pt(seed), #[trigger] pt(r[i])) by {
        if i < r0.len() {
            assert(r[i] == r0[i]);
        }
    }
}

/// Once every foreground neighbour of the last popped pixel is marked, the
/// search invariant covers it too.
proof fn lemma_search_pop_done(img: Seq<u8>, w: int, h: int, v0: Seq<bool>, v: Seq<bool>, seed: (usize, usize),
    popped: Seq<(usize, usize)>, q: Seq<(usize, usize)>)
    requires
        search_inv(img, w, h, v0, v, seed, popped.drop_last(), popped + q),
        popped.len() > 0,
        forall|qq: (int, int)| fg(img, w, h, qq) && adjacent8(popped.last().0 as int, popped.last().1 as int, qq.0, qq.1)
            ==> #[trigger] visited_at(v, w, qq),
    ensures
        search_inv(img, w, h, v0, v, seed, popped, popped + q),
{
    let r = popped + q;
    assert(popped =~= r.subrange(0, popped.len() as int));
    assert forall|i: int, qq: (int, int)| #![trigger popped[i], fg(img, w, h, qq)]
        0 <= i < popped.len() && fg(img, w, h, qq) && adjacent8(popped[i].0 as int, popped[i].1 as int, qq.0, qq.1) implies visited_at(v, w, qq) by {
        if i < popped.len() - 1 {
            assert(popped.drop_last()[i] == popped[i]);
        }
    }
}

/// When the queue is empty the popped pixels are the seed's whole group, and
/// the marks are the earlier ones plus that group.
proof fn lemma_search_complete(img: Seq<u8>, w: int, h: int, v0: Seq<bool>, v: Seq<bool>, seed: (usize, usize),
    ps: Seq<(usize, usize)>)
    requires
        search_inv(img, w, h, v0, v, seed, ps, ps + Seq::<(usize, usize)>::empty()),
        visit_closed(img, w, h, v0),
        !visited_at(v0, w, pt(seed)),
        in_grid(w, h, seed.0 as int, seed.1 as int),
    ensures
        lists_component(img, w, h, ps),
        ps[0] == seed,
        forall|p: (int, int)| in_grid(w, h, p.0, p.1) ==> #[trigger] visited_at(v, w, p)
            == (visited_at(v0, w, p) || connected(img, w, h, true, pt(seed), p)),
{
    assert(ps + Seq::<(usize, usize)>::empty() =~= ps);
    let s = |p: (int, int)| listed(ps, p);
    assert(closed_under_touch(img, w, h, s)) by {
        assert forall|p: (int, int), q: (int, int)| #![trigger s(p), s(q)]
            s(p) && fg(img, w, h, q) && adjacent8(p.0, p.1, q.0, q.1) implies s(q) by {
            let i = choose|i: int| 0 <= i < ps.len() && #[trigger] pt(ps[i]) == p;
            assert(ps[i].0 as int == p.0 && ps[i].1 as int == p.1);
            assert(visited_at(v, w, q));
            if !listed(ps, q) {
                // q was marked before the search began, so p and then the seed were too
                assert(visited_at(v0, w, q));
                lemma_connected_in_grid(img, w, h, pt(seed), p);
                lemma_connected_touch(img, w, h, true, q, p);
                assert(connected(img, w, h, true, pt(seed), pt(ps[i])));
                lemma_connected_symm(img, w, h, true, pt(seed), p);
                lemma_connected_trans(img, w, h, true, q, p, pt(seed));
                lemma_visited_component(img, w, h, v0, q, pt(seed));
            }
        }
    }
    assert forall|q: (int, int)| #[trigger] connected(img, w, h, true, pt(ps[0]), q) implies listed(ps, q) by {
        assert(s(pt(ps[0]))) by {
            assert(pt(ps[0]) == pt(ps[0]));
        }
        lemma_closed_holds_component(img, w, h, s, pt(ps[0]), q);
    }
    assert forall|p: (int, int)| in_grid(w, h, p.0, p.1) implies #[trigger] visited_at(v, w, p)
        == (visited_at(v0, w, p) || connected(img, w, h, true, pt(seed), p)) by {
        if listed(ps, p) {
            let i = choose|i: int| 0 <= i < ps.len() && #[trigger] pt(ps[i]) == p;
            assert(connected(img, w, h, true, pt(seed), pt(ps[i])));
        }
        if connected(img, w, h, true, pt(seed), p) {
            assert(connected(img, w, h, true, pt(ps[0]), p));
        }
    }
}

/// Breadth-first search from an unvisited foreground seed: returns the
/// seed's 8-connected group with its bounding box and marks its pixels.
fn flood_from(image: &[u8], width: usize, height: usize, visited: &mut Vec<bool>, sx: usize, sy: usize) -> (r: Blob)
    requires
        width * height <= image@.len(),
        old(visited)@.len() == image@.len(),
        sx < width,
        sy < height,
        image@[pix(width as int, sx as int, sy as int)] > 0,
        !visited_at(old(visited)@, width as int, (sx as int, sy as int)),
        visit_closed(image@, width as int, height as int, old(visited)@),
    ensures
        final(visited)@.len() == old(visited)@.len(),
        lists_component(image@, width as int, height as int, r.pixels@),
        r.pixels@[0] == (sx, sy),
        breadth_first(r.pixels@),
        box_of(r.pixels@, r.bounds),
        forall|p: (int, int)| in_grid(width as int, height as int, p.0, p.1) ==> #[trigger] visited_at(final(visited)@, width as int, p)
            == (visited_at(old(visited)@, width as int, p) || connected(image@, width as int, height as int, true, (sx as int, sy as int), p)),
        forall|i: int| width * height <= i < old(visited)@.len() ==> #[trigger] final(visited)@[i] == old(visited)@[i],
{
    let ghost w = width as int;
    let ghost h = height as int;
    let ghost img = image@;
    let ghost v0 = visited@;
    let ghost seed = (sx, sy);
    let slen = image.len();
    let mut queue: std::collections::VecDeque<(usize, usize)> = std::collections::VecDeque::new();
    let mut pixels: Vec<(usize, usize)> = Vec::new();
    queue.push_back((sx, sy));
    proof {
        lemma_pix_bounds(w, h, sx as int, sy as int);
    }
    visited.set(sy * width + sx, true);
    let mut min_x = sx;
    let mut max_x = sx;
    let mut min_y = sy;
    let mut max_y = sy;
    proof {
        lemma_connected_refl(img, w, h, true, pt(seed));
        assert(pixels@ + queue@ =~= seq![seed]);
        assert forall|p: (int, int)| in_grid(w, h, p.0, p.1) implies #[trigger] visited_at(visited@, w, p) == (visited_at(v0, w, p) || listed(pixels@ + queue@, p)) by {
            lemma_pix_bounds(w, h, p.0, p.1);
            if pix(w, p.0, p.1) == pix(w, sx as int, sy as int) {
                lemma_pix_injective(w, p.0, p.1, sx as int, sy as int);
            }
            if listed(pixels@ + queue@, p) {
                assert(pt((pixels@ + queue@)[0]) == p);
            }
            if p == pt(seed) {
                assert(pt((pixels@ + queue@)[0]) == p);
            }
        }
        assert(pixels@ =~= (pixels@ + queue@).subrange(0, 0));
        assert forall|i: int| 0 <= i < (pixels@ + queue@).len() implies connected(img, w, h, true, pt(seed), #[trigger] pt((pixels@ + queue@)[i])) by {
            assert((pixels@ + queue@)[i] == seed);
        }
        assert forall|i: int| w * h <= i < visited@.len() implies #[trigger] visited@[i] == v0[i] by {}
        assert(search_inv(img, w, h, v0, visited@, seed, pixels@, pixels@ + queue@));
    }
    loop
        invariant
            w == width, h == height, img == image@,
            width * height <= image@.len(),
            slen == image@.len(),
            v0.len() == slen,
            sx < width, sy < height,
            seed == (sx, sy),
            !visited_at(v0, w, pt(seed)),
            visit_closed(img, w, h, v0),
            search_inv(img, w, h, v0, visited@, seed, pixels@, pixels@ + queue@),
            breadth_first(pixels@ + queue@),
            reached_before(pixels@ + queue@, pixels@.len() as int, 0),
            pixels@.len() == 0 ==> min_x == sx && max_x == sx && min_y == sy && max_y == sy,
            pixels@.len() > 0 ==> box_of(pixels@, BoundingBox { x: min_x, y: min_y, width: (max_x - min_x) as usize, height: (max_y - min_y) as usize }),
            min_x <= max_x < width,
            min_y <= max_y < height,
        ensures
            queue@.len() == 0,
            search_inv(img, w, h, v0, visited@, seed, pixels@, pixels@ + queue@),
            breadth_first(pixels@ + queue@),
            pixels@.len() > 0,
            box_of(pixels@, BoundingBox { x: min_x, y: min_y, width: (max_x - min_x) as usize, height: (max_y - min_y) as usize }),
        decreases 2 * count_unset(visited@) + queue@.len(),
    {
        let ghost reached = pixels@ + queue@;
        let ghost unset_before = count_unset(visited@);
        let ghost qlen_before = queue@.len();
        match queue.pop_front() {
            None => {
                proof {
                    assert(pixels@ + queue@ =~= reached);
                }
                break;
            },
            Some((cx, cy)) => {
                let ghost c = (cx, cy);
                proof {
                    assert(reached[pixels@.len() as int] == c);
                    assert(pixels@.push(c) + queue@ =~= reached);
                }
                let ghost p_old = pixels@;
                let ghost (ox0, oy0, ox1, oy1) = (min_x, min_y, max_x, max_y);
                proof {
                    assert(pt(reached[pixels@.len() as int]) == pt(c));
                    assert(in_grid(w, h, cx as int, cy as int)) by {
                        assert(connected(img, w, h, true, pt(seed), pt(reached[pixels@.len() as int])));
                        lemma_connected_in_grid(img, w, h, pt(seed), pt(c));
                    }
                }
                pixels.push((cx, cy));
                min_x = if cx < min_x { cx } else { min_x };
                max_x = if cx > max_x { cx } else { max_x };
                min_y = if cy < min_y { cy } else { min_y };
                max_y = if cy > max_y { cy } else { max_y };
                proof {
                    if p_old.len() == 0 {
                        assert(c == seed);
                    }
                    lemma_box_extend(p_old, c, ox0, oy0, ox1, oy1, min_x, min_y, max_x, max_y);
                    assert(pixels@.drop_last() =~= p_old);
                    assert(pixels@ + queue@ =~= reached);
                }
                let mut dy: usize = 0;
                while dy < 3
                    invariant
                        w == width, h == height, img == image@,
                        width * height <= image@.len(),
                        slen == image@.len(),
                        v0.len() == slen,
                        seed == (sx, sy),
                        !visited_at(v0, w, pt(seed)),
                        visit_closed(img, w, h, v0),
                        cx < width, cy < height,
                        pixels@.len() > 0,
                        pixels@.last() == c, c == (cx, cy),
                        dy <= 3,
                        search_inv(img, w, h, v0, visited@, seed, pixels@.drop_last(), pixels@ + queue@),
                        breadth_first(pixels@ + queue@),
                        reached_before(pixels@ + queue@, pixels@.len() - 1, dy * 3),
                        count_unset(visited@) * 2 + queue@.len() <= unset_before * 2 + qlen_before - 1,
                        forall|q: (int, int)| fg(img, w, h, q) && adjacent8(cx as int, cy as int, q.0, q.1) && q.1 < cy + dy - 1
                            ==> #[trigger] visited_at(visited@, w, q),
                    decreases 3 - dy,
                {
                    let mut dx: usize = 0;
                    while dx < 3
                        invariant
                            w == width, h == height, img == image@,
                            width * height <= image@.len(),
                            slen == image@.len(),
                            v0.len() == slen,
                            seed == (sx, sy),
                            !visited_at(v0, w, pt(seed)),
                            visit_closed(img, w, h, v0),
                            cx < width, cy < height,
                            pixels@.len() > 0,
                            pixels@.last() == c, c == (cx, cy),
                            dy < 3, dx <= 3,
                            search_inv(img, w, h, v0, visited@, seed, pixels@.drop_last(), pixels@ + queue@),
                            breadth_first(pixels@ + queue@),
                            reached_before(pixels@ + queue@, pixels@.len() - 1, dy * 3 + dx),
                            count_unset(visited@) * 2 + queue@.len() <= unset_before * 2 + qlen_before - 1,
                            forall|q: (int, int)| fg(img, w, h, q) && adjacent8(cx as int, cy as int, q.0, q.1)
                                && (q.1 < cy + dy - 1 || (q.1 == cy + dy - 1 && q.0 < cx + dx - 1))
                                ==> #[trigger] visited_at(visited@, w, q),
                        decreases 3 - dx,
                    {
                        let ghost vprev = visited@;
                        if !(dx == 1 && dy == 1) {
                            match (shifted(cx, dx, width), shifted(cy, dy, height)) {
                                (Some(nx), Some(ny)) => {
                                    proof {
                                        lemma_pix_bounds(w, h, nx as int, ny as int);
                                    }
                                    let nidx = ny * width + nx;
                                    if image[nidx] > 0 && !visited[nidx] {
                                        let ghost vb = visited@;
                                        let ghost qb = queue@;
                                        visited.set(nidx, true);
                                        queue.push_back((nx, ny));
                                        proof {
                                            lemma_count_unset_set(vb, nidx as int);
                                            lemma_order_push(img, w, h, v0, vb, seed, pixels@, qb, (nx, ny), dy * 3 + dx);
                                            assert(pixels@ + queue@ =~= (pixels@ + qb).push((nx, ny)));
                                            lemma_search_push(img, w, h, v0, vb, visited@, seed, pixels@, qb, queue@, c, (nx, ny));
                                        }
                                    }
                                },
                                _ => {},
                            }
                        }
                        proof {
                            assert forall|i: int| 0 <= i < vprev.len() && vprev[i] implies #[trigger] visited@[i] by {}
                            assert forall|q: (int, int)| fg(img, w, h, q) && adjacent8(cx as int, cy as int, q.0, q.1)
                                && (q.1 < cy + dy - 1 || (q.1 == cy + dy - 1 && q.0 < cx + dx))
                                implies #[trigger] visited_at(visited@, w, q) by {
                                lemma_pix_bounds(w, h, q.0, q.1);
                                if q.1 < cy + dy - 1 || (q.1 == cy + dy - 1 && q.0 < cx + dx - 1) {
                                    assert(visited_at(vprev, w, q));
                                } else {
                                    assert(q.0 == cx + dx - 1 && q.1 == cy + dy - 1);
                                }
                            }
                        }
                        dx = dx + 1;
                    }
                    dy = dy + 1;
                }
                proof {
                    lemma_search_pop_done(img, w, h, v0, visited@, seed, pixels@, queue@);
                }
            },
        }
    }
    proof {
        lemma_search_complete(img, w, h, v0, visited@, seed, pixels@);
        assert(pixels@ + queue@ =~= pixels@);
    }
    Blob {
        bounds: BoundingBox { x: min_x, y: min_y, width: max_x - min_x, height: max_y - min_y },
        pixels,
    }
}

/// No pixel of `s`'s group comes before `s` in row-major order.
pub open spec fn first_of_group(img: Seq<u8>, w: int, h: int, s: (int, int)) -> bool {
    forall|q: (int, int)| #[trigger] connected(img, w, h, true, s, q) ==> !raster_before(q.0, q.1, s.0, s.1)
}

/// The first pixel of blob `b`.
pub open spec fn seed_of(b: Blob) -> (int, int) {
    pt(b.pixels@[0])
}

/// `blobs` are the 8-connected groups of non-zero pixels whose first pixel
/// comes before `(cx, cy)`, in row-major order of their first pixels, each
/// with its bounding box.
pub open spec fn groups_before(img: Seq<u8>, w: int, h: int, blobs: Seq<Blob>, cx: int, cy: int) -> bool {
    &&& forall|k: int| 0 <= k < blobs.len() ==> lists_component(img, w, h, (#[trigger] blobs[k]).pixels@)
        && breadth_first(blobs[k].pixels@)
        && box_of(blobs[k].pixels@, blobs[k].bounds)
        && first_of_group(img, w, h, seed_of(blobs[k]))
        && raster_before(seed_of(blobs[k]).0, seed_of(blobs[k]).1, cx, cy)
    &&& forall|k: int, l: int| 0 <= k < l < blobs.len() ==> raster_before(seed_of(#[trigger] blobs[k]).0, seed_of(blobs[k]).1,
        seed_of(#[trigger] blobs[l]).0, seed_of(blobs[l]).1)
}

/// Marking a whole group keeps the marks closed.
proof fn lemma_visit_closed_union(img: Seq<u8>, w: int, h: int, v0: Seq<bool>, v: Seq<bool>, c: (int, int))
    requires
        visit_closed(img, w, h, v0),
        fg(img, w, h, c),
        forall|p: (int, int)| in_grid(w, h, p.0, p.1) ==> #[trigger] visited_at(v, w, p)
            == (visited_at(v0, w, p) || connected(img, w, h, true, c, p)),
    ensures
        visit_closed(img, w, h, v),
{
    assert forall|p: (int, int)| in_grid(w, h, p.0, p.1) && #[trigger] visited_at(v, w, p) implies fg(img, w, h, p) by {
        if !visited_at(v0, w, p) {
            lemma_connected_in_grid(img, w, h, c, p);
        }
    }
    let s = |p: (int, int)| in_grid(w, h, p.0, p.1) && visited_at(v, w, p);
    let s0 = |p: (int, int)| in_grid(w, h, p.0, p.1) && visited_at(v0, w, p);
    assert forall|p: (int, int), q: (int, int)| #![trigger s(p), s(q)]
        s(p) && fg(img, w, h, q) && adjacent8(p.0, p.1, q.0, q.1) implies s(q) by {
        if visited_at(v0, w, p) {
            assert(s0(p));
            assert(s0(p) && fg(img, w, h, q) && adjacent8(p.0, p.1, q.0, q.1) ==> s0(q));
        } else {
            assert(connected(img, w, h, true, c, p));
            lemma_connected_in_grid(img, w, h, c, p);
            lemma_connected_touch(img, w, h, true, p, q);
            lemma_connected_trans(img, w, h, true, c, p, q);
        }
    }
}

/// Handles the scan position `(x, y)`: starts a new blob there when it is an
/// unmarked foreground pixel.
fn scan_pixel(image: &[u8], width: usize, height: usize, visited: &mut Vec<bool>, blobs: &mut Vec<Blob>, x: usize, y: usize)
    requires
        width * height <= image@.len(),
        old(visited)@.len() == image@.len(),
        x < width,
        y < height,
        visit_closed(image@, width as int, height as int, old(visited)@),
        forall|p: (int, int)| in_grid(width as int, height as int, p.0, p.1) ==> (#[trigger] visited_at(old(visited)@, width as int, p)
            <==> exists|k: int| 0 <= k < old(blobs)@.len() && listed((#[trigger] old(blobs)@[k]).pixels@, p)),
        groups_before(image@, width as int, height as int, old(blobs)@, x as int, y as int),
        forall|p: (int, int)| fg(image@, width as int, height as int, p) && raster_before(p.0, p.1, x as int, y as int)
            ==> #[trigger] visited_at(old(visited)@, width as int, p),
    ensures
        final(visited)@.len() == image@.len(),
        visit_closed(image@, width as int, height as int, final(visited)@),
        forall|p: (int, int)| in_grid(width as int, height as int, p.0, p.1) ==> (#[trigger] visited_at(final(visited)@, width as int, p)
            <==> exists|k: int| 0 <= k < final(blobs)@.len() && listed((#[trigger] final(blobs)@[k]).pixels@, p)),
        groups_before(image@, width as int, height as int, final(blobs)@, x as int + 1, y as int),
        forall|p: (int, int)| fg(image@, width as int, height as int, p) && raster_before(p.0, p.1, x as int + 1, y as int)
            ==> #[trigger] visited_at(final(visited)@, width as int, p),
{
    let ghost w = width as int;
    let ghost h = height as int;
    let ghost img = image@;
    let ghost v0 = visited@;
    let ghost b0 = blobs@;
    let ghost c = (x as int, y as int);
    let slen = image.len();
    proof {
        lemma_pix_bounds(w, h, x as int, y as int);
    }
    let idx = y * width + x;
    if image[idx] > 0 && !visited[idx] {
        let blob = flood_from(image, width, height, visited, x, y);
        let ghost nb = blob;
        blobs.push(blob);
        proof {
            assert(fg(img, w, h, c));
            lemma_visit_closed_union(img, w, h, v0, visited@, c);
            assert(blobs@[blobs@.len() - 1] == nb);
            assert(seed_of(nb) == c);
            assert(first_of_group(img, w, h, c)) by {
                assert forall|q: (int, int)| #[trigger] connected(img, w, h, true, c, q) implies !raster_before(q.0, q.1, c.0, c.1) by {
                    if raster_before(q.0, q.1, c.0, c.1) {
                        lemma_connected_in_grid(img, w, h, c, q);
                        assert(visited_at(v0, w, q));
                        lemma_connected_symm(img, w, h, true, c, q);
                        lemma_visited_component(img, w, h, v0, q, c);
                    }
                }
            }
            assert forall|p: (int, int)| in_grid(w, h, p.0, p.1) implies (#[trigger] visited_at(visited@, w, p)
                <==> exists|k: int| 0 <= k < blobs@.len() && listed((#[trigger] blobs@[k]).pixels@, p)) by {
                if visited_at(visited@, w, p) {
                    if visited_at(v0, w, p) {
                        let k = choose|k: int| 0 <= k < b0.len() && listed((#[trigger] b0[k]).pixels@, p);
                        assert(blobs@[k] == b0[k]);
                    } else {
                        assert(connected(img, w, h, true, pt(nb.pixels@[0]), p));
                        assert(listed(blobs@[blobs@.len() - 1].pixels@, p));
                    }
                }
                if exists|k: int| 0 <= k < blobs@.len() && listed((#[trigger] blobs@[k]).pixels@, p) {
                    let k = choose|k: int| 0 <= k < blobs@.len() && listed((#[trigger] blobs@[k]).pixels@, p);
                    if k < b0.len() {
                        assert(blobs@[k] == b0[k]);
                    } else {
                        let i = choose|i: int| 0 <= i < nb.pixels@.len() && #[trigger] pt(nb.pixels@[i]) == p;
                        assert(connected(img, w, h, true, pt(nb.pixels@[0]), pt(nb.pixels@[i])));
                    }
                }
            }
            assert forall|k: int| 0 <= k < blobs@.len() implies lists_component(img, w, h, (#[trigger] blobs@[k]).pixels@)
                && breadth_first(blobs@[k].pixels@)
                && box_of(blobs@[k].pixels@, blobs@[k].bounds)
                && first_of_group(img, w, h, seed_of(blobs@[k]))
                && raster_before(seed_of(blobs@[k]).0, seed_of(blobs@[k]).1, x as int + 1, y as int) by {
                if k < b0.len() {
                    assert(blobs@[k] == b0[k]);
                }
            }
            assert forall|k: int, l: int| 0 <= k < l < blobs@.len() implies raster_before(seed_of(#[trigger] blobs@[k]).0, seed_of(blobs@[k]).1,
                seed_of(#[trigger] blobs@[l]).0, seed_of(blobs@[l]).1) by {
                assert(blobs@[k] == b0[k]);
                if l < b0.len() {
                    assert(blobs@[l] == b0[l]);
                }
            }
            assert forall|p: (int, int)| fg(img, w, h, p) && raster_before(p.0, p.1, x as int + 1, y as int)
                implies #[trigger] visited_at(visited@, w, p) by {
                if raster_before(p.0, p.1, x as int, y as int) {
                    assert(visited_at(v0, w, p));
                } else {
                    lemma_connected_refl(img, w, h, true, c);
                }
            }
        }
    } else {
        proof {
            assert forall|k: int| 0 <= k < blobs@.len() implies lists_component(img, w, h, (#[trigger] blobs@[k]).pixels@)
                && breadth_first(blobs@[k].pixels@)
                && box_of(blobs@[k].pixels@, blobs@[k].bounds)
                && first_of_group(img, w, h, seed_of(blobs@[k]))
                && raster_before(seed_of(blobs@[k]).0, seed_of(blobs@[k]).1, x as int + 1, y as int) by {
            }
            assert forall|p: (int, int)| fg(img, w, h, p) && raster_before(p.0, p.1, x as int + 1, y as int)
                implies #[trigger] visited_at(visited@, w, p) by {
                if !raster_before(p.0, p.1, x as int, y as int) {
                    assert(p == c);
                }
            }
        }
    }
}

impl FitsImage {
    /// The 8-connected groups of non-zero pixels, in row-major order of their
    /// first pixels; each lists its pixels once, from its first one in
    /// breadth-first order, with its bounding box.
    pub fn find_blobs(binary_image: &[u8], width: usize, height: usize) -> (r: Vec<Blob>)
        requires
            width * height <= binary_image@.len(),
        ensures
            forall|k: int| 0 <= k < r@.len() ==> lists_component(binary_image@, width as int, height as int, (#[trigger] r@[k]).pixels@)
                && breadth_first(r@[k].pixels@)
                && box_of(r@[k].pixels@, r@[k].bounds)
                && first_of_group(binary_image@, width as int, height as int, seed_of(r@[k])),
            forall|k: int, l: int| 0 <= k < l < r@.len() ==> raster_before(seed_of(#[trigger] r@[k]).0, seed_of(r@[k]).1,
                seed_of(#[trigger] r@[l]).0, seed_of(r@[l]).1),
            forall|p: (int, int)| fg(binary_image@, width as int, height as int, p)
                ==> exists|k: int| 0 <= k < r@.len() && listed((#[trigger] r@[k]).pixels@, p),
    {
        let ghost w = width as int;
        let ghost h = height as int;
        let ghost img = binary_image@;
        let mut visited: Vec<bool> = vec![false; binary_image.len()];
        let mut blobs: Vec<Blob> = Vec::new();
        proof {
            let s = |p: (int, int)| in_grid(w, h, p.0, p.1) && visited_at(visited@, w, p);
            assert forall|p: (int, int)| in_grid(w, h, p.0, p.1) implies !#[trigger] visited_at(visited@, w, p) by {
                lemma_pix_bounds(w, h, p.0, p.1);
            }
            assert(closed_under_touch(img, w, h, s));
        }
        let mut y: usize = 0;
        while y < height
            invariant
                w == width, h == height, img == binary_image@,
                width * height <= binary_image@.len(),
                visited@.len() == binary_image@.len(),
                y <= height,
                visit_closed(img, w, h, visited@),
                forall|p: (int, int)| in_grid(w, h, p.0, p.1) ==> (#[trigger] visited_at(visited@, w, p)
                    <==> exists|k: int| 0 <= k < blobs@.len() && listed((#[trigger] blobs@[k]).pixels@, p)),
                groups_before(img, w, h, blobs@, 0, y as int),
                forall|p: (int, int)| fg(img, w, h, p) && raster_before(p.0, p.1, 0, y as int) ==> #[trigger] visited_at(visited@, w, p),
            decreases height - y,
        {
            let mut x: usize = 0;
            while x < width
                invariant
                    w == width, h == height, img == binary_image@,
                    width * height <= binary_image@.len(),
                    visited@.len() == binary_image@.len(),
                    y < height,
                    x <= width,
                    visit_closed(img, w, h, visited@),
                    forall|p: (int, int)| in_grid(w, h, p.0, p.1) ==> (#[trigger] visited_at(visited@, w, p)
                        <==> exists|k: int| 0 <= k < blobs@.len() && listed((#[trigger] blobs@[k]).pixels@, p)),
                    groups_before(img, w, h, blobs@, x as int, y as int),
                    forall|p: (int, int)| fg(img, w, h, p) && raster_before(p.0, p.1, x as int, y as int) ==> #[trigger] visited_at(visited@, w, p),
                decreases width - x,
            {
                scan_pixel(binary_image, width, height, &mut visited, &mut blobs, x, y);
                x = x + 1;
            }
            proof {
                assert forall|k: int| 0 <= k < blobs@.len() implies lists_component(img, w, h, (#[trigger] blobs@[k]).pixels@)
                    && breadth_first(blobs@[k].pixels@)
                    && box_of(blobs@[k].pixels@, blobs@[k].bounds)
                    && first_of_group(img, w, h, seed_of(blobs@[k]))
                    && raster_before(seed_of(blobs@[k]).0, seed_of(blobs@[k]).1, 0, y as int + 1) by {
                    assert(lists_component(img, w, h, blobs@[k].pixels@));
                    assert(connected(img, w, h, true, pt(blobs@[k].pixels@[0]), pt(blobs@[k].pixels@[0])));
                    lemma_connected_in_grid(img, w, h, pt(blobs@[k].pixels@[0]), pt(blobs@[k].pixels@[0]));
                }
                assert forall|p: (int, int)| fg(img, w, h, p) && raster_before(p.0, p.1, 0, y as int + 1)
                    implies #[trigger] visited_at(visited@, w, p) by {
                    assert(raster_before(p.0, p.1, w, y as int));
                }
            }
            y = y + 1;
        }
        proof {
            assert forall|p: (int, int)| fg(img, w, h, p)
                implies exists|k: int| 0 <= k < blobs@.len() && listed((#[trigger] blobs@[k]).pixels@, p) by {
                assert(raster_before(p.0, p.1, 0, h));
                assert(visited_at(visited@, w, p));
            }
        }
        blobs
    }
}

/// No pixel lies in two of the blobs `find_blobs` returns: groups listed in
/// row-major order of first pixels, each starting at its group's first pixel,
/// never share a pixel.
pub proof fn law_blobs_disjoint(img: Seq<u8>, w: int, h: int, r: Seq<Blob>, k: int, l: int, p: (int, int))
    requires
        forall|m: int| 0 <= m < r.len() ==> lists_component(img, w, h, (#[trigger] r[m]).pixels@)
            && first_of_group(img, w, h, seed_of(r[m])),
        forall|m: int, n: int| 0 <= m < n < r.len() ==> raster_before(seed_of(#[trigger] r[m]).0, seed_of(r[m]).1,
            seed_of(#[trigger] r[n]).0, seed_of(r[n]).1),
        0 <= k < r.len(),
        0 <= l < r.len(),
        listed(r[k].pixels@, p),
        listed(r[l].pixels@, p),
    ensures
        k == l,
{
    if k != l {
        let (a, b) = if k < l { (k, l) } else { (l, k) };
        let i = choose|i: int| 0 <= i < r[a].pixels@.len() && #[trigger] pt(r[a].pixels@[i]) == p;
        let j = choose|j: int| 0 <= j < r[b].pixels@.len() && #[trigger] pt(r[b].pixels@[j]) == p;
        assert(connected(img, w, h, true, seed_of(r[a]), pt(r[a].pixels@[i])));
        assert(connected(img, w, h, true, seed_of(r[b]), pt(r[b].pixels@[j])));
        lemma_connected_symm(img, w, h, true, seed_of(r[b]), p);
        lemma_connected_trans(img, w, h, true, seed_of(r[a]), p, seed_of(r[b]));
        lemma_connected_symm(img, w, h, true, seed_of(r[a]), seed_of(r[b]));
        assert(raster_before(seed_of(r[a]).0, seed_of(r[a]).1, seed_of(r[b]).0, seed_of(r[b]).1));
        assert(connected(img, w, h, true, seed_of(r[b]), seed_of(r[a])));
    }
}

} // verus!
