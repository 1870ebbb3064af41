//! Building blocks of N.I.N.A.'s star detector, after the Accord.NET imaging
//! routines it relies on: bit-depth conversion, edge detection, thresholding,
//! dilation, median filtering and connected-component labelling on 8-bit,
//! row-major images.

use vstd::prelude::*;
use crate::labeling::{component_labeling, label_box, label_tallies, label_components};
use crate::grid::{count_label, lemma_count_label_occurs, pix, in_grid, lemma_pix_div_mod, adjacent8, count_value, lemma_pix_bounds, lemma_pix_injective, lemma_pix_step, lemma_count_value_le_len, lemma_count_value_update};

verus! {

/// `c + d - 1` (a step of -1, 0 or +1 for `d` in `0..3`) when it lies in `0..limit`.
pub fn shifted(c: usize, d: usize, limit: usize) -> (r: Option<usize>)
    requires
        c < limit,
        d < 3,
    ensures
        match r {
            Some(v) => v == c + d - 1 && v < limit,
            None => !(0 <= c + d - 1 < limit),
        },
{
    if d == 0 {
        if c == 0 {
            None
        } else {
            Some(c - 1)
        }
    } else if d == 1 {
        Some(c)
    } else if c + 1 < limit {
        Some(c + 1)
    } else {
        None
    }
}


// ---------------------------------------------------------------------------
// Sobel gradients and non-maximum suppression
// ---------------------------------------------------------------------------

/// `(x, y)` has all eight neighbours inside a `w` by `h` grid.
pub open spec fn interior(w: int, h: int, x: int, y: int) -> bool {
    1 <= x < w - 1 && 1 <= y < h - 1
}

/// Value of pixel `(x, y)` as an integer.
pub open spec fn px(img: Seq<u8>, w: int, x: int, y: int) -> int {
    img[pix(w, x, y)] as int
}

/// Horizontal Sobel response (kernel `[-1 0 1; -2 0 2; -1 0 1]`) at an interior
/// pixel, zero on the border.
pub open spec fn sobel_x(img: Seq<u8>, w: int, h: int, x: int, y: int) -> int {
    if interior(w, h, x, y) {
        (px(img, w, x + 1, y - 1) + 2 * px(img, w, x + 1, y) + px(img, w, x + 1, y + 1))
            - (px(img, w, x - 1, y - 1) + 2 * px(img, w, x - 1, y) + px(img, w, x - 1, y + 1))
    } else {
        0
    }
}

/// Vertical Sobel response (kernel `[-1 -2 -1; 0 0 0; 1 2 1]`) at an interior
/// pixel, zero on the border.
pub open spec fn sobel_y(img: Seq<u8>, w: int, h: int, x: int, y: int) -> int {
    if interior(w, h, x, y) {
        (px(img, w, x - 1, y + 1) + 2 * px(img, w, x, y + 1) + px(img, w, x + 1, y + 1))
            - (px(img, w, x - 1, y - 1) + 2 * px(img, w, x, y - 1) + px(img, w, x + 1, y - 1))
    } else {
        0
    }
}

/// The horizontal responses of a whole image, in row-major order.
pub open spec fn sobel_x_image(img: Seq<u8>, w: int, h: int) -> Seq<i32> {
    Seq::new((w * h) as nat, |i: int| sobel_x(img, w, h, i % w, i / w) as i32)
}

/// The vertical responses of a whole image, in row-major order.
pub open spec fn sobel_y_image(img: Seq<u8>, w: int, h: int) -> Seq<i32> {
    Seq::new((w * h) as nat, |i: int| sobel_y(img, w, h, i % w, i / w) as i32)
}

/// The gradient direction `atan2(gy, gx)`, folded into `0..=180` degrees by its
/// absolute value, lies below 22.5 or at least 157.5 degrees (an edge across
/// x).  The angle thresholds are decided exactly on integers: `tan(22.5) =
/// sqrt(2) - 1` and `tan(67.5) = sqrt(2) + 1`.
pub open spec fn below_22(a: int, b: int) -> bool {
    (a + b) * (a + b) < 2 * b * b
}

/// The folded angle of `(b, a)` (both non-negative) is below 67.5 degrees.
pub open spec fn below_67(a: int, b: int) -> bool {
    a <= b || (a - b) * (a - b) < 2 * b * b
}

/// Direction class of a gradient: 0 across x, 1 along the `\` diagonal pair
/// `(-1,-1)/(1,1)`, 2 across y, 3 along the `/` diagonal pair `(-1,1)/(1,-1)`.
pub open spec fn gradient_class(gx: int, gy: int) -> int {
    let a = if gy < 0 { -gy } else { gy };
    let b = if gx < 0 { -gx } else { gx };
    if gx == 0 && gy == 0 {
        0
    } else if gx >= 0 {
        if below_22(a, b) { 0 } else if below_67(a, b) { 1 } else { 2 }
    } else {
        if below_22(a, b) { 0 } else if !below_67(a, b) { 2 } else { 3 }
    }
}

/// Column offset of the first neighbour compared against in each class
/// (the second one is the mirror image).
pub open spec fn class_dx(c: int) -> int {
    if c == 0 { -1 } else if c == 1 { -1 } else if c == 2 { 0 } else { -1 }
}

/// Row offset of the first neighbour compared against in each class.
pub open spec fn class_dy(c: int) -> int {
    if c == 0 { 0 } else if c == 1 { -1 } else if c == 2 { -1 } else { 1 }
}

/// Largest `r` in `0..=limit` with `r * r <= m` (0 when there is none).
pub open spec fn capped_root(m: int, limit: int) -> int
    decreases limit,
{
    if limit <= 0 || limit * limit <= m {
        if limit <= 0 { 0 } else { limit }
    } else {
        capped_root(m, limit - 1)
    }
}

/// Squared gradient magnitude stored at `(x, y)`.
pub open spec fn mag2(gx: Seq<i32>, gy: Seq<i32>, w: int, x: int, y: int) -> int {
    gx[pix(w, x, y)] * gx[pix(w, x, y)] + gy[pix(w, x, y)] * gy[pix(w, x, y)]
}

/// Non-maximum suppression: an interior pixel keeps its gradient magnitude,
/// truncated and capped at 255, when it is at least the magnitude of both
/// neighbours along its gradient direction; everything else is 0.
pub open spec fn suppressed_at(gx: Seq<i32>, gy: Seq<i32>, w: int, h: int, x: int, y: int) -> u8 {
    let c = gradient_class(gx[pix(w, x, y)] as int, gy[pix(w, x, y)] as int);
    let m = mag2(gx, gy, w, x, y);
    if interior(w, h, x, y) && m >= mag2(gx, gy, w, x + class_dx(c), y + class_dy(c))
        && m >= mag2(gx, gy, w, x - class_dx(c), y - class_dy(c)) {
        capped_root(m, 255) as u8
    } else {
        0
    }
}

/// The suppressed gradient image that the no-blur Canny detector thresholds.
pub open spec fn canny_suppressed(img: Seq<u8>, w: int, h: int) -> Seq<u8> {
    Seq::new((w * h) as nat, |i: int| suppressed_at(sobel_x_image(img, w, h), sobel_y_image(img, w, h), w, h, i % w, i / w))
}


/// Largest `r <= 255` with `r * r <= m`, counting down from 255.
fn capped_root_255(m: i64) -> (r: u8)
    requires
        m >= 0,
    ensures
        r as int == capped_root(m as int, 255),
{
    let mut r: i64 = 255;
    loop
        invariant
            0 <= r <= 255,
            capped_root(m as int, 255) == capped_root(m as int, r as int),
        ensures
            r == 0 || r * r <= m,
        decreases r,
    {
        assert(r * r <= 65025) by (nonlinear_arith)
            requires
                0 <= r <= 255,
        ;
        if r == 0 || r * r <= m {
            break;
        }
        r = r - 1;
    }
    r as u8
}

/// Sobel gradients of every interior pixel (zero on the border).
fn calculate_gradients(image: &[u8], width: usize, height: usize) -> (res: (Vec<i32>, Vec<i32>))
    requires
        image@.len() == width * height,
        height >= 1,
        height >= 3 ==> width >= 1,
    ensures
        res.0@.len() == width * height,
        res.1@.len() == width * height,
        forall|x: int, y: int| #![trigger res.0@[pix(width as int, x, y)]]
            in_grid(width as int, height as int, x, y) ==> res.0@[pix(width as int, x, y)] == sobel_x(image@, width as int, height as int, x, y),
        forall|x: int, y: int| #![trigger res.1@[pix(width as int, x, y)]]
            in_grid(width as int, height as int, x, y) ==> res.1@[pix(width as int, x, y)] == sobel_y(image@, width as int, height as int, x, y),
{
    let ghost w = width as int;
    let ghost h = height as int;
    let ghost img = image@;
    let n = image.len();
    let mut gx: Vec<i32> = vec![0i32; n];
    let mut gy: Vec<i32> = vec![0i32; n];
    proof {
        assert forall|x: int, y: int| #![trigger gx@[pix(w, x, y)]]
            in_grid(w, h, x, y) implies gx@[pix(w, x, y)] == 0 by {
            lemma_pix_bounds(w, h, x, y);
        }
        assert forall|x: int, y: int| #![trigger gy@[pix(w, x, y)]]
            in_grid(w, h, x, y) implies gy@[pix(w, x, y)] == 0 by {
            lemma_pix_bounds(w, h, x, y);
        }
    }
    let mut y: usize = 1;
    while y < height - 1
        invariant
            w == width, h == height, img == image@,
            n == width * height,
            gx@.len() == n, gy@.len() == n, image@.len() == n,
            1 <= y,
            height >= 1,
            height >= 3 ==> width >= 1,
            forall|x1: int, y1: int| #![trigger gx@[pix(w, x1, y1)]]
                in_grid(w, h, x1, y1) ==> gx@[pix(w, x1, y1)] == (if y1 < y { sobel_x(img, w, h, x1, y1) } else { 0 }),
            forall|x1: int, y1: int| #![trigger gy@[pix(w, x1, y1)]]
                in_grid(w, h, x1, y1) ==> gy@[pix(w, x1, y1)] == (if y1 < y { sobel_y(img, w, h, x1, y1) } else { 0 }),
        decreases height - y,
    {
        let mut x: usize = 1;
        while x < width - 1
            invariant
                w == width, h == height, img == image@,
                n == width * height,
                gx@.len() == n, gy@.len() == n, image@.len() == n,
                1 <= y, y + 1 < height,
                width >= 1,
                1 <= x,
                forall|x1: int, y1: int| #![trigger gx@[pix(w, x1, y1)]]
                    in_grid(w, h, x1, y1) ==> gx@[pix(w, x1, y1)] == (if y1 < y || (y1 == y && x1 < x) { sobel_x(img, w, h, x1, y1) } else { 0 }),
                forall|x1: int, y1: int| #![trigger gy@[pix(w, x1, y1)]]
                    in_grid(w, h, x1, y1) ==> gy@[pix(w, x1, y1)] == (if y1 < y || (y1 == y && x1 < x) { sobel_y(img, w, h, x1, y1) } else { 0 }),
            decreases width - x,
        {
            proof {
                lemma_pix_bounds(w, h, x as int, y as int);
                lemma_pix_bounds(w, h, x as int + 1, y as int + 1);
                lemma_pix_bounds(w, h, x as int - 1, y as int - 1);
                lemma_pix_step(w, x as int, y as int);
                lemma_pix_step(w, x as int - 1, y as int);
                lemma_pix_step(w, x as int + 1, y as int);
                lemma_pix_step(w, x as int, y as int - 1);
                lemma_pix_step(w, x as int, y as int + 1);
            }
            let idx = y * width + x;
            proof {
                assert(idx == pix(w, x as int, y as int));
                assert(pix(w, x as int - 1, y as int - 1) == idx - w - 1);
                assert(pix(w, x as int + 1, y as int + 1) == idx + w + 1);
                assert(pix(w, x as int, y as int - 1) == idx - w);
                assert(pix(w, x as int, y as int + 1) == idx + w);
                assert(pix(w, x as int + 1, y as int - 1) == idx - w + 1);
                assert(pix(w, x as int - 1, y as int + 1) == idx + w - 1);
            }
            assert(image@.len() == w * h);
            assert(0 <= idx - w - 1);
            assert(idx + w + 1 < image@.len());
            let up = idx - width;
            let down = idx + width;
            let tl = image[up - 1] as i32;
            let tc = image[up] as i32;
            let tr = image[up + 1] as i32;
            let ml = image[idx - 1] as i32;
            let mr = image[idx + 1] as i32;
            let bl = image[down - 1] as i32;
            let bc = image[down] as i32;
            let br = image[down + 1] as i32;
            let vx = (tr + 2 * mr + br) - (tl + 2 * ml + bl);
            let vy = (bl + 2 * bc + br) - (tl + 2 * tc + tr);
            let ghost old_gx = gx@;
            let ghost old_gy = gy@;
            gx.set(idx, vx);
            gy.set(idx, vy);
            proof {
                assert(vx == sobel_x(img, w, h, x as int, y as int));
                assert(vy == sobel_y(img, w, h, x as int, y as int));
                assert forall|x1: int, y1: int| #![trigger gx@[pix(w, x1, y1)]]
                    in_grid(w, h, x1, y1) implies gx@[pix(w, x1, y1)] == (if y1 < y || (y1 == y && x1 < x + 1) { sobel_x(img, w, h, x1, y1) } else { 0 })
                    && gy@[pix(w, x1, y1)] == (if y1 < y || (y1 == y && x1 < x + 1) { sobel_y(img, w, h, x1, y1) } else { 0 }) by {
                    lemma_pix_bounds(w, h, x1, y1);
                    if pix(w, x1, y1) == idx {
                        lemma_pix_injective(w, x1, y1, x as int, y as int);
                    }
                }
                assert forall|x1: int, y1: int| #![trigger gy@[pix(w, x1, y1)]]
                    in_grid(w, h, x1, y1) implies gy@[pix(w, x1, y1)] == (if y1 < y || (y1 == y && x1 < x + 1) { sobel_y(img, w, h, x1, y1) } else { 0 }) by {
                    lemma_pix_bounds(w, h, x1, y1);
                    if pix(w, x1, y1) == idx {
                        lemma_pix_injective(w, x1, y1, x as int, y as int);
                    }
                }
            }
            x = x + 1;
        }
        proof {
            assert forall|x1: int, y1: int| #![trigger gx@[pix(w, x1, y1)]]
                in_grid(w, h, x1, y1) implies gx@[pix(w, x1, y1)] == (if y1 < y + 1 { sobel_x(img, w, h, x1, y1) } else { 0 })
                && gy@[pix(w, x1, y1)] == (if y1 < y + 1 { sobel_y(img, w, h, x1, y1) } else { 0 }) by {
                if y1 == y && !(x1 < x) {
                    assert(!interior(w, h, x1, y1));
                }
            }
            assert forall|x1: int, y1: int| #![trigger gy@[pix(w, x1, y1)]]
                in_grid(w, h, x1, y1) implies gy@[pix(w, x1, y1)] == (if y1 < y + 1 { sobel_y(img, w, h, x1, y1) } else { 0 }) by {
                if y1 == y && !(x1 < x) {
                    assert(!interior(w, h, x1, y1));
                }
            }
        }
        y = y + 1;
    }
    proof {
        assert forall|x1: int, y1: int| #![trigger gx@[pix(w, x1, y1)]]
            in_grid(w, h, x1, y1) implies gx@[pix(w, x1, y1)] == sobel_x(img, w, h, x1, y1)
            && gy@[pix(w, x1, y1)] == sobel_y(img, w, h, x1, y1) by {
            if !(y1 < y) {
                assert(!interior(w, h, x1, y1));
            }
        }
        assert forall|x1: int, y1: int| #![trigger gy@[pix(w, x1, y1)]]
            in_grid(w, h, x1, y1) implies gy@[pix(w, x1, y1)] == sobel_y(img, w, h, x1, y1) by {
            if !(y1 < y) {
                assert(!interior(w, h, x1, y1));
            }
        }
    }
    (gx, gy)
}


/// Exact direction class of a gradient whose components are at most 1020 in size.
fn gradient_class_of(g: i64, q: i64) -> (c: u8)
    requires
        -1020 <= g <= 1020,
        -1020 <= q <= 1020,
    ensures
        c as int == gradient_class(g as int, q as int),
        c < 4,
{
    let a = if q < 0 { -q } else { q };
    let b = if g < 0 { -g } else { g };
    assert(0 <= a <= 1020 && 0 <= b <= 1020);
    assert((a + b) * (a + b) <= 2040 * 2040) by (nonlinear_arith)
        requires
            0 <= a <= 1020,
            0 <= b <= 1020,
    ;
    assert(2 * b * b <= 2 * 1020 * 1020) by (nonlinear_arith)
        requires
            0 <= b <= 1020,
    ;
    assert((a - b) * (a - b) <= 1020 * 1020) by (nonlinear_arith)
        requires
            0 <= a <= 1020,
            0 <= b <= 1020,
    ;
    let lt22 = (a + b) * (a + b) < 2 * b * b;
    let lt67 = a <= b || (a - b) * (a - b) < 2 * b * b;
    if g == 0 && q == 0 {
        0
    } else if g >= 0 {
        if lt22 { 0 } else if lt67 { 1 } else { 2 }
    } else {
        if lt22 { 0 } else if !lt67 { 2 } else { 3 }
    }
}

/// Squared magnitude of a bounded gradient.
fn magnitude_squared(g: i32, q: i32) -> (m: i64)
    requires
        -1020 <= g <= 1020,
        -1020 <= q <= 1020,
    ensures
        m == g * g + q * q,
        0 <= m <= 2 * 1020 * 1020,
{
    let g64 = g as i64;
    let q64 = q as i64;
    assert(0 <= g64 * g64 <= 1020 * 1020) by (nonlinear_arith)
        requires
            -1020 <= g64 <= 1020,
    ;
    assert(0 <= q64 * q64 <= 1020 * 1020) by (nonlinear_arith)
        requires
            -1020 <= q64 <= 1020,
    ;
    g64 * g64 + q64 * q64
}

/// Non-maximum suppression over Sobel gradients bounded by 1020 in size.
fn non_maximum_suppression(gx: &Vec<i32>, gy: &Vec<i32>, width: usize, height: usize) -> (res: Vec<u8>)
    requires
        gx@.len() == width * height,
        gy@.len() == width * height,
        height >= 1,
        height >= 3 ==> width >= 1,
        forall|i: int| 0 <= i < gx@.len() ==> -1020 <= #[trigger] gx@[i] <= 1020,
        forall|i: int| 0 <= i < gy@.len() ==> -1020 <= #[trigger] gy@[i] <= 1020,
    ensures
        res@.len() == width * height,
        forall|x: int, y: int| #![trigger res@[pix(width as int, x, y)]]
            in_grid(width as int, height as int, x, y) ==> res@[pix(width as int, x, y)] == suppressed_at(gx@, gy@, width as int, height as int, x, y),
{
    let ghost w = width as int;
    let ghost h = height as int;
    let n = gx.len();
    let mut result: Vec<u8> = vec![0u8; n];
    proof {
        assert forall|x: int, y: int| #![trigger result@[pix(w, x, y)]]
            in_grid(w, h, x, y) implies result@[pix(w, x, y)] == 0 by {
            lemma_pix_bounds(w, h, x, y);
        }
    }
    let mut y: usize = 1;
    while y < height - 1
        invariant
            w == width, h == height,
            n == width * height,
            gx@.len() == n, gy@.len() == n, result@.len() == n,
            1 <= y,
            height >= 1,
            height >= 3 ==> width >= 1,
            forall|i: int| 0 <= i < gx@.len() ==> -1020 <= #[trigger] gx@[i] <= 1020,
            forall|i: int| 0 <= i < gy@.len() ==> -1020 <= #[trigger] gy@[i] <= 1020,
            forall|x1: int, y1: int| #![trigger result@[pix(w, x1, y1)]]
                in_grid(w, h, x1, y1) ==> result@[pix(w, x1, y1)] == (if y1 < y { suppressed_at(gx@, gy@, w, h, x1, y1) } else { 0 }),
        decreases height - y,
    {
        let mut x: usize = 1;
        while x < width - 1
            invariant
                w == width, h == height,
                n == width * height,
                gx@.len() == n, gy@.len() == n, result@.len() == n,
                1 <= y, y + 1 < height,
                width >= 1,
                1 <= x,
                forall|i: int| 0 <= i < gx@.len() ==> -1020 <= #[trigger] gx@[i] <= 1020,
                forall|i: int| 0 <= i < gy@.len() ==> -1020 <= #[trigger] gy@[i] <= 1020,
                forall|x1: int, y1: int| #![trigger result@[pix(w, x1, y1)]]
                    in_grid(w, h, x1, y1) ==> result@[pix(w, x1, y1)] == (if y1 < y || (y1 == y && x1 < x) { suppressed_at(gx@, gy@, w, h, x1, y1) } else { 0 }),
            decreases width - x,
        {
            proof {
                lemma_pix_bounds(w, h, x as int, y as int);
                lemma_pix_bounds(w, h, x as int + 1, y as int + 1);
                lemma_pix_bounds(w, h, x as int - 1, y as int - 1);
                lemma_pix_step(w, x as int, y as int);
                lemma_pix_step(w, x as int - 1, y as int);
                lemma_pix_step(w, x as int + 1, y as int);
                lemma_pix_step(w, x as int, y as int - 1);
                lemma_pix_step(w, x as int, y as int + 1);
            }
            let idx = y * width + x;
            proof {
                assert(idx == pix(w, x as int, y as int));
                assert(pix(w, x as int - 1, y as int - 1) == idx - w - 1);
                assert(pix(w, x as int + 1, y as int + 1) == idx + w + 1);
                assert(pix(w, x as int, y as int - 1) == idx - w);
                assert(pix(w, x as int, y as int + 1) == idx + w);
                assert(pix(w, x as int + 1, y as int - 1) == idx - w + 1);
                assert(pix(w, x as int - 1, y as int + 1) == idx + w - 1);
                assert(pix(w, x as int - 1, y as int) == idx - 1);
                assert(pix(w, x as int + 1, y as int) == idx + 1);
            }
            let g = gx[idx];
            let q = gy[idx];
            let c = gradient_class_of(g as i64, q as i64);
            let (i1, i2) = if c == 0 {
                (idx - 1, idx + 1)
            } else if c == 1 {
                (idx - width - 1, idx + width + 1)
            } else if c == 2 {
                (idx - width, idx + width)
            } else {
                (idx + width - 1, idx - width + 1)
            };
            let ghost cc = c as int;
            assert(i1 == pix(w, x + class_dx(cc), y + class_dy(cc)));
            assert(i2 == pix(w, x - class_dx(cc), y - class_dy(cc)));
            let m = magnitude_squared(g, q);
            let m1 = magnitude_squared(gx[i1], gy[i1]);
            let m2 = magnitude_squared(gx[i2], gy[i2]);
            if m >= m1 && m >= m2 {
                let v = capped_root_255(m);
                result.set(idx, v);
            }
            proof {
                assert forall|x1: int, y1: int| #![trigger result@[pix(w, x1, y1)]]
                    in_grid(w, h, x1, y1) implies result@[pix(w, x1, y1)] == (if y1 < y || (y1 == y && x1 < x + 1) { suppressed_at(gx@, gy@, w, h, x1, y1) } else { 0 }) by {
                    lemma_pix_bounds(w, h, x1, y1);
                    if pix(w, x1, y1) == idx {
                        lemma_pix_injective(w, x1, y1, x as int, y as int);
                    }
                }
            }
            x = x + 1;
        }
        proof {
            assert forall|x1: int, y1: int| #![trigger result@[pix(w, x1, y1)]]
                in_grid(w, h, x1, y1) implies result@[pix(w, x1, y1)] == (if y1 < y + 1 { suppressed_at(gx@, gy@, w, h, x1, y1) } else { 0 }) by {
                if y1 == y && !(x1 < x) {
                    assert(!interior(w, h, x1, y1));
                }
            }
        }
        y = y + 1;
    }
    proof {
        assert forall|x1: int, y1: int| #![trigger result@[pix(w, x1, y1)]]
            in_grid(w, h, x1, y1) implies result@[pix(w, x1, y1)] == suppressed_at(gx@, gy@, w, h, x1, y1) by {
            if !(y1 < y) {
                assert(!interior(w, h, x1, y1));
            }
        }
    }
    result
}


/// Sobel responses are at most `4 * 255` in size.
proof fn lemma_sobel_bounded(img: Seq<u8>, w: int, h: int, x: int, y: int)
    requires
        in_grid(w, h, x, y),
        img.len() == w * h,
    ensures
        -1020 <= sobel_x(img, w, h, x, y) <= 1020,
        -1020 <= sobel_y(img, w, h, x, y) <= 1020,
{
    if interior(w, h, x, y) {
        lemma_pix_bounds(w, h, x - 1, y - 1);
        lemma_pix_bounds(w, h, x, y - 1);
        lemma_pix_bounds(w, h, x + 1, y - 1);
        lemma_pix_bounds(w, h, x - 1, y);
        lemma_pix_bounds(w, h, x + 1, y);
        lemma_pix_bounds(w, h, x - 1, y + 1);
        lemma_pix_bounds(w, h, x, y + 1);
        lemma_pix_bounds(w, h, x + 1, y + 1);
    }
}

/// Canny edge detector that works on the image as given (no Gaussian
/// pre-blur): Sobel gradients, non-maximum suppression, then hysteresis
/// thresholding between a low and a high threshold.
pub struct NoBlurCannyEdgeDetector {
    low_threshold: u8,
    high_threshold: u8,
}

impl NoBlurCannyEdgeDetector {
    /// The low and high hysteresis thresholds.
    pub closed spec fn thresholds(&self) -> (u8, u8) {
        (self.low_threshold, self.high_threshold)
    }

    pub fn new(low_threshold: u8, high_threshold: u8) -> (d: Self)
        ensures
            d.thresholds() == (low_threshold, high_threshold),
    {
        Self { low_threshold, high_threshold }
    }

    /// Replaces the image by its edge map: 255 on the pixels that hysteresis
    /// thresholding of the suppressed Sobel magnitudes marks, 0 elsewhere.
    pub fn apply_in_place(&self, image: &mut [u8], width: usize, height: usize)
        requires
            old(image)@.len() == width * height,
            height >= 1,
            height >= 3 ==> width >= 1,
        ensures
            final(image)@.len() == old(image)@.len(),
            forall|x: int, y: int| #![trigger final(image)@[pix(width as int, x, y)]]
                in_grid(width as int, height as int, x, y) ==> final(image)@[pix(width as int, x, y)] == (if is_edge(
                    canny_suppressed(old(image)@, width as int, height as int), width as int, height as int,
                    self.thresholds().0, self.thresholds().1, x, y) { 255u8 } else { 0u8 }),
    {
        let ghost w = width as int;
        let ghost h = height as int;
        let ghost img = image@;
        let (gx, gy) = calculate_gradients(image, width, height);
        proof {
            if w > 0 {
                assert forall|i: int| 0 <= i < gx@.len() implies -1020 <= #[trigger] gx@[i] <= 1020 && -1020 <= gy@[i] <= 1020
                    && gx@[i] == sobel_x_image(img, w, h)[i] && gy@[i] == sobel_y_image(img, w, h)[i] by {
                    lemma_pix_div_mod(w, h, i);
                    lemma_sobel_bounded(img, w, h, i % w, i / w);
                }
                assert forall|i: int| 0 <= i < gy@.len() implies -1020 <= #[trigger] gy@[i] <= 1020
                    && gy@[i] == sobel_y_image(img, w, h)[i] by {
                    assert(-1020 <= gx@[i] <= 1020);
                }
            }
            assert(gx@ =~= sobel_x_image(img, w, h));
            assert(gy@ =~= sobel_y_image(img, w, h));
        }
        let suppressed = non_maximum_suppression(&gx, &gy, width, height);
        proof {
            if w > 0 {
                assert forall|i: int| 0 <= i < suppressed@.len() implies #[trigger] suppressed@[i] == canny_suppressed(img, w, h)[i] by {
                    lemma_pix_div_mod(w, h, i);
                }
            }
            assert(suppressed@ =~= canny_suppressed(img, w, h));
        }
        let edges = hysteresis_thresholding(suppressed.as_slice(), width, height, self.low_threshold, self.high_threshold);
        let n = image.len();
        let mut i: usize = 0;
        while i < n
            invariant
                n == image@.len(),
                edges@.len() == n,
                0 <= i <= n,
                forall|j: int| 0 <= j < i ==> image@[j] == #[trigger] edges@[j],
            decreases n - i,
        {
            image[i] = edges[i];
            i = i + 1;
        }
        proof {
            assert(image@ =~= edges@);
        }
    }
}

// ---------------------------------------------------------------------------
// Hysteresis thresholding
// ---------------------------------------------------------------------------

/// `(x, y)` can be reached from a strong edge pixel (value at least `high`) in at
/// most `n` steps between 8-adjacent pixels, each step landing on a pixel whose
/// value is at least `low`.
pub open spec fn edge_reach(sup: Seq<u8>, w: int, h: int, low: u8, high: u8, n: nat, x: int, y: int) -> bool
    decreases n,
{
    in_grid(w, h, x, y) && (sup[pix(w, x, y)] >= high || (n > 0 && sup[pix(w, x, y)] >= low && {
        let m = (n - 1) as nat;
        ||| edge_reach(sup, w, h, low, high, m, x - 1, y - 1)
        ||| edge_reach(sup, w, h, low, high, m, x, y - 1)
        ||| edge_reach(sup, w, h, low, high, m, x + 1, y - 1)
        ||| edge_reach(sup, w, h, low, high, m, x - 1, y)
        ||| edge_reach(sup, w, h, low, high, m, x + 1, y)
        ||| edge_reach(sup, w, h, low, high, m, x - 1, y + 1)
        ||| edge_reach(sup, w, h, low, high, m, x, y + 1)
        ||| edge_reach(sup, w, h, low, high, m, x + 1, y + 1)
    }))
}

/// One more step from a reached pixel reaches any neighbour whose value is at least `low`.
proof fn lemma_edge_reach_step(sup: Seq<u8>, w: int, h: int, low: u8, high: u8, k: nat, x: int, y: int, x2: int, y2: int)
    requires
        edge_reach(sup, w, h, low, high, k, x, y),
        in_grid(w, h, x2, y2),
        adjacent8(x2, y2, x, y),
        sup[pix(w, x2, y2)] >= low,
    ensures
        edge_reach(sup, w, h, low, high, k + 1, x2, y2),
{
    let m = ((k + 1) - 1) as nat;
    assert(m == k);
    if x == x2 - 1 && y == y2 - 1 {
        assert(edge_reach(sup, w, h, low, high, m, x2 - 1, y2 - 1));
    } else if x == x2 && y == y2 - 1 {
        assert(edge_reach(sup, w, h, low, high, m, x2, y2 - 1));
    } else if x == x2 + 1 && y == y2 - 1 {
        assert(edge_reach(sup, w, h, low, high, m, x2 + 1, y2 - 1));
    } else if x == x2 - 1 && y == y2 {
        assert(edge_reach(sup, w, h, low, high, m, x2 - 1, y2));
    } else if x == x2 + 1 && y == y2 {
        assert(edge_reach(sup, w, h, low, high, m, x2 + 1, y2));
    } else if x == x2 - 1 && y == y2 + 1 {
        assert(edge_reach(sup, w, h, low, high, m, x2 - 1, y2 + 1));
    } else if x == x2 && y == y2 + 1 {
        assert(edge_reach(sup, w, h, low, high, m, x2, y2 + 1));
    } else {
        assert(edge_reach(sup, w, h, low, high, m, x2 + 1, y2 + 1));
    }
}

/// The pixel `(x, y)` belongs to an edge: it is connected to a strong edge pixel.
pub open spec fn is_edge(sup: Seq<u8>, w: int, h: int, low: u8, high: u8, x: int, y: int) -> bool {
    exists|n: nat| #[trigger] edge_reach(sup, w, h, low, high, n, x, y)
}

/// Every pixel next to `(x, y)` whose value reaches `low` is marked in `r`.
pub open spec fn edge_closed(sup: Seq<u8>, r: Seq<u8>, w: int, h: int, low: u8, x: int, y: int) -> bool {
    forall|x2: int, y2: int|
        #![trigger r[pix(w, x2, y2)]]
        in_grid(w, h, x2, y2) && adjacent8(x, y, x2, y2) && sup[pix(w, x2, y2)] >= low
            ==> r[pix(w, x2, y2)] == 255
}

/// `(x, y)` is one of the coordinates held in `st`.
pub open spec fn on_stack(st: Seq<(usize, usize)>, x: int, y: int) -> bool {
    exists|i: int| 0 <= i < st.len() && #[trigger] st[i].0 == x && st[i].1 == y
}

/// Once the strong pixels are marked and every marked pixel is closed,
/// every pixel connected to a strong pixel is marked.
proof fn lemma_edges_marked(sup: Seq<u8>, r: Seq<u8>, w: int, h: int, low: u8, high: u8, n: nat, x: int, y: int)
    requires
        forall|x1: int, y1: int| #![trigger r[pix(w, x1, y1)]]
            in_grid(w, h, x1, y1) && sup[pix(w, x1, y1)] >= high ==> r[pix(w, x1, y1)] == 255,
        forall|x1: int, y1: int| #![trigger r[pix(w, x1, y1)]]
            in_grid(w, h, x1, y1) && r[pix(w, x1, y1)] == 255 ==> edge_closed(sup, r, w, h, low, x1, y1),
        edge_reach(sup, w, h, low, high, n, x, y),
    ensures
        r[pix(w, x, y)] == 255,
    decreases n, 1nat,
{
    if sup[pix(w, x, y)] < high {
        let m = (n - 1) as nat;
        if edge_reach(sup, w, h, low, high, m, x - 1, y - 1) {
            lemma_edge_neighbor_marked(sup, r, w, h, low, high, m, x, y, x - 1, y - 1);
        } else if edge_reach(sup, w, h, low, high, m, x, y - 1) {
            lemma_edge_neighbor_marked(sup, r, w, h, low, high, m, x, y, x, y - 1);
        } else if edge_reach(sup, w, h, low, high, m, x + 1, y - 1) {
            lemma_edge_neighbor_marked(sup, r, w, h, low, high, m, x, y, x + 1, y - 1);
        } else if edge_reach(sup, w, h, low, high, m, x - 1, y) {
            lemma_edge_neighbor_marked(sup, r, w, h, low, high, m, x, y, x - 1, y);
        } else if edge_reach(sup, w, h, low, high, m, x + 1, y) {
            lemma_edge_neighbor_marked(sup, r, w, h, low, high, m, x, y, x + 1, y);
        } else if edge_reach(sup, w, h, low, high, m, x - 1, y + 1) {
            lemma_edge_neighbor_marked(sup, r, w, h, low, high, m, x, y, x - 1, y + 1);
        } else if edge_reach(sup, w, h, low, high, m, x, y + 1) {
            lemma_edge_neighbor_marked(sup, r, w, h, low, high, m, x, y, x, y + 1);
        } else {
            lemma_edge_neighbor_marked(sup, r, w, h, low, high, m, x, y, x + 1, y + 1);
        }
    }
}

/// Induction step of [`lemma_edges_marked`]: `(x, y)` is next to a marked,
/// closed pixel and is at least `low`, so it is marked.
proof fn lemma_edge_neighbor_marked(sup: Seq<u8>, r: Seq<u8>, w: int, h: int, low: u8, high: u8, m: nat, x: int, y: int, x2: int, y2: int)
    requires
        forall|x1: int, y1: int| #![trigger r[pix(w, x1, y1)]]
            in_grid(w, h, x1, y1) && sup[pix(w, x1, y1)] >= high ==> r[pix(w, x1, y1)] == 255,
        forall|x1: int, y1: int| #![trigger r[pix(w, x1, y1)]]
            in_grid(w, h, x1, y1) && r[pix(w, x1, y1)] == 255 ==> edge_closed(sup, r, w, h, low, x1, y1),
        edge_reach(sup, w, h, low, high, m, x2, y2),
        in_grid(w, h, x, y),
        sup[pix(w, x, y)] >= low,
        adjacent8(x, y, x2, y2),
    ensures
        r[pix(w, x, y)] == 255,
    decreases m, 2nat,
{
    lemma_edges_marked(sup, r, w, h, low, high, m, x2, y2);
    assert(edge_closed(sup, r, w, h, low, x2, y2));
    assert(adjacent8(x2, y2, x, y));
}

/// Double thresholding with edge tracking: strong pixels (at least `high`)
/// become edges, and so does every pixel at least `low` that is connected to a
/// strong pixel through such pixels (8-connectivity).  Edges are 255, the rest 0.
fn hysteresis_thresholding(suppressed: &[u8], width: usize, height: usize, low: u8, high: u8) -> (result: Vec<u8>)
    requires
        width * height <= suppressed@.len(),
    ensures
        result@.len() == width * height,
        forall|x: int, y: int| #![trigger result@[pix(width as int, x, y)]]
            in_grid(width as int, height as int, x, y) ==> result@[pix(width as int, x, y)] == (if is_edge(
                suppressed@, width as int, height as int, low, high, x, y) { 255u8 } else { 0u8 }),
{
    let ghost w = width as int;
    let ghost h = height as int;
    let ghost sup = suppressed@;
    let slen = suppressed.len();
    let n = width * height;
    let mut result: Vec<u8> = vec![0u8; n];
    let mut stack: Vec<(usize, usize)> = Vec::new();
    let ghost mut nmarked: nat = 0;
    assert(result@ =~= Seq::new(n as nat, |i: int| 0u8));
    proof {
        assert(count_value(Seq::new(0, |i: int| 0u8), 255) == 0);
        lemma_count_zero(n as nat);
        assert forall|x1: int, y1: int| #![trigger result@[pix(w, x1, y1)]]
            in_grid(w, h, x1, y1) implies result@[pix(w, x1, y1)] == 0 by {
            lemma_pix_bounds(w, h, x1, y1);
        }
    }
    // Mark the strong edges.
    let mut y: usize = 0;
    while y < height
        invariant
            w == width, h == height, sup == suppressed@,
            n == width * height,
            width * height <= suppressed@.len(),
            y <= height,
            result@.len() == n,
            nmarked == count_value(result@, 255),
            forall|x1: int, y1: int| #![trigger result@[pix(w, x1, y1)]]
                in_grid(w, h, x1, y1) ==> result@[pix(w, x1, y1)] == (if y1 < y && sup[pix(w, x1, y1)] >= high { 255u8 } else { 0u8 }),
            forall|i: int| 0 <= i < stack@.len() ==> in_grid(w, h, #[trigger] stack@[i].0 as int, stack@[i].1 as int)
                && result@[pix(w, stack@[i].0 as int, stack@[i].1 as int)] == 255,
            forall|x1: int, y1: int| #![trigger result@[pix(w, x1, y1)]]
                in_grid(w, h, x1, y1) && result@[pix(w, x1, y1)] == 255 ==> on_stack(stack@, x1, y1),
        decreases height - y,
    {
        let mut x: usize = 0;
        while x < width
            invariant
                w == width, h == height, sup == suppressed@,
                n == width * height,
                width * height <= suppressed@.len(),
                y < height,
                x <= width,
                result@.len() == n,
                nmarked == count_value(result@, 255),
                forall|x1: int, y1: int| #![trigger result@[pix(w, x1, y1)]]
                    in_grid(w, h, x1, y1) ==> result@[pix(w, x1, y1)] == (if (y1 < y || (y1 == y && x1 < x)) && sup[pix(w, x1, y1)] >= high { 255u8 } else { 0u8 }),
                forall|i: int| 0 <= i < stack@.len() ==> in_grid(w, h, #[trigger] stack@[i].0 as int, stack@[i].1 as int)
                    && result@[pix(w, stack@[i].0 as int, stack@[i].1 as int)] == 255,
                forall|x1: int, y1: int| #![trigger result@[pix(w, x1, y1)]]
                    in_grid(w, h, x1, y1) && result@[pix(w, x1, y1)] == 255 ==> on_stack(stack@, x1, y1),
            decreases width - x,
        {
            proof { lemma_pix_bounds(w, h, x as int, y as int); }
            let idx = y * width + x;
            if suppressed[idx] >= high {
                proof {
                    lemma_count_value_update(result@, idx as int, 255);
                    nmarked = nmarked + 1;
                }
                let ghost old_stack = stack@;
                let ghost old_result = result@;
                result.set(idx, 255);
                stack.push((x, y));
                proof {
                    assert(stack@[stack@.len() - 1].0 == x);
                    assert forall|x1: int, y1: int| #![trigger result@[pix(w, x1, y1)]]
                        in_grid(w, h, x1, y1) && result@[pix(w, x1, y1)] == 255 implies on_stack(stack@, x1, y1) by {
                        lemma_pix_bounds(w, h, x1, y1);
                        if x1 == x && y1 == y {
                            assert(stack@[stack@.len() - 1].1 == y);
                        } else {
                            if pix(w, x1, y1) == idx {
                                lemma_pix_injective(w, x1, y1, x as int, y as int);
                            }
                            assert(old_result[pix(w, x1, y1)] == 255);
                            let i = choose|i: int| 0 <= i < old_stack.len() && #[trigger] old_stack[i].0 == x1 && old_stack[i].1 == y1;
                            assert(stack@[i] == old_stack[i]);
                        }
                    }
                    assert forall|x1: int, y1: int| #![trigger result@[pix(w, x1, y1)]]
                        in_grid(w, h, x1, y1) implies result@[pix(w, x1, y1)] == (if (y1 < y || (y1 == y && x1 < x + 1)) && sup[pix(w, x1, y1)] >= high { 255u8 } else { 0u8 }) by {
                        lemma_pix_bounds(w, h, x1, y1);
                        if pix(w, x1, y1) == idx {
                            lemma_pix_injective(w, x1, y1, x as int, y as int);
                        }
                    }
                    assert forall|i: int| 0 <= i < stack@.len() implies in_grid(w, h, #[trigger] stack@[i].0 as int, stack@[i].1 as int)
                        && result@[pix(w, stack@[i].0 as int, stack@[i].1 as int)] == 255 by {
                        if i < old_stack.len() {
                            assert(stack@[i] == old_stack[i]);
                            lemma_pix_bounds(w, h, stack@[i].0 as int, stack@[i].1 as int);
                        }
                    }
                }
            } else {
                proof {
                    assert forall|x1: int, y1: int| #![trigger result@[pix(w, x1, y1)]]
                        in_grid(w, h, x1, y1) implies result@[pix(w, x1, y1)] == (if (y1 < y || (y1 == y && x1 < x + 1)) && sup[pix(w, x1, y1)] >= high { 255u8 } else { 0u8 }) by {
                        lemma_pix_bounds(w, h, x1, y1);
                        if x1 == x && y1 == y {
                        }
                    }
                }
            }
            x = x + 1;
        }
        y = y + 1;
    }
    // Every marked pixel is now on the stack; trace the weak edges from them.
    proof {
        assert forall|x1: int, y1: int| #![trigger result@[pix(w, x1, y1)]]
            in_grid(w, h, x1, y1) && result@[pix(w, x1, y1)] == 255 implies is_edge(sup, w, h, low, high, x1, y1) by {
            assert(edge_reach(sup, w, h, low, high, 0, x1, y1));
        }
        lemma_count_value_le_len(result@, 255);
    }
    while stack.len() > 0
        invariant
            w == width, h == height, sup == suppressed@,
            n == width * height,
            width * height <= suppressed@.len(),
            result@.len() == n,
            nmarked == count_value(result@, 255),
            nmarked <= n,
            forall|x1: int, y1: int| #![trigger result@[pix(w, x1, y1)]]
                in_grid(w, h, x1, y1) ==> result@[pix(w, x1, y1)] == 0 || result@[pix(w, x1, y1)] == 255,
            forall|x1: int, y1: int| #![trigger result@[pix(w, x1, y1)]]
                in_grid(w, h, x1, y1) && sup[pix(w, x1, y1)] >= high ==> result@[pix(w, x1, y1)] == 255,
            forall|x1: int, y1: int| #![trigger result@[pix(w, x1, y1)]]
                in_grid(w, h, x1, y1) && result@[pix(w, x1, y1)] == 255 ==> is_edge(sup, w, h, low, high, x1, y1),
            forall|i: int| 0 <= i < stack@.len() ==> in_grid(w, h, #[trigger] stack@[i].0 as int, stack@[i].1 as int)
                && result@[pix(w, stack@[i].0 as int, stack@[i].1 as int)] == 255,
            forall|x1: int, y1: int| #![trigger result@[pix(w, x1, y1)]]
                in_grid(w, h, x1, y1) && result@[pix(w, x1, y1)] == 255 ==> on_stack(stack@, x1, y1)
                    || edge_closed(sup, result@, w, h, low, x1, y1),
        decreases n - nmarked, stack@.len(),
    {
        let ghost stack_before = stack@;
        let (px, py) = stack.pop().unwrap();
        proof {
            assert(stack_before[stack_before.len() - 1] == (px, py));
            assert(in_grid(w, h, px as int, py as int));
            assert forall|x1: int, y1: int| #![trigger result@[pix(w, x1, y1)]]
                in_grid(w, h, x1, y1) && result@[pix(w, x1, y1)] == 255 && !(x1 == px && y1 == py) implies on_stack(stack@, x1, y1)
                    || edge_closed(sup, result@, w, h, low, x1, y1) by {
                if on_stack(stack_before, x1, y1) {
                    let i = choose|i: int| 0 <= i < stack_before.len() && #[trigger] stack_before[i].0 == x1 && stack_before[i].1 == y1;
                    assert(i < stack_before.len() - 1);
                    assert(stack@[i] == stack_before[i]);
                }
            }
        }
        let ghost marked_start = nmarked;
        let ghost len_start = stack_before.len();
        let mut dyi: usize = 0;
        while dyi < 3
            invariant
                w == width, h == height, sup == suppressed@,
                n == width * height,
                width * height <= suppressed@.len(),
                result@.len() == n,
                nmarked == count_value(result@, 255),
                nmarked <= n,
                in_grid(w, h, px as int, py as int),
                result@[pix(w, px as int, py as int)] == 255,
                dyi <= 3,
                nmarked > marked_start || (nmarked == marked_start && stack@.len() < len_start),
                forall|x1: int, y1: int| #![trigger result@[pix(w, x1, y1)]]
                    in_grid(w, h, x1, y1) ==> result@[pix(w, x1, y1)] == 0 || result@[pix(w, x1, y1)] == 255,
                forall|x1: int, y1: int| #![trigger result@[pix(w, x1, y1)]]
                    in_grid(w, h, x1, y1) && sup[pix(w, x1, y1)] >= high ==> result@[pix(w, x1, y1)] == 255,
                forall|x1: int, y1: int| #![trigger result@[pix(w, x1, y1)]]
                    in_grid(w, h, x1, y1) && result@[pix(w, x1, y1)] == 255 ==> is_edge(sup, w, h, low, high, x1, y1),
                forall|i: int| 0 <= i < stack@.len() ==> in_grid(w, h, #[trigger] stack@[i].0 as int, stack@[i].1 as int)
                    && result@[pix(w, stack@[i].0 as int, stack@[i].1 as int)] == 255,
                forall|x1: int, y1: int| #![trigger result@[pix(w, x1, y1)]]
                    in_grid(w, h, x1, y1) && result@[pix(w, x1, y1)] == 255 && !(x1 == px && y1 == py) ==> on_stack(stack@, x1, y1)
                        || edge_closed(sup, result@, w, h, low, x1, y1),
                forall|x2: int, y2: int| #![trigger result@[pix(w, x2, y2)]]
                    in_grid(w, h, x2, y2) && adjacent8(px as int, py as int, x2, y2) && y2 < py + dyi - 1
                        && sup[pix(w, x2, y2)] >= low ==> result@[pix(w, x2, y2)] == 255,
            decreases 3 - dyi,
        {
            let mut dxi: usize = 0;
            while dxi < 3
                invariant
                    w == width, h == height, sup == suppressed@,
                    n == width * height,
                    width * height <= suppressed@.len(),
                    result@.len() == n,
                    nmarked == count_value(result@, 255),
                    nmarked <= n,
                    in_grid(w, h, px as int, py as int),
                    result@[pix(w, px as int, py as int)] == 255,
                    dyi < 3,
                    dxi <= 3,
                    nmarked > marked_start || (nmarked == marked_start && stack@.len() < len_start),
                    forall|x1: int, y1: int| #![trigger result@[pix(w, x1, y1)]]
                        in_grid(w, h, x1, y1) ==> result@[pix(w, x1, y1)] == 0 || result@[pix(w, x1, y1)] == 255,
                    forall|x1: int, y1: int| #![trigger result@[pix(w, x1, y1)]]
                        in_grid(w, h, x1, y1) && sup[pix(w, x1, y1)] >= high ==> result@[pix(w, x1, y1)] == 255,
                    forall|x1: int, y1: int| #![trigger result@[pix(w, x1, y1)]]
                        in_grid(w, h, x1, y1) && result@[pix(w, x1, y1)] == 255 ==> is_edge(sup, w, h, low, high, x1, y1),
                    forall|i: int| 0 <= i < stack@.len() ==> in_grid(w, h, #[trigger] stack@[i].0 as int, stack@[i].1 as int)
                        && result@[pix(w, stack@[i].0 as int, stack@[i].1 as int)] == 255,
                    forall|x1: int, y1: int| #![trigger result@[pix(w, x1, y1)]]
                        in_grid(w, h, x1, y1) && result@[pix(w, x1, y1)] == 255 && !(x1 == px && y1 == py) ==> on_stack(stack@, x1, y1)
                            || edge_closed(sup, result@, w, h, low, x1, y1),
                    forall|x2: int, y2: int| #![trigger result@[pix(w, x2, y2)]]
                        in_grid(w, h, x2, y2) && adjacent8(px as int, py as int, x2, y2)
                            && (y2 < py + dyi - 1 || (y2 == py + dyi - 1 && x2 < px + dxi - 1))
                            && sup[pix(w, x2, y2)] >= low ==> result@[pix(w, x2, y2)] == 255,
                decreases 3 - dxi,
            {
                if !(dxi == 1 && dyi == 1) {
                    let sx = shifted(px, dxi, width);
                    let sy = shifted(py, dyi, height);
                    if let (Some(nx), Some(ny)) = (sx, sy) {
                        proof { lemma_pix_bounds(w, h, nx as int, ny as int); }
                        let nidx = ny * width + nx;
                        if suppressed[nidx] >= low && result[nidx] == 0 {
                            let ghost old_result = result@;
                            let ghost old_stack = stack@;
                            proof {
                                lemma_count_value_update(result@, nidx as int, 255);
                                nmarked = nmarked + 1;
                                lemma_count_value_le_len(result@.update(nidx as int, 255), 255);
                                // The new pixel is one step away from an edge pixel.
                                let k = choose|k: nat| #[trigger] edge_reach(sup, w, h, low, high, k, px as int, py as int);
                                assert(adjacent8(nx as int, ny as int, px as int, py as int));
                                lemma_edge_reach_step(sup, w, h, low, high, k, px as int, py as int, nx as int, ny as int);
                                assert(is_edge(sup, w, h, low, high, nx as int, ny as int));
                            }
                            result.set(nidx, 255);
                            stack.push((nx, ny));
                            proof {
                                assert(stack@[stack@.len() - 1].0 == nx && stack@[stack@.len() - 1].1 == ny);
                                assert forall|x1: int, y1: int| #![trigger result@[pix(w, x1, y1)]]
                                    in_grid(w, h, x1, y1) implies result@[pix(w, x1, y1)] == (if pix(w, x1, y1) == nidx { 255u8 } else { old_result[pix(w, x1, y1)] })
                                    && (pix(w, x1, y1) == nidx ==> x1 == nx && y1 == ny) by {
                                    lemma_pix_bounds(w, h, x1, y1);
                                    if pix(w, x1, y1) == nidx {
                                        lemma_pix_injective(w, x1, y1, nx as int, ny as int);
                                    }
                                }
                                assert forall|i: int| 0 <= i < stack@.len() implies in_grid(w, h, #[trigger] stack@[i].0 as int, stack@[i].1 as int)
                                    && result@[pix(w, stack@[i].0 as int, stack@[i].1 as int)] == 255 by {
                                    if i < old_stack.len() {
                                        assert(stack@[i] == old_stack[i]);
                                    }
                                }
                                assert forall|x1: int, y1: int| #![trigger result@[pix(w, x1, y1)]]
                                    in_grid(w, h, x1, y1) && result@[pix(w, x1, y1)] == 255 && !(x1 == px && y1 == py) implies on_stack(stack@, x1, y1)
                                        || edge_closed(sup, result@, w, h, low, x1, y1) by {
                                    if x1 == nx && y1 == ny {
                                    } else {
                                        assert(old_result[pix(w, x1, y1)] == 255);
                                        if on_stack(old_stack, x1, y1) {
                                            let i = choose|i: int| 0 <= i < old_stack.len() && #[trigger] old_stack[i].0 == x1 && old_stack[i].1 == y1;
                                            assert(stack@[i] == old_stack[i]);
                                        } else {
                                            assert(edge_closed(sup, old_result, w, h, low, x1, y1));
                                            assert forall|x2: int, y2: int| #![trigger result@[pix(w, x2, y2)]]
                                                in_grid(w, h, x2, y2) && adjacent8(x1, y1, x2, y2) && sup[pix(w, x2, y2)] >= low
                                                implies result@[pix(w, x2, y2)] == 255 by {
                                                assert(old_result[pix(w, x2, y2)] == 255);
                                            }
                                        }
                                    }
                                }
                            }
                        }
                    }
                }
                dxi = dxi + 1;
            }
            dyi = dyi + 1;
        }
    }
    proof {
        assert forall|x: int, y: int| #![trigger result@[pix(w, x, y)]]
            in_grid(w, h, x, y) implies result@[pix(w, x, y)] == (if is_edge(sup, w, h, low, high, x, y) { 255u8 } else { 0u8 }) by {
            if is_edge(sup, w, h, low, high, x, y) {
                let k = choose|k: nat| #[trigger] edge_reach(sup, w, h, low, high, k, x, y);
                assert forall|x1: int, y1: int| #![trigger result@[pix(w, x1, y1)]]
                    in_grid(w, h, x1, y1) && result@[pix(w, x1, y1)] == 255 implies edge_closed(sup, result@, w, h, low, x1, y1) by {
                    if on_stack(stack@, x1, y1) {
                        let i = choose|i: int| 0 <= i < stack@.len() && #[trigger] stack@[i].0 == x1 && stack@[i].1 == y1;
                    }
                }
                lemma_edges_marked(sup, result@, w, h, low, high, k, x, y);
            }
        }
    }
    result
}


proof fn lemma_count_zero(n: nat)
    ensures
        count_value(Seq::new(n, |i: int| 0u8), 255) == 0,
    decreases n,
{
    if n > 0 {
        assert(Seq::new(n, |i: int| 0u8).drop_last() =~= Seq::new((n - 1) as nat, |i: int| 0u8));
        lemma_count_zero((n - 1) as nat);
    }
}


// ---------------------------------------------------------------------------
// Bit depth, resizing and blur parameters
// ---------------------------------------------------------------------------

/// Bit-depth conversion of raw sensor data.
pub struct ImageUtility;

impl ImageUtility {
    /// Keeps the high byte of every 16-bit sample.
    pub fn convert_16bpp_to_8bpp(data_16bit: &[u16]) -> (r: Vec<u8>)
        ensures
            r@.len() == data_16bit@.len(),
            forall|i: int| 0 <= i < r@.len() ==> r@[i] as int == #[trigger] data_16bit@[i] as int / 256,
    {
        let mut r: Vec<u8> = Vec::new();
        let mut i: usize = 0;
        while i < data_16bit.len()
            invariant
                i <= data_16bit@.len(),
                r@.len() == i,
                forall|j: int| 0 <= j < i ==> r@[j] as int == #[trigger] data_16bit@[j] as int / 256,
            decreases data_16bit@.len() - i,
        {
            let v = data_16bit[i];
            let hi = v >> 8;
            proof {
                assert(v >> 8 == v / 256) by (bit_vector);
            }
            r.push(hi as u8);
            i = i + 1;
        }
        r
    }
}

/// Helpers that prepare an image for star detection.
pub struct DetectionUtility;

/// Bicubic resampling to a fixed output size.
pub struct ResizeBicubic {
    new_width: usize,
    new_height: usize,
}

impl ResizeBicubic {
    /// The output width and height.
    pub closed spec fn size(&self) -> (usize, usize) {
        (self.new_width, self.new_height)
    }

    /// The output width.
    pub fn new_width(&self) -> (r: usize)
        ensures
            r == self.size().0,
    {
        self.new_width
    }

    /// The output height.
    pub fn new_height(&self) -> (r: usize)
        ensures
            r == self.size().1,
    {
        self.new_height
    }

    pub fn new(new_width: usize, new_height: usize) -> (r: Self)
        ensures
            r.size() == (new_width, new_height),
    {
        Self { new_width, new_height }
    }
}

/// Circle test on blob outlines.
pub struct SimpleShapeChecker;

/// Gaussian blur with a radius-derived kernel.
pub struct FastGaussianBlur {
    radius: i32,
}

impl FastGaussianBlur {
    /// The configured radius.
    pub closed spec fn spec_radius(&self) -> i32 {
        self.radius
    }

    /// The configured radius.
    pub fn radius(&self) -> (r: i32)
        ensures
            r == self.spec_radius(),
    {
        self.radius
    }

    pub fn new() -> (r: Self)
        ensures
            r.spec_radius() == 1,
    {
        Self { radius: 1 }
    }
}

// ---------------------------------------------------------------------------
// Binary dilation
// ---------------------------------------------------------------------------

/// Some pixel of the 3x3 neighbourhood of `(x, y)` (itself included) inside
/// the grid is non-zero.
pub open spec fn dilated(img: Seq<u8>, w: int, h: int, x: int, y: int) -> bool {
    exists|x2: int, y2: int| #![trigger img[pix(w, x2, y2)]]
        in_grid(w, h, x2, y2) && -1 <= x2 - x <= 1 && -1 <= y2 - y <= 1 && img[pix(w, x2, y2)] > 0
}

/// Dilation of a binary image with a 3x3 square.
pub struct BinaryDilation3x3;

impl BinaryDilation3x3 {
    /// Sets every grid pixel to 255 when its 3x3 neighbourhood held a non-zero
    /// pixel and to 0 otherwise; entries past the grid are left alone.
    pub fn apply_in_place(&self, image: &mut [u8], width: usize, height: usize)
        requires
            width * height <= old(image)@.len(),
        ensures
            final(image)@.len() == old(image)@.len(),
            forall|x: int, y: int| #![trigger final(image)@[pix(width as int, x, y)]]
                in_grid(width as int, height as int, x, y) ==> final(image)@[pix(width as int, x, y)] == (if dilated(
                    old(image)@, width as int, height as int, x, y) { 255u8 } else { 0u8 }),
            forall|i: int| width * height <= i < old(image)@.len() ==> #[trigger] final(image)@[i] == old(image)@[i],
    {
        let ghost w = width as int;
        let ghost h = height as int;
        let original = vstd::slice::slice_to_vec(image);
        let ghost img = original@;
        let slen = image.len();
        let mut y: usize = 0;
        while y < height
            invariant
                w == width, h == height,
                img == old(image)@,
                original@ == img,
                width * height <= img.len(),
                img.len() == slen,
                image@.len() == img.len(),
                y <= height,
                forall|x1: int, y1: int| #![trigger image@[pix(w, x1, y1)]]
                    in_grid(w, h, x1, y1) && y1 < y ==> image@[pix(w, x1, y1)] == (if dilated(img, w, h, x1, y1) { 255u8 } else { 0u8 }),
                forall|i: int| pix(w, 0, y as int) <= i < img.len() ==> #[trigger] image@[i] == img[i],
            decreases height - y,
        {
            let mut x: usize = 0;
            while x < width
                invariant
                    w == width, h == height,
                    img == old(image)@,
                    original@ == img,
                    width * height <= img.len(),
                    img.len() == slen,
                    image@.len() == img.len(),
                    y < height,
                    x <= width,
                    forall|x1: int, y1: int| #![trigger image@[pix(w, x1, y1)]]
                        in_grid(w, h, x1, y1) && (y1 < y || (y1 == y && x1 < x)) ==> image@[pix(w, x1, y1)] == (if dilated(img, w, h, x1, y1) { 255u8 } else { 0u8 }),
                    forall|i: int| pix(w, x as int, y as int) <= i < img.len() ==> #[trigger] image@[i] == img[i],
                decreases width - x,
            {
                let mut has_neighbor = false;
                let mut dy: usize = 0;
                while dy < 3 && !has_neighbor
                    invariant
                        w == width, h == height,
                        original@ == img,
                        width * height <= img.len(),
                        img.len() == slen,
                        x < width, y < height,
                        dy <= 3,
                        has_neighbor ==> dilated(img, w, h, x as int, y as int),
                        !has_neighbor ==> forall|x2: int, y2: int| #![trigger img[pix(w, x2, y2)]]
                            in_grid(w, h, x2, y2) && -1 <= x2 - x <= 1 && -1 <= y2 - y < dy as int - 1 ==> img[pix(w, x2, y2)] == 0,
                    decreases 3 - dy,
                {
                    match shifted(y, dy, height) {
                        Some(ny) => {
                            let mut dx: usize = 0;
                            while dx < 3 && !has_neighbor
                                invariant
                                    w == width, h == height,
                                    original@ == img,
                                    width * height <= img.len(),
                                    img.len() == slen,
                                    x < width, y < height,
                                    dy < 3, dx <= 3,
                                    ny < height, ny == y + dy - 1,
                                    has_neighbor ==> dilated(img, w, h, x as int, y as int),
                                    !has_neighbor ==> forall|x2: int, y2: int| #![trigger img[pix(w, x2, y2)]]
                                        in_grid(w, h, x2, y2) && -1 <= x2 - x <= 1 && (-1 <= y2 - y < dy as int - 1
                                            || (y2 == ny && x2 - x < dx as int - 1)) ==> img[pix(w, x2, y2)] == 0,
                                decreases 3 - dx,
                            {
                                match shifted(x, dx, width) {
                                    Some(nx) => {
                                        proof {
                                            lemma_pix_bounds(w, h, nx as int, ny as int);
                                        }
                                        if original[ny * width + nx] > 0 {
                                            has_neighbor = true;
                                        }
                                    }
                                    None => {}
                                }
                                dx = dx + 1;
                            }
                        }
                        None => {}
                    }
                    dy = dy + 1;
                }
                proof {
                    lemma_pix_bounds(w, h, x as int, y as int);
                    if !has_neighbor {
                        assert(!dilated(img, w, h, x as int, y as int));
                    }
                }
                let ghost before = image@;
                image[y * width + x] = if has_neighbor { 255 } else { 0 };
                proof {
                    lemma_pix_step(w, x as int, y as int);
                    assert forall|x1: int, y1: int| #![trigger image@[pix(w, x1, y1)]]
                        in_grid(w, h, x1, y1) && (y1 < y || (y1 == y && x1 < x + 1)) implies image@[pix(w, x1, y1)] == (if dilated(img, w, h, x1, y1) { 255u8 } else { 0u8 }) by {
                        lemma_pix_bounds(w, h, x1, y1);
                        if !(x1 == x && y1 == y) {
                            if pix(w, x1, y1) == pix(w, x as int, y as int) {
                                lemma_pix_injective(w, x1, y1, x as int, y as int);
                            }
                            assert(image@[pix(w, x1, y1)] == before[pix(w, x1, y1)]);
                        }
                    }
                }
                x = x + 1;
            }
            proof {
                lemma_pix_step(w, 0, y as int);
            }
            y = y + 1;
        }
    }
}

// ---------------------------------------------------------------------------
// SIS threshold
// ---------------------------------------------------------------------------

/// Weight of pixel `(x, y)`: the larger of its horizontal and vertical
/// central differences.
pub open spec fn sis_weight(img: Seq<u8>, w: int, x: int, y: int) -> int {
    let ex = px(img, w, x + 1, y) - px(img, w, x - 1, y);
    let ey = px(img, w, x, y + 1) - px(img, w, x, y - 1);
    let ax = if ex < 0 { -ex } else { ex };
    let ay = if ey < 0 { -ey } else { ey };
    if ax > ay { ax } else { ay }
}

/// Sums of weights and of weighted values over pixels `1..n` of row `y`.
pub open spec fn sis_row(img: Seq<u8>, w: int, y: int, n: int) -> (int, int)
    decreases n,
{
    if n <= 1 {
        (0, 0)
    } else {
        let (a, b) = sis_row(img, w, y, n - 1);
        let wt = sis_weight(img, w, n - 1, y);
        (a + wt, b + wt * px(img, w, n - 1, y))
    }
}

/// Sums of weights and of weighted values over the interior pixels of rows `1..m`.
pub open spec fn sis_rows(img: Seq<u8>, w: int, m: int) -> (int, int)
    decreases m,
{
    if m <= 1 {
        (0, 0)
    } else {
        let (a, b) = sis_rows(img, w, m - 1);
        let (c, d) = sis_row(img, w, m - 1, w - 1);
        (a + c, b + d)
    }
}

/// The SIS threshold: the gradient-weighted mean of the interior pixels,
/// rounded half up, or 0 when every weight is 0.
pub open spec fn sis_threshold(img: Seq<u8>, w: int, h: int) -> int {
    let (ws, ts) = sis_rows(img, w, h - 1);
    if ws > 0 {
        (2 * ts + ws) / (2 * ws)
    } else {
        0
    }
}

/// Weighted mean of the interior pixels, from their gradient weights.
fn calculate_sis_threshold(image: &[u8], width: usize, height: usize) -> (t: u8)
    requires
        height >= 1,
        height >= 3 ==> width >= 1,
        width >= 3 && height >= 3 ==> width * height <= image@.len() + 1,
    ensures
        t as int == sis_threshold(image@, width as int, height as int),
{
    let ghost img = image@;
    let ghost w = width as int;
    let ghost h = height as int;
    let slen = image.len();
    let mut weight_total: u128 = 0;
    let mut total: u128 = 0;
    let mut y: usize = 1;
    while y + 1 < height
        invariant
            img == image@,
            slen == img.len(),
            (width < 3 || height < 3) ==> weight_total == 0 && total == 0,
            w == width, h == height,
            height >= 1,
            height >= 3 ==> width >= 1,
            width >= 3 && height >= 3 ==> width * height <= image@.len() + 1,
            1 <= y <= height,
            y <= height - 1 || height == 1,
            (weight_total as int, total as int) == sis_rows(img, w, y as int),
            weight_total <= 255 * (y * w),
            total <= 255 * weight_total,
        decreases height - y,
    {
        let mut x: usize = 1;
        let ghost row_start = (weight_total as int, total as int);
        while x < width - 1
            invariant
                img == image@,
                width >= 2 ==> x <= width - 1,
                slen == img.len(),
                (width < 3 || height < 3) ==> weight_total == 0 && total == 0,
                w == width, h == height,
                width >= 1,
                2 <= y + 1 < height,
                width >= 3 && height >= 3 ==> width * height <= image@.len() + 1,
                1 <= x <= width,
                row_start == sis_rows(img, w, y as int),
                (weight_total as int - row_start.0, total as int - row_start.1) == sis_row(img, w, y as int, x as int),
                weight_total <= 255 * (y * w + x),
                total <= 255 * weight_total,
            decreases width - x,
        {
            proof {
                assert(width >= 3 && height >= 3);
                assert((y + 1) * w + x + 2 <= w * h) by (nonlinear_arith)
                    requires
                        y + 1 < h,
                        x + 1 < w,
                ;
                assert((y + 1) * w == y * w + w) by (nonlinear_arith);
                assert((y - 1) * w == y * w - w) by (nonlinear_arith);
                assert(y * w >= w) by (nonlinear_arith)
                    requires
                        y >= 1,
                        w >= 0,
                ;
            }
            let idx = y * width + x;
            let c = image[idx] as i32;
            let l = image[idx - 1] as i32;
            let r = image[idx + 1] as i32;
            let u = image[idx - width] as i32;
            let d = image[idx + width] as i32;
            let ex = if r > l { r - l } else { l - r };
            let ey = if d > u { d - u } else { u - d };
            let weight = if ex > ey { ex } else { ey };
            proof {
                assert(c == px(img, w, x as int, y as int));
                assert(l == px(img, w, x as int - 1, y as int));
                assert(r == px(img, w, x as int + 1, y as int));
                assert(u == px(img, w, x as int, y as int - 1)) by {
                    assert(pix(w, x as int, y as int - 1) == idx - w);
                }
                assert(d == px(img, w, x as int, y as int + 1)) by {
                    assert(pix(w, x as int, y as int + 1) == idx + w);
                }
                assert(weight == sis_weight(img, w, x as int, y as int));
                assert(0 <= weight * c <= 255 * weight) by (nonlinear_arith)
                    requires
                        0 <= weight <= 255,
                        0 <= c <= 255,
                ;
            }
            weight_total = weight_total + weight as u128;
            total = total + (weight as u128) * (c as u128);
            x = x + 1;
        }
        proof {
            assert(y * w + x <= (y + 1) * w) by (nonlinear_arith)
                requires
                    x <= w,
            ;
            assert(sis_row(img, w, y as int, x as int) == sis_row(img, w, y as int, w - 1));
            assert(sis_rows(img, w, y as int + 1) == (row_start.0 + sis_row(img, w, y as int, w - 1).0,
                row_start.1 + sis_row(img, w, y as int, w - 1).1));
        }
        y = y + 1;
    }
    if weight_total > 0 {
        proof {
            assert(y * w <= w * h) by (nonlinear_arith)
                requires
                    y <= h,
                    0 <= w,
            ;
            if width >= 3 && height >= 3 {
                assert(w * h <= slen + 1);
                assert(slen <= usize::MAX);
                assert(weight_total <= 255 * (w * h));
            }
            assert(weight_total <= 255 * 0x1_0000_0000_0000_0000);
        }
        let q = (2 * total + weight_total) / (2 * weight_total);
        proof {
            assert(q <= 255) by (nonlinear_arith)
                requires
                    weight_total > 0,
                    total <= 255 * weight_total,
                    q == (2 * total + weight_total) / (2 * weight_total),
            ;
        }
        q as u8
    } else {
        0
    }
}

/// Binarisation at the SIS threshold.
pub struct SISThreshold;

impl SISThreshold {
    /// Sets every entry above the SIS threshold of the image to 255 and every
    /// other entry to 0.
    pub fn apply_in_place(&self, image: &mut [u8], width: usize, height: usize)
        requires
            height >= 1,
            height >= 3 ==> width >= 1,
            width >= 3 && height >= 3 ==> width * height <= old(image)@.len() + 1,
        ensures
            final(image)@.len() == old(image)@.len(),
            forall|i: int| 0 <= i < old(image)@.len() ==> #[trigger] final(image)@[i] == (if old(image)@[i] as int > sis_threshold(
                old(image)@, width as int, height as int) { 255u8 } else { 0u8 }),
    {
        let threshold = calculate_sis_threshold(image, width, height);
        let ghost img = image@;
        let n = image.len();
        let mut i: usize = 0;
        while i < n
            invariant
                n == image@.len(),
                img.len() == n,
                threshold as int == sis_threshold(img, width as int, height as int),
                i <= n,
                forall|j: int| 0 <= j < i ==> #[trigger] image@[j] == (if img[j] as int > threshold { 255u8 } else { 0u8 }),
                forall|j: int| i <= j < n ==> #[trigger] image@[j] == img[j],
            decreases n - i,
        {
            let v = image[i];
            image[i] = if v > threshold { 255 } else { 0 };
            i = i + 1;
        }
    }
}

// ---------------------------------------------------------------------------
// Median filter
// ---------------------------------------------------------------------------

/// The in-grid values among the first `k` cells of the 3x3 window around
/// `(x, y)`, cells taken row by row from the top-left one.
pub open spec fn window_values(img: Seq<u8>, w: int, h: int, x: int, y: int, k: int) -> Seq<u8>
    decreases k,
{
    if k <= 0 {
        Seq::empty()
    } else {
        let s = window_values(img, w, h, x, y, k - 1);
        let dx = (k - 1) % 3 - 1;
        let dy = (k - 1) / 3 - 1;
        if in_grid(w, h, x + dx, y + dy) {
            s.push(img[pix(w, x + dx, y + dy)])
        } else {
            s
        }
    }
}

/// Number of entries of `s` below `v`.
pub open spec fn count_below(s: Seq<u8>, v: int) -> nat
    decreases s.len(),
{
    if s.len() == 0 {
        0
    } else {
        count_below(s.drop_last(), v) + if (s.last() as int) < v { 1nat } else { 0nat }
    }
}

/// Number of entries of `s` at most `v`.
pub open spec fn count_at_most(s: Seq<u8>, v: int) -> nat
    decreases s.len(),
{
    if s.len() == 0 {
        0
    } else {
        count_at_most(s.drop_last(), v) + if (s.last() as int) <= v { 1nat } else { 0nat }
    }
}

/// `r` is the entry at position `k` (from 0) of `s` sorted ascending.
pub open spec fn kth_smallest(s: Seq<u8>, k: int, r: int) -> bool {
    count_below(s, r) <= k < count_at_most(s, r)
}

/// Entries below `c + 1` are those at most `c`.
proof fn lemma_count_below_succ(s: Seq<u8>, c: int)
    ensures
        count_below(s, c + 1) == count_at_most(s, c),
    decreases s.len(),
{
    if s.len() > 0 {
        lemma_count_below_succ(s.drop_last(), c);
    }
}

/// Every entry is at most 255 and none is below 0.
proof fn lemma_count_extremes(s: Seq<u8>)
    ensures
        count_at_most(s, 255) == s.len(),
        count_below(s, 0) == 0,
    decreases s.len(),
{
    if s.len() > 0 {
        lemma_count_extremes(s.drop_last());
    }
}

/// More entries at most `c` than below it means `c` occurs.
proof fn lemma_count_gap(s: Seq<u8>, c: int)
    requires
        count_below(s, c) < count_at_most(s, c),
    ensures
        exists|i: int| 0 <= i < s.len() && s[i] as int == c,
    decreases s.len(),
{
    if (s.last() as int) == c {
        assert(s[s.len() - 1] as int == c);
    } else {
        lemma_count_gap(s.drop_last(), c);
        let i = choose|i: int| 0 <= i < s.drop_last().len() && s.drop_last()[i] as int == c;
        assert(s[i] == s.drop_last()[i]);
    }
}

/// Searching upward from `c`, where fewer than `k + 1` entries lie below, meets
/// the entry at sorted position `k`.
proof fn lemma_kth_from(s: Seq<u8>, k: int, c: int)
    requires
        0 <= k < s.len(),
        0 <= c <= 255,
        count_below(s, c) <= k,
    ensures
        exists|i: int| 0 <= i < s.len() && kth_smallest(s, k, s[i] as int),
    decreases 255 - c,
{
    lemma_count_extremes(s);
    if count_at_most(s, c) > k {
        lemma_count_gap(s, c);
        let i = choose|i: int| 0 <= i < s.len() && s[i] as int == c;
        assert(kth_smallest(s, k, s[i] as int));
    } else {
        lemma_count_below_succ(s, c);
        lemma_kth_from(s, k, c + 1);
    }
}

/// Counts the entries of `values` below and at most `c`.
fn count_around(values: &Vec<u8>, c: u8) -> (r: (usize, usize))
    ensures
        r.0 == count_below(values@, c as int),
        r.1 == count_at_most(values@, c as int),
{
    let mut below: usize = 0;
    let mut at_most: usize = 0;
    let mut j: usize = 0;
    while j < values.len()
        invariant
            j <= values@.len(),
            below == count_below(values@.take(j as int), c as int),
            at_most == count_at_most(values@.take(j as int), c as int),
            below <= j,
            at_most <= j,
        decreases values@.len() - j,
    {
        proof {
            assert(values@.take(j as int + 1).drop_last() =~= values@.take(j as int));
        }
        if values[j] < c {
            below = below + 1;
        }
        if values[j] <= c {
            at_most = at_most + 1;
        }
        j = j + 1;
    }
    proof {
        assert(values@.take(j as int) =~= values@);
    }
    (below, at_most)
}

/// The entry at position `k` of `values` sorted ascending.
fn kth_value(values: &Vec<u8>, k: usize) -> (r: u8)
    requires
        k < values@.len(),
    ensures
        kth_smallest(values@, k as int, r as int),
{
    proof {
        lemma_count_extremes(values@);
        lemma_kth_from(values@, k as int, 0);
    }
    let mut i: usize = 0;
    while i < values.len()
        invariant
            k < values@.len(),
            i <= values@.len(),
            exists|j: int| i <= j < values@.len() && kth_smallest(values@, k as int, values@[j] as int),
        decreases values@.len() - i,
    {
        let c = values[i];
        let (below, at_most) = count_around(values, c);
        if below <= k && k < at_most {
            return c;
        }
        proof {
            let j = choose|j: int| i <= j < values@.len() && kth_smallest(values@, k as int, values@[j] as int);
            assert(j != i);
        }
        i = i + 1;
    }
    proof {
        assert(false);
    }
    0
}

/// 3x3 median filter.
pub struct Median;

impl Median {
    /// Replaces every pixel by the median of the in-grid values of its 3x3
    /// window: the entry at position `len / 2` of those values sorted ascending.
    pub fn apply(&self, image: &[u8], width: usize, height: usize) -> (r: Vec<u8>)
        requires
            width * height <= image@.len(),
        ensures
            r@.len() == width * height,
            forall|x: int, y: int| #![trigger r@[pix(width as int, x, y)]]
                in_grid(width as int, height as int, x, y) ==> {
                    let v = window_values(image@, width as int, height as int, x, y, 9);
                    kth_smallest(v, (v.len() / 2) as int, r@[pix(width as int, x, y)] as int)
                },
    {
        let ghost w = width as int;
        let ghost h = height as int;
        let ghost img = image@;
        let slen = image.len();
        let n = width * height;
        let mut result: Vec<u8> = vec![0u8; n];
        let mut y: usize = 0;
        while y < height
            invariant
                w == width, h == height, img == image@,
                n == width * height,
                width * height <= image@.len(), slen == image@.len(),
                result@.len() == n,
                y <= height,
                forall|x1: int, y1: int| #![trigger result@[pix(w, x1, y1)]]
                    in_grid(w, h, x1, y1) && y1 < y ==> {
                        let v = window_values(img, w, h, x1, y1, 9);
                        kth_smallest(v, (v.len() / 2) as int, result@[pix(w, x1, y1)] as int)
                    },
            decreases height - y,
        {
            let mut x: usize = 0;
            while x < width
                invariant
                    w == width, h == height, img == image@,
                    n == width * height,
                    width * height <= image@.len(), slen == image@.len(),
                    result@.len() == n,
                    y < height,
                    x <= width,
                    forall|x1: int, y1: int| #![trigger result@[pix(w, x1, y1)]]
                        in_grid(w, h, x1, y1) && (y1 < y || (y1 == y && x1 < x)) ==> {
                            let v = window_values(img, w, h, x1, y1, 9);
                            kth_smallest(v, (v.len() / 2) as int, result@[pix(w, x1, y1)] as int)
                        },
                decreases width - x,
            {
                let mut values: Vec<u8> = Vec::new();
                let mut dy: usize = 0;
                while dy < 3
                    invariant
                        w == width, h == height, img == image@,
                        width * height <= image@.len(), slen == image@.len(),
                        x < width, y < height,
                        dy <= 3,
                        values@ == window_values(img, w, h, x as int, y as int, 3 * dy as int),
                    decreases 3 - dy,
                {
                    let mut dx: usize = 0;
                    while dx < 3
                        invariant
                            w == width, h == height, img == image@,
                            width * height <= image@.len(), slen == image@.len(),
                            x < width, y < height,
                            dy < 3,
                            dx <= 3,
                            values@ == window_values(img, w, h, x as int, y as int, 3 * dy as int + dx as int),
                        decreases 3 - dx,
                    {
                        let k: Ghost<int> = Ghost(3 * dy as int + dx as int);
                        proof {
                            assert(k@ % 3 == dx as int && k@ / 3 == dy as int);
                        }
                        match (shifted(x, dx, width), shifted(y, dy, height)) {
                            (Some(nx), Some(ny)) => {
                                proof {
                                    lemma_pix_bounds(w, h, nx as int, ny as int);
                                }
                                values.push(image[ny * width + nx]);
                            }
                            _ => {}
                        }
                        dx = dx + 1;
                    }
                    dy = dy + 1;
                }
                proof {
                    lemma_pix_bounds(w, h, x as int, y as int);
                    assert(window_values(img, w, h, x as int, y as int, 5).len() >= 1) by {
                        assert(window_values(img, w, h, x as int, y as int, 5)
                            == window_values(img, w, h, x as int, y as int, 4).push(img[pix(w, x as int, y as int)]));
                    }
                    lemma_window_grows(img, w, h, x as int, y as int, 5, 9);
                }
                let m = kth_value(&values, values.len() / 2);
                let ghost before = result@;
                result.set(y * width + x, m);
                proof {
                    assert forall|x1: int, y1: int| #![trigger result@[pix(w, x1, y1)]]
                        in_grid(w, h, x1, y1) && (y1 < y || (y1 == y && x1 < x + 1)) implies {
                            let v = window_values(img, w, h, x1, y1, 9);
                            kth_smallest(v, (v.len() / 2) as int, result@[pix(w, x1, y1)] as int)
                        } by {
                        lemma_pix_bounds(w, h, x1, y1);
                        if !(x1 == x && y1 == y) {
                            if pix(w, x1, y1) == pix(w, x as int, y as int) {
                                lemma_pix_injective(w, x1, y1, x as int, y as int);
                            }
                            assert(result@[pix(w, x1, y1)] == before[pix(w, x1, y1)]);
                        }
                    }
                }
                x = x + 1;
            }
            y = y + 1;
        }
        result
    }
}

/// Taking more window cells never shortens the list of values.
proof fn lemma_window_grows(img: Seq<u8>, w: int, h: int, x: int, y: int, j: int, k: int)
    requires
        j <= k,
    ensures
        window_values(img, w, h, x, y, j).len() <= window_values(img, w, h, x, y, k).len(),
    decreases k - j,
{
    if j < k {
        lemma_window_grows(img, w, h, x, y, j, k - 1);
    }
}

// ---------------------------------------------------------------------------
// Blob counting
// ---------------------------------------------------------------------------

/// One connected group of foreground pixels.
#[derive(Debug, Clone, Copy)]
pub struct Blob {
    pub rectangle: Rectangle,
    pub id: u32,
    pub area: usize,
}

/// An axis-aligned pixel rectangle: top-left corner and size.
#[derive(Debug, Clone, Copy)]
pub struct Rectangle {
    pub x: i32,
    pub y: i32,
    pub width: i32,
    pub height: i32,
}

/// Blob `b` is label `b.id` of `lab`: it counts the label's pixels and its
/// rectangle is their bounding box.
pub open spec fn blob_matches(lab: Seq<u32>, w: int, h: int, b: Blob) -> bool {
    &&& b.id > 0
    &&& b.area > 0
    &&& b.area as int == count_label(lab, b.id)
    &&& label_box(lab, w, h, b.id, b.rectangle.x as int, b.rectangle.y as int,
        b.rectangle.x + b.rectangle.width - 1, b.rectangle.y + b.rectangle.height - 1)
}

/// `blobs` lists every positive label of `lab` once, in increasing order of label.
pub open spec fn blobs_of_labeling(lab: Seq<u32>, w: int, h: int, blobs: Seq<Blob>) -> bool {
    &&& forall|i: int| 0 <= i < blobs.len() ==> blob_matches(lab, w, h, #[trigger] blobs[i])
    &&& forall|i: int, j: int| 0 <= i < j < blobs.len() ==> (#[trigger] blobs[i]).id < (#[trigger] blobs[j]).id
    &&& forall|x: int, y: int| #![trigger lab[pix(w, x, y)]]
        in_grid(w, h, x, y) && lab[pix(w, x, y)] > 0 ==> exists|i: int| 0 <= i < blobs.len() && (#[trigger] blobs[i]).id == lab[pix(w, x, y)]
}

/// `blobs` are the 4-connected components of the non-zero pixels of `img`,
/// one blob per component, with its pixel count and bounding box.
pub open spec fn blobs_describe_components(img: Seq<u8>, w: int, h: int, blobs: Seq<Blob>) -> bool {
    exists|lab: Seq<u32>| component_labeling(img, w, h, lab) && #[trigger] blobs_of_labeling(lab, w, h, blobs)
}

/// Finds the connected groups of non-zero pixels of a binary image.
pub struct BlobCounter {
    blobs: Vec<Blob>,
}

impl BlobCounter {
    /// The blobs found by the last processed image.
    pub closed spec fn blobs(&self) -> Seq<Blob> {
        self.blobs@
    }

    pub fn new() -> (c: Self)
        ensures
            c.blobs() == Seq::<Blob>::empty(),
    {
        Self { blobs: Vec::new() }
    }

    /// Labels the 4-connected components of the non-zero pixels of a row-major
    /// `width` by `height` image and records one blob per component.
    pub fn process_image(&mut self, image: &[u8], width: usize, height: usize)
        requires
            width * height <= image@.len(),
            width * height < u32::MAX,
            width <= i32::MAX,
            height <= i32::MAX,
        ensures
            blobs_describe_components(image@, width as int, height as int, final(self).blobs()),
    {
        let ghost w = width as int;
        let ghost h = height as int;
        self.blobs.clear();
        let (labels, area, minx, miny, maxx, maxy) = label_components(image, width, height);
        let ghost lab = labels@;
        let n = area.len();
        let mut blobs: Vec<Blob> = Vec::new();
        let mut l: usize = 1;
        while l < n
            invariant
                n == area@.len(),
                1 <= l <= n,
                label_tallies(lab, w, h, area@, minx@, miny@, maxx@, maxy@),
                w == width, h == height,
                width <= i32::MAX,
                height <= i32::MAX,
                forall|i: int| 0 <= i < blobs@.len() ==> blob_matches(lab, w, h, #[trigger] blobs@[i]) && blobs@[i].id < l,
                forall|i: int, j: int| 0 <= i < j < blobs@.len() ==> (#[trigger] blobs@[i]).id < (#[trigger] blobs@[j]).id,
                forall|k: int| 1 <= k < l && #[trigger] area@[k] > 0 ==> exists|i: int| 0 <= i < blobs@.len() && (#[trigger] blobs@[i]).id == k,
            decreases n - l,
        {
            if area[l] > 0 {
                proof {
                    let k = l as int;
                    let x0 = minx@[k] as int;
                    let y0 = miny@[k] as int;
                    let x1 = maxx@[k] as int;
                    let y1 = maxy@[k] as int;
                    assert(label_box(lab, w, h, k as u32, x0, y0, x1, y1));
                    let (a0, b0) = choose|x: int, y: int| #![trigger lab[pix(w, x, y)]] in_grid(w, h, x, y) && lab[pix(w, x, y)] == k as u32 && x == x0;
                    let (a1, b1) = choose|x: int, y: int| #![trigger lab[pix(w, x, y)]] in_grid(w, h, x, y) && lab[pix(w, x, y)] == k as u32 && x == x1;
                    let (a2, b2) = choose|x: int, y: int| #![trigger lab[pix(w, x, y)]] in_grid(w, h, x, y) && lab[pix(w, x, y)] == k as u32 && y == y0;
                    let (a3, b3) = choose|x: int, y: int| #![trigger lab[pix(w, x, y)]] in_grid(w, h, x, y) && lab[pix(w, x, y)] == k as u32 && y == y1;
                    assert(lab[pix(w, a0, b0)] == k as u32 && lab[pix(w, a1, b1)] == k as u32);
                    assert(lab[pix(w, a2, b2)] == k as u32 && lab[pix(w, a3, b3)] == k as u32);
                    assert(0 <= x0 <= x1 < w && 0 <= y0 <= y1 < h);
                }
                let b = Blob {
                    rectangle: Rectangle {
                        x: minx[l],
                        y: miny[l],
                        width: maxx[l] - minx[l] + 1,
                        height: maxy[l] - miny[l] + 1,
                    },
                    id: l as u32,
                    area: area[l],
                };
                let ghost before = blobs@;
                blobs.push(b);
                proof {
                    assert(blobs@[blobs@.len() - 1].id == l);
                    assert forall|k: int| 1 <= k < l + 1 && #[trigger] area@[k] > 0 implies exists|i: int| 0 <= i < blobs@.len() && (#[trigger] blobs@[i]).id == k by {
                        if k < l {
                            let i = choose|i: int| 0 <= i < before.len() && (#[trigger] before[i]).id == k;
                            assert(blobs@[i] == before[i]);
                        } else {
                            assert(blobs@[blobs@.len() - 1].id == k);
                        }
                    }
                }
            }
            l = l + 1;
        }
        proof {
            assert forall|x: int, y: int| #![trigger lab[pix(w, x, y)]]
                in_grid(w, h, x, y) && lab[pix(w, x, y)] > 0 implies exists|i: int| 0 <= i < blobs@.len() && (#[trigger] blobs@[i]).id == lab[pix(w, x, y)] by {
                lemma_pix_bounds(w, h, x, y);
                let k = lab[pix(w, x, y)] as int;
                lemma_count_label_occurs(lab, pix(w, x, y), k as u32);
                assert(area@[k] > 0);
            }
            assert(blobs_of_labeling(lab, w, h, blobs@));
        }
        self.blobs = blobs;
    }

    /// The blobs found by the last processed image.
    pub fn get_objects_information(&self) -> (r: Vec<Blob>)
        ensures
            r@ == self.blobs(),
    {
        let mut r: Vec<Blob> = Vec::new();
        let mut i: usize = 0;
        while i < self.blobs.len()
            invariant
                i <= self.blobs@.len(),
                r@ == self.blobs@.take(i as int),
            decreases self.blobs@.len() - i,
        {
            r.push(self.blobs[i]);
            i = i + 1;
            proof {
                assert(r@ =~= self.blobs@.take(i as int));
            }
        }
        proof {
            assert(self.blobs@.take(i as int) =~= self.blobs@);
        }
        r
    }

    /// Outline points of a blob; none are traced, so the list is empty.
    pub fn get_blobs_edge_points(&self, blob: &Blob) -> (r: Vec<(i32, i32)>)
        ensures
            r@.len() == 0,
    {
        Vec::new()
    }
}

/// Dilation never clears a foreground pixel: every non-zero pixel of the
/// grid has a non-zero pixel in its window, itself.
pub proof fn law_dilation_keeps_foreground(img: Seq<u8>, w: int, h: int, x: int, y: int)
    requires
        in_grid(w, h, x, y),
        img[pix(w, x, y)] > 0,
    ensures
        dilated(img, w, h, x, y),
{
    assert(img[pix(w, x, y)] > 0);
}

/// Fewer entries lie at most `a` than below any larger `b`.
proof fn lemma_counts_ordered(s: Seq<u8>, a: int, b: int)
    requires
        a < b,
    ensures
        count_at_most(s, a) <= count_below(s, b),
    decreases s.len(),
{
    if s.len() > 0 {
        lemma_counts_ordered(s.drop_last(), a, b);
    }
}

/// The median filter's output is one of the window's values.
pub proof fn law_median_is_window_value(s: Seq<u8>, k: int, r: int)
    requires
        kth_smallest(s, k, r),
    ensures
        exists|i: int| 0 <= i < s.len() && s[i] as int == r,
{
    lemma_count_gap(s, r);
}

/// The entry at a sorted position is determined: two values that both sit at
/// position `k` are equal.
pub proof fn law_kth_smallest_unique(s: Seq<u8>, k: int, r1: int, r2: int)
    requires
        kth_smallest(s, k, r1),
        kth_smallest(s, k, r2),
    ensures
        r1 == r2,
{
    if r1 < r2 {
        lemma_counts_ordered(s, r1, r2);
    } else if r2 < r1 {
        lemma_counts_ordered(s, r2, r1);
    }
}

/// The SIS weight of a pixel is the larger of its two central differences,
/// `|I(x+1,y) - I(x-1,y)|` and `|I(x,y+1) - I(x,y-1)|`: at least each of
/// them, equal to one of them, and so never above 255.
pub proof fn law_sis_weight_is_larger_difference(img: Seq<u8>, w: int, x: int, y: int)
    ensures
        ({
            let dx = img[pix(w, x + 1, y)] as int - img[pix(w, x - 1, y)] as int;
            let dy = img[pix(w, x, y + 1)] as int - img[pix(w, x, y - 1)] as int;
            let adx = if dx < 0 { -dx } else { dx };
            let ady = if dy < 0 { -dy } else { dy };
            &&& sis_weight(img, w, x, y) >= adx
            &&& sis_weight(img, w, x, y) >= ady
            &&& (sis_weight(img, w, x, y) == adx || sis_weight(img, w, x, y) == ady)
            &&& 0 <= sis_weight(img, w, x, y) <= 255
        }),
{
}

/// Within one row, weighted values are `v` times the weights when every
/// pixel of positive weight holds `v`.
proof fn lemma_sis_row_uniform(img: Seq<u8>, w: int, y: int, n: int, v: int)
    requires
        forall|x: int| 1 <= x < n && #[trigger] sis_weight(img, w, x, y) > 0 ==> px(img, w, x, y) == v,
    ensures
        sis_row(img, w, y, n).1 == v * sis_row(img, w, y, n).0,
    decreases n,
{
    if n > 1 {
        lemma_sis_row_uniform(img, w, y, n - 1, v);
        let wt = sis_weight(img, w, n - 1, y);
        let (a, b) = sis_row(img, w, y, n - 1);
        if wt > 0 {
            assert(px(img, w, n - 1, y) == v);
        }
        assert(b + wt * px(img, w, n - 1, y) == v * (a + wt)) by (nonlinear_arith)
            requires
                b == v * a,
                wt == 0 || px(img, w, n - 1, y) == v,
        ;
    }
}

/// Over rows, weighted values are `v` times the weights when every interior
/// pixel of positive weight holds `v`.
proof fn lemma_sis_rows_uniform(img: Seq<u8>, w: int, m: int, v: int)
    requires
        forall|x: int, y: int| 1 <= x < w - 1 && 1 <= y < m && #[trigger] sis_weight(img, w, x, y) > 0 ==> px(img, w, x, y) == v,
    ensures
        sis_rows(img, w, m).1 == v * sis_rows(img, w, m).0,
    decreases m,
{
    if m > 1 {
        lemma_sis_rows_uniform(img, w, m - 1, v);
        assert forall|x: int| 1 <= x < w - 1 && #[trigger] sis_weight(img, w, x, m - 1) > 0 implies px(img, w, x, m - 1) == v by {}
        lemma_sis_row_uniform(img, w, m - 1, w - 1, v);
        let (a, b) = sis_rows(img, w, m - 1);
        let (c, d) = sis_row(img, w, m - 1, w - 1);
        assert(b + d == v * (a + c)) by (nonlinear_arith)
            requires
                b == v * a,
                d == v * c,
        ;
    }
}

/// Weights are never negative, and the row sum holds each weight of the row.
proof fn lemma_sis_row_covers(img: Seq<u8>, w: int, y: int, n: int, qx: int)
    ensures
        sis_row(img, w, y, n).0 >= 0,
        1 <= qx < n ==> sis_row(img, w, y, n).0 >= sis_weight(img, w, qx, y),
    decreases n,
{
    if n > 1 {
        lemma_sis_row_covers(img, w, y, n - 1, qx);
    }
}

/// The total weight holds the weight of every interior pixel of rows `1..m`.
proof fn lemma_sis_rows_covers(img: Seq<u8>, w: int, m: int, qx: int, qy: int)
    ensures
        sis_rows(img, w, m).0 >= 0,
        1 <= qx < w - 1 && 1 <= qy < m ==> sis_rows(img, w, m).0 >= sis_weight(img, w, qx, qy),
    decreases m,
{
    if m > 1 {
        lemma_sis_rows_covers(img, w, m - 1, qx, qy);
        lemma_sis_row_covers(img, w, m - 1, w - 1, qx);
    }
}

/// The SIS threshold is the weighted mean of the interior pixels: when some
/// interior pixel carries weight and every interior pixel that carries
/// weight holds the same value `v`, the threshold is `v`.
pub proof fn law_sis_threshold_of_uniform_edges(img: Seq<u8>, w: int, h: int, v: int)
    requires
        forall|x: int, y: int| 1 <= x < w - 1 && 1 <= y < h - 1 && #[trigger] sis_weight(img, w, x, y) > 0 ==> px(img, w, x, y) == v,
        exists|x: int, y: int| 1 <= x < w - 1 && 1 <= y < h - 1 && #[trigger] sis_weight(img, w, x, y) > 0,
    ensures
        sis_threshold(img, w, h) == v,
{
    let (qx, qy) = choose|x: int, y: int| 1 <= x < w - 1 && 1 <= y < h - 1 && #[trigger] sis_weight(img, w, x, y) > 0;
    lemma_sis_rows_covers(img, w, h - 1, qx, qy);
    lemma_sis_rows_uniform(img, w, h - 1, v);
    let (ws, ts) = sis_rows(img, w, h - 1);
    assert((2 * ts + ws) / (2 * ws) == v) by (nonlinear_arith)
        requires
            ts == v * ws,
            ws > 0,
    {
        assert(2 * ts + ws == v * (2 * ws) + ws);
        vstd::arithmetic::div_mod::lemma_fundamental_div_mod_converse(2 * ts + ws, 2 * ws, v, ws);
    }
}

/// The SIS threshold rounds the weighted mean `T / W` of the interior pixels
/// to the nearest integer, halves up: `t - 1/2 <= T / W < t + 1/2`.
pub proof fn law_sis_threshold_rounds_mean(img: Seq<u8>, w: int, h: int)
    requires
        sis_rows(img, w, h - 1).0 > 0,
    ensures
        ({
            let (ws, ts) = sis_rows(img, w, h - 1);
            let t = sis_threshold(img, w, h);
            2 * ws * t <= 2 * ts + ws < 2 * ws * t + 2 * ws
        }),
{
    let (ws, ts) = sis_rows(img, w, h - 1);
    vstd::arithmetic::div_mod::lemma_fundamental_div_mod(2 * ts + ws, 2 * ws);
    vstd::arithmetic::div_mod::lemma_mod_bound(2 * ts + ws, 2 * ws);
    let t = (2 * ts + ws) / (2 * ws);
    assert(2 * ws * t == (2 * ws) * t);
}

/// A combination `cx * p + cy * q` with unit coefficients, written out.
proof fn lemma_unit_combination(cx: int, cy: int, p: int, q: int)
    ensures
        -1 <= cx <= 1 && -1 <= cy <= 1 ==> cx * p + cy * q == (if cx == -1 { -p } else if cx == 0 { 0 } else { p })
            + (if cy == -1 { -q } else if cy == 0 { 0 } else { q }),
        -1 <= cx <= 1 && -1 <= cy <= 1 ==> cx * cx + cy * cy == (if cx == 0 { 0int } else { 1int }) + (if cy == 0 { 0int } else { 1int }),
{
    if -1 <= cx <= 1 && -1 <= cy <= 1 {
        assert(cx * p == (if cx == -1 { -p } else if cx == 0 { 0 } else { p })) by (nonlinear_arith)
            requires -1 <= cx <= 1;
        assert(cy * q == (if cy == -1 { -q } else if cy == 0 { 0 } else { q })) by (nonlinear_arith)
            requires -1 <= cy <= 1;
        assert(cx * cx == (if cx == 0 { 0int } else { 1int })) by (nonlinear_arith)
            requires -1 <= cx <= 1;
        assert(cy * cy == (if cy == 0 { 0int } else { 1int })) by (nonlinear_arith)
            requires -1 <= cy <= 1;
    }
}

/// Non-maximum suppression compares a pixel with its neighbours in the
/// direction nearest to its gradient `(gx, gy)` folded into `gy >= 0` (the
/// absolute value of `atan2`): for each of the four directions `(ox, oy)`,
/// the compared offset `(cx, cy)` is at least as well aligned,
/// `|c . g|² / |c|² >= |o . g|² / |o|²`.
pub proof fn law_suppression_follows_gradient(gx: int, gy: int, ox: int, oy: int)
    requires
        (ox, oy) == (1int, 0int) || (ox, oy) == (1int, 1int) || (ox, oy) == (0int, 1int) || (ox, oy) == (-1int, 1int),
    ensures
        ({
            let c = gradient_class(gx, gy);
            let a = if gy < 0 { -gy } else { gy };
            let d = class_dx(c) * gx + class_dy(c) * a;
            let e = ox * gx + oy * a;
            d * d * (ox * ox + oy * oy) >= e * e * (class_dx(c) * class_dx(c) + class_dy(c) * class_dy(c))
        }),
{
    let c = gradient_class(gx, gy);
    let a = if gy < 0 { -gy } else { gy };
    let b = if gx < 0 { -gx } else { gx };
    let cx = class_dx(c);
    let cy = class_dy(c);
    let d = cx * gx + cy * a;
    let e = ox * gx + oy * a;
    let oo = ox * ox + oy * oy;
    let cc = cx * cx + cy * cy;
    lemma_unit_combination(cx, cy, gx, a);
    if gx == 0 && gy == 0 {
        assert(e == 0);
        assert(d * d * oo >= e * e * cc) by (nonlinear_arith)
            requires
                e == 0,
                oo == ox * ox + oy * oy,
        ;
    } else if gx >= 0 {
        if below_22(a, b) {
            assert(d * d * oo >= e * e * cc) by (nonlinear_arith)
                requires
                    a >= 0, b >= 0, gx == b,
                    (a + b) * (a + b) < 2 * b * b,
                    d == -gx, cc == 1,
                    e == ox * gx + oy * a, oo == ox * ox + oy * oy,
                    (ox, oy) == (1int, 0int) || (ox, oy) == (1int, 1int) || (ox, oy) == (0int, 1int) || (ox, oy) == (-1int, 1int),
            ;
        } else if below_67(a, b) {
            assert(d * d * oo >= e * e * cc) by (nonlinear_arith)
                requires
                    a >= 0, b >= 0, gx == b,
                    (a + b) * (a + b) >= 2 * b * b,
                    a <= b || (a - b) * (a - b) < 2 * b * b,
                    d == -gx - a, cc == 2,
                    e == ox * gx + oy * a, oo == ox * ox + oy * oy,
                    (ox, oy) == (1int, 0int) || (ox, oy) == (1int, 1int) || (ox, oy) == (0int, 1int) || (ox, oy) == (-1int, 1int),
            ;
        } else {
            assert(d * d * oo >= e * e * cc) by (nonlinear_arith)
                requires
                    a >= 0, b >= 0, gx == b,
                    a > b, (a - b) * (a - b) >= 2 * b * b,
                    d == -a, cc == 1,
                    e == ox * gx + oy * a, oo == ox * ox + oy * oy,
                    (ox, oy) == (1int, 0int) || (ox, oy) == (1int, 1int) || (ox, oy) == (0int, 1int) || (ox, oy) == (-1int, 1int),
            ;
        }
    } else {
        if below_22(a, b) {
            assert(d * d * oo >= e * e * cc) by (nonlinear_arith)
                requires
                    a >= 0, b >= 0, gx == -b,
                    (a + b) * (a + b) < 2 * b * b,
                    d == -gx, cc == 1,
                    e == ox * gx + oy * a, oo == ox * ox + oy * oy,
                    (ox, oy) == (1int, 0int) || (ox, oy) == (1int, 1int) || (ox, oy) == (0int, 1int) || (ox, oy) == (-1int, 1int),
            ;
        } else if !below_67(a, b) {
            assert(d * d * oo >= e * e * cc) by (nonlinear_arith)
                requires
                    a >= 0, b >= 0, gx == -b,
                    a > b, (a - b) * (a - b) >= 2 * b * b,
                    d == -a, cc == 1,
                    e == ox * gx + oy * a, oo == ox * ox + oy * oy,
                    (ox, oy) == (1int, 0int) || (ox, oy) == (1int, 1int) || (ox, oy) == (0int, 1int) || (ox, oy) == (-1int, 1int),
            ;
        } else {
            assert(d * d * oo >= e * e * cc) by (nonlinear_arith)
                requires
                    a >= 0, b >= 0, gx == -b,
                    (a + b) * (a + b) >= 2 * b * b,
                    a <= b || (a - b) * (a - b) < 2 * b * b,
                    d == -gx + a, cc == 2,
                    e == ox * gx + oy * a, oo == ox * ox + oy * oy,
                    (ox, oy) == (1int, 0int) || (ox, oy) == (1int, 1int) || (ox, oy) == (0int, 1int) || (ox, oy) == (-1int, 1int),
            ;
        }
    }
}

} // verus!
