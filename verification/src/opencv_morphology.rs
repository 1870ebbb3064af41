//! Morphological filters on binary 8-bit images: erosion, dilation, opening
//! and closing with a rectangular, elliptical or cross-shaped structuring
//! element of odd size.  A grid pixel is non-zero when it is set; results are
//! 255 for set and 0 for clear, and entries past the grid are left alone.

use vstd::prelude::*;
use crate::grid::{pix, in_grid, lemma_pix_bounds, lemma_pix_div_mod};

verus! {

/// Shape of the structuring element.
#[derive(Debug, Clone, Copy, PartialEq, Eq, Structural)]
pub enum MorphKernelType {
    Rectangle,
    Ellipse,
    Cross,
}

/// Failure of a morphological filter.  The filters of this build never fail:
/// every one of them returns `Ok`.
#[derive(Debug, Clone, Copy)]
pub struct MorphologyError;

/// The offset `(ox, oy)` from the centre lies in the structuring element of
/// shape `t` and odd size `k`, whose radius is `r = k / 2`: every offset of
/// the square for a rectangle; the centre row and column for a cross; for an
/// ellipse, the rows of the square each spanning `round(sqrt(r² - oy²))`
/// either side of the centre column.
pub open spec fn in_element(t: MorphKernelType, k: int, ox: int, oy: int) -> bool {
    let r = k / 2;
    let ax = if ox < 0 { -ox } else { ox };
    &&& -r <= ox <= r
    &&& -r <= oy <= r
    &&& match t {
        MorphKernelType::Rectangle => true,
        MorphKernelType::Cross => ox == 0 || oy == 0,
        MorphKernelType::Ellipse => ox == 0 || (2 * ax - 1) * (2 * ax - 1) < 4 * (r * r - oy * oy),
    }
}

/// Erosion keeps `(x, y)` set: every grid pixel under the element centred on
/// it is set.
pub open spec fn eroded_at(img: Seq<u8>, w: int, h: int, t: MorphKernelType, k: int, x: int, y: int) -> bool {
    forall|ox: int, oy: int| #[trigger] in_element(t, k, ox, oy) && in_grid(w, h, x + ox, y + oy)
        ==> img[pix(w, x + ox, y + oy)] > 0
}

/// Dilation sets `(x, y)`: some grid pixel under the element centred on it is
/// set.
pub open spec fn dilated_at(img: Seq<u8>, w: int, h: int, t: MorphKernelType, k: int, x: int, y: int) -> bool {
    exists|ox: int, oy: int| #[trigger] in_element(t, k, ox, oy) && in_grid(w, h, x + ox, y + oy)
        && img[pix(w, x + ox, y + oy)] > 0
}

/// The erosion of the `w` by `h` grid of `img`; entries past the grid kept.
pub open spec fn eroded_image(img: Seq<u8>, w: int, h: int, t: MorphKernelType, k: int) -> Seq<u8> {
    Seq::new(img.len(), |i: int|
        if i < w * h {
            if eroded_at(img, w, h, t, k, i % w, i / w) { 255u8 } else { 0u8 }
        } else {
            img[i]
        })
}

/// The dilation of the `w` by `h` grid of `img`; entries past the grid kept.
pub open spec fn dilated_image(img: Seq<u8>, w: int, h: int, t: MorphKernelType, k: int) -> Seq<u8> {
    Seq::new(img.len(), |i: int|
        if i < w * h {
            if dilated_at(img, w, h, t, k, i % w, i / w) { 255u8 } else { 0u8 }
        } else {
            img[i]
        })
}

/// A kernel size the filters take: odd and at least 1.
pub open spec fn odd_size(k: int) -> bool {
    k >= 1 && k % 2 == 1
}

/// Whether the offset `(ox, oy)` lies in the element.
fn element_has(t: MorphKernelType, k: i32, ox: i128, oy: i128) -> (b: bool)
    requires
        k >= 1,
        -(k / 2) <= ox <= k / 2,
        -(k / 2) <= oy <= k / 2,
    ensures
        b == in_element(t, k as int, ox as int, oy as int),
{
    let r: i128 = (k / 2) as i128;
    let ax: i128 = if ox < 0 { -ox } else { ox };
    let a2: i128 = 2 * ax - 1;
    assert(0 <= a2 * a2 <= 0x1_0000_0000_0000_0000) by (nonlinear_arith)
        requires
            -1 <= a2 <= 0x8000_0000,
    ;
    assert(0 <= oy * oy <= 0x1_0000_0000_0000_0000) by (nonlinear_arith)
        requires
            -0x4000_0000 <= oy <= 0x4000_0000,
    ;
    assert(0 <= r * r <= 0x1_0000_0000_0000_0000) by (nonlinear_arith)
        requires
            0 <= r <= 0x4000_0000,
    ;
    let sq: i128 = a2 * a2;
    let rr: i128 = r * r;
    let oo: i128 = oy * oy;
    match t {
        MorphKernelType::Rectangle => true,
        MorphKernelType::Cross => ox == 0 || oy == 0,
        MorphKernelType::Ellipse => ox == 0 || sq < 4 * (rr - oo),
    }
}

/// Whether the element centred on `(x, y)` covers a grid pixel whose value
/// being set is `want`: with `want == false` the pixel stops erosion, with
/// `want == true` it starts dilation.
fn element_finds(img: &[u8], width: usize, height: usize, t: MorphKernelType, k: i32, x: usize, y: usize, want: bool) -> (b: bool)
    requires
        width * height <= img@.len(),
        x < width,
        y < height,
        odd_size(k as int),
    ensures
        b == exists|ox: int, oy: int| #[trigger] in_element(t, k as int, ox, oy)
            && in_grid(width as int, height as int, x + ox, y + oy)
            && (img@[pix(width as int, x + ox, y + oy)] > 0) == want,
{
    let ghost w = width as int;
    let ghost h = height as int;
    let slen = img.len();
    let r: i128 = (k / 2) as i128;
    let xi: i128 = x as i128;
    let yi: i128 = y as i128;
    let wi: i128 = width as i128;
    let hi: i128 = height as i128;
    let mut oy: i128 = -r;
    while oy <= r
        invariant
            w == width, h == height,
            width * height <= img@.len(),
            slen == img@.len(),
            x < width, y < height,
            odd_size(k as int),
            r == k / 2, xi == x, yi == y, wi == width, hi == height,
            -r <= oy <= r + 1,
            forall|ox: int, oy2: int| #![trigger in_element(t, k as int, ox, oy2)]
                oy2 < oy && in_element(t, k as int, ox, oy2) && in_grid(w, h, x + ox, y + oy2)
                ==> (img@[pix(w, x + ox, y + oy2)] > 0) != want,
        decreases r + 1 - oy,
    {
        let mut ox: i128 = -r;
        while ox <= r
            invariant
                w == width, h == height,
                width * height <= img@.len(),
                slen == img@.len(),
                x < width, y < height,
                odd_size(k as int),
                r == k / 2, xi == x, yi == y, wi == width, hi == height,
                -r <= oy <= r,
                -r <= ox <= r + 1,
                forall|ox2: int, oy2: int| #![trigger in_element(t, k as int, ox2, oy2)]
                    (oy2 < oy || (oy2 == oy && ox2 < ox)) && in_element(t, k as int, ox2, oy2)
                    && in_grid(w, h, x + ox2, y + oy2)
                    ==> (img@[pix(w, x + ox2, y + oy2)] > 0) != want,
            decreases r + 1 - ox,
        {
            let nx: i128 = xi + ox;
            let ny: i128 = yi + oy;
            if 0 <= nx && nx < wi && 0 <= ny && ny < hi && element_has(t, k, ox, oy) {
                proof {
                    lemma_pix_bounds(w, h, nx as int, ny as int);
                    assert(pix(w, nx as int, ny as int) == ny * w + nx);
                    assert(0 <= ny * w <= pix(w, nx as int, ny as int));
                }
                let v = img[(ny as usize) * width + (nx as usize)];
                if (v > 0) == want {
                    assert(in_element(t, k as int, ox as int, oy as int));
                    return true;
                }
            }
            ox = ox + 1;
        }
        oy = oy + 1;
    }
    proof {
        assert forall|ox: int, oy2: int| #[trigger] in_element(t, k as int, ox, oy2)
            && in_grid(w, h, x + ox, y + oy2) implies (img@[pix(w, x + ox, y + oy2)] > 0) != want by {}
    }
    false
}

/// Erodes (`erode`) or dilates the grid of `img`, into a new buffer.
fn morph_image(img: &[u8], width: usize, height: usize, t: MorphKernelType, k: i32, erode: bool) -> (out: Vec<u8>)
    requires
        width * height <= img@.len(),
        odd_size(k as int),
    ensures
        out@ == if erode {
            eroded_image(img@, width as int, height as int, t, k as int)
        } else {
            dilated_image(img@, width as int, height as int, t, k as int)
        },
{
    let ghost w = width as int;
    let ghost h = height as int;
    let ghost goal = if erode { eroded_image(img@, w, h, t, k as int) } else { dilated_image(img@, w, h, t, k as int) };
    let n = img.len();
    let grid = width * height;
    let mut out: Vec<u8> = Vec::new();
    let mut i: usize = 0;
    while i < n
        invariant
            w == width, h == height, n == img@.len(), grid == width * height,
            width * height <= img@.len(),
            odd_size(k as int),
            goal == (if erode { eroded_image(img@, w, h, t, k as int) } else { dilated_image(img@, w, h, t, k as int) }),
            i <= n,
            out@ == goal.take(i as int),
        decreases n - i,
    {
        let v: u8 = if i < grid {
            proof {
                lemma_pix_div_mod(w, h, i as int);
            }
            let x = i % width;
            let y = i / width;
            let found = element_finds(img, width, height, t, k, x, y, !erode);
            if erode {
                if found { 0u8 } else { 255u8 }
            } else {
                if found { 255u8 } else { 0u8 }
            }
        } else {
            img[i]
        };
        out.push(v);
        i = i + 1;
        proof {
            assert(out@ =~= goal.take(i as int));
        }
    }
    proof {
        assert(goal.take(n as int) =~= goal);
    }
    out
}

/// Overwrites `image` with `src`.
fn write_all(image: &mut [u8], src: &Vec<u8>)
    requires
        old(image)@.len() == src@.len(),
    ensures
        final(image)@ == src@,
{
    let n = src.len();
    let mut i: usize = 0;
    while i < n
        invariant
            n == src@.len(),
            image@.len() == n,
            i <= n,
            forall|j: int| 0 <= j < i ==> #[trigger] image@[j] == src@[j],
        decreases n - i,
    {
        image[i] = src[i];
        i = i + 1;
    }
    assert(image@ =~= src@);
}

/// Morphological filters with a square kernel size and kernel shape.
pub struct OpenCVMorphology {
    kernel_size: i32,
    kernel_type: MorphKernelType,
}

impl OpenCVMorphology {
    /// The kernel size.
    pub closed spec fn spec_kernel_size(&self) -> i32 {
        self.kernel_size
    }

    /// The kernel shape.
    pub closed spec fn spec_kernel_type(&self) -> MorphKernelType {
        self.kernel_type
    }

    /// The kernel size.
    pub fn kernel_size(&self) -> (r: i32)
        ensures
            r == self.spec_kernel_size(),
    {
        self.kernel_size
    }

    /// The kernel shape.
    pub fn kernel_type(&self) -> (r: MorphKernelType)
        ensures
            r == self.spec_kernel_type(),
    {
        self.kernel_type
    }

    /// Filters with an elliptical kernel (better for stars).
    pub fn new_ellipse(kernel_size: i32) -> (r: Self)
        ensures
            r.spec_kernel_size() == kernel_size,
            r.spec_kernel_type() == MorphKernelType::Ellipse,
    {
        Self { kernel_size, kernel_type: MorphKernelType::Ellipse }
    }

    /// Filters with a rectangular kernel.
    pub fn new_rectangle(kernel_size: i32) -> (r: Self)
        ensures
            r.spec_kernel_size() == kernel_size,
            r.spec_kernel_type() == MorphKernelType::Rectangle,
    {
        Self { kernel_size, kernel_type: MorphKernelType::Rectangle }
    }

    /// Binary dilation with the kernel.
    pub fn dilate_in_place(&self, image: &mut [u8], width: usize, height: usize) -> (r: Result<(), MorphologyError>)
        requires
            width * height <= old(image)@.len(),
            odd_size(self.spec_kernel_size() as int),
        ensures
            r is Ok,
            final(image)@ == dilated_image(old(image)@, width as int, height as int,
                self.spec_kernel_type(), self.spec_kernel_size() as int),
    {
        let out = morph_image(image, width, height, self.kernel_type, self.kernel_size, false);
        write_all(image, &out);
        Ok(())
    }

    /// Opening: erosion followed by dilation, which removes set specks
    /// smaller than the kernel while keeping larger shapes.
    pub fn opening_in_place(&self, image: &mut [u8], width: usize, height: usize) -> (r: Result<(), MorphologyError>)
        requires
            width * height <= old(image)@.len(),
            odd_size(self.spec_kernel_size() as int),
        ensures
            r is Ok,
            final(image)@ == dilated_image(
                eroded_image(old(image)@, width as int, height as int, self.spec_kernel_type(), self.spec_kernel_size() as int),
                width as int, height as int, self.spec_kernel_type(), self.spec_kernel_size() as int),
    {
        let eroded = morph_image(image, width, height, self.kernel_type, self.kernel_size, true);
        let out = morph_image(eroded.as_slice(), width, height, self.kernel_type, self.kernel_size, false);
        write_all(image, &out);
        Ok(())
    }

    /// Closing: dilation followed by erosion, which fills clear gaps smaller
    /// than the kernel.
    pub fn closing_in_place(&self, image: &mut [u8], width: usize, height: usize) -> (r: Result<(), MorphologyError>)
        requires
            width * height <= old(image)@.len(),
            odd_size(self.spec_kernel_size() as int),
        ensures
            r is Ok,
            final(image)@ == eroded_image(
                dilated_image(old(image)@, width as int, height as int, self.spec_kernel_type(), self.spec_kernel_size() as int),
                width as int, height as int, self.spec_kernel_type(), self.spec_kernel_size() as int),
    {
        let dilated = morph_image(image, width, height, self.kernel_type, self.kernel_size, false);
        let out = morph_image(dilated.as_slice(), width, height, self.kernel_type, self.kernel_size, true);
        write_all(image, &out);
        Ok(())
    }

    /// Binary erosion with the kernel.
    pub fn erode_in_place(&self, image: &mut [u8], width: usize, height: usize) -> (r: Result<(), MorphologyError>)
        requires
            width * height <= old(image)@.len(),
            odd_size(self.spec_kernel_size() as int),
        ensures
            r is Ok,
            final(image)@ == eroded_image(old(image)@, width as int, height as int,
                self.spec_kernel_type(), self.spec_kernel_size() as int),
    {
        let out = morph_image(image, width, height, self.kernel_type, self.kernel_size, true);
        write_all(image, &out);
        Ok(())
    }

    /// Hot-pixel filter: a dilation with the kernel, which keeps every set
    /// pixel, stars included.
    pub fn hot_pixel_filter_in_place(&self, image: &mut [u8], width: usize, height: usize) -> (r: Result<(), MorphologyError>)
        requires
            width * height <= old(image)@.len(),
            odd_size(self.spec_kernel_size() as int),
        ensures
            r is Ok,
            final(image)@ == dilated_image(old(image)@, width as int, height as int,
                self.spec_kernel_type(), self.spec_kernel_size() as int),
    {
        self.dilate_in_place(image, width, height)
    }
}

/// The elements are symmetric about their centre.
proof fn lemma_element_symmetric(t: MorphKernelType, k: int, ox: int, oy: int)
    requires
        in_element(t, k, ox, oy),
    ensures
        in_element(t, k, -ox, -oy),
{
    assert((-oy) * (-oy) == oy * oy) by (nonlinear_arith);
}

/// Opening never sets a grid pixel that was clear: every pixel it leaves set
/// was set before.
pub proof fn law_opening_only_removes(img: Seq<u8>, w: int, h: int, t: MorphKernelType, k: int, x: int, y: int)
    requires
        odd_size(k),
        in_grid(w, h, x, y),
        w * h <= img.len(),
        dilated_image(eroded_image(img, w, h, t, k), w, h, t, k)[pix(w, x, y)] > 0,
    ensures
        img[pix(w, x, y)] > 0,
{
    let e = eroded_image(img, w, h, t, k);
    lemma_pix_bounds(w, h, x, y);
    let i = pix(w, x, y);
    lemma_pix_div_mod(w, h, i);
    assert(i % w == x && i / w == y) by {
        vstd::arithmetic::div_mod::lemma_fundamental_div_mod_converse(i, w, y, x);
    }
    assert(dilated_at(e, w, h, t, k, x, y));
    let (ox, oy) = choose|ox: int, oy: int| #[trigger] in_element(t, k, ox, oy) && in_grid(w, h, x + ox, y + oy)
        && e[pix(w, x + ox, y + oy)] > 0;
    let px = x + ox;
    let py = y + oy;
    lemma_pix_bounds(w, h, px, py);
    let j = pix(w, px, py);
    assert(j % w == px && j / w == py) by {
        vstd::arithmetic::div_mod::lemma_fundamental_div_mod_converse(j, w, py, px);
    }
    assert(eroded_at(img, w, h, t, k, px, py));
    lemma_element_symmetric(t, k, ox, oy);
    assert(in_element(t, k, -ox, -oy));
    assert(px + (-ox) == x && py + (-oy) == y);
}

/// Closing never clears a grid pixel that was set.
pub proof fn law_closing_only_adds(img: Seq<u8>, w: int, h: int, t: MorphKernelType, k: int, x: int, y: int)
    requires
        odd_size(k),
        in_grid(w, h, x, y),
        w * h <= img.len(),
        img[pix(w, x, y)] > 0,
    ensures
        eroded_image(dilated_image(img, w, h, t, k), w, h, t, k)[pix(w, x, y)] > 0,
{
    let d = dilated_image(img, w, h, t, k);
    lemma_pix_bounds(w, h, x, y);
    let i = pix(w, x, y);
    assert(i % w == x && i / w == y) by {
        vstd::arithmetic::div_mod::lemma_fundamental_div_mod_converse(i, w, y, x);
    }
    assert forall|ox: int, oy: int| #[trigger] in_element(t, k, ox, oy) && in_grid(w, h, x + ox, y + oy)
        implies d[pix(w, x + ox, y + oy)] > 0 by {
        let px = x + ox;
        let py = y + oy;
        lemma_pix_bounds(w, h, px, py);
        let j = pix(w, px, py);
        assert(j % w == px && j / w == py) by {
            vstd::arithmetic::div_mod::lemma_fundamental_div_mod_converse(j, w, py, px);
        }
        lemma_element_symmetric(t, k, ox, oy);
        assert(px + (-ox) == x && py + (-oy) == y);
        assert(in_element(t, k, -ox, -oy) && in_grid(w, h, px + (-ox), py + (-oy)) && img[pix(w, px + (-ox), py + (-oy))] > 0);
        assert(dilated_at(img, w, h, t, k, px, py));
    }
    assert(eroded_at(d, w, h, t, k, x, y));
}

} // verus!
