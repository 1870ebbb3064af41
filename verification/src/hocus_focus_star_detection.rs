//! Steps of the HocusFocus star detector that work on binary maps: the
//! conversions around erosion, and the scan that grows star candidates.

use vstd::prelude::*;
use crate::opencv_morphology::{OpenCVMorphology, MorphKernelType, in_element, eroded_at, eroded_image};
use crate::grid::{pix, in_grid, lemma_pix_bounds, lemma_pix_injective, lemma_pix_div_mod};
use crate::sample_statistics::{kth_smallest16, kth_value16, lemma_kth16_unique, lemma_count16_extremes, lemma_kth16_from};

verus! {

/// `true` pixels to 255, `false` ones to 0.
pub fn bool_to_u8(binary_map: &[bool]) -> (r: Vec<u8>)
    ensures
        r@.len() == binary_map@.len(),
        forall|i: int| 0 <= i < r@.len() ==> #[trigger] r@[i] == (if binary_map@[i] { 255u8 } else { 0u8 }),
{
    let mut r: Vec<u8> = Vec::new();
    let mut i: usize = 0;
    while i < binary_map.len()
        invariant
            i <= binary_map@.len(),
            r@.len() == i,
            forall|j: int| 0 <= j < i ==> #[trigger] r@[j] == (if binary_map@[j] { 255u8 } else { 0u8 }),
        decreases binary_map@.len() - i,
    {
        r.push(if binary_map[i] { 255u8 } else { 0u8 });
        i = i + 1;
    }
    r
}

/// Pixels above 127 to `true`, the others to `false`.
pub fn u8_to_bool(data: &[u8]) -> (r: Vec<bool>)
    ensures
        r@.len() == data@.len(),
        forall|i: int| 0 <= i < r@.len() ==> #[trigger] r@[i] == (data@[i] > 127),
{
    let mut r: Vec<bool> = Vec::new();
    let mut i: usize = 0;
    while i < data.len()
        invariant
            i <= data@.len(),
            r@.len() == i,
            forall|j: int| 0 <= j < i ==> #[trigger] r@[j] == (data@[j] > 127),
        decreases data@.len() - i,
    {
        r.push(data[i] > 127);
        i = i + 1;
    }
    r
}

/// Converting a binary map to bytes and back gives the map again.
pub proof fn lemma_binary_round_trip(binary_map: Seq<bool>, bytes: Seq<u8>, back: Seq<bool>)
    requires
        bytes.len() == binary_map.len(),
        forall|i: int| 0 <= i < bytes.len() ==> #[trigger] bytes[i] == (if binary_map[i] { 255u8 } else { 0u8 }),
        back.len() == bytes.len(),
        forall|i: int| 0 <= i < back.len() ==> #[trigger] back[i] == (bytes[i] > 127),
    ensures
        back == binary_map,
{
    assert forall|i: int| 0 <= i < back.len() implies back[i] == binary_map[i] by {
        assert(bytes[i] == (if binary_map[i] { 255u8 } else { 0u8 }));
    }
    assert(back =~= binary_map);
}

/// The 3x3 ellipse is the cross: the centre and its four side neighbours.
proof fn lemma_ellipse3(ox: int, oy: int)
    ensures
        in_element(MorphKernelType::Ellipse, 3, ox, oy) <==> ((ox == 0 && -1 <= oy <= 1) || (oy == 0 && -1 <= ox <= 1)),
{
    if -1 <= ox <= 1 && -1 <= oy <= 1 {
        assert(oy * oy == (if oy == 0 { 0int } else { 1int })) by (nonlinear_arith)
            requires
                -1 <= oy <= 1,
        ;
    }
}

/// Erosion with the 3x3 ellipse keeps `(x, y)`: it is set, and so is each of
/// its four side neighbours that lies in the `w` by `h` grid.
pub open spec fn cross_kept(map: Seq<bool>, w: int, h: int, x: int, y: int) -> bool {
    &&& map[pix(w, x, y)]
    &&& x > 0 ==> map[pix(w, x - 1, y)]
    &&& x + 1 < w ==> map[pix(w, x + 1, y)]
    &&& y > 0 ==> map[pix(w, x, y - 1)]
    &&& y + 1 < h ==> map[pix(w, x, y + 1)]
}

/// Morphological erosion of a binary map with the 3x3 elliptical kernel, to
/// break up connected components: a grid pixel stays set exactly when it and
/// its side neighbours in the grid are set; entries past the grid are kept.
pub fn apply_erosion(binary_map: &[bool], width: usize, height: usize) -> (r: Result<Vec<bool>, String>)
    requires
        width * height <= binary_map@.len(),
    ensures
        r matches Ok(v) && v@.len() == binary_map@.len()
            && (forall|x: int, y: int| 0 <= x < width && 0 <= y < height ==>
                #[trigger] v@[pix(width as int, x, y)] == cross_kept(binary_map@, width as int, height as int, x, y))
            && (forall|i: int| width * height <= i < binary_map@.len() ==> #[trigger] v@[i] == binary_map@[i]),
{
    let ghost w = width as int;
    let ghost h = height as int;
    let mut u8_data = bool_to_u8(binary_map);
    let morphology = OpenCVMorphology::new_ellipse(3);
    let ghost before = u8_data@;
    let _ = morphology.erode_in_place(u8_data.as_mut_slice(), width, height);
    let back = u8_to_bool(u8_data.as_slice());
    proof {
        let e = eroded_image(before, w, h, MorphKernelType::Ellipse, 3);
        assert(u8_data@ == e);
        assert forall|x: int, y: int| 0 <= x < width && 0 <= y < height implies
            #[trigger] back@[pix(w, x, y)] == cross_kept(binary_map@, w, h, x, y) by {
            lemma_pix_bounds(w, h, x, y);
            let i = pix(w, x, y);
            vstd::arithmetic::div_mod::lemma_fundamental_div_mod_converse(i, w, y, x);
            assert(back@[i] == (e[i] > 127));
            assert(e[i] == (if eroded_at(before, w, h, MorphKernelType::Ellipse, 3, x, y) { 255u8 } else { 0u8 }));
            if eroded_at(before, w, h, MorphKernelType::Ellipse, 3, x, y) {
                lemma_ellipse3(0, 0);
                lemma_ellipse3(-1, 0);
                lemma_ellipse3(1, 0);
                lemma_ellipse3(0, -1);
                lemma_ellipse3(0, 1);
                assert(in_element(MorphKernelType::Ellipse, 3, 0, 0));
                assert(before[pix(w, x + 0, y + 0)] > 0);
                if x > 0 {
                    lemma_pix_bounds(w, h, x - 1, y);
                    assert(in_element(MorphKernelType::Ellipse, 3, -1, 0));
                    assert(before[pix(w, x + -1, y + 0)] > 0);
                }
                if x + 1 < w {
                    lemma_pix_bounds(w, h, x + 1, y);
                    assert(in_element(MorphKernelType::Ellipse, 3, 1, 0));
                    assert(before[pix(w, x + 1, y + 0)] > 0);
                }
                if y > 0 {
                    lemma_pix_bounds(w, h, x, y - 1);
                    assert(in_element(MorphKernelType::Ellipse, 3, 0, -1));
                    assert(before[pix(w, x + 0, y + -1)] > 0);
                }
                if y + 1 < h {
                    lemma_pix_bounds(w, h, x, y + 1);
                    assert(in_element(MorphKernelType::Ellipse, 3, 0, 1));
                    assert(before[pix(w, x + 0, y + 1)] > 0);
                }
            } else if cross_kept(binary_map@, w, h, x, y) {
                assert forall|ox: int, oy: int| #[trigger] in_element(MorphKernelType::Ellipse, 3, ox, oy)
                    && in_grid(w, h, x + ox, y + oy) implies before[pix(w, x + ox, y + oy)] > 0 by {
                    lemma_ellipse3(ox, oy);
                    lemma_pix_bounds(w, h, x + ox, y + oy);
                }
                assert(false);
            }
        }
        assert forall|i: int| w * h <= i < binary_map@.len() implies #[trigger] back@[i] == binary_map@[i] by {
            assert(e[i] == before[i]);
        }
    }
    Ok(back)
}

/// The box `(x, y, width, height)` holds pixel `p` (`(x, y)`).
pub open spec fn in_box(b: (usize, usize, usize, usize), p: (usize, usize)) -> bool {
    b.0 <= p.0 < b.0 + b.2 && b.1 <= p.1 < b.1 + b.3
}

/// Pixel `p` is set in the row-major map of row width `w`.
pub open spec fn set_at(map: Seq<bool>, w: int, p: (usize, usize)) -> bool {
    map[pix(w, p.0 as int, p.1 as int)]
}

/// No pixel is listed twice.
pub open spec fn distinct_pixels(ps: Seq<(usize, usize)>) -> bool {
    forall|i: int, j: int| 0 <= i < j < ps.len() ==> ps[i] != ps[j]
}

/// The first column of the run of set pixels on row `y` that ends at column `x`.
pub open spec fn run_left(map: Seq<bool>, w: int, y: int, x: int) -> int
    decreases x,
{
    if x > 0 && map[pix(w, x - 1, y)] {
        run_left(map, w, y, x - 1)
    } else {
        x
    }
}

/// The last column of the run of set pixels on row `y` that starts at column `x`.
pub open spec fn run_right(map: Seq<bool>, w: int, y: int, x: int) -> int
    decreases w - x,
{
    if x < w - 1 && map[pix(w, x + 1, y)] {
        run_right(map, w, y, x + 1)
    } else {
        x
    }
}

/// The column reached from column `x` of row `y` by stepping right onto
/// clear pixels, each step taken only from a column left of `limit`.
pub open spec fn skip_clear(map: Seq<bool>, w: int, y: int, x: int, limit: int) -> int
    decreases w - x,
{
    if x < w - 1 && !map[pix(w, x + 1, y)] && x < limit {
        skip_clear(map, w, y, x + 1, limit)
    } else {
        x
    }
}

/// The pixels of row `y` from column `from - 1` down to column `to`.
pub open spec fn cols_down(y: int, from: int, to: int) -> Seq<(usize, usize)> {
    Seq::new((from - to) as nat, |i: int| ((from - 1 - i) as usize, y as usize))
}

/// The pixels of row `y` from column `from + 1` up to column `to`.
pub open spec fn cols_up(y: int, from: int, to: int) -> Seq<(usize, usize)> {
    Seq::new((to - from) as nat, |i: int| ((from + 1 + i) as usize, y as usize))
}

/// What row `y` adds to a structure grown from column `x_left` whose box
/// ends left of column `limit`: the pixels taken, and the first and last
/// columns reached. When the seed column is set, its whole run is taken: the
/// seed, then leftward, then rightward. When it is clear, the run met first
/// when stepping right over clear pixels is taken, if one is met.
pub open spec fn row_step(map: Seq<bool>, w: int, y: int, x_left: int, limit: int) -> (Seq<(usize, usize)>, int, int) {
    if map[pix(w, x_left, y)] {
        let sx = run_left(map, w, y, x_left);
        let ex = run_right(map, w, y, x_left);
        (seq![(x_left as usize, y as usize)] + cols_down(y, x_left, sx) + cols_up(y, x_left, ex), sx, ex)
    } else {
        let e = skip_clear(map, w, y, x_left, limit);
        if e < w - 1 && map[pix(w, e + 1, y)] {
            (cols_up(y, e, run_right(map, w, y, e + 1)), x_left, run_right(map, w, y, e + 1))
        } else {
            (Seq::empty(), x_left, e)
        }
    }
}

/// The left edge and width of a box with left edge `bx` and width `bw` once
/// it is widened to hold columns `sx` to `ex`.
pub open spec fn widen(bx: int, bw: int, sx: int, ex: int) -> (int, int) {
    let (bx1, bw1) = if sx < bx { (sx, bw + (bx - sx)) } else { (bx, bw) };
    if ex >= bx1 + bw1 {
        (bx1, ex - bx1 + 1)
    } else {
        (bx1, bw1)
    }
}

/// Growing a structure on from row `y`, with the box's left edge at `bx`, its
/// width `bw` and the pixels `acc` taken so far: the pixels and the box
/// `(x, y, width, height)` at the end. A row that takes nothing ends the box
/// above it; the last row of the grid ends it below.
pub open spec fn grow_rows(map: Seq<bool>, w: int, h: int, x_left: int, y_top: int, y: int, bx: int, bw: int,
    acc: Seq<(usize, usize)>) -> (Seq<(usize, usize)>, (usize, usize, usize, usize))
    decreases h - y,
{
    let (row, sx, ex) = row_step(map, w, y, x_left, bx + bw);
    let (nbx, nbw) = widen(bx, bw, sx, ex);
    if row.len() == 0 {
        (acc, (nbx as usize, y_top as usize, nbw as usize, (y - y_top) as usize))
    } else if y >= h - 1 {
        (acc + row, (nbx as usize, y_top as usize, nbw as usize, (y - y_top + 1) as usize))
    } else {
        grow_rows(map, w, h, x_left, y_top, y + 1, nbx, nbw, acc + row)
    }
}

/// The structure grown from the seed `(x_left, y_top)`: its pixels and box.
pub open spec fn grown(map: Seq<bool>, w: int, h: int, x_left: int, y_top: int)
    -> (Seq<(usize, usize)>, (usize, usize, usize, usize)) {
    grow_rows(map, w, h, x_left, y_top, y_top, x_left, 1, Seq::empty())
}

/// What growing a structure from the seed `(x_left, y_top)` yields: pixels
/// `ps`, starting with the seed, all set in `map`, distinct and inside the box
/// `b`, which lies in the `w` by `h` grid, keeps the seed's row as its top
/// row and holds the seed.
pub open spec fn grown_from(map: Seq<bool>, w: int, h: int, x_left: int, y_top: int,
    ps: Seq<(usize, usize)>, b: (usize, usize, usize, usize)) -> bool {
    &&& b.0 <= x_left < b.0 + b.2 <= w
    &&& b.1 == y_top && 1 <= b.3 && y_top + b.3 <= h
    &&& ps.len() > 0 && ps[0] == (x_left as usize, y_top as usize)
    &&& forall|i: int| 0 <= i < ps.len() ==> in_box(b, #[trigger] ps[i]) && ps[i].0 < w && ps[i].1 < h && set_at(map, w, ps[i])
    &&& distinct_pixels(ps)
}

/// Grows a structure from a set seed pixel, row by row downward: on each row
/// the run through the seed's column (or, when that column is clear, the
/// first run found within the box so far) is taken, extended left and right;
/// the box widens to hold it, and growth stops at a row with nothing taken or
/// at the last row.
#[verifier::rlimit(60)]
fn grow_structure(map: &[bool], width: usize, height: usize, x_left: usize, y_top: usize)
    -> (r: (Vec<(usize, usize)>, (usize, usize, usize, usize)))
    requires
        width * height <= map@.len(),
        x_left < width,
        y_top < height,
        set_at(map@, width as int, (x_left, y_top)),
    ensures
        grown_from(map@, width as int, height as int, x_left as int, y_top as int, r.0@, r.1),
        (r.0@, r.1) == grown(map@, width as int, height as int, x_left as int, y_top as int),
{
    let ghost w = width as int;
    let ghost h = height as int;
    let ghost total = grown(map@, w, h, x_left as int, y_top as int);
    let n = map.len();
    assert(width * height <= usize::MAX);
    let mut pixels: Vec<(usize, usize)> = Vec::new();
    let mut bx: usize = x_left;
    let mut bw: usize = 1;
    let mut bh: usize = 1;
    let mut y: usize = y_top;
    loop
        invariant_except_break
            y > y_top ==> pixels@.len() > 0 && pixels@[0] == (x_left, y_top),
            y == y_top ==> pixels@.len() == 0,
            forall|i: int| 0 <= i < pixels@.len() ==> {
                &&& y_top <= (#[trigger] pixels@[i]).1 < y
                &&& bx <= pixels@[i].0 < bx + bw
                &&& set_at(map@, w, pixels@[i])
            },
            grow_rows(map@, w, h, x_left as int, y_top as int, y as int, bx as int, bw as int, pixels@) == total,
        invariant
            w == width as int,
            h == height as int,
            total == grown(map@, w, h, x_left as int, y_top as int),
            width * height <= map@.len(),
            width * height <= usize::MAX,
            x_left < width,
            y_top <= y < height,
            set_at(map@, w, (x_left, y_top)),
            bx <= x_left < bx + bw <= width,
            distinct_pixels(pixels@),
        ensures
            grown_from(map@, w, h, x_left as int, y_top as int, pixels@, (bx, y_top, bw, bh)),
            (pixels@, (bx, y_top, bw, bh)) == total,
        decreases height - y,
    {
        let ghost base = pixels@.len();
        let ghost pre = pixels@;
        let ghost lim = bx + bw;
        let ghost seed = map@[pix(w, x_left as int, y as int)];
        proof {
            lemma_pix_bounds(w, h, 0, y as int);
            lemma_pix_bounds(w, h, w - 1, y as int);
        }
        let row_start = y * width;
        proof {
            assert(pix(w, x_left as int, y as int) == row_start + x_left);
        }
        let mut added: usize = 0;
        if map[row_start + x_left] {
            pixels.push((x_left, y));
            added = 1;
        }
        let mut sx: usize = x_left;
        proof {
            assert(cols_down(y as int, x_left as int, sx as int) =~= Seq::<(usize, usize)>::empty());
            if seed {
                assert(pixels@ =~= pre + seq![(x_left, y)] + cols_down(y as int, x_left as int, sx as int));
            }
        }
        if added > 0 {
            while sx > 0 && map[row_start + sx - 1]
                invariant
                    w == width as int,
                    width * height <= map@.len(),
                    width * height <= usize::MAX,
                    row_start == y * width,
                    row_start + width <= width * height,
                    y < height,
                    sx <= x_left < width,
                    added > 0,
                    added == x_left - sx + 1,
                    pixels@.len() == base + added,
                    base > 0 ==> pixels@[0] == (x_left, y_top),
                    base == 0 ==> pixels@[0] == (x_left, y),
                    forall|i: int| 0 <= i < base ==> {
                        &&& y_top <= (#[trigger] pixels@[i]).1 < y
                        &&& bx <= pixels@[i].0 < bx + bw
                        &&& set_at(map@, w, pixels@[i])
                    },
                    forall|i: int| base <= i < pixels@.len() ==> {
                        &&& (#[trigger] pixels@[i]).1 == y
                        &&& sx <= pixels@[i].0 <= x_left
                        &&& set_at(map@, w, pixels@[i])
                    },
                    distinct_pixels(pixels@),
                    run_left(map@, w, y as int, x_left as int) == run_left(map@, w, y as int, sx as int),
                    pixels@ == pre + seq![(x_left, y)] + cols_down(y as int, x_left as int, sx as int),
                decreases sx,
            {
                proof {
                    assert(pix(w, sx as int - 1, y as int) == row_start + sx - 1);
                }
                let ghost old_sx = sx as int;
                sx = sx - 1;
                proof {
                    assert(pix(w, sx as int, y as int) == row_start + sx);
                }
                pixels.push((sx, y));
                added = added + 1;
                proof {
                    assert(cols_down(y as int, x_left as int, sx as int)
                        =~= cols_down(y as int, x_left as int, old_sx).push((sx, y)));
                    assert(pixels@ =~= pre + seq![(x_left, y)] + cols_down(y as int, x_left as int, sx as int));
                }
            }
            proof {
                if sx > 0 {
                    assert(pix(w, sx as int - 1, y as int) == row_start + sx - 1);
                }
            }
        }
        proof {
            if seed {
                assert(sx as int == run_left(map@, w, y as int, x_left as int));
                assert(pixels@ =~= pre + seq![(x_left, y)] + cols_down(y as int, x_left as int, sx as int)
                    + cols_up(y as int, x_left as int, x_left as int));
            } else {
                assert(pixels@ =~= pre);
            }
        }
        let mut ex: usize = x_left;
        while ex < width - 1
            invariant
                w == width as int,
                width * height <= map@.len(),
                width * height <= usize::MAX,
                row_start == y * width,
                row_start + width <= width * height,
                y < height,
                sx <= x_left <= ex < width,
                bx <= x_left < bx + bw <= width,
                lim == bx + bw,
                pixels@.len() == base + added,
                added <= ex + 1 - sx,
                base == 0 ==> added > 0,
                base == 0 <==> y == y_top,
                added == 0 ==> ex <= bx + bw,
                added > 0 && base > 0 ==> pixels@[0] == (x_left, y_top),
                added > 0 && base == 0 ==> pixels@[0] == (x_left, y),
                base > 0 ==> pixels@[0] == (x_left, y_top),
                forall|i: int| 0 <= i < base ==> {
                    &&& y_top <= (#[trigger] pixels@[i]).1 < y
                    &&& bx <= pixels@[i].0 < bx + bw
                    &&& set_at(map@, w, pixels@[i])
                },
                forall|i: int| base <= i < pixels@.len() ==> {
                    &&& (#[trigger] pixels@[i]).1 == y
                    &&& sx <= pixels@[i].0 <= ex
                    &&& set_at(map@, w, pixels@[i])
                },
                distinct_pixels(pixels@),
                seed == map@[pix(w, x_left as int, y as int)],
                seed ==> added > 0 && sx as int == run_left(map@, w, y as int, x_left as int),
                !seed ==> sx == x_left,
                seed ==> run_right(map@, w, y as int, x_left as int) == run_right(map@, w, y as int, ex as int),
                seed ==> pixels@ == pre + seq![(x_left, y)] + cols_down(y as int, x_left as int, sx as int)
                    + cols_up(y as int, x_left as int, ex as int),
                !seed && added == 0 ==> pixels@ == pre
                    && skip_clear(map@, w, y as int, x_left as int, lim) == skip_clear(map@, w, y as int, ex as int, lim),
                !seed && added > 0 ==> ({
                    let e = skip_clear(map@, w, y as int, x_left as int, lim);
                    &&& e < ex && e < w - 1
                    &&& map@[pix(w, e + 1, y as int)]
                    &&& run_right(map@, w, y as int, e + 1) == run_right(map@, w, y as int, ex as int)
                    &&& pixels@ == pre + cols_up(y as int, e, ex as int)
                }),
            ensures
                ex >= width - 1 || (!map@[pix(w, ex as int + 1, y as int)] && (added > 0 || ex >= bx + bw)),
            decreases width - ex,
        {
            proof {
                assert(pix(w, ex as int + 1, y as int) == row_start + ex + 1);
            }
            let ghost old_ex = ex as int;
            let ghost old_added = added;
            if !map[row_start + ex + 1] {
                if added > 0 || ex >= bx + bw {
                    break;
                }
                ex = ex + 1;
            } else {
                ex = ex + 1;
                pixels.push((ex, y));
                added = added + 1;
                proof {
                    if seed {
                        assert(cols_up(y as int, x_left as int, ex as int)
                            =~= cols_up(y as int, x_left as int, old_ex).push((ex, y)));
                        assert(pixels@ =~= pre + seq![(x_left, y)] + cols_down(y as int, x_left as int, sx as int)
                            + cols_up(y as int, x_left as int, ex as int));
                    } else if old_added == 0 {
                        assert(skip_clear(map@, w, y as int, old_ex, lim) == old_ex);
                        assert(cols_up(y as int, old_ex, ex as int) =~= seq![(ex, y)]);
                        assert(pixels@ =~= pre + cols_up(y as int, old_ex, ex as int));
                    } else {
                        let e = skip_clear(map@, w, y as int, x_left as int, lim);
                        assert(cols_up(y as int, e, ex as int) =~= cols_up(y as int, e, old_ex).push((ex, y)));
                        assert(pixels@ =~= pre + cols_up(y as int, e, ex as int));
                    }
                }
            }
        }
        let ghost row = pixels@.subrange(base as int, pixels@.len() as int);
        proof {
            assert(pixels@ =~= pre + row);
            if seed {
                assert(ex as int == run_right(map@, w, y as int, x_left as int));
                assert(row =~= seq![(x_left, y)] + cols_down(y as int, x_left as int, sx as int)
                    + cols_up(y as int, x_left as int, ex as int));
            } else if added == 0 {
                assert(ex as int == skip_clear(map@, w, y as int, x_left as int, lim));
                assert(row =~= Seq::<(usize, usize)>::empty());
            } else {
                let e = skip_clear(map@, w, y as int, x_left as int, lim);
                assert(ex as int == run_right(map@, w, y as int, e + 1));
                assert(row =~= cols_up(y as int, e, ex as int));
            }
            assert(row_step(map@, w, y as int, x_left as int, lim) == (row, sx as int, ex as int));
        }
        let ghost old_bx = bx as int;
        let ghost old_bw = bw as int;
        if sx < bx {
            bw = bw + (bx - sx);
            bx = sx;
        }
        if ex >= bx + bw {
            bw = ex - bx + 1;
        }
        proof {
            assert(widen(old_bx, old_bw, sx as int, ex as int) == (bx as int, bw as int));
            assert(row.len() == added);
        }
        if added == 0 {
            bh = y - y_top;
            break;
        }
        if y >= height - 1 {
            bh = y - y_top + 1;
            break;
        }
        y = y + 1;
    }
    (pixels, (bx, y_top, bw, bh))
}

/// The row-major map of row width `w` with every pixel of the box `b` cleared.
pub open spec fn cleared(map: Seq<bool>, w: int, b: (usize, usize, usize, usize)) -> Seq<bool> {
    Seq::new(map.len(), |i: int| !in_box(b, ((i % w) as usize, (i / w) as usize)) && map[i])
}

/// Clears every pixel of the box `b` in the map.
fn clear_box(map: &mut Vec<bool>, width: usize, height: usize, b: (usize, usize, usize, usize))
    requires
        width * height <= old(map)@.len(),
        width >= 1,
        b.0 + b.2 <= width,
        b.1 + b.3 <= height,
    ensures
        final(map)@.len() == old(map)@.len(),
        forall|x: int, y: int| 0 <= x < width && 0 <= y < height ==>
            #[trigger] final(map)@[pix(width as int, x, y)] == (if in_box(b, (x as usize, y as usize)) { false } else { old(map)@[pix(width as int, x, y)] }),
        final(map)@ == cleared(old(map)@, width as int, b),
{
    let ghost w = width as int;
    let ghost h = height as int;
    let ghost before = map@;
    assert(width * height <= usize::MAX) by {
        let n = map.len();
    }
    let mut sy = b.1;
    while sy < b.1 + b.3
        invariant
            w == width as int,
            h == height as int,
            width * height <= map@.len(),
                map@.len() == before.len(),
                forall|i: int| width * height <= i < map@.len() ==> #[trigger] map@[i] == before[i],
            width * height <= usize::MAX,
            width * height <= before.len(),
            b.0 + b.2 <= width,
            b.1 + b.3 <= height,
            b.1 <= sy <= b.1 + b.3,
            forall|x: int, y: int| 0 <= x < width && 0 <= y < height ==>
                #[trigger] map@[pix(w, x, y)] == (if in_box(b, (x as usize, y as usize)) && y < sy { false } else { before[pix(w, x, y)] }),
        decreases b.1 + b.3 - sy,
    {
        let mut sx = b.0;
        while sx < b.0 + b.2
            invariant
                w == width as int,
                h == height as int,
                width * height <= map@.len(),
                map@.len() == before.len(),
                forall|i: int| width * height <= i < map@.len() ==> #[trigger] map@[i] == before[i],
                width * height <= usize::MAX,
                width * height <= before.len(),
                b.0 + b.2 <= width,
                b.1 + b.3 <= height,
                b.1 <= sy < b.1 + b.3,
                b.0 <= sx <= b.0 + b.2,
                forall|x: int, y: int| 0 <= x < width && 0 <= y < height ==>
                    #[trigger] map@[pix(w, x, y)] == (if in_box(b, (x as usize, y as usize)) && (y < sy || (y == sy && x < sx)) { false } else { before[pix(w, x, y)] }),
            decreases b.0 + b.2 - sx,
        {
            proof {
                lemma_pix_bounds(w, h, sx as int, sy as int);
            }
            let ghost cur = map@;
            map.set(sy * width + sx, false);
            proof {
                assert forall|x: int, y: int| 0 <= x < width && 0 <= y < height implies
                    #[trigger] map@[pix(w, x, y)] == (if in_box(b, (x as usize, y as usize)) && (y < sy || (y == sy && x < sx + 1)) { false } else { before[pix(w, x, y)] }) by {
                    lemma_pix_bounds(w, h, x, y);
                    if pix(w, x, y) == pix(w, sx as int, sy as int) {
                        lemma_pix_injective(w, x, y, sx as int, sy as int);
                    }
                }
            }
            sx = sx + 1;
        }
        sy = sy + 1;
    }
    let len_end = map.len();
    proof {
        assert forall|i: int| 0 <= i < map@.len() implies map@[i] == cleared(before, w, b)[i] by {
            if i < w * h {
                lemma_pix_div_mod(w, h, i);
            } else {
                assert(i / w >= h) by (nonlinear_arith)
                    requires
                        i >= w * h,
                        w > 0,
                {
                    if i / w < h {
                        assert(i / w <= h - 1);
                        assert(w * (i / w) <= w * (h - 1));
                        assert(i == w * (i / w) + i % w);
                    }
                }
                assert(0 <= i / w <= i) by (nonlinear_arith)
                    requires
                        i >= 0,
                        w > 0,
                ;
                assert(i < len_end);
                assert(map@[i] == before[i]);
                assert(!in_box(b, ((i % w) as usize, (i / w) as usize)));
            }
        }
        assert(map@ =~= cleared(before, w, b));
    }
}

/// A star candidate found by the scan: its pixels and the box
/// `(x, y, width, height)` it grew to.
#[derive(Debug)]
pub struct StarCandidate {
    pub pixels: Vec<(usize, usize)>,
    pub bounding_box: (usize, usize, usize, usize),
}

impl View for StarCandidate {
    type V = (Seq<(usize, usize)>, (usize, usize, usize, usize));

    open spec fn view(&self) -> Self::V {
        (self.pixels@, self.bounding_box)
    }
}

/// The candidates, as pixels and box, that the scan finds from the seed
/// position `(x, y)` on in the map `map`: each set pixel met, row by row (the
/// last row and column start nothing), grows a structure; its box is cleared
/// from the map before the scan goes on, and the structure is a candidate
/// when both sides of its box lie between `min_size` and `max_size`.
pub open spec fn scan_from(map: Seq<bool>, w: int, h: int, min_size: int, max_size: int, y: int, x: int)
    -> Seq<(Seq<(usize, usize)>, (usize, usize, usize, usize))>
    decreases h - y, w - x,
{
    if y >= h - 1 {
        Seq::empty()
    } else if x >= w - 1 {
        scan_from(map, w, h, min_size, max_size, y + 1, 0)
    } else if !map[pix(w, x, y)] {
        scan_from(map, w, h, min_size, max_size, y, x + 1)
    } else {
        let (ps, b) = grown(map, w, h, x, y);
        let rest = scan_from(cleared(map, w, b), w, h, min_size, max_size, y, x + 1);
        if min_size <= b.2 <= max_size && min_size <= b.3 <= max_size {
            seq![(ps, b)] + rest
        } else {
            rest
        }
    }
}

/// A candidate of a `w` by `h` map: its box lies in the grid with sides
/// between `min_size` and `max_size`, and its pixels are distinct set pixels
/// of the map inside the box.
pub open spec fn candidate_fits(map: Seq<bool>, w: int, h: int, min_size: int, max_size: int, c: StarCandidate) -> bool {
    let b = c.bounding_box;
    &&& min_size <= b.2 <= max_size && min_size <= b.3 <= max_size
    &&& b.0 + b.2 <= w && b.1 + b.3 <= h
    &&& c.pixels@.len() > 0
    &&& forall|i: int| 0 <= i < c.pixels@.len() ==> in_box(b, #[trigger] c.pixels@[i]) && set_at(map, w, c.pixels@[i])
    &&& distinct_pixels(c.pixels@)
}

/// Scans the map from the top left, row by row (the last row and column
/// start no structure), growing a structure from each set pixel not yet
/// taken; each structure's box is then cleared from the map, and the
/// structure is kept as a candidate when both sides of its box lie between
/// `min_star_size` and `max_star_size`.
pub fn find_star_candidates(binary_map: &[bool], width: usize, height: usize, min_star_size: usize, max_star_size: usize)
    -> (r: Vec<StarCandidate>)
    requires
        width * height <= binary_map@.len(),
        height >= 2 ==> width >= 1,
        height >= 1,
    ensures
        forall|k: int| 0 <= k < r@.len() ==> candidate_fits(binary_map@, width as int, height as int,
            min_star_size as int, max_star_size as int, #[trigger] r@[k]),
        forall|k1: int, k2: int, i: int| 0 <= k1 < k2 < r@.len() && 0 <= i < r@[k2].pixels@.len()
            ==> !in_box((#[trigger] r@[k1]).bounding_box, #[trigger] r@[k2].pixels@[i]),
        r@.map_values(|c: StarCandidate| c@) == scan_from(binary_map@, width as int, height as int,
            min_star_size as int, max_star_size as int, 0, 0),
{
    let ghost w = width as int;
    let ghost h = height as int;
    let n = binary_map.len();
    assert(width * height <= usize::MAX);
    let mut map: Vec<bool> = Vec::new();
    let mut i: usize = 0;
    while i < binary_map.len()
        invariant
            i <= binary_map@.len(),
            map@ == binary_map@.take(i as int),
        decreases binary_map@.len() - i,
    {
        map.push(binary_map[i]);
        i = i + 1;
        proof {
            assert(map@ =~= binary_map@.take(i as int));
        }
    }
    assert(map@ =~= binary_map@);
    let ghost total = scan_from(binary_map@, w, h, min_star_size as int, max_star_size as int, 0, 0);
    let mut candidates: Vec<StarCandidate> = Vec::new();
    assert(candidates@.map_values(|c: StarCandidate| c@) + scan_from(map@, w, h, min_star_size as int, max_star_size as int, 0, 0) =~= total);
    let mut y_top: usize = 0;
    while y_top < height - 1
        invariant
            w == width as int,
            h == height as int,
            height >= 2 ==> width >= 1,
            height >= 1,
            width * height <= usize::MAX,
            width * height <= binary_map@.len(),
            map@.len() == binary_map@.len(),
            y_top <= height - 1,
            total == scan_from(binary_map@, w, h, min_star_size as int, max_star_size as int, 0, 0),
            candidates@.map_values(|c: StarCandidate| c@)
                + scan_from(map@, w, h, min_star_size as int, max_star_size as int, y_top as int, 0) == total,
            forall|x: int, y: int| 0 <= x < width && 0 <= y < height && #[trigger] map@[pix(w, x, y)] ==> binary_map@[pix(w, x, y)],
            forall|k: int, x: int, y: int| 0 <= k < candidates@.len() && 0 <= x < width && 0 <= y < height
                && in_box((#[trigger] candidates@[k]).bounding_box, (x as usize, y as usize)) ==> !#[trigger] map@[pix(w, x, y)],
            forall|k: int| 0 <= k < candidates@.len() ==> candidate_fits(binary_map@, w, h,
                min_star_size as int, max_star_size as int, #[trigger] candidates@[k]),
            forall|k1: int, k2: int, j: int| 0 <= k1 < k2 < candidates@.len() && 0 <= j < candidates@[k2].pixels@.len()
                ==> !in_box((#[trigger] candidates@[k1]).bounding_box, #[trigger] candidates@[k2].pixels@[j]),
        decreases height - y_top,
    {
        let mut x_left: usize = 0;
        while x_left < width - 1
            invariant
                w == width as int,
                h == height as int,
                width >= 1,
                width * height <= usize::MAX,
                y_top < height,
                width * height <= binary_map@.len(),
                map@.len() == binary_map@.len(),
                y_top < height - 1,
                x_left <= width - 1,
                candidates@.map_values(|c: StarCandidate| c@)
                    + scan_from(map@, w, h, min_star_size as int, max_star_size as int, y_top as int, x_left as int) == total,
                forall|x: int, y: int| 0 <= x < width && 0 <= y < height && #[trigger] map@[pix(w, x, y)] ==> binary_map@[pix(w, x, y)],
                forall|k: int, x: int, y: int| 0 <= k < candidates@.len() && 0 <= x < width && 0 <= y < height
                    && in_box((#[trigger] candidates@[k]).bounding_box, (x as usize, y as usize)) ==> !#[trigger] map@[pix(w, x, y)],
                forall|k: int| 0 <= k < candidates@.len() ==> candidate_fits(binary_map@, w, h,
                    min_star_size as int, max_star_size as int, #[trigger] candidates@[k]),
                forall|k1: int, k2: int, j: int| 0 <= k1 < k2 < candidates@.len() && 0 <= j < candidates@[k2].pixels@.len()
                    ==> !in_box((#[trigger] candidates@[k1]).bounding_box, #[trigger] candidates@[k2].pixels@[j]),
            decreases width - x_left,
        {
            proof {
                lemma_pix_bounds(w, h, x_left as int, y_top as int);
            }
            let ghost m0 = map@;
            let ghost found0 = candidates@.map_values(|c: StarCandidate| c@);
            let ghost mn = min_star_size as int;
            let ghost mx = max_star_size as int;
            if map[y_top * width + x_left] {
                let (pixels, b) = grow_structure(map.as_slice(), width, height, x_left, y_top);
                let ghost rest = scan_from(cleared(m0, w, b), w, h, mn, mx, y_top as int, x_left as int + 1);
                assert(scan_from(m0, w, h, mn, mx, y_top as int, x_left as int)
                    == if mn <= b.2 <= mx && mn <= b.3 <= mx { seq![(pixels@, b)] + rest } else { rest });
                let ghost grown_map = map@;
                clear_box(&mut map, width, height, b);
                proof {
                    assert forall|x: int, y: int| 0 <= x < width && 0 <= y < height && #[trigger] map@[pix(w, x, y)]
                        implies binary_map@[pix(w, x, y)] by {
                        assert(grown_map[pix(w, x, y)]);
                    }
                    assert forall|k: int, x: int, y: int| 0 <= k < candidates@.len() && 0 <= x < width && 0 <= y < height
                        && in_box((#[trigger] candidates@[k]).bounding_box, (x as usize, y as usize)) implies !#[trigger] map@[pix(w, x, y)] by {
                        assert(!grown_map[pix(w, x, y)]);
                    }
                }
                if b.2 >= min_star_size && b.3 >= min_star_size && b.2 <= max_star_size && b.3 <= max_star_size {
                    let c = StarCandidate { pixels, bounding_box: b };
                    proof {
                        assert forall|j: int| 0 <= j < c.pixels@.len() implies in_box(b, #[trigger] c.pixels@[j])
                            && set_at(binary_map@, w, c.pixels@[j]) by {
                            let p = c.pixels@[j];
                            assert(grown_map[pix(w, p.0 as int, p.1 as int)]);
                        }
                        assert forall|k1: int, j: int| 0 <= k1 < candidates@.len() && 0 <= j < c.pixels@.len()
                            implies !in_box((#[trigger] candidates@[k1]).bounding_box, #[trigger] c.pixels@[j]) by {
                            let p = c.pixels@[j];
                            assert(grown_map[pix(w, p.0 as int, p.1 as int)]);
                            if in_box(candidates@[k1].bounding_box, p) {
                                assert(!grown_map[pix(w, p.0 as int, p.1 as int)]);
                            }
                        }
                    }
                    let ghost before = candidates@;
                    candidates.push(c);
                    proof {
                        assert forall|k1: int, k2: int, j: int| 0 <= k1 < k2 < candidates@.len() && 0 <= j < candidates@[k2].pixels@.len()
                            implies !in_box((#[trigger] candidates@[k1]).bounding_box, #[trigger] candidates@[k2].pixels@[j]) by {
                            if k2 < before.len() {
                                assert(candidates@[k1] == before[k1]);
                                assert(candidates@[k2] == before[k2]);
                            } else {
                                assert(candidates@[k1] == before[k1]);
                            }
                        }
                        assert forall|k: int, x: int, y: int| 0 <= k < candidates@.len() && 0 <= x < width && 0 <= y < height
                            && in_box((#[trigger] candidates@[k]).bounding_box, (x as usize, y as usize)) implies !#[trigger] map@[pix(w, x, y)] by {
                            if k < before.len() {
                                assert(candidates@[k] == before[k]);
                            }
                        }
                        assert(candidates@.map_values(|c: StarCandidate| c@) =~= found0.push((c.pixels@, b)));
                        assert(found0.push((c.pixels@, b)) + rest =~= found0 + (seq![(c.pixels@, b)] + rest));
                    }
                }
            } else {
                assert(scan_from(m0, w, h, mn, mx, y_top as int, x_left as int)
                    == scan_from(m0, w, h, mn, mx, y_top as int, x_left as int + 1));
            }
            x_left = x_left + 1;
        }
        assert(scan_from(map@, w, h, min_star_size as int, max_star_size as int, y_top as int, x_left as int)
            == scan_from(map@, w, h, min_star_size as int, max_star_size as int, y_top as int + 1, 0));
        y_top = y_top + 1;
    }
    assert(candidates@.map_values(|c: StarCandidate| c@)
        =~= candidates@.map_values(|c: StarCandidate| c@)
            + scan_from(map@, w, h, min_star_size as int, max_star_size as int, y_top as int, 0));
    candidates
}

/// The median of nine values: the entry at position 4 once sorted.
pub open spec fn median9(s: Seq<u16>) -> int {
    choose|m: int| kth_smallest16(s, 4, m)
}

/// The nine values of the 3x3 window centred on `(x, y)`, row by row.
pub open spec fn window9(img: Seq<u16>, w: int, x: int, y: int) -> Seq<u16> {
    seq![
        img[pix(w, x - 1, y - 1)], img[pix(w, x, y - 1)], img[pix(w, x + 1, y - 1)],
        img[pix(w, x - 1, y)], img[pix(w, x, y)], img[pix(w, x + 1, y)],
        img[pix(w, x - 1, y + 1)], img[pix(w, x, y + 1)], img[pix(w, x + 1, y + 1)],
    ]
}

/// `(x, y)` is an interior pixel: it has all eight neighbours.
pub open spec fn interior(w: int, h: int, x: int, y: int) -> bool {
    1 <= x < w - 1 && 1 <= y < h - 1
}

/// What hot-pixel filtering makes of the pixel with value `c` whose window
/// median is `m`: the median when `c` differs from it by more than
/// `threshold`, else `c`.
pub open spec fn hotpixel_value(c: int, m: int, threshold: int) -> int {
    if (if c >= m { c - m } else { m - c }) > threshold {
        m
    } else {
        c
    }
}

/// The filtered value of pixel `(x, y)`, processed when `done` holds.
pub open spec fn hotpixel_at(img: Seq<u16>, w: int, h: int, threshold: int, x: int, y: int, done: bool) -> int {
    if interior(w, h, x, y) && done {
        hotpixel_value(img[pix(w, x, y)] as int, median9(window9(img, w, x, y)), threshold)
    } else {
        img[pix(w, x, y)] as int
    }
}

/// Replaces each interior pixel that differs from the median of its 3x3
/// window by more than `threshold` ADU with that median; border pixels, and
/// the data past the grid, are kept.
pub fn apply_hotpixel_filter(data: &[u16], width: usize, height: usize, threshold: i64) -> (r: Vec<u16>)
    requires
        width * height <= data@.len(),
        height >= 1,
        height >= 3 ==> width >= 1,
    ensures
        r@.len() == data@.len(),
        forall|i: int| width * height <= i < data@.len() ==> #[trigger] r@[i] == data@[i],
        forall|x: int, y: int| 0 <= x < width && 0 <= y < height ==>
            #[trigger] r@[pix(width as int, x, y)] as int == hotpixel_at(data@, width as int, height as int, threshold as int, x, y, true),
{
    let ghost w = width as int;
    let ghost h = height as int;
    let ghost img = data@;
    let ghost t = threshold as int;
    let mut result: Vec<u16> = Vec::new();
    let mut i: usize = 0;
    while i < data.len()
        invariant
            i <= data@.len(),
            result@ == data@.take(i as int),
        decreases data@.len() - i,
    {
        result.push(data[i]);
        i = i + 1;
        proof {
            assert(result@ =~= data@.take(i as int));
        }
    }
    assert(result@ =~= data@);
    if height < 3 {
        return result;
    }
    let n = data.len();
    let mut y: usize = 1;
    while y < height - 1
        invariant
            w == width as int,
            h == height as int,
            t == threshold as int,
            img == data@,
            n == data@.len(),
            width * height <= data@.len(),
            width >= 1,
            height >= 3,
            1 <= y <= height - 1,
            result@.len() == data@.len(),
            forall|i: int| width * height <= i < data@.len() ==> #[trigger] result@[i] == data@[i],
            forall|x1: int, y1: int| 0 <= x1 < width && 0 <= y1 < height ==>
                #[trigger] result@[pix(w, x1, y1)] as int == hotpixel_at(img, w, h, t, x1, y1, y1 < y),
        decreases height - y,
    {
        let mut x: usize = 1;
        while x < width - 1
            invariant
                w == width as int,
                h == height as int,
                t == threshold as int,
                img == data@,
                n == data@.len(),
                width * height <= data@.len(),
                width >= 1,
                height >= 3,
                1 <= y < height - 1,
                x >= 1,
                result@.len() == data@.len(),
                forall|i: int| width * height <= i < data@.len() ==> #[trigger] result@[i] == data@[i],
                forall|x1: int, y1: int| 0 <= x1 < width && 0 <= y1 < height ==>
                    #[trigger] result@[pix(w, x1, y1)] as int == hotpixel_at(img, w, h, t, x1, y1, y1 < y || (y1 == y && x1 < x)),
            decreases width - x,
        {
            proof {
                lemma_pix_bounds(w, h, x as int + 1, y as int + 1);
                lemma_pix_bounds(w, h, x as int - 1, y as int - 1);
                lemma_pix_bounds(w, h, x as int + 1, y as int - 1);
                lemma_pix_bounds(w, h, x as int - 1, y as int + 1);
                lemma_pix_bounds(w, h, x as int + 1, y as int);
                lemma_pix_bounds(w, h, x as int, y as int);
            }
            let up = (y - 1) * width;
            let mid = y * width;
            let down = (y + 1) * width;
            let mut values: Vec<u16> = Vec::new();
            values.push(data[up + x - 1]);
            values.push(data[up + x]);
            values.push(data[up + x + 1]);
            values.push(data[mid + x - 1]);
            values.push(data[mid + x]);
            values.push(data[mid + x + 1]);
            values.push(data[down + x - 1]);
            values.push(data[down + x]);
            values.push(data[down + x + 1]);
            let m = kth_value16(&values, 4);
            proof {
                assert(values@ =~= window9(img, w, x as int, y as int));
                lemma_kth16_unique(values@, 4, m as int, median9(values@));
            }
            let c = data[mid + x];
            let diff: i64 = if c >= m { (c - m) as i64 } else { (m - c) as i64 };
            let ghost before = result@;
            if diff > threshold {
                result.set(mid + x, m);
            }
            proof {
                assert forall|x1: int, y1: int| 0 <= x1 < width && 0 <= y1 < height implies
                    #[trigger] result@[pix(w, x1, y1)] as int == hotpixel_at(img, w, h, t, x1, y1, y1 < y || (y1 == y && x1 < x + 1)) by {
                    lemma_pix_bounds(w, h, x1, y1);
                    if !(x1 == x && y1 == y) {
                        if pix(w, x1, y1) == pix(w, x as int, y as int) {
                            lemma_pix_injective(w, x1, y1, x as int, y as int);
                        }
                        assert(result@[pix(w, x1, y1)] == before[pix(w, x1, y1)]);
                        assert(before[pix(w, x1, y1)] as int == hotpixel_at(img, w, h, t, x1, y1, y1 < y || (y1 == y && x1 < x)));
                    }
                }
                assert forall|i: int| width * height <= i < data@.len() implies #[trigger] result@[i] == data@[i] by {
                    assert(result@[i] == before[i]);
                }
            }
            x = x + 1;
        }
        proof {
            assert forall|x1: int, y1: int| 0 <= x1 < width && 0 <= y1 < height implies
                #[trigger] result@[pix(w, x1, y1)] as int == hotpixel_at(img, w, h, t, x1, y1, y1 < y + 1) by {
                assert(result@[pix(w, x1, y1)] as int == hotpixel_at(img, w, h, t, x1, y1, y1 < y || (y1 == y && x1 < x)));
            }
        }
        y = y + 1;
    }
    proof {
        assert forall|x1: int, y1: int| 0 <= x1 < width && 0 <= y1 < height implies
            #[trigger] result@[pix(w, x1, y1)] as int == hotpixel_at(img, w, h, t, x1, y1, true) by {
            assert(result@[pix(w, x1, y1)] as int == hotpixel_at(img, w, h, t, x1, y1, y1 < y));
        }
    }
    result
}

/// The filter's replacement value is one of the window's own values.
pub proof fn law_hotpixel_median_in_window(s: Seq<u16>)
    requires
        s.len() == 9,
    ensures
        exists|i: int| 0 <= i < 9 && s[i] as int == median9(s),
{
    lemma_count16_extremes(s);
    lemma_kth16_from(s, 4, 0);
    let i = choose|i: int| 0 <= i < s.len() && kth_smallest16(s, 4, s[i] as int);
    lemma_kth16_unique(s, 4, s[i] as int, median9(s));
}

} // verus!
