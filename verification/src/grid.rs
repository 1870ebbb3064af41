//! Row-major pixel grids: indexing, neighbourhoods and the lemmas that relate
//! a pixel's coordinates to its position in the backing buffer.

use vstd::prelude::*;

verus! {

/// Position of pixel `(x, y)` in a row-major buffer of row width `w`.
pub open spec fn pix(w: int, x: int, y: int) -> int {
    y * w + x
}

/// `(x, y)` lies inside a `w` by `h` grid.
pub open spec fn in_grid(w: int, h: int, x: int, y: int) -> bool {
    0 <= x < w && 0 <= y < h
}

/// Every pixel of a grid has a position inside the buffer.
pub proof fn lemma_pix_bounds(w: int, h: int, x: int, y: int)
    requires
        in_grid(w, h, x, y),
    ensures
        0 <= pix(w, x, y) < w * h,
        pix(w, x, y) - x == y * w,
{
    assert(0 <= y * w + x < w * h) by (nonlinear_arith)
        requires
            0 <= x < w,
            0 <= y < h,
    ;
}

/// Distinct pixels occupy distinct positions.
pub proof fn lemma_pix_injective(w: int, x1: int, y1: int, x2: int, y2: int)
    requires
        0 <= x1 < w,
        0 <= x2 < w,
        0 <= y1,
        0 <= y2,
        pix(w, x1, y1) == pix(w, x2, y2),
    ensures
        x1 == x2,
        y1 == y2,
{
    if y1 < y2 {
        assert(y1 * w + w <= y2 * w) by (nonlinear_arith)
            requires
                y1 < y2,
                0 <= w,
        ;
    } else if y2 < y1 {
        assert(y2 * w + w <= y1 * w) by (nonlinear_arith)
            requires
                y2 < y1,
                0 <= w,
        ;
    }
}

/// Moving one row down moves `w` places forward in the buffer.
pub proof fn lemma_pix_step(w: int, x: int, y: int)
    ensures
        pix(w, x, y + 1) == pix(w, x, y) + w,
        pix(w, x, y - 1) == pix(w, x, y) - w,
        pix(w, x + 1, y) == pix(w, x, y) + 1,
        pix(w, x - 1, y) == pix(w, x, y) - 1,
{
    assert((y + 1) * w == y * w + w) by (nonlinear_arith);
    assert((y - 1) * w == y * w - w) by (nonlinear_arith);
}


/// A row-major position splits back into its column and row.
pub proof fn lemma_pix_div_mod(w: int, h: int, i: int)
    requires
        w > 0,
        0 <= i < w * h,
    ensures
        in_grid(w, h, i % w, i / w),
        pix(w, i % w, i / w) == i,
{
    vstd::arithmetic::div_mod::lemma_fundamental_div_mod(i, w);
    vstd::arithmetic::div_mod::lemma_mod_bound(i, w);
    let q = i / w;
    let r = i % w;
    assert(w * q == q * w) by (nonlinear_arith);
    assert(q >= 0) by {
        vstd::arithmetic::div_mod::lemma_div_pos_is_pos(i, w);
    }
    assert(q < h) by (nonlinear_arith)
        requires
            i == q * w + r,
            0 <= r < w,
            i < w * h,
            w > 0,
    ;
}

/// `(x2, y2)` is one of the eight pixels that touch `(x, y)`.
pub open spec fn adjacent8(x: int, y: int, x2: int, y2: int) -> bool {
    -1 <= x2 - x <= 1 && -1 <= y2 - y <= 1 && !(x2 == x && y2 == y)
}

/// `(x2, y2)` is one of the four pixels that share an edge with `(x, y)`.
pub open spec fn adjacent4(x: int, y: int, x2: int, y2: int) -> bool {
    (x2 == x && (y2 == y - 1 || y2 == y + 1)) || (y2 == y && (x2 == x - 1 || x2 == x + 1))
}

/// Number of entries of `s` that equal `v`.
pub open spec fn count_value(s: Seq<u8>, v: u8) -> nat
    decreases s.len(),
{
    if s.len() == 0 {
        0
    } else {
        count_value(s.drop_last(), v) + if s.last() == v {
            1nat
        } else {
            0nat
        }
    }
}

/// A sequence holds at most as many copies of a value as it has entries.
pub proof fn lemma_count_value_le_len(s: Seq<u8>, v: u8)
    ensures
        count_value(s, v) <= s.len(),
    decreases s.len(),
{
    if s.len() > 0 {
        lemma_count_value_le_len(s.drop_last(), v);
    }
}

/// Overwriting an entry that differs from `v` with `v` adds one copy of `v`.
pub proof fn lemma_count_value_update(s: Seq<u8>, i: int, v: u8)
    requires
        0 <= i < s.len(),
        s[i] != v,
    ensures
        count_value(s.update(i, v), v) == count_value(s, v) + 1,
    decreases s.len(),
{
    let t = s.update(i, v);
    if i == s.len() - 1 {
        assert(t.drop_last() =~= s.drop_last());
    } else {
        assert(t.drop_last() =~= s.drop_last().update(i, v));
        lemma_count_value_update(s.drop_last(), i, v);
    }
}


/// Pixels touch: 8-connectivity when `eight`, 4-connectivity otherwise.
pub open spec fn touches(eight: bool, a: (int, int), b: (int, int)) -> bool {
    if eight {
        adjacent8(a.0, a.1, b.0, b.1)
    } else {
        adjacent4(a.0, a.1, b.0, b.1)
    }
}

/// `p` is a foreground (non-zero) pixel of the grid.
pub open spec fn fg(img: Seq<u8>, w: int, h: int, p: (int, int)) -> bool {
    in_grid(w, h, p.0, p.1) && img[pix(w, p.0, p.1)] > 0
}

/// Consecutive pixels `s[i]` and `s[i + 1]` touch.
pub open spec fn path_step(eight: bool, s: Seq<(int, int)>, i: int) -> bool {
    touches(eight, s[i], s[i + 1])
}

/// `s` is a non-empty walk over foreground pixels, each touching the next.
pub open spec fn fg_path(img: Seq<u8>, w: int, h: int, eight: bool, s: Seq<(int, int)>) -> bool {
    &&& s.len() > 0
    &&& forall|i: int| 0 <= i < s.len() ==> fg(img, w, h, #[trigger] s[i])
    &&& forall|i: int| 0 <= i < s.len() - 1 ==> #[trigger] path_step(eight, s, i)
}

/// Foreground pixels `a` and `b` lie in the same connected component.
pub open spec fn connected(img: Seq<u8>, w: int, h: int, eight: bool, a: (int, int), b: (int, int)) -> bool {
    exists|s: Seq<(int, int)>| #[trigger] fg_path(img, w, h, eight, s) && s[0] == a && s.last() == b
}

/// A foreground pixel is connected to itself.
pub proof fn lemma_connected_refl(img: Seq<u8>, w: int, h: int, eight: bool, a: (int, int))
    requires
        fg(img, w, h, a),
    ensures
        connected(img, w, h, eight, a, a),
{
    let s = seq![a];
    assert(fg_path(img, w, h, eight, s));
}

/// Touching foreground pixels are connected.
pub proof fn lemma_connected_touch(img: Seq<u8>, w: int, h: int, eight: bool, a: (int, int), b: (int, int))
    requires
        fg(img, w, h, a),
        fg(img, w, h, b),
        touches(eight, a, b),
    ensures
        connected(img, w, h, eight, a, b),
{
    let s = seq![a, b];
    assert(path_step(eight, s, 0));
    assert(fg_path(img, w, h, eight, s));
}

/// Connectivity is symmetric.
pub proof fn lemma_connected_symm(img: Seq<u8>, w: int, h: int, eight: bool, a: (int, int), b: (int, int))
    requires
        connected(img, w, h, eight, a, b),
    ensures
        connected(img, w, h, eight, b, a),
{
    let s = choose|s: Seq<(int, int)>| #[trigger] fg_path(img, w, h, eight, s) && s[0] == a && s.last() == b;
    let n = s.len();
    let r = Seq::new(n, |i: int| s[n - 1 - i]);
    assert forall|i: int| 0 <= i < r.len() implies fg(img, w, h, #[trigger] r[i]) by {
        assert(fg(img, w, h, s[n - 1 - i]));
    }
    assert forall|i: int| 0 <= i < r.len() - 1 implies #[trigger] path_step(eight, r, i) by {
        assert(path_step(eight, s, n - 2 - i));
    }
    assert(fg_path(img, w, h, eight, r));
    assert(r[0] == b && r.last() == a);
}

/// Connectivity is transitive.
pub proof fn lemma_connected_trans(img: Seq<u8>, w: int, h: int, eight: bool, a: (int, int), b: (int, int), c: (int, int))
    requires
        connected(img, w, h, eight, a, b),
        connected(img, w, h, eight, b, c),
    ensures
        connected(img, w, h, eight, a, c),
{
    let s1 = choose|s: Seq<(int, int)>| #[trigger] fg_path(img, w, h, eight, s) && s[0] == a && s.last() == b;
    let s2 = choose|s: Seq<(int, int)>| #[trigger] fg_path(img, w, h, eight, s) && s[0] == b && s.last() == c;
    let t = s2.drop_first();
    let s = s1 + t;
    let n1 = s1.len();
    assert forall|i: int| 0 <= i < s.len() implies fg(img, w, h, #[trigger] s[i]) by {
        if i < n1 {
            assert(fg(img, w, h, s1[i]));
        } else {
            assert(fg(img, w, h, s2[i - n1 + 1]));
        }
    }
    assert forall|i: int| 0 <= i < s.len() - 1 implies #[trigger] path_step(eight, s, i) by {
        if i < n1 - 1 {
            assert(path_step(eight, s1, i));
        } else if i == n1 - 1 {
            assert(path_step(eight, s2, 0));
        } else {
            assert(path_step(eight, s2, i - n1 + 1));
        }
    }
    assert(fg_path(img, w, h, eight, s));
    if t.len() == 0 {
        assert(s.last() == s1.last());
    } else {
        assert(s.last() == s2.last());
    }
}


/// Pixel `(x1, y1)` comes before `(x, y)` in row-major order.
pub open spec fn raster_before(x1: int, y1: int, x: int, y: int) -> bool {
    y1 < y || (y1 == y && x1 < x)
}

/// Row-major order of pixels is the order of their buffer positions.
pub proof fn lemma_raster_order(w: int, h: int, x: int, y: int, x1: int, y1: int)
    requires
        in_grid(w, h, x1, y1),
        0 <= x < w,
        0 <= y,
    ensures
        (pix(w, x1, y1) < pix(w, x, y)) == raster_before(x1, y1, x, y),
{
    if y1 < y {
        assert(y1 * w + x1 < y * w + x) by (nonlinear_arith)
            requires
                y1 < y,
                0 <= x1 < w,
                0 <= x,
        ;
    } else if y1 > y {
        assert(y1 * w + x1 > y * w + x) by (nonlinear_arith)
            requires
                y1 > y,
                0 <= x1,
                0 <= x < w,
        ;
    }
}

/// Number of entries of `s` that equal `l`.
pub open spec fn count_label(s: Seq<u32>, l: u32) -> nat
    decreases s.len(),
{
    if s.len() == 0 {
        0
    } else {
        count_label(s.drop_last(), l) + if s.last() == l {
            1nat
        } else {
            0nat
        }
    }
}

/// Extending a prefix by one entry counts that entry.
pub proof fn lemma_count_label_take(s: Seq<u32>, i: int, l: u32)
    requires
        0 <= i < s.len(),
    ensures
        count_label(s.take(i + 1), l) == count_label(s.take(i), l) + if s[i] == l {
            1nat
        } else {
            0nat
        },
{
    assert(s.take(i + 1).drop_last() =~= s.take(i));
}

/// A sequence holds at most as many copies of a label as it has entries.
pub proof fn lemma_count_label_le_len(s: Seq<u32>, l: u32)
    ensures
        count_label(s, l) <= s.len(),
    decreases s.len(),
{
    if s.len() > 0 {
        lemma_count_label_le_len(s.drop_last(), l);
    }
}

/// A label that occurs is counted at least once.
pub proof fn lemma_count_label_occurs(s: Seq<u32>, i: int, l: u32)
    requires
        0 <= i < s.len(),
        s[i] == l,
    ensures
        count_label(s, l) >= 1,
    decreases s.len(),
{
    if i < s.len() - 1 {
        lemma_count_label_occurs(s.drop_last(), i, l);
    }
}

} // verus!
