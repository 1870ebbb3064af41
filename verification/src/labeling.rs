//! Connected-component labelling of binary images in two raster passes: a
//! first pass hands out provisional labels and records which of them touch,
//! a union-find forest merges the recorded pairs, and a second pass replaces
//! every label by its class's root while tallying each class's area and
//! bounding box.

use vstd::prelude::*;
use crate::grid::{pix, in_grid, adjacent4, lemma_pix_div_mod, count_label, fg, fg_path, path_step, connected, raster_before, lemma_pix_bounds, lemma_pix_injective, lemma_pix_step, lemma_connected_refl, lemma_connected_touch, lemma_connected_symm, lemma_connected_trans, lemma_raster_order, lemma_count_label_take, lemma_count_label_occurs, lemma_count_label_le_len};
use crate::union_find::{uf_wf, uf_root, link_map, link_rank, lemma_root_is_root, lemma_link, lemma_uf_chain, find_root};

verus! {

/// Some recorded equivalence is the pair `(a, b)`.
pub open spec fn has_pair(eqs: Seq<(u32, u32)>, a: u32, b: u32) -> bool {
    exists|j: int| 0 <= j < eqs.len() && #[trigger] eqs[j] == (a, b)
}

/// First-pass labels so far: a foreground pixel before `(cx, cy)` in raster
/// order carries a positive label below `next`, every other pixel 0.
#[verifier::opaque]
pub open spec fn fp_labels(img: Seq<u8>, w: int, h: int, lab: Seq<u32>, next: int, cx: int, cy: int) -> bool {
    &&& lab.len() == w * h
    &&& forall|x: int, y: int| #![trigger lab[pix(w, x, y)]]
        in_grid(w, h, x, y) ==> (lab[pix(w, x, y)] as int) < next && (lab[pix(w, x, y)] > 0 <==> (raster_before(x, y, cx, cy) && img[pix(w, x, y)] > 0))
}

/// Every labelled pixel is connected to the pixel that created its label.
#[verifier::opaque]
pub open spec fn fp_connected(img: Seq<u8>, w: int, h: int, lab: Seq<u32>, rep: Seq<(int, int)>) -> bool {
    forall|x: int, y: int| #![trigger lab[pix(w, x, y)]]
        in_grid(w, h, x, y) && lab[pix(w, x, y)] > 0 ==> connected(img, w, h, false, (x, y), rep[lab[pix(w, x, y)] as int])
}

/// The pixels that created labels `1..next` are foreground pixels.
#[verifier::opaque]
pub open spec fn fp_rep(img: Seq<u8>, w: int, h: int, next: int, rep: Seq<(int, int)>) -> bool {
    &&& 1 <= next
    &&& rep.len() == next
    &&& forall|l: int| 1 <= l < next ==> fg(img, w, h, #[trigger] rep[l])
}

/// Recorded equivalences join labels whose creating pixels are connected.
#[verifier::opaque]
pub open spec fn fp_eqs(img: Seq<u8>, w: int, h: int, next: int, eqs: Seq<(u32, u32)>, rep: Seq<(int, int)>) -> bool {
    forall|j: int| 0 <= j < eqs.len() ==> 1 <= (#[trigger] eqs[j]).0 < next && 1 <= eqs[j].1 < next
        && connected(img, w, h, false, rep[eqs[j].0 as int], rep[eqs[j].1 as int])
}

/// A labelled pixel's label equals its labelled left neighbour's, up to a recorded equivalence.
#[verifier::opaque]
pub open spec fn fp_left(w: int, h: int, lab: Seq<u32>, eqs: Seq<(u32, u32)>) -> bool {
    forall|x: int, y: int| #![trigger lab[pix(w, x, y)]]
        in_grid(w, h, x, y) && x > 0 && lab[pix(w, x, y)] > 0 && lab[pix(w, x - 1, y)] > 0 ==>
            lab[pix(w, x, y)] == lab[pix(w, x - 1, y)] || has_pair(eqs, lab[pix(w, x, y)], lab[pix(w, x - 1, y)])
}

/// A labelled pixel's label equals its labelled upper neighbour's, up to a recorded equivalence.
#[verifier::opaque]
pub open spec fn fp_top(w: int, h: int, lab: Seq<u32>, eqs: Seq<(u32, u32)>) -> bool {
    forall|x: int, y: int| #![trigger lab[pix(w, x, y)]]
        in_grid(w, h, x, y) && y > 0 && lab[pix(w, x, y)] > 0 && lab[pix(w, x, y - 1)] > 0 ==>
            lab[pix(w, x, y)] == lab[pix(w, x, y - 1)] || has_pair(eqs, lab[pix(w, x, y)], lab[pix(w, x, y - 1)])
}

/// Provisional labels after the first raster pass over the pixels before
/// `(cx, cy)`.
pub open spec fn first_pass_inv(img: Seq<u8>, w: int, h: int, lab: Seq<u32>, next: int, eqs: Seq<(u32, u32)>, rep: Seq<(int, int)>, cx: int, cy: int) -> bool {
    &&& fp_labels(img, w, h, lab, next, cx, cy)
    &&& fp_connected(img, w, h, lab, rep)
    &&& fp_rep(img, w, h, next, rep)
    &&& fp_eqs(img, w, h, next, eqs, rep)
    &&& fp_left(w, h, lab, eqs)
    &&& fp_top(w, h, lab, eqs)
}

/// The state change made by labelling one pixel of the first pass.
pub open spec fn label_step(img: Seq<u8>, w: int, h: int, x: int, y: int,
    lab0: Seq<u32>, lab: Seq<u32>, next0: int, next: int, eqs0: Seq<(u32, u32)>, eqs: Seq<(u32, u32)>,
    rep0: Seq<(int, int)>, rep: Seq<(int, int)>) -> bool {
    let l = if x > 0 { lab0[pix(w, x - 1, y)] } else { 0u32 };
    let t = if y > 0 { lab0[pix(w, x, y - 1)] } else { 0u32 };
    if img[pix(w, x, y)] == 0 {
        lab == lab0 && next == next0 && eqs == eqs0 && rep == rep0
    } else if l == 0 && t == 0 {
        lab == lab0.update(pix(w, x, y), next0 as u32) && next == next0 + 1 && eqs == eqs0 && rep == rep0.push((x, y))
    } else {
        let m = if l == 0 { t } else if t == 0 { l } else if l < t { l } else { t };
        &&& lab == lab0.update(pix(w, x, y), m)
        &&& next == next0
        &&& rep == rep0
        &&& eqs == (if l > 0 && t > 0 && l != t { eqs0.push((m, if m == l { t } else { l })) } else { eqs0 })
    }
}

/// Labelling one pixel extends the first-pass invariant by that pixel.
#[verifier::spinoff_prover]
proof fn lemma_label_step(img: Seq<u8>, w: int, h: int, x: int, y: int,
    lab0: Seq<u32>, lab: Seq<u32>, next0: int, next: int, eqs0: Seq<(u32, u32)>, eqs: Seq<(u32, u32)>,
    rep0: Seq<(int, int)>, rep: Seq<(int, int)>)
    requires
        in_grid(w, h, x, y),
        next0 < u32::MAX,
        first_pass_inv(img, w, h, lab0, next0, eqs0, rep0, x, y),
        label_step(img, w, h, x, y, lab0, lab, next0, next, eqs0, eqs, rep0, rep),
    ensures
        first_pass_inv(img, w, h, lab, next, eqs, rep, x + 1, y),
{
    let idx = pix(w, x, y);
    let l = if x > 0 { lab0[pix(w, x - 1, y)] } else { 0u32 };
    let t = if y > 0 { lab0[pix(w, x, y - 1)] } else { 0u32 };
    let p = (x, y);
    lemma_pix_bounds(w, h, x, y);
    reveal(fp_labels);
    reveal(fp_rep);
    let label = lab[idx];
    assert forall|x1: int, y1: int| #![trigger lab[pix(w, x1, y1)]]
        in_grid(w, h, x1, y1) implies lab[pix(w, x1, y1)] == (if x1 == x && y1 == y { label } else { lab0[pix(w, x1, y1)] })
            && (raster_before(x1, y1, x + 1, y) == (raster_before(x1, y1, x, y) || (x1 == x && y1 == y))) by {
        lemma_pix_bounds(w, h, x1, y1);
        if pix(w, x1, y1) == idx {
            lemma_pix_injective(w, x1, y1, x, y);
        }
    }
    if x > 0 {
        lemma_pix_bounds(w, h, x - 1, y);
        assert(lab0[pix(w, x - 1, y)] > 0 ==> fg(img, w, h, (x - 1, y)));
    }
    if y > 0 {
        lemma_pix_bounds(w, h, x, y - 1);
        assert(lab0[pix(w, x, y - 1)] > 0 ==> fg(img, w, h, (x, y - 1)));
    }
    assert(fp_labels(img, w, h, lab, next, x + 1, y)) by {
        if img[idx] > 0 && !(l == 0 && t == 0) {
            assert(label == l || label == t);
        }
        assert forall|x1: int, y1: int| #![trigger lab[pix(w, x1, y1)]]
            in_grid(w, h, x1, y1) implies (lab[pix(w, x1, y1)] as int) < next
                && (lab[pix(w, x1, y1)] > 0 <==> (raster_before(x1, y1, x + 1, y) && img[pix(w, x1, y1)] > 0)) by {
            lemma_pix_bounds(w, h, x1, y1);
        }
    }
    assert forall|j: int| 0 <= j < eqs0.len() implies eqs[j] == #[trigger] eqs0[j] by {}
    assert forall|k: int| 0 <= k < next0 implies rep[k] == #[trigger] rep0[k] by {}
    assert forall|a: u32, b: u32| has_pair(eqs0, a, b) implies has_pair(eqs, a, b) by {
        let j = choose|j: int| 0 <= j < eqs0.len() && #[trigger] eqs0[j] == (a, b);
        assert(eqs[j] == eqs0[j]);
    }
    assert(fp_rep(img, w, h, next, rep));
    assert(fp_connected(img, w, h, lab, rep)) by {
        reveal(fp_connected);
        if img[idx] > 0 {
            if l == 0 && t == 0 {
                assert(rep[label as int] == p);
                lemma_connected_refl(img, w, h, false, p);
            } else if l > 0 && (t == 0 || label == l) {
                let q = (x - 1, y);
                assert(connected(img, w, h, false, q, rep0[label as int]));
                lemma_connected_touch(img, w, h, false, p, q);
                lemma_connected_trans(img, w, h, false, p, q, rep0[label as int]);
            } else {
                let q = (x, y - 1);
                assert(connected(img, w, h, false, q, rep0[label as int]));
                lemma_connected_touch(img, w, h, false, p, q);
                lemma_connected_trans(img, w, h, false, p, q, rep0[label as int]);
            }
        }
        assert forall|x1: int, y1: int| #![trigger lab[pix(w, x1, y1)]]
            in_grid(w, h, x1, y1) && lab[pix(w, x1, y1)] > 0 implies connected(img, w, h, false, (x1, y1), rep[lab[pix(w, x1, y1)] as int]) by {
            if !(x1 == x && y1 == y) {
                assert(connected(img, w, h, false, (x1, y1), rep0[lab0[pix(w, x1, y1)] as int]));
            }
        }
    }
    assert(fp_eqs(img, w, h, next, eqs, rep)) by {
        reveal(fp_eqs);
        reveal(fp_connected);
        if img[idx] > 0 && l > 0 && t > 0 && l != t {
            let ql = (x - 1, y);
            let qt = (x, y - 1);
            let rl = rep0[l as int];
            let rt = rep0[t as int];
            assert(connected(img, w, h, false, ql, rl));
            assert(connected(img, w, h, false, qt, rt));
            lemma_connected_touch(img, w, h, false, ql, p);
            lemma_connected_touch(img, w, h, false, p, qt);
            lemma_connected_trans(img, w, h, false, ql, p, qt);
            lemma_connected_trans(img, w, h, false, ql, qt, rt);
            lemma_connected_symm(img, w, h, false, ql, rl);
            lemma_connected_trans(img, w, h, false, rl, ql, rt);
            lemma_connected_symm(img, w, h, false, rl, rt);
            assert(connected(img, w, h, false, rt, rl));
        }
        assert forall|j: int| 0 <= j < eqs.len() implies 1 <= (#[trigger] eqs[j]).0 < next && 1 <= eqs[j].1 < next
            && connected(img, w, h, false, rep[eqs[j].0 as int], rep[eqs[j].1 as int]) by {
            if j < eqs0.len() {
                assert(eqs[j] == eqs0[j]);
            }
        }
    }
    assert(fp_left(w, h, lab, eqs)) by {
        reveal(fp_left);
        if img[idx] > 0 && l > 0 && t > 0 && l != t && label != l {
            assert(eqs[eqs.len() - 1] == (label, l));
            assert(has_pair(eqs, label, l));
        }
        assert forall|x1: int, y1: int| #![trigger lab[pix(w, x1, y1)]]
            in_grid(w, h, x1, y1) && x1 > 0 && lab[pix(w, x1, y1)] > 0 && lab[pix(w, x1 - 1, y1)] > 0 implies
                lab[pix(w, x1, y1)] == lab[pix(w, x1 - 1, y1)] || has_pair(eqs, lab[pix(w, x1, y1)], lab[pix(w, x1 - 1, y1)]) by {
            assert(lab[pix(w, x1 - 1, y1)] == (if x1 - 1 == x && y1 == y { label } else { lab0[pix(w, x1 - 1, y1)] }));
            if x1 - 1 == x && y1 == y {
                assert(!raster_before(x1, y1, x + 1, y));
            }
        }
    }
    assert(fp_top(w, h, lab, eqs)) by {
        reveal(fp_top);
        if img[idx] > 0 && l > 0 && t > 0 && l != t && label != t {
            assert(eqs[eqs.len() - 1] == (label, t));
            assert(has_pair(eqs, label, t));
        }
        assert forall|x1: int, y1: int| #![trigger lab[pix(w, x1, y1)]]
            in_grid(w, h, x1, y1) && y1 > 0 && lab[pix(w, x1, y1)] > 0 && lab[pix(w, x1, y1 - 1)] > 0 implies
                lab[pix(w, x1, y1)] == lab[pix(w, x1, y1 - 1)] || has_pair(eqs, lab[pix(w, x1, y1)], lab[pix(w, x1, y1 - 1)]) by {
            assert(lab[pix(w, x1, y1 - 1)] == (if x1 == x && y1 - 1 == y { label } else { lab0[pix(w, x1, y1 - 1)] }));
            if x1 == x && y1 - 1 == y {
                assert(!raster_before(x1, y1, x + 1, y));
            }
        }
    }
}

/// Labels pixel `(x, y)` during the first pass, extending the invariant by one pixel.
fn label_pixel(image: &[u8], width: usize, height: usize, labels: &mut Vec<u32>, next_label: &mut u32,
    equivalences: &mut Vec<(u32, u32)>, x: usize, y: usize, Ghost(rep_in): Ghost<Seq<(int, int)>>) -> (rep_out: Ghost<Seq<(int, int)>>)
    requires
        width * height <= image@.len(),
        width * height < u32::MAX,
        x < width,
        y < height,
        *old(next_label) as int <= pix(width as int, x as int, y as int) + 1,
        first_pass_inv(image@, width as int, height as int, old(labels)@, *old(next_label) as int, old(equivalences)@, rep_in, x as int, y as int),
    ensures
        *final(next_label) as int <= pix(width as int, x as int, y as int) + 2,
        first_pass_inv(image@, width as int, height as int, final(labels)@, *final(next_label) as int, final(equivalences)@, rep_out@, x as int + 1, y as int),
{
    let ghost w = width as int;
    let ghost h = height as int;
    let ghost lab0 = labels@;
    let ghost eqs0 = equivalences@;
    let ghost next0 = *next_label as int;
    let ghost mut rep = rep_in;
    proof {
        lemma_pix_bounds(w, h, x as int, y as int);
        lemma_pix_step(w, x as int, y as int);
        reveal(fp_labels);
        if x > 0 {
            lemma_pix_bounds(w, h, x as int - 1, y as int);
        }
        if y > 0 {
            lemma_pix_bounds(w, h, x as int, y as int - 1);
        }
    }
    let idx = y * width + x;
    if image[idx] > 0 {
        let l: u32 = if x > 0 { labels[idx - 1] } else { 0 };
        let t: u32 = if y > 0 { labels[idx - width] } else { 0 };
        if l == 0 && t == 0 {
            labels.set(idx, *next_label);
            proof { rep = rep.push((x as int, y as int)); }
            *next_label = *next_label + 1;
        } else {
            let m = if l == 0 { t } else if t == 0 { l } else if l < t { l } else { t };
            if l > 0 && t > 0 && l != t {
                if m == l {
                    equivalences.push((m, t));
                } else {
                    equivalences.push((m, l));
                }
            }
            labels.set(idx, m);
        }
    }
    proof {
        lemma_pix_bounds(w, h, x as int, y as int);
        lemma_label_step(image@, w, h, x as int, y as int, lab0, labels@, next0, *next_label as int, eqs0, equivalences@, rep_in, rep);
    }
    Ghost(rep)
}


/// Every recorded equivalence before position `j` joins two labels with a common root.
#[verifier::opaque]
pub open spec fn uf_pairs_joined(map: Seq<u32>, rank: Seq<nat>, bound: nat, eqs: Seq<(u32, u32)>, j: int) -> bool {
    forall|i: int| 0 <= i < j ==> uf_root(map, rank, bound, (#[trigger] eqs[i]).0 as int) == uf_root(map, rank, bound, eqs[i].1 as int)
}

/// Labels with a common root were created at connected pixels.
#[verifier::opaque]
pub open spec fn uf_sound(img: Seq<u8>, w: int, h: int, map: Seq<u32>, rank: Seq<nat>, bound: nat, rep: Seq<(int, int)>, next: int) -> bool {
    forall|a: int, b: int| 1 <= a < next && 1 <= b < next && #[trigger] uf_root(map, rank, bound, a) == #[trigger] uf_root(map, rank, bound, b)
        ==> connected(img, w, h, false, rep[a], rep[b])
}

/// Label 0 stays its own root and every other label has a positive root.
#[verifier::opaque]
pub open spec fn uf_positive(map: Seq<u32>, rank: Seq<nat>, bound: nat, next: int) -> bool {
    &&& map[0] == 0
    &&& forall|a: int| 1 <= a < next ==> #[trigger] uf_root(map, rank, bound, a) >= 1
}

/// Invariant of the equivalence-resolution pass after the first `j` pairs.
pub open spec fn resolve_inv(img: Seq<u8>, w: int, h: int, map: Seq<u32>, rank: Seq<nat>, bound: nat,
    eqs: Seq<(u32, u32)>, j: int, rep: Seq<(int, int)>, next: int) -> bool {
    &&& map.len() == next
    &&& uf_wf(map, rank, bound)
    &&& uf_pairs_joined(map, rank, bound, eqs, j)
    &&& uf_sound(img, w, h, map, rank, bound, rep, next)
    &&& uf_positive(map, rank, bound, next)
}

/// Joining the roots of one recorded equivalence keeps the resolution invariant.
#[verifier::spinoff_prover]
proof fn lemma_resolve_step(img: Seq<u8>, w: int, h: int, map: Seq<u32>, rank: Seq<nat>, bound: nat,
    eqs: Seq<(u32, u32)>, j: int, rep: Seq<(int, int)>, next: int)
    requires
        0 <= j < eqs.len(),
        resolve_inv(img, w, h, map, rank, bound, eqs, j, rep, next),
        fp_eqs(img, w, h, next, eqs, rep),
        fp_rep(img, w, h, next, rep),
    ensures
        ({
            let r1 = uf_root(map, rank, bound, eqs[j].0 as int);
            let r2 = uf_root(map, rank, bound, eqs[j].1 as int);
            if r1 == r2 {
                resolve_inv(img, w, h, map, rank, bound, eqs, j + 1, rep, next)
            } else {
                resolve_inv(img, w, h, link_map(map, r1, r2), link_rank(rank, r1, r2), bound + 1, eqs, j + 1, rep, next)
            }
        }),
{
    reveal(fp_eqs);
    reveal(fp_rep);
    reveal(uf_pairs_joined);
    reveal(uf_sound);
    reveal(uf_positive);
    let l1 = eqs[j].0 as int;
    let l2 = eqs[j].1 as int;
    assert(1 <= l1 < next && 1 <= l2 < next && connected(img, w, h, false, rep[l1], rep[l2]));
    let r1 = uf_root(map, rank, bound, l1);
    let r2 = uf_root(map, rank, bound, l2);
    lemma_root_is_root(map, rank, bound, l1);
    lemma_root_is_root(map, rank, bound, l2);
    if r1 != r2 {
        let m2 = link_map(map, r1, r2);
        let k2 = link_rank(rank, r1, r2);
        let b2 = bound + 1;
        assert forall|a: int| 0 <= a < next implies #[trigger] uf_root(m2, k2, b2, a) == (if uf_root(map, rank, bound, a) == r2 { r1 } else { uf_root(map, rank, bound, a) }) by {
            lemma_link(map, rank, bound, r1, r2, a);
        }
        lemma_link(map, rank, bound, r1, r2, 0);
        assert(uf_wf(m2, k2, b2));
        assert(uf_pairs_joined(m2, k2, b2, eqs, j + 1)) by {
            assert forall|i: int| 0 <= i < j + 1 implies uf_root(m2, k2, b2, (#[trigger] eqs[i]).0 as int) == uf_root(m2, k2, b2, eqs[i].1 as int) by {
                assert(0 <= eqs[i].0 < next && 0 <= eqs[i].1 < next);
            }
        }
        assert(uf_positive(m2, k2, b2, next)) by {
            assert(uf_root(map, rank, bound, 0) == 0);
            assert(r2 >= 1);
        }
        assert(uf_sound(img, w, h, m2, k2, b2, rep, next)) by {
            assert forall|a: int, b: int| 1 <= a < next && 1 <= b < next && #[trigger] uf_root(m2, k2, b2, a) == #[trigger] uf_root(m2, k2, b2, b)
                implies connected(img, w, h, false, rep[a], rep[b]) by {
                let ra = uf_root(map, rank, bound, a);
                let rb = uf_root(map, rank, bound, b);
                if ra == rb {
                } else if ra == r2 {
                    // a ~ l2 ~ l1 ~ b
                    assert(rb == r1);
                    assert(connected(img, w, h, false, rep[a], rep[l2]));
                    assert(connected(img, w, h, false, rep[l1], rep[b]));
                    lemma_connected_symm(img, w, h, false, rep[l1], rep[l2]);
                    lemma_connected_trans(img, w, h, false, rep[a], rep[l2], rep[l1]);
                    lemma_connected_trans(img, w, h, false, rep[a], rep[l1], rep[b]);
                } else {
                    // a ~ l1 ~ l2 ~ b
                    assert(rb == r2 && ra == r1);
                    assert(connected(img, w, h, false, rep[a], rep[l1]));
                    assert(connected(img, w, h, false, rep[l2], rep[b]));
                    lemma_connected_trans(img, w, h, false, rep[a], rep[l1], rep[l2]);
                    lemma_connected_trans(img, w, h, false, rep[a], rep[l2], rep[b]);
                }
            }
        }
    }
}

/// Second pass input: resolves the recorded equivalences with a union-find
/// forest over labels `0..next_label`.
fn resolve_equivalences(equivalences: &Vec<(u32, u32)>, next_label: u32,
    Ghost(img): Ghost<Seq<u8>>, Ghost(w): Ghost<int>, Ghost(h): Ghost<int>, Ghost(rep): Ghost<Seq<(int, int)>>)
    -> (res: (Vec<u32>, Ghost<Seq<nat>>, Ghost<nat>))
    requires
        fp_eqs(img, w, h, next_label as int, equivalences@, rep),
        fp_rep(img, w, h, next_label as int, rep),
    ensures
        resolve_inv(img, w, h, res.0@, res.1@, res.2@, equivalences@, equivalences@.len() as int, rep, next_label as int),
{
    let mut label_map: Vec<u32> = Vec::new();
    let mut i: u32 = 0;
    while i < next_label
        invariant
            i <= next_label,
            label_map@.len() == i,
            forall|k: int| 0 <= k < i ==> #[trigger] label_map@[k] as int == k,
        decreases next_label - i,
    {
        label_map.push(i);
        i = i + 1;
    }
    let ghost mut rank: Seq<nat> = Seq::new(next_label as nat, |k: int| 0nat);
    let ghost mut bound: nat = 0;
    proof {
        reveal(fp_rep);
        reveal(uf_pairs_joined);
        reveal(uf_sound);
        reveal(uf_positive);
        assert forall|a: int| 0 <= a < next_label implies #[trigger] uf_root(label_map@, rank, bound, a) == a by {
            crate::union_find::lemma_identity_roots(label_map@, rank, a);
        }
        assert(uf_wf(label_map@, rank, bound));
        assert forall|a: int, b: int| 1 <= a < next_label && 1 <= b < next_label && #[trigger] uf_root(label_map@, rank, bound, a) == #[trigger] uf_root(label_map@, rank, bound, b)
            implies connected(img, w, h, false, rep[a], rep[b]) by {
            lemma_connected_refl(img, w, h, false, rep[a]);
        }
        assert(resolve_inv(img, w, h, label_map@, rank, bound, equivalences@, 0, rep, next_label as int));
    }
    let mut j: usize = 0;
    while j < equivalences.len()
        invariant
            j <= equivalences@.len(),
            fp_eqs(img, w, h, next_label as int, equivalences@, rep),
            fp_rep(img, w, h, next_label as int, rep),
            resolve_inv(img, w, h, label_map@, rank, bound, equivalences@, j as int, rep, next_label as int),
        decreases equivalences@.len() - j,
    {
        let (l1, l2) = equivalences[j];
        proof {
            reveal(fp_eqs);
            lemma_resolve_step(img, w, h, label_map@, rank, bound, equivalences@, j as int, rep, next_label as int);
        }
        let ghost mut n1: nat = 0;
        let ghost mut n2: nat = 0;
        proof {
            n1 = lemma_uf_chain(label_map@, rank, bound, l1 as int);
            n2 = lemma_uf_chain(label_map@, rank, bound, l2 as int);
        }
        let r1 = find_root(&label_map, l1);
        let r2 = find_root(&label_map, l2);
        assert(r1 as int == uf_root(label_map@, rank, bound, l1 as int));
        assert(r2 as int == uf_root(label_map@, rank, bound, l2 as int));
        if r1 != r2 {
            proof {
                lemma_root_is_root(label_map@, rank, bound, l2 as int);
                rank = link_rank(rank, r1 as int, r2 as int);
                bound = bound + 1;
            }
            label_map.set(r2 as usize, r1);
        }
        j = j + 1;
    }
    (label_map, Ghost(rank), Ghost(bound))
}


/// Root labels: every provisional label replaced by the root of its class.
pub open spec fn final_labels(lab0: Seq<u32>, map: Seq<u32>, rank: Seq<nat>, bound: nat) -> Seq<u32> {
    Seq::new(lab0.len(), |i: int| uf_root(map, rank, bound, lab0[i] as int) as u32)
}

/// `(x0, y0)`–`(x1, y1)` is the bounding box of the pixels labelled `l` among
/// those before `(cx, cy)` in raster order (each side touched by such a pixel).
#[verifier::opaque]
pub open spec fn bbox_upto(lab: Seq<u32>, w: int, h: int, l: u32, x0: int, y0: int, x1: int, y1: int, cx: int, cy: int) -> bool {
    &&& forall|x: int, y: int| #![trigger lab[pix(w, x, y)]]
        in_grid(w, h, x, y) && raster_before(x, y, cx, cy) && lab[pix(w, x, y)] == l ==> x0 <= x <= x1 && y0 <= y <= y1
    &&& exists|x: int, y: int| #![trigger lab[pix(w, x, y)]] in_grid(w, h, x, y) && raster_before(x, y, cx, cy) && lab[pix(w, x, y)] == l && x == x0
    &&& exists|x: int, y: int| #![trigger lab[pix(w, x, y)]] in_grid(w, h, x, y) && raster_before(x, y, cx, cy) && lab[pix(w, x, y)] == l && x == x1
    &&& exists|x: int, y: int| #![trigger lab[pix(w, x, y)]] in_grid(w, h, x, y) && raster_before(x, y, cx, cy) && lab[pix(w, x, y)] == l && y == y0
    &&& exists|x: int, y: int| #![trigger lab[pix(w, x, y)]] in_grid(w, h, x, y) && raster_before(x, y, cx, cy) && lab[pix(w, x, y)] == l && y == y1
}

/// Per-label tallies of the second pass over the pixels before `(cx, cy)`.
pub open spec fn measure_inv(fl: Seq<u32>, w: int, h: int, area: Seq<usize>, minx: Seq<i32>, miny: Seq<i32>,
    maxx: Seq<i32>, maxy: Seq<i32>, next: int, cx: int, cy: int) -> bool {
    &&& area.len() == next && minx.len() == next && miny.len() == next && maxx.len() == next && maxy.len() == next
    &&& area[0] == 0
    &&& forall|l: int| 1 <= l < next ==> #[trigger] area[l] as int == count_label(fl.take(pix(w, cx, cy)), l as u32)
    &&& forall|l: int| 1 <= l < next && #[trigger] area[l] > 0 ==> bbox_upto(fl, w, h, l as u32, minx[l] as int, miny[l] as int, maxx[l] as int, maxy[l] as int, cx, cy)
}

/// Moving the scan past a pixel with another label keeps a bounding box.
proof fn lemma_bbox_skip(lab: Seq<u32>, w: int, h: int, l: u32, x0: int, y0: int, x1: int, y1: int, x: int, y: int)
    requires
        in_grid(w, h, x, y),
        lab[pix(w, x, y)] != l,
        bbox_upto(lab, w, h, l, x0, y0, x1, y1, x, y),
    ensures
        bbox_upto(lab, w, h, l, x0, y0, x1, y1, x + 1, y),
{
    reveal(bbox_upto);
    assert forall|xa: int, ya: int| #![trigger lab[pix(w, xa, ya)]]
        in_grid(w, h, xa, ya) && raster_before(xa, ya, x + 1, y) && lab[pix(w, xa, ya)] == l implies x0 <= xa <= x1 && y0 <= ya <= y1 by {
        if !raster_before(xa, ya, x, y) {
            assert(xa == x && ya == y);
        }
    }
    let (a0, b0) = choose|xa: int, ya: int| #![trigger lab[pix(w, xa, ya)]] in_grid(w, h, xa, ya) && raster_before(xa, ya, x, y) && lab[pix(w, xa, ya)] == l && xa == x0;
    assert(raster_before(a0, b0, x + 1, y) && lab[pix(w, a0, b0)] == l);
    let (a1, b1) = choose|xa: int, ya: int| #![trigger lab[pix(w, xa, ya)]] in_grid(w, h, xa, ya) && raster_before(xa, ya, x, y) && lab[pix(w, xa, ya)] == l && xa == x1;
    assert(raster_before(a1, b1, x + 1, y) && lab[pix(w, a1, b1)] == l);
    let (a2, b2) = choose|xa: int, ya: int| #![trigger lab[pix(w, xa, ya)]] in_grid(w, h, xa, ya) && raster_before(xa, ya, x, y) && lab[pix(w, xa, ya)] == l && ya == y0;
    assert(raster_before(a2, b2, x + 1, y) && lab[pix(w, a2, b2)] == l);
    let (a3, b3) = choose|xa: int, ya: int| #![trigger lab[pix(w, xa, ya)]] in_grid(w, h, xa, ya) && raster_before(xa, ya, x, y) && lab[pix(w, xa, ya)] == l && ya == y1;
    assert(raster_before(a3, b3, x + 1, y) && lab[pix(w, a3, b3)] == l);
}

/// The first pixel met with label `l` is its own bounding box.
proof fn lemma_bbox_start(lab: Seq<u32>, w: int, h: int, l: u32, x: int, y: int)
    requires
        in_grid(w, h, x, y),
        lab[pix(w, x, y)] == l,
        forall|xa: int, ya: int| #![trigger lab[pix(w, xa, ya)]]
            in_grid(w, h, xa, ya) && raster_before(xa, ya, x, y) ==> lab[pix(w, xa, ya)] != l,
    ensures
        bbox_upto(lab, w, h, l, x, y, x, y, x + 1, y),
{
    reveal(bbox_upto);
    assert forall|xa: int, ya: int| #![trigger lab[pix(w, xa, ya)]]
        in_grid(w, h, xa, ya) && raster_before(xa, ya, x + 1, y) && lab[pix(w, xa, ya)] == l implies x <= xa <= x && y <= ya <= y by {
        if raster_before(xa, ya, x, y) {
            assert(lab[pix(w, xa, ya)] != l);
        }
    }
    assert(raster_before(x, y, x + 1, y));
}

/// Meeting another pixel with label `l` stretches its bounding box over it.
proof fn lemma_bbox_grow(lab: Seq<u32>, w: int, h: int, l: u32, x0: int, y0: int, x1: int, y1: int, x: int, y: int)
    requires
        in_grid(w, h, x, y),
        lab[pix(w, x, y)] == l,
        bbox_upto(lab, w, h, l, x0, y0, x1, y1, x, y),
    ensures
        bbox_upto(lab, w, h, l, if x < x0 { x } else { x0 }, if y < y0 { y } else { y0 },
            if x > x1 { x } else { x1 }, if y > y1 { y } else { y1 }, x + 1, y),
{
    reveal(bbox_upto);
    let nx0 = if x < x0 { x } else { x0 };
    let ny0 = if y < y0 { y } else { y0 };
    let nx1 = if x > x1 { x } else { x1 };
    let ny1 = if y > y1 { y } else { y1 };
    assert forall|xa: int, ya: int| #![trigger lab[pix(w, xa, ya)]]
        in_grid(w, h, xa, ya) && raster_before(xa, ya, x + 1, y) && lab[pix(w, xa, ya)] == l implies nx0 <= xa <= nx1 && ny0 <= ya <= ny1 by {
        if !raster_before(xa, ya, x, y) {
            assert(xa == x && ya == y);
        }
    }
    assert(raster_before(x, y, x + 1, y));
    let (a0, b0) = choose|xa: int, ya: int| #![trigger lab[pix(w, xa, ya)]] in_grid(w, h, xa, ya) && raster_before(xa, ya, x, y) && lab[pix(w, xa, ya)] == l && xa == x0;
    assert(raster_before(a0, b0, x + 1, y) && lab[pix(w, a0, b0)] == l);
    let (a1, b1) = choose|xa: int, ya: int| #![trigger lab[pix(w, xa, ya)]] in_grid(w, h, xa, ya) && raster_before(xa, ya, x, y) && lab[pix(w, xa, ya)] == l && xa == x1;
    assert(raster_before(a1, b1, x + 1, y) && lab[pix(w, a1, b1)] == l);
    let (a2, b2) = choose|xa: int, ya: int| #![trigger lab[pix(w, xa, ya)]] in_grid(w, h, xa, ya) && raster_before(xa, ya, x, y) && lab[pix(w, xa, ya)] == l && ya == y0;
    assert(raster_before(a2, b2, x + 1, y) && lab[pix(w, a2, b2)] == l);
    let (a3, b3) = choose|xa: int, ya: int| #![trigger lab[pix(w, xa, ya)]] in_grid(w, h, xa, ya) && raster_before(xa, ya, x, y) && lab[pix(w, xa, ya)] == l && ya == y1;
    assert(raster_before(a3, b3, x + 1, y) && lab[pix(w, a3, b3)] == l);
}

/// A bounding box lies inside the grid, its low corner before its high one.
proof fn lemma_bbox_bounds(lab: Seq<u32>, w: int, h: int, l: u32, x0: int, y0: int, x1: int, y1: int, cx: int, cy: int)
    requires
        bbox_upto(lab, w, h, l, x0, y0, x1, y1, cx, cy),
    ensures
        0 <= x0 <= x1 < w,
        0 <= y0 <= y1 < h,
{
    reveal(bbox_upto);
    let (a0, b0) = choose|xa: int, ya: int| #![trigger lab[pix(w, xa, ya)]] in_grid(w, h, xa, ya) && raster_before(xa, ya, cx, cy) && lab[pix(w, xa, ya)] == l && xa == x0;
    assert(lab[pix(w, a0, b0)] == l);
    let (a1, b1) = choose|xa: int, ya: int| #![trigger lab[pix(w, xa, ya)]] in_grid(w, h, xa, ya) && raster_before(xa, ya, cx, cy) && lab[pix(w, xa, ya)] == l && xa == x1;
    assert(lab[pix(w, a1, b1)] == l);
    let (a2, b2) = choose|xa: int, ya: int| #![trigger lab[pix(w, xa, ya)]] in_grid(w, h, xa, ya) && raster_before(xa, ya, cx, cy) && lab[pix(w, xa, ya)] == l && ya == y0;
    assert(lab[pix(w, a2, b2)] == l);
    let (a3, b3) = choose|xa: int, ya: int| #![trigger lab[pix(w, xa, ya)]] in_grid(w, h, xa, ya) && raster_before(xa, ya, cx, cy) && lab[pix(w, xa, ya)] == l && ya == y1;
    assert(lab[pix(w, a3, b3)] == l);
}

/// Tallying pixel `(x, y)` (with root label `f`, 0 for background) keeps the per-label tallies.
#[verifier::spinoff_prover]
proof fn lemma_measure_step(fl: Seq<u32>, w: int, h: int, area: Seq<usize>, minx: Seq<i32>, miny: Seq<i32>, maxx: Seq<i32>, maxy: Seq<i32>,
    area2: Seq<usize>, minx2: Seq<i32>, miny2: Seq<i32>, maxx2: Seq<i32>, maxy2: Seq<i32>, next: int, x: int, y: int)
    requires
        in_grid(w, h, x, y),
        fl.len() == w * h,
        w * h <= usize::MAX,
        next <= u32::MAX,
        measure_inv(fl, w, h, area, minx, miny, maxx, maxy, next, x, y),
        0 <= fl[pix(w, x, y)] < next,
        ({
            let f = fl[pix(w, x, y)] as int;
            if f == 0 {
                area2 == area && minx2 == minx && miny2 == miny && maxx2 == maxx && maxy2 == maxy
            } else {
                &&& area2 == area.update(f, (area[f] + 1) as usize)
                &&& minx2 == minx.update(f, (if area[f] == 0 || x < minx[f] { x } else { minx[f] as int }) as i32)
                &&& maxx2 == maxx.update(f, (if area[f] == 0 || x > maxx[f] { x } else { maxx[f] as int }) as i32)
                &&& miny2 == miny.update(f, (if area[f] == 0 || y < miny[f] { y } else { miny[f] as int }) as i32)
                &&& maxy2 == maxy.update(f, (if area[f] == 0 || y > maxy[f] { y } else { maxy[f] as int }) as i32)
            }
        }),
        w <= i32::MAX,
        h <= i32::MAX,
    ensures
        measure_inv(fl, w, h, area2, minx2, miny2, maxx2, maxy2, next, x + 1, y),
{
    let idx = pix(w, x, y);
    let f = fl[idx] as int;
    lemma_pix_bounds(w, h, x, y);
    assert(pix(w, x + 1, y) == idx + 1);
    assert forall|l: int| 1 <= l < next implies #[trigger] area2[l] as int == count_label(fl.take(idx + 1), l as u32) by {
        lemma_count_label_take(fl, idx, l as u32);
        if l == f {
            lemma_count_label_le_len(fl.take(idx), l as u32);
            assert(area[f] + 1 <= usize::MAX);
            assert(area2[l] == area[f] + 1);
        } else {
            assert(area2[l] == area[l]);
            assert(fl[idx] != l as u32);
        }
    }
    assert forall|l: int| 1 <= l < next && #[trigger] area2[l] > 0 implies bbox_upto(fl, w, h, l as u32, minx2[l] as int, miny2[l] as int, maxx2[l] as int, maxy2[l] as int, x + 1, y) by {
        if l != f {
            assert(area2[l] == area[l] && minx2[l] == minx[l] && miny2[l] == miny[l] && maxx2[l] == maxx[l] && maxy2[l] == maxy[l]);
            assert(fl[idx] != l as u32);
            lemma_bbox_skip(fl, w, h, l as u32, minx[l] as int, miny[l] as int, maxx[l] as int, maxy[l] as int, x, y);
        } else if area[l] == 0 {
            assert forall|xa: int, ya: int| #![trigger fl[pix(w, xa, ya)]]
                in_grid(w, h, xa, ya) && raster_before(xa, ya, x, y) implies fl[pix(w, xa, ya)] != l as u32 by {
                lemma_pix_bounds(w, h, xa, ya);
                lemma_raster_order(w, h, x, y, xa, ya);
                if fl[pix(w, xa, ya)] == l as u32 {
                    assert(fl.take(idx)[pix(w, xa, ya)] == l as u32);
                    lemma_count_label_occurs(fl.take(idx), pix(w, xa, ya), l as u32);
                }
            }
            lemma_bbox_start(fl, w, h, l as u32, x, y);
        } else {
            lemma_bbox_bounds(fl, w, h, l as u32, minx[l] as int, miny[l] as int, maxx[l] as int, maxy[l] as int, x, y);
            lemma_bbox_grow(fl, w, h, l as u32, minx[l] as int, miny[l] as int, maxx[l] as int, maxy[l] as int, x, y);
        }
    }
}

/// First raster pass: provisional labels from the left and upper neighbours,
/// with the equivalences met where two different labels touch.
fn first_pass(image: &[u8], width: usize, height: usize) -> (res: (Vec<u32>, u32, Vec<(u32, u32)>, Ghost<Seq<(int, int)>>))
    requires
        width * height <= image@.len(),
        width * height < u32::MAX,
    ensures
        first_pass_inv(image@, width as int, height as int, res.0@, res.1 as int, res.2@, res.3@, 0, height as int),
{
    let ghost w = width as int;
    let ghost h = height as int;
    let ghost img = image@;
    let slen = image.len();
    let n = width * height;
    let mut labels: Vec<u32> = vec![0u32; n];
    let mut next_label: u32 = 1;
    let mut equivalences: Vec<(u32, u32)> = Vec::new();
    let ghost mut rep: Seq<(int, int)> = seq![(0, 0)];
    proof {
        assert forall|x: int, y: int| #![trigger labels@[pix(w, x, y)]]
            in_grid(w, h, x, y) implies labels@[pix(w, x, y)] == 0 by {
            lemma_pix_bounds(w, h, x, y);
        }
        reveal(fp_labels);
        reveal(fp_connected);
        reveal(fp_rep);
        reveal(fp_eqs);
        reveal(fp_left);
        reveal(fp_top);
    }
    let mut y: usize = 0;
    while y < height
        invariant
            w == width, h == height, img == image@,
            n == width * height, width * height <= image@.len(), width * height < u32::MAX,
            y <= height,
            next_label as int <= pix(w, 0, y as int) + 1,
            first_pass_inv(img, w, h, labels@, next_label as int, equivalences@, rep, 0, y as int),
        decreases height - y,
    {
        let mut x: usize = 0;
        while x < width
            invariant
                w == width, h == height, img == image@,
                n == width * height, width * height <= image@.len(), width * height < u32::MAX,
                y < height,
                x <= width,
                next_label as int <= pix(w, x as int, y as int) + 1,
                first_pass_inv(img, w, h, labels@, next_label as int, equivalences@, rep, x as int, y as int),
            decreases width - x,
        {
            let rep2 = label_pixel(image, width, height, &mut labels, &mut next_label, &mut equivalences, x, y, Ghost(rep));
            proof { rep = rep2@; }
            x = x + 1;
        }
        proof {
            reveal(fp_labels);
            assert forall|x1: int, y1: int| in_grid(w, h, x1, y1) implies #[trigger] raster_before(x1, y1, w, y as int) == raster_before(x1, y1, 0, y as int + 1) by {}
            lemma_pix_step(w, 0, y as int);
            assert(first_pass_inv(img, w, h, labels@, next_label as int, equivalences@, rep, 0, y as int + 1));
        }
        y = y + 1;
    }
    proof {
        assert(first_pass_inv(img, w, h, labels@, next_label as int, equivalences@, rep, 0, h));
    }
    (labels, next_label, equivalences, Ghost(rep))
}

/// Moving the scan from the end of row `y` to the start of row `y + 1` keeps a bounding box.
proof fn lemma_bbox_row(lab: Seq<u32>, w: int, h: int, l: u32, x0: int, y0: int, x1: int, y1: int, y: int)
    requires
        bbox_upto(lab, w, h, l, x0, y0, x1, y1, w, y),
    ensures
        bbox_upto(lab, w, h, l, x0, y0, x1, y1, 0, y + 1),
{
    reveal(bbox_upto);
    assert forall|xa: int, ya: int| in_grid(w, h, xa, ya) implies #[trigger] raster_before(xa, ya, w, y) == raster_before(xa, ya, 0, y + 1) by {}
    let (a0, b0) = choose|xa: int, ya: int| #![trigger lab[pix(w, xa, ya)]] in_grid(w, h, xa, ya) && raster_before(xa, ya, w, y) && lab[pix(w, xa, ya)] == l && xa == x0;
    assert(raster_before(a0, b0, 0, y + 1) && lab[pix(w, a0, b0)] == l);
    let (a1, b1) = choose|xa: int, ya: int| #![trigger lab[pix(w, xa, ya)]] in_grid(w, h, xa, ya) && raster_before(xa, ya, w, y) && lab[pix(w, xa, ya)] == l && xa == x1;
    assert(raster_before(a1, b1, 0, y + 1) && lab[pix(w, a1, b1)] == l);
    let (a2, b2) = choose|xa: int, ya: int| #![trigger lab[pix(w, xa, ya)]] in_grid(w, h, xa, ya) && raster_before(xa, ya, w, y) && lab[pix(w, xa, ya)] == l && ya == y0;
    assert(raster_before(a2, b2, 0, y + 1) && lab[pix(w, a2, b2)] == l);
    let (a3, b3) = choose|xa: int, ya: int| #![trigger lab[pix(w, xa, ya)]] in_grid(w, h, xa, ya) && raster_before(xa, ya, w, y) && lab[pix(w, xa, ya)] == l && ya == y1;
    assert(raster_before(a3, b3, 0, y + 1) && lab[pix(w, a3, b3)] == l);
}

/// Second pass over one pixel: replaces its provisional label by its root and
/// adds it to that root's area and bounding box.
fn measure_pixel(labels: &mut Vec<u32>, label_map: &Vec<u32>, width: usize, height: usize, x: usize, y: usize,
    area: &mut Vec<usize>, minx: &mut Vec<i32>, miny: &mut Vec<i32>, maxx: &mut Vec<i32>, maxy: &mut Vec<i32>,
    Ghost(rank): Ghost<Seq<nat>>, Ghost(bound): Ghost<nat>, Ghost(fl): Ghost<Seq<u32>>)
    requires
        x < width,
        y < height,
        width <= i32::MAX,
        height <= i32::MAX,
        old(labels)@.len() == width * height,
        width * height <= usize::MAX,
        label_map@.len() <= u32::MAX,
        label_map@.len() >= 1,
        label_map@[0] == 0,
        uf_wf(label_map@, rank, bound),
        forall|a: int| 1 <= a < label_map@.len() ==> #[trigger] uf_root(label_map@, rank, bound, a) >= 1,
        fl.len() == width * height,
        ({
            let i = pix(width as int, x as int, y as int);
            &&& (old(labels)@[i] as int) < label_map@.len()
            &&& fl[i] == uf_root(label_map@, rank, bound, old(labels)@[i] as int) as u32
        }),
        measure_inv(fl, width as int, height as int, old(area)@, old(minx)@, old(miny)@, old(maxx)@, old(maxy)@, label_map@.len() as int, x as int, y as int),
    ensures
        final(labels)@ == old(labels)@.update(pix(width as int, x as int, y as int), fl[pix(width as int, x as int, y as int)]),
        measure_inv(fl, width as int, height as int, final(area)@, final(minx)@, final(miny)@, final(maxx)@, final(maxy)@, label_map@.len() as int, x as int + 1, y as int),
{
    let ghost w = width as int;
    let ghost h = height as int;
    let ghost next = label_map@.len() as int;
    let ghost a0 = area@;
    let ghost mnx = minx@;
    let ghost mny = miny@;
    let ghost mxx = maxx@;
    let ghost mxy = maxy@;
    proof {
        lemma_pix_bounds(w, h, x as int, y as int);
    }
    let idx = y * width + x;
    let l = labels[idx];
    if l > 0 {
        let ghost mut nl: nat = 0;
        proof {
            nl = lemma_uf_chain(label_map@, rank, bound, l as int);
        }
        let f = find_root(label_map, l);
        assert(f as int == uf_root(label_map@, rank, bound, l as int));
        labels.set(idx, f);
        let fi = f as usize;
        let xi = x as i32;
        let yi = y as i32;
        proof {
            lemma_count_label_le_len(fl.take(idx as int), f);
            lemma_root_is_root(label_map@, rank, bound, l as int);
        }
        let a = area[fi];
        let nx0 = if a == 0 || xi < minx[fi] { xi } else { minx[fi] };
        let nx1 = if a == 0 || xi > maxx[fi] { xi } else { maxx[fi] };
        let ny0 = if a == 0 || yi < miny[fi] { yi } else { miny[fi] };
        let ny1 = if a == 0 || yi > maxy[fi] { yi } else { maxy[fi] };
        minx.set(fi, nx0);
        maxx.set(fi, nx1);
        miny.set(fi, ny0);
        maxy.set(fi, ny1);
        area.set(fi, a + 1);
    } else {
        proof {
            assert(uf_root(label_map@, rank, bound, 0) == 0);
        }
    }
    proof {
        lemma_measure_step(fl, w, h, a0, mnx, mny, mxx, mxy, area@, minx@, miny@, maxx@, maxy@, next, x as int, y as int);
    }
}

/// Second pass: replaces every provisional label by the root of its class and
/// tallies each root's area and bounding box, indexed by label.
fn relabel_and_measure(labels: &mut Vec<u32>, label_map: &Vec<u32>, width: usize, height: usize,
    Ghost(rank): Ghost<Seq<nat>>, Ghost(bound): Ghost<nat>)
    -> (res: (Vec<usize>, Vec<i32>, Vec<i32>, Vec<i32>, Vec<i32>))
    requires
        old(labels)@.len() == width * height,
        width * height <= usize::MAX,
        width <= i32::MAX,
        height <= i32::MAX,
        label_map@.len() <= u32::MAX,
        label_map@.len() >= 1,
        label_map@[0] == 0,
        uf_wf(label_map@, rank, bound),
        forall|a: int| 1 <= a < label_map@.len() ==> #[trigger] uf_root(label_map@, rank, bound, a) >= 1,
        forall|i: int| 0 <= i < old(labels)@.len() ==> (#[trigger] old(labels)@[i] as int) < label_map@.len(),
    ensures
        final(labels)@ == final_labels(old(labels)@, label_map@, rank, bound),
        measure_inv(final(labels)@, width as int, height as int, res.0@, res.1@, res.2@, res.3@, res.4@, label_map@.len() as int, 0, height as int),
{
    let ghost w = width as int;
    let ghost h = height as int;
    let ghost lab0 = labels@;
    let ghost fl = final_labels(lab0, label_map@, rank, bound);
    let ghost next = label_map@.len() as int;
    let n = label_map.len();
    let mut area: Vec<usize> = vec![0usize; n];
    let mut minx: Vec<i32> = vec![0i32; n];
    let mut miny: Vec<i32> = vec![0i32; n];
    let mut maxx: Vec<i32> = vec![0i32; n];
    let mut maxy: Vec<i32> = vec![0i32; n];
    proof {
        assert forall|l: int| 1 <= l < next implies #[trigger] area@[l] as int == count_label(fl.take(pix(w, 0, 0)), l as u32) by {
            assert(fl.take(0).len() == 0);
        }
    }
    let mut y: usize = 0;
    while y < height
        invariant
            w == width, h == height, next == label_map@.len(),
            lab0.len() == w * h,
            width * height <= usize::MAX,
            fl == final_labels(lab0, label_map@, rank, bound),
            width <= i32::MAX,
            height <= i32::MAX,
            label_map@.len() <= u32::MAX,
            label_map@.len() >= 1,
            label_map@[0] == 0,
            uf_wf(label_map@, rank, bound),
            forall|a: int| 1 <= a < label_map@.len() ==> #[trigger] uf_root(label_map@, rank, bound, a) >= 1,
            forall|i: int| 0 <= i < lab0.len() ==> (#[trigger] lab0[i] as int) < label_map@.len(),
            y <= height,
            labels@.len() == w * h,
            forall|i: int| 0 <= i < pix(w, 0, y as int) ==> #[trigger] labels@[i] == fl[i],
            forall|i: int| pix(w, 0, y as int) <= i < w * h ==> #[trigger] labels@[i] == lab0[i],
            measure_inv(fl, w, h, area@, minx@, miny@, maxx@, maxy@, next, 0, y as int),
        decreases height - y,
    {
        let mut x: usize = 0;
        while x < width
            invariant
                w == width, h == height, next == label_map@.len(),
                lab0.len() == w * h,
                width * height <= usize::MAX,
                fl == final_labels(lab0, label_map@, rank, bound),
                width <= i32::MAX,
                height <= i32::MAX,
                label_map@.len() <= u32::MAX,
                label_map@.len() >= 1,
                label_map@[0] == 0,
                uf_wf(label_map@, rank, bound),
                forall|a: int| 1 <= a < label_map@.len() ==> #[trigger] uf_root(label_map@, rank, bound, a) >= 1,
                forall|i: int| 0 <= i < lab0.len() ==> (#[trigger] lab0[i] as int) < label_map@.len(),
                y < height,
                x <= width,
                labels@.len() == w * h,
                forall|i: int| 0 <= i < pix(w, x as int, y as int) ==> #[trigger] labels@[i] == fl[i],
                forall|i: int| pix(w, x as int, y as int) <= i < w * h ==> #[trigger] labels@[i] == lab0[i],
                measure_inv(fl, w, h, area@, minx@, miny@, maxx@, maxy@, next, x as int, y as int),
            decreases width - x,
        {
            proof {
                lemma_pix_bounds(w, h, x as int, y as int);
            }
            measure_pixel(labels, label_map, width, height, x, y, &mut area, &mut minx, &mut miny, &mut maxx, &mut maxy,
                Ghost(rank), Ghost(bound), Ghost(fl));
            proof {
                lemma_pix_step(w, x as int, y as int);
            }
            x = x + 1;
        }
        proof {
            lemma_pix_step(w, 0, y as int);
            assert(pix(w, w, y as int) == pix(w, 0, y as int + 1));
            assert forall|l: int| 1 <= l < next && #[trigger] area@[l] > 0 implies bbox_upto(fl, w, h, l as u32, minx@[l] as int, miny@[l] as int, maxx@[l] as int, maxy@[l] as int, 0, y as int + 1) by {
                lemma_bbox_row(fl, w, h, l as u32, minx@[l] as int, miny@[l] as int, maxx@[l] as int, maxy@[l] as int, y as int);
            }
        }
        y = y + 1;
    }
    proof {
        assert(pix(w, 0, h) == w * h);
        assert(labels@ =~= fl);
    }
    (area, minx, miny, maxx, maxy)
}

/// `lab` labels the 4-connected components of the non-zero pixels of `img`:
/// background pixels carry 0, foreground pixels a positive label, and two
/// foreground pixels share a label exactly when a 4-connected walk over
/// foreground pixels joins them.
pub open spec fn component_labeling(img: Seq<u8>, w: int, h: int, lab: Seq<u32>) -> bool {
    &&& lab.len() == w * h
    &&& forall|x: int, y: int| #![trigger lab[pix(w, x, y)]]
        in_grid(w, h, x, y) ==> (lab[pix(w, x, y)] > 0 <==> img[pix(w, x, y)] > 0)
    &&& forall|p: (int, int), q: (int, int)|
        #![trigger connected(img, w, h, false, p, q)]
        #![trigger lab[pix(w, p.0, p.1)], lab[pix(w, q.0, q.1)]]
        fg(img, w, h, p) && fg(img, w, h, q) ==> (lab[pix(w, p.0, p.1)] == lab[pix(w, q.0, q.1)] <==> connected(img, w, h, false, p, q))
}

/// `(x0, y0)`–`(x1, y1)` is the bounding box of the pixels labelled `l`: every
/// such pixel lies inside it and each of its four sides touches one.
pub open spec fn label_box(lab: Seq<u32>, w: int, h: int, l: u32, x0: int, y0: int, x1: int, y1: int) -> bool {
    &&& forall|x: int, y: int| #![trigger lab[pix(w, x, y)]]
        in_grid(w, h, x, y) && lab[pix(w, x, y)] == l ==> x0 <= x <= x1 && y0 <= y <= y1
    &&& exists|x: int, y: int| #![trigger lab[pix(w, x, y)]] in_grid(w, h, x, y) && lab[pix(w, x, y)] == l && x == x0
    &&& exists|x: int, y: int| #![trigger lab[pix(w, x, y)]] in_grid(w, h, x, y) && lab[pix(w, x, y)] == l && x == x1
    &&& exists|x: int, y: int| #![trigger lab[pix(w, x, y)]] in_grid(w, h, x, y) && lab[pix(w, x, y)] == l && y == y0
    &&& exists|x: int, y: int| #![trigger lab[pix(w, x, y)]] in_grid(w, h, x, y) && lab[pix(w, x, y)] == l && y == y1
}

/// Per-label tallies over a whole labelled image: label `l` of `1..area.len()`
/// covers `area[l]` pixels and, when it covers any, has the bounding box
/// `(minx[l], miny[l])`–`(maxx[l], maxy[l])`.
pub open spec fn label_tallies(lab: Seq<u32>, w: int, h: int, area: Seq<usize>, minx: Seq<i32>, miny: Seq<i32>,
    maxx: Seq<i32>, maxy: Seq<i32>) -> bool {
    &&& 1 <= area.len() <= u32::MAX
    &&& minx.len() == area.len() && miny.len() == area.len() && maxx.len() == area.len() && maxy.len() == area.len()
    &&& forall|i: int| 0 <= i < lab.len() ==> (#[trigger] lab[i] as int) < area.len()
    &&& forall|l: int| 1 <= l < area.len() ==> #[trigger] area[l] as int == count_label(lab, l as u32)
    &&& forall|l: int| 1 <= l < area.len() && #[trigger] area[l] > 0 ==>
        label_box(lab, w, h, l as u32, minx[l] as int, miny[l] as int, maxx[l] as int, maxy[l] as int)
}

/// A bounding box over the whole scan is a bounding box of the label.
proof fn lemma_bbox_full(lab: Seq<u32>, w: int, h: int, l: u32, x0: int, y0: int, x1: int, y1: int)
    requires
        bbox_upto(lab, w, h, l, x0, y0, x1, y1, 0, h),
    ensures
        label_box(lab, w, h, l, x0, y0, x1, y1),
{
    reveal(bbox_upto);
    assert forall|xa: int, ya: int| in_grid(w, h, xa, ya) implies #[trigger] raster_before(xa, ya, 0, h) by {}
    let (a0, b0) = choose|xa: int, ya: int| #![trigger lab[pix(w, xa, ya)]] in_grid(w, h, xa, ya) && raster_before(xa, ya, 0, h) && lab[pix(w, xa, ya)] == l && xa == x0;
    assert(lab[pix(w, a0, b0)] == l);
    let (a1, b1) = choose|xa: int, ya: int| #![trigger lab[pix(w, xa, ya)]] in_grid(w, h, xa, ya) && raster_before(xa, ya, 0, h) && lab[pix(w, xa, ya)] == l && xa == x1;
    assert(lab[pix(w, a1, b1)] == l);
    let (a2, b2) = choose|xa: int, ya: int| #![trigger lab[pix(w, xa, ya)]] in_grid(w, h, xa, ya) && raster_before(xa, ya, 0, h) && lab[pix(w, xa, ya)] == l && ya == y0;
    assert(lab[pix(w, a2, b2)] == l);
    let (a3, b3) = choose|xa: int, ya: int| #![trigger lab[pix(w, xa, ya)]] in_grid(w, h, xa, ya) && raster_before(xa, ya, 0, h) && lab[pix(w, xa, ya)] == l && ya == y1;
    assert(lab[pix(w, a3, b3)] == l);
}

/// After both passes, 4-adjacent foreground pixels have provisional labels with a common root.
#[verifier::spinoff_prover]
proof fn lemma_adjacent_same_root(img: Seq<u8>, w: int, h: int, lab0: Seq<u32>, next: int, eqs: Seq<(u32, u32)>,
    rep: Seq<(int, int)>, map: Seq<u32>, rank: Seq<nat>, bound: nat, p: (int, int), q: (int, int))
    requires
        first_pass_inv(img, w, h, lab0, next, eqs, rep, 0, h),
        resolve_inv(img, w, h, map, rank, bound, eqs, eqs.len() as int, rep, next),
        fg(img, w, h, p),
        fg(img, w, h, q),
        adjacent4(p.0, p.1, q.0, q.1),
    ensures
        uf_root(map, rank, bound, lab0[pix(w, p.0, p.1)] as int) == uf_root(map, rank, bound, lab0[pix(w, q.0, q.1)] as int),
{
    reveal(fp_labels);
    reveal(fp_left);
    reveal(fp_top);
    reveal(fp_eqs);
    reveal(uf_pairs_joined);
    let a = lab0[pix(w, p.0, p.1)];
    let b = lab0[pix(w, q.0, q.1)];
    assert(a > 0 && b > 0);
    let joined = a == b || has_pair(eqs, a, b) || has_pair(eqs, b, a);
    if q.1 == p.1 && q.0 == p.0 - 1 {
        assert(joined);
    } else if q.1 == p.1 && q.0 == p.0 + 1 {
        assert(lab0[pix(w, q.0 - 1, q.1)] == a);
        assert(joined);
    } else if q.0 == p.0 && q.1 == p.1 - 1 {
        assert(joined);
    } else {
        assert(lab0[pix(w, q.0, q.1 - 1)] == a);
        assert(joined);
    }
    if has_pair(eqs, a, b) {
        let j = choose|j: int| 0 <= j < eqs.len() && #[trigger] eqs[j] == (a, b);
        assert(uf_root(map, rank, bound, eqs[j].0 as int) == uf_root(map, rank, bound, eqs[j].1 as int));
    } else if has_pair(eqs, b, a) {
        let j = choose|j: int| 0 <= j < eqs.len() && #[trigger] eqs[j] == (b, a);
        assert(uf_root(map, rank, bound, eqs[j].0 as int) == uf_root(map, rank, bound, eqs[j].1 as int));
    }
}

/// Along a 4-connected walk over foreground pixels every provisional label has the same root.
proof fn lemma_path_same_root(img: Seq<u8>, w: int, h: int, lab0: Seq<u32>, next: int, eqs: Seq<(u32, u32)>,
    rep: Seq<(int, int)>, map: Seq<u32>, rank: Seq<nat>, bound: nat, s: Seq<(int, int)>, i: int)
    requires
        first_pass_inv(img, w, h, lab0, next, eqs, rep, 0, h),
        resolve_inv(img, w, h, map, rank, bound, eqs, eqs.len() as int, rep, next),
        fg_path(img, w, h, false, s),
        0 <= i < s.len(),
    ensures
        uf_root(map, rank, bound, lab0[pix(w, s[i].0, s[i].1)] as int) == uf_root(map, rank, bound, lab0[pix(w, s[0].0, s[0].1)] as int),
    decreases i,
{
    if i > 0 {
        lemma_path_same_root(img, w, h, lab0, next, eqs, rep, map, rank, bound, s, i - 1);
        assert(path_step(false, s, i - 1));
        assert(fg(img, w, h, s[i - 1]) && fg(img, w, h, s[i]));
        lemma_adjacent_same_root(img, w, h, lab0, next, eqs, rep, map, rank, bound, s[i - 1], s[i]);
    }
}

/// Foreground pixels whose provisional labels share a root are connected.
#[verifier::spinoff_prover]
proof fn lemma_same_root_connected(img: Seq<u8>, w: int, h: int, lab0: Seq<u32>, next: int, eqs: Seq<(u32, u32)>,
    rep: Seq<(int, int)>, map: Seq<u32>, rank: Seq<nat>, bound: nat, p: (int, int), q: (int, int))
    requires
        first_pass_inv(img, w, h, lab0, next, eqs, rep, 0, h),
        resolve_inv(img, w, h, map, rank, bound, eqs, eqs.len() as int, rep, next),
        fg(img, w, h, p),
        fg(img, w, h, q),
        uf_root(map, rank, bound, lab0[pix(w, p.0, p.1)] as int) == uf_root(map, rank, bound, lab0[pix(w, q.0, q.1)] as int),
    ensures
        connected(img, w, h, false, p, q),
{
    reveal(fp_labels);
    reveal(fp_connected);
    reveal(uf_sound);
    let a = lab0[pix(w, p.0, p.1)] as int;
    let b = lab0[pix(w, q.0, q.1)] as int;
    assert(1 <= a < next && 1 <= b < next);
    assert(connected(img, w, h, false, p, rep[a]));
    assert(connected(img, w, h, false, q, rep[b]));
    assert(connected(img, w, h, false, rep[a], rep[b]));
    lemma_connected_trans(img, w, h, false, p, rep[a], rep[b]);
    lemma_connected_symm(img, w, h, false, q, rep[b]);
    lemma_connected_trans(img, w, h, false, p, rep[b], q);
}

/// Replacing each provisional label by its root labels the 4-connected components.
#[verifier::spinoff_prover]
proof fn lemma_final_labels_components(img: Seq<u8>, w: int, h: int, lab0: Seq<u32>, next: int, eqs: Seq<(u32, u32)>,
    rep: Seq<(int, int)>, map: Seq<u32>, rank: Seq<nat>, bound: nat)
    requires
        0 <= w,
        0 <= h,
        next <= u32::MAX,
        first_pass_inv(img, w, h, lab0, next, eqs, rep, 0, h),
        resolve_inv(img, w, h, map, rank, bound, eqs, eqs.len() as int, rep, next),
    ensures
        component_labeling(img, w, h, final_labels(lab0, map, rank, bound)),
{
    let fl = final_labels(lab0, map, rank, bound);
    reveal(fp_labels);
    reveal(fp_rep);
    reveal(uf_positive);
    assert(uf_root(map, rank, bound, 0) == 0);
    assert forall|x: int, y: int| #![trigger fl[pix(w, x, y)]]
        in_grid(w, h, x, y) implies (fl[pix(w, x, y)] > 0 <==> img[pix(w, x, y)] > 0) by {
        lemma_pix_bounds(w, h, x, y);
        let a = lab0[pix(w, x, y)] as int;
        lemma_root_is_root(map, rank, bound, a);
    }
    assert forall|p: (int, int), q: (int, int)|
        #![trigger connected(img, w, h, false, p, q)]
        #![trigger fl[pix(w, p.0, p.1)], fl[pix(w, q.0, q.1)]]
        fg(img, w, h, p) && fg(img, w, h, q) implies (fl[pix(w, p.0, p.1)] == fl[pix(w, q.0, q.1)] <==> connected(img, w, h, false, p, q)) by {
        lemma_pix_bounds(w, h, p.0, p.1);
        lemma_pix_bounds(w, h, q.0, q.1);
        let a = lab0[pix(w, p.0, p.1)] as int;
        let b = lab0[pix(w, q.0, q.1)] as int;
        lemma_root_is_root(map, rank, bound, a);
        lemma_root_is_root(map, rank, bound, b);
        if connected(img, w, h, false, p, q) {
            let s = choose|s: Seq<(int, int)>| #[trigger] fg_path(img, w, h, false, s) && s[0] == p && s.last() == q;
            lemma_path_same_root(img, w, h, lab0, next, eqs, rep, map, rank, bound, s, s.len() - 1);
        }
        if uf_root(map, rank, bound, a) == uf_root(map, rank, bound, b) {
            lemma_same_root_connected(img, w, h, lab0, next, eqs, rep, map, rank, bound, p, q);
        }
    }
}

/// Labels the 4-connected components of the non-zero pixels of a row-major
/// `width` by `height` image and tallies each label's area and bounding box.
pub(crate) fn label_components(image: &[u8], width: usize, height: usize)
    -> (res: (Vec<u32>, Vec<usize>, Vec<i32>, Vec<i32>, Vec<i32>, Vec<i32>))
    requires
        width * height <= image@.len(),
        width * height < u32::MAX,
        width <= i32::MAX,
        height <= i32::MAX,
    ensures
        component_labeling(image@, width as int, height as int, res.0@),
        label_tallies(res.0@, width as int, height as int, res.1@, res.2@, res.3@, res.4@, res.5@),
{
    let ghost w = width as int;
    let ghost h = height as int;
    let (mut labels, next_label, equivalences, rep) = first_pass(image, width, height);
    let (label_map, rank, bound) = resolve_equivalences(&equivalences, next_label, Ghost(image@), Ghost(w), Ghost(h), rep);
    let ghost lab0 = labels@;
    proof {
        reveal(fp_labels);
        reveal(fp_rep);
        reveal(uf_positive);
        assert forall|i: int| 0 <= i < lab0.len() implies (#[trigger] lab0[i] as int) < label_map@.len() by {
            assert(w > 0) by (nonlinear_arith)
                requires
                    0 <= i < w * h,
                    0 <= h,
            ;
            lemma_pix_div_mod(w, h, i);
        }
    }
    let (area, minx, miny, maxx, maxy) = relabel_and_measure(&mut labels, &label_map, width, height, rank, bound);
    proof {
        let fl = labels@;
        lemma_final_labels_components(image@, w, h, lab0, next_label as int, equivalences@, rep@, label_map@, rank@, bound@);
        assert(fl.take(pix(w, 0, h)) =~= fl);
        assert forall|i: int| 0 <= i < fl.len() implies (#[trigger] fl[i] as int) < area@.len() by {
            lemma_root_is_root(label_map@, rank@, bound@, lab0[i] as int);
        }
        assert forall|l: int| 1 <= l < area@.len() && #[trigger] area@[l] > 0 implies
            label_box(fl, w, h, l as u32, minx@[l] as int, miny@[l] as int, maxx@[l] as int, maxy@[l] as int) by {
            lemma_bbox_full(fl, w, h, l as u32, minx@[l] as int, miny@[l] as int, maxx@[l] as int, maxy@[l] as int);
        }
    }
    (labels, area, minx, miny, maxx, maxy)
}

} // verus!
