//! Flood fill of 8-connected groups of non-zero pixels, with the facts that
//! tie a breadth-first search to the connected components of the image.

use vstd::prelude::*;
use crate::grid::{pix, in_grid, adjacent8, fg, fg_path, path_step, connected, lemma_pix_bounds,
    lemma_pix_injective, lemma_connected_refl, lemma_connected_touch, lemma_connected_trans, lemma_connected_symm};

verus! {

/// A pixel position as integers.
pub open spec fn pt(p: (usize, usize)) -> (int, int) {
    (p.0 as int, p.1 as int)
}

/// Every foreground pixel touching (8-connectivity) a member of `s` is a member.
pub open spec fn closed_under_touch(img: Seq<u8>, w: int, h: int, s: spec_fn((int, int)) -> bool) -> bool {
    forall|p: (int, int), q: (int, int)| #![trigger s(p), s(q)]
        s(p) && fg(img, w, h, q) && adjacent8(p.0, p.1, q.0, q.1) ==> s(q)
}

/// A set closed under touching holds every pixel connected to one of its members.
pub proof fn lemma_closed_holds_component(img: Seq<u8>, w: int, h: int, s: spec_fn((int, int)) -> bool,
    a: (int, int), b: (int, int))
    requires
        closed_under_touch(img, w, h, s),
        s(a),
        connected(img, w, h, true, a, b),
    ensures
        s(b),
{
    let path = choose|path: Seq<(int, int)>| #[trigger] fg_path(img, w, h, true, path) && path[0] == a && path.last() == b;
    lemma_closed_along(img, w, h, s, path, path.len() - 1);
}

/// Members of a closed set along a walk that starts in it.
proof fn lemma_closed_along(img: Seq<u8>, w: int, h: int, s: spec_fn((int, int)) -> bool, path: Seq<(int, int)>, i: int)
    requires
        closed_under_touch(img, w, h, s),
        fg_path(img, w, h, true, path),
        s(path[0]),
        0 <= i < path.len(),
    ensures
        s(path[i]),
    decreases i,
{
    if i > 0 {
        lemma_closed_along(img, w, h, s, path, i - 1);
        assert(path_step(true, path, i - 1));
        assert(fg(img, w, h, path[i]));
        assert(s(path[i - 1]) && s(path[i]) || !s(path[i]));
    }
}

/// `p` is one of the listed pixels.
pub open spec fn listed(ps: Seq<(usize, usize)>, p: (int, int)) -> bool {
    exists|i: int| 0 <= i < ps.len() && #[trigger] pt(ps[i]) == p
}

/// The listed pixels are distinct.
pub open spec fn no_repeats(ps: Seq<(usize, usize)>) -> bool {
    forall|i: int, j: int| 0 <= i < j < ps.len() ==> #[trigger] ps[i] != #[trigger] ps[j]
}

/// `ps` lists, each once, exactly the pixels 8-connected to its first one.
pub open spec fn lists_component(img: Seq<u8>, w: int, h: int, ps: Seq<(usize, usize)>) -> bool {
    &&& ps.len() > 0
    &&& no_repeats(ps)
    &&& forall|i: int| 0 <= i < ps.len() ==> connected(img, w, h, true, pt(ps[0]), #[trigger] pt(ps[i]))
    &&& forall|q: (int, int)| #[trigger] connected(img, w, h, true, pt(ps[0]), q) ==> listed(ps, q)
}

/// Entry `i` of the visit marks says whether pixel `p` was visited.
pub open spec fn visited_at(v: Seq<bool>, w: int, p: (int, int)) -> bool {
    v[pix(w, p.0, p.1)]
}

/// The visited pixels are foreground pixels, closed under touching.
pub open spec fn visit_closed(img: Seq<u8>, w: int, h: int, v: Seq<bool>) -> bool {
    &&& forall|p: (int, int)| in_grid(w, h, p.0, p.1) && #[trigger] visited_at(v, w, p) ==> fg(img, w, h, p)
    &&& closed_under_touch(img, w, h, |p: (int, int)| in_grid(w, h, p.0, p.1) && visited_at(v, w, p))
}

/// A pixel connected to a visited pixel is visited.
pub proof fn lemma_visited_component(img: Seq<u8>, w: int, h: int, v: Seq<bool>, a: (int, int), b: (int, int))
    requires
        visit_closed(img, w, h, v),
        in_grid(w, h, a.0, a.1),
        visited_at(v, w, a),
        connected(img, w, h, true, a, b),
    ensures
        in_grid(w, h, b.0, b.1) && visited_at(v, w, b),
{
    let s = |p: (int, int)| in_grid(w, h, p.0, p.1) && visited_at(v, w, p);
    lemma_closed_holds_component(img, w, h, s, a, b);
}

/// Number of unset marks.
pub open spec fn count_unset(v: Seq<bool>) -> nat
    decreases v.len(),
{
    if v.len() == 0 {
        0
    } else {
        count_unset(v.drop_last()) + if v.last() { 0nat } else { 1nat }
    }
}

/// Setting an unset mark leaves one fewer unset.
pub proof fn lemma_count_unset_set(v: Seq<bool>, i: int)
    requires
        0 <= i < v.len(),
        !v[i],
    ensures
        count_unset(v.update(i, true)) + 1 == count_unset(v),
    decreases v.len(),
{
    let u = v.update(i, true);
    if i == v.len() - 1 {
        assert(u.drop_last() =~= v.drop_last());
    } else {
        assert(u.drop_last() =~= v.drop_last().update(i, true));
        lemma_count_unset_set(v.drop_last(), i);
    }
}

} // verus!
