//! Statistical grading: the order in which a night's images are examined,
//! and what a failed test records.

use vstd::prelude::*;
use crate::header_map::{str_less, string_less, lemma_str_less_irreflexive, lemma_str_less_total, lemma_str_less_transitive};

verus! {

/// An image rejected by a statistical test, with the test's reason and details.
#[derive(Debug, Clone)]
pub struct StatisticalRejection {
    pub image_id: i32,
    pub reason: String,
    pub details: String,
}

/// What orders and groups an image for statistical grading: its target, its
/// filter and when its exposure started (an ISO timestamp).
pub struct SequenceKey {
    pub target_id: i32,
    pub filter_name: String,
    pub exposure_time: String,
}

/// Image `i` (key `a`) comes before image `j` (key `b`): by target, then
/// filter name, then exposure start, and, all equal, by position.
pub open spec fn key_before(a: SequenceKey, i: int, b: SequenceKey, j: int) -> bool {
    if a.target_id != b.target_id {
        a.target_id < b.target_id
    } else if a.filter_name@ != b.filter_name@ {
        str_less(a.filter_name@, b.filter_name@)
    } else if a.exposure_time@ != b.exposure_time@ {
        str_less(a.exposure_time@, b.exposure_time@)
    } else {
        i < j
    }
}

/// Two images belong to the same target and filter.
pub open spec fn same_sequence(a: SequenceKey, b: SequenceKey) -> bool {
    a.target_id == b.target_id && a.filter_name@ == b.filter_name@
}

/// `order` lists each of the positions `0..n` once.
pub open spec fn is_permutation(order: Seq<usize>, n: nat) -> bool {
    &&& order.len() == n
    &&& forall|p: int| 0 <= p < order.len() ==> (#[trigger] order[p]) < n
    &&& forall|p: int, q: int| 0 <= p < q < order.len() ==> #[trigger] order[p] != #[trigger] order[q]
}

/// `order` lists the images in the order of `key_before`.
pub open spec fn in_sequence_order(keys: Seq<SequenceKey>, order: Seq<usize>) -> bool {
    forall|p: int, q: int| 0 <= p < q < order.len()
        ==> key_before(keys[#[trigger] order[p] as int], order[p] as int, keys[#[trigger] order[q] as int], order[q] as int)
}

/// `key_before` is a strict total order on distinct positions.
proof fn lemma_key_before_order(a: SequenceKey, i: int, b: SequenceKey, j: int, c: SequenceKey, k: int)
    ensures
        i != j ==> (key_before(a, i, b, j) || key_before(b, j, a, i)),
        !(key_before(a, i, b, j) && key_before(b, j, a, i)),
        key_before(a, i, b, j) && key_before(b, j, c, k) ==> key_before(a, i, c, k),
{
    lemma_str_less_total(a.filter_name@, b.filter_name@);
    lemma_str_less_total(a.exposure_time@, b.exposure_time@);
    if key_before(a, i, b, j) && key_before(b, j, c, k) {
        if a.filter_name@ != b.filter_name@ && b.filter_name@ != c.filter_name@ && str_less(a.filter_name@, b.filter_name@) && str_less(b.filter_name@, c.filter_name@) {
            lemma_str_less_transitive(a.filter_name@, b.filter_name@, c.filter_name@);
            lemma_str_less_irreflexive(a.filter_name@);
        }
        if a.exposure_time@ != b.exposure_time@ && b.exposure_time@ != c.exposure_time@ && str_less(a.exposure_time@, b.exposure_time@) && str_less(b.exposure_time@, c.exposure_time@) {
            lemma_str_less_transitive(a.exposure_time@, b.exposure_time@, c.exposure_time@);
            lemma_str_less_irreflexive(a.exposure_time@);
        }
    }
}

/// Whether image `i` comes before image `j`.
fn comes_before(keys: &[SequenceKey], i: usize, j: usize) -> (r: bool)
    requires
        i < keys@.len(),
        j < keys@.len(),
    ensures
        r == key_before(keys@[i as int], i as int, keys@[j as int], j as int),
{
    let a = &keys[i];
    let b = &keys[j];
    proof {
        lemma_str_less_irreflexive(a.filter_name@);
        lemma_str_less_irreflexive(a.exposure_time@);
    }
    if a.target_id != b.target_id {
        return a.target_id < b.target_id;
    }
    let fa = a.filter_name.as_str();
    let fb = b.filter_name.as_str();
    if string_less(fa, fb) {
        return true;
    }
    if string_less(fb, fa) {
        proof {
            lemma_str_less_total(a.filter_name@, b.filter_name@);
        }
        return false;
    }
    proof {
        lemma_str_less_total(a.filter_name@, b.filter_name@);
    }
    let ta = a.exposure_time.as_str();
    let tb = b.exposure_time.as_str();
    if string_less(ta, tb) {
        return true;
    }
    if string_less(tb, ta) {
        proof {
            lemma_str_less_total(a.exposure_time@, b.exposure_time@);
        }
        return false;
    }
    proof {
        lemma_str_less_total(a.exposure_time@, b.exposure_time@);
    }
    i < j
}

/// The images in the order statistical grading examines them: by target,
/// filter and exposure start, ties kept in their given order.
pub fn sequence_order(keys: &[SequenceKey]) -> (order: Vec<usize>)
    ensures
        is_permutation(order@, keys@.len()),
        in_sequence_order(keys@, order@),
{
    let n = keys.len();
    let mut order: Vec<usize> = Vec::new();
    let mut k: usize = 0;
    while k < n
        invariant
            k <= n == keys@.len(),
            is_permutation(order@, k as nat),
            in_sequence_order(keys@, order@),
        decreases n - k,
    {
        let mut pos: usize = 0;
        while pos < order.len() && comes_before(keys, order[pos], k)
            invariant
                k < n == keys@.len(),
                pos <= order@.len(),
                is_permutation(order@, k as nat),
                in_sequence_order(keys@, order@),
                forall|p: int| 0 <= p < pos ==> key_before(keys@[#[trigger] order@[p] as int], order@[p] as int, keys@[k as int], k as int),
            decreases order@.len() - pos,
        {
            pos = pos + 1;
        }
        let ghost old_order = order@;
        proof {
            assert forall|p: int| pos <= p < old_order.len() implies key_before(keys@[k as int], k as int, keys@[#[trigger] old_order[p] as int], old_order[p] as int) by {
                let x = old_order[pos as int];
                let y = old_order[p];
                lemma_key_before_order(keys@[k as int], k as int, keys@[x as int], x as int, keys@[y as int], y as int);
                if p > pos {
                    assert(key_before(keys@[x as int], x as int, keys@[y as int], y as int));
                }
            }
        }
        order.insert(pos, k);
        proof {
            assert(order@ =~= old_order.insert(pos as int, k));
            assert forall|p: int, q: int| 0 <= p < q < order@.len() implies
                key_before(keys@[#[trigger] order@[p] as int], order@[p] as int, keys@[#[trigger] order@[q] as int], order@[q] as int) by {
                if p < pos && q == pos {
                } else if p == pos {
                } else if p < pos && q > pos {
                    assert(order@[q] == old_order[q - 1]);
                    let x = order@[p];
                    let y = order@[q];
                    lemma_key_before_order(keys@[x as int], x as int, keys@[k as int], k as int, keys@[y as int], y as int);
                } else if q < pos {
                } else {
                    assert(order@[p] == old_order[p - 1]);
                    assert(order@[q] == old_order[q - 1]);
                }
            }
            assert forall|p: int, q: int| 0 <= p < q < order@.len() implies #[trigger] order@[p] != #[trigger] order@[q] by {
                if p == pos || q == pos {
                } else {
                }
            }
        }
        k = k + 1;
    }
    order
}

/// Image `a`'s target and filter come before image `b`'s.
pub open spec fn sequence_less(a: SequenceKey, b: SequenceKey) -> bool {
    a.target_id < b.target_id || (a.target_id == b.target_id && str_less(a.filter_name@, b.filter_name@))
}

/// The groups, as sequences of positions.
pub open spec fn group_views(gs: Seq<Vec<usize>>) -> Seq<Seq<usize>> {
    gs.map_values(|g: Vec<usize>| g@)
}

/// The groups one after another.
pub open spec fn flatten(gs: Seq<Seq<usize>>) -> Seq<usize>
    decreases gs.len(),
{
    if gs.len() == 0 {
        Seq::empty()
    } else {
        flatten(gs.drop_last()) + gs.last()
    }
}

/// Every group is non-empty and holds one target and filter; the groups come
/// in increasing order of target and filter, so no two share them.
pub open spec fn grouped_by_sequence(keys: Seq<SequenceKey>, gs: Seq<Seq<usize>>) -> bool {
    &&& forall|g: int| 0 <= g < gs.len() ==> (#[trigger] gs[g]).len() > 0
    &&& forall|g: int, p: int| 0 <= g < gs.len() && 0 <= p < gs[g].len()
        ==> same_sequence(keys[gs[g][0] as int], keys[#[trigger] gs[g][p] as int])
    &&& forall|g1: int, g2: int| 0 <= g1 < g2 < gs.len()
        ==> sequence_less(keys[(#[trigger] gs[g1])[0] as int], keys[(#[trigger] gs[g2])[0] as int])
}

/// Sequence order puts target and filter first.
proof fn lemma_before_sequence(a: SequenceKey, i: int, b: SequenceKey, j: int)
    requires
        key_before(a, i, b, j),
    ensures
        same_sequence(a, b) || sequence_less(a, b),
{
}

/// `sequence_less` is transitive and irreflexive.
proof fn lemma_sequence_less(a: SequenceKey, b: SequenceKey, c: SequenceKey)
    ensures
        !sequence_less(a, a),
        sequence_less(a, b) && sequence_less(b, c) ==> sequence_less(a, c),
        sequence_less(a, b) && same_sequence(b, c) ==> sequence_less(a, c),
        same_sequence(a, b) && sequence_less(b, c) ==> sequence_less(a, c),
{
    lemma_str_less_irreflexive(a.filter_name@);
    if sequence_less(a, b) && sequence_less(b, c) && a.target_id == b.target_id && b.target_id == c.target_id {
        lemma_str_less_transitive(a.filter_name@, b.filter_name@, c.filter_name@);
    }
}

/// Whether two images belong to the same target and filter.
fn same_sequence_at(keys: &[SequenceKey], i: usize, j: usize) -> (r: bool)
    requires
        i < keys@.len(),
        j < keys@.len(),
    ensures
        r == same_sequence(keys@[i as int], keys@[j as int]),
{
    keys[i].target_id == keys[j].target_id && keys[i].filter_name == keys[j].filter_name
}

/// Cuts a list in sequence order into runs of one target and filter.
fn group_runs(keys: &[SequenceKey], order: &Vec<usize>) -> (groups: Vec<Vec<usize>>)
    requires
        forall|p: int| 0 <= p < order@.len() ==> (#[trigger] order@[p]) < keys@.len(),
        in_sequence_order(keys@, order@),
    ensures
        flatten(group_views(groups@)) == order@,
        grouped_by_sequence(keys@, group_views(groups@)),
{
    let mut groups: Vec<Vec<usize>> = Vec::new();
    let mut cur: Vec<usize> = Vec::new();
    let mut p: usize = 0;
    while p < order.len()
        invariant
            p <= order@.len(),
            forall|q: int| 0 <= q < order@.len() ==> (#[trigger] order@[q]) < keys@.len(),
            in_sequence_order(keys@, order@),
            flatten(group_views(groups@)) + cur@ == order@.take(p as int),
            grouped_by_sequence(keys@, group_views(groups@)),
            p > 0 ==> cur@.len() > 0 && cur@.last() == order@[p - 1],
            forall|q: int| 0 <= q < cur@.len() ==> (#[trigger] cur@[q]) < keys@.len(),
            forall|q: int| 0 <= q < cur@.len() ==> same_sequence(keys@[cur@[0] as int], keys@[#[trigger] cur@[q] as int]),
            cur@.len() > 0 ==> forall|g: int| 0 <= g < groups@.len()
                ==> sequence_less(keys@[(#[trigger] group_views(groups@)[g])[0] as int], keys@[cur@[0] as int]),
        decreases order@.len() - p,
    {
        let e = order[p];
        let ghost gs0 = group_views(groups@);
        if cur.len() > 0 && !same_sequence_at(keys, cur[0], e) {
            proof {
                let last = order@[p - 1];
                assert(key_before(keys@[last as int], last as int, keys@[e as int], e as int));
                lemma_before_sequence(keys@[last as int], last as int, keys@[e as int], e as int);
                assert(same_sequence(keys@[cur@[0] as int], keys@[last as int]));
                lemma_sequence_less(keys@[cur@[0] as int], keys@[last as int], keys@[e as int]);
            }
            let ghost c = cur@;
            groups.push(cur);
            cur = Vec::new();
            proof {
                let gs1 = group_views(groups@);
                assert(gs1 =~= gs0.push(c));
                assert(gs1.drop_last() =~= gs0);
                assert forall|g: int| 0 <= g < gs1.len() implies sequence_less(keys@[(#[trigger] gs1[g])[0] as int], keys@[e as int]) by {
                    if g < gs0.len() {
                        lemma_sequence_less(keys@[gs0[g][0] as int], keys@[c[0] as int], keys@[e as int]);
                    }
                }
                assert forall|g1: int, g2: int| 0 <= g1 < g2 < gs1.len()
                    implies sequence_less(keys@[(#[trigger] gs1[g1])[0] as int], keys@[(#[trigger] gs1[g2])[0] as int]) by {
                    if g2 < gs0.len() {
                        assert(gs1[g1] == gs0[g1]);
                        assert(gs1[g2] == gs0[g2]);
                    } else {
                        assert(gs1[g1] == gs0[g1]);
                    }
                }
                assert forall|g: int, q: int| 0 <= g < gs1.len() && 0 <= q < gs1[g].len()
                    implies same_sequence(keys@[gs1[g][0] as int], keys@[#[trigger] gs1[g][q] as int]) by {
                    if g < gs0.len() {
                        assert(gs1[g] == gs0[g]);
                    }
                }
            }
        }
        let ghost gs2 = group_views(groups@);
        let ghost cur_before = cur@;
        cur.push(e);
        proof {
            assert(order@.take(p as int + 1) =~= order@.take(p as int).push(e));
            assert(flatten(gs2) + cur@ =~= (flatten(gs2) + cur_before).push(e));
            if cur_before.len() == 0 {
                assert(cur@[0] == e);
            }
        }
        p = p + 1;
    }
    let ghost gs3 = group_views(groups@);
    if cur.len() > 0 {
        let ghost c = cur@;
        groups.push(cur);
        proof {
            let gs1 = group_views(groups@);
            assert(gs1 =~= gs3.push(c));
            assert(gs1.drop_last() =~= gs3);
            assert forall|g1: int, g2: int| 0 <= g1 < g2 < gs1.len()
                implies sequence_less(keys@[(#[trigger] gs1[g1])[0] as int], keys@[(#[trigger] gs1[g2])[0] as int]) by {
                assert(gs1[g1] == gs3[g1]);
                if g2 < gs3.len() {
                    assert(gs1[g2] == gs3[g2]);
                }
            }
            assert forall|g: int, q: int| 0 <= g < gs1.len() && 0 <= q < gs1[g].len()
                implies same_sequence(keys@[gs1[g][0] as int], keys@[#[trigger] gs1[g][q] as int]) by {
                if g < gs3.len() {
                    assert(gs1[g] == gs3[g]);
                }
            }
            assert(flatten(gs1) =~= order@.take(p as int));
        }
    } else {
        proof {
            assert(flatten(gs3) =~= order@.take(p as int));
        }
    }
    assert(order@.take(order@.len() as int) =~= order@);
    groups
}

/// The images of each target and filter, one group each, in sequence order:
/// the groups come in increasing order of target and filter, and within a
/// group the images run by exposure start, ties in their given order.
pub fn sequence_groups(keys: &[SequenceKey]) -> (groups: Vec<Vec<usize>>)
    ensures
        is_permutation(flatten(group_views(groups@)), keys@.len()),
        in_sequence_order(keys@, flatten(group_views(groups@))),
        grouped_by_sequence(keys@, group_views(groups@)),
{
    let order = sequence_order(keys);
    group_runs(keys, &order)
}

} // verus!
