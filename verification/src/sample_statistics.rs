//! Order statistics of 16-bit samples: counts below and at a value, the
//! entry at a sorted position, and the median and median absolute deviation
//! of an image read off its histogram.

use vstd::prelude::*;

verus! {

/// Number of entries of `s` below `v`.
pub open spec fn count_below16(s: Seq<u16>, v: int) -> nat
    decreases s.len(),
{
    if s.len() == 0 {
        0
    } else {
        count_below16(s.drop_last(), v) + if (s.last() as int) < v { 1nat } else { 0nat }
    }
}

/// Number of entries of `s` at most `v`.
pub open spec fn count_at_most16(s: Seq<u16>, v: int) -> nat
    decreases s.len(),
{
    if s.len() == 0 {
        0
    } else {
        count_at_most16(s.drop_last(), v) + if (s.last() as int) <= v { 1nat } else { 0nat }
    }
}

/// `r` is the entry at position `k` (from 0) of `s` sorted ascending.
pub open spec fn kth_smallest16(s: Seq<u16>, k: int, r: int) -> bool {
    count_below16(s, r) <= k < count_at_most16(s, r)
}

pub proof fn lemma_count16_succ(s: Seq<u16>, c: int)
    ensures
        count_below16(s, c + 1) == count_at_most16(s, c),
    decreases s.len(),
{
    if s.len() > 0 {
        lemma_count16_succ(s.drop_last(), c);
    }
}

pub proof fn lemma_count16_extremes(s: Seq<u16>)
    ensures
        count_at_most16(s, 65535) == s.len(),
        count_below16(s, 0) == 0,
    decreases s.len(),
{
    if s.len() > 0 {
        lemma_count16_extremes(s.drop_last());
    }
}

pub proof fn lemma_count16_gap(s: Seq<u16>, c: int)
    requires
        count_below16(s, c) < count_at_most16(s, c),
    ensures
        exists|i: int| 0 <= i < s.len() && s[i] as int == c,
    decreases s.len(),
{
    if (s.last() as int) == c {
        assert(s[s.len() - 1] as int == c);
    } else {
        lemma_count16_gap(s.drop_last(), c);
        let i = choose|i: int| 0 <= i < s.drop_last().len() && s.drop_last()[i] as int == c;
        assert(s[i] == s.drop_last()[i]);
    }
}

pub proof fn lemma_kth16_from(s: Seq<u16>, k: int, c: int)
    requires
        0 <= k < s.len(),
        0 <= c <= 65535,
        count_below16(s, c) <= k,
    ensures
        exists|i: int| 0 <= i < s.len() && kth_smallest16(s, k, s[i] as int),
    decreases 65535 - c,
{
    lemma_count16_extremes(s);
    if count_at_most16(s, c) > k {
        lemma_count16_gap(s, c);
        let i = choose|i: int| 0 <= i < s.len() && s[i] as int == c;
        assert(kth_smallest16(s, k, s[i] as int));
    } else {
        lemma_count16_succ(s, c);
        lemma_kth16_from(s, k, c + 1);
    }
}

/// Counts the entries of `values` below and at most `c`.
pub(crate) fn count_around16(values: &Vec<u16>, c: u16) -> (r: (usize, usize))
    ensures
        r.0 == count_below16(values@, c as int),
        r.1 == count_at_most16(values@, c as int),
{
    let mut below: usize = 0;
    let mut at_most: usize = 0;
    let mut j: usize = 0;
    while j < values.len()
        invariant
            j <= values@.len(),
            below == count_below16(values@.take(j as int), c as int),
            at_most == count_at_most16(values@.take(j as int), c as int),
            below <= j,
            at_most <= j,
        decreases values@.len() - j,
    {
        proof {
            assert(values@.take(j as int + 1).drop_last() =~= values@.take(j as int));
        }
        if values[j] < c {
            below = below + 1;
        }
        if values[j] <= c {
            at_most = at_most + 1;
        }
        j = j + 1;
    }
    proof {
        assert(values@.take(j as int) =~= values@);
    }
    (below, at_most)
}

/// The entry at position `k` of `values` sorted ascending.
pub(crate) fn kth_value16(values: &Vec<u16>, k: usize) -> (r: u16)
    requires
        k < values@.len(),
    ensures
        kth_smallest16(values@, k as int, r as int),
{
    proof {
        lemma_count16_extremes(values@);
        lemma_kth16_from(values@, k as int, 0);
    }
    let mut i: usize = 0;
    while i < values.len()
        invariant
            k < values@.len(),
            i <= values@.len(),
            exists|j: int| i <= j < values@.len() && kth_smallest16(values@, k as int, values@[j] as int),
        decreases values@.len() - i,
    {
        let c = values[i];
        let (below, at_most) = count_around16(values, c);
        if below <= k && k < at_most {
            return c;
        }
        proof {
            let j = choose|j: int| i <= j < values@.len() && kth_smallest16(values@, k as int, values@[j] as int);
            assert(j != i);
        }
        i = i + 1;
    }
    proof {
        assert(false);
    }
    0
}

/// Values below `a` are at most as many as values below `b > a`.
pub proof fn lemma_counts16_ordered(s: Seq<u16>, a: int, b: int)
    requires
        a < b,
    ensures
        count_at_most16(s, a) <= count_below16(s, b),
    decreases s.len(),
{
    if s.len() > 0 {
        lemma_counts16_ordered(s.drop_last(), a, b);
    }
}

/// Two values at the same sorted position are equal.
pub proof fn lemma_kth16_unique(s: Seq<u16>, k: int, r1: int, r2: int)
    requires
        kth_smallest16(s, k, r1),
        kth_smallest16(s, k, r2),
    ensures
        r1 == r2,
{
    if r1 < r2 {
        lemma_counts16_ordered(s, r1, r2);
    } else if r2 < r1 {
        lemma_counts16_ordered(s, r2, r1);
    }
}



/// Number of entries of `s` equal to `v`.
pub open spec fn count_eq16(s: Seq<u16>, v: int) -> nat
    decreases s.len(),
{
    if s.len() == 0 {
        0
    } else {
        count_eq16(s.drop_last(), v) + if (s.last() as int) == v { 1nat } else { 0nat }
    }
}

/// Entries at most `v` are those below it and those equal to it; none lies
/// below 0, and there are at most `s.len()` of either kind.
pub proof fn lemma_count16_split(s: Seq<u16>, v: int)
    ensures
        count_at_most16(s, v) == count_below16(s, v) + count_eq16(s, v),
        count_at_most16(s, v) <= s.len(),
        v <= 0 ==> count_below16(s, v) == 0,
        v >= 65535 ==> count_at_most16(s, v) == s.len(),
    decreases s.len(),
{
    if s.len() > 0 {
        lemma_count16_split(s.drop_last(), v);
    }
}

/// The histogram of the samples: entry `v` counts the samples equal to `v`.
pub fn histogram16(data: &[u16]) -> (h: Vec<usize>)
    ensures
        h@.len() == 65536,
        forall|v: int| 0 <= v < 65536 ==> #[trigger] h@[v] == count_eq16(data@, v),
{
    let mut h: Vec<usize> = vec![0usize; 65536];
    let mut i: usize = 0;
    while i < data.len()
        invariant
            i <= data@.len(),
            h@.len() == 65536,
            forall|v: int| 0 <= v < 65536 ==> #[trigger] h@[v] == count_eq16(data@.take(i as int), v),
            forall|v: int| 0 <= v < 65536 ==> #[trigger] h@[v] <= i,
        decreases data@.len() - i,
    {
        let x = data[i] as usize;
        let ghost before = h@;
        let c = h[x];
        h.set(x, c + 1);
        i = i + 1;
        proof {
            assert(data@.take(i as int).drop_last() =~= data@.take(i as int - 1));
            assert forall|v: int| 0 <= v < 65536 implies #[trigger] h@[v] == count_eq16(data@.take(i as int), v) by {
                if v != x as int {
                    assert(h@[v] == before[v]);
                }
            }
            assert forall|v: int| 0 <= v < 65536 implies #[trigger] h@[v] <= i by {
                if v != x as int {
                    assert(h@[v] == before[v]);
                }
            }
        }
    }
    proof {
        assert(data@.take(i as int) =~= data@);
    }
    h
}

/// The value at sorted position `k` of the samples whose histogram is `h`.
fn kth_in_histogram(h: &Vec<usize>, Ghost(s): Ghost<Seq<u16>>, k: usize) -> (r: u16)
    requires
        s.len() <= usize::MAX,
        h@.len() == 65536,
        forall|v: int| 0 <= v < 65536 ==> #[trigger] h@[v] == count_eq16(s, v),
        k < s.len(),
    ensures
        kth_smallest16(s, k as int, r as int),
{
    let mut v: usize = 0;
    let mut below: usize = 0;
    proof {
        lemma_count16_split(s, 0);
    }
    while v < 65535
        invariant
            h@.len() == 65536,
            forall|u: int| 0 <= u < 65536 ==> #[trigger] h@[u] == count_eq16(s, u),
            k < s.len(),
            s.len() <= usize::MAX,
            v <= 65535,
            below == count_below16(s, v as int),
            below <= k,
        decreases 65535 - v,
    {
        proof {
            lemma_count16_split(s, v as int);
            lemma_count16_succ(s, v as int);
        }
        let here = h[v];
        if k < below + here {
            return v as u16;
        }
        below = below + here;
        v = v + 1;
    }
    proof {
        lemma_count16_split(s, 65535);
    }
    65535
}

/// The entry at sorted position `k` of `s`.
pub open spec fn sorted_at16(s: Seq<u16>, k: int) -> int {
    choose|v: int| kth_smallest16(s, k, v)
}

/// Twice the median of the samples: the sum of the two middle entries once
/// sorted, or twice the middle one when there is an odd number of them.
pub open spec fn median_doubled_spec(s: Seq<u16>) -> int {
    if s.len() % 2 == 0 {
        sorted_at16(s, s.len() / 2 - 1) + sorted_at16(s, (s.len() / 2) as int)
    } else {
        2 * sorted_at16(s, (s.len() / 2) as int)
    }
}

/// The entry at a sorted position, read off the histogram, is `sorted_at16`.
fn sorted_entry(h: &Vec<usize>, Ghost(s): Ghost<Seq<u16>>, k: usize) -> (r: u16)
    requires
        s.len() <= usize::MAX,
        h@.len() == 65536,
        forall|v: int| 0 <= v < 65536 ==> #[trigger] h@[v] == count_eq16(s, v),
        k < s.len(),
    ensures
        r as int == sorted_at16(s, k as int),
{
    let r = kth_in_histogram(h, Ghost(s), k);
    proof {
        lemma_kth16_unique(s, k as int, r as int, sorted_at16(s, k as int));
    }
    r
}

/// Twice the median of the samples (the median itself may end in a half).
pub fn median_doubled(data: &[u16]) -> (r: u32)
    requires
        data@.len() >= 1,
    ensures
        r as int == median_doubled_spec(data@),
{
    let h = histogram16(data);
    let n = data.len();
    if n % 2 == 0 {
        let a = sorted_entry(&h, Ghost(data@), n / 2 - 1);
        let b = sorted_entry(&h, Ghost(data@), n / 2);
        a as u32 + b as u32
    } else {
        let a = sorted_entry(&h, Ghost(data@), n / 2);
        2 * (a as u32)
    }
}

/// Samples from `lo` to `hi`, both included.
pub open spec fn count_between16(s: Seq<u16>, lo: int, hi: int) -> int {
    count_at_most16(s, hi) - count_below16(s, lo)
}

/// With the median at `m2 / 2`, more than half of the samples lie within
/// `k` steps of it: from `floor(m2 / 2) - k` to `ceil(m2 / 2) + k`.
pub open spec fn mad_window_holds(s: Seq<u16>, m2: int, k: int) -> bool {
    2 * count_between16(s, m2 / 2 - k, (m2 + 1) / 2 + k) > s.len()
}

/// The entry at sorted position `k` lies between 0 and 65535, at a position
/// with at most `k` entries below it.
proof fn lemma_sorted_at16(s: Seq<u16>, k: int)
    requires
        0 <= k < s.len(),
    ensures
        kth_smallest16(s, k, sorted_at16(s, k)),
        0 <= sorted_at16(s, k) <= 65535,
{
    lemma_count16_extremes(s);
    lemma_kth16_from(s, k, 0);
    let v = sorted_at16(s, k);
    lemma_count16_succ(s, 65535);
    lemma_count16_succ(s, -1);
    if v > 65535 {
        lemma_counts16_ordered(s, 65535, v);
    }
    if v < 0 {
        lemma_counts16_ordered(s, v, 0);
        lemma_count16_split(s, v);
    }
}

/// Fewer entries lie below `a` than below any larger value.
proof fn lemma_below16_monotone(s: Seq<u16>, a: int, b: int)
    requires
        a <= b,
    ensures
        count_below16(s, a) <= count_below16(s, b),
{
    if a < b {
        lemma_counts16_ordered(s, a, b);
        lemma_count16_split(s, a);
    }
}

/// Around the median, the window that reaches up to 65535 holds more than
/// half of the samples.
proof fn lemma_median_window(s: Seq<u16>)
    requires
        s.len() >= 1,
    ensures
        0 <= median_doubled_spec(s) <= 131070,
        mad_window_holds(s, median_doubled_spec(s), 65535 - (median_doubled_spec(s) + 1) / 2),
{
    let n = s.len() as int;
    let lo_pos = (n - 1) / 2;
    let a = sorted_at16(s, lo_pos);
    let b = sorted_at16(s, n / 2);
    lemma_sorted_at16(s, lo_pos);
    lemma_sorted_at16(s, n / 2);
    let m2 = median_doubled_spec(s);
    if n % 2 == 0 {
        assert(lo_pos == n / 2 - 1);
        assert(m2 == a + b);
    } else {
        assert(lo_pos == n / 2);
        assert(m2 == a + b);
    }
    let k = 65535 - (m2 + 1) / 2;
    assert(m2 / 2 + (m2 + 1) / 2 == m2);
    assert(m2 / 2 - k <= a);
    lemma_below16_monotone(s, m2 / 2 - k, a);
    lemma_count16_split(s, (m2 + 1) / 2 + k);
    assert(count_between16(s, m2 / 2 - k, (m2 + 1) / 2 + k) >= n - lo_pos);
}

/// Twice the median absolute deviation of the samples from their median,
/// given as `m2`, twice the median: the window around the median is widened
/// one step at a time, from `floor(m2 / 2) - k` to `ceil(m2 / 2) + k`, until
/// it holds more than half of the samples; the deviation is then from the
/// median to the window's upper end, which never passes 65535.
pub fn mad_doubled(data: &[u16], m2: u32) -> (r: u32)
    requires
        data@.len() >= 1,
        m2 as int == median_doubled_spec(data@),
    ensures
        (r as int + m2 as int) / 2 <= 65535,
        exists|k: int| #![trigger mad_window_holds(data@, m2 as int, k)]
            0 <= k && r as int == 2 * ((m2 as int + 1) / 2 + k) - m2
            && mad_window_holds(data@, m2 as int, k)
            && forall|j: int| 0 <= j < k ==> !#[trigger] mad_window_holds(data@, m2 as int, j),
{
    let ghost s = data@;
    proof {
        lemma_median_window(s);
    }
    let h = histogram16(data);
    let n = data.len();
    let lower: u32 = m2 / 2;
    let upper: u32 = (m2 + 1) / 2;
    proof {
        lemma_count16_split(s, lower as int);
        lemma_count16_split(s, upper as int);
        lemma_count16_succ(s, lower as int);
        lemma_count16_split(s, lower as int + 1);
    }
    let mut occ: usize = if lower == upper {
        h[upper as usize]
    } else {
        h[lower as usize] + h[upper as usize]
    };
    let mut k: u32 = 0;
    assert(occ as int == count_between16(s, lower as int, upper as int));
    loop
        invariant
            s == data@,
            n == s.len(),
            n >= 1,
            h@.len() == 65536,
            forall|v: int| 0 <= v < 65536 ==> #[trigger] h@[v] == count_eq16(s, v),
            lower as int == m2 / 2,
            upper as int == (m2 + 1) / 2,
            lower <= upper <= 65535,
            k <= 65535 - upper,
            mad_window_holds(s, m2 as int, 65535 - upper),
            occ as int == count_between16(s, lower - k, upper + k),
            occ <= n,
            forall|j: int| 0 <= j < k ==> !#[trigger] mad_window_holds(s, m2 as int, j),
        decreases 65535 - k,
    {
        if occ > n - occ {
            proof {
                assert(mad_window_holds(s, m2 as int, k as int));
            }
            return 2 * (upper + k) - m2;
        }
        proof {
            assert(!mad_window_holds(s, m2 as int, k as int));
            lemma_count16_split(s, upper as int + k as int);
            lemma_count16_split(s, lower as int - k as int);
            assert(k < 65535 - upper);
        }
        k = k + 1;
        proof {
            lemma_count16_succ(s, upper as int + k as int - 1);
            lemma_count16_split(s, upper as int + k as int);
            lemma_count16_split(s, lower as int - k as int);
            lemma_count16_succ(s, lower as int - k as int);
        }
        let add_up: usize = h[(upper + k) as usize];
        let add_down: usize = if lower >= k { h[(lower - k) as usize] } else { 0 };
        occ = occ + add_up + add_down;
    }
}

/// The sum of the samples.
pub open spec fn sample_total(s: Seq<u16>) -> int
    decreases s.len(),
{
    if s.len() == 0 {
        0
    } else {
        sample_total(s.drop_last()) + s.last() as int
    }
}

/// The sum of the samples (at most `65535` per sample, so it fits in 64 bits).
pub fn sample_sum(data: &[u16]) -> (r: u64)
    requires
        65535 * data@.len() <= u64::MAX,
    ensures
        r as int == sample_total(data@),
{
    let mut total: u64 = 0;
    let mut i: usize = 0;
    while i < data.len()
        invariant
            i <= data@.len(),
            total as int == sample_total(data@.take(i as int)),
            total <= 65535 * i,
            65535 * data@.len() <= u64::MAX,
        decreases data@.len() - i,
    {
        proof {
            assert(data@.take(i as int + 1).drop_last() =~= data@.take(i as int));
            assert(65535 * i + 65535 <= 65535 * data@.len()) by (nonlinear_arith)
                requires
                    i < data@.len(),
            ;
        }
        total = total + data[i] as u64;
        i = i + 1;
    }
    proof {
        assert(data@.take(i as int) =~= data@);
    }
    total
}

/// The smallest and largest samples.
pub fn sample_range(data: &[u16]) -> (r: (u16, u16))
    requires
        data@.len() >= 1,
    ensures
        forall|i: int| 0 <= i < data@.len() ==> r.0 <= #[trigger] data@[i] <= r.1,
        exists|i: int| 0 <= i < data@.len() && data@[i] == r.0,
        exists|i: int| 0 <= i < data@.len() && data@[i] == r.1,
{
    let mut lo = data[0];
    let mut hi = data[0];
    let mut i: usize = 1;
    while i < data.len()
        invariant
            1 <= i <= data@.len(),
            forall|j: int| 0 <= j < i ==> lo <= #[trigger] data@[j] <= hi,
            exists|j: int| 0 <= j < i && data@[j] == lo,
            exists|j: int| 0 <= j < i && data@[j] == hi,
        decreases data@.len() - i,
    {
        if data[i] < lo {
            lo = data[i];
        }
        if data[i] > hi {
            hi = data[i];
        }
        i = i + 1;
    }
    (lo, hi)
}

} // verus!
