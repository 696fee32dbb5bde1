//! Temporal median background estimation over a batch of frames.
use vstd::prelude::*;
use vstd::string::StringExecFns;
use crate::error::Error;
use crate::types::{chan, rgb, pack, unpack, FrameBuffer};

verus! {

/// How many entries of `s` are below `v`.
pub open spec fn count_below(s: Seq<u8>, v: int) -> nat
    decreases s.len(),
{
    if s.len() == 0 {
        0
    } else {
        count_below(s.drop_last(), v) + if (s.last() as int) < v {
            1nat
        } else {
            0nat
        }
    }
}

/// How many entries of `s` equal `v`.
pub open spec fn count_eq(s: Seq<u8>, v: int) -> nat
    decreases s.len(),
{
    if s.len() == 0 {
        0
    } else {
        count_eq(s.drop_last(), v) + if s.last() as int == v {
            1nat
        } else {
            0nat
        }
    }
}

/// `v` is the entry at index `k` of `s` once `s` is sorted in ascending order:
/// at most `k` entries are below it and more than `k` are at most it.
pub open spec fn is_order_stat(s: Seq<u8>, k: int, v: u8) -> bool {
    count_below(s, v as int) <= k < count_below(s, v as int + 1)
}

/// `v` is the entry at index `len / 2` of `s` in ascending order.
pub open spec fn is_lower_median(s: Seq<u8>, v: u8) -> bool {
    is_order_stat(s, s.len() as int / 2, v)
}

/// The lower median of `s`.
pub open spec fn lower_median(s: Seq<u8>) -> u8 {
    choose|v: u8| #[trigger] is_lower_median(s, v)
}

/// Channel `c` of pixel `idx`, one sample per frame, in frame order.
pub open spec fn channel_samples(frames: Seq<FrameBuffer>, idx: int, c: int) -> Seq<u8> {
    Seq::new(frames.len(), |i: int| chan(frames[i].pixels@[idx], c))
}

/// The pixel whose every channel is the lower median of that channel over `frames`.
pub open spec fn median_pixel(frames: Seq<FrameBuffer>, idx: int) -> u32 {
    rgb(
        lower_median(channel_samples(frames, idx, 0)) as int,
        lower_median(channel_samples(frames, idx, 1)) as int,
        lower_median(channel_samples(frames, idx, 2)) as int,
    )
}

/// Every frame has the width and height of the first.
pub open spec fn all_same_dims(frames: Seq<FrameBuffer>) -> bool {
    forall|i: int| 0 <= i < frames.len() ==> #[trigger] frames[i].same_dims(&frames[0])
}

proof fn lemma_count_split(s: Seq<u8>, v: int)
    ensures
        count_below(s, v + 1) == count_below(s, v) + count_eq(s, v),
    decreases s.len(),
{
    if s.len() > 0 {
        lemma_count_split(s.drop_last(), v);
    }
}

proof fn lemma_count_range(s: Seq<u8>, v: int)
    ensures
        count_below(s, 0) == 0,
        count_below(s, 256) == s.len(),
        count_below(s, v) <= s.len(),
        count_eq(s, v) <= s.len(),
    decreases s.len(),
{
    if s.len() > 0 {
        lemma_count_range(s.drop_last(), v);
    }
}

proof fn lemma_count_monotone(s: Seq<u8>, v1: int, v2: int)
    requires
        v1 <= v2,
    ensures
        count_below(s, v1) <= count_below(s, v2),
    decreases s.len(),
{
    if s.len() > 0 {
        lemma_count_monotone(s.drop_last(), v1, v2);
    }
}

proof fn lemma_count_push(s: Seq<u8>, i: int)
    requires
        0 <= i < s.len(),
    ensures
        forall|v: int|
            #[trigger] count_eq(s.take(i + 1), v) == count_eq(s.take(i), v) + if s[i] as int == v {
                1nat
            } else {
                0nat
            },
{
    assert(s.take(i + 1).drop_last() =~= s.take(i));
}

/// At most one value sits at a given index of the sorted order.
pub proof fn lemma_order_stat_unique(s: Seq<u8>, k: int, v1: u8, v2: u8)
    requires
        is_order_stat(s, k, v1),
        is_order_stat(s, k, v2),
    ensures
        v1 == v2,
{
    if v1 < v2 {
        lemma_count_monotone(s, v1 as int + 1, v2 as int);
    } else if v2 < v1 {
        lemma_count_monotone(s, v2 as int + 1, v1 as int);
    }
}

/// The lower median of a non-empty sequence is the value at index `len / 2` of
/// its sorted order.
pub proof fn lemma_lower_median_is_order_stat(s: Seq<u8>, v: u8)
    requires
        is_order_stat(s, s.len() as int / 2, v),
    ensures
        lower_median(s) == v,
{
    assert(is_lower_median(s, v));
    lemma_order_stat_unique(s, s.len() as int / 2, v, lower_median(s));
}

/// The lower median of a non-empty sample list.
fn lower_median_of(samples: &Vec<u8>) -> (m: u8)
    requires
        samples@.len() > 0,
    ensures
        m == lower_median(samples@),
        is_order_stat(samples@, samples@.len() as int / 2, m),
{
    let n = samples.len();
    let ghost s = samples@;
    let mut hist: Vec<usize> = Vec::new();
    let mut v: usize = 0;
    while v < 256
        invariant
            0 <= v <= 256,
            hist@.len() == v,
            forall|u: int| 0 <= u < v ==> #[trigger] hist@[u] == 0,
        decreases 256 - v,
    {
        hist.push(0);
        v = v + 1;
    }
    proof {
        assert forall|u: int| 0 <= u < 256 implies #[trigger] hist@[u] == count_eq(s.take(0), u) by {
            assert(s.take(0).len() == 0);
        }
    }
    let mut i: usize = 0;
    while i < n
        invariant
            0 <= i <= n,
            n == s.len(),
            s == samples@,
            hist@.len() == 256,
            forall|u: int| 0 <= u < 256 ==> #[trigger] hist@[u] == count_eq(s.take(i as int), u),
        decreases n - i,
    {
        let b = samples[i] as usize;
        proof {
            lemma_count_push(s, i as int);
            lemma_count_range(s.take(i as int), b as int);
        }
        let c = hist[b];
        hist.set(b, c + 1);
        i = i + 1;
    }
    proof {
        assert(s.take(n as int) =~= s);
    }
    let half = n / 2;
    let mut below: usize = 0;
    let mut v: usize = 0;
    proof {
        lemma_count_range(s, 0);
        lemma_count_range(s, 1);
        lemma_count_split(s, 0);
    }
    while below + hist[v] <= half
        invariant
            0 <= v < 256,
            n == s.len(),
            half == n / 2,
            hist@.len() == 256,
            forall|u: int| 0 <= u < 256 ==> #[trigger] hist@[u] == count_eq(s, u),
            below == count_below(s, v as int),
            below <= half,
            n > 0,
            count_below(s, v as int + 1) <= n,
            below + hist@[v as int] == count_below(s, v as int + 1),
        decreases 256 - v,
    {
        proof {
            lemma_count_split(s, v as int);
            lemma_count_range(s, v as int);
            if v == 255 {
                assert(false);
            }
        }
        below = below + hist[v];
        v = v + 1;
        proof {
            lemma_count_range(s, v as int);
            lemma_count_range(s, v as int + 1);
            lemma_count_split(s, v as int);
        }
    }
    proof {
        lemma_count_split(s, v as int);
        lemma_lower_median_is_order_stat(s, v as u8);
    }
    v as u8
}

} // verus!

verus! {

/// Per-pixel, per-channel lower median of a batch of equally sized frames.
/// Fails on an empty batch, and when a frame's size differs from the first.
pub fn median_background(frames: &[FrameBuffer]) -> (res: Result<FrameBuffer, Error>)
    requires
        forall|i: int| 0 <= i < frames@.len() ==> #[trigger] frames@[i].wf(),
    ensures
        res is Ok <==> (frames@.len() > 0 && all_same_dims(frames@)),
        frames@.len() == 0 ==> (res matches Err(Error::CameraFrame(m)) && m@
            == "median_background: no frames"@),
        frames@.len() > 0 && !all_same_dims(frames@) ==> (res matches Err(Error::CameraFrame(m))
            && m@ == "median_background: frames must share identical dimensions"@),
        res matches Ok(out) ==> (out.same_dims(&frames@[0]) && out.wf() && forall|idx: int|
            0 <= idx < out.pixels@.len() ==> #[trigger] out.pixels@[idx] == median_pixel(
                frames@,
                idx,
            )),
{
    if frames.len() == 0 {
        return Err(Error::CameraFrame(String::from_str("median_background: no frames")));
    }
    let w = frames[0].width;
    let h = frames[0].height;
    let k = frames.len();
    let mut i: usize = 0;
    while i < k
        invariant
            0 <= i <= k,
            k == frames@.len(),
            k > 0,
            w == frames@[0].width,
            h == frames@[0].height,
            forall|j: int| 0 <= j < i ==> #[trigger] frames@[j].same_dims(&frames@[0]),
        decreases k - i,
    {
        if frames[i].width != w || frames[i].height != h {
            proof {
                assert(!frames@[i as int].same_dims(&frames@[0]));
            }
            return Err(
                Error::CameraFrame(
                    String::from_str("median_background: frames must share identical dimensions"),
                ),
            );
        }
        i = i + 1;
    }
    proof {
        assert(frames@[0].wf());
    }
    let total = frames[0].pixels.len();
    let mut rbuf: Vec<u8> = Vec::new();
    let mut gbuf: Vec<u8> = Vec::new();
    let mut bbuf: Vec<u8> = Vec::new();
    let mut i: usize = 0;
    while i < k
        invariant
            0 <= i <= k,
            rbuf@.len() == i,
            gbuf@.len() == i,
            bbuf@.len() == i,
        decreases k - i,
    {
        rbuf.push(0);
        gbuf.push(0);
        bbuf.push(0);
        i = i + 1;
    }
    let mut out: Vec<u32> = Vec::with_capacity(total);
    let mut idx: usize = 0;
    while idx < total
        invariant
            0 <= idx <= total,
            k == frames@.len(),
            k > 0,
            total == w * h,
            w == frames@[0].width,
            h == frames@[0].height,
            all_same_dims(frames@),
            forall|i: int| 0 <= i < frames@.len() ==> #[trigger] frames@[i].wf(),
            rbuf@.len() == k,
            gbuf@.len() == k,
            bbuf@.len() == k,
            out@.len() == idx,
            forall|q: int| 0 <= q < idx ==> #[trigger] out@[q] == median_pixel(frames@, q),
        decreases total - idx,
    {
        let mut i: usize = 0;
        while i < k
            invariant
                0 <= i <= k,
                0 <= idx < total,
                k == frames@.len(),
                total == w * h,
                w == frames@[0].width,
                h == frames@[0].height,
                all_same_dims(frames@),
                forall|i: int| 0 <= i < frames@.len() ==> #[trigger] frames@[i].wf(),
                rbuf@.len() == k,
                gbuf@.len() == k,
                bbuf@.len() == k,
                forall|j: int| 0 <= j < i ==> #[trigger] rbuf@[j] == chan(frames@[j].pixels@[idx as int], 0),
                forall|j: int| 0 <= j < i ==> #[trigger] gbuf@[j] == chan(frames@[j].pixels@[idx as int], 1),
                forall|j: int| 0 <= j < i ==> #[trigger] bbuf@[j] == chan(frames@[j].pixels@[idx as int], 2),
            decreases k - i,
        {
            proof {
                assert(frames@[i as int].same_dims(&frames@[0]));
                assert(frames@[i as int].wf());
            }
            let (r, g, b) = unpack(frames[i].pixels[idx]);
            rbuf.set(i, r);
            gbuf.set(i, g);
            bbuf.set(i, b);
            i = i + 1;
        }
        proof {
            assert(rbuf@ =~= channel_samples(frames@, idx as int, 0));
            assert(gbuf@ =~= channel_samples(frames@, idx as int, 1));
            assert(bbuf@ =~= channel_samples(frames@, idx as int, 2));
        }
        let r = lower_median_of(&rbuf);
        let g = lower_median_of(&gbuf);
        let b = lower_median_of(&bbuf);
        out.push(pack(r, g, b));
        idx = idx + 1;
    }
    Ok(FrameBuffer { width: w, height: h, pixels: out })
}

/// `t` is in ascending order.
pub open spec fn is_sorted(t: Seq<u8>) -> bool {
    forall|i: int, j: int| 0 <= i <= j < t.len() ==> t[i] <= t[j]
}

proof fn lemma_count_eq_multiset(s: Seq<u8>, u: u8)
    ensures
        count_eq(s, u as int) == s.to_multiset().count(u),
    decreases s.len(),
{
    broadcast use vstd::multiset::group_multiset_axioms;

    s.to_multiset_ensures();
    if s.len() > 0 {
        let t = s.drop_last();
        lemma_count_eq_multiset(t, u);
        t.to_multiset_ensures();
        assert(t.push(s.last()) =~= s);
    } else {
        assert(!s.contains(u));
    }
}

proof fn lemma_count_below_multiset(s: Seq<u8>, t: Seq<u8>, v: int)
    requires
        s.to_multiset() == t.to_multiset(),
        0 <= v <= 256,
    ensures
        count_below(s, v) == count_below(t, v),
    decreases v,
{
    if v > 0 {
        lemma_count_below_multiset(s, t, v - 1);
        lemma_count_split(s, v - 1);
        lemma_count_split(t, v - 1);
        lemma_count_eq_multiset(s, (v - 1) as u8);
        lemma_count_eq_multiset(t, (v - 1) as u8);
    } else {
        lemma_count_range(s, 0);
        lemma_count_range(t, 0);
    }
}

proof fn lemma_count_below_at_most(t: Seq<u8>, v: int, k: int)
    requires
        0 <= k,
        forall|i: int| k <= i < t.len() ==> t[i] >= v,
    ensures
        count_below(t, v) <= k,
    decreases t.len(),
{
    lemma_count_range(t, v);
    if t.len() > k {
        lemma_count_below_at_most(t.drop_last(), v, k);
    }
}

proof fn lemma_count_below_at_least(t: Seq<u8>, v: int, n: int)
    requires
        0 <= n <= t.len(),
        forall|i: int| 0 <= i < n ==> t[i] < v,
    ensures
        count_below(t, v) >= n,
    decreases t.len(),
{
    if n > 0 {
        if t.len() > n {
            lemma_count_below_at_least(t.drop_last(), v, n);
        } else {
            lemma_count_below_at_least(t.drop_last(), v, n - 1);
        }
    }
}

/// Sorting the samples in ascending order and taking the entry at index
/// `len / 2` gives the lower median; for an odd count this is the middle entry,
/// with as many entries before it as after it.
pub proof fn lemma_lower_median_of_sorted(s: Seq<u8>, t: Seq<u8>)
    requires
        s.len() > 0,
        t.to_multiset() == s.to_multiset(),
        is_sorted(t),
    ensures
        t.len() == s.len(),
        lower_median(s) == t[t.len() as int / 2],
        s.len() % 2 == 1 ==> lower_median(s) == t[(t.len() - 1) / 2],
{
    s.to_multiset_ensures();
    t.to_multiset_ensures();
    let k = t.len() as int / 2;
    let m = t[k];
    lemma_count_below_at_most(t, m as int, k);
    lemma_count_below_at_least(t, m as int + 1, k + 1);
    lemma_count_below_multiset(s, t, m as int);
    lemma_count_below_multiset(s, t, m as int + 1);
    lemma_lower_median_is_order_stat(s, m);
}

/// When more than half of the samples share one value, that value is the lower
/// median, whatever the other samples hold: a minority of outliers cannot move it.
pub proof fn lemma_majority_median(s: Seq<u8>, v: u8)
    requires
        count_eq(s, v as int) > s.len() / 2,
    ensures
        lower_median(s) == v,
{
    lemma_count_split(s, v as int);
    lemma_count_range(s, v as int + 1);
    lemma_lower_median_is_order_stat(s, v);
}

} // verus!
