//! Hop-level bookkeeping of the slicer: the first minimum of a range of
//! levels, silence tags, and the frame ranges between them.
use vstd::prelude::*;
use vstd::math::min;

verus! {

// ---------------------------------------------------------------------------
// Minimum search
// ---------------------------------------------------------------------------

/// Index of the minimum of `v[b..e]` found by a left-to-right scan that only
/// replaces its current candidate by a strictly smaller element, i.e. the
/// first index at which the minimum is attained.
pub open spec fn first_min_index(v: Seq<u64>, b: int, e: int) -> int
    decreases e - b,
{
    if e <= b + 1 {
        b
    } else {
        let m = first_min_index(v, b, e - 1);
        if v[e - 1] < v[m] {
            e - 1
        } else {
            m
        }
    }
}

/// Offset, from the clamped `begin`, of the first minimum of `v` over
/// `[begin, end)` with both bounds clamped to `v.len()`; 0 for an empty range.
pub open spec fn argmin_offset(v: Seq<u64>, begin: int, end: int) -> int {
    let b = min(begin, v.len() as int);
    let e = min(end, v.len() as int);
    if b >= e {
        0
    } else {
        first_min_index(v, b, e) - b
    }
}

/// The first minimum lies in the range, is no larger than any element of the
/// range, and is strictly smaller than every element before it.
pub proof fn lemma_first_min_index(v: Seq<u64>, b: int, e: int)
    requires
        0 <= b < e <= v.len(),
    ensures
        b <= first_min_index(v, b, e) < e,
        forall|j: int| b <= j < e ==> v[first_min_index(v, b, e)] <= #[trigger] v[j],
        forall|j: int| b <= j < first_min_index(v, b, e) ==> v[first_min_index(v, b, e)] < #[trigger] v[j],
    decreases e - b,
{
    if e > b + 1 {
        lemma_first_min_index(v, b, e - 1);
    }
}

/// `m` is the first position at which `v` takes its minimum over `[b, e)`:
/// it lies in the range, no element of the range is smaller, and every
/// element before it in the range is larger.
pub open spec fn first_min_at(v: Seq<u64>, b: int, e: int, m: int) -> bool {
    &&& b <= m < e
    &&& forall|j: int| b <= j < e ==> v[m] <= #[trigger] v[j]
    &&& forall|j: int| b <= j < m ==> v[m] < #[trigger] v[j]
}

/// The scan's first minimum is the first position of the minimum, and the
/// only one.
pub proof fn lemma_first_min_at(v: Seq<u64>, b: int, e: int, m: int)
    requires
        0 <= b < e <= v.len(),
    ensures
        first_min_at(v, b, e, first_min_index(v, b, e)),
        first_min_at(v, b, e, m) ==> m == first_min_index(v, b, e),
        argmin_offset(v, b, e) + b == first_min_index(v, b, e),
{
    lemma_first_min_index(v, b, e);
    let f = first_min_index(v, b, e);
    if first_min_at(v, b, e, m) {
        if m < f {
            assert(v[f] < v[m]);
            assert(v[m] <= v[f]);
        } else if f < m {
            assert(v[m] < v[f]);
            assert(v[f] <= v[m]);
        }
    }
}

/// Offset of the first minimum of `v` over `[begin, end)`, both bounds clamped
/// to the length of `v`; 0 when the clamped range is empty.
pub fn argmin_range(v: &[u64], begin: usize, end: usize) -> (r: usize)
    ensures
        r == argmin_offset(v@, begin as int, end as int),
        ({
            let b = min(begin as int, v@.len() as int);
            let e = min(end as int, v@.len() as int);
            &&& b < e ==> b + r < e
            &&& b < e ==> forall|j: int| b <= j < e ==> v@[b + r] <= #[trigger] v@[j]
            &&& b < e ==> forall|j: int| b <= j < b + r ==> v@[b + r] < #[trigger] v@[j]
            &&& b >= e ==> r == 0
        }),
{
    let size = v.len();
    let b = if begin < size { begin } else { size };
    let e = if end < size { end } else { size };
    if b >= e {
        return 0;
    }
    let mut m = b;
    let mut j = b + 1;
    while j < e
        invariant
            b < j <= e <= v@.len(),
            b <= m < j,
            m == first_min_index(v@, b as int, j as int),
        decreases e - j,
    {
        if v[j] < v[m] {
            m = j;
        }
        j = j + 1;
    }
    proof {
        lemma_first_min_index(v@, b as int, e as int);
    }
    m - b
}

// ---------------------------------------------------------------------------
// Silence tags and slices
// ---------------------------------------------------------------------------

/// Pairs of `i64` as pairs of integers.
pub open spec fn pairs_as_int(s: Seq<(i64, i64)>) -> Seq<(int, int)> {
    s.map_values(|p: (i64, i64)| (p.0 as int, p.1 as int))
}

/// Pairs of `usize` as pairs of integers.
pub open spec fn ranges_as_int(s: Seq<(usize, usize)>) -> Seq<(int, int)> {
    s.map_values(|p: (usize, usize)| (p.0 as int, p.1 as int))
}

/// Every tag `(a, b)` has `0 <= a <= b < n`, and each tag ends before the
/// next one starts.
pub open spec fn tags_ordered_below(t: Seq<(int, int)>, n: int) -> bool {
    &&& forall|k: int| 0 <= k < t.len() ==> 0 <= #[trigger] t[k].0 <= t[k].1 && t[k].1 < n
    &&& forall|k: int| 0 <= k < t.len() - 1 ==> #[trigger] t[k].1 < t[k + 1].0
}

/// The tags of a finished scan over `n` levels: each tag `(a, b)` has
/// `0 <= a <= b` and `a < n`, ends before the next one starts, and ends
/// before the last level, except that the last tag may end at `n + 1`, past
/// the levels, for trailing silence.
pub open spec fn tags_well_formed(t: Seq<(int, int)>, n: int) -> bool {
    &&& forall|k: int| 0 <= k < t.len() ==> 0 <= #[trigger] t[k].0 <= t[k].1 && t[k].0 < n
    &&& forall|k: int| 0 <= k < t.len() - 1 ==> #[trigger] t[k].1 < n - 1
    &&& forall|k: int| 0 <= k < t.len() - 1 ==> #[trigger] t[k].1 < t[k + 1].0
    &&& t.len() > 0 ==> (t.last().1 < n - 1 || t.last().1 == n + 1)
}

/// Frame ranges between silence tags (in hops of `hop` frames): before the
/// first tag, between consecutive tags, and after the last one when it ends
/// inside the `n` levels; the whole signal when there is no tag.
pub open spec fn chunk_ranges(t: Seq<(int, int)>, frames: int, n: int, hop: int) -> Seq<(int, int)> {
    if t.len() == 0 {
        seq![(0, frames)]
    } else {
        let first = if t[0].0 > 0 {
            seq![(0, min(frames, t[0].0 * hop))]
        } else {
            Seq::empty()
        };
        let middle = Seq::new(
            (t.len() - 1) as nat,
            |k: int| (t[k].1 * hop, min(frames, t[k + 1].0 * hop)),
        );
        let last = if t.last().1 < n {
            seq![(t.last().1 * hop, frames)]
        } else {
            Seq::empty()
        };
        first + middle + last
    }
}

/// Ranges lie within `[0, frames]`, each starts no later than it ends, and
/// each ends no later than the next one starts.
pub open spec fn ranges_ordered(r: Seq<(int, int)>, frames: int) -> bool {
    &&& forall|k: int| 0 <= k < r.len() ==> 0 <= #[trigger] r[k].0 <= r[k].1 <= frames
    &&& forall|k: int| 0 <= k < r.len() - 1 ==> #[trigger] r[k].1 <= r[k + 1].0
}

/// Frame `x` lies in one of the ranges.
pub open spec fn in_some_range(r: Seq<(int, int)>, x: int) -> bool {
    exists|k: int| 0 <= k < r.len() && #[trigger] r[k].0 <= x < r[k].1
}

/// The last tag starting at or before hop `h`, searching from tag `k` on.
pub proof fn lemma_locate(t: Seq<(int, int)>, n: int, h: int, k: int) -> (j: int)
    requires
        tags_well_formed(t, n),
        0 <= k < t.len(),
        t[k].0 <= h,
    ensures
        k <= j < t.len(),
        t[j].0 <= h,
        j == t.len() - 1 || h < t[j + 1].0,
    decreases t.len() - k,
{
    if k == t.len() - 1 || h < t[k + 1].0 {
        k
    } else {
        lemma_locate(t, n, h, k + 1)
    }
}

/// Every range is non-empty.
pub open spec fn ranges_nonempty(r: Seq<(int, int)>) -> bool {
    forall|k: int| 0 <= k < r.len() ==> #[trigger] r[k].0 < r[k].1
}

/// The ranges between well-formed tags are ordered within the frames, and
/// none is empty in a non-empty signal.
pub proof fn lemma_chunk_ranges_ordered(t: Seq<(int, int)>, frames: int, n: int, hop: int)
    requires
        tags_well_formed(t, n),
        hop > 0,
        frames >= 0,
        n == frames / hop + 1,
    ensures
        ranges_ordered(chunk_ranges(t, frames, n, hop), frames),
        frames > 0 ==> ranges_nonempty(chunk_ranges(t, frames, n, hop)),
{
    let r = chunk_ranges(t, frames, n, hop);
    if t.len() > 0 {
        lemma_below_count(frames, hop);
        // a hop that starts before the last level starts before the end
        assert((n - 2) * hop <= frames - hop) by (nonlinear_arith)
            requires n == frames / hop + 1, (frames / hop) * hop <= frames;
        let first = if t[0].0 > 0 {
            seq![(0, min(frames, t[0].0 * hop))]
        } else {
            Seq::<(int, int)>::empty()
        };
        let middle = Seq::new(
            (t.len() - 1) as nat,
            |k: int| (t[k].1 * hop, min(frames, t[k + 1].0 * hop)),
        );
        let last = if t.last().1 < n {
            seq![(t.last().1 * hop, frames)]
        } else {
            Seq::<(int, int)>::empty()
        };
        assert(r == first + middle + last);
        let f = first.len() as int;
        let m = middle.len() as int;
        assert(t[t.len() - 1] == t.last());
        assert forall|k: int| 0 <= k < r.len() implies 0 <= #[trigger] r[k].0 <= r[k].1 <= frames by {
            if k < f {
                assert(r[k] == first[0]);
                lemma_scale_le(0, t[0].0, hop);
            } else if k < f + m {
                let j = k - f;
                assert(r[k] == middle[j]);
                assert(0 <= t[j].0 <= t[j].1);
                lemma_scale_le(0, t[j].1, hop);
                lemma_scale_le(t[j].1, n - 1, hop);
                lemma_scale_le(t[j].1, t[j + 1].0, hop);
            } else {
                assert(r[k] == last[0]);
                assert(0 <= t[t.len() - 1].0 <= t.last().1);
                lemma_scale_le(0, t.last().1, hop);
                lemma_scale_le(t.last().1, n - 1, hop);
            }
        }
        assert forall|k: int| 0 <= k < r.len() - 1 implies #[trigger] r[k].1 <= r[k + 1].0 by {
            if k < f {
                assert(r[k] == first[0]);
                lemma_scale_le(t[0].0, t[0].1, hop);
                if m > 0 {
                    assert(r[k + 1] == middle[0]);
                } else {
                    assert(r[k + 1] == last[0]);
                }
            } else {
                let j = k - f;
                assert(r[k] == middle[j]);
                lemma_scale_le(t[j + 1].0, t[j + 1].1, hop);
                if j + 1 < m {
                    assert(r[k + 1] == middle[j + 1]);
                } else {
                    assert(r[k + 1] == last[0]);
                }
            }
        }
        if frames > 0 {
            assert forall|k: int| 0 <= k < r.len() implies #[trigger] r[k].0 < r[k].1 by {
                if k < f {
                    assert(r[k] == first[0]);
                    lemma_scale_le(1, t[0].0, hop);
                } else if k < f + m {
                    let j = k - f;
                    assert(r[k] == middle[j]);
                    assert(0 <= t[j].0 <= t[j].1);
                    lemma_scale_le(t[j].1, n - 2, hop);
                    lemma_scale_lt(t[j].1, t[j + 1].0, hop);
                } else {
                    assert(r[k] == last[0]);
                    lemma_scale_le(t.last().1, n - 2, hop);
                }
            }
        }
    }
}

/// Every level index is at most `frames / hop`, so it scales into the frames.
pub proof fn lemma_below_count(frames: int, hop: int)
    requires
        frames >= 0,
        hop > 0,
    ensures
        (frames / hop) * hop <= frames,
        frames / hop >= 0,
{
    assert((frames / hop) * hop <= frames && frames / hop >= 0) by (nonlinear_arith)
        requires frames >= 0, hop > 0;
}

/// There are no more hops than frames.
pub proof fn lemma_count_bound(frames: int, hop: int)
    requires
        frames >= 0,
        hop > 0,
    ensures
        frames / hop <= frames,
{
    assert(frames / hop <= frames) by (nonlinear_arith)
        requires frames >= 0, hop > 0;
}

/// Scaling by a positive hop keeps strict order.
pub proof fn lemma_scale_lt(x: int, y: int, hop: int)
    requires
        x < y,
        hop > 0,
    ensures
        x * hop < y * hop,
{
    assert(x * hop < y * hop) by (nonlinear_arith)
        requires x < y, hop > 0;
}

/// Scaling by a positive hop keeps order.
pub proof fn lemma_scale_le(x: int, y: int, hop: int)
    requires
        x <= y,
        hop > 0,
    ensures
        x * hop <= y * hop,
{
    assert(x * hop <= y * hop) by (nonlinear_arith)
        requires x <= y, hop > 0;
}

/// Frame `x` lies in the span of one of the tags, in hops of `hop` frames:
/// a frame cut out between slices.
pub open spec fn in_tag_span(t: Seq<(int, int)>, hop: int, x: int) -> bool {
    exists|j: int| 0 <= j < t.len() && #[trigger] (t[j].0 * hop) <= x < t[j].1 * hop
}

/// Well-formed tags are sorted: an earlier tag ends before a later one
/// starts.
pub proof fn lemma_tags_sorted(t: Seq<(int, int)>, n: int, p: int, q: int)
    requires
        tags_well_formed(t, n),
        0 <= p < q < t.len(),
    ensures
        t[p].1 < t[q].0,
    decreases q - p,
{
    if q > p + 1 {
        lemma_tags_sorted(t, n, p, q - 1);
        assert(t[q - 1].0 <= t[q - 1].1);
    }
}

/// The ranges between well-formed tags keep exactly the frames outside the
/// tags' spans.
pub proof fn lemma_chunk_complement(t: Seq<(int, int)>, frames: int, n: int, hop: int)
    requires
        tags_well_formed(t, n),
        hop > 0,
        frames >= 0,
        n == frames / hop + 1,
    ensures
        forall|x: int|
            0 <= x < frames ==> (in_some_range(chunk_ranges(t, frames, n, hop), x) <==> !in_tag_span(
                t,
                hop,
                x,
            )),
{
    let r = chunk_ranges(t, frames, n, hop);
    assert forall|x: int| 0 <= x < frames implies (in_some_range(r, x) <==> !in_tag_span(t, hop, x)) by {
        let h = x / hop;
        assert(h * hop <= x < (h + 1) * hop && 0 <= h <= frames / hop) by (nonlinear_arith)
            requires 0 <= x < frames, hop > 0, h == x / hop;
        assert(frames < n * hop) by (nonlinear_arith)
            requires n == frames / hop + 1, hop > 0, frames >= 0;
        if t.len() == 0 {
            assert(r[0].0 <= x < r[0].1);
        } else {
            let first = if t[0].0 > 0 {
                seq![(0, min(frames, t[0].0 * hop))]
            } else {
                Seq::<(int, int)>::empty()
            };
            let middle = Seq::new(
                (t.len() - 1) as nat,
                |k: int| (t[k].1 * hop, min(frames, t[k + 1].0 * hop)),
            );
            let last = if t.last().1 < n {
                seq![(t.last().1 * hop, frames)]
            } else {
                Seq::<(int, int)>::empty()
            };
            assert(r == first + middle + last);
            let f = first.len() as int;
            let m = middle.len() as int;
            assert(t[t.len() - 1] == t.last());
            // frames in a tag's span are in no range
            if in_tag_span(t, hop, x) {
                let j = choose|j: int| 0 <= j < t.len() && #[trigger] (t[j].0 * hop) <= x < t[j].1 * hop;
                assert forall|q: int| 0 <= q < r.len() implies !(#[trigger] r[q].0 <= x < r[q].1) by {
                    if q < f {
                        assert(r[q] == first[0]);
                        if j > 0 {
                            lemma_tags_sorted(t, n, 0, j);
                            assert(t[0].0 <= t[0].1);
                        }
                        lemma_scale_le(t[0].0, t[j].0, hop);
                    } else if q < f + m {
                        let mq = q - f;
                        assert(r[q] == middle[mq]);
                        if mq < j {
                            if mq + 1 < j {
                                lemma_tags_sorted(t, n, mq + 1, j);
                                assert(t[mq + 1].0 <= t[mq + 1].1);
                            }
                            lemma_scale_le(t[mq + 1].0, t[j].0, hop);
                        } else {
                            if j < mq {
                                lemma_tags_sorted(t, n, j, mq);
                                assert(t[mq].0 <= t[mq].1);
                            }
                            lemma_scale_le(t[j].1, t[mq].1, hop);
                        }
                    } else {
                        assert(r[q] == last[0]);
                        if j < t.len() - 1 {
                            lemma_tags_sorted(t, n, j, t.len() - 1);
                            assert(t[t.len() - 1].0 <= t.last().1);
                        }
                        lemma_scale_le(t[j].1, t.last().1, hop);
                    }
                }
            } else {
                // frames outside every span are in a range
                if h < t[0].0 {
                    lemma_scale_le(h + 1, t[0].0, hop);
                    assert(r[0] == first[0]);
                    assert(r[0].0 <= x < r[0].1);
                } else {
                    let j = lemma_locate(t, n, h, 0);
                    lemma_scale_le(t[j].0, h, hop);
                    assert(!(t[j].0 * hop <= x < t[j].1 * hop));
                    if j < t.len() - 1 {
                        lemma_scale_le(h + 1, t[j + 1].0, hop);
                        assert(r[f + j] == middle[j]);
                        assert(r[f + j].0 <= x < r[f + j].1);
                    } else {
                        if t.last().1 == n + 1 {
                            lemma_scale_le(n, n + 1, hop);
                        }
                        assert(r[f + m] == last[0]);
                        assert(r[f + m].0 <= x < r[f + m].1);
                    }
                }
            }
        }
    }
}

/// `x` is where a tag's span starts, in frames.
pub open spec fn tag_start_at(t: Seq<(int, int)>, hop: int, x: int) -> bool {
    exists|j: int| 0 <= j < t.len() && #[trigger] (t[j].0 * hop) == x
}

/// `x` is where a tag's span ends, in frames.
pub open spec fn tag_end_at(t: Seq<(int, int)>, hop: int, x: int) -> bool {
    exists|j: int| 0 <= j < t.len() && #[trigger] (t[j].1 * hop) == x
}

/// Ranges between tags start at frame 0 or where a tag ends, and end at the
/// last frame or where a tag starts.
pub proof fn lemma_chunk_edges(t: Seq<(int, int)>, frames: int, n: int, hop: int)
    requires
        hop > 0,
    ensures
        forall|q: int|
            0 <= q < chunk_ranges(t, frames, n, hop).len() ==> {
                let r = #[trigger] chunk_ranges(t, frames, n, hop)[q];
                &&& r.0 == 0 || tag_end_at(t, hop, r.0)
                &&& r.1 == frames || tag_start_at(t, hop, r.1)
            },
{
    let r = chunk_ranges(t, frames, n, hop);
    if t.len() > 0 {
        let first = if t[0].0 > 0 {
            seq![(0, min(frames, t[0].0 * hop))]
        } else {
            Seq::<(int, int)>::empty()
        };
        let middle = Seq::new(
            (t.len() - 1) as nat,
            |k: int| (t[k].1 * hop, min(frames, t[k + 1].0 * hop)),
        );
        let last = if t.last().1 < n {
            seq![(t.last().1 * hop, frames)]
        } else {
            Seq::<(int, int)>::empty()
        };
        assert(r == first + middle + last);
        let f = first.len() as int;
        let m = middle.len() as int;
        assert(t[t.len() - 1] == t.last());
        assert forall|q: int| 0 <= q < r.len() implies {
            &&& (#[trigger] r[q]).0 == 0 || tag_end_at(t, hop, r[q].0)
            &&& r[q].1 == frames || tag_start_at(t, hop, r[q].1)
        } by {
            if q < f {
                assert(r[q] == first[0]);
                assert(t[0].0 * hop == t[0].0 * hop);
            } else if q < f + m {
                let j = q - f;
                assert(r[q] == middle[j]);
                assert(t[j].1 * hop == r[q].0);
                assert(t[j + 1].0 * hop == t[j + 1].0 * hop);
            } else {
                assert(r[q] == last[0]);
                assert(t[t.len() - 1].1 * hop == r[q].0);
            }
        }
    }
}

} // verus!
