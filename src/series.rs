//! The time windows over which a score series is averaged.
use vstd::prelude::*;

verus! {

/// Whether the timestamps never decrease.
pub open spec fn ascending(ts: Seq<usize>) -> bool {
    forall|i: int, j: int| 0 <= i <= j < ts.len() ==> ts[i] <= ts[j]
}

/// The index at which the window after window `k` starts, or `n` when
/// window `k` is the last.
pub open spec fn window_end(starts: Seq<usize>, k: int, n: int) -> int {
    if k + 1 < starts.len() {
        starts[k + 1] as int
    } else {
        n
    }
}

/// Whether `starts` are the first indices of the windows of the first `m`
/// points of `ts`: the first window starts at the first point; a point joins
/// the current window while it lies less than `w` after the window's first
/// point, and otherwise opens the next window.
#[verifier::opaque]
pub open spec fn windows_upto(ts: Seq<usize>, w: usize, starts: Seq<usize>, m: int) -> bool {
    &&& starts.len() > 0
    &&& starts[0] == 0
    &&& forall|k: int| 0 <= k < starts.len() ==> #[trigger] starts[k] < window_end(starts, k, m)
    &&& forall|k: int| 0 <= k < starts.len() ==> window_end(starts, k, m) <= m
    &&& forall|k: int, j: int|
        #![trigger ts[j], starts[k]]
        0 <= k < starts.len() && starts[k] < j < window_end(starts, k, m) ==> ts[j] - ts[
            starts[k] as int] < w
    &&& forall|k: int|
        0 <= k < starts.len() - 1 ==> ts[starts[k + 1] as int] - ts[#[trigger] starts[k] as int]
            >= w
}

/// Whether `starts` are the first indices of the windows of all of `ts`.
pub open spec fn windows_of(ts: Seq<usize>, w: usize, starts: Seq<usize>) -> bool {
    windows_upto(ts, w, starts, ts.len() as int)
}

proof fn lemma_open_window(ts: Seq<usize>, w: usize, r: Seq<usize>, j: usize)
    requires
        windows_upto(ts, w, r, j as int),
        r.last() < j < ts.len(),
        ts[j as int] - ts[r.last() as int] >= w,
    ensures
        windows_upto(ts, w, r.push(j), j + 1),
{
    reveal(windows_upto);
    let q = r.push(j);
    assert forall|k: int| 0 <= k < q.len() implies #[trigger] q[k] < window_end(q, k, j + 1) by {
        if k < r.len() {
            assert(q[k] == r[k]);
            assert(r[k] < window_end(r, k, j as int));
            if k + 1 == r.len() {
                assert(q[k + 1] == j);
            }
        }
    }
    assert forall|k: int, i: int|
        #![trigger ts[i], q[k]]
        0 <= k < q.len() && q[k] < i < window_end(q, k, j + 1) implies ts[i] - ts[q[k] as int]
        < w by {
        if k < r.len() {
            assert(q[k] == r[k]);
            if k + 1 == r.len() {
                assert(q[k + 1] == j);
            } else {
                assert(q[k + 1] == r[k + 1]);
            }
            assert(window_end(q, k, j + 1) == window_end(r, k, j as int));
            assert(ts[i] - ts[r[k] as int] < w);
        }
    }
    assert forall|k: int| 0 <= k < q.len() - 1 implies ts[q[k + 1] as int] - ts[
        #[trigger] q[k] as int] >= w by {
        assert(q[k] == r[k]);
        if k + 1 < r.len() {
            assert(q[k + 1] == r[k + 1]);
            assert(ts[r[k + 1] as int] - ts[r[k] as int] >= w);
        }
    }
}

proof fn lemma_join_window(ts: Seq<usize>, w: usize, r: Seq<usize>, j: int)
    requires
        windows_upto(ts, w, r, j),
        r.last() < j < ts.len(),
        ts[j] - ts[r.last() as int] < w,
    ensures
        windows_upto(ts, w, r, j + 1),
{
    reveal(windows_upto);
    assert forall|k: int| 0 <= k < r.len() implies #[trigger] r[k] < window_end(r, k, j + 1) by {
        assert(r[k] < window_end(r, k, j));
    }
    assert forall|k: int, i: int|
        #![trigger ts[i], r[k]]
        0 <= k < r.len() && r[k] < i < window_end(r, k, j + 1) implies ts[i] - ts[r[k] as int]
        < w by {
        if i < j {
            assert(window_end(r, k, j + 1) == window_end(r, k, j) || k == r.len() - 1);
        }
    }
}

/// The windows of a non-empty ascending series, as the index of each window's
/// first point; there are never more windows than points, and each point
/// belongs to exactly one window.
pub fn window_starts(timestamps: &Vec<usize>, window_ms: usize) -> (r: Vec<usize>)
    requires
        timestamps@.len() > 0,
        ascending(timestamps@),
    ensures
        windows_of(timestamps@, window_ms, r@),
        r@.len() <= timestamps@.len(),
{
    let ghost ts = timestamps@;
    let n = timestamps.len();
    let mut r: Vec<usize> = Vec::new();
    r.push(0);
    let mut start: usize = 0;
    let mut j: usize = 1;
    proof {
        reveal(windows_upto);
        assert(window_end(r@, 0, 1) == 1);
    }
    while j < n
        invariant
            ts == timestamps@,
            n == ts.len(),
            1 <= j <= n,
            r@.len() > 0,
            r@.len() <= j,
            start == r@.last(),
            start < j,
            windows_upto(ts, window_ms, r@, j as int),
            ascending(ts),
        decreases n - j,
    {
        assert(ts[start as int] <= ts[j as int]);
        let ghost before = r@;
        if timestamps[j] - timestamps[start] >= window_ms {
            proof {
                lemma_open_window(ts, window_ms, r@, j);
            }
            r.push(j);
            start = j;
            assert(r@ == before.push(j));
        } else {
            proof {
                lemma_join_window(ts, window_ms, r@, j as int);
            }
        }
        j = j + 1;
    }
    r
}

} // verus!
