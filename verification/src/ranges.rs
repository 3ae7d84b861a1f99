//! Byte-level comparison of two section images.
//!
//! The scan walks the common prefix of both images once.  A differing range
//! opens at a byte that differs and stays open until a window of
//! `MERGE_THRESHOLD` agreeing bytes (or the end of the common prefix) is
//! reached.  Bytes that only one side has form one trailing range.
use vstd::prelude::*;
use crate::bytes::copy_range;

verus! {

/// A window of this many agreeing bytes closes a differing range.
pub const MERGE_THRESHOLD: usize = 8;

/// One contiguous run of differing bytes.
pub struct ByteRange {
    /// Virtual address of the first byte of the run.
    pub offset: u64,
    /// Number of bytes covered by the run.
    pub len: usize,
    /// The bytes of the left image in the run.
    pub left_bytes: Vec<u8>,
    /// The bytes of the right image in the run.
    pub right_bytes: Vec<u8>,
}

/// The mathematical content of a [`ByteRange`].
pub ghost struct ByteRangeView {
    pub offset: u64,
    pub len: int,
    pub left: Seq<u8>,
    pub right: Seq<u8>,
}

impl View for ByteRange {
    type V = ByteRangeView;

    open spec fn view(&self) -> ByteRangeView {
        ByteRangeView {
            offset: self.offset,
            len: self.len as int,
            left: self.left_bytes@,
            right: self.right_bytes@,
        }
    }
}

/// The views of a sequence of ranges.
pub open spec fn range_views(rs: Seq<ByteRange>) -> Seq<ByteRangeView> {
    rs.map_values(|r: ByteRange| r@)
}

/// Length of the prefix that both images have.
pub open spec fn common_len(l: Seq<u8>, r: Seq<u8>) -> int {
    if l.len() <= r.len() {
        l.len() as int
    } else {
        r.len() as int
    }
}

/// `base + off` on 64-bit addresses, wrapping at 2^64.
pub open spec fn address_at(base: u64, off: int) -> u64 {
    if base + off > u64::MAX {
        (base + off - 0x1_0000_0000_0000_0000) as u64
    } else {
        (base + off) as u64
    }
}

/// The bytes at `i .. min(i + MERGE_THRESHOLD, common length)` agree on both sides.
pub open spec fn settles_at(l: Seq<u8>, r: Seq<u8>, i: int) -> bool {
    forall|j: int| i <= j < i + MERGE_THRESHOLD && j < common_len(l, r) ==> #[trigger] l[j] == r[j]
}

/// The first position at or after `i` where the images settle, or the common length.
pub open spec fn run_end_from(l: Seq<u8>, r: Seq<u8>, i: int) -> int
    decreases common_len(l, r) - i,
{
    if i >= common_len(l, r) {
        common_len(l, r)
    } else if settles_at(l, r, i) {
        i
    } else {
        run_end_from(l, r, i + 1)
    }
}

pub proof fn lemma_run_end_bounds(l: Seq<u8>, r: Seq<u8>, i: int)
    requires
        i <= common_len(l, r),
    ensures
        i <= run_end_from(l, r, i) <= common_len(l, r),
        run_end_from(l, r, i) == common_len(l, r) || settles_at(l, r, run_end_from(l, r, i)),
        forall|j: int| i <= j < run_end_from(l, r, i) ==> !#[trigger] settles_at(l, r, j),
    decreases common_len(l, r) - i,
{
    if i < common_len(l, r) && !settles_at(l, r, i) {
        lemma_run_end_bounds(l, r, i + 1);
    }
}

/// The differing runs `(start, end)` found by scanning from position `i`.
pub open spec fn runs_from(l: Seq<u8>, r: Seq<u8>, i: int) -> Seq<(int, int)>
    decreases common_len(l, r) - i,
{
    if i >= common_len(l, r) || i < 0 {
        Seq::empty()
    } else if l[i] == r[i] {
        runs_from(l, r, i + 1)
    } else {
        let e = run_end_from(l, r, i + 1);
        proof {
            lemma_run_end_bounds(l, r, i + 1);
        }
        seq![(i, e)] + runs_from(l, r, e)
    }
}

/// The range reported for the run `(s, e)`.
pub open spec fn run_view(l: Seq<u8>, r: Seq<u8>, base: u64, run: (int, int)) -> ByteRangeView {
    ByteRangeView {
        offset: address_at(base, run.0),
        len: run.1 - run.0,
        left: l.subrange(run.0, run.1),
        right: r.subrange(run.0, run.1),
    }
}

/// The ranges reported for a sequence of runs.
pub open spec fn run_views(l: Seq<u8>, r: Seq<u8>, base: u64, runs: Seq<(int, int)>) -> Seq<ByteRangeView> {
    runs.map_values(|run: (int, int)| run_view(l, r, base, run))
}

/// The range reported for the bytes past the common prefix.
pub open spec fn tail_view(l: Seq<u8>, r: Seq<u8>, base: u64) -> ByteRangeView {
    let n = common_len(l, r);
    ByteRangeView {
        offset: address_at(base, n),
        len: if l.len() >= r.len() { l.len() - n } else { r.len() - n },
        left: l.subrange(n, l.len() as int),
        right: r.subrange(n, r.len() as int),
    }
}

/// The ranges reported when comparing `l` against `r` with the images based at `base`.
pub open spec fn differing_ranges(l: Seq<u8>, r: Seq<u8>, base: u64) -> Seq<ByteRangeView> {
    run_views(l, r, base, runs_from(l, r, 0)) + if l.len()
        != r.len() {
        seq![tail_view(l, r, base)]
    } else {
        Seq::empty()
    }
}

/// Whether the window starting at `i` settles (requires `i` inside the common prefix).
fn settles(left: &[u8], right: &[u8], i: usize, n: usize) -> (b: bool)
    requires
        n == common_len(left@, right@),
        i < n,
    ensures
        b == settles_at(left@, right@, i as int),
{
    let stop = if n - i < MERGE_THRESHOLD {
        n
    } else {
        i + MERGE_THRESHOLD
    };
    let mut j: usize = i;
    while j < stop
        invariant
            i <= j <= stop <= n,
            n == common_len(left@, right@),
            stop == n || stop == i + MERGE_THRESHOLD,
            stop <= i + MERGE_THRESHOLD,
            forall|k: int| i <= k < j ==> #[trigger] left@[k] == right@[k],
        decreases stop - j,
    {
        if left[j] != right[j] {
            return false;
        }
        j = j + 1;
    }
    true
}

/// The end of the run whose first byte is at `start`.
fn run_end(left: &[u8], right: &[u8], start: usize, n: usize) -> (e: usize)
    requires
        n == common_len(left@, right@),
        start < n,
    ensures
        e == run_end_from(left@, right@, start + 1),
{
    let mut i: usize = start + 1;
    while i < n
        invariant
            start < i <= n,
            n == common_len(left@, right@),
            run_end_from(left@, right@, start + 1) == run_end_from(left@, right@, i as int),
        decreases n - i,
    {
        if left[i] == right[i] && settles(left, right, i, n) {
            return i;
        }
        i = i + 1;
    }
    i
}

/// Scans `left` against `right` and reports every differing range, with
/// offsets given as virtual addresses starting at `base_addr`.
pub fn find_differing_ranges(left: &[u8], right: &[u8], base_addr: u64) -> (out: Vec<ByteRange>)
    ensures
        range_views(out@) == differing_ranges(left@, right@, base_addr),
{
    let len: usize = if left.len() <= right.len() {
        left.len()
    } else {
        right.len()
    };
    let mut ranges: Vec<ByteRange> = Vec::new();
    let mut i: usize = 0;
    let ghost mut done: Seq<(int, int)> = Seq::empty();
    while i < len
        invariant
            i <= len,
            len == common_len(left@, right@),
            runs_from(left@, right@, 0) == done + runs_from(left@, right@, i as int),
            range_views(ranges@) == run_views(left@, right@, base_addr, done),
        decreases len - i,
    {
        if left[i] == right[i] {
            i = i + 1;
        } else {
            let start = i;
            let end = run_end(left, right, start, len);
            proof {
                lemma_run_end_bounds(left@, right@, start + 1);
            }
            let r = ByteRange {
                offset: base_addr.wrapping_add(start as u64),
                len: end - start,
                left_bytes: copy_range(left, start, end),
                right_bytes: copy_range(right, start, end),
            };
            let ghost before = ranges@;
            assert(r@ == run_view(left@, right@, base_addr, (start as int, end as int)));
            ranges.push(r);
            proof {
                let run = (start as int, end as int);
                assert(ranges@ == before.push(r));
                assert(runs_from(left@, right@, start as int) == seq![run] + runs_from(
                    left@,
                    right@,
                    end as int,
                ));
                assert(done + (seq![run] + runs_from(left@, right@, end as int)) == done.push(run)
                    + runs_from(left@, right@, end as int));
                let old_done = done;
                assert(range_views(before).len() == before.len());
                assert(run_views(left@, right@, base_addr, old_done).len() == old_done.len());
                done = done.push(run);
                assert(done.len() == ranges@.len());
                assert forall|k: int| 0 <= k < ranges@.len() implies #[trigger] range_views(ranges@)[k]
                    == run_views(left@, right@, base_addr, done)[k] by {
                    if k == before.len() {
                        assert(ranges@[k] == r);
                        assert(done[k] == run);
                    } else {
                        assert(ranges@[k] == before[k]);
                        assert(range_views(before)[k] == run_views(left@, right@, base_addr, old_done)[k]);
                    }
                }
                assert(range_views(ranges@) =~= run_views(left@, right@, base_addr, done));
            }
            i = end;
        }
    }
    assert(runs_from(left@, right@, i as int) == Seq::<(int, int)>::empty());
    assert(done + Seq::<(int, int)>::empty() == done);
    if left.len() != right.len() {
        let tail_len = if left.len() >= right.len() {
            left.len() - len
        } else {
            right.len() - len
        };
        let r = ByteRange {
            offset: base_addr.wrapping_add(len as u64),
            len: tail_len,
            left_bytes: copy_range(left, len, left.len()),
            right_bytes: copy_range(right, len, right.len()),
        };
        ranges.push(r);
        assert(range_views(ranges@) =~= differing_ranges(left@, right@, base_addr));
    } else {
        assert(range_views(ranges@) =~= differing_ranges(left@, right@, base_addr));
    }
    ranges
}

} // verus!

verus! {

/// The differing runs of the whole common prefix.
pub open spec fn differing_runs(l: Seq<u8>, r: Seq<u8>) -> Seq<(int, int)> {
    runs_from(l, r, 0)
}

/// Position `p` lies inside one of `runs`.
pub open spec fn covered_by(runs: Seq<(int, int)>, p: int) -> bool {
    exists|k: int| 0 <= k < runs.len() && runs[k].0 <= p < #[trigger] runs[k].1
}

/// Shape of the runs found from `i`: ordered, separated, inside the common
/// prefix, opening at a differing byte and closing where the images settle.
proof fn lemma_runs_shape(l: Seq<u8>, r: Seq<u8>, i: int)
    requires
        0 <= i,
    ensures
        forall|k: int|
            0 <= k < runs_from(l, r, i).len() ==> {
                let run = #[trigger] runs_from(l, r, i)[k];
                &&& i <= run.0 < run.1 <= common_len(l, r)
                &&& l[run.0] != r[run.0]
                &&& (run.1 == common_len(l, r) || settles_at(l, r, run.1))
                &&& forall|j: int| run.0 < j < run.1 ==> !#[trigger] settles_at(l, r, j)
            },
        forall|k: int|
            0 <= k < runs_from(l, r, i).len() - 1 ==> #[trigger] runs_from(l, r, i)[k].1 < runs_from(
                l,
                r,
                i,
            )[k + 1].0,
    decreases common_len(l, r) - i,
{
    let n = common_len(l, r);
    if i >= n {
    } else if l[i] == r[i] {
        lemma_runs_shape(l, r, i + 1);
        assert(runs_from(l, r, i) == runs_from(l, r, i + 1));
    } else {
        let e = run_end_from(l, r, i + 1);
        lemma_run_end_bounds(l, r, i + 1);
        lemma_runs_shape(l, r, e);
        let rest = runs_from(l, r, e);
        let all = runs_from(l, r, i);
        assert(all == seq![(i, e)] + rest);
        assert forall|k: int| 0 <= k < all.len() implies {
            let run = #[trigger] all[k];
            &&& i <= run.0 < run.1 <= n
            &&& l[run.0] != r[run.0]
            &&& (run.1 == n || settles_at(l, r, run.1))
            &&& forall|j: int| run.0 < j < run.1 ==> !#[trigger] settles_at(l, r, j)
        } by {
            if k > 0 {
                assert(all[k] == rest[k - 1]);
            }
        }
        assert forall|k: int| 0 <= k < all.len() - 1 implies #[trigger] all[k].1 < all[k + 1].0 by {
            if k == 0 {
                assert(all[1] == rest[0]);
                if e < n {
                    assert(settles_at(l, r, e));
                    assert(l[e] == r[e]);
                }
            } else {
                assert(all[k] == rest[k - 1]);
                assert(all[k + 1] == rest[k]);
            }
        }
    }
}

/// Every differing position at or after `i` in the common prefix lies in a run found from `i`.
proof fn lemma_runs_cover(l: Seq<u8>, r: Seq<u8>, i: int, p: int)
    requires
        0 <= i <= p < common_len(l, r),
        l[p] != r[p],
    ensures
        covered_by(runs_from(l, r, i), p),
    decreases common_len(l, r) - i,
{
    let all = runs_from(l, r, i);
    if l[i] == r[i] {
        lemma_runs_cover(l, r, i + 1, p);
        assert(all == runs_from(l, r, i + 1));
    } else {
        let e = run_end_from(l, r, i + 1);
        lemma_run_end_bounds(l, r, i + 1);
        let rest = runs_from(l, r, e);
        assert(all == seq![(i, e)] + rest);
        if p < e {
            assert(all[0] == (i, e));
            assert(all[0].0 <= p < all[0].1);
        } else {
            lemma_runs_cover(l, r, e, p);
            let k = choose|k: int| 0 <= k < rest.len() && rest[k].0 <= p < #[trigger] rest[k].1;
            assert(all[k + 1] == rest[k]);
            assert(all[k + 1].0 <= p < all[k + 1].1);
        }
    }
}

/// The scan does not depend on which side is called left.
proof fn lemma_runs_symmetric(l: Seq<u8>, r: Seq<u8>, i: int)
    ensures
        runs_from(l, r, i) == runs_from(r, l, i),
    decreases common_len(l, r) - i,
{
    assert forall|j: int| settles_at(l, r, j) == settles_at(r, l, j) by {
        if settles_at(l, r, j) {
            assert forall|t: int| j <= t < j + MERGE_THRESHOLD && t < common_len(r, l) implies #[trigger] r[t]
                == l[t] by {
                assert(l[t] == r[t]);
            }
        }
        if settles_at(r, l, j) {
            assert forall|t: int| j <= t < j + MERGE_THRESHOLD && t < common_len(l, r) implies #[trigger] l[t]
                == r[t] by {
                assert(r[t] == l[t]);
            }
        }
    }
    if 0 <= i < common_len(l, r) && l[i] != r[i] {
        lemma_run_end_symmetric(l, r, i + 1);
        lemma_run_end_bounds(l, r, i + 1);
        lemma_runs_symmetric(l, r, run_end_from(l, r, i + 1));
    } else if 0 <= i < common_len(l, r) {
        lemma_runs_symmetric(l, r, i + 1);
    }
}

proof fn lemma_run_end_symmetric(l: Seq<u8>, r: Seq<u8>, i: int)
    ensures
        run_end_from(l, r, i) == run_end_from(r, l, i),
    decreases common_len(l, r) - i,
{
    if i < common_len(l, r) {
        if settles_at(l, r, i) {
            assert forall|t: int| i <= t < i + MERGE_THRESHOLD && t < common_len(r, l) implies #[trigger] r[t]
                == l[t] by {
                assert(l[t] == r[t]);
            }
        } else {
            let t = choose|t: int| i <= t < i + MERGE_THRESHOLD && t < common_len(l, r) && l[t] != r[t];
            assert(!(r[t] == l[t]));
            lemma_run_end_symmetric(l, r, i + 1);
        }
    }
}

/// The differing runs are ordered, separated by at least one agreeing byte,
/// lie inside the common prefix and each opens at a byte that differs.
pub proof fn lemma_runs_ordered(l: Seq<u8>, r: Seq<u8>)
    ensures
        forall|k: int|
            0 <= k < differing_runs(l, r).len() ==> {
                let run = #[trigger] differing_runs(l, r)[k];
                &&& 0 <= run.0 < run.1 <= common_len(l, r)
                &&& l[run.0] != r[run.0]
            },
        forall|k: int|
            0 <= k < differing_runs(l, r).len() - 1 ==> #[trigger] differing_runs(l, r)[k].1
                < differing_runs(l, r)[k + 1].0,
{
    lemma_runs_shape(l, r, 0);
}

/// A run closes exactly at the first window of `MERGE_THRESHOLD` agreeing
/// bytes (shorter only at the end of the common prefix): no such window
/// starts strictly inside a run, and one starts where the run ends unless it
/// ends with the common prefix.
pub proof fn lemma_runs_close_at_settled_window(l: Seq<u8>, r: Seq<u8>)
    ensures
        forall|k: int|
            0 <= k < differing_runs(l, r).len() ==> {
                let run = #[trigger] differing_runs(l, r)[k];
                &&& (run.1 == common_len(l, r) || settles_at(l, r, run.1))
                &&& forall|j: int| run.0 < j < run.1 ==> !#[trigger] settles_at(l, r, j)
            },
{
    lemma_runs_shape(l, r, 0);
}

/// Every position of the common prefix where the images differ lies in a
/// run; equivalently, every position outside all runs holds the same byte
/// on both sides.
pub proof fn lemma_runs_cover_differences(l: Seq<u8>, r: Seq<u8>)
    ensures
        forall|p: int|
            0 <= p < common_len(l, r) && !covered_by(differing_runs(l, r), p) ==> #[trigger] l[p]
                == r[p],
{
    assert forall|p: int|
        0 <= p < common_len(l, r) && !covered_by(differing_runs(l, r), p) implies #[trigger] l[p]
        == r[p] by {
        if l[p] != r[p] {
            lemma_runs_cover(l, r, 0, p);
        }
    }
}

/// No range is reported exactly when the two images are identical.
pub proof fn lemma_no_ranges_iff_identical(l: Seq<u8>, r: Seq<u8>, base: u64)
    ensures
        differing_ranges(l, r, base).len() == 0 <==> l == r,
{
    let runs = differing_runs(l, r);
    if l == r {
        assert forall|p: int| 0 <= p < common_len(l, r) implies l[p] == r[p] by {}
        if runs.len() > 0 {
            lemma_runs_shape(l, r, 0);
            assert(runs[0] == runs[0]);
            assert(l[runs[0].0] != r[runs[0].0]);
        }
    } else if l.len() == r.len() {
        let p = choose|p: int| 0 <= p < l.len() && l[p] != r[p];
        if !(exists|p: int| 0 <= p < l.len() && l[p] != r[p]) {
            assert(l =~= r);
        }
        lemma_runs_cover(l, r, 0, p);
        assert(runs.len() > 0);
        assert(run_views(l, r, base, runs).len() > 0);
    }
}

/// Swapping the two images swaps the bytes of every range and changes nothing else.
pub proof fn lemma_ranges_swap_sides(l: Seq<u8>, r: Seq<u8>, base: u64)
    ensures
        differing_ranges(r, l, base).len() == differing_ranges(l, r, base).len(),
        forall|k: int|
            0 <= k < differing_ranges(l, r, base).len() ==> {
                let a = #[trigger] differing_ranges(l, r, base)[k];
                let b = differing_ranges(r, l, base)[k];
                &&& a.offset == b.offset
                &&& a.len == b.len
                &&& a.left == b.right
                &&& a.right == b.left
            },
{
    lemma_runs_symmetric(l, r, 0);
    assert(common_len(l, r) == common_len(r, l));
    let a = differing_ranges(l, r, base);
    let b = differing_ranges(r, l, base);
    let runs = differing_runs(l, r);
    assert forall|k: int| 0 <= k < a.len() implies {
        let x = #[trigger] a[k];
        let y = b[k];
        &&& x.offset == y.offset
        &&& x.len == y.len
        &&& x.left == y.right
        &&& x.right == y.left
    } by {
        if k < runs.len() {
            assert(a[k] == run_view(l, r, base, runs[k]));
            assert(b[k] == run_view(r, l, base, runs[k]));
        } else {
            assert(a[k] == tail_view(l, r, base));
            assert(b[k] == tail_view(r, l, base));
        }
    }
}

} // verus!
