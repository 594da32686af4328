//! Queries on a loaded recording: channels, single traces, depth windows, and
//! the peak positions from which the amplitude and time-of-flight
//! projections are built.
use vstd::prelude::*;

use crate::dataset::{data_positions, UsData};
use crate::error::ScanError;
use crate::header::{is_data_subset, SubSet, SubSetModel};
use crate::volume::Volume;

verus! {

/// `i` is where the maximum of `s` first occurs.
pub open spec fn is_first_peak(s: Seq<i64>, i: int) -> bool {
    &&& 0 <= i < s.len()
    &&& forall|j: int| 0 <= j < s.len() ==> s[j] <= s[i]
    &&& forall|j: int| 0 <= j < i ==> s[j] < s[i]
}

/// A sequence has at most one first peak.
pub proof fn lemma_first_peak_unique(s: Seq<i64>, i: int, k: int)
    requires
        is_first_peak(s, i),
        is_first_peak(s, k),
    ensures
        i == k,
{
    if i < k {
        assert(s[i] < s[k]);
    } else if k < i {
        assert(s[k] < s[i]);
    }
}

/// Index of the first occurrence of the largest key.
pub fn first_peak(keys: &Vec<i64>) -> (r: usize)
    requires
        keys@.len() > 0,
    ensures
        is_first_peak(keys@, r as int),
{
    let mut best: usize = 0;
    let mut i: usize = 1;
    while i < keys.len()
        invariant
            keys@.len() > 0,
            best < i <= keys@.len(),
            forall|j: int| 0 <= j < i ==> keys@[j] <= keys@[best as int],
            forall|j: int| 0 <= j < best ==> keys@[j] < keys@[best as int],
        decreases keys@.len() - i,
    {
        if keys[i] > keys[best] {
            best = i;
        }
        i = i + 1;
    }
    best
}

/// For every position, the index of the first largest key of its window.
pub fn peak_indices(keys: &Vec<Vec<i64>>) -> (r: Vec<usize>)
    requires
        forall|p: int| 0 <= p < keys@.len() ==> (#[trigger] keys@[p])@.len() > 0,
    ensures
        r@.len() == keys@.len(),
        forall|p: int| 0 <= p < r@.len() ==> is_first_peak(keys@[p]@, #[trigger] r@[p] as int),
{
    let mut r: Vec<usize> = Vec::with_capacity(keys.len());
    let mut p: usize = 0;
    while p < keys.len()
        invariant
            p <= keys@.len(),
            r@.len() == p,
            forall|q: int| 0 <= q < keys@.len() ==> (#[trigger] keys@[q])@.len() > 0,
            forall|q: int| 0 <= q < p ==> is_first_peak(keys@[q]@, #[trigger] r@[q] as int),
        decreases keys@.len() - p,
    {
        let i = first_peak(&keys[p]);
        r.push(i);
        p = p + 1;
    }
    r
}

/// The time-of-flight projection: for every position, the absolute depth
/// index (offset by `start`) of the first largest key of its window, which
/// starts at depth `start`. Each result lies in `[start, start + window length)`.
pub fn tof_projection(keys: &Vec<Vec<i64>>, start: usize) -> (r: Vec<usize>)
    requires
        forall|p: int|
            0 <= p < keys@.len() ==> (#[trigger] keys@[p])@.len() > 0 && start + keys@[p]@.len()
                <= usize::MAX,
    ensures
        r@.len() == keys@.len(),
        forall|p: int|
            0 <= p < r@.len() ==> is_first_peak(keys@[p]@, #[trigger] r@[p] - start),
        forall|p: int|
            0 <= p < r@.len() ==> start <= #[trigger] r@[p] < start + keys@[p]@.len(),
{
    let peaks = peak_indices(keys);
    let mut r: Vec<usize> = Vec::with_capacity(keys.len());
    let mut p: usize = 0;
    while p < peaks.len()
        invariant
            p <= peaks@.len() == keys@.len(),
            r@.len() == p,
            forall|q: int|
                0 <= q < keys@.len() ==> (#[trigger] keys@[q])@.len() > 0 && start
                    + keys@[q]@.len() <= usize::MAX,
            forall|q: int| 0 <= q < peaks@.len() ==> is_first_peak(keys@[q]@, #[trigger] peaks@[q] as int),
            forall|q: int| 0 <= q < p ==> #[trigger] r@[q] == start + peaks@[q],
        decreases peaks@.len() - p,
    {
        assert(is_first_peak(keys@[p as int]@, peaks@[p as int] as int));
        r.push(start + peaks[p]);
        p = p + 1;
    }
    assert forall|q: int| 0 <= q < r@.len() implies is_first_peak(keys@[q]@, #[trigger] r@[q] - start) by {
        assert(is_first_peak(keys@[q]@, peaks@[q] as int));
    }
    r
}

/// The amplitude projection: for every position, the value of its window at
/// the window's first largest key.
pub fn amplitude_projection<T: Copy>(values: &Vec<Vec<T>>, keys: &Vec<Vec<i64>>) -> (r: Vec<T>)
    requires
        values@.len() == keys@.len(),
        forall|p: int|
            0 <= p < keys@.len() ==> (#[trigger] keys@[p])@.len() > 0 && values@[p]@.len()
                == keys@[p]@.len(),
    ensures
        r@.len() == keys@.len(),
        forall|p: int, i: int|
            0 <= p < r@.len() && #[trigger] is_first_peak(keys@[p]@, i) ==> r@[p]
                == values@[p]@[i],
{
    let peaks = peak_indices(keys);
    let mut r: Vec<T> = Vec::with_capacity(keys.len());
    let mut p: usize = 0;
    while p < peaks.len()
        invariant
            p <= peaks@.len() == keys@.len() == values@.len(),
            r@.len() == p,
            forall|q: int|
                0 <= q < keys@.len() ==> (#[trigger] keys@[q])@.len() > 0 && values@[q]@.len()
                    == keys@[q]@.len(),
            forall|q: int| 0 <= q < peaks@.len() ==> is_first_peak(keys@[q]@, #[trigger] peaks@[q] as int),
            forall|q: int| 0 <= q < p ==> #[trigger] r@[q] == values@[q]@[peaks@[q] as int],
        decreases peaks@.len() - p,
    {
        assert(is_first_peak(keys@[p as int]@, peaks@[p as int] as int));
        r.push(values[p][peaks[p]]);
        p = p + 1;
    }
    assert forall|q: int, i: int|
        0 <= q < r@.len() && #[trigger] is_first_peak(keys@[q]@, i) implies r@[q]
            == values@[q]@[i] by {
        lemma_first_peak_unique(keys@[q]@, i, peaks@[q] as int);
    }
    r
}

proof fn lemma_positions_prefix(subs: Seq<SubSetModel>, m: int, n: int)
    requires
        0 <= m <= n <= subs.len(),
    ensures
        data_positions(subs.subrange(0, m)).len() <= data_positions(subs.subrange(0, n)).len(),
        forall|j: int|
            0 <= j < data_positions(subs.subrange(0, m)).len() ==> #[trigger] data_positions(
                subs.subrange(0, m),
            )[j] == data_positions(subs.subrange(0, n))[j],
    decreases n - m,
{
    if m < n {
        lemma_positions_prefix(subs, m, n - 1);
        assert(subs.subrange(0, n).drop_last() =~= subs.subrange(0, n - 1));
    }
}

/// Copies `v[from..to]`.
fn copy_samples(v: &Vec<i16>, from: usize, to: usize) -> (r: Vec<i16>)
    requires
        from <= to <= v@.len(),
    ensures
        r@ == v@.subrange(from as int, to as int),
{
    let mut r: Vec<i16> = Vec::with_capacity(to - from);
    let mut i: usize = from;
    while i < to
        invariant
            from <= i <= to <= v@.len(),
            r@ == v@.subrange(from as int, i as int),
        decreases to - i,
    {
        r.push(v[i]);
        i = i + 1;
        assert(r@ =~= v@.subrange(from as int, i as int));
    }
    r
}

proof fn lemma_position_fits(rows: int, cols: int, depth: int, row: int, col: int)
    requires
        0 <= row < rows,
        0 <= col < cols,
        0 <= depth,
    ensures
        (row * cols + col + 1) * depth <= rows * cols * depth,
        0 <= (row * cols + col) * depth,
{
    assert(row * cols + col + 1 <= rows * cols) by (nonlinear_arith)
        requires
            0 <= row < rows,
            0 <= col < cols,
    ;
    assert((row * cols + col + 1) * depth <= (rows * cols) * depth) by (nonlinear_arith)
        requires
            row * cols + col + 1 <= rows * cols,
            0 <= depth,
    ;
    assert(0 <= (row * cols + col) * depth) by (nonlinear_arith)
        requires
            0 <= row,
            0 <= col,
            0 <= cols,
            0 <= depth,
    ;
}

impl UsData {
    /// The volume of a recorded channel; none where `channel` is not below the
    /// number of recorded channels.
    pub fn get_channel(&self, channel: usize) -> (r: Option<&Volume>)
        ensures
            r is Some <==> channel < self.datasets@.len(),
            r matches Some(v) ==> *v == self.datasets@[channel as int],
    {
        if channel < self.datasets.len() {
            Some(&self.datasets[channel])
        } else {
            None
        }
    }

    /// The subset of a recorded channel: the `channel`-th subset, in header
    /// order, whose name marks recorded data.
    pub fn get_channel_subset(&self, channel: usize) -> (r: Option<&SubSet>)
        requires
            self.wf(),
        ensures
            r is Some <==> channel < self.header.channels,
            r is Some <==> channel < data_positions(self.header@.sub_sets).len(),
            r matches Some(s) ==> s@ == self.header@.sub_sets[data_positions(
                self.header@.sub_sets,
            )[channel as int]],
    {
        let ghost sv = self.header@.sub_sets;
        proof {
            crate::dataset::lemma_positions_count(sv);
        }
        let subs = &self.header.sub_sets;
        let mut i: usize = 0;
        let mut k: usize = 0;
        while k < subs.len()
            invariant
                sv == self.header@.sub_sets,
                sv == subs@.map_values(|s: SubSet| s@),
                data_positions(sv).len() == self.header.channels,
                k <= subs@.len(),
                i <= channel,
                i == data_positions(sv.subrange(0, k as int)).len(),
            decreases subs@.len() - k,
        {
            assert(sv.subrange(0, k as int + 1).drop_last() =~= sv.subrange(0, k as int));
            if is_data_subset(subs[k].name.as_str()) {
                if i == channel {
                    proof {
                        let x = sv.subrange(0, k as int + 1);
                        assert(x.last() == sv[k as int]);
                        assert(subs@[k as int]@ == sv[k as int]);
                        assert(data_positions(x) =~= data_positions(sv.subrange(0, k as int)).push(k as int));
                        lemma_positions_prefix(sv, k as int + 1, sv.len() as int);
                        assert(data_positions(x)[channel as int] == k);
                        assert(data_positions(sv.subrange(0, sv.len() as int))[channel as int] == k);
                        assert(sv.subrange(0, sv.len() as int) =~= sv);
                        assert(data_positions(sv)[channel as int] == k);
                    }
                    return Some(&subs[k]);
                }
                i = i + 1;
            }
            k = k + 1;
        }
        assert(sv.subrange(0, k as int) =~= sv);
        None
    }

    /// The samples of one trace: channel `channel` at column `col`, row `row`,
    /// over the whole depth.
    pub fn a_scan(&self, channel: usize, col: usize, row: usize) -> (r: Result<Vec<i16>, ScanError>)
        requires
            self.wf(),
        ensures
            r == Err::<Vec<i16>, ScanError>(ScanError::ChannelNotRecorded) <==> channel
                >= self.datasets@.len(),
            r == Err::<Vec<i16>, ScanError>(ScanError::PositionOutOfRange) <==> channel
                < self.datasets@.len() && (col >= self.header.samples_x || row
                >= self.header.samples_y),
            r is Err ==> r == Err::<Vec<i16>, ScanError>(ScanError::ChannelNotRecorded) || r
                == Err::<Vec<i16>, ScanError>(ScanError::PositionOutOfRange),
            r matches Ok(t) ==> ({
                let v = self.datasets@[channel as int]@;
                t@ == v.samples.subrange(v.index(row as int, col as int, 0), v.index(row as int, col as int, v.depth as int))
            }),
    {
        if channel >= self.datasets.len() {
            return Err(ScanError::ChannelNotRecorded);
        }
        let v = &self.datasets[channel];
        if col >= v.cols || row >= v.rows {
            return Err(ScanError::PositionOutOfRange);
        }
        if v.depth == 0 {
            assert(v@.index(row as int, col as int, 0) == v@.index(row as int, col as int, v.depth as int));
            return Ok(Vec::new());
        }
        let total: usize = v.samples.len();
        proof {
            lemma_position_fits(v.rows as int, v.cols as int, v.depth as int, row as int, col as int);
            assert((row * v.cols + col) * v.depth + v.depth == (row * v.cols + col + 1) * v.depth) by (nonlinear_arith);
            assert(row * v.cols + col + 1 <= (row * v.cols + col + 1) * v.depth) by (nonlinear_arith)
                requires
                    v.depth >= 1,
                    row * v.cols + col >= 0,
            ;
            assert(row * v.cols <= row * v.cols + col);
            assert(row * v.cols >= 0) by (nonlinear_arith)
                requires
                    row >= 0,
                    v.cols >= 0,
            ;
        }
        let at: usize = (row * v.cols + col) * v.depth;
        Ok(copy_samples(&v.samples, at, at + v.depth))
    }

    /// The depth window `[start, end)` of every trace of a channel, in
    /// row-major order of the positions.
    pub fn windows(&self, channel: usize, start: usize, end: usize) -> (r: Result<
        Vec<Vec<i16>>,
        ScanError,
    >)
        requires
            self.wf(),
        ensures
            r == Err::<Vec<Vec<i16>>, ScanError>(ScanError::ChannelNotRecorded) <==> channel
                >= self.datasets@.len(),
            r == Err::<Vec<Vec<i16>>, ScanError>(ScanError::InvalidWindow) <==> channel
                < self.datasets@.len() && !(start < end <= self.datasets@[channel as int].depth),
            r is Err ==> r == Err::<Vec<Vec<i16>>, ScanError>(ScanError::ChannelNotRecorded) || r
                == Err::<Vec<Vec<i16>>, ScanError>(ScanError::InvalidWindow),
            r matches Ok(w) ==> ({
                let v = self.datasets@[channel as int]@;
                &&& w@.len() == v.rows * v.cols
                &&& forall|p: int|
                    0 <= p < w@.len() ==> (#[trigger] w@[p])@ == v.samples.subrange(
                        p * v.depth + start,
                        p * v.depth + end,
                    )
            }),
    {
        if channel >= self.datasets.len() {
            return Err(ScanError::ChannelNotRecorded);
        }
        let v = &self.datasets[channel];
        if !(start < end && end <= v.depth) {
            return Err(ScanError::InvalidWindow);
        }
        assert(v.rows * v.cols * v.depth == v.samples@.len());
        let ghost n: int = v.rows * v.cols;
        assert(n * v.depth == v.samples@.len()) by (nonlinear_arith)
            requires
                n == v.rows * v.cols,
                v.rows * v.cols * v.depth == v.samples@.len(),
        ;
        assert(0 <= n <= n * v.depth) by (nonlinear_arith)
            requires
                n == v.rows * v.cols,
                v.depth >= 1,
        ;
        let total: usize = v.samples.len();
        let count: usize = v.rows * v.cols;
        let mut w: Vec<Vec<i16>> = Vec::with_capacity(count);
        let mut p: usize = 0;
        while p < count
            invariant
                count == n,
                total == v.samples@.len(),
                n * v.depth == v.samples@.len(),
                start < end <= v.depth,
                p <= count,
                w@.len() == p,
                forall|q: int|
                    0 <= q < p ==> (#[trigger] w@[q])@ == v.samples@.subrange(
                        q * v.depth + start,
                        q * v.depth + end,
                    ),
            decreases count - p,
        {
            assert((p + 1) * v.depth <= n * v.depth && p * v.depth + v.depth == (p + 1) * v.depth && 0 <= p * v.depth)
                by (nonlinear_arith)
                requires
                    p < n,
                    v.depth >= 1,
            ;
            let base: usize = p * v.depth;
            w.push(copy_samples(&v.samples, base + start, base + end));
            p = p + 1;
        }
        Ok(w)
    }
}

} // verus!
