//! Read latency curves: one line of average cycles per group size (or block
//! count), one point per working set size.
use vstd::prelude::*;
use std::ops::Range;

pub mod profile;
pub mod sweep;

pub use profile::{Profile, ProfileKind};
pub use sweep::{LatencySweep, Measurement, SweepOrder};

verus! {

/// The number of lines that a plot can tell apart by colour.
pub const PLOT_COLORS: usize = 7;

/// Why a curve set could not be plotted.
#[derive(Clone, Copy, Debug, PartialEq, Eq, Structural)]
pub enum PlotError {
    /// There are more lines than colours.
    NotEnoughColor,
}

/// One line: its legend value and the average cycles per working set size.
pub struct ReadLatencyLine {
    pub group_size: usize,
    pub avg_cycles: Vec<u64>,
}

/// A set of lines over a range of working set size exponents, with the
/// largest average seen so far.
pub struct ReadLatency {
    working_set_range: Range<u32>,
    latencies: Vec<ReadLatencyLine>,
    max_latency: u64,
}

/// `m` is the largest cycle count of all lines, or 0 when there is none.
pub open spec fn is_max_cycles(lines: Seq<(usize, Seq<u64>)>, m: u64) -> bool {
    &&& forall|i: int, j: int|
        0 <= i < lines.len() && 0 <= j < lines[i].1.len() ==> #[trigger] lines[i].1[j] <= m
    &&& (m == 0 || exists|i: int, j: int|
        0 <= i < lines.len() && 0 <= j < lines[i].1.len() && #[trigger] lines[i].1[j] == m)
}

/// The points of one line: working set exponent and average cycles, as far
/// as both the range and the line reach.
pub open spec fn line_points(start: u32, end: u32, cycles: Seq<u64>) -> Seq<(u32, u64)> {
    let range_len: int = if start <= end {
        end - start
    } else {
        0
    };
    let n: int = if range_len <= cycles.len() {
        range_len
    } else {
        cycles.len() as int
    };
    Seq::new(n as nat, |i: int| ((start + i) as u32, cycles[i]))
}

/// A line is drawn point by point from its first average on: point `j`
/// pairs exponent `start + j` with the `j`-th average, every drawn point is
/// a recorded average whose exponent lies in the range, and drawing stops
/// only where the averages run out or the range ends.
pub proof fn lemma_line_points_zip(start: u32, end: u32, cycles: Seq<u64>)
    ensures
        forall|j: int|
            0 <= j < line_points(start, end, cycles).len() ==> {
                &&& j < cycles.len()
                &&& start + j < end
                &&& (#[trigger] line_points(start, end, cycles)[j]).0 == start + j
                &&& line_points(start, end, cycles)[j].1 == cycles[j]
            },
        line_points(start, end, cycles).len() == cycles.len() || start + line_points(
            start,
            end,
            cycles,
        ).len() >= end,
{
}

impl ReadLatencyLine {
    pub open spec fn view_line(self) -> (usize, Seq<u64>) {
        (self.group_size, self.avg_cycles@)
    }
}

impl ReadLatency {
    /// First working set exponent.
    pub closed spec fn start(self) -> u32 {
        self.working_set_range.start
    }

    /// End (exclusive) of the working set exponents.
    pub closed spec fn end(self) -> u32 {
        self.working_set_range.end
    }

    /// The lines, each as its legend value and its cycles.
    pub closed spec fn lines(self) -> Seq<(usize, Seq<u64>)> {
        self.latencies@.map_values(|l: ReadLatencyLine| l.view_line())
    }

    /// The largest average recorded.
    pub closed spec fn max(self) -> u64 {
        self.max_latency
    }

    /// The recorded maximum is the largest of all recorded cycles.
    pub open spec fn wf(self) -> bool {
        is_max_cycles(self.lines(), self.max())
    }

    /// A set without lines over the working set exponents `working_set_range`.
    pub fn new(working_set_range: Range<u32>) -> (r: Self)
        ensures
            r.start() == working_set_range.start,
            r.end() == working_set_range.end,
            r.lines() == Seq::<(usize, Seq<u64>)>::empty(),
            r.max() == 0,
            r.wf(),
    {
        let r = ReadLatency { working_set_range, latencies: Vec::new(), max_latency: 0 };
        assert(r.lines() =~= Seq::<(usize, Seq<u64>)>::empty());
        r
    }

    /// Adds a line without points for the legend value `group_size`.
    pub fn push_line(&mut self, group_size: usize)
        requires
            old(self).wf(),
        ensures
            final(self).wf(),
            final(self).lines() == old(self).lines().push((group_size, Seq::<u64>::empty())),
            final(self).max() == old(self).max(),
            final(self).start() == old(self).start(),
            final(self).end() == old(self).end(),
    {
        let ghost before = self.lines();
        self.latencies.push(ReadLatencyLine { group_size, avg_cycles: Vec::new() });
        proof {
            assert(self.lines() =~= before.push((group_size, Seq::<u64>::empty())));
            let m = self.max_latency;
            if m != 0 {
                let (i, j) = choose|i: int, j: int|
                    0 <= i < before.len() && 0 <= j < before[i].1.len() && #[trigger] before[i].1[j]
                        == m;
                assert(self.lines()[i] == before[i]);
            }
            assert forall|i: int, j: int|
                0 <= i < self.lines().len() && 0 <= j < self.lines()[i].1.len() implies #[trigger] self.lines()[i].1[j]
                <= m by {
                assert(i < before.len());
                assert(self.lines()[i] == before[i]);
            }
        }
    }

    /// Appends `cycle` to line `line` and raises the maximum to it if it is
    /// larger.
    pub fn record(&mut self, line: usize, cycle: u64)
        requires
            old(self).wf(),
            line < old(self).lines().len(),
        ensures
            final(self).wf(),
            final(self).lines() == old(self).lines().update(
                line as int,
                (old(self).lines()[line as int].0, old(self).lines()[line as int].1.push(cycle)),
            ),
            final(self).max() == (if cycle > old(self).max() {
                cycle
            } else {
                old(self).max()
            }),
            final(self).start() == old(self).start(),
            final(self).end() == old(self).end(),
    {
        let ghost before = self.lines();
        let ghost old_max = self.max_latency;
        let mut l = self.latencies.remove(line);
        l.avg_cycles.push(cycle);
        self.latencies.insert(line, l);
        if cycle > self.max_latency {
            self.max_latency = cycle;
        }
        proof {
            let after = before.update(line as int, (before[line as int].0, before[line as int].1.push(cycle)));
            assert(self.lines() =~= after);
            let m = self.max_latency;
            assert(after[line as int].1[before[line as int].1.len() as int] == cycle);
            if m != cycle && m != 0 {
                let (i, j) = choose|i: int, j: int|
                    0 <= i < before.len() && 0 <= j < before[i].1.len() && #[trigger] before[i].1[j]
                        == old_max;
                assert(after[i].1[j] == m);
            }
            assert forall|i: int, j: int|
                0 <= i < after.len() && 0 <= j < after[i].1.len() implies #[trigger] after[i].1[j]
                <= m by {
                if i == line && j == before[i].1.len() {
                } else {
                    assert(after[i].1[j] == before[i].1[j]);
                }
            }
        }
    }

    /// The range of working set exponents.
    pub fn working_set_range(&self) -> (r: Range<u32>)
        ensures
            r.start == self.start(),
            r.end == self.end(),
    {
        self.working_set_range.start..self.working_set_range.end
    }

    /// The lines.
    pub fn latencies(&self) -> (r: &Vec<ReadLatencyLine>)
        ensures
            r@.map_values(|l: ReadLatencyLine| l.view_line()) == self.lines(),
    {
        &self.latencies
    }

    /// The largest average recorded.
    pub fn max_latency(&self) -> (r: u64)
        ensures
            r == self.max(),
    {
        self.max_latency
    }

    /// The points to draw for each line, or an error when there are more
    /// lines than colours.
    pub fn series(&self) -> (r: Result<Vec<Vec<(u32, u64)>>, PlotError>)
        ensures
            match r {
                Ok(s) => {
                    &&& self.lines().len() <= PLOT_COLORS
                    &&& s@.len() == self.lines().len()
                    &&& forall|i: int|
                        0 <= i < s@.len() ==> #[trigger] s@[i]@ == line_points(
                            self.start(),
                            self.end(),
                            self.lines()[i].1,
                        )
                },
                Err(e) => self.lines().len() > PLOT_COLORS && e == PlotError::NotEnoughColor,
            },
    {
        if self.latencies.len() > PLOT_COLORS {
            return Err(PlotError::NotEnoughColor);
        }
        let start = self.working_set_range.start;
        let end = self.working_set_range.end;
        let range_len: u32 = if start <= end {
            end - start
        } else {
            0
        };
        let mut out: Vec<Vec<(u32, u64)>> = Vec::new();
        let mut i: usize = 0;
        while i < self.latencies.len()
            invariant
                i <= self.latencies@.len(),
                start == self.start(),
                end == self.end(),
                range_len == (if start <= end {
                    end - start
                } else {
                    0int
                }),
                out@.len() == i,
                forall|k: int|
                    0 <= k < i ==> #[trigger] out@[k]@ == line_points(
                        start,
                        end,
                        self.lines()[k].1,
                    ),
            decreases self.latencies@.len() - i,
        {
            let cycles = &self.latencies[i].avg_cycles;
            let ghost want = line_points(start, end, cycles@);
            let mut points: Vec<(u32, u64)> = Vec::new();
            let mut j: usize = 0;
            while j < cycles.len() && (j as u32) < range_len
                invariant
                    j <= cycles@.len(),
                    j <= range_len,
                    range_len <= u32::MAX,
                    start == self.start(),
                    end == self.end(),
                    range_len == (if start <= end {
                        end - start
                    } else {
                        0int
                    }),
                    want == line_points(start, end, cycles@),
                    points@ == want.subrange(0, j as int),
                decreases cycles@.len() - j,
            {
                points.push((start + j as u32, cycles[j]));
                j = j + 1;
                assert(points@ =~= want.subrange(0, j as int));
            }
            assert(points@ =~= want);
            assert(self.lines()[i as int].1 == cycles@);
            out.push(points);
            i = i + 1;
        }
        Ok(out)
    }
}

/// The size in bytes of the working set with exponent `exp`: two to the
/// power `exp`.
pub fn working_set_size_of(exp: u32) -> (size: usize)
    requires
        vstd::arithmetic::power2::pow2(exp as nat) <= usize::MAX,
    ensures
        size == vstd::arithmetic::power2::pow2(exp as nat),
{
    let mut size: usize = 1;
    let mut i: u32 = 0;
    proof {
        vstd::arithmetic::power2::lemma_pow2(0);
        vstd::arithmetic::power::lemma_pow0(2);
    }
    while i < exp
        invariant
            i <= exp,
            size == vstd::arithmetic::power2::pow2(i as nat),
            vstd::arithmetic::power2::pow2(exp as nat) <= usize::MAX,
        decreases exp - i,
    {
        proof {
            vstd::arithmetic::power2::lemma_pow2_unfold((i + 1) as nat);
            if i + 1 < exp {
                vstd::arithmetic::power2::lemma_pow2_strictly_increases((i + 1) as nat, exp as nat);
            }
        }
        size = size * 2;
        i = i + 1;
    }
    size
}

} // verus!
