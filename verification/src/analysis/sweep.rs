//! The order of the measurements behind a set of latency curves: one
//! measurement per line (group size or block count) and working set, and
//! where each result lands.
use vstd::prelude::*;
use std::ops::Range;
use super::ReadLatency;

verus! {

/// In which order the measurements go through lines and working sets.
#[derive(Clone, Copy, Debug, PartialEq, Eq, Structural)]
pub enum SweepOrder {
    /// All working sets for the first line, then for the next line, ...
    ByLine,
    /// All lines for the first working set, then for the next one, ...
    ByWorkingSet,
}

/// The next measurement to make: which line it belongs to (and that line's
/// legend value), and which working set it runs on (its index among the
/// working sets and its size exponent).
#[derive(Clone, Copy, Debug, PartialEq, Eq, Structural)]
pub struct Measurement {
    pub line: usize,
    pub legend: usize,
    pub buffer: usize,
    pub working_set: u32,
}

/// Number of working set exponents in `start..end`.
pub open spec fn range_len(start: u32, end: u32) -> nat {
    if start <= end {
        (end - start) as nat
    } else {
        0
    }
}

/// The line and working set of measurement number `k`.
pub open spec fn sweep_step(order: SweepOrder, lines: nat, buffers: nat, k: nat) -> (nat, nat) {
    match order {
        SweepOrder::ByLine => (k / buffers, k % buffers),
        SweepOrder::ByWorkingSet => (k % lines, k / lines),
    }
}

/// How many points line `i` holds after the first `done` measurements.
pub open spec fn points_done(order: SweepOrder, lines: nat, buffers: nat, done: nat, i: nat) -> nat {
    match order {
        SweepOrder::ByLine => if buffers == 0 {
            0
        } else if i < done / buffers {
            buffers
        } else if i == done / buffers {
            done % buffers
        } else {
            0
        },
        SweepOrder::ByWorkingSet => if lines == 0 {
            0
        } else {
            done / lines + (if i < done % lines {
                1nat
            } else {
                0nat
            })
        },
    }
}

/// Measurement after measurement `done`, with `b` per round.
proof fn lemma_div_mod_next(done: int, b: int)
    requires
        b > 0,
        done >= 0,
    ensures
        done % b + 1 < b ==> (done + 1) / b == done / b && (done + 1) % b == done % b + 1,
        done % b + 1 == b ==> (done + 1) / b == done / b + 1 && (done + 1) % b == 0,
        0 <= done % b < b,
        done / b >= 0,
{
    vstd::arithmetic::div_mod::lemma_fundamental_div_mod(done, b);
    vstd::arithmetic::div_mod::lemma_mod_bound(done, b);
    vstd::arithmetic::div_mod::lemma_div_pos_is_pos(done, b);
    let q = done / b;
    let r = done % b;
    assert(done == q * b + r) by (nonlinear_arith)
        requires
            done == b * q + r,
    ;
    if r + 1 < b {
        vstd::arithmetic::div_mod::lemma_fundamental_div_mod_converse(done + 1, b, q, r + 1);
    } else {
        assert(done + 1 == (q + 1) * b + 0) by (nonlinear_arith)
            requires
                done == q * b + r,
                r + 1 == b,
        ;
        vstd::arithmetic::div_mod::lemma_fundamental_div_mod_converse(done + 1, b, q + 1, 0);
    }
}

/// Measurement `k` of `lines * buffers` lies on a line and a working set.
proof fn lemma_step_in_range(order: SweepOrder, lines: nat, buffers: nat, k: nat)
    requires
        k < lines * buffers,
    ensures
        sweep_step(order, lines, buffers, k).0 < lines,
        sweep_step(order, lines, buffers, k).1 < buffers,
{
    assert(lines > 0 && buffers > 0) by (nonlinear_arith)
        requires
            k < lines * buffers,
            k >= 0,
    ;
    vstd::arithmetic::div_mod::lemma_mod_bound(k as int, buffers as int);
    vstd::arithmetic::div_mod::lemma_mod_bound(k as int, lines as int);
    vstd::arithmetic::div_mod::lemma_div_pos_is_pos(k as int, buffers as int);
    vstd::arithmetic::div_mod::lemma_div_pos_is_pos(k as int, lines as int);
    vstd::arithmetic::div_mod::lemma_fundamental_div_mod(k as int, buffers as int);
    vstd::arithmetic::div_mod::lemma_fundamental_div_mod(k as int, lines as int);
    let qb = k as int / buffers as int;
    let rb = k as int % buffers as int;
    let ql = k as int / lines as int;
    let rl = k as int % lines as int;
    assert(qb < lines) by (nonlinear_arith)
        requires
            k == buffers * qb + rb,
            0 <= rb,
            k < lines * buffers,
            buffers > 0,
    ;
    assert(ql < buffers) by (nonlinear_arith)
        requires
            k == lines * ql + rl,
            0 <= rl,
            k < lines * buffers,
            lines > 0,
    ;
}

/// Every line and working set is measured exactly once: the first
/// `lines * buffers` measurements name pairs in range, distinct ones for
/// distinct measurements.
pub proof fn lemma_sweep_measures_each_once(order: SweepOrder, lines: nat, buffers: nat)
    ensures
        forall|k: nat|
            k < lines * buffers ==> #[trigger] sweep_step(order, lines, buffers, k).0 < lines
                && sweep_step(order, lines, buffers, k).1 < buffers,
        forall|k1: nat, k2: nat|
            k1 < lines * buffers && k2 < lines * buffers && k1 != k2 ==> #[trigger] sweep_step(
                order,
                lines,
                buffers,
                k1,
            ) != #[trigger] sweep_step(order, lines, buffers, k2),
{
    assert forall|k: nat| k < lines * buffers implies #[trigger] sweep_step(
        order,
        lines,
        buffers,
        k,
    ).0 < lines && sweep_step(order, lines, buffers, k).1 < buffers by {
        lemma_step_in_range(order, lines, buffers, k);
    }
    assert forall|k1: nat, k2: nat|
        k1 < lines * buffers && k2 < lines * buffers && k1 != k2 implies #[trigger] sweep_step(
        order,
        lines,
        buffers,
        k1,
    ) != #[trigger] sweep_step(order, lines, buffers, k2) by {
        lemma_step_in_range(order, lines, buffers, k1);
        let d: int = match order {
            SweepOrder::ByLine => buffers as int,
            SweepOrder::ByWorkingSet => lines as int,
        };
        vstd::arithmetic::div_mod::lemma_fundamental_div_mod(k1 as int, d);
        vstd::arithmetic::div_mod::lemma_fundamental_div_mod(k2 as int, d);
    }
}

/// A set of latency curves being filled one measurement at a time, in a
/// fixed order over lines and working sets.
pub struct LatencySweep {
    latency: ReadLatency,
    legends: Vec<usize>,
    buffers: usize,
    order: SweepOrder,
    done: usize,
    measured: Ghost<Map<(int, int), u64>>,
}

impl LatencySweep {
    /// The curves so far.
    pub closed spec fn curves(self) -> ReadLatency {
        self.latency
    }

    /// The legend value of each line.
    pub closed spec fn legends(self) -> Seq<usize> {
        self.legends@
    }

    /// The number of working sets.
    pub closed spec fn buffers(self) -> nat {
        self.buffers as nat
    }

    pub closed spec fn order(self) -> SweepOrder {
        self.order
    }

    /// The number of measurements recorded.
    pub closed spec fn done(self) -> nat {
        self.done as nat
    }

    /// The result recorded for each line and working set.
    pub closed spec fn measured(self) -> Map<(int, int), u64> {
        self.measured@
    }

    /// The number of measurements in the whole sweep.
    pub open spec fn total(self) -> nat {
        self.legends().len() * self.buffers()
    }

    /// The step that measurement `k` makes.
    pub open spec fn step(self, k: nat) -> (nat, nat) {
        sweep_step(self.order(), self.legends().len(), self.buffers(), k)
    }

    /// The curves hold one line per legend, line `i` labelled with legend
    /// `i`, with the points measured so far for that line in working set
    /// order, point `j` being the result recorded for line `i` on working set
    /// `j`.
    pub open spec fn curves_follow_measurements(self) -> bool {
        let lines = self.legends().len();
        &&& self.curves().lines().len() == lines
        &&& forall|i: int| 0 <= i < lines ==> #[trigger] self.curves().lines()[i].0 == self.legends()[i]
        &&& forall|i: int|
            0 <= i < lines ==> #[trigger] self.curves().lines()[i].1.len() == points_done(
                self.order(),
                lines,
                self.buffers(),
                self.done(),
                i as nat,
            )
        &&& forall|i: int, j: int|
            0 <= i < lines && 0 <= j < self.curves().lines()[i].1.len() ==> #[trigger] self.curves().lines()[i].1[j]
                == self.measured()[(i, j)]
    }

    /// The curves follow the measurements and every measurement lies inside
    /// the sweep.
    pub closed spec fn wf(self) -> bool {
        let lines = self.legends@.len();
        let buffers = self.buffers as nat;
        &&& self.latency.wf()
        &&& self.latency.lines().len() == lines
        &&& buffers == range_len(self.latency.start(), self.latency.end())
        &&& lines * buffers <= usize::MAX
        &&& self.done <= lines * buffers
        &&& forall|i: int| 0 <= i < lines ==> #[trigger] self.latency.lines()[i].0 == self.legends@[i]
        &&& forall|i: int|
            0 <= i < lines ==> #[trigger] self.latency.lines()[i].1.len() == points_done(
                self.order,
                lines,
                buffers,
                self.done as nat,
                i as nat,
            )
        &&& forall|i: int, j: int|
            0 <= i < lines && 0 <= j < self.latency.lines()[i].1.len() ==> #[trigger] self.latency.lines()[i].1[j]
                == self.measured@[(i, j)]
    }

    /// A sweep over the working set exponents `working_set_range` with one
    /// line per value of `legends`, nothing measured yet.
    pub fn new(working_set_range: Range<u32>, legends: Vec<usize>, order: SweepOrder) -> (s: Self)
        requires
            legends@.len() * range_len(working_set_range.start, working_set_range.end)
                <= usize::MAX,
        ensures
            s.wf(),
            s.curves_follow_measurements(),
            s.curves().lines().len() == s.legends().len(),
            s.legends() == legends@,
            s.buffers() == range_len(working_set_range.start, working_set_range.end),
            s.order() == order,
            s.done() == 0,
            s.curves().start() == working_set_range.start,
            s.curves().end() == working_set_range.end,
            s.curves().lines() == legends@.map_values(|g: usize| (g, Seq::<u64>::empty())),
            s.curves().max() == 0,
    {
        let start = working_set_range.start;
        let end = working_set_range.end;
        let buffers: usize = if start <= end {
            (end - start) as usize
        } else {
            0
        };
        let mut latency = ReadLatency::new(working_set_range);
        let mut i: usize = 0;
        while i < legends.len()
            invariant
                i <= legends@.len(),
                latency.wf(),
                latency.start() == start,
                latency.end() == end,
                latency.max() == 0,
                latency.lines() == legends@.subrange(0, i as int).map_values(
                    |g: usize| (g, Seq::<u64>::empty()),
                ),
            decreases legends@.len() - i,
        {
            latency.push_line(legends[i]);
            i = i + 1;
            assert(latency.lines() =~= legends@.subrange(0, i as int).map_values(
                |g: usize| (g, Seq::<u64>::empty()),
            ));
        }
        assert(legends@.subrange(0, i as int) =~= legends@);
        let s = LatencySweep {
            latency,
            legends,
            buffers,
            order,
            done: 0,
            measured: Ghost(Map::empty()),
        };
        proof {
            let lines = s.legends@.len();
            assert forall|k: int| 0 <= k < lines implies #[trigger] s.latency.lines()[k].1.len()
                == points_done(order, lines, buffers as nat, 0, k as nat) by {
                if order == SweepOrder::ByLine && buffers > 0 {
                    vstd::arithmetic::div_mod::lemma_fundamental_div_mod_converse(
                        0,
                        buffers as int,
                        0,
                        0,
                    );
                }
                if order == SweepOrder::ByWorkingSet {
                    vstd::arithmetic::div_mod::lemma_fundamental_div_mod_converse(
                        0,
                        lines as int,
                        0,
                        0,
                    );
                }
            }
        }
        s
    }

    /// The next measurement to make, or `None` when all are made.
    pub fn next_measurement(&self) -> (m: Option<Measurement>)
        requires
            self.wf(),
        ensures
            self.curves_follow_measurements(),
            self.curves().lines().len() == self.legends().len(),
            match m {
                Some(m) => {
                    &&& self.done() < self.total()
                    &&& (m.line as nat, m.buffer as nat) == self.step(self.done())
                    &&& m.legend == self.legends()[m.line as int]
                    &&& m.working_set == self.curves().start() + m.buffer
                    &&& m.line < self.legends().len()
                    &&& m.buffer < self.buffers()
                },
                None => self.done() == self.total(),
            },
    {
        let lines = self.legends.len();
        if self.done >= lines * self.buffers {
            return None;
        }
        proof {
            lemma_step_in_range(self.order, lines as nat, self.buffers as nat, self.done as nat);
        }
        let (line, buffer) = match self.order {
            SweepOrder::ByLine => (self.done / self.buffers, self.done % self.buffers),
            SweepOrder::ByWorkingSet => (self.done % lines, self.done / lines),
        };
        let ghost start = self.latency.start();
        let ghost end = self.latency.end();
        let range = self.latency.working_set_range();
        assert(buffer < range_len(start, end));
        let working_set = range.start + buffer as u32;
        Some(Measurement { line, legend: self.legends[line], buffer, working_set })
    }

    /// Records `cycle` as the result of the next measurement: it becomes the
    /// next point of that measurement's line, which is the point of that
    /// measurement's working set.
    pub fn record(&mut self, cycle: u64)
        requires
            old(self).wf(),
            old(self).done() < old(self).total(),
        ensures
            ({
                let (i, j) = old(self).step(old(self).done());
                &&& final(self).wf()
                &&& final(self).curves_follow_measurements()
                &&& final(self).curves().lines().len() == final(self).legends().len()
                &&& old(self).curves_follow_measurements()
                &&& old(self).curves().lines()[i as int].1.len() == j
                &&& final(self).curves().lines() == old(self).curves().lines().update(
                    i as int,
                    (
                        old(self).curves().lines()[i as int].0,
                        old(self).curves().lines()[i as int].1.push(cycle),
                    ),
                )
                &&& final(self).curves().max() == (if cycle > old(self).curves().max() {
                    cycle
                } else {
                    old(self).curves().max()
                })
                &&& final(self).curves().start() == old(self).curves().start()
                &&& final(self).curves().end() == old(self).curves().end()
                &&& final(self).measured() == old(self).measured().insert((i as int, j as int), cycle)
                &&& final(self).done() == old(self).done() + 1
                &&& final(self).legends() == old(self).legends()
                &&& final(self).buffers() == old(self).buffers()
                &&& final(self).order() == old(self).order()
            }),
    {
        let ghost lines = self.legends@.len();
        let ghost buffers = self.buffers as nat;
        let ghost done = self.done as nat;
        let ghost order = self.order;
        let ghost (gi, gj) = sweep_step(order, lines, buffers, done);
        let ghost before = self.latency.lines();
        proof {
            lemma_step_in_range(order, lines, buffers, done);
            assert(lines > 0 && buffers > 0) by (nonlinear_arith)
                requires
                    done < lines * buffers,
            ;
            match order {
                SweepOrder::ByLine => lemma_div_mod_next(done as int, buffers as int),
                SweepOrder::ByWorkingSet => lemma_div_mod_next(done as int, lines as int),
            }
            assert(before[gi as int].1.len() == points_done(order, lines, buffers, done, gi));
        }
        let line = match self.order {
            SweepOrder::ByLine => self.done / self.buffers,
            SweepOrder::ByWorkingSet => self.done % self.legends.len(),
        };
        self.latency.record(line, cycle);
        self.done = self.done + 1;
        proof {
            self.measured@ = self.measured@.insert((gi as int, gj as int), cycle);
            let after = self.latency.lines();
            assert forall|i: int| 0 <= i < lines implies #[trigger] after[i].1.len()
                == points_done(order, lines, buffers, (done + 1) as nat, i as nat) by {
                assert(before[i].1.len() == points_done(order, lines, buffers, done, i as nat));
            }
            assert forall|i: int| 0 <= i < lines implies #[trigger] after[i].0
                == self.legends@[i] by {
                assert(before[i].0 == self.legends@[i]);
            }
            assert forall|i: int, j: int|
                0 <= i < lines && 0 <= j < after[i].1.len() implies #[trigger] after[i].1[j]
                == self.measured@[(i, j)] by {
                if i == gi && j == gj {
                } else {
                    assert(before[i].1[j] == old(self).measured@[(i, j)]);
                }
            }
        }
    }

    /// The finished curves: every line holds one point per working set, and
    /// point `j` of line `i` is the result recorded for line `i` on working
    /// set `j`.
    pub fn finish(self) -> (r: ReadLatency)
        requires
            self.wf(),
            self.done() == self.total(),
        ensures
            r == self.curves(),
            r.wf(),
            r.lines().len() == self.legends().len(),
            forall|i: int|
                0 <= i < self.legends().len() ==> #[trigger] r.lines()[i].0 == self.legends()[i]
                    && r.lines()[i].1.len() == self.buffers(),
            forall|i: int, j: int|
                0 <= i < self.legends().len() && 0 <= j < self.buffers() ==> #[trigger] r.lines()[i].1[j]
                    == self.measured()[(i, j)],
    {
        proof {
            let lines = self.legends@.len();
            let buffers = self.buffers as nat;
            assert forall|i: int| 0 <= i < lines implies #[trigger] points_done(
                self.order,
                lines,
                buffers,
                self.done as nat,
                i as nat,
            ) == buffers by {
                if self.order == SweepOrder::ByLine && buffers > 0 {
                    vstd::arithmetic::div_mod::lemma_fundamental_div_mod_converse(
                        self.done as int,
                        buffers as int,
                        lines as int,
                        0,
                    );
                }
                if self.order == SweepOrder::ByWorkingSet && lines > 0 {
                    assert(self.done == buffers * lines) by (nonlinear_arith)
                        requires
                            self.done == lines * buffers,
                    ;
                    vstd::arithmetic::div_mod::lemma_fundamental_div_mod_converse(
                        self.done as int,
                        lines as int,
                        buffers as int,
                        0,
                    );
                }
                if buffers == 0 {
                    assert(self.done == 0) by (nonlinear_arith)
                        requires
                            self.done == lines * buffers,
                            buffers == 0,
                    ;
                }
            }
            assert forall|i: int| 0 <= i < lines implies #[trigger] self.latency.lines()[i].1.len()
                == buffers by {
                assert(self.latency.lines()[i].1.len() == points_done(
                    self.order,
                    lines,
                    buffers,
                    self.done as nat,
                    i as nat,
                ));
            }
        }
        self.latency
    }
}

} // verus!
