# cache_latency

Measures memory read latency by pointer chasing: a working set is split into
groups of elements, the first element of each group links to the next group,
and following the chain from the first element touches every group once.
Hardware counters around many rounds of the walk give the average cycles per
group, for a range of working set sizes and group sizes, which shows the
latency of each cache level. It can also describe the CPU caches.

Layout:

- `src/` — the verified library (Verus):
  - `latency.rs`: working sets, their linking in sequential or shuffled
    order, the chain walk, and benchmark results;
  - `cache.rs`: cache descriptions read from the texts of their files;
  - `text.rs`: trimming and decimal parsing;
  - `analysis/`: latency curves (with their running maximum and plot points),
    the order of the measurements behind them and where each result lands,
    and measurement profiles.
- `app/` — the program around it: sysfs reading, hardware counters, CPU
  affinity, plotting, profile loading.
- `tests/` — tests of the library.
