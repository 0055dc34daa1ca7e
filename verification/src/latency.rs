//! Working sets for pointer-chasing read latency measurements.
//!
//! A working set is a run of cache lines. It is split into groups of
//! `group_size` consecutive elements, and the first element of every group
//! holds a link to the first element of the next group to visit. Following the
//! links from the very first element visits every group exactly once.
use vstd::prelude::*;

verus! {

/// Size of a cache line in bytes.
pub const CACHE_LINE_SIZE: usize = 64;

/// Number of elements (machine words) in one cache line. The layout is
/// written for 64-bit targets, where a word is 8 bytes.
pub const ELEMENTS_PER_CACHE_LINE: usize = 8;

/// Size of one element in bytes: a machine word of a 64-bit target.
pub const ELEMENT_SIZE: usize = 8;

/// Why a working set could not be prepared.
#[derive(Clone, Copy, Debug, PartialEq, Eq, Structural)]
pub enum LatencyError {
    /// The working set size is not a multiple of the cache line size.
    NotCacheLineMultiple,
    /// The working set is empty.
    EmptyWorkingSet,
    /// The group size is zero.
    ZeroGroupSize,
    /// The working set size is not a multiple of the group size.
    NotGroupMultiple,
    /// The working set holds less than one group.
    SmallerThanGroup { group_size: usize },
    /// The working set size is not a multiple of the block count.
    NotBlockMultiple,
    /// The block size is not a multiple of the cache line size.
    BlockNotCacheLineMultiple,
    /// The block size is not a multiple of the group size.
    BlockNotGroupMultiple,
    /// The number of groups is not a multiple of the block count.
    GroupLenNotBlockMultiple { group_len: usize, block_count: usize },
}

/// Hardware counts over all rounds of one measurement. Only a few hardware
/// counters can count at once, so a measurement asks for at most these.
#[derive(Clone, Copy, Debug, PartialEq, Eq, Structural)]
pub struct BenchStats {
    pub cycles: u64,
    pub l1d_access: u64,
    pub l1d_miss: u64,
}

/// The outcome of measuring one working set.
#[derive(Clone, Copy, Debug, PartialEq, Eq, Structural)]
pub struct BenchResult {
    /// Number of times the whole chain was followed.
    pub round: usize,
    /// Size of the working set in bytes.
    pub working_set_size: usize,
    /// Number of elements in one group.
    pub group_size: usize,
    /// Number of groups in the working set.
    pub group_len: usize,
    pub stats: BenchStats,
}

impl BenchResult {
    /// Average cycles per group visit: the cycles over the number of groups
    /// over the number of rounds, rounded down at each step.
    pub fn avg_cycles(&self) -> (avg: u64)
        requires
            self.group_len > 0,
            self.round > 0,
        ensures
            avg == self.stats.cycles / (self.group_len as u64) / (self.round as u64),
    {
        self.stats.cycles / self.group_len as u64 / self.round as u64
    }
}

/// One machine word of the working set: the element index of the next group
/// to visit, or 0 where the chain ends (element 0 is never a link target).
#[derive(Copy, Clone)]
pub struct Element(usize);

/// One cache line worth of elements.
#[derive(Copy, Clone)]
pub struct CacheLine {
    data: [Element; 8],
}

/// The order in which the groups of a working set are linked.
#[derive(Copy, Clone, Debug, PartialEq, Eq, Structural)]
pub enum Pattern {
    /// Groups in ascending order.
    Sequential,
    /// Group 0 first, the others in a random order.
    Random,
    /// Random order inside each of the given number of blocks.
    RandomBlock(usize),
}

impl CacheLine {
    /// The link stored in slot `i` of this line.
    pub closed spec fn slot(self, i: int) -> usize {
        self.data@[i].0
    }

    /// Every slot of the line holds no link.
    pub open spec fn is_empty(self) -> bool {
        forall|i: int| 0 <= i < ELEMENTS_PER_CACHE_LINE ==> #[trigger] self.slot(i) == 0
    }

    /// A cache line whose elements all hold no link.
    pub fn empty() -> (line: Self)
        ensures
            line.is_empty(),
    {
        CacheLine {
            data: [
                Element(0),
                Element(0),
                Element(0),
                Element(0),
                Element(0),
                Element(0),
                Element(0),
                Element(0),
            ],
        }
    }

    fn get(&self, i: usize) -> (v: usize)
        requires
            i < ELEMENTS_PER_CACHE_LINE,
        ensures
            v == self.slot(i as int),
    {
        self.data[i].0
    }

    fn set(&mut self, i: usize, v: usize)
        requires
            i < ELEMENTS_PER_CACHE_LINE,
        ensures
            final(self).slot(i as int) == v,
            forall|j: int|
                0 <= j < ELEMENTS_PER_CACHE_LINE && j != i ==> #[trigger] final(self).slot(j)
                    == old(self).slot(j),
    {
        self.data[i] = Element(v);
    }
}

/// The link stored at element index `e` of a working set.
pub open spec fn slot_at(lines: Seq<CacheLine>, e: int) -> usize {
    lines[e / ELEMENTS_PER_CACHE_LINE as int].slot(e % ELEMENTS_PER_CACHE_LINE as int)
}

/// `order` lists the groups `0..n`, each exactly once, starting with group 0.
pub open spec fn is_group_order(order: Seq<usize>, n: nat) -> bool {
    &&& order.len() == n
    &&& n > 0
    &&& order[0] == 0
    &&& forall|i: int| 0 <= i < n ==> #[trigger] order[i] < n
    &&& order.no_duplicates()
}

/// The identity order `0, 1, ..., n - 1`.
pub open spec fn ascending(n: nat) -> Seq<usize> {
    Seq::new(n, |i: int| i as usize)
}

/// The links of `lines` chain the groups of `group_size` elements in `order`:
/// the first element of each group points to the first element of the next
/// group in the order, the last group's first element holds no link, and no
/// other element holds a link.
pub open spec fn links_follow(lines: Seq<CacheLine>, group_size: nat, order: Seq<usize>) -> bool {
    &&& forall|k: int|
        0 <= k < order.len() - 1 ==> #[trigger] slot_at(lines, order[k] * group_size) == order[k
            + 1] * group_size
    &&& slot_at(lines, order.last() * group_size) == 0
    &&& forall|e: int|
        0 <= e < lines.len() * ELEMENTS_PER_CACHE_LINE && e % (group_size as int) != 0
            ==> #[trigger] slot_at(lines, e) == 0
}

/// The error that preparing a working set of `ws` bytes with groups of `gs`
/// elements gives before any data is touched, if any; the checks run in this
/// order.
pub open spec fn setup_error(ws: nat, gs: nat, pattern: Pattern) -> Option<LatencyError> {
    if ws == 0 {
        Some(LatencyError::EmptyWorkingSet)
    } else if gs == 0 {
        Some(LatencyError::ZeroGroupSize)
    } else if ws % gs != 0 {
        Some(LatencyError::NotGroupMultiple)
    } else if ws < gs * ELEMENT_SIZE {
        Some(LatencyError::SmallerThanGroup { group_size: gs as usize })
    } else {
        match pattern {
            Pattern::RandomBlock(block_count) => block_error(ws, gs, block_count as nat),
            _ => None,
        }
    }
}

/// The checks that only the block pattern makes, in their order.
pub open spec fn block_error(ws: nat, gs: nat, block_count: nat) -> Option<LatencyError> {
    let block_size = ws / block_count;
    let group_len = ws / gs / ELEMENT_SIZE as nat;
    if ws % block_count != 0 {
        Some(LatencyError::NotBlockMultiple)
    } else if block_size % CACHE_LINE_SIZE as nat != 0 {
        Some(LatencyError::BlockNotCacheLineMultiple)
    } else if block_size % gs != 0 {
        Some(LatencyError::BlockNotGroupMultiple)
    } else if group_len % block_count != 0 {
        Some(LatencyError::GroupLenNotBlockMultiple {
            group_len: group_len as usize,
            block_count: block_count as usize,
        })
    } else {
        None
    }
}

/// The inputs on which preparing a working set finishes: once the common
/// checks pass, the groups must tile the working set exactly, and the block
/// pattern (which has no linking yet) must be stopped by one of its checks,
/// with a nonzero block count.
pub open spec fn setup_finishes(ws: nat, gs: nat, pattern: Pattern) -> bool {
    (ws > 0 && gs > 0 && ws % gs == 0 && ws >= gs * ELEMENT_SIZE) ==> match pattern {
        Pattern::RandomBlock(block_count) => block_count > 0 && block_error(
            ws,
            gs,
            block_count as nat,
        ) is Some,
        _ => (ws / gs) % ELEMENT_SIZE as nat == 0,
    }
}

/// Allocates a working set of `working_set_size` bytes whose cache lines hold
/// no links.
pub fn alloc_working_set(working_set_size: usize) -> (r: Result<Vec<CacheLine>, LatencyError>)
    ensures
        match r {
            Ok(v) => {
                &&& working_set_size % CACHE_LINE_SIZE == 0
                &&& v@.len() == working_set_size / CACHE_LINE_SIZE
                &&& forall|i: int| 0 <= i < v@.len() ==> (#[trigger] v@[i]).is_empty()
            },
            Err(e) => working_set_size % CACHE_LINE_SIZE != 0 && e
                == LatencyError::NotCacheLineMultiple,
        },
{
    if working_set_size % CACHE_LINE_SIZE != 0 {
        return Err(LatencyError::NotCacheLineMultiple);
    }
    let cache_line_len = working_set_size / CACHE_LINE_SIZE;
    let mut data: Vec<CacheLine> = Vec::with_capacity(cache_line_len);
    let mut i: usize = 0;
    while i < cache_line_len
        invariant
            i <= cache_line_len,
            data@.len() == i,
            forall|j: int| 0 <= j < i ==> (#[trigger] data@[j]).is_empty(),
        decreases cache_line_len - i,
    {
        data.push(CacheLine::empty());
        i = i + 1;
    }
    Ok(data)
}

/// Shuffles the elements of `v` from index `start` on with
/// `fastrand::shuffle`. Claimed: the length and the elements before `start`
/// stay, and the shuffled part holds the same elements as before (it is a
/// permutation). Which permutation comes out depends on the random generator
/// and is left unsaid.
#[verifier::external_body]
fn shuffle_from(v: &mut Vec<usize>, start: usize)
    requires
        start <= old(v)@.len(),
    ensures
        final(v)@.len() == old(v)@.len(),
        final(v)@.subrange(0, start as int) == old(v)@.subrange(0, start as int),
        final(v)@.subrange(start as int, final(v)@.len() as int).to_multiset() == old(
            v,
        )@.subrange(start as int, old(v)@.len() as int).to_multiset(),
{
    fastrand::shuffle(&mut v[start..]);
}

/// `order` is a group order of `n` groups and the links of `lines` chain the
/// groups of `group_size` elements in that order.
pub open spec fn chains(lines: Seq<CacheLine>, group_size: nat, n: nat, order: Seq<usize>) -> bool {
    is_group_order(order, n) && links_follow(lines, group_size, order)
}

/// A prepared working set: `group_len` groups of `group_size` elements, linked
/// into one chain over `data`.
pub struct WorkingSetData<'a> {
    /// The cache lines of the working set.
    pub data: &'a mut [CacheLine],
    /// Number of elements in one group.
    pub group_size: usize,
    /// Number of groups in the working set.
    pub group_len: usize,
    /// Size of the working set in bytes.
    pub working_set_size: usize,
    /// Order in which the groups were linked.
    pub pattern: Pattern,
}

proof fn lemma_tiling(ws: int, gs: int)
    requires
        gs > 0,
        ws >= 0,
        ws % gs == 0,
        (ws / gs) % 8 == 0,
    ensures
        ws == gs * ((ws / gs) / 8) * 8,
{
    vstd::arithmetic::div_mod::lemma_fundamental_div_mod(ws, gs);
    vstd::arithmetic::div_mod::lemma_fundamental_div_mod(ws / gs, 8);
    let q = ws / gs;
    assert(gs * q == gs * (q / 8) * 8) by (nonlinear_arith)
        requires
            q == 8 * (q / 8),
    ;
}

/// Facts about the first element of group `g` when there are `n` groups of
/// `gs` elements.
proof fn lemma_group_start(g: int, n: int, gs: int)
    requires
        0 <= g < n,
        gs > 0,
    ensures
        0 <= g * gs,
        g * gs + gs <= n * gs,
        (g * gs) % gs == 0,
        g > 0 ==> g * gs >= gs,
        (g * gs) / gs == g,
{
    assert(0 <= g * gs) by (nonlinear_arith)
        requires
            0 <= g,
            gs > 0,
    ;
    assert(g * gs + gs <= n * gs) by (nonlinear_arith)
        requires
            g < n,
            gs > 0,
    ;
    assert(g > 0 ==> g * gs >= gs) by (nonlinear_arith)
        requires
            gs > 0,
    ;
    vstd::arithmetic::div_mod::lemma_mod_multiples_basic(g, gs);
    assert(g * gs == gs * g) by (nonlinear_arith);
    vstd::arithmetic::div_mod::lemma_div_multiples_vanish(g, gs);
}

/// Distinct groups start at distinct elements.
proof fn lemma_group_start_injective(a: int, b: int, gs: int)
    requires
        gs > 0,
        a * gs == b * gs,
    ensures
        a == b,
{
    assert(a == b) by (nonlinear_arith)
        requires
            gs > 0,
            a * gs == b * gs,
    ;
}

/// Group order and links pin each other down: two orders that the same links
/// chain are equal.
pub proof fn lemma_chain_order_unique(
    lines: Seq<CacheLine>,
    group_size: nat,
    n: nat,
    o1: Seq<usize>,
    o2: Seq<usize>,
)
    requires
        group_size > 0,
        chains(lines, group_size, n, o1),
        chains(lines, group_size, n, o2),
    ensures
        o1 == o2,
{
    assert forall|k: int| 0 <= k < n implies o1[k] == o2[k] by {
        lemma_chain_order_prefix(lines, group_size, n, o1, o2, k);
    }
    assert(o1 =~= o2);
}

proof fn lemma_chain_order_prefix(
    lines: Seq<CacheLine>,
    group_size: nat,
    n: nat,
    o1: Seq<usize>,
    o2: Seq<usize>,
    k: int,
)
    requires
        group_size > 0,
        chains(lines, group_size, n, o1),
        chains(lines, group_size, n, o2),
        0 <= k < n,
    ensures
        o1[k] == o2[k],
    decreases k,
{
    if k > 0 {
        lemma_chain_order_prefix(lines, group_size, n, o1, o2, k - 1);
        assert(slot_at(lines, o1[k - 1] * group_size) == o1[k] * group_size);
        assert(slot_at(lines, o2[k - 1] * group_size) == o2[k] * group_size);
        lemma_group_start_injective(o1[k] as int, o2[k] as int, group_size as int);
    }
}

/// A shuffle of `1..n` behind group 0 is a group order.
proof fn lemma_shuffled_is_group_order(after: Seq<usize>, n: nat)
    requires
        0 < n <= usize::MAX,
        after.len() == n,
        after[0] == 0,
        after.subrange(1, n as int).to_multiset() == ascending(n).subrange(1, n as int).to_multiset(),
    ensures
        is_group_order(after, n),
{
    broadcast use vstd::seq_lib::group_to_multiset_ensures;

    let t = ascending(n).subrange(1, n as int);
    let s = after.subrange(1, n as int);
    assert forall|i: int| 0 <= i < t.len() implies #[trigger] t[i] == i + 1 by {}
    assert(t.no_duplicates());
    t.lemma_multiset_has_no_duplicates();
    s.lemma_multiset_has_no_duplicates_conv();
    assert forall|i: int| 1 <= i < n implies 1 <= #[trigger] after[i] < n by {
        assert(s[i - 1] == after[i]);
        assert(s.contains(after[i]));
        assert(s.to_multiset().count(after[i]) > 0);
        assert(t.contains(after[i]));
        let j = choose|j: int| 0 <= j < t.len() && t[j] == after[i];
        assert(t[j] == j + 1);
    }
    assert forall|i: int, j: int| 0 <= i < n && 0 <= j < n && i != j implies after[i]
        != after[j] by {
        if i > 0 && j > 0 {
            assert(s[i - 1] == after[i]);
            assert(s[j - 1] == after[j]);
        }
    }
}

/// The element reached from element `e` by following `steps` links.
pub open spec fn follow(lines: Seq<CacheLine>, e: int, steps: nat) -> int
    decreases steps,
{
    if steps == 0 {
        e
    } else {
        slot_at(lines, follow(lines, e, (steps - 1) as nat)) as int
    }
}

/// Group `g` appears in `order`.
pub open spec fn names_group(order: Seq<usize>, g: int) -> bool {
    exists|k: int| 0 <= k < order.len() && order[k] == g
}

/// A group order of `n` groups names every group `0..n`.
pub proof fn lemma_group_order_covers(order: Seq<usize>, n: nat)
    requires
        is_group_order(order, n),
    ensures
        forall|g: int| 0 <= g < n ==> #[trigger] names_group(order, g),
{
    let ints = order.map_values(|x: usize| x as int);
    order.lemma_no_duplicates_injective(|x: usize| x as int);
    ints.unique_seq_to_set();
    let s = ints.to_set();
    let r = vstd::set_lib::set_int_range(0, n as int);
    vstd::set_lib::lemma_int_range(0, n as int);
    assert(s.subset_of(r)) by {
        assert forall|x: int| s.contains(x) implies r.contains(x) by {
            let k = choose|k: int| 0 <= k < ints.len() && ints[k] == x;
            assert(ints[k] == order[k] as int);
        }
    }
    vstd::set_lib::lemma_len_subset(s, r);
    vstd::set_lib::lemma_subset_equality(s, r);
    assert forall|g: int| 0 <= g < n implies #[trigger] names_group(order, g) by {
        assert(r.contains(g));
        assert(s.contains(g));
        let k = choose|k: int| 0 <= k < ints.len() && ints[k] == g;
        assert(order[k] == g);
    }
}

/// Following the links of a working set that chains its groups in `order`,
/// starting from the first element, reaches the first element of the groups
/// in that order, so every group exactly once, and ends after the last one.
pub proof fn lemma_chain_visits_every_group(
    lines: Seq<CacheLine>,
    group_size: nat,
    n: nat,
    order: Seq<usize>,
)
    requires
        group_size > 0,
        chains(lines, group_size, n, order),
    ensures
        forall|k: int| 0 <= k < n ==> #[trigger] follow(lines, 0, k as nat) == order[k] * group_size,
        slot_at(lines, follow(lines, 0, (n - 1) as nat)) == 0,
        forall|g: int| 0 <= g < n ==> #[trigger] names_group(order, g),
{
    assert forall|k: int| 0 <= k < n implies #[trigger] follow(lines, 0, k as nat) == order[k]
        * group_size by {
        lemma_follow_prefix(lines, group_size, n, order, k);
    }
    lemma_follow_prefix(lines, group_size, n, order, n - 1);
    assert(order.last() == order[n - 1]);
    lemma_group_order_covers(order, n);
}

/// In a working set chained in ascending order, following `k` links from
/// the first element reaches the first element of group `k`.
pub proof fn lemma_sequential_chain(lines: Seq<CacheLine>, group_size: nat, n: nat)
    requires
        group_size > 0,
        n <= usize::MAX,
        chains(lines, group_size, n, ascending(n)),
    ensures
        forall|k: int| 0 <= k < n ==> #[trigger] follow(lines, 0, k as nat) == k * group_size,
{
    lemma_chain_visits_every_group(lines, group_size, n, ascending(n));
    assert forall|k: int| 0 <= k < n implies #[trigger] follow(lines, 0, k as nat) == k
        * group_size by {
        assert(ascending(n)[k] == k);
        assert(follow(lines, 0, k as nat) == ascending(n)[k] * group_size);
    }
}

proof fn lemma_follow_prefix(
    lines: Seq<CacheLine>,
    group_size: nat,
    n: nat,
    order: Seq<usize>,
    k: int,
)
    requires
        group_size > 0,
        chains(lines, group_size, n, order),
        0 <= k < n,
    ensures
        follow(lines, 0, k as nat) == order[k] * group_size,
    decreases k,
{
    if k > 0 {
        lemma_follow_prefix(lines, group_size, n, order, k - 1);
        assert(slot_at(lines, order[k - 1] * group_size) == order[k] * group_size);
    } else {
        assert(0 * group_size == 0) by (nonlinear_arith);
    }
}

/// Clears `data` and links its groups of `group_size` elements in `order`:
/// the first element of each group gets the first element of the next group
/// in the order, every other element gets no link.
fn link_groups(data: &mut [CacheLine], group_size: usize, order: &[usize])
    requires
        group_size > 0,
        order@.len() * group_size == old(data)@.len() * ELEMENTS_PER_CACHE_LINE,
        old(data)@.len() * CACHE_LINE_SIZE <= usize::MAX,
        is_group_order(order@, order@.len()),
    ensures
        final(data)@.len() == old(data)@.len(),
        links_follow(final(data)@, group_size as nat, order@),
{
    let ghost gs = group_size as int;
    let ghost n = order@.len() as int;
    let ghost ord = order@;
    let group_len = order.len();
    // start from a working set without links
    let len = data.len();
    let mut i: usize = 0;
    while i < len
        invariant
            i <= len,
            len == data@.len(),
            len * 64 <= usize::MAX,
            forall|j: int| 0 <= j < i ==> (#[trigger] data@[j]).is_empty(),
        decreases len - i,
    {
        data[i] = CacheLine::empty();
        i = i + 1;
    }

    proof {
        assert forall|e: int| 0 <= e < data@.len() * 8 implies #[trigger] slot_at(data@, e)
            == 0 by {
            assert(data@[e / 8].is_empty());
        }
        assert forall|j: int| 0 <= j < n implies #[trigger] slot_at(data@, ord[j] * gs)
            == 0 by {
            lemma_group_start(ord[j] as int, n, gs);
        }
    }
    // link the groups in that order
    let mut current: usize = 0;
    let mut k: usize = 1;
    while k < group_len
        invariant
            1 <= k <= group_len,
            group_len == n,
            group_size == gs,
            gs > 0,
            n * gs == data@.len() * 8,
            data@.len() == len,
            len * 64 <= usize::MAX,
            order@ == ord,
            is_group_order(ord, n as nat),
            current == ord[k - 1],
            forall|j: int|
                0 <= j < k - 1 ==> #[trigger] slot_at(data@, ord[j] * gs) == ord[j + 1]
                    * gs,
            forall|j: int| k - 1 <= j < n ==> #[trigger] slot_at(data@, ord[j] * gs) == 0,
            forall|e: int|
                0 <= e < data@.len() * 8 && e % gs != 0 ==> #[trigger] slot_at(data@, e) == 0,
        decreases group_len - k,
    {
        let next = order[k];
        proof {
            lemma_group_start(current as int, n, gs);
            lemma_group_start(next as int, n, gs);
        }
        let from = current * group_size;
        let to = next * group_size;
        let ghost before = data@;
        let mut line = data[from / ELEMENTS_PER_CACHE_LINE];
        line.set(from % ELEMENTS_PER_CACHE_LINE, to);
        data[from / ELEMENTS_PER_CACHE_LINE] = line;
        proof {
            // only the slot at `from` changed
            assert forall|e: int|
                0 <= e < data@.len() * 8 && e != from implies slot_at(data@, e) == slot_at(
                before,
                e,
            ) by {
                if e / 8 == from / 8 {
                    assert(e % 8 != from % 8);
                }
            }
            assert(slot_at(data@, from as int) == to);
            assert forall|j: int| 0 <= j < k implies #[trigger] slot_at(
                data@,
                ord[j] * gs,
            ) == ord[j + 1] * gs by {
                lemma_group_start(ord[j] as int, n, gs);
                if j < k - 1 {
                    if ord[j] * gs == from {
                        lemma_group_start_injective(ord[j] as int, current as int, gs);
                    }
                    assert(slot_at(before, ord[j] * gs) == ord[j + 1] * gs);
                }
            }
            assert forall|j: int| k <= j < n implies #[trigger] slot_at(data@, ord[j] * gs)
                == 0 by {
                lemma_group_start(ord[j] as int, n, gs);
                if ord[j] * gs == from {
                    lemma_group_start_injective(ord[j] as int, current as int, gs);
                }
                assert(slot_at(before, ord[j] * gs) == 0);
            }
            assert forall|e: int|
                0 <= e < data@.len() * 8 && e % gs != 0 implies #[trigger] slot_at(data@, e)
                == 0 by {
                assert(slot_at(before, e) == 0);
            }
        }
        current = next;
        k = k + 1;
    }

    proof {
        assert(ord.last() == ord[n - 1]);
    }
}

impl<'a> WorkingSetData<'a> {
    /// The cache lines of the working set.
    pub open spec fn lines(self) -> Seq<CacheLine> {
        self.data@
    }

    /// The sizes agree and the links chain all groups.
    pub open spec fn wf(self) -> bool {
        &&& self.group_size > 0
        &&& self.group_len > 0
        &&& self.working_set_size == self.lines().len() * CACHE_LINE_SIZE
        &&& self.lines().len() * ELEMENTS_PER_CACHE_LINE == self.group_len * self.group_size
        &&& exists|o: Seq<usize>|
            #[trigger] chains(self.lines(), self.group_size as nat, self.group_len as nat, o)
    }

    /// The order in which following the links visits the groups.
    pub open spec fn visit_order(self) -> Seq<usize> {
        choose|o: Seq<usize>|
            #[trigger] chains(self.lines(), self.group_size as nat, self.group_len as nat, o)
    }

    proof fn lemma_visit_order(self)
        requires
            self.wf(),
        ensures
            chains(self.lines(), self.group_size as nat, self.group_len as nat, self.visit_order()),
    {
    }

    /// Prepares `data` as a working set of groups of `group_size` elements,
    /// linked in the order that `pattern` gives; the first group visited is
    /// always group 0 at the start of `data`.
    pub fn new(data: &'a mut [CacheLine], group_size: usize, pattern: Pattern) -> (r: Result<
        Self,
        LatencyError,
    >)
        requires
            old(data)@.len() * CACHE_LINE_SIZE <= usize::MAX,
            setup_finishes(old(data)@.len() * CACHE_LINE_SIZE as nat, group_size as nat, pattern),
        ensures
            ({
                let ws = old(data)@.len() * CACHE_LINE_SIZE as nat;
                match r {
                    Ok(w) => {
                        &&& setup_error(ws, group_size as nat, pattern) is None
                        &&& w.group_size == group_size
                        &&& w.group_len == ws / (group_size as nat) / ELEMENT_SIZE as nat
                        &&& w.working_set_size == ws
                        &&& w.pattern == pattern
                        &&& w.lines().len() == old(data)@.len()
                        &&& w.wf()
                        &&& pattern == Pattern::Sequential ==> w.visit_order() == ascending(
                            w.group_len as nat,
                        )
                    },
                    Err(e) => {
                        &&& setup_error(ws, group_size as nat, pattern) == Some(e)
                        &&& final(data)@ == old(data)@
                    },
                }
            }),
    {
        let working_set_size = data.len() * CACHE_LINE_SIZE;
        let element_size = ELEMENT_SIZE;
        if working_set_size == 0 {
            return Err(LatencyError::EmptyWorkingSet);
        }
        if group_size == 0 {
            return Err(LatencyError::ZeroGroupSize);
        }
        if working_set_size % group_size != 0 {
            return Err(LatencyError::NotGroupMultiple);
        }
        // `working_set_size < group_size * element_size`, without the product
        if working_set_size / element_size < group_size {
            return Err(LatencyError::SmallerThanGroup { group_size });
        }
        let group_len = working_set_size / group_size / element_size;
        if let Pattern::RandomBlock(block_count) = pattern {
            let block_size = working_set_size / block_count;
            if working_set_size % block_count != 0 {
                return Err(LatencyError::NotBlockMultiple);
            }
            if block_size % CACHE_LINE_SIZE != 0 {
                return Err(LatencyError::BlockNotCacheLineMultiple);
            }
            if block_size % group_size != 0 {
                return Err(LatencyError::BlockNotGroupMultiple);
            }
            // the block pattern has no linking: its inputs stop at a check
            return Err(LatencyError::GroupLenNotBlockMultiple { group_len, block_count });
        }
        let ghost ws = working_set_size as int;
        let ghost gs = group_size as int;
        let ghost n = group_len as int;
        proof {
            lemma_tiling(ws, gs);
            assert(n * gs == data@.len() * 8) by (nonlinear_arith)
                requires
                    ws == gs * n * 8,
                    ws == data@.len() * 64,
            ;
            assert(n > 0) by (nonlinear_arith)
                requires
                    ws == gs * n * 8,
                    ws > 0,
                    n >= 0,
                    gs > 0,
            ;
        }

        // the order in which the groups are visited, starting with group 0
        let mut group_idx: Vec<usize> = Vec::with_capacity(group_len);
        let mut g: usize = 0;
        while g < group_len
            invariant
                g <= group_len,
                group_idx@ == ascending(g as nat),
            decreases group_len - g,
        {
            group_idx.push(g);
            g = g + 1;
            assert(group_idx@ =~= ascending(g as nat));
        }
        match pattern {
            Pattern::Random => {
                shuffle_from(&mut group_idx, 1);
                proof {
                    assert(group_idx@[0] == group_idx@.subrange(0, 1)[0]);
                    lemma_shuffled_is_group_order(group_idx@, n as nat);
                }
            },
            _ => {
                proof {
                    assert forall|a: int, b: int|
                        0 <= a < n && 0 <= b < n && a != b implies group_idx@[a]
                        != group_idx@[b] by {}
                }
            },
        }
        let ghost order = group_idx@;
        proof {
            if pattern == Pattern::Sequential {
                assert(order =~= ascending(n as nat));
            }
        }
        let ret = Self::with_order(data, group_size, pattern, group_idx);
        Ok(ret)
    }

    /// Links the groups of `group_size` elements of `data` in `order`, which
    /// must name every group once and start with group 0, and records
    /// `pattern` as the way the order was made.
    pub fn with_order(
        data: &'a mut [CacheLine],
        group_size: usize,
        pattern: Pattern,
        order: Vec<usize>,
    ) -> (w: Self)
        requires
            group_size > 0,
            order@.len() * group_size == old(data)@.len() * ELEMENTS_PER_CACHE_LINE,
            old(data)@.len() * CACHE_LINE_SIZE <= usize::MAX,
            is_group_order(order@, order@.len()),
        ensures
            w.group_size == group_size,
            w.group_len == order@.len(),
            w.working_set_size == old(data)@.len() * CACHE_LINE_SIZE,
            w.pattern == pattern,
            w.lines().len() == old(data)@.len(),
            w.wf(),
            w.visit_order() == order@,
    {
        let ghost gs = group_size as int;
        let ghost n = order@.len() as int;
        let working_set_size = data.len() * CACHE_LINE_SIZE;
        let group_len = order.len();
        link_groups(data, group_size, order.as_slice());
        let ghost linked = data@;
        let ret = WorkingSetData { data, group_size, group_len, working_set_size, pattern };
        proof {
            assert(ret.lines() == linked);
            assert(chains(ret.lines(), gs as nat, n as nat, order@));
            ret.lemma_visit_order();
            lemma_chain_order_unique(ret.lines(), gs as nat, n as nat, order@, ret.visit_order());
        }
        ret
    }

    /// Follows the chain from the first element to its end and returns the
    /// element index where it ends: the first element of the last group
    /// visited.
    pub fn read(&self) -> (last: usize)
        requires
            self.wf(),
        ensures
            last == self.visit_order().last() * self.group_size,
    {
        let ghost order = self.visit_order();
        let ghost n = self.group_len as int;
        let ghost gs = self.group_size as int;
        proof {
            self.lemma_visit_order();
        }
        let data: &[CacheLine] = &*self.data;
        proof {
            assert(data@.len() > 0) by (nonlinear_arith)
                requires
                    n * gs == data@.len() * 8,
                    n > 0,
                    gs > 0,
            ;
        }
        let mut cursor: usize = 0;
        let ghost mut k: int = 0;
        let mut next = data[0].get(0);
        while next != 0
            invariant
                data@ == self.lines(),
                chains(data@, gs as nat, n as nat, order),
                gs > 0,
                n * gs == data@.len() * 8,
                0 <= k < n,
                cursor == order[k] * gs,
                next == slot_at(data@, cursor as int),
            decreases n - k,
        {
            proof {
                if k == n - 1 {
                    assert(order.last() == order[k]);
                }
                lemma_group_start(order[k + 1] as int, n, gs);
            }
            cursor = next;
            proof {
                k = k + 1;
            }
            next = data[cursor / ELEMENTS_PER_CACHE_LINE].get(cursor % ELEMENTS_PER_CACHE_LINE);
        }
        proof {
            if k < n - 1 {
                lemma_group_start(order[k + 1] as int, n, gs);
                assert(order[k + 1] != order[0]);
            }
        }
        cursor
    }

    /// Walks the chain from the first element, collecting the group of each
    /// element it reaches; the groups come out in the order `expect`, which
    /// must be the visit order.
    pub fn check(&self, expect: &[usize])
        requires
            self.wf(),
            expect@ == self.visit_order(),
    {
        let ghost order = self.visit_order();
        let ghost n = self.group_len as int;
        let ghost gs = self.group_size as int;
        proof {
            self.lemma_visit_order();
        }
        let data: &[CacheLine] = &*self.data;
        proof {
            assert(data@.len() > 0) by (nonlinear_arith)
                requires
                    n * gs == data@.len() * 8,
                    n > 0,
                    gs > 0,
            ;
        }
        let group_size = self.group_size;
        let mut group_idx: Vec<usize> = Vec::new();
        group_idx.push(0);
        let mut cursor: usize = 0;
        let ghost mut k: int = 0;
        let mut next = data[0].get(0);
        while next != 0
            invariant
                data@ == self.lines(),
                chains(data@, gs as nat, n as nat, order),
                group_size == gs,
                gs > 0,
                n * gs == data@.len() * 8,
                0 <= k < n,
                cursor == order[k] * gs,
                next == slot_at(data@, cursor as int),
                group_idx@ == order.subrange(0, k + 1),
            decreases n - k,
        {
            proof {
                if k == n - 1 {
                    assert(order.last() == order[k]);
                }
                lemma_group_start(order[k + 1] as int, n, gs);
            }
            group_idx.push(next / group_size);
            cursor = next;
            proof {
                k = k + 1;
            }
            assert(group_idx@ =~= order.subrange(0, k + 1));
            next = data[cursor / ELEMENTS_PER_CACHE_LINE].get(cursor % ELEMENTS_PER_CACHE_LINE);
        }
        proof {
            if k < n - 1 {
                lemma_group_start(order[k + 1] as int, n, gs);
                assert(order[k + 1] != order[0]);
            }
            assert(group_idx@ =~= order);
        }
        // the walk visits the groups exactly in the expected order
        assert(group_idx@ =~= expect@);
    }
}

} // verus!
