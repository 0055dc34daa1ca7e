//! Descriptions of the measurements to run.
use vstd::prelude::*;
use std::ops::Range;
use crate::text::{chars_of, chars_equal};

verus! {

/// Which measurement a profile asks for.
#[derive(Clone, Copy, Debug, PartialEq, Eq, Structural)]
pub enum ProfileKind {
    RandomReadLatency,
    RandomBlockReadLatency,
    SeqReadLatency,
}

/// A measurement to run: the group sizes to try, the exponents of the
/// working set sizes (in bytes, powers of two), the number of rounds, and
/// for block patterns the block counts.
#[derive(Debug)]
pub struct Profile {
    pub name: String,
    pub kind: ProfileKind,
    pub group_size: Vec<usize>,
    pub working_set: Range<u32>,
    pub round: usize,
    pub block_count: Option<Vec<usize>>,
}

impl ProfileKind {
    /// The kind that a profile names, if any: `random_read_latency`,
    /// `random_block_read_latency` or `seq_read_latency`.
    pub open spec fn named(name: Seq<char>) -> Option<ProfileKind> {
        if name == "random_read_latency"@ {
            Some(ProfileKind::RandomReadLatency)
        } else if name == "random_block_read_latency"@ {
            Some(ProfileKind::RandomBlockReadLatency)
        } else if name == "seq_read_latency"@ {
            Some(ProfileKind::SeqReadLatency)
        } else {
            None
        }
    }

    /// The kind that `name` names, or `None` for an unknown name.
    pub fn from_name(name: &str) -> (kind: Option<ProfileKind>)
        ensures
            kind == Self::named(name@),
    {
        let name = chars_of(name);
        let random = chars_of("random_read_latency");
        let random_block = chars_of("random_block_read_latency");
        let seq = chars_of("seq_read_latency");
        if chars_equal(name.as_slice(), random.as_slice()) {
            Some(ProfileKind::RandomReadLatency)
        } else if chars_equal(name.as_slice(), random_block.as_slice()) {
            Some(ProfileKind::RandomBlockReadLatency)
        } else if chars_equal(name.as_slice(), seq.as_slice()) {
            Some(ProfileKind::SeqReadLatency)
        } else {
            None
        }
    }
}

} // verus!
