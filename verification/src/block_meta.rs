//! Small block-level metadata types that carry a state root around:
//! consumers of the tree's root hash, not part of the tree itself.
use vstd::prelude::*;

verus! {

/// Four opaque bytes of extra data in a block header.
pub struct BlockHeaderExtra {
    bytes: [u8; 4],
}

impl BlockHeaderExtra {
    /// Wraps the four bytes.
    pub fn new(extra: [u8; 4]) -> (r: BlockHeaderExtra)
        ensures
            r@ == extra@,
    {
        BlockHeaderExtra { bytes: extra }
    }

    /// The four bytes as a vector.
    pub fn to_vec(&self) -> (r: Vec<u8>)
        ensures
            r@ == self@,
    {
        let mut v: Vec<u8> = Vec::new();
        v.push(self.bytes[0]);
        v.push(self.bytes[1]);
        v.push(self.bytes[2]);
        v.push(self.bytes[3]);
        proof {
            assert(v@ =~= self@);
        }
        v
    }
}

impl View for BlockHeaderExtra {
    type V = Seq<u8>;

    closed spec fn view(&self) -> Seq<u8> {
        self.bytes@
    }
}

/// Totals and averages over the uncle blocks of a range.
pub struct UncleSummary {
    pub uncles: u64,
    pub sum: u64,
    pub avg: u64,
    pub time_sum: u64,
    pub time_avg: u64,
}

impl UncleSummary {
    /// Records the totals; the averages are the totals per uncle, zero
    /// when there are no uncles.
    pub fn new(uncles: u64, sum: u64, time_sum: u64) -> (r: UncleSummary)
        ensures
            r.uncles == uncles,
            r.sum == sum,
            r.time_sum == time_sum,
            uncles > 0 ==> r.avg == sum / uncles && r.time_avg == time_sum / uncles,
            uncles == 0 ==> r.avg == 0 && r.time_avg == 0,
    {
        let (avg, time_avg): (u64, u64) = if uncles > 0 {
            (sum / uncles, time_sum / uncles)
        } else {
            (0, 0)
        };
        UncleSummary { uncles, sum, avg, time_sum, time_avg }
    }
}

/// Uncle accounting for one epoch.
pub struct EpochUncleSummary {
    pub epoch: u64,
    pub number_summary: UncleSummary,
    pub epoch_summary: UncleSummary,
}

impl EpochUncleSummary {
    /// Bundles the per-number and per-epoch summaries.
    pub fn new(epoch: u64, number_summary: UncleSummary, epoch_summary: UncleSummary) -> (r:
        EpochUncleSummary)
        ensures
            r.epoch == epoch,
            r.number_summary == number_summary,
            r.epoch_summary == epoch_summary,
    {
        EpochUncleSummary { epoch, number_summary, epoch_summary }
    }
}

} // verus!
