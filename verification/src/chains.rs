//! Chains of clusters: following, allocating and freeing them, and counting clusters.

use vstd::prelude::*;
use crate::device::Device;
use crate::disk::{Disk, Tally};
use crate::error::{ErrView, FatxError, Result};
use crate::types::{FatEntry, FIRST_CLUSTER};
use crate::volume::{fault, outcome, prepend, seq_outcome, FatxVolume};

verus! {

/// How much of a volume is in use.
#[derive(Debug)]
pub struct VolumeStats {
    pub total_clusters: u32,
    pub free_clusters: u32,
    pub used_clusters: u32,
    pub bad_clusters: u32,
    /// Size of a cluster in bytes.
    pub cluster_size: u64,
    /// Size of the volume in bytes.
    pub total_size: u64,
    /// Free clusters, in bytes.
    pub free_size: u64,
    /// Used clusters, in bytes.
    pub used_size: u64,
}

/// What the statistics of a volume of `volume_size` bytes say of a count of its clusters.
pub open spec fn counted(s: VolumeStats, d: Disk, volume_size: u64, t: Tally) -> bool {
    let size = d.geo.cluster_size();
    &&& s.total_clusters == d.geo.total_clusters
    &&& s.free_clusters == t.free
    &&& s.used_clusters == t.used
    &&& s.bad_clusters == t.bad
    &&& s.cluster_size == size
    &&& s.total_size == volume_size
    &&& s.free_size == t.free * size
    &&& s.used_size == t.used * size
}

/// What is left to count once some clusters have been counted.
spec fn tally_join(t: Tally, r: core::result::Result<Tally, ErrView>) -> core::result::Result<
    Tally,
    ErrView,
> {
    match r {
        Ok(u) => Ok(Tally { free: t.free + u.free, used: t.used + u.used, bad: t.bad + u.bad }),
        Err(e) => Err(e),
    }
}

impl<D: Device> FatxVolume<D> {
    /// Follows the chain that starts at `start_cluster` and gives its clusters in order.
    ///
    /// A link to a cluster that the volume does not have is refused, and so is a chain that
    /// leads in a circle.
    pub fn read_chain(&mut self, start_cluster: u32) -> (r: Result<Vec<u32>>)
        requires
            old(self).wf(),
        ensures
            final(self).same_as(old(self)),
            fault(r) ==> !old(self).reliable(),
            !fault(r) ==> seq_outcome(r) == old(self)@.chain(start_cluster),
    {
        let total = self.cluster_count();
        let limit: u64 = total as u64 + 1;
        let mut chain: Vec<u32> = Vec::new();
        let mut current: u32 = start_cluster;
        let mut left: u64 = limit;
        let ghost d = self@;
        assert(prepend(chain@, d.chain(start_cluster)) == d.chain(start_cluster)) by {
            if d.chain(start_cluster) is Ok {
                assert(chain@ + d.chain(start_cluster)->Ok_0 =~= d.chain(start_cluster)->Ok_0);
            }
        }
        while left > 0
            invariant
                left <= limit == total + 1,
                total == d.geo.total_clusters,
                d == old(self)@,
                self.same_as(old(self)),
                prepend(chain@, d.chain_from(current, left as nat)) == d.chain(start_cluster),
            decreases left,
        {
            let ghost before = chain@;
            match self.read_fat_entry(current) {
                Err(e) => return Err(e),
                Ok(entry) => match entry {
                    FatEntry::EndOfChain => {
                        chain.push(current);
                        assert(chain@ =~= before + seq![current]);
                        return Ok(chain);
                    },
                    FatEntry::Next(next) => {
                        if next < FIRST_CLUSTER || next > total {
                            return Err(FatxError::CorruptChain(current));
                        }
                        chain.push(current);
                        proof {
                            let rest = d.chain_from(next, (left - 1) as nat);
                            if rest is Ok {
                                assert(chain@ + rest->Ok_0 =~= before + (seq![current]
                                    + rest->Ok_0));
                            }
                        }
                        current = next;
                        left = left - 1;
                    },
                    FatEntry::Free => return Err(FatxError::CorruptChain(current)),
                    FatEntry::Bad => return Err(FatxError::CorruptChain(current)),
                },
            }
        }
        Err(FatxError::CorruptChain(current))
    }

    /// The first `count` free clusters, or all of them if there are fewer.
    fn find_free(&mut self, count: usize) -> (r: Result<Vec<u32>>)
        requires
            old(self).wf(),
        ensures
            final(self).same_as(old(self)),
            fault(r) ==> !old(self).reliable(),
            !fault(r) ==> seq_outcome(r) == old(self)@.free_from(FIRST_CLUSTER as int, count as nat),
            r matches Ok(v) ==> v.len() <= count,
    {
        let total = self.cluster_count();
        let mut list: Vec<u32> = Vec::new();
        let mut cluster: u64 = FIRST_CLUSTER as u64;
        let ghost d = self@;
        let ghost want = d.free_from(FIRST_CLUSTER as int, count as nat);
        assert(prepend(list@, want) == want) by {
            if want is Ok {
                assert(list@ + want->Ok_0 =~= want->Ok_0);
            }
        }
        while cluster <= total as u64 && list.len() < count
            invariant
                total == d.geo.total_clusters,
                1 <= cluster <= total + 1,
                d == old(self)@,
                self.same_as(old(self)),
                list.len() <= count,
                want == d.free_from(FIRST_CLUSTER as int, count as nat),
                prepend(list@, d.free_from(cluster as int, (count - list.len()) as nat)) == want,
            decreases total + 1 - cluster,
        {
            let ghost before = list@;
            match self.read_fat_entry(cluster as u32) {
                Err(e) => return Err(e),
                Ok(entry) => {
                    if entry == FatEntry::Free {
                        list.push(cluster as u32);
                        proof {
                            let rest = d.free_from(cluster + 1, (count - list.len()) as nat);
                            if rest is Ok {
                                assert(list@ + rest->Ok_0 =~= before + (seq![cluster as u32]
                                    + rest->Ok_0));
                            }
                        }
                    }
                },
            }
            cluster = cluster + 1;
        }
        proof {
            assert(d.free_from(cluster as int, (count - list.len()) as nat) == Ok::<
                Seq<u32>,
                ErrView,
            >(seq![]));
            assert(list@ + Seq::<u32>::empty() =~= list@);
        }
        Ok(list)
    }

    /// Takes the first free cluster, as a chain of its own.
    pub fn allocate_cluster(&mut self) -> (r: Result<u32>)
        requires
            old(self).wf(),
        ensures
            final(self).keeps(old(self)),
            fault(r) ==> !old(self).reliable(),
            !fault(r) ==> (final(self)@, outcome(r)) == old(self)@.allocate_cluster(),
    {
        let list = match self.find_free(1) {
            Ok(list) => list,
            Err(e) => return Err(e),
        };
        if list.len() == 0 {
            return Err(FatxError::DiskFull);
        }
        match self.write_fat_entry(list[0], FatEntry::EndOfChain) {
            Ok(_) => Ok(list[0]),
            Err(e) => Err(e),
        }
    }

    /// Takes the first `count` free clusters and chains them. Gives the first of them.
    pub fn allocate_chain(&mut self, count: usize) -> (r: Result<u32>)
        requires
            old(self).wf(),
        ensures
            final(self).keeps(old(self)),
            fault(r) ==> !old(self).reliable(),
            !fault(r) ==> (final(self)@, outcome(r)) == old(self)@.allocate_chain(count as nat),
    {
        if count == 0 {
            return Err(FatxError::DiskFull);
        }
        let list = match self.find_free(count) {
            Ok(list) => list,
            Err(e) => return Err(e),
        };
        if list.len() < count {
            return Err(FatxError::DiskFull);
        }
        match self.link_clusters(&list) {
            Ok(_) => Ok(list[0]),
            Err(e) => Err(e),
        }
    }

    /// Makes the clusters of `list` a chain.
    fn link_clusters(&mut self, list: &Vec<u32>) -> (r: Result<()>)
        requires
            old(self).wf(),
        ensures
            final(self).keeps(old(self)),
            fault(r) ==> !old(self).reliable(),
            !fault(r) ==> (final(self)@, outcome(r)) == old(self)@.link(list@, 0),
    {
        let n: usize = list.len();
        let mut i: usize = 0;
        while i < n
            invariant
                n == list.len(),
                i <= n,
                old(self).wf(),
                self.keeps(old(self)),
                self@.link(list@, i as int) == old(self)@.link(list@, 0),
            decreases n - i,
        {
            let entry = if i + 1 < n {
                FatEntry::Next(list[i + 1])
            } else {
                FatEntry::EndOfChain
            };
            match self.write_fat_entry(list[i], entry) {
                Ok(_) => {},
                Err(e) => return Err(e),
            }
            i = i + 1;
        }
        Ok(())
    }

    /// Frees the clusters of `list`.
    pub(crate) fn free_clusters(&mut self, list: &Vec<u32>) -> (r: Result<()>)
        requires
            old(self).wf(),
        ensures
            final(self).keeps(old(self)),
            fault(r) ==> !old(self).reliable(),
            !fault(r) ==> (final(self)@, outcome(r)) == old(self)@.free_all(list@, 0),
    {
        let n: usize = list.len();
        let mut i: usize = 0;
        while i < n
            invariant
                n == list.len(),
                i <= n,
                old(self).wf(),
                self.keeps(old(self)),
                self@.free_all(list@, i as int) == old(self)@.free_all(list@, 0),
            decreases n - i,
        {
            match self.write_fat_entry(list[i], FatEntry::Free) {
                Ok(_) => {},
                Err(e) => return Err(e),
            }
            i = i + 1;
        }
        Ok(())
    }

    /// Frees the chain that starts at `start_cluster`.
    pub fn free_chain(&mut self, start_cluster: u32) -> (r: Result<()>)
        requires
            old(self).wf(),
        ensures
            final(self).keeps(old(self)),
            fault(r) ==> !old(self).reliable(),
            !fault(r) ==> (final(self)@, outcome(r)) == old(self)@.free_chain(start_cluster),
    {
        let chain = match self.read_chain(start_cluster) {
            Ok(chain) => chain,
            Err(e) => return Err(e),
        };
        self.free_clusters(&chain)
    }

    /// Counts the clusters by their state.
    pub fn stats(&mut self) -> (r: Result<VolumeStats>)
        requires
            old(self).wf(),
        ensures
            final(self).same_as(old(self)),
            fault(r) ==> !old(self).reliable(),
            !fault(r) ==> match (r, old(self)@.tally_from(FIRST_CLUSTER as int)) {
                (Ok(s), Ok(t)) => counted(s, old(self)@, old(self).volume_size(), t),
                (Err(e), Err(x)) => e@ == x,
                _ => false,
            },
    {
        let total = self.cluster_count();
        let mut free: u32 = 0;
        let mut used: u32 = 0;
        let mut bad: u32 = 0;
        let mut cluster: u64 = FIRST_CLUSTER as u64;
        let ghost d = self@;
        let ghost want = d.tally_from(FIRST_CLUSTER as int);
        while cluster <= total as u64
            invariant
                total == d.geo.total_clusters,
                1 <= cluster <= total + 1,
                d == old(self)@,
                self.same_as(old(self)),
                free + used + bad == cluster - 1,
                want == d.tally_from(FIRST_CLUSTER as int),
                tally_join(
                    Tally { free: free as nat, used: used as nat, bad: bad as nat },
                    d.tally_from(cluster as int),
                ) == want,
            decreases total + 1 - cluster,
        {
            match self.read_fat_entry(cluster as u32) {
                Err(e) => return Err(e),
                Ok(entry) => match entry {
                    FatEntry::Free => free = free + 1,
                    FatEntry::Bad => bad = bad + 1,
                    _ => used = used + 1,
                },
            }
            cluster = cluster + 1;
        }
        let size: u64 = self.cluster_size() as u64;
        assert(free * size <= 0xFFFF_FFFF * 0x1_0000 && used * size <= 0xFFFF_FFFF * 0x1_0000)
            by (nonlinear_arith)
            requires
                0 <= free <= 0xFFFF_FFFF,
                0 <= used <= 0xFFFF_FFFF,
                0 <= size <= 0x1_0000,
        ;
        Ok(
            VolumeStats {
                total_clusters: total,
                free_clusters: free,
                used_clusters: used,
                bad_clusters: bad,
                cluster_size: size,
                total_size: self.size(),
                free_size: free as u64 * size,
                used_size: used as u64 * size,
            },
        )
    }
}

} // verus!
