//! Deleting directories with all that is in them.

use vstd::prelude::*;
use crate::device::Device;
use crate::directory::entry_views;
use crate::disk::Disk;
use crate::error::{ErrView, FatxError, Result};
use crate::path::{join_path, joined_path};
use crate::types::DirentView;
use crate::volume::{fault, outcome, FatxVolume};

verus! {

impl Disk {
    /// Deletes what a path leads to with all that is in it, down to `depth` directories
    /// below. A tree that is deeper is circular.
    pub open spec fn delete_tree(self, path: Seq<char>, depth: nat) -> (Disk, core::result::Result<
        (),
        ErrView,
    >)
        decreases depth, 0int, 0int,
    {
        match self.resolve(path) {
            Err(e) => (self, Err(e)),
            Ok(target) => if !target.is_directory() {
                self.delete(path)
            } else if depth == 0 {
                (self, Err(ErrView::CorruptChain(target.first_cluster)))
            } else {
                match self.entries(target.first_cluster) {
                    Err(e) => (self, Err(e)),
                    Ok(entries) => match self.delete_children(
                        path,
                        entries,
                        0,
                        (depth - 1) as nat,
                    ) {
                        (d, Err(e)) => (d, Err(e)),
                        (d, Ok(_)) => d.delete(path),
                    },
                }
            },
        }
    }

    /// Deletes the entries of the directory `path` from number `i` on, with all that is in
    /// them.
    pub open spec fn delete_children(
        self,
        path: Seq<char>,
        entries: Seq<DirentView>,
        i: int,
        depth: nat,
    ) -> (Disk, core::result::Result<(), ErrView>)
        decreases depth, 1int, entries.len() - i,
    {
        if i < 0 || i >= entries.len() {
            (self, Ok(()))
        } else {
            match self.delete_tree(joined_path(path, entries[i].filename()), depth) {
                (d, Err(e)) => (d, Err(e)),
                (d, Ok(_)) => d.delete_children(path, entries, i + 1, depth),
            }
        }
    }

    /// Deletes what a path leads to with all that is in it.
    pub open spec fn delete_recursive(self, path: Seq<char>) -> (Disk, core::result::Result<
        (),
        ErrView,
    >) {
        self.delete_tree(path, self.geo.total_clusters as nat)
    }
}

impl<D: Device> FatxVolume<D> {
    fn delete_tree(&mut self, path: &str, depth: u32) -> (r: Result<()>)
        requires
            old(self).wf(),
        ensures
            final(self).keeps(old(self)),
            fault(r) ==> !old(self).reliable(),
            !fault(r) ==> (final(self)@, outcome(r)) == old(self)@.delete_tree(
                path@,
                depth as nat,
            ),
        decreases depth,
    {
        let target = match self.resolve_path(path) {
            Ok(target) => target,
            Err(e) => return Err(e),
        };
        if !target.is_directory() {
            return self.delete(path);
        }
        if depth == 0 {
            return Err(FatxError::CorruptChain(target.first_cluster));
        }
        let entries = match self.read_directory(target.first_cluster) {
            Ok(entries) => entries,
            Err(e) => return Err(e),
        };
        let ghost start = self@;
        let ghost all = entry_views(entries@);
        let ghost want = start.delete_children(path@, all, 0, (depth - 1) as nat);
        let ghost whole = start.delete_tree(path@, depth as nat);
        assert(whole == match want {
            (d, Err(e)) => (d, Err(e)),
            (d, Ok(_)) => d.delete(path@),
        });
        let mut i: usize = 0;
        while i < entries.len()
            invariant
                depth > 0,
                self.keeps(old(self)),
                i <= entries.len(),
                all == entry_views(entries@),
                whole == old(self)@.delete_tree(path@, depth as nat),
                whole == match want {
                    (d, Err(e)) => (d, Err(e)),
                    (d, Ok(_)) => d.delete(path@),
                },
                self@.delete_children(path@, all, i as int, (depth - 1) as nat) == want,
            decreases entries.len() - i,
        {
            let name = entries[i].filename();
            assert(all[i as int] == entries@[i as int]@);
            let child = join_path(path, name.as_str());
            match self.delete_tree(child.as_str(), depth - 1) {
                Ok(_) => {},
                Err(e) => return Err(e),
            }
            i = i + 1;
        }
        self.delete(path)
    }

    /// Deletes a file, or a directory with all that is in it. What has been deleted when an
    /// error stops the work stays deleted.
    pub fn delete_recursive(&mut self, path: &str) -> (r: Result<()>)
        requires
            old(self).wf(),
        ensures
            final(self).keeps(old(self)),
            fault(r) ==> !old(self).reliable(),
            !fault(r) ==> (final(self)@, outcome(r)) == old(self)@.delete_recursive(path@),
    {
        let depth = self.cluster_count();
        self.delete_tree(path, depth)
    }
}

} // verus!
