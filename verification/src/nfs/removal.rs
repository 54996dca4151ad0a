//! Removing a directory with all that is in it.

use vstd::prelude::*;
use vstd::utf8::{decode_utf8, valid_utf8};
use crate::laws::removal::lemma_resolved_in_parent;
use crate::laws::sound_trees::{cut_off, is_tree, law_tree_deleted_soundly};
use crate::laws::soundness::Layout;
use crate::nfs::attrs::NfsStatus;
use crate::nfs::laws::law_remove_takes_the_tree;
use crate::nfs::server::NfsView;
use crate::path::name_of;

verus! {

/// On a sound volume whose directories form a tree, a directory that is not empty can be
/// removed: it is no longer found, and nothing but what was in it is gone. The layout that the
/// volume has then is given.
pub proof fn law_removed_directory_is_cut_off(
    s: NfsView,
    l: Layout,
    level: spec_fn(u32) -> nat,
    dirid: u64,
    filename: Seq<u8>,
) -> (l2: Layout)
    requires
        !s.readonly,
        valid_utf8(filename),
        is_tree(s.disk, l, level),
        ({
            let path = s.path_of(dirid, decode_utf8(filename));
            &&& name_of(path).len() > 0
            &&& s.disk.resolve(path) matches Ok(target)
            &&& target.is_directory()
            &&& s.disk.entries(target.first_cluster) matches Ok(entries)
            &&& entries.len() > 0
        }),
    ensures
        ({
            let (s2, r) = s.remove(dirid, filename);
            let path = s.path_of(dirid, decode_utf8(filename));
            &&& r == Ok::<(), NfsStatus>(())
            &&& cut_off(s.disk, s2.disk, l, l2, level, path)
        }),
{
    let path = s.path_of(dirid, decode_utf8(filename));
    lemma_resolved_in_parent(s.disk, path);
    law_remove_takes_the_tree(s, dirid, filename);
    law_tree_deleted_soundly(s.disk, l, level, path)
}

} // verus!
