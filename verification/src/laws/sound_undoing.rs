//! Undoing on a sound volume: a directory that could not be created leaves no trace, and what
//! has been created and deleted again leaves none either.

use vstd::prelude::*;
use crate::disk::{clusters_needed, Disk, Stamp};
use crate::laws::chain_facts::{all_in_range, is_chain, lemma_chain_in_use, lemma_chain_kept};
use crate::laws::creation::{lemma_intact_kept, lemma_resolve_path};
use crate::laws::dir_facts::{free_set, lemma_slot_marker, lemma_vacant};
use crate::laws::frame::touches;
use crate::laws::keeping::{lemma_failed_directory, lemma_file_kept, same_table};
use crate::laws::sound_creation::{
    lemma_free_linkable, lemma_free_readable, lemma_same_listings, lemma_sound_directory,
    lemma_sound_target, lemma_sound_way,
};
use crate::laws::soundness::{
    all_linkable, directory_sound, ends_last, lemma_directory_kept, lemma_directory_readable,
    lemma_layout_chain, lemma_slot_readable, lemma_vacancy_readable, on_device, sound, Layout,
};
use crate::laws::undoing::{
    beside, has_room, law_delete_undoes_directory, law_delete_undoes_file, undone,
};
use crate::path::{name_of, parent_of, parts};
use crate::types::{is_end_marker, DIRENT_SIZE, FIRST_CLUSTER};

verus! {

/// Every directory is listed as before, every path leads where it led, and every file reads as
/// it did.
pub open spec fn as_before(d: Disk, d2: Disk, l: Layout) -> bool {
    &&& forall|h: u32| #[trigger] l.dirs.contains(h) ==> d2.entries(h) == d.entries(h)
    &&& forall|path: Seq<char>| #[trigger] d2.resolve(path) == d.resolve(path)
    &&& forall|path: Seq<char>|
        d.read_path(path) is Ok ==> #[trigger] d2.read_path(path) == d.read_path(path)
}

/// The clusters of a chain of the layout are not free.
proof fn lemma_not_free(d: Disk, l: Layout, h: u32)
    requires
        sound(d, l),
        l.chains.dom().contains(h),
    ensures
        forall|k: int|
            0 <= k < l.chains[h].len() ==> !Set::<u32>::empty().contains(#[trigger] l.chains[h][k])
                && !free_set(d).contains(l.chains[h][k]),
{
    lemma_layout_chain(d, l, h);
    let s = l.chains[h];
    assert forall|k: int| 0 <= k < s.len() implies !free_set(d).contains(#[trigger] s[k]) by {
        assert(s.contains(s[k]));
        lemma_chain_in_use(d, s, s[k]);
    }
}

/// Where only the contents of free clusters have changed, the volume is sound and as before.
proof fn lemma_free_touched(d: Disk, d2: Disk, l: Layout)
    requires
        sound(d, l),
        touches(d, d2, Set::empty(), free_set(d)),
        same_table(d, d2),
    ensures
        sound(d2, l),
        as_before(d, d2, l),
{
    lemma_intact_kept(d, d2);
    assert(all_linkable(d2));
    assert forall|g: u32|
        #![trigger l.chains[g]]
        l.chains.dom().contains(g) implies is_chain(d2, l.chains[g]) && l.chains[g][0] == g
        && all_in_range(d2.geo, l.chains[g]) by {
        lemma_layout_chain(d, l, g);
        lemma_not_free(d, l, g);
        lemma_chain_kept(d, d2, l.chains[g], Set::empty(), free_set(d));
    }
    assert forall|g: u32| #[trigger] l.dirs.contains(g) implies d2.entries(g) == d.entries(g)
        && ends_last(d2, l.chains[g]) && on_device(d2, l.chains[g]) by {
        assert(l.chains.dom().contains(g));
        lemma_not_free(d, l, g);
        lemma_directory_kept(d, d2, l, g, Set::empty(), free_set(d));
    }
    assert forall|g: u32| #[trigger] l.dirs.contains(g) implies l.chains.dom().contains(g)
        && directory_sound(d2, l, g) by {
        assert(directory_sound(d, l, g));
        assert(d2.entries(g) == d.entries(g));
    }
    assert forall|path: Seq<char>| #[trigger] d2.resolve(path) == d.resolve(path) by {
        lemma_same_listings(d, d2, l, FIRST_CLUSTER, parts(path), 0);
    }
    assert forall|path: Seq<char>| d.read_path(path) is Ok implies #[trigger] d2.read_path(path)
        == d.read_path(path) by {
        lemma_sound_target(d, l, path);
        let g = d.resolve(path)->Ok_0.first_cluster;
        lemma_layout_chain(d, l, g);
        lemma_not_free(d, l, g);
        lemma_file_kept(d, d2, d.resolve(path)->Ok_0, Set::empty(), free_set(d));
        assert(d2.resolve(path) == d.resolve(path));
    }
}

/// On a sound volume a directory that could not be created leaves no trace: the table is the
/// same, every directory is listed as before, every path leads where it led, every file reads
/// as it did, and the volume is sound.
pub proof fn law_failed_directory_leaves_no_trace(d: Disk, l: Layout, path: Seq<char>, now: Stamp)
    requires
        sound(d, l),
        d.create_directory(path, now).1 is Err,
    ensures
        same_table(d, d.create_directory(path, now).0),
        sound(d.create_directory(path, now).0, l),
        as_before(d, d.create_directory(path, now).0, l),
{
    let d2 = d.create_directory(path, now).0;
    let p = d.parent_for(path)->Ok_0.first_cluster;
    lemma_failed_directory(d, path, now);
    if d2 != d {
        lemma_sound_directory(d, l, parent_of(path));
        lemma_directory_readable(d, l, p);
        lemma_free_touched(d, d2, l);
    }
}

/// A directory of a sound volume with a vacant slot has room.
proof fn lemma_sound_room(d: Disk, l: Layout, h: u32)
    requires
        sound(d, l),
        l.dirs.contains(h),
        d.vacant_slot(l.chains[h], 0, 0) matches Ok(Some(_)),
    ensures
        has_room(d, l.chains[h]),
{
    let s = l.chains[h];
    lemma_directory_readable(d, l, h);
    lemma_vacant(d, s, 0, 0);
    let (a, b) = d.vacant_slot(s, 0, 0)->Ok_0->Some_0;
    lemma_slot_readable(d, s, a, b, DIRENT_SIZE as nat);
    lemma_slot_marker(d, s, a, b);
    if a < s.len() - 1 {
        assert(!is_end_marker(d.slot(s, a, b, DIRENT_SIZE as nat)->Ok_0[0]));
    }
}

/// What [`undone`] says of directories holds of all of them on a sound volume.
proof fn lemma_undone_everywhere(d: Disk, d2: Disk, l: Layout, path: Seq<char>)
    requires
        sound(d, l),
        d.parent_for(path) is Ok,
        undone(d, d2, path),
    ensures
        forall|h: u32| #[trigger] l.dirs.contains(h) ==> d2.entries(h) == d.entries(h),
        forall|other: Seq<char>| #[trigger] d2.resolve(other) == d.resolve(other),
{
    let p = d.resolve(parent_of(path))->Ok_0.first_cluster;
    lemma_sound_directory(d, l, parent_of(path));
    assert forall|h: u32| #[trigger] l.dirs.contains(h) implies d2.entries(h) == d.entries(h) by {
        lemma_directory_readable(d, l, h);
        lemma_directory_readable(d, l, p);
        assert(beside(d, h, p));
    }
    assert forall|other: Seq<char>| #[trigger] d2.resolve(other) == d.resolve(other) by {
        lemma_same_listings(d, d2, l, FIRST_CLUSTER, parts(other), 0);
    }
}

/// On a sound volume deleting a file that has just been created under a new name undoes its
/// creation: every entry of the table is the same, every directory is listed as before, and
/// every path leads where it led.
///
/// Left out are directories that had to grow for the entry, whose new cluster stays.
pub proof fn law_sound_delete_undoes_file(
    d: Disk,
    l: Layout,
    path: Seq<char>,
    data: Seq<u8>,
    now: Stamp,
)
    requires
        sound(d, l),
        d.create_file(path, data, now).1 is Ok,
        !(d.resolve(path) is Ok),
        d.vacant_slot(
            d.chain(d.resolve(parent_of(path))->Ok_0.first_cluster)->Ok_0,
            0,
            0,
        )->Ok_0 is Some,
    ensures
        ({
            let (d2, r) = d.create_file(path, data, now).0.delete(path);
            &&& r is Ok
            &&& undone(d, d2, path)
            &&& forall|h: u32| #[trigger] l.dirs.contains(h) ==> d2.entries(h) == d.entries(h)
            &&& forall|other: Seq<char>| #[trigger] d2.resolve(other) == d.resolve(other)
        }),
{
    let p = d.parent_for(path)->Ok_0.first_cluster;
    let count = clusters_needed(data.len(), d.geo.cluster_size());
    assert(name_of(path).len() > 0);
    lemma_sound_way(d, l, path);
    lemma_directory_readable(d, l, p);
    lemma_vacancy_readable(d, l.chains[p], 0, 0);
    lemma_sound_room(d, l, p);
    lemma_free_readable(d, FIRST_CLUSTER as int, count + 1);
    lemma_free_linkable(d, count + 1);
    law_delete_undoes_file(d, path, data, now);
    lemma_undone_everywhere(d, d.create_file(path, data, now).0.delete(path).0, l, path);
}

/// On a sound volume deleting a directory that has just been created undoes its creation, as
/// [`law_sound_delete_undoes_file`] says of files.
pub proof fn law_sound_delete_undoes_directory(d: Disk, l: Layout, path: Seq<char>, now: Stamp)
    requires
        sound(d, l),
        d.create_directory(path, now).1 is Ok,
        d.vacant_slot(
            d.chain(d.resolve(parent_of(path))->Ok_0.first_cluster)->Ok_0,
            0,
            0,
        )->Ok_0 is Some,
    ensures
        ({
            let (d2, r) = d.create_directory(path, now).0.delete(path);
            &&& r is Ok
            &&& undone(d, d2, path)
            &&& forall|h: u32| #[trigger] l.dirs.contains(h) ==> d2.entries(h) == d.entries(h)
            &&& forall|other: Seq<char>| #[trigger] d2.resolve(other) == d.resolve(other)
        }),
{
    let p = d.parent_for(path)->Ok_0.first_cluster;
    assert(name_of(path).len() > 0);
    lemma_resolve_path(d, path);
    lemma_sound_way(d, l, path);
    lemma_directory_readable(d, l, p);
    lemma_vacancy_readable(d, l.chains[p], 0, 0);
    lemma_sound_room(d, l, p);
    lemma_free_readable(d, FIRST_CLUSTER as int, 2);
    lemma_free_linkable(d, 2);
    law_delete_undoes_directory(d, path, now);
    lemma_undone_everywhere(d, d.create_directory(path, now).0.delete(path).0, l, path);
}

} // verus!
