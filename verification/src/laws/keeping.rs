//! Laws about what operations leave as it was, and what failed operations undo.

use vstd::prelude::*;
use crate::directory::lemma_free_in_range;
use crate::dirent::law_dirent_roundtrip;
use crate::disk::{
    blank, clusters_needed, dirent_bytes, encodable, find_entry, new_entry, sector_ceil, validate_name, Disk,
    Stamp,
};
use crate::error::ErrView;
use crate::laws::chain_facts::{
    all_in_range, disjoint, is_chain, lemma_allocate_cluster, lemma_chain_in_range,
    lemma_chain_in_use, lemma_chain_kept, lemma_cluster_kept, lemma_follow_chain,
    lemma_followed_chain, linkable, linked,
};
use crate::laws::creation::{
    clear_way, intact, lemma_behind_end_kept, lemma_create_file_steps, lemma_entered, lemma_intact_kept,
    lemma_listing_beside_new_data, lemma_new_entry, lemma_resolve_kept, lemma_walk_beside_new_data, lemma_walk_kept, lemma_way_beside_new_data,
    walk_clear,
};
use crate::laws::dir_facts::{
    behind_end_readable, entry_added, free_set, lemma_add_entry, lemma_listing_in_range,
    lemma_listing_kept, lemma_slot_marker, lemma_slot_part, lemma_vacant, next_linkable, storable,
};
use crate::laws::frame::{
    lemma_fat_writable, lemma_touches_trans, lemma_touches_widen, lemma_write_fat, lemma_write_part,
    part, touches,
};
use crate::laws::removal::{
    law_deleted_is_gone, lemma_rename_in, lemma_resolved_in_parent, renamed, stands_apart,
    without_first,
};
use crate::path::{name_of, parent_of, parts};
use crate::types::{
    is_end_marker, DirentView, FatEntry, FileAttributes, DIRENT_DELETED, DIRENT_END, DIRENT_SIZE,
    FIRST_CLUSTER,
};

verus! {

/// The clusters of a file that can be read are clusters of the volume.
pub proof fn lemma_file_in_range(d: Disk, e: DirentView)
    requires
        d.read_file(e) is Ok,
    ensures
        d.chain(e.first_cluster) is Ok,
        is_chain(d, d.chain(e.first_cluster)->Ok_0),
        all_in_range(d.geo, d.chain(e.first_cluster)->Ok_0),
        d.chain(e.first_cluster)->Ok_0[0] == e.first_cluster,
        d.chain(e.first_cluster)->Ok_0.len() <= d.geo.total_clusters + 1,
{
    let list = d.chain(e.first_cluster)->Ok_0;
    lemma_followed_chain(d, e.first_cluster, (d.geo.total_clusters + 1) as nat);
    assert(d.read_data(list, 0, e.file_size as nat) is Ok);
    assert(d.read_cluster(list[0]) is Ok);
    lemma_chain_in_range(d, list);
}

proof fn lemma_data_kept(
    d: Disk,
    d2: Disk,
    list: Seq<u32>,
    i: int,
    size: nat,
    fats: Set<u32>,
    data: Set<u32>,
)
    requires
        touches(d, d2, fats, data),
        0 <= i,
        forall|k: int| 0 <= k < list.len() ==> !data.contains(#[trigger] list[k]),
        d.read_data(list, i, size) is Ok,
    ensures
        d2.read_data(list, i, size) == d.read_data(list, i, size),
    decreases list.len() - i,
{
    if i < list.len() {
        assert(!data.contains(list[i]));
        lemma_cluster_kept(d, d2, fats, data, list[i]);
        let n = if size < d.geo.cluster_size() { size } else { d.geo.cluster_size() };
        if size != n {
            lemma_data_kept(d, d2, list, i + 1, (size - n) as nat, fats, data);
        }
    }
}

/// A file whose clusters are left alone keeps its contents.
pub proof fn lemma_file_kept(d: Disk, d2: Disk, e: DirentView, fats: Set<u32>, data: Set<u32>)
    requires
        touches(d, d2, fats, data),
        d.read_file(e) is Ok,
        forall|k: int|
            0 <= k < d.chain(e.first_cluster)->Ok_0.len() ==> !fats.contains(
                #[trigger] d.chain(e.first_cluster)->Ok_0[k],
            ) && !data.contains(d.chain(e.first_cluster)->Ok_0[k]),
    ensures
        d2.read_file(e) == d.read_file(e),
{
    let list = d.chain(e.first_cluster)->Ok_0;
    lemma_file_in_range(d, e);
    lemma_chain_kept(d, d2, list, fats, data);
    lemma_follow_chain(d2, list, (d.geo.total_clusters + 1) as nat);
    lemma_data_kept(d, d2, list, 0, e.file_size as nat, fats, data);
}

/// A file apart from the directory that something is entered in keeps its contents.
pub proof fn lemma_file_beside_added(d: Disk, d2: Disk, p: u32, e: DirentView, other: DirentView)
    requires
        intact(d),
        d.entries(p) is Ok,
        entry_added(d, d2, p, e),
        d.read_file(other) is Ok,
        disjoint(d.chain(other.first_cluster)->Ok_0, d.chain(p)->Ok_0),
    ensures
        d2.read_file(other) == d.read_file(other),
{
    let s = d.chain(p)->Ok_0;
    let list = d.chain(other.first_cluster)->Ok_0;
    lemma_listing_in_range(d, p);
    lemma_file_in_range(d, other);
    let fats = free_set(d).insert(s.last());
    let touched = free_set(d).union(s.to_set());
    assert forall|k: int| 0 <= k < list.len() implies !fats.contains(#[trigger] list[k])
        && !touched.contains(list[k]) by {
        assert(list.contains(list[k]));
        lemma_chain_in_use(d, list, list[k]);
        assert(list[k] != s[s.len() - 1]);
        if s.to_set().contains(list[k]) {
            let j = choose|j: int| 0 <= j < s.len() && s[j] == list[k];
            assert(list[k] != s[j]);
        }
    }
    lemma_file_kept(d, d2, other, fats, touched);
}

/// A file apart from the clusters that new data has taken keeps its contents and its chain.
pub proof fn lemma_file_beside_new_data(d: Disk, d2: Disk, list: Seq<u32>, other: DirentView)
    requires
        intact(d),
        touches(d, d2, list.to_set(), list.to_set()),
        forall|k: int|
            0 <= k < list.len() ==> d.read_fat(#[trigger] list[k]) == Ok::<FatEntry, ErrView>(
                FatEntry::Free,
            ),
        d.read_file(other) is Ok,
    ensures
        d2.read_file(other) == d.read_file(other),
        d2.chain(other.first_cluster) == d.chain(other.first_cluster),
{
    let t = d.chain(other.first_cluster)->Ok_0;
    lemma_file_in_range(d, other);
    assert forall|k: int| 0 <= k < t.len() implies !list.to_set().contains(#[trigger] t[k]) by {
        assert(t.contains(t[k]));
        lemma_chain_in_use(d, t, t[k]);
        if list.to_set().contains(t[k]) {
            let j = choose|j: int| 0 <= j < list.len() && list[j] == t[k];
            assert(d.read_fat(list[j]) == Ok::<FatEntry, ErrView>(FatEntry::Free));
        }
    }
    lemma_file_kept(d, d2, other, list.to_set(), list.to_set());
    lemma_chain_kept(d, d2, t, list.to_set(), list.to_set());
    lemma_follow_chain(d2, t, (d.geo.total_clusters + 1) as nat);
}

/// Creating a file leaves every other file as it was: a path that led to a file leads to the
/// same file, with the same contents.
///
/// Left out are other files, and directories on the way to them, that share clusters with
/// the directory of the new file.
pub proof fn law_create_keeps_other_files(
    d: Disk,
    path: Seq<char>,
    data: Seq<u8>,
    now: Stamp,
    other: Seq<char>,
)
    requires
        intact(d),
        d.create_file(path, data, now).1 is Ok,
        linkable(
            d.geo,
            d.free_from(
                FIRST_CLUSTER as int,
                clusters_needed(data.len(), d.geo.cluster_size()) + 1,
            )->Ok_0,
        ),
        clear_way(d, path),
        d.read_path(other) is Ok,
        ({
            let p = d.resolve(parent_of(path))->Ok_0.first_cluster;
            &&& walk_clear(d, FIRST_CLUSTER, parts(other), 0, p)
            &&& disjoint(d.chain(d.resolve(other)->Ok_0.first_cluster)->Ok_0, d.chain(p)->Ok_0)
        }),
    ensures
        d.create_file(path, data, now).0.resolve(other) == d.resolve(other),
        d.create_file(path, data, now).0.read_path(other) == d.read_path(other),
{
    let count = clusters_needed(data.len(), d.geo.cluster_size());
    let list = d.free_from(FIRST_CLUSTER as int, count)->Ok_0;
    let p = d.parent_for(path)->Ok_0.first_cluster;
    let file_size = (data.len() % 0x1_0000_0000) as u32;
    let e = new_entry(name_of(path), FileAttributes::ARCHIVE, list[0], file_size, now);
    let d3 = d.create_file(path, data, now).0;
    let names = parts(other);
    let o = d.resolve(other)->Ok_0;
    let d2 = lemma_create_file_steps(d, path, data, now);
    crate::directory::lemma_free_in_range(d, FIRST_CLUSTER as int, count);
    lemma_way_beside_new_data(d, d2, path, count);
    lemma_walk_beside_new_data(d, d2, list, FIRST_CLUSTER, names, 0, p);
    lemma_file_beside_new_data(d, d2, list, o);
    assert(0x20u8 & 0x3F == 0x20) by (bit_vector);
    lemma_new_entry(name_of(path), FileAttributes::ARCHIVE, list[0], file_size, now);
    lemma_add_entry(d2, p, e);
    lemma_walk_kept(d2, d3, FIRST_CLUSTER, names, 0, p, e);
    lemma_resolve_kept(d2, d3, FIRST_CLUSTER, names, 0);
    lemma_file_beside_added(d2, d3, p, e, o);
}

/// A file whose clusters are not those of the directory keeps its contents when something in
/// the directory is renamed, and so does a file that is itself renamed.
pub proof fn law_rename_keeps_contents(d: Disk, path: Seq<char>, name: Seq<char>, e: DirentView)
    requires
        intact(d),
        name_of(path).len() > 0,
        d.resolve(path) is Ok,
        d.rename(path, name).1 is Ok,
        d.read_file(e) is Ok,
        disjoint(
            d.chain(e.first_cluster)->Ok_0,
            d.chain(d.resolve(parent_of(path))->Ok_0.first_cluster)->Ok_0,
        ),
    ensures
        d.rename(path, name).0.read_file(e) == d.read_file(e),
        d.rename(path, name).0.read_file(renamed(e, name)) == d.read_file(e),
{
    let p = d.resolve(parent_of(path))->Ok_0.first_cluster;
    let s = d.chain(p)->Ok_0;
    let d2 = d.rename(path, name).0;
    let t = d.chain(e.first_cluster)->Ok_0;
    lemma_resolved_in_parent(d, path);
    lemma_rename_in(d, p, name_of(path), name);
    assert forall|k: int| 0 <= k < t.len() implies !s.to_set().contains(#[trigger] t[k]) by {
        if s.to_set().contains(t[k]) {
            let j = choose|j: int| 0 <= j < s.len() && s[j] == t[k];
            assert(t[k] != s[j]);
        }
    }
    lemma_file_kept(d, d2, e, Set::empty(), s.to_set());
    assert(renamed(e, name).is_directory() == e.is_directory());
}

/// Deleting something leaves every file as it was that shares no cluster with it or with its
/// directory.
pub proof fn law_delete_keeps_other_files(d: Disk, path: Seq<char>, e: DirentView)
    requires
        intact(d),
        name_of(path).len() > 0,
        d.delete(path).1 is Ok,
        d.resolve(path)->Ok_0.first_cluster <= d.geo.total_clusters,
        stands_apart(d, path),
        find_entry(
            without_first(
                d.entries(d.resolve(parent_of(path))->Ok_0.first_cluster)->Ok_0,
                name_of(path),
            ),
            name_of(path),
        ) is None,
        d.read_file(e) is Ok,
        ({
            let t = d.chain(e.first_cluster)->Ok_0;
            let p = d.resolve(parent_of(path))->Ok_0.first_cluster;
            &&& disjoint(t, d.chain(p)->Ok_0)
            &&& disjoint(t, d.chain(d.resolve(path)->Ok_0.first_cluster)->Ok_0)
        }),
    ensures
        d.delete(path).0.read_file(e) == d.read_file(e),
{
    let t = d.chain(e.first_cluster)->Ok_0;
    let dir = d.chain(d.resolve(parent_of(path))->Ok_0.first_cluster)->Ok_0;
    let list = d.chain(d.resolve(path)->Ok_0.first_cluster)->Ok_0;
    law_deleted_is_gone(d, path);
    assert forall|k: int| 0 <= k < t.len() implies !list.to_set().contains(#[trigger] t[k])
        && !dir.to_set().contains(t[k]) by {
        if list.to_set().contains(t[k]) {
            let j = choose|j: int| 0 <= j < list.len() && list[j] == t[k];
            assert(t[k] != list[j]);
        }
        if dir.to_set().contains(t[k]) {
            let j = choose|j: int| 0 <= j < dir.len() && dir[j] == t[k];
            assert(t[k] != dir[j]);
        }
    }
    lemma_file_kept(d, d.delete(path).0, e, list.to_set(), dir.to_set());
}

// ---------------------------------------------------------------------------
// Creating directories
// ---------------------------------------------------------------------------

/// What a cluster reads as, its parts read as.
proof fn lemma_part_of_cluster(d: Disk, c: u32, at: int, n: nat)
    requires
        d.read_cluster(c) is Ok,
        0 <= at,
        at + n <= d.geo.cluster_size(),
    ensures
        part(d, c, at, n) == Ok::<Seq<u8>, ErrView>(
            d.read_cluster(c)->Ok_0.subrange(at, at + n),
        ),
{
    let start = (d.geo.base + d.geo.cluster_pos(c)) as int;
    let size = d.geo.cluster_size() as int;
    assert(sector_ceil(start + at + n) <= sector_ceil(start + size));
    assert(start + size <= sector_ceil(start + size));
    assert(d.bytes.subrange(start + at, start + at + n) =~= d.bytes.subrange(
        start,
        start + size,
    ).subrange(at, at + n));
}

/// A cluster full of end markers is an empty directory.
pub proof fn lemma_blank_is_empty(d: Disk, c: u32)
    requires
        d.geo.valid(),
        d.chain(c) == Ok::<Seq<u32>, ErrView>(seq![c]),
        d.read_cluster(c) == Ok::<Seq<u8>, ErrView>(
            blank(d.geo.cluster_size()),
        ),
    ensures
        d.entries(c) == Ok::<Seq<DirentView>, ErrView>(seq![]),
{
    let one = seq![c];
    let n = DIRENT_SIZE as nat;
    lemma_slot_part(d, one, 0, 0, n);
    lemma_part_of_cluster(d, c, 0, n);
    assert(d.slot(one, 0, 0, n)->Ok_0[0] == 0xFF);
}

/// A fresh cluster that has been filled with end markers.
pub proof fn lemma_blank_allocated(d: Disk)
    requires
        intact(d),
        d.allocate_cluster().1 is Ok,
        d.allocate_cluster().0.write_cluster(
            d.allocate_cluster().1->Ok_0,
            blank(d.geo.cluster_size()),
        ) is Ok,
    ensures
        ({
            let list = d.free_from(FIRST_CLUSTER as int, 1)->Ok_0;
            let (d1, got) = d.allocate_cluster();
            let d2 = d1.write_cluster(got->Ok_0, blank(d.geo.cluster_size()))->Ok_0;
            &&& list == seq![got->Ok_0]
            &&& all_in_range(d.geo, list)
            &&& intact(d2)
            &&& touches(d, d2, list.to_set(), list.to_set())
            &&& is_chain(d2, list)
            &&& d2.read_cluster(list[0]) == Ok::<Seq<u8>, ErrView>(blank(d.geo.cluster_size()))
        }),
{
    let size = d.geo.cluster_size();
    let bytes = blank(size);
    let (d1, got) = d.allocate_cluster();
    let fresh = got->Ok_0;
    let d2 = d1.write_cluster(fresh, bytes)->Ok_0;
    let list = d.free_from(FIRST_CLUSTER as int, 1)->Ok_0;
    lemma_allocate_cluster(d);
    crate::directory::lemma_free_in_range(d, FIRST_CLUSTER as int, 1);
    assert(list =~= seq![fresh]);
    assert((d1.geo.cluster_pos(fresh) + 0) as nat == d1.geo.cluster_pos(fresh));
    lemma_write_part(d1, fresh, 0, bytes);
    assert(part(d2, fresh, 0, size) == Ok::<Seq<u8>, ErrView>(bytes.subrange(0, size as int)));
    assert(bytes.subrange(0, size as int) =~= bytes);
    lemma_touches_trans(d, d1, d2, set![fresh], Set::empty(), Set::empty(), set![fresh]);
    assert(list.to_set() =~= set![fresh]) by {
        assert(list.contains(list[0]));
    }
    assert(set![fresh].union(Set::empty()) =~= set![fresh]);
    assert(Set::<u32>::empty().union(set![fresh]) =~= set![fresh]);
    lemma_intact_kept(d, d2);
    assert(d2.read_fat(fresh) == d1.read_fat(fresh));
    assert(linked(d2, list, 0));
}

/// The steps of creating a directory.
pub proof fn lemma_create_directory_steps(d: Disk, path: Seq<char>, now: Stamp) -> (d2: Disk)
    requires
        intact(d),
        d.create_directory(path, now).1 is Ok,
    ensures
        ({
            let list = d.free_from(FIRST_CLUSTER as int, 1)->Ok_0;
            &&& d.parent_for(path) is Ok
            &&& list.len() == 1
            &&& all_in_range(d.geo, list)
            &&& intact(d2)
            &&& touches(d, d2, list.to_set(), list.to_set())
            &&& is_chain(d2, list)
            &&& d2.read_cluster(list[0]) == Ok::<Seq<u8>, ErrView>(
                blank(d.geo.cluster_size()),
            )
            &&& d2.add_entry(
                d.parent_for(path)->Ok_0.first_cluster,
                new_entry(name_of(path), FileAttributes::DIRECTORY, list[0], 0, now),
            ) == (d.create_directory(path, now).0, Ok::<(), ErrView>(()))
        }),
{
    let (d1, got) = d.allocate_cluster();
    let d2 = d1.write_cluster(got->Ok_0, blank(d.geo.cluster_size()))->Ok_0;
    lemma_blank_allocated(d);
    d2
}

/// The last step of creating a directory: its entry is added.
pub proof fn lemma_directory_entered(d: Disk, d2: Disk, path: Seq<char>, e: DirentView, list: Seq<u32>)
    requires
        intact(d),
        d.parent_for(path) is Ok,
        clear_way(d, path),
        next_linkable(d),
        storable(e),
        e.filename() == name_of(path),
        e.first_cluster == list[0],
        list.len() == 1,
        d.add_entry(d.parent_for(path)->Ok_0.first_cluster, e) == (d2, Ok::<(), ErrView>(())),
        is_chain(d, list),
        all_in_range(d.geo, list),
        disjoint(list, d.chain(d.parent_for(path)->Ok_0.first_cluster)->Ok_0),
        d.read_cluster(list[0]) == Ok::<Seq<u8>, ErrView>(
            blank(d.geo.cluster_size()),
        ),
    ensures
        d2.resolve(path) == Ok::<DirentView, ErrView>(e),
        d2.entries(e.first_cluster) == Ok::<Seq<DirentView>, ErrView>(seq![]),
{
    lemma_entered(d, path, e, list);
    assert(list =~= seq![list[0]]);
    lemma_blank_is_empty(d2, list[0]);
}

/// The entry that a directory gets when it is created.
pub proof fn lemma_created_directory_entry(d: Disk, path: Seq<char>, now: Stamp)
    requires
        intact(d),
        d.create_directory(path, now).1 is Ok,
        linkable(d.geo, d.free_from(FIRST_CLUSTER as int, 2)->Ok_0),
        clear_way(d, path),
    ensures
        d.create_directory(path, now).0.resolve(path) == Ok::<DirentView, ErrView>(
            new_entry(
                name_of(path),
                FileAttributes::DIRECTORY,
                d.free_from(FIRST_CLUSTER as int, 1)->Ok_0[0],
                0,
                now,
            ),
        ),
{
    let list = d.free_from(FIRST_CLUSTER as int, 1)->Ok_0;
    let d2 = lemma_create_directory_steps(d, path, now);
    lemma_way_beside_new_data(d, d2, path, 1);
    assert(0x10u8 & 0x3F == 0x10) by (bit_vector);
    assert(0x10u8 & 0x10 == 0x10) by (bit_vector);
    let e = new_entry(name_of(path), FileAttributes::DIRECTORY, list[0], 0, now);
    lemma_new_entry(name_of(path), FileAttributes::DIRECTORY, list[0], 0, now);
    lemma_directory_entered(d2, d.create_directory(path, now).0, path, e, list);
}

/// A directory that has been created is found, is a directory, and is empty.
///
/// Left out are clusters whose numbers cannot be stored as links, and ways that are not
/// clear.
pub proof fn law_created_directory_is_empty(d: Disk, path: Seq<char>, now: Stamp)
    requires
        intact(d),
        d.create_directory(path, now).1 is Ok,
        linkable(d.geo, d.free_from(FIRST_CLUSTER as int, 2)->Ok_0),
        clear_way(d, path),
    ensures
        ({
            let d2 = d.create_directory(path, now).0;
            let e = d2.resolve(path)->Ok_0;
            &&& d2.resolve(path) is Ok
            &&& e.filename() == name_of(path)
            &&& e.is_directory()
            &&& d2.entries(e.first_cluster) == Ok::<Seq<DirentView>, ErrView>(seq![])
        }),
{
    let list = d.free_from(FIRST_CLUSTER as int, 1)->Ok_0;
    let d2 = lemma_create_directory_steps(d, path, now);
    lemma_way_beside_new_data(d, d2, path, 1);
    assert(0x10u8 & 0x3F == 0x10) by (bit_vector);
    assert(0x10u8 & 0x10 == 0x10) by (bit_vector);
    let e = new_entry(name_of(path), FileAttributes::DIRECTORY, list[0], 0, now);
    lemma_new_entry(name_of(path), FileAttributes::DIRECTORY, list[0], 0, now);
    lemma_directory_entered(d2, d.create_directory(path, now).0, path, e, list);
}

// ---------------------------------------------------------------------------
// Failing
// ---------------------------------------------------------------------------

/// The file allocation table means the same on both disks.
pub open spec fn same_table(d: Disk, d2: Disk) -> bool {
    &&& d2.geo == d.geo
    &&& d2.bytes.len() >= d.bytes.len()
    &&& forall|c: u32| c <= d.geo.total_clusters ==> #[trigger] d2.read_fat(c) == d.read_fat(c)
}

proof fn lemma_untouched_table(d: Disk, d2: Disk, data: Set<u32>)
    requires
        intact(d),
        touches(d, d2, Set::empty(), data),
    ensures
        same_table(d, d2),
{
    assert forall|c: u32| c <= d.geo.total_clusters implies #[trigger] d2.read_fat(c)
        == d.read_fat(c) by {
        assert(d.read_fat(c) is Ok);
    }
}

/// Filling a slot changes no entry of the table, and no other cluster, whether it succeeds or
/// not.
proof fn lemma_fill_slot_table(d: Disk, c: u32, j: int, at_end: bool, e: DirentView)
    requires
        intact(d),
        d.geo.in_range(c),
        0 <= j < d.geo.slots(),
        storable(e),
    ensures
        same_table(d, d.fill_slot(c, j, at_end, e).0),
        touches(d, d.fill_slot(c, j, at_end, e).0, Set::empty(), set![c]),
{
    let raw = dirent_bytes(d.geo.big_endian, e);
    law_dirent_roundtrip(d.geo.big_endian, e);
    let pos = (d.geo.cluster_pos(c) + j * DIRENT_SIZE) as nat;
    let one = seq![c];
    lemma_slot_part(d, one, 0, j, DIRENT_SIZE as nat);
    if let Ok(d1) = d.write(pos, raw) {
        lemma_write_part(d, c, j * DIRENT_SIZE, raw);
        lemma_untouched_table(d, d1, set![c]);
        lemma_intact_kept(d, d1);
        if at_end && j + 1 < d.geo.slots() {
            let end = seq![DIRENT_END];
            lemma_slot_part(d1, one, 0, j + 1, DIRENT_SIZE as nat);
            assert((d1.geo.cluster_pos(c) + (j + 1) * DIRENT_SIZE) as nat == pos
                + DIRENT_SIZE as nat);
            if let Ok(d2) = d1.write(pos + DIRENT_SIZE as nat, end) {
                lemma_write_part(d1, c, (j + 1) * DIRENT_SIZE, end);
                lemma_untouched_table(d1, d2, set![c]);
                lemma_touches_trans(d, d1, d2, Set::empty(), set![c], Set::empty(), set![c]);
                assert(set![c].union(set![c]) =~= set![c]);
                assert(Set::<u32>::empty().union(Set::empty()) =~= Set::<u32>::empty());
            }
        }
    }
}

/// The whole of the vacant slot of a directory that can be listed can be read.
proof fn lemma_vacant_readable(d: Disk, chain: Seq<u32>, i: int, j: int)
    requires
        0 <= i,
        0 <= j,
        d.entries_from(chain, i, j) is Ok,
    ensures
        d.vacant_slot(chain, i, j) matches Ok(Some((p, q))) ==> d.slot(
            chain,
            p,
            q,
            DIRENT_SIZE as nat,
        ) is Ok,
    decreases chain.len() - i, d.geo.slots() - j,
{
    if i < chain.len() {
        if j >= d.geo.slots() {
            lemma_vacant_readable(d, chain, i + 1, 0);
        } else {
            lemma_slot_marker(d, chain, i, j);
            let m = d.slot(chain, i, j, 1)->Ok_0[0];
            if !is_end_marker(m) && m != DIRENT_DELETED {
                lemma_vacant_readable(d, chain, i, j + 1);
            }
        }
    }
}

/// A vacant slot can be filled if it and what lies behind it can be read.
proof fn lemma_fill_slot_succeeds(d: Disk, chain: Seq<u32>, p: int, q: int, e: DirentView)
    requires
        d.geo.valid(),
        storable(e),
        d.entries_from(chain, 0, 0) is Ok,
        behind_end_readable(d, chain),
        d.vacant_slot(chain, 0, 0) == Ok::<Option<(int, int)>, ErrView>(Some((p, q))),
    ensures
        d.fill_slot(chain[p], q, d.slot(chain, p, q, 1)->Ok_0[0] != DIRENT_DELETED, e).1 is Ok,
{
    let n = DIRENT_SIZE as nat;
    let raw = dirent_bytes(d.geo.big_endian, e);
    law_dirent_roundtrip(d.geo.big_endian, e);
    lemma_vacant(d, chain, 0, 0);
    lemma_vacant_readable(d, chain, 0, 0);
    lemma_slot_part(d, chain, p, q, n);
    let pos = (d.geo.cluster_pos(chain[p]) + q * DIRENT_SIZE) as nat;
    assert(d.readable(pos, n));
    if q + 1 < d.geo.slots() && d.slot(chain, p, q, 1)->Ok_0[0] != DIRENT_DELETED {
        lemma_slot_marker(d, chain, p, q + 1);
        assert(d.readable(pos + n, 1));
        let d1 = d.write(pos, raw)->Ok_0;
        assert(d1.bytes.len() >= d.bytes.len());
        assert(d1.readable(pos + n, 1));
    }
}

/// The clusters that an attempt to add an entry to the directory at `c` may have written to
/// when it fails: free ones, and those of the directory unless what lies behind its end can be
/// read.
pub open spec fn scratch(d: Disk, c: u32) -> Set<u32> {
    if d.entries(c) is Ok && behind_end_readable(d, d.chain(c)->Ok_0) {
        free_set(d)
    } else {
        free_set(d).union(d.chain(c)->Ok_0.to_set())
    }
}

/// A directory without a vacant slot consists of clusters of the volume.
proof fn lemma_full_in_range(d: Disk, chain: Seq<u32>, i: int)
    requires
        d.geo.valid(),
        0 <= i,
        d.vacant_slot(chain, i, 0) is Ok,
        d.vacant_slot(chain, i, 0)->Ok_0 is None,
    ensures
        forall|k: int| i <= k < chain.len() ==> d.geo.in_range(#[trigger] chain[k]),
    decreases chain.len() - i,
{
    if i < chain.len() {
        lemma_full_cluster(d, chain, i, 0);
        lemma_full_in_range(d, chain, i + 1);
    }
}

proof fn lemma_full_cluster(d: Disk, chain: Seq<u32>, i: int, j: int)
    requires
        d.geo.valid(),
        0 <= i < chain.len(),
        0 <= j <= d.geo.slots(),
        d.vacant_slot(chain, i, j) is Ok,
        d.vacant_slot(chain, i, j)->Ok_0 is None,
    ensures
        d.vacant_slot(chain, i + 1, 0) == d.vacant_slot(chain, i, j),
        j < d.geo.slots() ==> d.geo.in_range(chain[i]),
    decreases d.geo.slots() - j,
{
    if j < d.geo.slots() {
        lemma_full_cluster(d, chain, i, j + 1);
    }
}

/// Adding an entry that fails leaves the file allocation table as it was: a directory that
/// was made longer for it has its old end back. Nothing has changed but free clusters, and the
/// directory if it ends where the device does.
pub proof fn law_failed_expansion_rolls_back(d: Disk, c: u32, e: DirentView)
    requires
        intact(d),
        storable(e),
        d.add_entry(c, e).1 is Err,
    ensures
        same_table(d, d.add_entry(c, e).0),
        touches(d, d.add_entry(c, e).0, Set::empty(), scratch(d, c)),
{
    lemma_touches_widen(d, d, Set::empty(), Set::empty(), Set::empty(), scratch(d, c));
    if let Ok(chain) = d.chain(c) {
        lemma_followed_chain(d, c, (d.geo.total_clusters + 1) as nat);
        match d.vacant_slot(chain, 0, 0) {
            Err(_) => {},
            Ok(Some((i, j))) => {
                lemma_vacant(d, chain, 0, 0);
                lemma_fill_slot_table(
                    d,
                    chain[i],
                    j,
                    d.slot(chain, i, j, 1)->Ok_0[0] != DIRENT_DELETED,
                    e,
                );
                if d.entries(c) is Ok && behind_end_readable(d, chain) {
                    lemma_fill_slot_succeeds(d, chain, i, j, e);
                } else {
                    assert(chain.to_set().contains(chain[i]));
                    lemma_touches_widen(
                        d,
                        d.add_entry(c, e).0,
                        Set::empty(),
                        set![chain[i]],
                        Set::empty(),
                        scratch(d, c),
                    );
                }
            },
            Ok(None) => {
                lemma_full_in_range(d, chain, 0);
                lemma_failed_expansion(d, chain, e);
                lemma_touches_widen(
                    d,
                    d.add_entry(c, e).0,
                    Set::empty(),
                    free_set(d),
                    Set::empty(),
                    scratch(d, c),
                );
            },
        }
    }
}

/// The entries of the table for two clusters are written.
proof fn lemma_two_written(d: Disk, a: u32, x: FatEntry, b: u32, y: FatEntry) -> (d2: Disk)
    requires
        intact(d),
        a != b,
        a <= d.geo.total_clusters,
        b <= d.geo.total_clusters,
    ensures
        intact(d2),
        d2 == d.try_write_fat(a, x).try_write_fat(b, y),
        d.write_fat(a, x) is Ok,
        d.try_write_fat(a, x).write_fat(b, y) is Ok,
        touches(d, d2, set![a, b], Set::empty()),
        encodable(d.geo.fat_type, x) ==> d2.read_fat(a) == Ok::<FatEntry, ErrView>(x),
        encodable(d.geo.fat_type, y) ==> d2.read_fat(b) == Ok::<FatEntry, ErrView>(y),
{
    assert(d.read_fat(a) is Ok);
    lemma_fat_writable(d, a, x);
    lemma_write_fat(d, a, x);
    let d1 = d.write_fat(a, x)->Ok_0;
    lemma_intact_kept(d, d1);
    assert(d1.read_fat(b) is Ok);
    lemma_fat_writable(d1, b, y);
    lemma_write_fat(d1, b, y);
    let d2 = d1.write_fat(b, y)->Ok_0;
    lemma_intact_kept(d1, d2);
    lemma_touches_trans(d, d1, d2, set![a], Set::empty(), set![b], Set::empty());
    assert(set![a].union(set![b]) =~= set![a, b]);
    assert(Set::<u32>::empty().union(Set::empty()) =~= Set::<u32>::empty());
    d2
}

/// Where two entries of the table and the contents of a free cluster have been touched, and the
/// entries are what they were in the end, only the contents have changed.
proof fn lemma_only_scratch(d: Disk, d2: Disk, d4: Disk, d6: Disk, last: u32, fresh: u32)
    requires
        intact(d),
        free_set(d).contains(fresh),
        d.read_fat(last) == Ok::<FatEntry, ErrView>(FatEntry::EndOfChain),
        touches(d, d2, set![fresh, last], Set::empty()),
        touches(d2, d4, Set::empty(), set![fresh]),
        touches(d4, d6, set![last, fresh], Set::empty()),
        d6.read_fat(last) == Ok::<FatEntry, ErrView>(FatEntry::EndOfChain),
        d6.read_fat(fresh) == Ok::<FatEntry, ErrView>(FatEntry::Free),
    ensures
        same_table(d, d6),
        touches(d, d6, Set::empty(), free_set(d)),
{
    let f = set![fresh, last];
    let c = set![fresh];
    assert(set![last, fresh] =~= f);
    lemma_touches_trans(d, d2, d4, f, Set::empty(), Set::empty(), c);
    lemma_touches_trans(
        d,
        d4,
        d6,
        f.union(Set::empty()),
        Set::<u32>::empty().union(c),
        f,
        Set::empty(),
    );
    lemma_touches_widen(
        d,
        d6,
        f.union(Set::empty()).union(f),
        Set::<u32>::empty().union(c).union(Set::empty()),
        f,
        free_set(d),
    );
    assert forall|x: u32| x <= d.geo.total_clusters implies #[trigger] d6.read_fat(x) == d.read_fat(
        x,
    ) by {
        assert(d.read_fat(x) is Ok);
    }
}

/// Filling a new cluster changes no entry of the table, and no other cluster, whether it
/// succeeds or not.
proof fn lemma_new_cluster(d: Disk, d2: Disk, fresh: u32, e: DirentView)
    requires
        intact(d),
        d.geo.in_range(fresh),
        storable(e),
        d2 == (match d.write_cluster(fresh, blank(d.geo.cluster_size())) {
            Ok(d1) => d1.fill_slot(fresh, 0, true, e).0,
            Err(_) => d,
        }),
    ensures
        same_table(d, d2),
        touches(d, d2, Set::empty(), set![fresh]),
{
    let bytes = blank(d.geo.cluster_size());
    assert((d.geo.cluster_pos(fresh) + 0) as nat == d.geo.cluster_pos(fresh));
    if let Ok(d1) = d.write_cluster(fresh, bytes) {
        lemma_write_part(d, fresh, 0, bytes);
        lemma_untouched_table(d, d1, set![fresh]);
        lemma_intact_kept(d, d1);
        lemma_fill_slot_table(d1, fresh, 0, true, e);
        lemma_touches_trans(d, d1, d2, Set::empty(), set![fresh], Set::empty(), set![fresh]);
        assert(set![fresh].union(set![fresh]) =~= set![fresh]);
        assert(Set::<u32>::empty().union(Set::empty()) =~= Set::<u32>::empty());
    } else {
        lemma_touches_widen(d, d, Set::empty(), Set::empty(), Set::empty(), set![fresh]);
    }
}

proof fn lemma_failed_expansion(d: Disk, chain: Seq<u32>, e: DirentView)
    requires
        intact(d),
        storable(e),
        is_chain(d, chain),
        all_in_range(d.geo, chain),
        d.expand_directory(chain, e).1 is Err,
    ensures
        same_table(d, d.expand_directory(chain, e).0),
        touches(d, d.expand_directory(chain, e).0, Set::empty(), free_set(d)),
{
    let last = chain.last();
    assert(linked(d, chain, chain.len() - 1));
    assert(d.geo.in_range(last));
    if let (d1, Ok(fresh)) = d.allocate_cluster() {
        lemma_free_in_range(d, FIRST_CLUSTER as int, 1);
        assert(d.free_from(FIRST_CLUSTER as int, 1)->Ok_0[0] == fresh);
        assert(fresh != last);
        let d2 = lemma_two_written(
            d,
            fresh,
            FatEntry::EndOfChain,
            last,
            FatEntry::Next(fresh),
        );
        let d4 = d1.fill_new_cluster(last, fresh, e).0;
        assert(d1 == d.try_write_fat(fresh, FatEntry::EndOfChain));
        assert(d2 == d1.write_fat(last, FatEntry::Next(fresh))->Ok_0);
        lemma_new_cluster(d2, d4, fresh, e);
        lemma_intact_kept(d2, d4);
        let d6 = lemma_two_written(d4, last, FatEntry::EndOfChain, fresh, FatEntry::Free);
        lemma_only_scratch(d, d2, d4, d6, last, fresh);
    } else {
        lemma_touches_widen(d, d, Set::empty(), Set::empty(), Set::empty(), free_set(d));
    }
}

/// The directory at `c` shares no cluster with the one at `p`, or what lies behind the end of
/// that one can be read.
pub open spec fn undisturbed(d: Disk, c: u32, p: u32) -> bool {
    behind_end_readable(d, d.chain(p)->Ok_0) || disjoint(d.chain(c)->Ok_0, d.chain(p)->Ok_0)
}

/// A directory that shares no cluster with the scratch of an attempt is listed as before.
proof fn lemma_listing_beside_scratch(d: Disk, d2: Disk, c: u32, p: u32)
    requires
        intact(d),
        d.entries(p) is Ok,
        touches(d, d2, Set::empty(), scratch(d, p)),
        d.entries(c) is Ok,
        undisturbed(d, c, p),
    ensures
        d2.entries(c) == d.entries(c),
{
    let t = d.chain(c)->Ok_0;
    let s = d.chain(p)->Ok_0;
    lemma_listing_in_range(d, c);
    assert forall|k: int| 0 <= k < t.len() implies !Set::<u32>::empty().contains(#[trigger] t[k])
        && !scratch(d, p).contains(t[k]) by {
        assert(t.contains(t[k]));
        lemma_chain_in_use(d, t, t[k]);
        if s.to_set().contains(t[k]) && !behind_end_readable(d, s) {
            let j = choose|j: int| 0 <= j < s.len() && s[j] == t[k];
            assert(t[k] != s[j]);
        }
    }
    lemma_listing_kept(d, d2, c, Set::empty(), scratch(d, p));
}

/// A cluster taken, written and given back is scratch, as is what the attempt in between used.
proof fn lemma_directory_scratch(d: Disk, d1: Disk, d3: Disk, d4: Disk, fresh: u32, p: u32, zone: Set<u32>)
    requires
        free_set(d).contains(fresh),
        touches(d, d1, set![fresh], Set::empty()),
        touches(d1, d3, Set::empty(), zone),
        touches(d3, d4, set![fresh], Set::empty()),
        same_table(d, d4),
        zone.subset_of(scratch(d, p)),
    ensures
        touches(d, d4, Set::empty(), scratch(d, p)),
{
    let f = set![fresh];
    let c = scratch(d, p);
    let none = Set::<u32>::empty();
    lemma_touches_widen(d, d1, f, none, f, c);
    lemma_touches_widen(d1, d3, none, zone, f, c);
    lemma_touches_widen(d3, d4, f, none, f, c);
    assert(f.union(f) =~= f);
    assert(c.union(c) =~= c);
    lemma_touches_trans(d, d1, d3, f, c, f, c);
    lemma_touches_trans(d, d3, d4, f, c, f, c);
}

/// The scratch of an attempt to enter something, its cluster taken before, is that of an
/// attempt before.
proof fn lemma_scratch_kept(d: Disk, d2: Disk, fresh: u32, p: u32)
    requires
        intact(d),
        d.entries(p) is Ok,
        free_set(d).contains(fresh),
        touches(d, d2, set![fresh], set![fresh]),
        d2.read_fat(fresh) is Ok,
        d2.read_fat(fresh)->Ok_0 != FatEntry::Free,
    ensures
        scratch(d2, p).subset_of(scratch(d, p)),
{
    let list = seq![fresh];
    assert(list.to_set() =~= set![fresh]) by {
        assert(list[0] == fresh);
    }
    lemma_listing_beside_new_data(d, d2, p, list);
    lemma_listing_in_range(d, p);
    let s = d.chain(p)->Ok_0;
    if behind_end_readable(d, s) {
        lemma_behind_end_kept(d, d2, s, list.to_set(), list.to_set());
    }
    assert forall|c: u32| free_set(d2).contains(c) implies free_set(d).contains(c) by {
        assert(d.read_fat(c) is Ok);
        if c != fresh {
            assert(d2.read_fat(c) == d.read_fat(c));
        }
    }
}

/// An attempt to enter a directory that fails leaves the table as it was, and has written to
/// scratch only.
proof fn lemma_failed_entering(
    d: Disk,
    d1: Disk,
    d3: Disk,
    p: u32,
    name: Seq<char>,
    fresh: u32,
    now: Stamp,
) -> (zone: Set<u32>)
    requires
        intact(d),
        intact(d1),
        d.entries(p) is Ok,
        validate_name(name) is Ok,
        free_set(d).contains(fresh),
        touches(d, d1, set![fresh], Set::empty()),
        d1.read_fat(fresh) == Ok::<FatEntry, ErrView>(FatEntry::EndOfChain),
        d3 == d1.enter_directory(p, name, fresh, now).0,
        d1.enter_directory(p, name, fresh, now).1 is Err,
    ensures
        same_table(d1, d3),
        touches(d1, d3, Set::empty(), zone),
        zone.subset_of(scratch(d, p)),
{
    let bytes = blank(d.geo.cluster_size());
    assert((d1.geo.cluster_pos(fresh) + 0) as nat == d1.geo.cluster_pos(fresh));
    if let Ok(d2) = d1.write_cluster(fresh, bytes) {
        lemma_write_part(d1, fresh, 0, bytes);
        lemma_untouched_table(d1, d2, set![fresh]);
        lemma_intact_kept(d1, d2);
        assert(0x10u8 & 0x3F == 0x10) by (bit_vector);
        let e = new_entry(name, FileAttributes::DIRECTORY, fresh, 0, now);
        lemma_new_entry(name, FileAttributes::DIRECTORY, fresh, 0, now);
        law_failed_expansion_rolls_back(d2, p, e);
        lemma_touches_trans(d1, d2, d3, Set::empty(), set![fresh], Set::empty(), scratch(d2, p));
        lemma_touches_trans(d, d1, d2, set![fresh], Set::empty(), Set::empty(), set![fresh]);
        assert(Set::<u32>::empty().union(Set::empty()) =~= Set::<u32>::empty());
        assert(Set::<u32>::empty().union(set![fresh]) =~= set![fresh]);
        assert(set![fresh].union(Set::<u32>::empty()) =~= set![fresh]);
        assert(d2.read_fat(fresh) == d1.read_fat(fresh));
        lemma_scratch_kept(d, d2, fresh, p);
        set![fresh].union(scratch(d2, p))
    } else {
        Set::empty()
    }
}

/// Creating a directory that fails leaves the table as it was, and has written to scratch only.
pub proof fn lemma_failed_directory(d: Disk, path: Seq<char>, now: Stamp)
    requires
        intact(d),
        d.create_directory(path, now).1 is Err,
    ensures
        same_table(d, d.create_directory(path, now).0),
        ({
            let d2 = d.create_directory(path, now).0;
            let p = d.parent_for(path)->Ok_0.first_cluster;
            d2 == d || d.entries(p) is Ok && touches(d, d2, Set::empty(), scratch(d, p))
        }),
{
    let p = d.parent_for(path)->Ok_0.first_cluster;
    let name = name_of(path);
    if d.parent_for(path) is Ok && d.entries(p) is Ok && find_entry(d.entries(p)->Ok_0, name) is None
        && d.allocate_cluster().1 is Ok {
        let (d1, got) = d.allocate_cluster();
        let fresh = got->Ok_0;
        lemma_allocate_cluster(d);
        lemma_intact_kept(d, d1);
        let (d3, r) = d1.enter_directory(p, name, fresh, now);
        let zone = lemma_failed_entering(d, d1, d3, p, name, fresh, now);
        lemma_intact_kept(d1, d3);
        assert(d3.read_fat(fresh) is Ok);
        lemma_fat_writable(d3, fresh, FatEntry::Free);
        lemma_write_fat(d3, fresh, FatEntry::Free);
        let d4 = d3.try_write_fat(fresh, FatEntry::Free);
        assert forall|c: u32| c <= d.geo.total_clusters implies #[trigger] d4.read_fat(c)
            == d.read_fat(c) by {
            assert(d.read_fat(c) is Ok);
            if c != fresh {
                assert(d4.read_fat(c) == d3.read_fat(c));
                assert(d3.read_fat(c) == d1.read_fat(c));
            }
        }
        lemma_directory_scratch(d, d1, d3, d4, fresh, p, zone);
    }
}

/// Creating a directory that fails leaves the file allocation table as it was: the cluster
/// taken for it is free again. Every directory is listed as before.
///
/// Left out of the latter is the directory that it was to go into, and those that share
/// clusters with it, where the device ends right behind the end of that directory: there the
/// new entry can be written but not the end behind it.
pub proof fn law_failed_directory_rolls_back(d: Disk, path: Seq<char>, now: Stamp)
    requires
        intact(d),
        d.create_directory(path, now).1 is Err,
    ensures
        same_table(d, d.create_directory(path, now).0),
        forall|c: u32|
            d.entries(c) is Ok && undisturbed(d, c, d.parent_for(path)->Ok_0.first_cluster)
                ==> #[trigger] d.create_directory(path, now).0.entries(c) == d.entries(c),
{
    let d2 = d.create_directory(path, now).0;
    let p = d.parent_for(path)->Ok_0.first_cluster;
    lemma_failed_directory(d, path, now);
    assert forall|c: u32| d.entries(c) is Ok && undisturbed(d, c, p) implies #[trigger] d2.entries(c)
        == d.entries(c) by {
        if d2 != d {
            lemma_listing_beside_scratch(d, d2, c, p);
        }
    }
}

} // verus!
