//! Creating files and directories on a sound volume: what is created is found, nothing else
//! changes, and the volume stays sound.

use vstd::prelude::*;
use crate::directory::lemma_free_in_range;
use crate::disk::{clusters_needed, find_entry, new_entry, Disk, Stamp};
use crate::error::ErrView;
use crate::laws::chain_facts::{all_in_range, disjoint, is_chain, lemma_chain_kept, linkable};
use crate::laws::creation::{
    clear_way, intact, law_created_file_reads_back, lemma_create_file_steps, lemma_entered,
    lemma_intact_kept, lemma_listing_beside_new_data, lemma_new_entry, lemma_resolve_kept,
    lemma_resolve_path, lemma_size_fits, lemma_walk_beside_new_data, lemma_walk_kept,
    lemma_way_beside_new_data,
};
use crate::laws::dir_facts::{lemma_add_entry, lemma_listing_kept, storable};
use crate::laws::frame::touches;
use crate::laws::keeping::{
    law_create_keeps_other_files, law_created_directory_is_empty, lemma_blank_is_empty,
    lemma_create_directory_steps, lemma_file_beside_added, lemma_file_beside_new_data,
    lemma_file_kept,
};
use crate::laws::removal::{lemma_resolved_in_parent, walk_apart};
use crate::laws::rewriting::{law_patched_head_reads_back, lemma_write_cluster};
use crate::laws::soundness::{
    all_linkable, directory_sound, ends_last, enterable, grown, has_got, leads_into,
    lemma_apart_untouched,
    lemma_directory_kept, lemma_directory_readable, lemma_follow_list,
    lemma_found_leads, lemma_free_beside, lemma_layout_chain, lemma_next_linkable, lemma_placed,
    lemma_sound_beside_new_data, lemma_sound_entered, lemma_sound_walk, placed, placed_data,
    on_device, placed_fats, sound, Layout,
};
use crate::path::{name_of, parent_of, parts};
use crate::text::same_name;
use crate::types::{DirentView, FatEntry, FileAttributes, FIRST_CLUSTER};

verus! {

/// The layout has all that `l` has.
pub open spec fn extends_layout(l2: Layout, l: Layout) -> bool {
    &&& forall|h: u32| #[trigger] l.chains.dom().contains(h) ==> l2.chains.dom().contains(h)
    &&& forall|h: u32| #[trigger] l.dirs.contains(h) ==> l2.dirs.contains(h)
}

/// Every path leads where it led, and no directory has got a name but `name` in the one at
/// `p`.
pub open spec fn only_added(d: Disk, d2: Disk, l: Layout, p: u32, name: Seq<char>) -> bool {
    &&& forall|other: Seq<char>|
        d.resolve(other) is Ok ==> #[trigger] d2.resolve(other) == d.resolve(other)
    &&& forall|h: u32, other: Seq<char>|
        #![trigger find_entry(d2.entries(h)->Ok_0, other)]
        l.dirs.contains(h) && find_entry(d.entries(h)->Ok_0, other) is None && !(h == p && same_name(
            name,
            other,
        )) ==> find_entry(d2.entries(h)->Ok_0, other) is None
}

/// No entry but `e` leads to its chain.
pub open spec fn sole_new(d: Disk, l: Layout, e: DirentView) -> bool {
    forall|g: u32, k: int|
        #![trigger l.dirs.contains(g), d.entries(g)->Ok_0[k]]
        l.dirs.contains(g) && 0 <= k < d.entries(g)->Ok_0.len()
            && d.entries(g)->Ok_0[k].first_cluster == e.first_cluster ==> d.entries(g)->Ok_0[k] == e
}

/// The only chain that `l2` has and `l` has not starts at `h`.
pub open spec fn one_chain_more(l2: Layout, l: Layout, h: u32) -> bool {
    forall|g: u32| #[trigger]
        l2.chains.dom().contains(g) ==> l.chains.dom().contains(g) || g == h
}

/// The directory at `p` has got the entry `e` under `name`, every other directory is listed as
/// before, and there is no new directory but the one that the entry leads to, if it is one.
pub open spec fn listed_anew(
    d: Disk,
    d2: Disk,
    l: Layout,
    l2: Layout,
    p: u32,
    name: Seq<char>,
    e: DirentView,
) -> bool {
    &&& e.filename() == name
    &&& d2.entries(p) is Ok
    &&& has_got(d.entries(p)->Ok_0, d2.entries(p)->Ok_0, e)
    &&& forall|h: u32| #[trigger] l.dirs.contains(h) && h != p ==> d2.entries(h) == d.entries(h)
    &&& l2.dirs == (if e.is_directory() {
        l.dirs.insert(e.first_cluster)
    } else {
        l.dirs
    })
}

/// The directory that a path leads to is one of the layout.
pub proof fn lemma_sound_directory(d: Disk, l: Layout, path: Seq<char>)
    requires
        sound(d, l),
        d.resolve(path) is Ok,
        d.resolve(path)->Ok_0.is_directory(),
    ensures
        l.dirs.contains(d.resolve(path)->Ok_0.first_cluster),
{
    lemma_sound_walk(d, l, FIRST_CLUSTER, parts(path), 0, FIRST_CLUSTER);
}

/// What a path leads to leads into the layout, unless it is the root directory.
pub proof fn lemma_sound_target(d: Disk, l: Layout, path: Seq<char>)
    requires
        sound(d, l),
        d.resolve(path) is Ok,
        !d.resolve(path)->Ok_0.is_directory(),
    ensures
        leads_into(l, d.resolve(path)->Ok_0),
{
    lemma_sound_walk(d, l, FIRST_CLUSTER, parts(path), 0, FIRST_CLUSTER);
    assert(0x10u8 & 0x10 == 0x10) by (bit_vector);
}

/// On a sound volume the way to a new name is clear.
pub proof fn lemma_sound_way(d: Disk, l: Layout, path: Seq<char>)
    requires
        sound(d, l),
        d.parent_for(path) is Ok,
        !(d.resolve(path) is Ok),
        name_of(path).len() > 0,
    ensures
        l.dirs.contains(d.parent_for(path)->Ok_0.first_cluster),
        clear_way(d, path),
{
    let p = d.parent_for(path)->Ok_0.first_cluster;
    lemma_sound_directory(d, l, parent_of(path));
    lemma_sound_walk(d, l, FIRST_CLUSTER, parts(parent_of(path)), 0, p);
    lemma_directory_readable(d, l, p);
    lemma_resolve_path(d, path);
}

/// The numbers of free clusters can be stored as links.
pub proof fn lemma_free_linkable(d: Disk, count: nat)
    requires
        all_linkable(d),
        d.free_from(FIRST_CLUSTER as int, count) is Ok,
    ensures
        linkable(d.geo, d.free_from(FIRST_CLUSTER as int, count)->Ok_0),
{
    lemma_free_in_range(d, FIRST_CLUSTER as int, count);
}

/// Finding any number of free clusters succeeds where the table can be read.
pub proof fn lemma_free_readable(d: Disk, c: int, count: nat)
    requires
        intact(d),
        0 <= c,
    ensures
        d.free_from(c, count) is Ok,
    decreases d.geo.total_clusters + 1 - c,
{
    if count > 0 && c <= d.geo.total_clusters {
        assert(d.read_fat(c as u32) is Ok);
        lemma_free_readable(d, c + 1, count);
        lemma_free_readable(d, c + 1, (count - 1) as nat);
    }
}

/// A path leads where it led once something has been entered under a new name.
proof fn lemma_other_path_kept(
    d: Disk,
    dm: Disk,
    d2: Disk,
    l: Layout,
    p: u32,
    e: DirentView,
    list: Seq<u32>,
    other: Seq<char>,
)
    requires
        sound(d, l),
        sound(dm, l),
        l.dirs.contains(p),
        touches(d, dm, list.to_set(), list.to_set()),
        forall|k: int|
            0 <= k < list.len() ==> d.read_fat(#[trigger] list[k]) == Ok::<FatEntry, ErrView>(
                FatEntry::Free,
            ),
        storable(e),
        d2 == dm.add_entry(p, e).0,
        dm.add_entry(p, e).1 is Ok,
        find_entry(dm.entries(p)->Ok_0, e.filename()) is None,
        d.resolve(other) is Ok,
    ensures
        d2.resolve(other) == d.resolve(other),
{
    let names = parts(other);
    lemma_directory_readable(d, l, p);
    lemma_directory_readable(dm, l, p);
    lemma_sound_walk(d, l, FIRST_CLUSTER, names, 0, p);
    lemma_walk_beside_new_data(d, dm, list, FIRST_CLUSTER, names, 0, p);
    lemma_next_linkable(dm);
    lemma_add_entry(dm, p, e);
    lemma_walk_kept(dm, d2, FIRST_CLUSTER, names, 0, p, e);
    lemma_resolve_kept(dm, d2, FIRST_CLUSTER, names, 0);
}

pub proof fn lemma_absent(entries: Seq<DirentView>, name: Seq<char>)
    requires
        forall|k: int|
            0 <= k < entries.len() ==> !same_name((#[trigger] entries[k]).filename(), name),
    ensures
        find_entry(entries, name) is None,
    decreases entries.len(),
{
    if entries.len() > 0 {
        let rest = entries.drop_first();
        assert forall|k: int| 0 <= k < rest.len() implies !same_name(
            (#[trigger] rest[k]).filename(),
            name,
        ) by {
            assert(rest[k] == entries[k + 1]);
        }
        assert(!same_name(entries[0].filename(), name));
        lemma_absent(rest, name);
    }
}

pub proof fn lemma_absent_all(entries: Seq<DirentView>, name: Seq<char>, k: int)
    requires
        find_entry(entries, name) is None,
        0 <= k < entries.len(),
    ensures
        !same_name(entries[k].filename(), name),
    decreases entries.len(),
{
    if k > 0 {
        assert(entries.drop_first()[k - 1] == entries[k]);
        lemma_absent_all(entries.drop_first(), name, k - 1);
    }
}

/// No other name is found in a directory that something has been placed in.
proof fn lemma_only_name_added(d: Disk, d2: Disk, p: u32, e: DirentView, s2: Seq<u32>, name: Seq<char>)
    requires
        placed(d, d2, p, e, s2),
        find_entry(d.entries(p)->Ok_0, name) is None,
        !same_name(e.filename(), name),
    ensures
        find_entry(d2.entries(p)->Ok_0, name) is None,
{
    let before = d.entries(p)->Ok_0;
    let after = d2.entries(p)->Ok_0;
    assert forall|k: int| 0 <= k < after.len() implies !same_name(
        (#[trigger] after[k]).filename(),
        name,
    ) by {
        if after[k] != e {
            assert(before.contains(after[k]));
            let m = choose|m: int| 0 <= m < before.len() && before[m] == after[k];
            lemma_absent_all(before, name, m);
        }
    }
    lemma_absent(after, name);
}

/// Entering something new on a sound volume, its chain made of clusters that were free.
proof fn lemma_entered_soundly(
    d: Disk,
    dm: Disk,
    d2: Disk,
    l: Layout,
    path: Seq<char>,
    e: DirentView,
    list: Seq<u32>,
) -> (l2: Layout)
    requires
        sound(d, l),
        d.parent_for(path) is Ok,
        !(d.resolve(path) is Ok),
        name_of(path).len() > 0,
        intact(dm),
        touches(d, dm, list.to_set(), list.to_set()),
        forall|k: int|
            0 <= k < list.len() ==> d.read_fat(#[trigger] list[k]) == Ok::<FatEntry, ErrView>(
                FatEntry::Free,
            ),
        is_chain(dm, list),
        all_in_range(d.geo, list),
        storable(e),
        e.filename() == name_of(path),
        e.first_cluster == list[0],
        e.is_directory() ==> list.len() == 1 && on_device(dm, list) && dm.entries(list[0]) == Ok::<
            Seq<DirentView>,
            ErrView,
        >(seq![]),
        dm.add_entry(d.parent_for(path)->Ok_0.first_cluster, e) == (d2, Ok::<(), ErrView>(())),
    ensures
        sound(d2, l2),
        d2.geo == d.geo,
        extends_layout(l2, l),
        l2.chains.dom().contains(list[0]),
        !l.chains.dom().contains(list[0]),
        e.is_directory() ==> l2.dirs.contains(list[0]),
        one_chain_more(l2, l, list[0]),
        sole_new(d2, l2, e),
        only_added(d, d2, l, d.parent_for(path)->Ok_0.first_cluster, name_of(path)),
        listed_anew(d, d2, l, l2, d.parent_for(path)->Ok_0.first_cluster, name_of(path), e),
{
    let p = d.parent_for(path)->Ok_0.first_cluster;
    lemma_sound_way(d, l, path);
    lemma_sound_beside_new_data(d, dm, l, list);
    lemma_directory_readable(d, l, p);
    lemma_directory_readable(dm, l, p);
    let s2 = lemma_placed(dm, p, e);
    assert forall|h: u32|
        #![trigger l.chains[h]]
        l.chains.dom().contains(h) implies disjoint(list, l.chains[h])
        && disjoint(l.chains[h], list) by {
        lemma_free_beside(d, l, list, h);
    }
    assert(enterable(dm, l, e, list));
    lemma_intact_kept(dm, d2);
    lemma_sound_entered(dm, d2, l, p, e, list, s2);
    let l2 = grown(l, p, s2, e, list);
    if l.chains.dom().contains(list[0]) {
        lemma_layout_chain(d, l, list[0]);
        lemma_free_beside(d, l, list, list[0]);
        assert(list[0] != l.chains[list[0]][0]);
    }
    lemma_listing_beside_new_data(d, dm, p, list);
    assert forall|other: Seq<char>| d.resolve(other) is Ok implies #[trigger] d2.resolve(other)
        == d.resolve(other) by {
        lemma_other_path_kept(d, dm, d2, l, p, e, list, other);
    }
    assert forall|h: u32, other: Seq<char>|
        #![trigger find_entry(d2.entries(h)->Ok_0, other)]
        l.dirs.contains(h) && find_entry(d.entries(h)->Ok_0, other) is None && !(h == p && same_name(
            name_of(path),
            other,
        )) implies find_entry(d2.entries(h)->Ok_0, other) is None by {
        lemma_directory_readable(d, l, h);
        lemma_listing_beside_new_data(d, dm, h, list);
        if h == p {
            lemma_only_name_added(dm, d2, p, e, s2, other);
        } else {
            lemma_other_listing_kept(dm, d2, l, p, e, s2, h);
        }
    }
    assert forall|h: u32| #[trigger] l.dirs.contains(h) && h != p implies d2.entries(h)
        == d.entries(h) by {
        lemma_directory_readable(d, l, h);
        lemma_listing_beside_new_data(d, dm, h, list);
        lemma_other_listing_kept(dm, d2, l, p, e, s2, h);
    }
    lemma_sole_new(dm, d2, l, p, e, s2, list);
    l2
}

/// Only the new entry leads to the new chain.
proof fn lemma_sole_new(
    d: Disk,
    d2: Disk,
    l: Layout,
    p: u32,
    e: DirentView,
    s2: Seq<u32>,
    list: Seq<u32>,
)
    requires
        sound(d, l),
        l.dirs.contains(p),
        enterable(d, l, e, list),
        placed(d, d2, p, e, s2),
        !l.chains.dom().contains(list[0]),
    ensures
        sole_new(d2, grown(l, p, s2, e, list), e),
{
    let l2 = grown(l, p, s2, e, list);
    lemma_directory_readable(d, l, p);
    assert forall|g: u32, k: int|
        #![trigger l2.dirs.contains(g), d2.entries(g)->Ok_0[k]]
        l2.dirs.contains(g) && 0 <= k < d2.entries(g)->Ok_0.len()
            && d2.entries(g)->Ok_0[k].first_cluster == e.first_cluster implies d2.entries(g)->Ok_0[k]
        == e by {
        let x = d2.entries(g)->Ok_0[k];
        if g == p {
            if x != e {
                let before = d.entries(p)->Ok_0;
                assert(before.contains(x));
                let m = choose|m: int| 0 <= m < before.len() && before[m] == x;
                assert(leads_into(l, before[m]));
            }
        } else if l.dirs.contains(g) {
            lemma_directory_readable(d, l, g);
            lemma_other_listing_kept(d, d2, l, p, e, s2, g);
            assert(leads_into(l, d.entries(g)->Ok_0[k]));
        } else {
            assert(g == list[0]);
            assert(disjoint(list, l.chains[p]));
            lemma_apart_untouched(d, d2, p, e, s2, list);
            lemma_follow_list(d, list);
            lemma_listing_kept(
                d,
                d2,
                g,
                placed_fats(l.chains[p], s2),
                placed_data(l.chains[p], s2),
            );
        }
    }
}

/// A directory beside the one that something has been placed in is listed as before.
proof fn lemma_other_listing_kept(
    d: Disk,
    d2: Disk,
    l: Layout,
    p: u32,
    e: DirentView,
    s2: Seq<u32>,
    h: u32,
)
    requires
        sound(d, l),
        l.dirs.contains(p),
        l.dirs.contains(h),
        h != p,
        placed(d, d2, p, e, s2),
    ensures
        d2.entries(h) == d.entries(h),
{
    lemma_directory_readable(d, l, p);
    lemma_directory_readable(d, l, h);
    lemma_layout_chain(d, l, h);
    let s = l.chains[p];
    let t = l.chains[h];
    assert(disjoint(t, s));
    lemma_apart_untouched(d, d2, p, e, s2, t);
    lemma_listing_kept(
        d,
        d2,
        h,
        placed_fats(s, s2),
        placed_data(s, s2),
    );
}

/// On a sound volume a file that has been created under a new name reads back as it was
/// written, every other path leads where it led, every other file reads as it did, and the
/// volume stays sound. The layout that it has then is given.
///
/// Left out are files of more than 4 GiB, whose size the entry cannot hold, and an empty file
/// whose cluster lies behind the end of the device.
pub proof fn law_file_created_soundly(
    d: Disk,
    l: Layout,
    path: Seq<char>,
    data: Seq<u8>,
    now: Stamp,
) -> (l2: Layout)
    requires
        sound(d, l),
        d.create_file(path, data, now).1 is Ok,
        !(d.resolve(path) is Ok),
        data.len() <= u32::MAX,
        data.len() == 0 ==> d.read_cluster(d.free_from(FIRST_CLUSTER as int, 1)->Ok_0[0]) is Ok,
    ensures
        ({
            let d2 = d.create_file(path, data, now).0;
            &&& d2.read_path(path) == Ok::<Seq<u8>, ErrView>(data)
            &&& forall|other: Seq<char>|
                d.read_path(other) is Ok ==> #[trigger] d2.read_path(other) == d.read_path(other)
            &&& sound(d2, l2)
            &&& d2.geo == d.geo
            &&& extends_layout(l2, l)
            &&& !l.chains.dom().contains(d2.resolve(path)->Ok_0.first_cluster)
            &&& one_chain_more(l2, l, d2.resolve(path)->Ok_0.first_cluster)
            &&& sole_new(d2, l2, d2.resolve(path)->Ok_0)
            &&& !d2.resolve(path)->Ok_0.is_directory()
            &&& only_added(
                d,
                d2,
                l,
                d.resolve(parent_of(path))->Ok_0.first_cluster,
                name_of(path),
            )
            &&& listed_anew(
                d,
                d2,
                l,
                l2,
                d.resolve(parent_of(path))->Ok_0.first_cluster,
                name_of(path),
                d2.resolve(path)->Ok_0,
            )
        }),
{
    let size = d.geo.cluster_size();
    let count = clusters_needed(data.len(), size);
    let list = d.free_from(FIRST_CLUSTER as int, count)->Ok_0;
    let d2 = d.create_file(path, data, now).0;
    lemma_free_readable(d, FIRST_CLUSTER as int, count + 1);
    lemma_free_readable(d, FIRST_CLUSTER as int, 1);
    lemma_free_linkable(d, count + 1);
    lemma_free_in_range(d, FIRST_CLUSTER as int, count);
    lemma_free_in_range(d, FIRST_CLUSTER as int, 1);
    assert(name_of(path).len() > 0);
    lemma_sound_way(d, l, path);
    law_created_file_reads_back(d, path, data, now);
    let dm = lemma_create_file_steps(d, path, data, now);
    lemma_size_fits(data.len());
    let e = new_entry(name_of(path), FileAttributes::ARCHIVE, list[0], data.len() as u32, now);
    assert(0x20u8 & 0x3F == 0x20) by (bit_vector);
    assert(0x20u8 & 0x10 != 0x10) by (bit_vector);
    lemma_new_entry(name_of(path), FileAttributes::ARCHIVE, list[0], data.len() as u32, now);
    let l2 = lemma_entered_soundly(d, dm, d2, l, path, e, list);
    let p = d.resolve(parent_of(path))->Ok_0.first_cluster;
    assert forall|other: Seq<char>| d.read_path(other) is Ok implies #[trigger] d2.read_path(other)
        == d.read_path(other) by {
        lemma_sound_walk(d, l, FIRST_CLUSTER, parts(other), 0, p);
        lemma_sound_target(d, l, other);
        let h = d.resolve(other)->Ok_0.first_cluster;
        lemma_layout_chain(d, l, h);
        lemma_layout_chain(d, l, p);
        assert(h != p);
        assert(disjoint(l.chains[h], l.chains[p]));
        law_create_keeps_other_files(d, path, data, now, other);
    }
    l2
}

/// A file keeps its contents when something else is entered.
proof fn lemma_other_file_kept(
    d: Disk,
    dm: Disk,
    d2: Disk,
    l: Layout,
    p: u32,
    e: DirentView,
    list: Seq<u32>,
    other: DirentView,
)
    requires
        sound(d, l),
        sound(dm, l),
        l.dirs.contains(p),
        touches(d, dm, list.to_set(), list.to_set()),
        forall|k: int|
            0 <= k < list.len() ==> d.read_fat(#[trigger] list[k]) == Ok::<FatEntry, ErrView>(
                FatEntry::Free,
            ),
        storable(e),
        d2 == dm.add_entry(p, e).0,
        dm.add_entry(p, e).1 is Ok,
        leads_into(l, other),
        !other.is_directory(),
        d.read_file(other) is Ok,
    ensures
        d2.read_file(other) == d.read_file(other),
{
    let h = other.first_cluster;
    lemma_directory_readable(dm, l, p);
    lemma_layout_chain(dm, l, h);
    assert(h != p);
    assert(disjoint(l.chains[h], l.chains[p]));
    lemma_file_beside_new_data(d, dm, list, other);
    lemma_next_linkable(dm);
    lemma_add_entry(dm, p, e);
    lemma_file_beside_added(dm, d2, p, e, other);
}

/// On a sound volume a directory that has been created is found and is empty, every other path
/// leads where it led, every file reads as it did, and the volume stays sound. The layout that
/// it has then is given.
pub proof fn law_directory_created_soundly(
    d: Disk,
    l: Layout,
    path: Seq<char>,
    now: Stamp,
) -> (l2: Layout)
    requires
        sound(d, l),
        d.create_directory(path, now).1 is Ok,
    ensures
        ({
            let d2 = d.create_directory(path, now).0;
            let made = d2.resolve(path)->Ok_0;
            &&& !(d.resolve(path) is Ok)
            &&& d2.resolve(path) is Ok
            &&& made.is_directory()
            &&& d2.entries(made.first_cluster) == Ok::<Seq<DirentView>, ErrView>(seq![])
            &&& forall|other: Seq<char>|
                d.read_path(other) is Ok ==> #[trigger] d2.read_path(other) == d.read_path(other)
            &&& sound(d2, l2)
            &&& d2.geo == d.geo
            &&& extends_layout(l2, l)
            &&& !l.chains.dom().contains(made.first_cluster)
            &&& only_added(
                d,
                d2,
                l,
                d.resolve(parent_of(path))->Ok_0.first_cluster,
                name_of(path),
            )
            &&& listed_anew(
                d,
                d2,
                l,
                l2,
                d.resolve(parent_of(path))->Ok_0.first_cluster,
                name_of(path),
                made,
            )
        }),
{
    let d2 = d.create_directory(path, now).0;
    assert(name_of(path).len() > 0);
    let p = d.parent_for(path)->Ok_0.first_cluster;
    lemma_resolve_path(d, path);
    lemma_sound_way(d, l, path);
    lemma_free_readable(d, FIRST_CLUSTER as int, 2);
    lemma_free_linkable(d, 2);
    law_created_directory_is_empty(d, path, now);
    let list = d.free_from(FIRST_CLUSTER as int, 1)->Ok_0;
    lemma_free_in_range(d, FIRST_CLUSTER as int, 1);
    let dm = lemma_create_directory_steps(d, path, now);
    let e = new_entry(name_of(path), FileAttributes::DIRECTORY, list[0], 0, now);
    assert(0x10u8 & 0x3F == 0x10) by (bit_vector);
    assert(0x10u8 & 0x10 == 0x10) by (bit_vector);
    lemma_new_entry(name_of(path), FileAttributes::DIRECTORY, list[0], 0, now);
    lemma_follow_list(dm, list);
    assert(list =~= seq![list[0]]);
    lemma_blank_is_empty(dm, list[0]);
    assert(on_device(dm, list));
    let l2 = lemma_entered_soundly(d, dm, d2, l, path, e, list);
    lemma_sound_beside_new_data(d, dm, l, list);
    lemma_way_beside_new_data(d, dm, path, 1);
    lemma_entered(dm, path, e, list);
    assert(d2.resolve(path) == Ok::<DirentView, ErrView>(e));
    assert forall|other: Seq<char>| d.read_path(other) is Ok implies #[trigger] d2.read_path(other)
        == d.read_path(other) by {
        lemma_sound_target(d, l, other);
        assert(d2.resolve(other) == d.resolve(other));
        lemma_other_file_kept(d, dm, d2, l, p, e, list, d.resolve(other)->Ok_0);
    }
    l2
}

// ---------------------------------------------------------------------------
// Replacing the first bytes of a file
// ---------------------------------------------------------------------------

/// Paths lead to the same where directories are listed alike.
pub proof fn lemma_same_listings(d: Disk, d2: Disk, l: Layout, c: u32, names: Seq<Seq<char>>, i: int)
    requires
        sound(d, l),
        l.dirs.contains(c),
        0 <= i,
        forall|h: u32| #[trigger] l.dirs.contains(h) ==> d2.entries(h) == d.entries(h),
    ensures
        d2.resolve_from(c, names, i) == d.resolve_from(c, names, i),
    decreases names.len() - i,
{
    if i < names.len() {
        lemma_directory_readable(d, l, c);
        lemma_found_leads(d, l, c, names[i]);
        if find_entry(d.entries(c)->Ok_0, names[i]) is Some {
            let e = find_entry(d.entries(c)->Ok_0, names[i])->Some_0;
            if i + 1 < names.len() && e.is_directory() {
                lemma_same_listings(d, d2, l, e.first_cluster, names, i + 1);
            }
        }
    }
}

/// The directories on the way to a file share no cluster with it.
pub proof fn lemma_sound_apart(d: Disk, l: Layout, c: u32, names: Seq<Seq<char>>, i: int, h: u32)
    requires
        sound(d, l),
        l.dirs.contains(c),
        0 <= i,
        l.chains.dom().contains(h),
        !l.dirs.contains(h),
        d.resolve_from(c, names, i) is Ok,
        i < names.len() ==> d.resolve_from(c, names, i)->Ok_0.is_directory(),
    ensures
        walk_apart(d, c, names, i, l.chains[h]),
    decreases names.len() - i,
{
    if i < names.len() {
        lemma_directory_readable(d, l, c);
        lemma_found_leads(d, l, c, names[i]);
        let e = find_entry(d.entries(c)->Ok_0, names[i])->Some_0;
        assert(disjoint(l.chains[c], l.chains[h]));
        lemma_sound_apart(d, l, e.first_cluster, names, i + 1, h);
    }
}

/// On a sound volume a file whose first bytes have been replaced reads back with them, every
/// path leads where it led, every file that is another one reads as it did, and the volume
/// stays sound.
///
/// Left out are files that are shorter than what is put in front.
pub proof fn law_head_patched_soundly(d: Disk, l: Layout, path: Seq<char>, page: Seq<u8>)
    requires
        sound(d, l),
        name_of(path).len() > 0,
        d.read_path(path) is Ok,
        page.len() <= d.geo.cluster_size(),
        page.len() <= d.read_path(path)->Ok_0.len(),
        d.patch_head(path, page).1 is Ok,
    ensures
        ({
            let d2 = d.patch_head(path, page).0;
            &&& d2.read_path(path) == Ok::<Seq<u8>, ErrView>(
                page + d.read_path(path)->Ok_0.skip(page.len() as int),
            )
            &&& sound(d2, l)
            &&& d2.geo == d.geo
            &&& forall|other: Seq<char>| #[trigger] d2.resolve(other) == d.resolve(other)
            &&& forall|h: u32| #[trigger] l.dirs.contains(h) ==> d2.entries(h) == d.entries(h)
            &&& forall|other: Seq<char>|
                d.read_path(other) is Ok && d.resolve(other)->Ok_0.first_cluster != d.resolve(
                    path,
                )->Ok_0.first_cluster ==> #[trigger] d2.read_path(other) == d.read_path(other)
        }),
{
    let d2 = d.patch_head(path, page).0;
    let e = d.resolve(path)->Ok_0;
    let h = e.first_cluster;
    let p = d.resolve(parent_of(path))->Ok_0.first_cluster;
    let names = parts(parent_of(path));
    lemma_sound_target(d, l, path);
    lemma_layout_chain(d, l, h);
    lemma_resolved_in_parent(d, path);
    lemma_sound_directory(d, l, parent_of(path));
    lemma_sound_walk(d, l, FIRST_CLUSTER, names, 0, p);
    lemma_sound_apart(d, l, FIRST_CLUSTER, names, 0, h);
    lemma_directory_readable(d, l, p);
    assert(disjoint(l.chains[p], l.chains[h]));
    law_patched_head_reads_back(d, path, page);
    let b = d.read_cluster(h)->Ok_0;
    let new = page + b.skip(page.len() as int);
    assert(b.len() == d.geo.cluster_size());
    lemma_write_cluster(d, h, new);
    lemma_intact_kept(d, d2);
    assert(all_linkable(d2));
    assert forall|g: u32| l.chains.dom().contains(g) && g != h implies (forall|k: int|
        0 <= k < l.chains[g].len() ==> !set![h].contains(#[trigger] l.chains[g][k])) by {
        assert(disjoint(l.chains[g], l.chains[h]));
        assert forall|k: int| 0 <= k < l.chains[g].len() implies !set![h].contains(
            #[trigger] l.chains[g][k],
        ) by {
            assert(l.chains[g][k] != l.chains[h][0]);
        }
    }
    assert forall|g: u32|
        #![trigger l.chains[g]]
        l.chains.dom().contains(g) implies is_chain(d2, l.chains[g]) && l.chains[g][0] == g
        && all_in_range(d2.geo, l.chains[g]) by {
        lemma_layout_chain(d, l, g);
        lemma_chain_kept(d, d2, l.chains[g], Set::empty(), set![h]);
    }
    assert forall|g: u32| #[trigger] l.dirs.contains(g) implies d2.entries(g) == d.entries(g)
        && ends_last(d2, l.chains[g]) && on_device(d2, l.chains[g]) by {
        assert(l.chains.dom().contains(g));
        assert(g != h);
        lemma_directory_kept(d, d2, l, g, Set::empty(), set![h]);
    }
    assert forall|g: u32| #[trigger] l.dirs.contains(g) implies l.chains.dom().contains(g)
        && directory_sound(d2, l, g) by {
        assert(directory_sound(d, l, g));
        assert(d2.entries(g) == d.entries(g));
    }
    assert forall|other: Seq<char>| #[trigger] d2.resolve(other) == d.resolve(other) by {
        lemma_same_listings(d, d2, l, FIRST_CLUSTER, parts(other), 0);
    }
    assert forall|other: Seq<char>|
        d.read_path(other) is Ok && d.resolve(other)->Ok_0.first_cluster
            != h implies #[trigger] d2.read_path(other) == d.read_path(other) by {
        lemma_sound_target(d, l, other);
        let g = d.resolve(other)->Ok_0.first_cluster;
        lemma_layout_chain(d, l, g);
        assert(l.chains.dom().contains(g) && g != h);
        lemma_file_kept(d, d2, d.resolve(other)->Ok_0, Set::empty(), set![h]);
        assert(d2.resolve(other) == d.resolve(other));
    }
}

} // verus!
