//! Replacing the contents of a file on a sound volume: nothing else changes, and the volume stays
//! sound, and a tree if it was one.

use vstd::prelude::*;
use crate::disk::{clusters_needed, find_entry, resized_bytes, Disk};
use crate::error::ErrView;
use crate::laws::chain_facts::{
    all_in_range, disjoint, is_chain, lemma_chain_in_use, lemma_chain_kept,
};
use crate::laws::creation::lemma_size_fits;
use crate::laws::dir_facts::lemma_listing_in_range;
use crate::laws::keeping::lemma_file_kept;
use crate::laws::removal::{
    lemma_find_slot, lemma_resolved_in_parent, lemma_slot_replaced, with_first_replaced,
};
use crate::laws::rewriting::{
    added_clusters, clusters_at, fitted_zone, half_rewritten, law_rewritten_file_reads_back,
    lemma_half_rewritten, lemma_resize_entry, lemma_resized_bytes, resized, rewritable, zone_of,
};
use crate::laws::sound_creation::{
    lemma_free_linkable, lemma_sound_apart, lemma_sound_directory, lemma_sound_target,
};
use crate::laws::sound_renaming::{
    lemma_entry_replaced, lemma_replaced_update, lemma_tree_replaced,
};
use crate::laws::sound_trees::{hangs, is_tree, listing};
use crate::laws::soundness::{
    all_linkable, directory_sound, ends_last, leads_into, lemma_directory_kept,
    lemma_directory_readable, lemma_layout_chain, lemma_slot_readable, lemma_sound_walk, on_device,
    sound, Layout,
};
use crate::path::{name_of, parent_of, parts};
use crate::text::same_name;
use crate::types::{is_end_marker, DirentView, FatEntry, DIRENT_SIZE, FIRST_CLUSTER};

verus! {

/// The layout with other clusters in a chain.
pub open spec fn with_chain(l: Layout, h: u32, list: Seq<u32>) -> Layout {
    Layout { chains: l.chains.insert(h, list), dirs: l.dirs }
}

/// On a sound volume new contents can be given to every file.
proof fn lemma_sound_rewritable(d: Disk, l: Layout, path: Seq<char>, data: Seq<u8>)
    requires
        sound(d, l),
        name_of(path).len() > 0,
        d.rewrite_file(path, data).1 is Ok,
    ensures
        rewritable(d, path, clusters_needed(data.len(), d.geo.cluster_size())),
        leads_into(l, d.resolve(path)->Ok_0),
        l.dirs.contains(d.resolve(parent_of(path))->Ok_0.first_cluster),
        clusters_at(d, path) == l.chains[d.resolve(path)->Ok_0.first_cluster],
{
    let h = d.resolve(path)->Ok_0.first_cluster;
    let count = clusters_needed(data.len(), d.geo.cluster_size());
    let names = parts(parent_of(path));
    lemma_resolved_in_parent(d, path);
    let p = d.resolve(parent_of(path))->Ok_0.first_cluster;
    lemma_sound_directory(d, l, parent_of(path));
    lemma_sound_target(d, l, path);
    lemma_layout_chain(d, l, h);
    lemma_directory_readable(d, l, p);
    lemma_sound_walk(d, l, FIRST_CLUSTER, names, 0, p);
    lemma_sound_apart(d, l, FIRST_CLUSTER, names, 0, h);
    assert(disjoint(l.chains[p], l.chains[h]));
    let chain = l.chains[h];
    if count > chain.len() {
        let extra = (count - chain.len()) as nat;
        assert(d.fit_chain(chain, count).1 is Ok);
        lemma_free_linkable(d, extra);
        crate::directory::lemma_free_in_range(d, FIRST_CLUSTER as int, extra);
        let more = added_clusters(d, chain, count);
        assert(d.geo.in_range(more[0]));
    }
}

/// The other chains of a sound volume have no cluster that is free or in the chain at `h`.
pub proof fn lemma_beside_zone(d: Disk, l: Layout, g: u32, h: u32, zone: Set<u32>)
    requires
        sound(d, l),
        l.chains.dom().contains(g),
        l.chains.dom().contains(h),
        g != h,
        zone_of(d, l.chains[h], zone),
    ensures
        forall|k: int| 0 <= k < l.chains[g].len() ==> !zone.contains(#[trigger] l.chains[g][k]),
{
    let t = l.chains[g];
    let list = l.chains[h];
    lemma_layout_chain(d, l, g);
    assert(disjoint(t, list));
    assert forall|k: int| 0 <= k < t.len() implies !zone.contains(#[trigger] t[k]) by {
        assert(t.contains(t[k]));
        lemma_chain_in_use(d, t, t[k]);
        if list.contains(t[k]) {
            let j = choose|j: int| 0 <= j < list.len() && list[j] == t[k];
            assert(t[k] != list[j]);
        }
    }
}

/// While the contents have been replaced and the size has not, the volume is sound, and every
/// directory is listed as before.
proof fn lemma_half_sound(
    d: Disk,
    d2: Disk,
    l: Layout,
    path: Seq<char>,
    data: Seq<u8>,
    list: Seq<u32>,
)
    requires
        sound(d, l),
        leads_into(l, d.resolve(path)->Ok_0),
        !d.resolve(path)->Ok_0.is_directory(),
        clusters_at(d, path) == l.chains[d.resolve(path)->Ok_0.first_cluster],
        half_rewritten(d, d2, path, data, list),
    ensures
        sound(d2, with_chain(l, d.resolve(path)->Ok_0.first_cluster, list)),
        forall|g: u32| #[trigger] l.dirs.contains(g) ==> d2.entries(g) == d.entries(g),
        forall|x: DirentView|
            leads_into(l, x) && x.first_cluster != d.resolve(path)->Ok_0.first_cluster
                && d.read_file(x) is Ok ==> #[trigger] d2.read_file(x) == d.read_file(x),
{
    let h = d.resolve(path)->Ok_0.first_cluster;
    let l2 = with_chain(l, h, list);
    let zone = fitted_zone(
        d,
        clusters_at(d, path),
        clusters_needed(data.len(), d.geo.cluster_size()),
    );
    assert(all_linkable(d2));
    assert forall|g: u32|
        #![trigger l2.chains[g]]
        l2.chains.dom().contains(g) implies is_chain(d2, l2.chains[g]) && l2.chains[g][0] == g
        && all_in_range(d2.geo, l2.chains[g]) by {
        if g != h {
            lemma_layout_chain(d, l, g);
            lemma_beside_zone(d, l, g, h, zone);
            lemma_chain_kept(d, d2, l.chains[g], zone, zone);
        }
    }
    assert forall|g: u32, k: u32|
        #![trigger l2.chains[g], l2.chains[k]]
        l2.chains.dom().contains(g) && l2.chains.dom().contains(k) && g != k implies disjoint(
        l2.chains[g],
        l2.chains[k],
    ) by {
        if g == h {
            lemma_beside_zone(d, l, k, h, zone);
        } else if k == h {
            lemma_beside_zone(d, l, g, h, zone);
        } else {
            assert(disjoint(l.chains[g], l.chains[k]));
        }
    }
    assert forall|g: u32| #[trigger] l.dirs.contains(g) implies d2.entries(g) == d.entries(g)
        && ends_last(d2, l.chains[g]) && on_device(d2, l.chains[g]) by {
        assert(l.chains.dom().contains(g));
        lemma_beside_zone(d, l, g, h, zone);
        lemma_directory_kept(d, d2, l, g, zone, zone);
    }
    assert forall|g: u32| #[trigger] l2.dirs.contains(g) implies l2.chains.dom().contains(g)
        && directory_sound(d2, l2, g) by {
        assert(l.dirs.contains(g));
        assert(directory_sound(d, l, g));
        let after = d2.entries(g)->Ok_0;
        assert forall|k: int| 0 <= k < after.len() implies leads_into(l2, #[trigger] after[k]) by {
            assert(leads_into(l, d.entries(g)->Ok_0[k]));
        }
    }
    assert forall|x: DirentView|
        leads_into(l, x) && x.first_cluster != h && d.read_file(x) is Ok implies
        #[trigger] d2.read_file(x) == d.read_file(x) by {
        lemma_layout_chain(d, l, x.first_cluster);
        lemma_beside_zone(d, l, x.first_cluster, h, zone);
        lemma_file_kept(d, d2, x, zone, zone);
    }
}

/// Setting a size keeps the end of the directory in its last cluster.
proof fn lemma_resized_end(d: Disk, l: Layout, p: u32, name: Seq<char>, size: u32)
    requires
        sound(d, l),
        l.dirs.contains(p),
        find_entry(d.entries(p)->Ok_0, name) is Some,
    ensures
        ends_last(d.resize_entry(p, name, size).0, l.chains[p]),
{
    let n = DIRENT_SIZE as nat;
    lemma_directory_readable(d, l, p);
    let s = l.chains[p];
    lemma_listing_in_range(d, p);
    lemma_find_slot(d, s, name, 0, 0);
    let (i, j) = d.find_slot(s, name, None, 0, 0)->Ok_0->Some_0;
    let raw = d.slot(s, i, j, n)->Ok_0;
    let new_raw = resized_bytes(d.geo.big_endian, raw, size);
    lemma_resized_bytes(d.geo.big_endian, raw, size);
    assert(new_raw =~= new_raw + raw.skip(new_raw.len() as int));
    lemma_slot_replaced(d, s, i, j, new_raw, new_raw);
    let d2 = d.resize_entry(p, name, size).0;
    assert forall|a: int, b: int|
        #![trigger d2.slot(s, a, b, n)]
        0 <= a < s.len() - 1 && 0 <= b < d2.geo.slots() implies !is_end_marker(
        d2.slot(s, a, b, n)->Ok_0[0],
    ) by {
        lemma_slot_readable(d, s, a, b, n);
        assert(!is_end_marker(d.slot(s, a, b, n)->Ok_0[0]));
        if !(a == i && b == j) {
            assert(d2.slot(s, a, b, n) == d.slot(s, a, b, n));
        }
    }
}

/// On a sound volume a file whose contents have been replaced reads back as it was written, its
/// entry is as it was but for the size, every other directory is listed as before, every other
/// file reads as before, and the volume stays sound. The layout that it has then is given.
///
/// Left out are contents of more than 4 GiB, whose size the entry cannot hold, and an empty file
/// whose cluster lies behind the end of the device.
pub proof fn law_file_rewritten_soundly(d: Disk, l: Layout, path: Seq<char>, data: Seq<u8>) -> (l2:
    Layout)
    requires
        sound(d, l),
        name_of(path).len() > 0,
        d.rewrite_file(path, data).1 is Ok,
        data.len() <= u32::MAX,
        data.len() == 0 ==> d.read_cluster(d.resolve(path)->Ok_0.first_cluster) is Ok,
    ensures
        ({
            let d2 = d.rewrite_file(path, data).0;
            let e = d.resolve(path)->Ok_0;
            let p = d.resolve(parent_of(path))->Ok_0.first_cluster;
            &&& d2.read_path(path) == Ok::<Seq<u8>, ErrView>(data)
            &&& d2.resolve(path) == Ok::<DirentView, ErrView>(resized(e, data.len() as u32))
            &&& sound(d2, l2)
            &&& d2.geo == d.geo
            &&& l2 == with_chain(l, e.first_cluster, l2.chains[e.first_cluster])
            &&& l2.chains[e.first_cluster].len() == clusters_needed(
                data.len(),
                d.geo.cluster_size(),
            )
            &&& forall|j: int|
                l2.chains[e.first_cluster].len() <= j < clusters_at(d, path).len()
                    ==> d2.read_fat(#[trigger] clusters_at(d, path)[j]) == Ok::<FatEntry, ErrView>(
                    FatEntry::Free,
                )
            &&& l.dirs.contains(p)
            &&& d2.entries(p) == Ok::<Seq<DirentView>, ErrView>(
                with_first_replaced(
                    d.entries(p)->Ok_0,
                    name_of(path),
                    resized(e, data.len() as u32),
                ),
            )
            &&& forall|g: u32| #[trigger]
                l.dirs.contains(g) && g != p ==> d2.entries(g) == d.entries(g)
            &&& forall|x: DirentView|
                leads_into(l, x) && !x.is_directory() && x.first_cluster != e.first_cluster
                    && d.read_file(x) is Ok ==> #[trigger] d2.read_file(x) == d.read_file(x)
        }),
{
    let name = name_of(path);
    let e = d.resolve(path)->Ok_0;
    let h = e.first_cluster;
    let d3 = d.rewrite_file(path, data).0;
    let size = (data.len() % 0x1_0000_0000) as u32;
    lemma_size_fits(data.len());
    lemma_sound_rewritable(d, l, path, data);
    lemma_resolved_in_parent(d, path);
    let p = d.resolve(parent_of(path))->Ok_0.first_cluster;
    law_rewritten_file_reads_back(d, path, data);
    let (d2, list) = lemma_half_rewritten(d, path, data);
    lemma_half_sound(d, d2, l, path, data, list);
    let l2 = with_chain(l, h, list);
    assert(l2.chains[h] == list);
    assert(d2.entries(p) == d.entries(p));
    lemma_directory_readable(d2, l2, p);
    lemma_resize_entry(d2, p, name, size);
    lemma_resized_end(d2, l2, p, name, size);
    lemma_entry_replaced(d2, d3, l2, p, name, resized(e, size));
    assert forall|j: int| list.len() <= j < clusters_at(d, path).len() implies d3.read_fat(
        #[trigger] clusters_at(d, path)[j],
    ) == Ok::<FatEntry, ErrView>(FatEntry::Free) by {
        let c = clusters_at(d, path)[j];
        assert(l.chains[h] == clusters_at(d, path));
        assert(d.geo.in_range(c));
        assert(d2.read_fat(c) == Ok::<FatEntry, ErrView>(FatEntry::Free));
    }
    assert forall|g: u32| #[trigger] l.dirs.contains(g) && g != p implies d3.entries(g)
        == d.entries(g) by {
        assert(l2.dirs.contains(g));
    }
    assert forall|x: DirentView|
        leads_into(l, x) && !x.is_directory() && x.first_cluster != h && d.read_file(x)
            is Ok implies #[trigger] d3.read_file(x) == d.read_file(x) by {
        assert(d2.read_file(x) == d.read_file(x));
        assert(leads_into(l2, x));
    }
    l2
}

/// A tree in which the contents of a file have been replaced stays one. The layout that it has
/// then is given.
///
/// Left out is what [`law_file_rewritten_soundly`] leaves out.
pub proof fn law_file_rewritten_in_tree(
    d: Disk,
    l: Layout,
    level: spec_fn(u32) -> nat,
    path: Seq<char>,
    data: Seq<u8>,
) -> (l2: Layout)
    requires
        is_tree(d, l, level),
        name_of(path).len() > 0,
        d.rewrite_file(path, data).1 is Ok,
        data.len() <= u32::MAX,
        data.len() == 0 ==> d.read_cluster(d.resolve(path)->Ok_0.first_cluster) is Ok,
    ensures
        is_tree(d.rewrite_file(path, data).0, l2, level),
{
    let l2 = law_file_rewritten_soundly(d, l, path, data);
    let d2 = d.rewrite_file(path, data).0;
    lemma_resolved_in_parent(d, path);
    let p = d.resolve(parent_of(path))->Ok_0.first_cluster;
    let e = resized(d.resolve(path)->Ok_0, data.len() as u32);
    let m = lemma_replaced_update(listing(d, p), name_of(path), e);
    assert(hangs(listing(d, p)[m], p, level));
    assert(e.filename() == listing(d, p)[m].filename());
    assert forall|k: int| 0 <= k < listing(d, p).len() && k != m implies !same_name(
        (#[trigger] listing(d, p)[k]).filename(),
        e.filename(),
    ) by {
        if k < m {
            assert(!same_name(listing(d, p)[k].filename(), listing(d, p)[m].filename()));
        } else {
            assert(!same_name(listing(d, p)[m].filename(), listing(d, p)[k].filename()));
        }
    }
    lemma_tree_replaced(d, d2, l, l2, level, p, m, e);
    l2
}

} // verus!
