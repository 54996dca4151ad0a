//! Laws of success: renaming, replacing contents, and reading.

use vstd::prelude::*;
use crate::directory::lemma_free_in_range;
use crate::disk::{
    blank, chunk, clusters_needed, find_entry, parse_dirent, renamed_bytes, Disk, Stamp,
};
use crate::error::ErrView;
use crate::laws::chain_facts::{
    is_chain, lemma_chain_distinct, lemma_distinct_len, lemma_follow_chain,
};
use crate::laws::creation::{law_created_file_reads_back, lemma_intact_kept};
use crate::laws::dir_facts::{free_set, lemma_listing_in_range};
use crate::laws::entries::{
    before_end, law_listing, law_names, law_new_entry, lemma_next_cluster, lemma_next_slot,
};
use crate::laws::frame::{lemma_touches_trans, lemma_touches_widen};
use crate::laws::removal::{
    lemma_find_slot, lemma_renamed_bytes, lemma_resolved_in_parent, lemma_slot_replaced, renamed,
};
use crate::laws::rewriting::{
    added_clusters, clusters_at, fitted_zone, lemma_fit_chain, lemma_resize_entry, resized, zone_of,
};
use crate::laws::sound_creation::{
    lemma_free_linkable, lemma_free_readable, lemma_sound_directory, lemma_sound_target,
    lemma_sound_way,
};
use crate::laws::sound_rewriting::{law_file_rewritten_soundly, lemma_beside_zone};
use crate::laws::soundness::{
    lemma_directory_kept, lemma_directory_readable, lemma_layout_chain, sound, Layout,
};
use crate::laws::success::{
    law_allocation, law_clusters_needed, lemma_spacious_kept, lemma_write_data_ok, proper_name,
    spacious,
};
use crate::path::{name_of, parent_of};
use crate::text::same_name;
use crate::types::{DirentView, FatEntry, FIRST_CLUSTER};

verus! {

// ---------------------------------------------------------------------------
// What has been created
// ---------------------------------------------------------------------------

/// A file that has been created under a new name on a volume in order has that name, the size
/// of its contents, the attribute of a file to be archived and no other, and the moment it was
/// made as its stamps. It reads back as it was written.
pub proof fn law_created_file(d: Disk, l: Layout, path: Seq<char>, data: Seq<u8>, now: Stamp)
    requires
        sound(d, l),
        d.create_file(path, data, now).1 is Ok,
        !(d.resolve(path) is Ok),
        data.len() <= u32::MAX,
        data.len() == 0 ==> d.read_cluster(d.free_from(FIRST_CLUSTER as int, 1)->Ok_0[0]) is Ok,
    ensures
        ({
            let d2 = d.create_file(path, data, now).0;
            let e = d2.resolve(path)->Ok_0;
            &&& d2.resolve(path) is Ok
            &&& e.filename() == name_of(path)
            &&& e.file_size == data.len()
            &&& e.attributes.bits == 0x20
            &&& !e.is_directory()
            &&& e.creation_date == now.date && e.creation_time == now.time
            &&& e.write_date == now.date && e.write_time == now.time
            &&& e.access_date == now.date && e.access_time == now.time
            &&& d2.read_path(path) == Ok::<Seq<u8>, ErrView>(data)
        }),
{
    let count = clusters_needed(data.len(), d.geo.cluster_size());
    lemma_free_readable(d, FIRST_CLUSTER as int, count + 1);
    lemma_free_readable(d, FIRST_CLUSTER as int, 1);
    lemma_free_linkable(d, count + 1);
    lemma_free_in_range(d, FIRST_CLUSTER as int, count);
    law_names(name_of(path));
    lemma_sound_way(d, l, path);
    law_created_file_reads_back(d, path, data, now);
    let first = d.free_from(FIRST_CLUSTER as int, count)->Ok_0[0];
    law_new_entry(name_of(path), 0x20, first, data.len() as u32, now);
    assert(0x20u8 & 0x10 != 0x10) by (bit_vector);
}

/// A directory that has been created on a volume in order has the attribute of a directory and
/// no other, no size, and the moment it was made as its stamps.
pub proof fn law_created_directory(d: Disk, l: Layout, path: Seq<char>, now: Stamp)
    requires
        sound(d, l),
        d.create_directory(path, now).1 is Ok,
    ensures
        ({
            let d2 = d.create_directory(path, now).0;
            let e = d2.resolve(path)->Ok_0;
            &&& d2.resolve(path) is Ok
            &&& e.filename() == name_of(path)
            &&& e.file_size == 0
            &&& e.attributes.bits == 0x10
            &&& e.creation_date == now.date && e.creation_time == now.time
            &&& e.write_date == now.date && e.write_time == now.time
            &&& e.access_date == now.date && e.access_time == now.time
            &&& d2.entries(e.first_cluster) == Ok::<Seq<DirentView>, ErrView>(seq![])
        }),
{
    let d2 = d.create_directory(path, now).0;
    law_names(name_of(path));
    crate::laws::sound_creation::law_directory_created_soundly(d, l, path, now);
    lemma_free_readable(d, FIRST_CLUSTER as int, 2);
    lemma_free_linkable(d, 2);
    lemma_sound_way(d, l, path);
    let list = d.free_from(FIRST_CLUSTER as int, 1)->Ok_0;
    crate::laws::keeping::lemma_created_directory_entry(d, path, now);
    law_new_entry(name_of(path), 0x10, list[0], 0, now);
}

// ---------------------------------------------------------------------------
// Renaming
// ---------------------------------------------------------------------------

/// Searching a directory for a name, but for one slot.
proof fn lemma_search(
    d: Disk,
    chain: Seq<u32>,
    name: Seq<char>,
    skip: Option<(int, int)>,
    i: int,
    j: int,
)
    requires
        0 <= i,
        0 <= j,
        d.entries_from(chain, i, j) is Ok,
    ensures
        match d.find_slot(chain, name, skip, i, j) {
            Err(_) => false,
            Ok(Some(at)) => {
                let raw = d.slot(chain, at.0, at.1, 64)->Ok_0;
                &&& before_end(d, chain, (i, j), at)
                &&& raw[0] != 0xE5
                &&& same_name(parse_dirent(d.geo.big_endian, raw).filename(), name)
                &&& skip != Some(at)
            },
            Ok(None) => forall|at: (int, int)|
                #![trigger before_end(d, chain, (i, j), at)]
                before_end(d, chain, (i, j), at) && d.slot(chain, at.0, at.1, 64)->Ok_0[0] != 0xE5
                    && same_name(
                    parse_dirent(
                        d.geo.big_endian,
                        d.slot(chain, at.0, at.1, 64)->Ok_0,
                    ).filename(),
                    name,
                ) ==> skip == Some(at),
        },
    decreases chain.len() - i, d.geo.slots() - j,
{
    if i >= chain.len() {
        assert forall|at: (int, int)| !(#[trigger] before_end(d, chain, (i, j), at)) by {}
    } else if j >= d.geo.slots() {
        lemma_search(d, chain, name, skip, i + 1, 0);
        assert forall|at: (int, int)| #[trigger]
            before_end(d, chain, (i, j), at) == before_end(d, chain, (i + 1, 0), at) by {
            lemma_next_cluster(d, chain, i, j, at);
        }
        if d.find_slot(chain, name, skip, i, j)->Ok_0 is Some {
            let at = d.find_slot(chain, name, skip, i, j)->Ok_0->Some_0;
            lemma_next_cluster(d, chain, i, j, at);
        }
    } else {
        let raw = d.slot(chain, i, j, 64)->Ok_0;
        assert(d.slot(chain, i, j, 64) is Ok);
        let here = (i, j);
        if raw[0] == 0 || raw[0] == 0xFF {
            assert forall|at: (int, int)| !(#[trigger] before_end(d, chain, here, at)) by {
                if before_end(d, chain, here, at) {
                    assert(d.slot(chain, i, j, 64)->Ok_0[0] != 0);
                }
            }
        } else {
            lemma_search(d, chain, name, skip, i, j + 1);
            assert forall|at: (int, int)| #[trigger]
                before_end(d, chain, here, at) <==> at == here || before_end(
                    d,
                    chain,
                    (i, j + 1),
                    at,
                ) by {
                lemma_next_slot(d, chain, i, j, at);
            }
            lemma_next_slot(d, chain, i, j, here);
            if d.find_slot(chain, name, skip, i, j)->Ok_0 is Some {
                let at = d.find_slot(chain, name, skip, i, j)->Ok_0->Some_0;
                lemma_next_slot(d, chain, i, j, at);
            }
        }
    }
}

/// An entry can be given every proper name that no other entry of its directory has, whether or
/// not it is its own name in another case. `k` is its place in the listing.
pub proof fn law_renaming_granted(d: Disk, l: Layout, path: Seq<char>, name: Seq<char>, k: int)
    requires
        sound(d, l),
        name_of(path).len() > 0,
        d.resolve(path) is Ok,
        proper_name(name),
        ({
            let es = d.entries(d.resolve(parent_of(path))->Ok_0.first_cluster)->Ok_0;
            &&& forall|m: int|
                0 <= m < es.len() && m != k ==> !same_name(
                    (#[trigger] es[m]).filename(),
                    name_of(path),
                )
            &&& forall|m: int|
                0 <= m < es.len() && m != k ==> !same_name((#[trigger] es[m]).filename(), name)
        }),
    ensures
        d.rename(path, name).1 is Ok,
{
    law_names(name);
    lemma_resolved_in_parent(d, path);
    let p = d.resolve(parent_of(path))->Ok_0.first_cluster;
    lemma_sound_directory(d, l, parent_of(path));
    lemma_directory_readable(d, l, p);
    let s = l.chains[p];
    let es = d.entries(p)->Ok_0;
    let places = law_listing(d, p);
    lemma_listing_in_range(d, p);
    lemma_find_slot(d, s, name_of(path), 0, 0);
    lemma_search(d, s, name_of(path), None, 0, 0);
    let at = d.find_slot(s, name_of(path), None, 0, 0)->Ok_0->Some_0;
    assert(places.contains(at));
    let a = choose|a: int| 0 <= a < places.len() && places[a] == at;
    assert(es[a] == parse_dirent(d.geo.big_endian, d.slot(s, at.0, at.1, 64)->Ok_0));
    assert(a == k);
    lemma_search(d, s, name, Some(at), 0, 0);
    if d.find_slot(s, name, Some(at), 0, 0)->Ok_0 is Some {
        let other = d.find_slot(s, name, Some(at), 0, 0)->Ok_0->Some_0;
        assert(places.contains(other));
        let b = choose|b: int| 0 <= b < places.len() && places[b] == other;
        assert(es[b] == parse_dirent(d.geo.big_endian, d.slot(s, other.0, other.1, 64)->Ok_0));
        assert(b == k);
    }
    let raw = d.slot(s, at.0, at.1, 64)->Ok_0;
    let new_raw = renamed_bytes(raw, name);
    lemma_renamed_bytes(d.geo.big_endian, raw, name);
    assert(new_raw =~= new_raw + raw.skip(new_raw.len() as int));
    lemma_slot_replaced(d, s, at.0, at.1, new_raw, new_raw);
}

/// An entry cannot be given a name that another entry of its directory has, and nothing changes.
pub proof fn law_renaming_refused(d: Disk, path: Seq<char>, name: Seq<char>, m: int)
    requires
        name_of(path).len() > 0,
        d.resolve(path) is Ok,
        proper_name(name),
        ({
            let es = d.entries(d.resolve(parent_of(path))->Ok_0.first_cluster)->Ok_0;
            &&& 0 <= m < es.len()
            &&& same_name(es[m].filename(), name)
            &&& !same_name(es[m].filename(), name_of(path))
        }),
    ensures
        d.rename(path, name) == (d, Err::<(), ErrView>(ErrView::FileExists(name))),
{
    law_names(name);
    lemma_resolved_in_parent(d, path);
    let p = d.resolve(parent_of(path))->Ok_0.first_cluster;
    let s = d.chain(p)->Ok_0;
    let es = d.entries(p)->Ok_0;
    let places = law_listing(d, p);
    lemma_find_slot(d, s, name_of(path), 0, 0);
    lemma_search(d, s, name_of(path), None, 0, 0);
    let at = d.find_slot(s, name_of(path), None, 0, 0)->Ok_0->Some_0;
    lemma_search(d, s, name, Some(at), 0, 0);
    let there = places[m];
    assert(before_end(d, s, (0, 0), there));
}

/// Nothing that is not there can be renamed, nor can anything be given a name that is not
/// proper.
pub proof fn law_no_such_name_to_rename(d: Disk, path: Seq<char>, name: Seq<char>)
    ensures
        !proper_name(name) ==> d.rename(path, name).0 == d && d.rename(path, name).1 is Err,
        proper_name(name) && d.resolve(parent_of(path)) is Ok && d.entries(
            d.resolve(parent_of(path))->Ok_0.first_cluster,
        ) is Ok && find_entry(
            d.entries(d.resolve(parent_of(path))->Ok_0.first_cluster)->Ok_0,
            name_of(path),
        ) is None ==> d.rename(path, name) == (
            d,
            Err::<(), ErrView>(ErrView::FileNotFound(name_of(path))),
        ),
{
    law_names(name);
    if proper_name(name) && d.resolve(parent_of(path)) is Ok {
        let p = d.resolve(parent_of(path))->Ok_0.first_cluster;
        if d.entries(p) is Ok {
            lemma_find_slot(d, d.chain(p)->Ok_0, name_of(path), 0, 0);
        }
    }
}

/// An entry that has been renamed has its new name, and is the same in all else.
pub proof fn law_renamed_entry(e: DirentView, name: Seq<char>)
    requires
        proper_name(name),
    ensures
        ({
            let r = renamed(e, name);
            &&& r.filename() == name
            &&& r.attributes == e.attributes
            &&& r.first_cluster == e.first_cluster
            &&& r.file_size == e.file_size
            &&& r.creation_date == e.creation_date && r.creation_time == e.creation_time
            &&& r.write_date == e.write_date && r.write_time == e.write_time
            &&& r.access_date == e.access_date && r.access_time == e.access_time
        }),
{
    law_names(name);
    let raw = Seq::new(64, |i: int| 0u8);
    lemma_renamed_bytes(false, raw, name);
}

/// An entry of another size is the same in all else.
pub proof fn law_resized_entry(e: DirentView, size: u32)
    ensures
        ({
            let r = resized(e, size);
            &&& r.file_size == size
            &&& r.filename() == e.filename()
            &&& r.attributes == e.attributes
            &&& r.first_cluster == e.first_cluster
            &&& r.creation_date == e.creation_date && r.creation_time == e.creation_time
            &&& r.write_date == e.write_date && r.write_time == e.write_time
            &&& r.access_date == e.access_date && r.access_time == e.access_time
        }),
{
}

// ---------------------------------------------------------------------------
// Replacing contents
// ---------------------------------------------------------------------------

/// The contents of a file on a volume in order can be replaced by others that `k` clusters can
/// hold, if it has as many, or as many more are free.
pub proof fn law_rewriting_granted(d: Disk, l: Layout, path: Seq<char>, data: Seq<u8>, k: nat)
    requires
        sound(d, l),
        spacious(d),
        name_of(path).len() > 0,
        d.resolve(path) is Ok,
        !d.resolve(path)->Ok_0.is_directory(),
        k >= 1,
        data.len() <= k * (512 * d.geo.sectors_per_cluster),
        k <= d.chain(d.resolve(path)->Ok_0.first_cluster)->Ok_0.len() + free_set(d).len(),
    ensures
        d.rewrite_file(path, data).1 is Ok,
{
    let e = d.resolve(path)->Ok_0;
    let h = e.first_cluster;
    lemma_resolved_in_parent(d, path);
    let p = d.resolve(parent_of(path))->Ok_0.first_cluster;
    lemma_sound_directory(d, l, parent_of(path));
    lemma_sound_target(d, l, path);
    lemma_layout_chain(d, l, h);
    lemma_directory_readable(d, l, p);
    let chain = l.chains[h];
    let size = d.geo.cluster_size();
    assert(size == 512 * d.geo.sectors_per_cluster);
    law_clusters_needed(data.len(), size, k);
    let count = clusters_needed(data.len(), size);
    if count > chain.len() {
        let extra = (count - chain.len()) as nat;
        law_allocation(d, l, extra);
        lemma_free_readable(d, FIRST_CLUSTER as int, extra);
        lemma_free_linkable(d, extra);
        lemma_free_in_range(d, FIRST_CLUSTER as int, extra);
        let more = added_clusters(d, chain, count);
        assert(d.geo.in_range(more[0]));
    }
    lemma_fit_chain(d, chain, count);
    let (d1, fit) = d.fit_chain(chain, count);
    let list = fit->Ok_0;
    let zone = fitted_zone(d, chain, count);
    lemma_spacious_kept(d, d1);
    lemma_write_data_ok(d1, list, data, 0);
    let d2 = d1.write_data(list, data, 0).0;
    lemma_chain_distinct(d1, list);
    lemma_intact_kept(d, d1);
    crate::laws::chain_facts::lemma_write_data(d1, list, data, 0);
    lemma_touches_trans(d, d1, d2, zone, Set::empty(), Set::empty(), list.to_set());
    assert forall|x: u32| list.to_set().contains(x) implies zone.contains(x) by {
        let j = choose|j: int| 0 <= j < list.len() && list[j] == x;
        assert(zone.contains(list[j]));
    }
    lemma_touches_widen(
        d,
        d2,
        zone.union(Set::empty()),
        Set::<u32>::empty().union(list.to_set()),
        zone,
        zone,
    );
    lemma_intact_kept(d, d2);
    assert(zone_of(d, chain, zone)) by {
        let more = added_clusters(d, chain, count);
        assert forall|x: u32| #[trigger] zone.contains(x) implies chain.contains(x) || d.read_fat(x)
            == Ok::<FatEntry, ErrView>(FatEntry::Free) by {
            if more.to_set().contains(x) {
                let extra = (count - chain.len()) as nat;
                lemma_free_in_range(d, FIRST_CLUSTER as int, extra);
                let j = choose|j: int| 0 <= j < more.len() && more[j] == x;
                assert(d.read_fat(more[j]) == Ok::<FatEntry, ErrView>(FatEntry::Free));
            }
        }
    }
    assert(p != h);
    lemma_beside_zone(d, l, p, h, zone);
    lemma_directory_kept(d, d2, l, p, zone, zone);
    lemma_resize_entry(d2, p, name_of(path), (data.len() % 0x1_0000_0000) as u32);
}

/// Contents that all free clusters and those of the file cannot hold do not replace it, and
/// nothing changes.
pub proof fn law_no_room_for_contents(d: Disk, l: Layout, path: Seq<char>, data: Seq<u8>)
    requires
        sound(d, l),
        name_of(path).len() > 0,
        d.resolve(path) is Ok,
        !d.resolve(path)->Ok_0.is_directory(),
        data.len() > (d.chain(d.resolve(path)->Ok_0.first_cluster)->Ok_0.len() + free_set(d).len())
            * (512 * d.geo.sectors_per_cluster),
    ensures
        d.rewrite_file(path, data) == (d, Err::<(), ErrView>(ErrView::DiskFull)),
{
    let h = d.resolve(path)->Ok_0.first_cluster;
    lemma_resolved_in_parent(d, path);
    lemma_sound_directory(d, l, parent_of(path));
    lemma_sound_target(d, l, path);
    lemma_layout_chain(d, l, h);
    let chain = l.chains[h];
    let size = d.geo.cluster_size();
    let n = clusters_needed(data.len(), size);
    let f = chain.len() + free_set(d).len();
    crate::laws::chain_facts::lemma_enough_clusters(data.len(), size);
    assert(n > f) by (nonlinear_arith)
        requires
            data.len() <= n * size,
            data.len() > f * size,
            size > 0,
    ;
    law_allocation(d, l, (n - chain.len()) as nat);
}

/// A file whose contents have been replaced has as many clusters as they need, and those that it
/// had beyond these are free.
pub proof fn law_clusters_after_rewriting(
    d: Disk,
    l: Layout,
    path: Seq<char>,
    data: Seq<u8>,
    j: int,
)
    requires
        sound(d, l),
        name_of(path).len() > 0,
        d.rewrite_file(path, data).1 is Ok,
        0 < data.len() <= u32::MAX,
    ensures
        ({
            let d2 = d.rewrite_file(path, data).0;
            let h = d.resolve(path)->Ok_0.first_cluster;
            let before = d.chain(h)->Ok_0;
            let after = d2.chain(h)->Ok_0;
            let cs = 512 * d.geo.sectors_per_cluster;
            &&& d.chain(h) is Ok && d2.chain(h) is Ok
            &&& (after.len() - 1) * cs < data.len() <= after.len() * cs
            &&& after.len() <= j < before.len() ==> d2.read_fat(before[j]) == Ok::<
                FatEntry,
                ErrView,
            >(FatEntry::Free)
        }),
{
    let h = d.resolve(path)->Ok_0.first_cluster;
    lemma_clusters_after(d, l, path, data);
    crate::laws::chain_facts::lemma_enough_clusters(data.len(), d.geo.cluster_size());
    let after = d.rewrite_file(path, data).0.chain(h)->Ok_0;
    let cs = 512 * d.geo.sectors_per_cluster;
    assert(d.geo.cluster_size() == cs);
    assert(after.len() == clusters_needed(data.len(), d.geo.cluster_size()));
}

#[verifier::spinoff_prover]
#[verifier::rlimit(60)]
proof fn lemma_clusters_after(d: Disk, l: Layout, path: Seq<char>, data: Seq<u8>)
    requires
        sound(d, l),
        name_of(path).len() > 0,
        d.rewrite_file(path, data).1 is Ok,
        0 < data.len() <= u32::MAX,
    ensures
        ({
            let d2 = d.rewrite_file(path, data).0;
            let h = d.resolve(path)->Ok_0.first_cluster;
            let before = d.chain(h)->Ok_0;
            let after = d2.chain(h)->Ok_0;
            &&& d.chain(h) is Ok && d2.chain(h) is Ok
            &&& after.len() == clusters_needed(data.len(), d.geo.cluster_size())
            &&& forall|j: int|
                after.len() <= j < before.len() ==> d2.read_fat(#[trigger] before[j]) == Ok::<
                    FatEntry,
                    ErrView,
                >(FatEntry::Free)
        }),
{
    let d2 = d.rewrite_file(path, data).0;
    let h = d.resolve(path)->Ok_0.first_cluster;
    assert(d.resolve(path) is Ok);
    lemma_sound_target(d, l, path);
    lemma_layout_chain(d, l, h);
    let l2 = law_file_rewritten_soundly(d, l, path, data);
    assert(l2.chains.dom().contains(h));
    lemma_layout_chain(d2, l2, h);
    let before = clusters_at(d, path);
    assert(before == d.chain(h)->Ok_0);
    assert(d2.chain(h)->Ok_0 == l2.chains[h]);
}

/// Only the contents of a file can be replaced.
pub proof fn law_directory_not_rewritten(d: Disk, path: Seq<char>, data: Seq<u8>)
    requires
        d.resolve(parent_of(path)) is Ok,
        d.resolve(path) is Ok,
        d.resolve(path)->Ok_0.is_directory(),
    ensures
        d.rewrite_file(path, data) == (d, Err::<(), ErrView>(ErrView::IsADirectory(path))),
{
}

// ---------------------------------------------------------------------------
// Chains and contents
// ---------------------------------------------------------------------------

/// A chain is followed to its end: from cluster to cluster, each of which leads to the next one,
/// up to the one that ends it.
pub proof fn law_chain_is_followed(d: Disk, s: Seq<u32>)
    requires
        s.len() > 0,
        forall|k: int|
            0 <= k < s.len() - 1 ==> d.read_fat(#[trigger] s[k]) == Ok::<FatEntry, ErrView>(
                FatEntry::Next(s[k + 1]),
            ) && 1 <= s[k + 1] <= d.geo.total_clusters,
        d.read_fat(s.last()) == Ok::<FatEntry, ErrView>(FatEntry::EndOfChain),
    ensures
        d.chain(s[0]) == Ok::<Seq<u32>, ErrView>(s),
{
    assert(is_chain(d, s)) by {
        assert forall|k: int| 0 <= k < s.len() implies #[trigger]
            crate::laws::chain_facts::linked(d, s, k) by {
            if k + 1 < s.len() {
                assert(d.read_fat(s[k]) == Ok::<FatEntry, ErrView>(FatEntry::Next(s[k + 1])));
            }
        }
    }
    lemma_chain_distinct(d, s);
    let rest = s.skip(1);
    assert forall|k: int| 0 <= k < rest.len() implies d.geo.in_range(#[trigger] rest[k]) by {
        assert(d.read_fat(s[k]) == Ok::<FatEntry, ErrView>(FatEntry::Next(s[k + 1])));
    }
    assert(rest.no_duplicates());
    lemma_distinct_len(d.geo, rest);
    lemma_follow_chain(d, s, (d.geo.total_clusters + 1) as nat);
}

/// The clusters of `s` lead from each to the next, all of them clusters of the volume.
pub open spec fn leads_on(d: Disk, s: Seq<u32>) -> bool {
    forall|k: int|
        0 <= k < s.len() - 1 ==> d.read_fat(#[trigger] s[k]) == Ok::<FatEntry, ErrView>(
            FatEntry::Next(s[k + 1]),
        ) && 1 <= s[k + 1] <= d.geo.total_clusters
}

/// A chain that is broken, by a cluster that is free or bad or leads out of the volume, is
/// corrupt there. So is one that has led on through more clusters than there are: it leads in a
/// circle.
pub proof fn law_chain_is_broken(d: Disk, s: Seq<u32>)
    requires
        1 <= s.len() <= d.geo.total_clusters + 2,
        leads_on(d, s),
    ensures
        ({
            let r = d.read_fat(s.last());
            let corrupt = Err::<Seq<u32>, ErrView>(ErrView::CorruptChain(s.last()));
            &&& s.len() == d.geo.total_clusters + 2 ==> d.chain(s[0]) == corrupt
            &&& s.len() < d.geo.total_clusters + 2 && r is Err ==> d.chain(s[0]) == Err::<
                Seq<u32>,
                ErrView,
            >(r->Err_0)
            &&& s.len() < d.geo.total_clusters + 2 && r is Ok && (r->Ok_0 == FatEntry::Free
                || r->Ok_0 == FatEntry::Bad || (r->Ok_0 matches FatEntry::Next(n) && !(1 <= n
                <= d.geo.total_clusters))) ==> d.chain(s[0]) == corrupt
        }),
{
    lemma_broken(d, s, (d.geo.total_clusters + 1) as nat);
}

proof fn lemma_broken(d: Disk, s: Seq<u32>, fuel: nat)
    requires
        1 <= s.len() <= fuel + 1,
        leads_on(d, s),
    ensures
        ({
            let r = d.read_fat(s.last());
            let corrupt = Err::<Seq<u32>, ErrView>(ErrView::CorruptChain(s.last()));
            let found = d.chain_from(s[0], fuel);
            &&& s.len() == fuel + 1 ==> found == corrupt
            &&& s.len() <= fuel && r is Err ==> found == Err::<Seq<u32>, ErrView>(r->Err_0)
            &&& s.len() <= fuel && r is Ok && (r->Ok_0 == FatEntry::Free || r->Ok_0 == FatEntry::Bad
                || (r->Ok_0 matches FatEntry::Next(n) && !(1 <= n <= d.geo.total_clusters)))
                ==> found == corrupt
        }),
    decreases s.len(),
{
    if s.len() > 1 {
        let rest = s.skip(1);
        assert(d.read_fat(s[0]) == Ok::<FatEntry, ErrView>(FatEntry::Next(s[1])));
        assert(rest[0] == s[1]);
        assert(rest.last() == s.last());
        assert forall|k: int| 0 <= k < rest.len() - 1 implies d.read_fat(#[trigger] rest[k])
            == Ok::<FatEntry, ErrView>(FatEntry::Next(rest[k + 1])) && 1 <= rest[k + 1]
            <= d.geo.total_clusters by {
            assert(rest[k] == s[k + 1]);
            assert(rest[k + 1] == s[k + 1 + 1]);
        }
        lemma_broken(d, rest, (fuel - 1) as nat);
        assert(d.geo.in_range(s[1]));
    }
}

/// What a cluster of a file is written with: the bytes that belong there, and zeros behind the
/// last of them. A new directory is all end markers.
pub proof fn law_cluster_filling(data: Seq<u8>, size: nat, i: int, j: int)
    requires
        0 <= i,
        0 <= j < size,
        i * size < data.len(),
    ensures
        chunk(data, size, i).len() == size,
        i * size + j < data.len() ==> chunk(data, size, i)[j] == data[i * size + j],
        i * size + j >= data.len() ==> chunk(data, size, i)[j] == 0,
        blank(size).len() == size,
        blank(size)[j] == 0xFF,
{
}

/// A cluster is written at its place, and only clusters of the volume are.
pub proof fn law_cluster_written(d: Disk, cluster: u32, data: Seq<u8>)
    ensures
        !(1 <= cluster <= d.geo.total_clusters) ==> d.write_cluster(cluster, data) == Err::<
            Disk,
            ErrView,
        >(ErrView::ClusterOutOfRange(cluster, d.geo.total_clusters)),
        1 <= cluster <= d.geo.total_clusters ==> d.write_cluster(cluster, data) == d.write(
            (d.geo.data_offset + (cluster - 1) * (512 * d.geo.sectors_per_cluster)) as nat,
            data,
        ),
{
    if 1 <= cluster <= d.geo.total_clusters {
        assert(d.geo.in_range(cluster));
        assert(d.geo.cluster_pos(cluster) == (d.geo.data_offset + (cluster - 1) * (512
            * d.geo.sectors_per_cluster)) as nat);
    }
}

/// What the contents of a file are: byte number `i` is the byte at that place of the clusters of
/// its chain, taken one behind the other. There are as many as the entry says, as far as the
/// chain goes.
pub proof fn law_file_bytes(d: Disk, e: DirentView, i: int)
    requires
        1 <= d.geo.sectors_per_cluster,
        !e.is_directory(),
        d.chain(e.first_cluster) is Ok,
        ({
            let chain = d.chain(e.first_cluster)->Ok_0;
            forall|k: int| 0 <= k < chain.len() ==> d.read_cluster(#[trigger] chain[k]) is Ok
        }),
    ensures
        ({
            let cs = 512 * d.geo.sectors_per_cluster;
            let chain = d.chain(e.first_cluster)->Ok_0;
            let r = d.read_file(e);
            let len = if e.file_size < chain.len() * cs { e.file_size as int } else {
                chain.len() * cs
            };
            &&& r is Ok
            &&& r->Ok_0.len() == len
            &&& 0 <= i < len ==> {
                &&& 0 <= i / cs < chain.len()
                &&& r->Ok_0[i] == d.read_cluster(chain[i / cs])->Ok_0[i % cs]
            }
        }),
{
    let chain = d.chain(e.first_cluster)->Ok_0;
    assert(d.geo.cluster_size() == 512 * d.geo.sectors_per_cluster);
    lemma_data_bytes(d, chain, 0, e.file_size as nat, i);
    crate::laws::chain_facts::lemma_followed_chain(
        d,
        e.first_cluster,
        (d.geo.total_clusters + 1) as nat,
    );
}

proof fn lemma_data_bytes(d: Disk, chain: Seq<u32>, k: int, size: nat, i: int)
    requires
        1 <= d.geo.sectors_per_cluster,
        0 <= k <= chain.len(),
        forall|m: int| 0 <= m < chain.len() ==> d.read_cluster(#[trigger] chain[m]) is Ok,
    ensures
        ({
            let cs = d.geo.cluster_size() as int;
            let r = d.read_data(chain, k, size);
            let len = if size < (chain.len() - k) * cs { size as int } else {
                (chain.len() - k) * cs
            };
            &&& r is Ok
            &&& r->Ok_0.len() == len
            &&& 0 <= i < len ==> {
                &&& 0 <= i / cs < chain.len() - k
                &&& r->Ok_0[i] == d.read_cluster(chain[k + i / cs])->Ok_0[i % cs]
            }
        }),
    decreases chain.len() - k,
{
    let cs = d.geo.cluster_size() as int;
    assert((chain.len() - k) * cs == (chain.len() - k - 1) * cs + cs) by (nonlinear_arith);
    if k < chain.len() {
        let b = d.read_cluster(chain[k])->Ok_0;
        assert(d.read_cluster(chain[k]) is Ok);
        assert(b.len() == cs);
        assert((chain.len() - k - 1) * cs >= 0) by (nonlinear_arith)
            requires
                chain.len() - k - 1 >= 0,
                cs >= 0,
        ;
        if 0 <= i < cs {
            assert(i / cs == 0 && i % cs == i) by (nonlinear_arith)
                requires
                    0 <= i < cs,
            ;
        }
        if size > cs {
            lemma_data_bytes(d, chain, k + 1, (size - cs) as nat, i - cs);
            if i >= cs {
                vstd::arithmetic::div_mod::lemma_div_plus_one(i - cs, cs);
                vstd::arithmetic::div_mod::lemma_mod_add_multiples_vanish(i - cs, cs);
                assert((i - cs + cs) / cs == (i - cs) / cs + 1) by (nonlinear_arith)
                    requires
                        cs > 0,
                ;
            }
        }
    } else {
        assert((chain.len() - k) * cs == 0) by (nonlinear_arith)
            requires
                chain.len() - k == 0,
        ;
    }
}

/// A file cannot be read if one of the clusters cannot that hold its bytes. The first of these
/// decides on the error.
pub proof fn law_file_unreadable(d: Disk, e: DirentView, k: int)
    requires
        1 <= d.geo.sectors_per_cluster,
        !e.is_directory(),
        d.chain(e.first_cluster) is Ok,
        0 <= k < d.chain(e.first_cluster)->Ok_0.len(),
        k == 0 || k * (512 * d.geo.sectors_per_cluster) < e.file_size,
        d.read_cluster(d.chain(e.first_cluster)->Ok_0[k]) is Err,
        ({
            let chain = d.chain(e.first_cluster)->Ok_0;
            forall|m: int| 0 <= m < k ==> d.read_cluster(#[trigger] chain[m]) is Ok
        }),
    ensures
        d.read_file(e) == Err::<Seq<u8>, ErrView>(
            d.read_cluster(d.chain(e.first_cluster)->Ok_0[k])->Err_0,
        ),
{
    let chain = d.chain(e.first_cluster)->Ok_0;
    lemma_data_unreadable(d, chain, 0, e.file_size as nat, k);
}

proof fn lemma_data_unreadable(d: Disk, chain: Seq<u32>, i: int, size: nat, k: int)
    requires
        1 <= d.geo.sectors_per_cluster,
        0 <= i <= k < chain.len(),
        k == i || (k - i) * d.geo.cluster_size() < size,
        d.read_cluster(chain[k]) is Err,
        forall|m: int| i <= m < k ==> d.read_cluster(#[trigger] chain[m]) is Ok,
    ensures
        d.read_data(chain, i, size) == Err::<Seq<u8>, ErrView>(d.read_cluster(chain[k])->Err_0),
    decreases k - i,
{
    let cs = d.geo.cluster_size();
    if i < k {
        assert(d.read_cluster(chain[i]) is Ok);
        assert((k - i) * cs == (k - i - 1) * cs + cs) by (nonlinear_arith);
        assert((k - i - 1) * cs >= 0) by (nonlinear_arith)
            requires
                k - i - 1 >= 0,
                cs >= 0,
        ;
        assert(size > cs);
        lemma_data_unreadable(d, chain, i + 1, (size - cs) as nat, k);
    }
}

/// A directory has no contents to read.
pub proof fn law_directory_not_read(d: Disk, e: DirentView, offset: nat, len: nat)
    requires
        e.is_directory(),
    ensures
        d.read_file(e) == Err::<Seq<u8>, ErrView>(ErrView::IsADirectory(e.filename())),
        d.read_range(e, offset, len) == Err::<Seq<u8>, ErrView>(
            ErrView::IsADirectory(e.filename()),
        ),
{
}

/// What can be read is not a directory.
pub proof fn law_readable_is_a_file(d: Disk, e: DirentView)
    ensures
        d.read_file(e) is Ok ==> !e.is_directory(),
{
}

// ---------------------------------------------------------------------------
// Deleting
// ---------------------------------------------------------------------------

/// A directory that is not empty is not deleted, and nothing changes.
pub proof fn law_filled_directory_stays(d: Disk, path: Seq<char>)
    requires
        d.resolve(parent_of(path)) is Ok,
        d.resolve(path) is Ok,
        d.resolve(path)->Ok_0.is_directory(),
        d.entries(d.resolve(path)->Ok_0.first_cluster) is Ok,
        d.entries(d.resolve(path)->Ok_0.first_cluster)->Ok_0.len() > 0,
    ensures
        d.delete(path) == (d, Err::<(), ErrView>(ErrView::DirectoryNotEmpty(path))),
{
}

/// A file whose chain is broken is not deleted, and nothing changes.
pub proof fn law_broken_file_stays(d: Disk, path: Seq<char>)
    requires
        d.resolve(parent_of(path)) is Ok,
        d.resolve(path) is Ok,
        !d.resolve(path)->Ok_0.is_directory(),
        d.chain(d.resolve(path)->Ok_0.first_cluster) is Err,
    ensures
        d.delete(path) == (
            d,
            Err::<(), ErrView>(d.chain(d.resolve(path)->Ok_0.first_cluster)->Err_0),
        ),
{
}

/// What is not there cannot be deleted, and nothing changes.
pub proof fn law_nothing_to_delete(d: Disk, path: Seq<char>)
    requires
        d.resolve(path) is Err,
    ensures
        d.delete(path).0 == d,
        d.delete(path).1 is Err,
        d.resolve(parent_of(path)) is Ok ==> d.delete(path).1 == Err::<(), ErrView>(
            d.resolve(path)->Err_0,
        ),
{
}

// ---------------------------------------------------------------------------
// Free clusters
// ---------------------------------------------------------------------------

/// The clusters that are taken when some are needed: free ones, the lowest first, and no more
/// than are needed. Fewer are found only if there are no more.
pub proof fn law_lowest_free_first(d: Disk, c: int, count: nat)
    requires
        0 <= c,
        d.free_from(c, count) is Ok,
    ensures
        ({
            let list = d.free_from(c, count)->Ok_0;
            &&& list.len() <= count
            &&& forall|i: int|
                0 <= i < list.len() ==> c <= #[trigger] list[i] <= d.geo.total_clusters
                    && d.read_fat(list[i]) == Ok::<FatEntry, ErrView>(FatEntry::Free)
            &&& forall|i: int, j: int| 0 <= i < j < list.len() ==> list[i] < list[j]
            &&& forall|x: u32|
                c <= x <= d.geo.total_clusters && #[trigger] d.read_fat(x) == Ok::<
                    FatEntry,
                    ErrView,
                >(FatEntry::Free) ==> list.contains(x) || list.len() == count && (count == 0 || x
                    > list.last())
        }),
    decreases d.geo.total_clusters + 1 - c,
{
    let list = d.free_from(c, count)->Ok_0;
    if count > 0 && c <= d.geo.total_clusters {
        let here = c as u32;
        if d.read_fat(here)->Ok_0 == FatEntry::Free {
            let n = (count - 1) as nat;
            law_lowest_free_first(d, c + 1, n);
            let rest = d.free_from(c + 1, n)->Ok_0;
            assert(list == seq![here] + rest);
            assert forall|x: u32|
                c <= x <= d.geo.total_clusters && #[trigger] d.read_fat(x) == Ok::<
                    FatEntry,
                    ErrView,
                >(FatEntry::Free) implies list.contains(x) || list.len() == count && (count == 0
                || x > list.last()) by {
                if x == here {
                    assert(list[0] == x);
                } else if rest.contains(x) {
                    let k = choose|k: int| 0 <= k < rest.len() && rest[k] == x;
                    assert(list[k + 1] == x);
                }
            }
        } else {
            law_lowest_free_first(d, c + 1, count);
        }
    }
}

} // verus!
