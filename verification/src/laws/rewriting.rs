//! Laws of replacing the contents of a file in place.

use vstd::prelude::*;
use crate::bytes::lemma_u32_roundtrip;
use crate::disk::{
    chunk, clusters_needed, encodable, find_entry, parse_dirent, resized_bytes, Disk,
};
use crate::error::ErrView;
use crate::laws::chain_facts::{
    all_in_range, disjoint, is_chain, lemma_allocate_chain, lemma_chain_distinct,
    lemma_chain_in_range, lemma_chain_in_use, lemma_chain_kept, lemma_cluster_kept,
    lemma_distinct_len, lemma_enough_clusters, lemma_follow_chain, lemma_followed_chain,
    lemma_write_data, linkable, linked,
};
use crate::laws::creation::{
    intact, lemma_file_contents, lemma_intact_kept, lemma_resolve_kept, lemma_resolve_path,
    lemma_size_fits, walk_clear,
};
use crate::laws::dir_facts::{lemma_find_cons, lemma_listing_in_range, lemma_listing_kept};
use crate::laws::frame::{
    lemma_fat_writable, lemma_touches_refl, lemma_touches_trans, lemma_touches_widen,
    lemma_write_fat, lemma_write_part, part, touches,
};
use crate::laws::keeping::{lemma_file_in_range, lemma_file_kept};
use crate::laws::removal::{
    lemma_apart_avoids, lemma_find_replaced, lemma_find_slot, lemma_free_all,
    lemma_replaced_listing, lemma_resolved_in_parent, lemma_slot_replaced,
    lemma_walk_after_change, stands_apart, walk_apart, walk_avoids, with_first_replaced,
};
use crate::path::{name_of, parent_of, parts};
use crate::text::same_name;
use crate::types::{DirentView, FatEntry, DIRENT_SIZE, FIRST_CLUSTER};

verus! {

// ---------------------------------------------------------------------------
// Clusters
// ---------------------------------------------------------------------------

/// The clusters that a chain gets when it is to have `count`.
pub open spec fn added_clusters(d: Disk, chain: Seq<u32>, count: nat) -> Seq<u32> {
    if count > chain.len() {
        d.free_from(FIRST_CLUSTER as int, (count - chain.len()) as nat)->Ok_0
    } else {
        seq![]
    }
}

/// The clusters that fitting a chain touches: its own and those that it gets.
pub open spec fn fitted_zone(d: Disk, chain: Seq<u32>, count: nat) -> Set<u32> {
    chain.to_set().union(added_clusters(d, chain, count).to_set())
}

/// The numbers of the clusters that a chain gets can be stored as links.
pub open spec fn growable(d: Disk, chain: Seq<u32>, count: nat) -> bool {
    count > chain.len() ==> {
        let more = added_clusters(d, chain, count);
        linkable(d.geo, more) && encodable(d.geo.fat_type, FatEntry::Next(more[0]))
    }
}

/// What fitting a chain gives.
pub open spec fn fitted(d: Disk, d2: Disk, chain: Seq<u32>, count: nat, list: Seq<u32>) -> bool {
    &&& list.len() == count
    &&& list[0] == chain[0]
    &&& is_chain(d2, list)
    &&& all_in_range(d.geo, list)
    &&& d2.bytes.len() == d.bytes.len()
    &&& touches(d, d2, fitted_zone(d, chain, count), Set::empty())
    &&& forall|k: int| 0 <= k < list.len() ==> fitted_zone(d, chain, count).contains(#[trigger] list[k])
    &&& forall|j: int|
        count <= j < chain.len() ==> d2.read_fat(#[trigger] chain[j]) == Ok::<FatEntry, ErrView>(
            FatEntry::Free,
        )
}

/// Two chains, the end of the first linked to the start of the second, are one.
proof fn lemma_appended(d: Disk, chain: Seq<u32>, more: Seq<u32>)
    requires
        intact(d),
        is_chain(d, chain),
        is_chain(d, more),
        all_in_range(d.geo, chain),
        all_in_range(d.geo, more),
        disjoint(chain, more),
        encodable(d.geo.fat_type, FatEntry::Next(more[0])),
    ensures
        ({
            let r = d.write_fat(chain.last(), FatEntry::Next(more[0]));
            let list = chain + more;
            &&& r is Ok
            &&& is_chain(r->Ok_0, list)
            &&& r->Ok_0.chain(chain[0]) == Ok::<Seq<u32>, ErrView>(list)
            &&& all_in_range(d.geo, list)
            &&& r->Ok_0.bytes.len() == d.bytes.len()
            &&& touches(d, r->Ok_0, set![chain.last()], Set::empty())
        }),
{
    let n = chain.len() as int;
    let last = chain.last();
    lemma_chain_distinct(d, chain);
    lemma_chain_distinct(d, more);
    assert(d.geo.in_range(chain[n - 1]));
    assert(linked(d, chain, n - 1));
    lemma_fat_writable(d, last, FatEntry::Next(more[0]));
    lemma_write_fat(d, last, FatEntry::Next(more[0]));
    let d2 = d.write_fat(last, FatEntry::Next(more[0]))->Ok_0;
    let list = chain + more;
    assert(d.geo.in_range(more[0]));
    assert forall|k: int| 0 <= k < list.len() implies #[trigger] linked(d2, list, k) by {
        if k < n - 1 {
            assert(linked(d, chain, k));
            assert(list[k] == chain[k] && list[k + 1] == chain[k + 1]);
            assert(chain[k] != chain[n - 1]);
        } else if k == n - 1 {
            assert(list[k + 1] == more[0]);
        } else {
            assert(linked(d, more, k - n));
            assert(list[k] == more[k - n]);
            assert(chain[n - 1] != more[k - n]);
        }
    }
    assert forall|k: int| 0 <= k < list.len() implies d.geo.in_range(#[trigger] list[k]) by {
        if k < n {
            assert(d.geo.in_range(chain[k]));
        } else {
            assert(d.geo.in_range(more[k - n]));
        }
    }
    assert forall|i: int, j: int| 0 <= i < j < list.len() implies #[trigger] list[i]
        != #[trigger] list[j] by {
        if i < n && j >= n {
            assert(chain[i] != more[j - n]);
        }
    }
    assert(list.no_duplicates());
    lemma_distinct_len(d.geo, list);
    lemma_follow_chain(d2, list, (d.geo.total_clusters + 1) as nat);
    assert(list[0] == chain[0]);
}

proof fn lemma_grown(d: Disk, chain: Seq<u32>, count: nat)
    requires
        intact(d),
        is_chain(d, chain),
        all_in_range(d.geo, chain),
        count > chain.len(),
        growable(d, chain, count),
        d.allocate_chain((count - chain.len()) as nat).1 is Ok,
    ensures
        d.fit_chain(chain, count).1 is Ok,
        fitted(d, d.fit_chain(chain, count).0, chain, count, d.fit_chain(chain, count).1->Ok_0),
{
    let n = chain.len() as int;
    let extra = (count - chain.len()) as nat;
    let more = added_clusters(d, chain, count);
    assert(d.allocate_chain(extra).1 is Ok);
    crate::directory::lemma_free_in_range(d, FIRST_CLUSTER as int, extra);
    lemma_allocate_chain(d, extra);
    let d1 = d.allocate_chain(extra).0;
    lemma_intact_kept(d, d1);
    assert forall|i: int, j: int| 0 <= i < chain.len() && 0 <= j < more.len() implies
        #[trigger] chain[i] != #[trigger] more[j] by {
        assert(chain.contains(chain[i]));
        lemma_chain_in_use(d, chain, chain[i]);
        assert(d.read_fat(more[j]) == Ok::<FatEntry, ErrView>(FatEntry::Free));
    }
    assert forall|k: int| 0 <= k < chain.len() implies !more.to_set().contains(#[trigger] chain[k]) by {
        if more.to_set().contains(chain[k]) {
            let j = choose|j: int| 0 <= j < more.len() && more[j] == chain[k];
            assert(chain[k] != more[j]);
        }
    }
    lemma_chain_kept(d, d1, chain, more.to_set(), Set::empty());
    lemma_appended(d1, chain, more);
    let last = chain.last();
    let d2 = d1.write_fat(last, FatEntry::Next(more[0]))->Ok_0;
    let list = chain + more;
    assert(d.fit_chain(chain, count) == (d2, Ok::<Seq<u32>, ErrView>(list)));
    lemma_touches_trans(d, d1, d2, more.to_set(), Set::empty(), set![last], Set::empty());
    assert(chain.contains(chain[n - 1]));
    assert(Set::<u32>::empty().union(Set::empty()) =~= Set::<u32>::empty());
    let zone = fitted_zone(d, chain, count);
    lemma_touches_widen(
        d,
        d2,
        more.to_set().union(set![last]),
        Set::empty(),
        zone,
        Set::empty(),
    );
    assert forall|k: int| 0 <= k < list.len() implies zone.contains(#[trigger] list[k]) by {
        if k < n {
            assert(chain.contains(chain[k]));
        } else {
            assert(more.contains(more[k - n]));
        }
    }
}

#[verifier::rlimit(50)]
proof fn lemma_shrunk(d: Disk, chain: Seq<u32>, count: nat)
    requires
        intact(d),
        is_chain(d, chain),
        all_in_range(d.geo, chain),
        0 < count < chain.len(),
    ensures
        d.fit_chain(chain, count).1 is Ok,
        fitted(d, d.fit_chain(chain, count).0, chain, count, d.fit_chain(chain, count).1->Ok_0),
{
    let c = chain[count - 1];
    let list = chain.take(count as int);
    let rest = chain.skip(count as int);
    lemma_chain_distinct(d, chain);
    assert(d.geo.in_range(c));
    assert(d.read_fat(c) is Ok);
    lemma_fat_writable(d, c, FatEntry::EndOfChain);
    lemma_write_fat(d, c, FatEntry::EndOfChain);
    let d1 = d.write_fat(c, FatEntry::EndOfChain)->Ok_0;
    lemma_intact_kept(d, d1);
    assert forall|k: int| 0 <= k < rest.len() implies #[trigger] rest[k] <= d1.geo.total_clusters by {
        assert(d.geo.in_range(chain[count + k]));
    }
    lemma_free_all(d1, rest, 0);
    let d2 = d1.free_all(rest, 0).0;
    assert forall|j: int| count <= j < chain.len() implies d2.read_fat(#[trigger] chain[j]) == Ok::<
        FatEntry,
        ErrView,
    >(FatEntry::Free) by {
        assert(rest[j - count] == chain[j]);
    }
    assert forall|k: int| 0 <= k < list.len() implies !rest.to_set().contains(#[trigger] list[k]) by {
        if rest.to_set().contains(list[k]) {
            let j = choose|j: int| 0 <= j < rest.len() && rest[j] == list[k];
            assert(chain[count + j] == chain[k]);
        }
    }
    assert forall|k: int| 0 <= k < list.len() implies #[trigger] linked(d1, list, k) by {
        assert(linked(d, chain, k));
        if k + 1 < list.len() {
            assert(chain[k] != chain[count - 1]);
        }
    }
    assert forall|k: int| 0 <= k < list.len() implies d.geo.in_range(#[trigger] list[k]) by {
        assert(d.geo.in_range(chain[k]));
    }
    lemma_chain_kept(d1, d2, list, rest.to_set(), Set::empty());
    lemma_touches_trans(d, d1, d2, set![c], Set::empty(), rest.to_set(), Set::empty());
    assert(Set::<u32>::empty().union(Set::empty()) =~= Set::<u32>::empty());
    let zone = fitted_zone(d, chain, count);
    assert(chain.contains(chain[count - 1]));
    assert forall|x: u32| rest.to_set().contains(x) implies zone.contains(x) by {
        let j = choose|j: int| 0 <= j < rest.len() && rest[j] == x;
        assert(chain[count + j] == x);
    }
    lemma_touches_widen(
        d,
        d2,
        set![c].union(rest.to_set()),
        Set::empty(),
        zone,
        Set::empty(),
    );
    assert forall|k: int| 0 <= k < list.len() implies zone.contains(#[trigger] list[k]) by {
        assert(chain.contains(chain[k]));
    }
}

/// A chain that is fitted has the clusters that were asked for, and nothing else is touched.
pub proof fn lemma_fit_chain(d: Disk, chain: Seq<u32>, count: nat)
    requires
        intact(d),
        is_chain(d, chain),
        all_in_range(d.geo, chain),
        count > 0,
        growable(d, chain, count),
        count > chain.len() ==> d.allocate_chain((count - chain.len()) as nat).1 is Ok,
    ensures
        d.fit_chain(chain, count).1 is Ok,
        fitted(d, d.fit_chain(chain, count).0, chain, count, d.fit_chain(chain, count).1->Ok_0),
{
    if count > chain.len() {
        lemma_grown(d, chain, count);
    } else if count < chain.len() {
        lemma_shrunk(d, chain, count);
    } else {
        lemma_touches_refl(d);
        let zone = fitted_zone(d, chain, count);
        lemma_touches_widen(d, d, Set::empty(), Set::empty(), zone, Set::empty());
        assert forall|k: int| 0 <= k < chain.len() implies zone.contains(#[trigger] chain[k]) by {
            assert(chain.contains(chain[k]));
        }
    }
}

// ---------------------------------------------------------------------------
// The way
// ---------------------------------------------------------------------------

/// Every cluster of the zone is one of `list` or free.
pub open spec fn zone_of(d: Disk, list: Seq<u32>, zone: Set<u32>) -> bool {
    forall|x: u32| #[trigger] zone.contains(x) ==> list.contains(x) || d.read_fat(x) == Ok::<
        FatEntry,
        ErrView,
    >(FatEntry::Free)
}

/// A directory apart from `list` is not in the zone.
proof fn lemma_outside_zone(d: Disk, c: u32, list: Seq<u32>, zone: Set<u32>)
    requires
        d.geo.valid(),
        d.entries(c) is Ok,
        disjoint(d.chain(c)->Ok_0, list),
        zone_of(d, list, zone),
    ensures
        forall|k: int|
            0 <= k < d.chain(c)->Ok_0.len() ==> !zone.contains(#[trigger] d.chain(c)->Ok_0[k]),
{
    let t = d.chain(c)->Ok_0;
    lemma_listing_in_range(d, c);
    assert forall|k: int| 0 <= k < t.len() implies !zone.contains(#[trigger] t[k]) by {
        assert(t.contains(t[k]));
        lemma_chain_in_use(d, t, t[k]);
        if list.contains(t[k]) {
            let j = choose|j: int| 0 <= j < list.len() && list[j] == t[k];
            assert(t[k] != list[j]);
        }
    }
}

/// A way apart from a file is as before when the file has been written.
proof fn lemma_walk_beside(
    d: Disk,
    d2: Disk,
    c: u32,
    names: Seq<Seq<char>>,
    i: int,
    list: Seq<u32>,
    zone: Set<u32>,
    p: u32,
    name: Seq<char>,
)
    requires
        0 <= i,
        intact(d),
        zone_of(d, list, zone),
        touches(d, d2, zone, zone),
        d.resolve_from(c, names, i) is Ok,
        walk_apart(d, c, names, i, list),
        walk_clear(d, c, names, i, p),
        walk_avoids(d, c, names, i, p, name),
        d.chain(p) == d2.chain(p),
    ensures
        d2.resolve_from(c, names, i) == d.resolve_from(c, names, i),
        walk_clear(d2, c, names, i, p),
        walk_avoids(d2, c, names, i, p, name),
    decreases names.len() - i,
{
    if i < names.len() {
        lemma_outside_zone(d, c, list, zone);
        lemma_listing_kept(d, d2, c, zone, zone);
        let e = find_entry(d.entries(c)->Ok_0, names[i])->Some_0;
        if i + 1 < names.len() {
            lemma_walk_beside(d, d2, e.first_cluster, names, i + 1, list, zone, p, name);
        } else {
            assert(walk_avoids(d2, e.first_cluster, names, i + 1, p, name));
            assert(walk_clear(d2, e.first_cluster, names, i + 1, p));
        }
    }
}

// ---------------------------------------------------------------------------
// The entry
// ---------------------------------------------------------------------------

/// An entry with another size.
pub open spec fn resized(e: DirentView, size: u32) -> DirentView {
    DirentView { file_size: size, ..e }
}

/// Replacing the size in the bytes of an entry gives the entry with another size.
pub proof fn lemma_resized_bytes(big_endian: bool, raw: Seq<u8>, size: u32)
    requires
        raw.len() == DIRENT_SIZE,
    ensures
        ({
            let new_raw = resized_bytes(big_endian, raw, size);
            &&& new_raw.len() == DIRENT_SIZE
            &&& new_raw[0] == raw[0]
            &&& parse_dirent(big_endian, new_raw) == resized(parse_dirent(big_endian, raw), size)
        }),
{
    let new_raw = resized_bytes(big_endian, raw, size);
    let t = if big_endian { 2int } else { 0int };
    let d = 2 - t;
    lemma_u32_roundtrip(big_endian, size);
    assert(new_raw.subrange(2, 44) =~= raw.subrange(2, 44));
    assert(new_raw.subrange(44, 48) =~= raw.subrange(44, 48));
    assert(new_raw.subrange(48, 52) =~= crate::bytes::u32_bytes(big_endian, size));
    assert(new_raw.subrange(52 + t, 54 + t) =~= raw.subrange(52 + t, 54 + t));
    assert(new_raw.subrange(52 + d, 54 + d) =~= raw.subrange(52 + d, 54 + d));
    assert(new_raw.subrange(56 + t, 58 + t) =~= raw.subrange(56 + t, 58 + t));
    assert(new_raw.subrange(56 + d, 58 + d) =~= raw.subrange(56 + d, 58 + d));
    assert(new_raw.subrange(60 + t, 62 + t) =~= raw.subrange(60 + t, 62 + t));
    assert(new_raw.subrange(60 + d, 62 + d) =~= raw.subrange(60 + d, 62 + d));
}

proof fn lemma_find_first_replaced(entries: Seq<DirentView>, name: Seq<char>, e: DirentView)
    requires
        find_entry(entries, name) is Some,
        same_name(e.filename(), name),
    ensures
        find_entry(with_first_replaced(entries, name, e), name) == Some(e),
    decreases entries.len(),
{
    if entries.len() > 0 {
        if same_name(entries[0].filename(), name) {
            lemma_find_cons(e, entries.drop_first(), name);
        } else {
            lemma_find_first_replaced(entries.drop_first(), name, e);
            lemma_find_cons(
                entries[0],
                with_first_replaced(entries.drop_first(), name, e),
                name,
            );
        }
    }
}

/// Setting the size in an entry changes that entry, and touches its directory only.
pub proof fn lemma_resize_entry(d: Disk, p: u32, name: Seq<char>, size: u32)
    requires
        intact(d),
        d.entries(p) is Ok,
        find_entry(d.entries(p)->Ok_0, name) is Some,
    ensures
        ({
            let (d2, r) = d.resize_entry(p, name, size);
            let before = d.entries(p)->Ok_0;
            let after = d2.entries(p)->Ok_0;
            &&& r is Ok
            &&& touches(d, d2, Set::empty(), d.chain(p)->Ok_0.to_set())
            &&& d2.entries(p) is Ok
            &&& find_entry(after, name) == Some(resized(find_entry(before, name)->Some_0, size))
            &&& after == with_first_replaced(
                before,
                name,
                resized(find_entry(before, name)->Some_0, size),
            )
            &&& forall|other: Seq<char>|
                !same_name(name, other) && find_entry(before, other) is Some
                    ==> #[trigger] find_entry(after, other) == find_entry(before, other)
        }),
{
    let s = d.chain(p)->Ok_0;
    lemma_listing_in_range(d, p);
    lemma_find_slot(d, s, name, 0, 0);
    let (i, j) = d.find_slot(s, name, None, 0, 0)->Ok_0->Some_0;
    let raw = d.slot(s, i, j, DIRENT_SIZE as nat)->Ok_0;
    let e = find_entry(d.entries(p)->Ok_0, name)->Some_0;
    let new_raw = resized_bytes(d.geo.big_endian, raw, size);
    lemma_resized_bytes(d.geo.big_endian, raw, size);
    assert(new_raw =~= new_raw + raw.skip(new_raw.len() as int));
    lemma_slot_replaced(d, s, i, j, new_raw, new_raw);
    let d2 = d.resize_entry(p, name, size).0;
    lemma_replaced_listing(d, d2, s, name, i, j, new_raw, 0, 0);
    lemma_chain_kept(d, d2, s, Set::empty(), set![s[i]]);
    lemma_follow_chain(d2, s, (d.geo.total_clusters + 1) as nat);
    assert(s.to_set().contains(s[i]));
    lemma_touches_widen(d, d2, Set::empty(), set![s[i]], Set::empty(), s.to_set());
    let new = resized(e, size);
    assert(new.filename() == e.filename());
    lemma_find_first_replaced(d.entries(p)->Ok_0, name, new);
    assert forall|other: Seq<char>|
        !same_name(name, other) && find_entry(d.entries(p)->Ok_0, other)
            is Some implies #[trigger] find_entry(d2.entries(p)->Ok_0, other) == find_entry(
        d.entries(p)->Ok_0,
        other,
    ) by {
        lemma_find_replaced(d.entries(p)->Ok_0, name, new, other);
    }
}

// ---------------------------------------------------------------------------
// Replacing the contents
// ---------------------------------------------------------------------------

/// The clusters of the file that a path leads to.
pub open spec fn clusters_at(d: Disk, path: Seq<char>) -> Seq<u32> {
    d.chain(d.resolve(path)->Ok_0.first_cluster)->Ok_0
}

/// What has to hold for new contents to be found afterwards: the file has clusters of the
/// volume, shares none of them with the directories on the way, and the numbers of the
/// clusters that it gets can be stored as links.
pub open spec fn rewritable(d: Disk, path: Seq<char>, count: nat) -> bool {
    &&& intact(d)
    &&& name_of(path).len() > 0
    &&& d.geo.in_range(d.resolve(path)->Ok_0.first_cluster)
    &&& stands_apart(d, path)
    &&& growable(d, clusters_at(d, path), count)
}

/// The state between writing the contents and setting the size.
pub open spec fn half_rewritten(
    d: Disk,
    d2: Disk,
    path: Seq<char>,
    data: Seq<u8>,
    list: Seq<u32>,
) -> bool {
    let size = d.geo.cluster_size();
    let count = clusters_needed(data.len(), size);
    let zone = fitted_zone(d, clusters_at(d, path), count);
    &&& intact(d2)
    &&& d2.geo == d.geo
    &&& touches(d, d2, zone, zone)
    &&& zone_of(d, clusters_at(d, path), zone)
    &&& list.len() == count
    &&& list[0] == d.resolve(path)->Ok_0.first_cluster
    &&& is_chain(d2, list)
    &&& all_in_range(d.geo, list)
    &&& forall|k: int| 0 <= k < list.len() ==> zone.contains(#[trigger] list[k])
    &&& forall|k: int|
        0 <= k < list.len() && k * size < data.len() ==> #[trigger] d2.read_cluster(list[k])
            == Ok::<Seq<u8>, ErrView>(chunk(data, size, k))
    &&& data.len() == 0 && d.read_cluster(list[0]) is Ok ==> d2.read_cluster(list[0]) is Ok
    &&& forall|j: int|
        count <= j < clusters_at(d, path).len() ==> d2.read_fat(
            #[trigger] clusters_at(d, path)[j],
        ) == Ok::<FatEntry, ErrView>(FatEntry::Free)
}

/// Replacing contents goes through that state.
pub proof fn lemma_half_rewritten(d: Disk, path: Seq<char>, data: Seq<u8>) -> (r: (Disk, Seq<u32>))
    requires
        d.rewrite_file(path, data).1 is Ok,
        rewritable(d, path, clusters_needed(data.len(), d.geo.cluster_size())),
    ensures
        half_rewritten(d, r.0, path, data, r.1),
        d.resolve(path) is Ok,
        !d.resolve(path)->Ok_0.is_directory(),
        d.rewrite_file(path, data) == r.0.resize_entry(
            d.resolve(parent_of(path))->Ok_0.first_cluster,
            name_of(path),
            (data.len() % 0x1_0000_0000) as u32,
        ),
{
    let size = d.geo.cluster_size();
    let count = clusters_needed(data.len(), size);
    let first = d.resolve(path)->Ok_0.first_cluster;
    let chain = clusters_at(d, path);
    assert(d.chain(first) is Ok);
    lemma_followed_chain(d, first, (d.geo.total_clusters + 1) as nat);
    lemma_chain_in_range(d, chain);
    lemma_enough_clusters(data.len(), size);
    assert(d.fit_chain(chain, count).1 is Ok);
    lemma_fit_chain(d, chain, count);
    let (d1, fit) = d.fit_chain(chain, count);
    let list = fit->Ok_0;
    let zone = fitted_zone(d, chain, count);
    lemma_chain_distinct(d1, list);
    assert(d1.write_data(list, data, 0).1 is Ok);
    lemma_write_data(d1, list, data, 0);
    let d2 = d1.write_data(list, data, 0).0;
    lemma_touches_trans(d, d1, d2, zone, Set::empty(), Set::empty(), list.to_set());
    assert forall|x: u32| list.to_set().contains(x) implies zone.contains(x) by {
        let j = choose|j: int| 0 <= j < list.len() && list[j] == x;
        assert(zone.contains(list[j]));
    }
    lemma_touches_widen(
        d,
        d2,
        zone.union(Set::empty()),
        Set::<u32>::empty().union(list.to_set()),
        zone,
        zone,
    );
    lemma_intact_kept(d, d2);
    lemma_chain_kept(d1, d2, list, Set::empty(), list.to_set());
    assert forall|j: int| count <= j < chain.len() implies d2.read_fat(#[trigger] chain[j]) == Ok::<
        FatEntry,
        ErrView,
    >(FatEntry::Free) by {
        assert(d.geo.in_range(chain[j]));
        assert(d1.read_fat(chain[j]) == Ok::<FatEntry, ErrView>(FatEntry::Free));
    }
    assert forall|x: u32| #[trigger] zone.contains(x) implies chain.contains(x) || d.read_fat(x)
        == Ok::<FatEntry, ErrView>(FatEntry::Free) by {
        let more = added_clusters(d, chain, count);
        if more.to_set().contains(x) {
            let extra = (count - chain.len()) as nat;
            crate::directory::lemma_free_in_range(d, FIRST_CLUSTER as int, extra);
            let j = choose|j: int| 0 <= j < more.len() && more[j] == x;
            assert(d.read_fat(more[j]) == Ok::<FatEntry, ErrView>(FatEntry::Free));
        }
    }
    if data.len() == 0 && d.read_cluster(list[0]) is Ok {
        lemma_cluster_kept(d, d1, zone, Set::empty(), list[0]);
        assert(d2 == d1);
    }
    (d2, list)
}

/// The way to a file that is being rewritten, and its directory, are as before.
proof fn lemma_way_beside_rewritten(d: Disk, d2: Disk, path: Seq<char>, data: Seq<u8>, list: Seq<u32>)
    requires
        rewritable(d, path, clusters_needed(data.len(), d.geo.cluster_size())),
        d.resolve(path) is Ok,
        d.chain(d.resolve(path)->Ok_0.first_cluster) is Ok,
        half_rewritten(d, d2, path, data, list),
    ensures
        ({
            let names = parts(parent_of(path));
            let p = d.resolve(parent_of(path))->Ok_0.first_cluster;
            &&& d.entries(p) is Ok
            &&& d2.entries(p) == d.entries(p)
            &&& d2.chain(p) == d.chain(p)
            &&& d2.resolve_from(FIRST_CLUSTER, names, 0) == d.resolve_from(
                FIRST_CLUSTER,
                names,
                0,
            )
            &&& d2.resolve(parent_of(path)) == d.resolve(parent_of(path))
            &&& walk_clear(d2, FIRST_CLUSTER, names, 0, p)
            &&& walk_avoids(d2, FIRST_CLUSTER, names, 0, p, name_of(path))
            &&& disjoint(list, d.chain(p)->Ok_0)
        }),
{
    let names = parts(parent_of(path));
    let p = d.resolve(parent_of(path))->Ok_0.first_cluster;
    let chain = clusters_at(d, path);
    let zone = fitted_zone(d, chain, clusters_needed(data.len(), d.geo.cluster_size()));
    lemma_resolved_in_parent(d, path);
    lemma_followed_chain(
        d,
        d.resolve(path)->Ok_0.first_cluster,
        (d.geo.total_clusters + 1) as nat,
    );
    lemma_outside_zone(d, p, chain, zone);
    lemma_listing_kept(d, d2, p, zone, zone);
    lemma_apart_avoids(d, FIRST_CLUSTER, names, 0, p, name_of(path), chain);
    lemma_walk_beside(d, d2, FIRST_CLUSTER, names, 0, chain, zone, p, name_of(path));
    let s = d.chain(p)->Ok_0;
    assert forall|i: int, j: int| 0 <= i < list.len() && 0 <= j < s.len() implies
        #[trigger] list[i] != #[trigger] s[j] by {
        assert(zone.contains(list[i]));
        assert(!zone.contains(s[j]));
    }
}

/// A file whose contents have been replaced reads back as it was written, and its entry is as
/// it was but for the size. Nothing has been touched but the clusters that the file had or
/// has got, and the directory that holds it.
///
/// Left out are contents of more than 4 GiB, whose size the entry cannot hold; clusters whose
/// numbers cannot be stored as links; an empty file whose cluster lies behind the end of the
/// device; and files that share clusters with the directories on the way.
pub proof fn law_rewritten_file_reads_back(d: Disk, path: Seq<char>, data: Seq<u8>)
    requires
        d.rewrite_file(path, data).1 is Ok,
        data.len() <= u32::MAX,
        rewritable(d, path, clusters_needed(data.len(), d.geo.cluster_size())),
        data.len() == 0 ==> d.read_cluster(d.resolve(path)->Ok_0.first_cluster) is Ok,
    ensures
        ({
            let d2 = d.rewrite_file(path, data).0;
            let count = clusters_needed(data.len(), d.geo.cluster_size());
            let zone = fitted_zone(d, clusters_at(d, path), count);
            let dir = d.chain(d.resolve(parent_of(path))->Ok_0.first_cluster)->Ok_0;
            &&& d2.read_path(path) == Ok::<Seq<u8>, ErrView>(data)
            &&& d2.resolve(path) == Ok::<DirentView, ErrView>(
                resized(d.resolve(path)->Ok_0, data.len() as u32),
            )
            &&& touches(d, d2, zone, zone.union(dir.to_set()))
        }),
{
    let name = name_of(path);
    let names = parts(parent_of(path));
    let (d2, list) = lemma_half_rewritten(d, path, data);
    lemma_way_beside_rewritten(d, d2, path, data, list);
    lemma_resolved_in_parent(d, path);
    let p = d.resolve(parent_of(path))->Ok_0.first_cluster;
    let e = d.resolve(path)->Ok_0;
    let size = (data.len() % 0x1_0000_0000) as u32;
    lemma_size_fits(data.len());
    lemma_resize_entry(d2, p, name, size);
    let d3 = d.rewrite_file(path, data).0;
    lemma_walk_after_change(d2, d3, FIRST_CLUSTER, names, 0, p, name);
    lemma_resolve_kept(d2, d3, FIRST_CLUSTER, names, 0);
    lemma_resolve_path(d3, path);
    lemma_contents_kept(d, d2, d3, path, data, list);
    let zone = fitted_zone(
        d,
        clusters_at(d, path),
        clusters_needed(data.len(), d.geo.cluster_size()),
    );
    let dir = d.chain(p)->Ok_0;
    lemma_touches_trans(d, d2, d3, zone, zone, Set::empty(), dir.to_set());
    assert(zone.union(Set::empty()) =~= zone);
}

/// The contents stay when the size is set.
proof fn lemma_contents_kept(
    d: Disk,
    d2: Disk,
    d3: Disk,
    path: Seq<char>,
    data: Seq<u8>,
    list: Seq<u32>,
)
    requires
        half_rewritten(d, d2, path, data, list),
        !d.resolve(path)->Ok_0.is_directory(),
        data.len() <= u32::MAX,
        data.len() == 0 ==> d.read_cluster(list[0]) is Ok,
        d3.geo == d2.geo,
        touches(
            d2,
            d3,
            Set::empty(),
            d.chain(d.resolve(parent_of(path))->Ok_0.first_cluster)->Ok_0.to_set(),
        ),
        disjoint(list, d.chain(d.resolve(parent_of(path))->Ok_0.first_cluster)->Ok_0),
    ensures
        d3.read_file(resized(d.resolve(path)->Ok_0, data.len() as u32)) == Ok::<
            Seq<u8>,
            ErrView,
        >(data),
{
    let dir = d.chain(d.resolve(parent_of(path))->Ok_0.first_cluster)->Ok_0;
    let size = d.geo.cluster_size();
    let e = resized(d.resolve(path)->Ok_0, data.len() as u32);
    lemma_chain_kept(d2, d3, list, Set::empty(), dir.to_set());
    lemma_chain_distinct(d2, list);
    lemma_distinct_len(d.geo, list);
    lemma_follow_chain(d3, list, (d.geo.total_clusters + 1) as nat);
    assert forall|k: int| 0 <= k < list.len() implies !dir.to_set().contains(#[trigger] list[k]) by {
        if dir.to_set().contains(list[k]) {
            let j = choose|j: int| 0 <= j < dir.len() && dir[j] == list[k];
            assert(list[k] != dir[j]);
        }
    }
    assert forall|k: int| 0 <= k < list.len() && k * size < data.len() implies #[trigger] d3.read_cluster(
        list[k],
    ) == Ok::<Seq<u8>, ErrView>(chunk(data, size, k)) by {
        assert(d2.read_cluster(list[k]) is Ok);
        lemma_cluster_kept(d2, d3, Set::empty(), dir.to_set(), list[k]);
    }
    if data.len() == 0 {
        lemma_enough_clusters(data.len(), size);
        assert(!dir.to_set().contains(list[0]));
        lemma_cluster_kept(d2, d3, Set::empty(), dir.to_set(), list[0]);
    }
    lemma_file_contents(d3, e, list, data);
}

/// Replacing the contents of a file leaves every other file as it was that shares no cluster
/// with it or with its directory.
pub proof fn law_rewrite_keeps_other_files(d: Disk, path: Seq<char>, data: Seq<u8>, e: DirentView)
    requires
        d.rewrite_file(path, data).1 is Ok,
        data.len() <= u32::MAX,
        rewritable(d, path, clusters_needed(data.len(), d.geo.cluster_size())),
        data.len() == 0 ==> d.read_cluster(d.resolve(path)->Ok_0.first_cluster) is Ok,
        d.read_file(e) is Ok,
        disjoint(
            d.chain(e.first_cluster)->Ok_0,
            d.chain(d.resolve(parent_of(path))->Ok_0.first_cluster)->Ok_0,
        ),
        disjoint(d.chain(e.first_cluster)->Ok_0, clusters_at(d, path)),
    ensures
        d.rewrite_file(path, data).0.read_file(e) == d.read_file(e),
{
    let t = d.chain(e.first_cluster)->Ok_0;
    let dir = d.chain(d.resolve(parent_of(path))->Ok_0.first_cluster)->Ok_0;
    let chain = clusters_at(d, path);
    let zone = fitted_zone(d, chain, clusters_needed(data.len(), d.geo.cluster_size()));
    let (d2, list) = lemma_half_rewritten(d, path, data);
    law_rewritten_file_reads_back(d, path, data);
    lemma_file_in_range(d, e);
    assert forall|k: int| 0 <= k < t.len() implies !zone.contains(#[trigger] t[k]) && !zone.union(
        dir.to_set(),
    ).contains(t[k]) by {
        assert(t.contains(t[k]));
        lemma_chain_in_use(d, t, t[k]);
        if chain.contains(t[k]) {
            let j = choose|j: int| 0 <= j < chain.len() && chain[j] == t[k];
            assert(t[k] != chain[j]);
        }
        if dir.to_set().contains(t[k]) {
            let j = choose|j: int| 0 <= j < dir.len() && dir[j] == t[k];
            assert(t[k] != dir[j]);
        }
    }
    lemma_file_kept(d, d.rewrite_file(path, data).0, e, zone, zone.union(dir.to_set()));
}

// ---------------------------------------------------------------------------
// Replacing the head of a file
// ---------------------------------------------------------------------------

/// Clusters behind the first read the same when only the first has changed.
proof fn lemma_tail_kept(d: Disk, d2: Disk, list: Seq<u32>, i: int, size: nat)
    requires
        touches(d, d2, Set::empty(), set![list[0]]),
        list.no_duplicates(),
        1 <= i,
        d.read_data(list, i, size) is Ok,
    ensures
        d2.read_data(list, i, size) == d.read_data(list, i, size),
    decreases list.len() - i,
{
    if i < list.len() {
        assert(list[i] != list[0]);
        lemma_cluster_kept(d, d2, Set::empty(), set![list[0]], list[i]);
        let n = if size < d.geo.cluster_size() { size } else { d.geo.cluster_size() };
        if size != n {
            lemma_tail_kept(d, d2, list, i + 1, (size - n) as nat);
        }
    }
}

/// Writing a cluster replaces it and touches nothing else.
pub proof fn lemma_write_cluster(d: Disk, c: u32, data: Seq<u8>)
    requires
        intact(d),
        d.geo.in_range(c),
        data.len() == d.geo.cluster_size(),
        d.write_cluster(c, data) is Ok,
    ensures
        ({
            let d2 = d.write_cluster(c, data)->Ok_0;
            &&& touches(d, d2, Set::empty(), set![c])
            &&& d2.read_cluster(c) == Ok::<Seq<u8>, ErrView>(data)
        }),
{
    let d2 = d.write_cluster(c, data)->Ok_0;
    let size = d.geo.cluster_size();
    lemma_write_part(d, c, 0, data);
    assert(part(d2, c, 0, size) == Ok::<Seq<u8>, ErrView>(data.subrange(0, size as int)));
    assert(data.subrange(0, size as int) =~= data);
}

/// A file whose first bytes have been replaced reads back with the new bytes in front, and
/// otherwise as it was.
///
/// Left out are files that are shorter than what is put in front, and files that share
/// clusters with the directories on the way.
pub proof fn law_patched_head_reads_back(d: Disk, path: Seq<char>, page: Seq<u8>)
    requires
        intact(d),
        name_of(path).len() > 0,
        d.read_path(path) is Ok,
        page.len() <= d.geo.cluster_size(),
        page.len() <= d.read_path(path)->Ok_0.len(),
        d.patch_head(path, page).1 is Ok,
        stands_apart(d, path),
    ensures
        d.patch_head(path, page).0.read_path(path) == Ok::<Seq<u8>, ErrView>(
            page + d.read_path(path)->Ok_0.skip(page.len() as int),
        ),
{
    let name = name_of(path);
    let names = parts(parent_of(path));
    let e = d.resolve(path)->Ok_0;
    let list = clusters_at(d, path);
    let data = d.read_path(path)->Ok_0;
    let size = e.file_size as nat;
    let p = d.resolve(parent_of(path))->Ok_0.first_cluster;
    lemma_file_in_range(d, e);
    lemma_chain_distinct(d, list);
    lemma_resolved_in_parent(d, path);
    let c = list[0];
    let b = d.read_cluster(c)->Ok_0;
    let new = page + b.skip(page.len() as int);
    let d2 = d.write_cluster(c, new)->Ok_0;
    assert(b.len() == d.geo.cluster_size());
    lemma_write_cluster(d, c, new);
    lemma_chain_kept(d, d2, list, Set::empty(), set![c]);
    lemma_follow_chain(d2, list, (d.geo.total_clusters + 1) as nat);

    // The way.
    let zone = set![c];
    lemma_touches_widen(d, d2, Set::empty(), set![c], zone, zone);
    assert(list.contains(list[0]));
    lemma_outside_zone(d, p, list, zone);
    lemma_listing_kept(d, d2, p, zone, zone);
    lemma_apart_avoids(d, FIRST_CLUSTER, names, 0, p, name, list);
    lemma_walk_beside(d, d2, FIRST_CLUSTER, names, 0, list, zone, p, name);
    lemma_resolve_path(d2, path);
    assert(d2.resolve(path) == d.resolve(path));

    // The contents.
    let n = if size < d.geo.cluster_size() { size } else { d.geo.cluster_size() };
    if size == n {
        assert(new.take(n as int) =~= page + data.skip(page.len() as int));
    } else {
        lemma_tail_kept(d, d2, list, 1, (size - n) as nat);
        let rest = d.read_data(list, 1, (size - n) as nat)->Ok_0;
        assert(data == b.take(n as int) + rest);
        assert(new.take(n as int) + rest =~= page + data.skip(page.len() as int));
    }
}

} // verus!
