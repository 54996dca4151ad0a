//! What undoes what: freeing a chain undoes its allocation, and deleting something undoes its
//! creation.

use vstd::prelude::*;
use crate::directory::lemma_free_in_range;
use crate::dirent::law_dirent_roundtrip;
use crate::disk::{
    clusters_needed, dirent_bytes, encodable, find_entry, new_entry, parse_dirent, Disk, Stamp,
};
use crate::error::ErrView;
use crate::laws::chain_facts::{
    all_in_range, disjoint, is_chain, lemma_allocate_chain, lemma_chain_kept, lemma_distinct_len,
    lemma_follow_chain, linkable, linked,
};
use crate::laws::creation::{
    clear_way, intact, lemma_create_file_steps, lemma_entered, lemma_intact_kept,
    lemma_listing_beside_new_data, lemma_new_entry, lemma_resolve_kept, lemma_resolve_path,
    lemma_vacant_kept, lemma_walk_kept, lemma_way_beside_new_data, walk_clear,
};
use crate::laws::dir_facts::{
    filled, lemma_add_entry, lemma_entries_kept, lemma_fill_slot, lemma_listing_in_range,
    lemma_listing_kept, lemma_slot_marker, lemma_slot_part, lemma_vacant, next_linkable, storable,
};
use crate::laws::frame::{
    lemma_fat_writable, lemma_touches_trans, lemma_touches_widen, lemma_write_table, part, touches,
};
use crate::laws::keeping::{lemma_create_directory_steps, lemma_directory_entered, same_table};
use crate::laws::removal::{lemma_free_all, lemma_slot_replaced};
use crate::path::{name_of, parent_of, parts};
use crate::text::same_name;
use crate::types::{
    is_end_marker, DirentView, FatEntry, FileAttributes, DIRENT_DELETED, DIRENT_END, DIRENT_SIZE,
    FIRST_CLUSTER,
};

verus! {

// ---------------------------------------------------------------------------
// Chains
// ---------------------------------------------------------------------------

/// Clusters are counted alike where the table means the same.
pub proof fn lemma_same_tally(d: Disk, d2: Disk, c: int)
    requires
        same_table(d, d2),
        0 <= c,
    ensures
        d2.tally_from(c) == d.tally_from(c),
    decreases d.geo.total_clusters + 1 - c,
{
    if c <= d.geo.total_clusters {
        assert(d2.read_fat(c as u32) == d.read_fat(c as u32));
        lemma_same_tally(d, d2, c + 1);
    }
}

/// Linking clusters makes them a chain and changes no other entry of the table.
proof fn lemma_linked(d: Disk, list: Seq<u32>, i: int)
    requires
        0 <= i <= list.len(),
        list.no_duplicates(),
        all_in_range(d.geo, list),
        linkable(d.geo, list),
        forall|k: int| i <= k < list.len() ==> d.read_fat(#[trigger] list[k]) is Ok,
    ensures
        ({
            let (d2, r) = d.link(list, i);
            &&& r is Ok
            &&& d2.geo == d.geo
            &&& d2.bytes.len() == d.bytes.len()
            &&& forall|k: int| i <= k < list.len() ==> #[trigger] linked(d2, list, k)
            &&& forall|c: u32|
                (forall|k: int| i <= k < list.len() ==> #[trigger] list[k] != c)
                    ==> #[trigger] d2.read_fat(c) == d.read_fat(c)
        }),
    decreases list.len() - i,
{
    if i < list.len() {
        let entry = if i + 1 < list.len() {
            FatEntry::Next(list[i + 1])
        } else {
            FatEntry::EndOfChain
        };
        lemma_fat_writable(d, list[i], entry);
        lemma_write_table(d, list[i], entry);
        let d1 = d.write_fat(list[i], entry)->Ok_0;
        assert forall|k: int| i + 1 <= k < list.len() implies d1.read_fat(#[trigger] list[k])
            is Ok by {
            assert(list[k] != list[i]);
        }
        lemma_linked(d1, list, i + 1);
        let d2 = d1.link(list, i + 1).0;
        assert forall|k: int| i <= k < list.len() implies #[trigger] linked(d2, list, k) by {
            if k == i {
                assert(d2.read_fat(list[i]) == d1.read_fat(list[i]));
                if i + 1 < list.len() {
                    assert(d.geo.in_range(list[i + 1]));
                    assert(encodable(d.geo.fat_type, FatEntry::Next(list[i + 1])));
                }
            }
        }
        assert forall|c: u32|
            (forall|k: int| i <= k < list.len() ==> #[trigger] list[k] != c) implies
            #[trigger] d2.read_fat(c) == d.read_fat(c) by {
            assert(list[i] != c);
            assert(d1.read_fat(c) == d.read_fat(c));
        }
    }
}

/// Freeing clusters makes them free and changes no other entry of the table.
proof fn lemma_freed(d: Disk, list: Seq<u32>, i: int)
    requires
        0 <= i <= list.len(),
        list.no_duplicates(),
        forall|k: int| i <= k < list.len() ==> d.read_fat(#[trigger] list[k]) is Ok,
    ensures
        ({
            let (d2, r) = d.free_all(list, i);
            &&& r is Ok
            &&& d2.geo == d.geo
            &&& d2.bytes.len() == d.bytes.len()
            &&& forall|k: int|
                i <= k < list.len() ==> d2.read_fat(#[trigger] list[k]) == Ok::<FatEntry, ErrView>(
                    FatEntry::Free,
                )
            &&& forall|c: u32|
                (forall|k: int| i <= k < list.len() ==> #[trigger] list[k] != c)
                    ==> #[trigger] d2.read_fat(c) == d.read_fat(c)
        }),
    decreases list.len() - i,
{
    if i < list.len() {
        let free = FatEntry::Free;
        lemma_fat_writable(d, list[i], free);
        lemma_write_table(d, list[i], free);
        let d1 = d.write_fat(list[i], free)->Ok_0;
        assert forall|k: int| i + 1 <= k < list.len() implies d1.read_fat(#[trigger] list[k])
            is Ok by {
            assert(list[k] != list[i]);
        }
        lemma_freed(d1, list, i + 1);
        let d2 = d1.free_all(list, i + 1).0;
        assert(d2.read_fat(list[i]) == d1.read_fat(list[i]));
        assert forall|c: u32|
            (forall|k: int| i <= k < list.len() ==> #[trigger] list[k] != c) implies
            #[trigger] d2.read_fat(c) == d.read_fat(c) by {
            assert(list[i] != c);
            assert(d1.read_fat(c) == d.read_fat(c));
        }
    }
}

/// Freeing a chain that has just been allocated makes every entry of the file allocation table
/// what it was before, so that the clusters are counted as before. Where the table does not
/// overlap the clusters, the contents of no cluster change.
///
/// Left out are clusters whose numbers cannot be stored as links.
pub proof fn law_freeing_undoes_allocation(d: Disk, count: nat)
    requires
        d.allocate_chain(count).1 is Ok,
        linkable(d.geo, d.free_from(FIRST_CLUSTER as int, count)->Ok_0),
    ensures
        ({
            let (d1, first) = d.allocate_chain(count);
            let (d2, r) = d1.free_chain(first->Ok_0);
            &&& r is Ok
            &&& same_table(d, d2)
            &&& d2.tally_from(FIRST_CLUSTER as int) == d.tally_from(FIRST_CLUSTER as int)
            &&& intact(d) ==> touches(d, d2, Set::empty(), Set::empty())
        }),
{
    let list = d.free_from(FIRST_CLUSTER as int, count)->Ok_0;
    let (d1, first) = d.allocate_chain(count);
    let (d2, r) = d1.free_chain(first->Ok_0);
    lemma_free_in_range(d, FIRST_CLUSTER as int, count);
    assert(list.no_duplicates());
    assert(all_in_range(d.geo, list));
    lemma_linked(d, list, 0);
    lemma_distinct_len(d.geo, list);
    lemma_follow_chain(d1, list, (d.geo.total_clusters + 1) as nat);
    assert forall|k: int| 0 <= k < list.len() implies d1.read_fat(#[trigger] list[k]) is Ok by {
        assert(linked(d1, list, k));
    }
    lemma_freed(d1, list, 0);
    assert forall|c: u32| c <= d.geo.total_clusters implies #[trigger] d2.read_fat(c) == d.read_fat(
        c,
    ) by {
        if exists|k: int| 0 <= k < list.len() && list[k] == c {
            let k = choose|k: int| 0 <= k < list.len() && list[k] == c;
            assert(d.read_fat(list[k]) == Ok::<FatEntry, ErrView>(FatEntry::Free));
            assert(d2.read_fat(list[k]) == Ok::<FatEntry, ErrView>(FatEntry::Free));
        } else {
            assert(d1.read_fat(c) == d.read_fat(c));
            assert(d2.read_fat(c) == d1.read_fat(c));
        }
    }
    lemma_same_tally(d, d2, FIRST_CLUSTER as int);
    if intact(d) {
        lemma_contents_kept(d, count);
    }
}

/// Allocating and freeing a chain changes the contents of no cluster.
proof fn lemma_contents_kept(d: Disk, count: nat)
    requires
        intact(d),
        d.allocate_chain(count).1 is Ok,
        linkable(d.geo, d.free_from(FIRST_CLUSTER as int, count)->Ok_0),
        same_table(d, d.allocate_chain(count).0.free_chain(d.allocate_chain(count).1->Ok_0).0),
    ensures
        touches(
            d,
            d.allocate_chain(count).0.free_chain(d.allocate_chain(count).1->Ok_0).0,
            Set::empty(),
            Set::empty(),
        ),
{
    let list = d.free_from(FIRST_CLUSTER as int, count)->Ok_0;
    let (d1, first) = d.allocate_chain(count);
    let d2 = d1.free_chain(first->Ok_0).0;
    lemma_free_in_range(d, FIRST_CLUSTER as int, count);
    lemma_allocate_chain(d, count);
    lemma_intact_kept(d, d1);
    assert forall|k: int| 0 <= k < list.len() implies #[trigger] list[k] <= d1.geo.total_clusters by {
        assert(d.geo.in_range(list[k]));
    }
    lemma_free_all(d1, list, 0);
    lemma_touches_trans(d, d1, d2, list.to_set(), Set::empty(), list.to_set(), Set::empty());
    assert(Set::<u32>::empty().union(Set::empty()) =~= Set::<u32>::empty());
}

/// A chain that cannot be followed is not freed: the error is that of following it, and
/// nothing changes.
pub proof fn law_broken_chain_is_not_freed(d: Disk, c: u32)
    requires
        d.chain(c) is Err,
    ensures
        d.free_chain(c) == (d, Err::<(), ErrView>(d.chain(c)->Err_0)),
{
}

// ---------------------------------------------------------------------------
// Entries
// ---------------------------------------------------------------------------

/// The directory has a slot for a new entry. If that is the end marker at the end of a
/// cluster, nothing is listed in the clusters that follow.
pub open spec fn has_room(d: Disk, chain: Seq<u32>) -> bool {
    d.vacant_slot(chain, 0, 0) matches Ok(Some((p, q))) && (d.slot(chain, p, q, 1)->Ok_0[0]
        != DIRENT_DELETED && q + 1 == d.geo.slots() ==> d.entries_from(chain, p + 1, 0) == Ok::<
        Seq<DirentView>,
        ErrView,
    >(seq![]))
}

/// `d2` has a deleted entry in the vacant slot `(p, q)`, an end marker behind it if it took
/// the place of one, and is otherwise as `d`.
spec fn vacated(d: Disk, d2: Disk, chain: Seq<u32>, p: int, q: int, at_end: bool) -> bool {
    let n = DIRENT_SIZE as nat;
    &&& d2.geo == d.geo
    &&& d2.slot(chain, p, q, n) is Ok
    &&& d2.slot(chain, p, q, n)->Ok_0[0] == DIRENT_DELETED
    &&& at_end && q + 1 < d.geo.slots() ==> {
        &&& d2.slot(chain, p, q + 1, n) is Ok
        &&& d2.slot(chain, p, q + 1, n)->Ok_0[0] == DIRENT_END
    }
    &&& at_end && q + 1 == d.geo.slots() ==> d2.entries_from(chain, p + 1, 0) == Ok::<
        Seq<DirentView>,
        ErrView,
    >(seq![])
    &&& forall|a: int, b: int|
        #![trigger d2.slot(chain, a, b, n)]
        0 <= a < chain.len() && 0 <= b < d.geo.slots() && !(a == p && b == q) && !(at_end && a == p
            && b == q + 1) && d.slot(chain, a, b, n) is Ok ==> d2.slot(chain, a, b, n) == d.slot(
            chain,
            a,
            b,
            n,
        )
}

proof fn lemma_behind_vacated(
    d: Disk,
    d2: Disk,
    chain: Seq<u32>,
    p: int,
    q: int,
    i: int,
    j: int,
)
    requires
        vacated(d, d2, chain, p, q, false),
        0 <= p <= i,
        0 <= j,
        i == p ==> j > q,
        d.entries_from(chain, i, j) is Ok,
    ensures
        d2.entries_from(chain, i, j) == d.entries_from(chain, i, j),
    decreases chain.len() - i, d.geo.slots() - j,
{
    if i < chain.len() {
        if j >= d.geo.slots() {
            lemma_behind_vacated(d, d2, chain, p, q, i + 1, 0);
        } else {
            let n = DIRENT_SIZE as nat;
            assert(d2.slot(chain, i, j, n) == d.slot(chain, i, j, n));
            if !is_end_marker(d.slot(chain, i, j, n)->Ok_0[0]) {
                lemma_behind_vacated(d, d2, chain, p, q, i, j + 1);
            }
        }
    }
}

/// A vacant slot that has been filled and vacated again leaves the listing as it was.
proof fn lemma_vacated_listing(
    d: Disk,
    d2: Disk,
    chain: Seq<u32>,
    p: int,
    q: int,
    at_end: bool,
    i: int,
    j: int,
)
    requires
        0 <= i,
        0 <= j,
        d.vacant_slot(chain, i, j) == Ok::<Option<(int, int)>, ErrView>(Some((p, q))),
        at_end == (d.slot(chain, p, q, 1)->Ok_0[0] != DIRENT_DELETED),
        vacated(d, d2, chain, p, q, at_end),
        d.entries_from(chain, i, j) is Ok,
    ensures
        d2.entries_from(chain, i, j) == d.entries_from(chain, i, j),
    decreases chain.len() - i, d.geo.slots() - j,
{
    let n = DIRENT_SIZE as nat;
    if i < chain.len() {
        if j >= d.geo.slots() {
            lemma_vacated_listing(d, d2, chain, p, q, at_end, i + 1, 0);
        } else {
            assert(d.slot(chain, i, j, n) is Ok);
            lemma_slot_marker(d, chain, i, j);
            let m = d.slot(chain, i, j, 1)->Ok_0[0];
            if is_end_marker(m) || m == DIRENT_DELETED {
                assert(i == p && j == q);
                if at_end {
                    if q + 1 < d.geo.slots() {
                        assert(d2.entries_from(chain, i, j + 1) == Ok::<
                            Seq<DirentView>,
                            ErrView,
                        >(seq![]));
                    } else {
                        assert(d2.entries_from(chain, i, j + 1) == d2.entries_from(
                            chain,
                            i + 1,
                            0,
                        ));
                    }
                } else {
                    lemma_behind_vacated(d, d2, chain, p, q, i, j + 1);
                }
            } else {
                lemma_vacant(d, chain, i, j + 1);
                assert(d2.slot(chain, i, j, n) == d.slot(chain, i, j, n));
                lemma_vacated_listing(d, d2, chain, p, q, at_end, i, j + 1);
            }
        }
    }
}

/// A new name is found in the slot that was filled.
proof fn lemma_find_filled(
    d: Disk,
    d2: Disk,
    chain: Seq<u32>,
    p: int,
    q: int,
    at_end: bool,
    e: DirentView,
    i: int,
    j: int,
)
    requires
        0 <= i,
        0 <= j,
        storable(e),
        d.vacant_slot(chain, i, j) == Ok::<Option<(int, int)>, ErrView>(Some((p, q))),
        filled(d, d2, chain, p, q, at_end, e),
        d.entries_from(chain, i, j) is Ok,
        find_entry(d.entries_from(chain, i, j)->Ok_0, e.filename()) is None,
    ensures
        d2.find_slot(chain, e.filename(), None, i, j) == Ok::<Option<(int, int)>, ErrView>(
            Some((p, q)),
        ),
    decreases chain.len() - i, d.geo.slots() - j,
{
    let n = DIRENT_SIZE as nat;
    if i < chain.len() {
        if j >= d.geo.slots() {
            lemma_find_filled(d, d2, chain, p, q, at_end, e, i + 1, 0);
        } else {
            assert(d.slot(chain, i, j, n) is Ok);
            lemma_slot_marker(d, chain, i, j);
            let raw = d.slot(chain, i, j, n)->Ok_0;
            if is_end_marker(raw[0]) || raw[0] == DIRENT_DELETED {
                assert(i == p && j == q);
                law_dirent_roundtrip(d.geo.big_endian, e);
                assert(dirent_bytes(d.geo.big_endian, e)[0] == e.filename_len);
            } else {
                lemma_vacant(d, chain, i, j + 1);
                assert(d2.slot(chain, i, j, n) == d.slot(chain, i, j, n));
                let x = parse_dirent(d.geo.big_endian, raw);
                let rest = d.entries_from(chain, i, j + 1)->Ok_0;
                let all = d.entries_from(chain, i, j)->Ok_0;
                assert(all == seq![x] + rest);
                assert(all[0] == x);
                assert(all.drop_first() =~= rest);
                lemma_find_filled(d, d2, chain, p, q, at_end, e, i, j + 1);
            }
        }
    }
}

/// Slots of clusters that are left alone are the same.
pub proof fn lemma_slots_kept(
    d: Disk,
    d2: Disk,
    chain: Seq<u32>,
    fats: Set<u32>,
    data: Set<u32>,
)
    requires
        touches(d, d2, fats, data),
        all_in_range(d.geo, chain),
        forall|k: int| 0 <= k < chain.len() ==> !data.contains(#[trigger] chain[k]),
    ensures
        forall|a: int, b: int|
            #![trigger d2.slot(chain, a, b, DIRENT_SIZE as nat)]
            0 <= a < chain.len() && 0 <= b < d.geo.slots() && d.slot(
                chain,
                a,
                b,
                DIRENT_SIZE as nat,
            ) is Ok ==> d2.slot(chain, a, b, DIRENT_SIZE as nat) == d.slot(
                chain,
                a,
                b,
                DIRENT_SIZE as nat,
            ),
{
    let n = DIRENT_SIZE as nat;
    assert forall|a: int, b: int|
        #![trigger d2.slot(chain, a, b, n)]
        0 <= a < chain.len() && 0 <= b < d.geo.slots() && d.slot(chain, a, b, n) is Ok implies d2.slot(
        chain,
        a,
        b,
        n,
    ) == d.slot(chain, a, b, n) by {
        assert(d.geo.in_range(chain[a]));
        lemma_slot_part(d, chain, a, b, n);
        lemma_slot_part(d2, chain, a, b, n);
        assert(!data.contains(chain[a]));
        assert(part(d2, chain[a], b * DIRENT_SIZE, n) == part(d, chain[a], b * DIRENT_SIZE, n));
    }
}

/// The find of a slot is the same where the slots are.
proof fn lemma_find_kept(d: Disk, d2: Disk, chain: Seq<u32>, name: Seq<char>, i: int, j: int)
    requires
        d2.geo == d.geo,
        0 <= i,
        0 <= j,
        d.find_slot(chain, name, None, i, j) is Ok,
        forall|a: int, b: int|
            #![trigger d2.slot(chain, a, b, DIRENT_SIZE as nat)]
            0 <= a < chain.len() && 0 <= b < d.geo.slots() && d.slot(
                chain,
                a,
                b,
                DIRENT_SIZE as nat,
            ) is Ok ==> d2.slot(chain, a, b, DIRENT_SIZE as nat) == d.slot(
                chain,
                a,
                b,
                DIRENT_SIZE as nat,
            ),
    ensures
        d2.find_slot(chain, name, None, i, j) == d.find_slot(chain, name, None, i, j),
    decreases chain.len() - i, d.geo.slots() - j,
{
    if i < chain.len() {
        if j >= d.geo.slots() {
            lemma_find_kept(d, d2, chain, name, i + 1, 0);
        } else {
            let n = DIRENT_SIZE as nat;
            assert(d.slot(chain, i, j, n) is Ok);
            assert(d2.slot(chain, i, j, n) == d.slot(chain, i, j, n));
            let raw = d.slot(chain, i, j, n)->Ok_0;
            let entry = parse_dirent(d.geo.big_endian, raw);
            if !is_end_marker(raw[0]) && !(raw[0] != DIRENT_DELETED && same_name(
                entry.filename(),
                name,
            )) {
                lemma_find_kept(d, d2, chain, name, i, j + 1);
            }
        }
    }
}

/// What an entry with its chain leaves behind once it has been entered and deleted again.
spec fn taken_back(d: Disk, d2: Disk, p: u32, list: Seq<u32>) -> bool {
    &&& intact(d2)
    &&& touches(d, d2, list.to_set(), d.chain(p)->Ok_0.to_set())
    &&& forall|k: int|
        0 <= k < list.len() ==> d2.read_fat(#[trigger] list[k]) == Ok::<FatEntry, ErrView>(
            FatEntry::Free,
        )
    &&& d2.chain(p) == d.chain(p)
    &&& d2.entries(p) == d.entries(p)
}

/// Entering something and marking it as deleted, its chain freed in between, leaves the
/// directory's listing as it was.
proof fn lemma_slot_taken_back(
    d: Disk,
    d1: Disk,
    d2: Disk,
    chain: Seq<u32>,
    e: DirentView,
    list: Seq<u32>,
    p: int,
    q: int,
    at_end: bool,
)
    requires
        intact(d),
        intact(d1),
        chain.no_duplicates(),
        all_in_range(d.geo, chain),
        storable(e),
        d.entries_from(chain, 0, 0) is Ok,
        d.vacant_slot(chain, 0, 0) == Ok::<Option<(int, int)>, ErrView>(Some((p, q))),
        at_end == (d.slot(chain, p, q, 1)->Ok_0[0] != DIRENT_DELETED),
        has_room(d, chain),
        0 <= p < chain.len(),
        0 <= q < d.geo.slots(),
        filled(d, d1, chain, p, q, at_end, e),
        touches(d, d1, Set::empty(), set![chain[p]]),
        touches(d1, d2, list.to_set(), Set::empty()),
        find_entry(d.entries_from(chain, 0, 0)->Ok_0, e.filename()) is None,
    ensures
        d2.find_slot(chain, e.filename(), None, 0, 0) == Ok::<Option<(int, int)>, ErrView>(
            Some((p, q)),
        ),
        ({
            let r = d2.write(
                (d2.geo.cluster_pos(chain[p]) + q * DIRENT_SIZE) as nat,
                seq![DIRENT_DELETED],
            );
            &&& r is Ok
            &&& touches(d2, r->Ok_0, Set::empty(), set![chain[p]])
            &&& r->Ok_0.entries_from(chain, 0, 0) == d.entries_from(chain, 0, 0)
        }),
{
    let n = DIRENT_SIZE as nat;
    lemma_find_filled(d, d1, chain, p, q, at_end, e, 0, 0);
    lemma_slots_kept(d1, d2, chain, list.to_set(), Set::empty());
    lemma_find_kept(d1, d2, chain, e.filename(), 0, 0);
    assert(d2.slot(chain, p, q, n) == d1.slot(chain, p, q, n));
    let raw = d2.slot(chain, p, q, n)->Ok_0;
    let mark = seq![DIRENT_DELETED];
    let gone = mark + raw.skip(1);
    lemma_slot_replaced(d2, chain, p, q, mark, gone);
    let d3 = d2.write(
        (d2.geo.cluster_pos(chain[p]) + q * DIRENT_SIZE) as nat,
        mark,
    )->Ok_0;
    if at_end && q + 1 < d.geo.slots() {
        assert(d1.slot(chain, p, q + 1, n) is Ok);
        assert(d2.slot(chain, p, q + 1, n) == d1.slot(chain, p, q + 1, n));
        assert(d3.slot(chain, p, q + 1, n) == d2.slot(chain, p, q + 1, n));
    }
    if at_end && q + 1 == d.geo.slots() {
        assert forall|k: int| p + 1 <= k < chain.len() implies !set![chain[p]].contains(
            #[trigger] chain[k],
        ) by {}
        lemma_entries_kept(d, d1, chain, Set::empty(), set![chain[p]], p + 1, 0);
        lemma_entries_kept(d1, d2, chain, list.to_set(), Set::empty(), p + 1, 0);
        lemma_entries_kept(d2, d3, chain, Set::empty(), set![chain[p]], p + 1, 0);
    }
    assert forall|a: int, b: int|
        #![trigger d3.slot(chain, a, b, n)]
        0 <= a < chain.len() && 0 <= b < d.geo.slots() && !(a == p && b == q) && !(at_end && a == p
            && b == q + 1) && d.slot(chain, a, b, n) is Ok implies d3.slot(chain, a, b, n) == d.slot(
        chain,
        a,
        b,
        n,
    ) by {
        assert(d1.slot(chain, a, b, n) == d.slot(chain, a, b, n));
        assert(d2.slot(chain, a, b, n) == d1.slot(chain, a, b, n));
    }
    assert(vacated(d, d3, chain, p, q, at_end));
    lemma_vacated_listing(d, d3, chain, p, q, at_end, 0, 0);
}

/// The way leads to what has been entered.
proof fn lemma_way_to_entered(d: Disk, path: Seq<char>, e: DirentView, list: Seq<u32>)
    requires
        intact(d),
        d.parent_for(path) is Ok,
        clear_way(d, path),
        next_linkable(d),
        storable(e),
        e.filename() == name_of(path),
        d.add_entry(d.parent_for(path)->Ok_0.first_cluster, e).1 is Ok,
        is_chain(d, list),
        all_in_range(d.geo, list),
        disjoint(list, d.chain(d.parent_for(path)->Ok_0.first_cluster)->Ok_0),
    ensures
        ({
            let d1 = d.add_entry(d.parent_for(path)->Ok_0.first_cluster, e).0;
            &&& d1.resolve(path) == Ok::<DirentView, ErrView>(e)
            &&& d1.resolve(parent_of(path)) == d.resolve(parent_of(path))
            &&& d1.chain(list[0]) == Ok::<Seq<u32>, ErrView>(list)
        }),
{
    let c = d.parent_for(path)->Ok_0.first_cluster;
    let d1 = d.add_entry(c, e).0;
    let names = parts(parent_of(path));
    lemma_entered(d, path, e, list);
    lemma_add_entry(d, c, e);
    lemma_walk_kept(d, d1, FIRST_CLUSTER, names, 0, c, e);
    lemma_resolve_kept(d, d1, FIRST_CLUSTER, names, 0);
}

/// A slot filled, a chain freed and the slot marked touch the chain and the directory.
proof fn lemma_touched_back(
    d: Disk,
    d1: Disk,
    d2: Disk,
    d3: Disk,
    s: Seq<u32>,
    p: int,
    list: Seq<u32>,
)
    requires
        intact(d2),
        0 <= p < s.len(),
        touches(d, d1, Set::empty(), set![s[p]]),
        touches(d1, d2, list.to_set(), Set::empty()),
        touches(d2, d3, Set::empty(), set![s[p]]),
        forall|k: int| 0 <= k < list.len() ==> #[trigger] list[k] <= d2.geo.total_clusters,
        forall|k: int|
            0 <= k < list.len() ==> d2.read_fat(#[trigger] list[k]) == Ok::<FatEntry, ErrView>(
                FatEntry::Free,
            ),
    ensures
        touches(d, d3, list.to_set(), s.to_set()),
        forall|k: int|
            0 <= k < list.len() ==> d3.read_fat(#[trigger] list[k]) == Ok::<FatEntry, ErrView>(
                FatEntry::Free,
            ),
{
    lemma_touches_trans(d, d1, d2, Set::empty(), set![s[p]], list.to_set(), Set::empty());
    lemma_touches_trans(
        d,
        d2,
        d3,
        Set::<u32>::empty().union(list.to_set()),
        set![s[p]].union(Set::empty()),
        Set::empty(),
        set![s[p]],
    );
    assert(s.to_set().contains(s[p]));
    lemma_touches_widen(
        d,
        d3,
        Set::<u32>::empty().union(list.to_set()).union(Set::empty()),
        set![s[p]].union(Set::empty()).union(set![s[p]]),
        list.to_set(),
        s.to_set(),
    );
    assert forall|k: int| 0 <= k < list.len() implies d3.read_fat(#[trigger] list[k]) == Ok::<
        FatEntry,
        ErrView,
    >(FatEntry::Free) by {
        assert(d2.read_fat(list[k]) == Ok::<FatEntry, ErrView>(FatEntry::Free));
    }
}

/// A chain apart from a directory is freed, and the directory keeps its clusters.
proof fn lemma_freed_beside(d: Disk, c: u32, s: Seq<u32>, list: Seq<u32>) -> (d2: Disk)
    requires
        intact(d),
        is_chain(d, s),
        s[0] == c,
        s.len() <= d.geo.total_clusters,
        all_in_range(d.geo, s),
        all_in_range(d.geo, list),
        disjoint(list, s),
        list.len() > 0,
        d.chain(list[0]) == Ok::<Seq<u32>, ErrView>(list),
    ensures
        d.free_chain(list[0]) == (d2, Ok::<(), ErrView>(())),
        intact(d2),
        touches(d, d2, list.to_set(), Set::empty()),
        forall|k: int|
            0 <= k < list.len() ==> d2.read_fat(#[trigger] list[k]) == Ok::<FatEntry, ErrView>(
                FatEntry::Free,
            ),
        is_chain(d2, s),
        d2.chain(c) == Ok::<Seq<u32>, ErrView>(s),
{
    assert forall|k: int| 0 <= k < list.len() implies #[trigger] list[k] <= d.geo.total_clusters by {
        assert(d.geo.in_range(list[k]));
    }
    lemma_free_all(d, list, 0);
    let (d2, r) = d.free_all(list, 0);
    assert(r->Ok_0 == ());
    assert(d.free_chain(list[0]) == (d2, r));
    assert forall|k: int| 0 <= k < s.len() implies !list.to_set().contains(#[trigger] s[k]) by {
        if list.to_set().contains(s[k]) {
            let j = choose|j: int| 0 <= j < list.len() && list[j] == s[k];
            assert(list[j] != s[k]);
        }
    }
    lemma_chain_kept(d, d2, s, list.to_set(), Set::empty());
    lemma_follow_chain(d2, s, (d.geo.total_clusters + 1) as nat);
    d2
}

/// An entry is put into the vacant slot of a directory.
proof fn lemma_filled_for(d: Disk, path: Seq<char>, e: DirentView) -> (r: (int, int, bool))
    requires
        intact(d),
        d.parent_for(path) is Ok,
        clear_way(d, path),
        storable(e),
        d.add_entry(d.parent_for(path)->Ok_0.first_cluster, e).1 is Ok,
        has_room(d, d.chain(d.parent_for(path)->Ok_0.first_cluster)->Ok_0),
    ensures
        ({
            let (p, q, at_end) = r;
            let c = d.parent_for(path)->Ok_0.first_cluster;
            let s = d.chain(c)->Ok_0;
            let d1 = d.add_entry(c, e).0;
            &&& d.vacant_slot(s, 0, 0) == Ok::<Option<(int, int)>, ErrView>(Some((p, q)))
            &&& at_end == (d.slot(s, p, q, 1)->Ok_0[0] != DIRENT_DELETED)
            &&& 0 <= p < s.len()
            &&& 0 <= q < d.geo.slots()
            &&& filled(d, d1, s, p, q, at_end, e)
            &&& touches(d, d1, Set::empty(), set![s[p]])
            &&& intact(d1)
            &&& is_chain(d1, s)
        }),
{
    let c = d.parent_for(path)->Ok_0.first_cluster;
    let s = d.chain(c)->Ok_0;
    let d1 = d.add_entry(c, e).0;
    lemma_listing_in_range(d, c);
    lemma_vacant(d, s, 0, 0);
    let (p, q) = d.vacant_slot(s, 0, 0)->Ok_0->Some_0;
    let at_end = d.slot(s, p, q, 1)->Ok_0[0] != DIRENT_DELETED;
    lemma_fill_slot(d, s, p, q, at_end, e);
    lemma_intact_kept(d, d1);
    lemma_chain_kept(d, d1, s, Set::empty(), set![s[p]]);
    (p, q, at_end)
}

/// Something that has been entered with its chain can be deleted again.
proof fn lemma_entry_undone(d: Disk, path: Seq<char>, e: DirentView, list: Seq<u32>) -> (d3: Disk)
    requires
        intact(d),
        d.parent_for(path) is Ok,
        clear_way(d, path),
        next_linkable(d),
        storable(e),
        e.filename() == name_of(path),
        e.first_cluster == list[0],
        d.add_entry(d.parent_for(path)->Ok_0.first_cluster, e).1 is Ok,
        is_chain(d, list),
        all_in_range(d.geo, list),
        disjoint(list, d.chain(d.parent_for(path)->Ok_0.first_cluster)->Ok_0),
        has_room(d, d.chain(d.parent_for(path)->Ok_0.first_cluster)->Ok_0),
        e.is_directory() ==> d.add_entry(d.parent_for(path)->Ok_0.first_cluster, e).0.entries(
            list[0],
        ) == Ok::<Seq<DirentView>, ErrView>(seq![]),
    ensures
        d.add_entry(d.parent_for(path)->Ok_0.first_cluster, e).0.delete(path) == (
            d3,
            Ok::<(), ErrView>(()),
        ),
        taken_back(d, d3, d.parent_for(path)->Ok_0.first_cluster, list),
{
    let c = d.parent_for(path)->Ok_0.first_cluster;
    let s = d.chain(c)->Ok_0;
    let d1 = d.add_entry(c, e).0;
    lemma_listing_in_range(d, c);
    let (p, q, at_end) = lemma_filled_for(d, path, e);
    lemma_way_to_entered(d, path, e, list);
    let d2 = lemma_freed_beside(d1, c, s, list);
    lemma_slot_taken_back(d, d1, d2, s, e, list, p, q, at_end);
    let d3 = d2.write(
        (d2.geo.cluster_pos(s[p]) + q * DIRENT_SIZE) as nat,
        seq![DIRENT_DELETED],
    )->Ok_0;
    assert(d2.delete_entry(c, name_of(path)) == (d3, Ok::<(), ErrView>(())));
    assert(d1.delete(path) == d2.delete_entry(c, name_of(path)));
    assert(intact(d3)) by {
        lemma_intact_kept(d2, d3);
    }
    assert(d3.chain(c) == d.chain(c)) by {
        lemma_chain_kept(d2, d3, s, Set::empty(), set![s[p]]);
        lemma_follow_chain(d3, s, (d.geo.total_clusters + 1) as nat);
    }
    assert forall|k: int| 0 <= k < list.len() implies #[trigger] list[k] <= d2.geo.total_clusters by {
        assert(d.geo.in_range(list[k]));
    }
    lemma_touched_back(d, d1, d2, d3, s, p, list);
    d3
}

// ---------------------------------------------------------------------------
// Creations
// ---------------------------------------------------------------------------

/// The directory at `c` shares no cluster with the one at `p`, unless it is that one.
pub open spec fn beside(d: Disk, c: u32, p: u32) -> bool {
    c == p || disjoint(d.chain(c)->Ok_0, d.chain(p)->Ok_0)
}

/// `d2` is as `d` was before something was created at `path`: every entry of the file
/// allocation table is the same, so that the clusters are counted as before, every directory
/// is listed as before, and nothing is found at the path.
pub open spec fn undone(d: Disk, d2: Disk, path: Seq<char>) -> bool {
    let p = d.resolve(parent_of(path))->Ok_0.first_cluster;
    &&& same_table(d, d2)
    &&& d2.tally_from(FIRST_CLUSTER as int) == d.tally_from(FIRST_CLUSTER as int)
    &&& forall|c: u32|
        d.entries(c) is Ok && beside(d, c, p) ==> #[trigger] d2.entries(c) == d.entries(c)
    &&& d2.resolve(path) == Err::<DirentView, ErrView>(ErrView::FileNotFound(name_of(path)))
}

proof fn lemma_same_walk(d: Disk, d2: Disk, c: u32, names: Seq<Seq<char>>, i: int, p: u32)
    requires
        0 <= i,
        d.resolve_from(c, names, i) is Ok,
        walk_clear(d, c, names, i, p),
        forall|x: u32|
            d.entries(x) is Ok && beside(d, x, p) ==> #[trigger] d2.entries(x) == d.entries(x),
    ensures
        d2.resolve_from(c, names, i) == d.resolve_from(c, names, i),
    decreases names.len() - i,
{
    if i < names.len() {
        assert(d.entries(c) is Ok && beside(d, c, p));
        assert(d2.entries(c) == d.entries(c));
        let e = find_entry(d.entries(c)->Ok_0, names[i])->Some_0;
        if i + 1 < names.len() {
            lemma_same_walk(d, d2, e.first_cluster, names, i + 1, p);
        }
    }
}

/// New clusters and a new entry, given back, leave the volume as it was.
proof fn lemma_creation_undone(d: Disk, dm: Disk, d3: Disk, path: Seq<char>, list: Seq<u32>)
    requires
        intact(d),
        d.parent_for(path) is Ok,
        clear_way(d, path),
        touches(d, dm, list.to_set(), list.to_set()),
        forall|k: int|
            0 <= k < list.len() ==> d.read_fat(#[trigger] list[k]) == Ok::<FatEntry, ErrView>(
                FatEntry::Free,
            ),
        intact(dm),
        taken_back(dm, d3, d.parent_for(path)->Ok_0.first_cluster, list),
    ensures
        undone(d, d3, path),
{
    let p = d.parent_for(path)->Ok_0.first_cluster;
    let names = parts(parent_of(path));
    assert forall|c: u32| c <= d.geo.total_clusters implies #[trigger] d3.read_fat(c) == d.read_fat(
        c,
    ) by {
        assert(d.read_fat(c) is Ok);
        if list.to_set().contains(c) {
            let k = choose|k: int| 0 <= k < list.len() && list[k] == c;
            assert(d.read_fat(list[k]) == Ok::<FatEntry, ErrView>(FatEntry::Free));
            assert(d3.read_fat(list[k]) == Ok::<FatEntry, ErrView>(FatEntry::Free));
        } else {
            assert(dm.read_fat(c) == d.read_fat(c));
        }
    }
    assert(same_table(d, d3));
    lemma_same_tally(d, d3, FIRST_CLUSTER as int);
    lemma_listing_beside_new_data(d, dm, p, list);
    assert forall|c: u32| d.entries(c) is Ok && beside(d, c, p) implies #[trigger] d3.entries(c)
        == d.entries(c) by {
        lemma_listing_beside_new_data(d, dm, c, list);
        if c != p {
            let t = dm.chain(c)->Ok_0;
            let s = dm.chain(p)->Ok_0;
            assert forall|k: int| 0 <= k < t.len() implies !list.to_set().contains(#[trigger] t[k])
                && !s.to_set().contains(t[k]) by {
                if s.to_set().contains(t[k]) {
                    let j = choose|j: int| 0 <= j < s.len() && s[j] == t[k];
                    assert(t[k] != s[j]);
                }
            }
            lemma_listing_kept(dm, d3, c, list.to_set(), s.to_set());
        }
    }
    lemma_same_walk(d, d3, FIRST_CLUSTER, names, 0, p);
    assert(beside(d, p, p));
    assert(d3.entries(p) == d.entries(p));
    lemma_resolve_path(d3, path);
}

/// The room in a directory stays when a new file or directory takes free clusters.
proof fn lemma_room_kept(d: Disk, dm: Disk, p: u32, list: Seq<u32>)
    requires
        intact(d),
        touches(d, dm, list.to_set(), list.to_set()),
        d.entries(p) is Ok,
        dm.chain(p) == d.chain(p),
        has_room(d, d.chain(p)->Ok_0),
        forall|k: int|
            0 <= k < list.len() ==> d.read_fat(#[trigger] list[k]) == Ok::<FatEntry, ErrView>(
                FatEntry::Free,
            ),
    ensures
        has_room(dm, dm.chain(p)->Ok_0),
{
    let s = d.chain(p)->Ok_0;
    lemma_listing_in_range(d, p);
    lemma_listing_beside_new_data(d, dm, p, list);
    lemma_vacant_kept(d, dm, s, list.to_set(), list.to_set(), 0, 0);
    lemma_vacant(d, s, 0, 0);
    let (i, j) = d.vacant_slot(s, 0, 0)->Ok_0->Some_0;
    lemma_slot_part(d, s, i, j, 1);
    lemma_slot_part(dm, s, i, j, 1);
    assert(!list.to_set().contains(s[i]));
    assert(dm.slot(s, i, j, 1) == d.slot(s, i, j, 1));
    if d.entries_from(s, i + 1, 0) is Ok {
        lemma_entries_kept(d, dm, s, list.to_set(), list.to_set(), i + 1, 0);
    }
}

/// Deleting a file that has just been created undoes its creation.
///
/// Left out are directories that had to grow for the entry, whose new cluster stays; clusters
/// whose numbers cannot be stored as links; and ways that are not clear.
pub proof fn law_delete_undoes_file(d: Disk, path: Seq<char>, data: Seq<u8>, now: Stamp)
    requires
        intact(d),
        d.create_file(path, data, now).1 is Ok,
        linkable(
            d.geo,
            d.free_from(
                FIRST_CLUSTER as int,
                clusters_needed(data.len(), d.geo.cluster_size()) + 1,
            )->Ok_0,
        ),
        clear_way(d, path),
        has_room(d, d.chain(d.resolve(parent_of(path))->Ok_0.first_cluster)->Ok_0),
    ensures
        d.create_file(path, data, now).0.delete(path).1 is Ok,
        undone(d, d.create_file(path, data, now).0.delete(path).0, path),
{
    let count = clusters_needed(data.len(), d.geo.cluster_size());
    let list = d.free_from(FIRST_CLUSTER as int, count)->Ok_0;
    let size = (data.len() % 0x1_0000_0000) as u32;
    let e = new_entry(name_of(path), FileAttributes::ARCHIVE, list[0], size, now);
    let dm = lemma_create_file_steps(d, path, data, now);
    let p = d.parent_for(path)->Ok_0.first_cluster;
    lemma_free_in_range(d, FIRST_CLUSTER as int, count);
    lemma_way_beside_new_data(d, dm, path, count);
    assert(0x20u8 & 0x3F == 0x20) by (bit_vector);
    assert(0x20u8 & 0x10 != 0x10) by (bit_vector);
    lemma_new_entry(name_of(path), FileAttributes::ARCHIVE, list[0], size, now);
    lemma_room_kept(d, dm, p, list);
    let d3 = lemma_entry_undone(dm, path, e, list);
    lemma_creation_undone(d, dm, d3, path, list);
}

/// Deleting a directory that has just been created undoes its creation.
///
/// Left out is what [`law_delete_undoes_file`] leaves out.
pub proof fn law_delete_undoes_directory(d: Disk, path: Seq<char>, now: Stamp)
    requires
        intact(d),
        d.create_directory(path, now).1 is Ok,
        linkable(d.geo, d.free_from(FIRST_CLUSTER as int, 2)->Ok_0),
        clear_way(d, path),
        has_room(d, d.chain(d.resolve(parent_of(path))->Ok_0.first_cluster)->Ok_0),
    ensures
        d.create_directory(path, now).0.delete(path).1 is Ok,
        undone(d, d.create_directory(path, now).0.delete(path).0, path),
{
    let list = d.free_from(FIRST_CLUSTER as int, 1)->Ok_0;
    let e = new_entry(name_of(path), FileAttributes::DIRECTORY, list[0], 0, now);
    let dm = lemma_create_directory_steps(d, path, now);
    let d1 = d.create_directory(path, now).0;
    let p = d.parent_for(path)->Ok_0.first_cluster;
    lemma_free_in_range(d, FIRST_CLUSTER as int, 1);
    lemma_way_beside_new_data(d, dm, path, 1);
    assert(0x10u8 & 0x3F == 0x10) by (bit_vector);
    assert(0x10u8 & 0x10 == 0x10) by (bit_vector);
    lemma_new_entry(name_of(path), FileAttributes::DIRECTORY, list[0], 0, now);
    lemma_directory_entered(dm, d1, path, e, list);
    lemma_room_kept(d, dm, p, list);
    let d3 = lemma_entry_undone(dm, path, e, list);
    lemma_creation_undone(d, dm, d3, path, list);
}

} // verus!
