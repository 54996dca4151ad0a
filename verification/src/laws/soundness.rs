//! Sound volumes: the table is on the device in full and does not overlap the clusters, no
//! cluster is in two chains, directories are on the device, and every entry of every directory
//! leads to a chain. Creating files and directories keeps a volume sound.

use vstd::prelude::*;
use crate::disk::{encodable, find_entry, parse_dirent, dirent_bytes, Disk};
use crate::dirent::law_dirent_roundtrip;
use crate::error::ErrView;
use crate::laws::chain_facts::{
    all_in_range, disjoint, is_chain, lemma_chain_distinct, lemma_chain_in_use, lemma_chain_kept,
    lemma_distinct_len, lemma_follow_chain,
};
use crate::laws::creation::{intact, walk_clear};
use crate::laws::dir_facts::{
    behind_end_readable, filled, free_set, lemma_added_by_expansion, lemma_behind_filled,
    lemma_fill_slot, lemma_listing_in_range, lemma_listing_kept, lemma_slot_marker, lemma_slot_part, lemma_vacant,
    next_linkable, storable,
};
use crate::laws::frame::{lemma_touches_widen, touches};
use crate::laws::undoing::lemma_slots_kept;
use crate::text::same_name;
use crate::types::{
    is_end_marker, DirentView, FatEntry, DIRENT_DELETED, DIRENT_SIZE, FAT16_BAD, FAT32_BAD,
    FIRST_CLUSTER,
};

verus! {

/// Which chains a volume has, by their first clusters, and which of them are directories.
pub struct Layout {
    pub chains: Map<u32, Seq<u32>>,
    pub dirs: Set<u32>,
}

/// The number of every cluster can be stored as a link.
pub open spec fn all_linkable(d: Disk) -> bool {
    forall|c: u32| d.geo.in_range(c) ==> encodable(d.geo.fat_type, FatEntry::Next(c))
}

/// The number of every cluster can be stored as a link unless there are so many clusters that
/// their numbers reach those that stand for something else.
pub proof fn law_links_can_be_stored(d: Disk)
    requires
        d.geo.fat_type is Fat16 ==> d.geo.total_clusters < FAT16_BAD,
        d.geo.fat_type is Fat32 ==> d.geo.total_clusters < FAT32_BAD,
    ensures
        all_linkable(d),
{
}

/// The clusters of a chain are on the device.
pub open spec fn on_device(d: Disk, chain: Seq<u32>) -> bool {
    forall|k: int| 0 <= k < chain.len() ==> d.read_cluster(#[trigger] chain[k]) is Ok
}

/// The end of a directory is in its last cluster.
pub open spec fn ends_last(d: Disk, chain: Seq<u32>) -> bool {
    forall|a: int, b: int|
        #![trigger d.slot(chain, a, b, DIRENT_SIZE as nat)]
        0 <= a < chain.len() - 1 && 0 <= b < d.geo.slots() ==> !is_end_marker(
            d.slot(chain, a, b, DIRENT_SIZE as nat)->Ok_0[0],
        )
}

/// The entry leads to a chain of the layout, which is a directory if the entry is one.
pub open spec fn leads_into(l: Layout, e: DirentView) -> bool {
    &&& l.chains.dom().contains(e.first_cluster)
    &&& e.is_directory() <==> l.dirs.contains(e.first_cluster)
}

/// The layout has chains of the volume, no two of which share a cluster.
pub open spec fn chains_apart(d: Disk, l: Layout) -> bool {
    &&& forall|h: u32|
        #![trigger l.chains[h]]
        l.chains.dom().contains(h) ==> is_chain(d, l.chains[h]) && l.chains[h][0] == h
            && all_in_range(d.geo, l.chains[h])
    &&& forall|g: u32, h: u32|
        #![trigger l.chains[g], l.chains[h]]
        l.chains.dom().contains(g) && l.chains.dom().contains(h) && g != h ==> disjoint(
            l.chains[g],
            l.chains[h],
        )
}

/// The directory is on the device, every entry of it leads into the layout, and it ends in its
/// last cluster.
pub open spec fn directory_sound(d: Disk, l: Layout, h: u32) -> bool {
    &&& on_device(d, l.chains[h])
    &&& ends_last(d, l.chains[h])
    &&& forall|k: int|
        0 <= k < d.entries(h)->Ok_0.len() ==> leads_into(l, #[trigger] d.entries(h)->Ok_0[k])
}

/// The volume is sound, and has this layout.
pub open spec fn sound(d: Disk, l: Layout) -> bool {
    &&& intact(d)
    &&& all_linkable(d)
    &&& chains_apart(d, l)
    &&& l.dirs.contains(FIRST_CLUSTER)
    &&& forall|h: u32| #[trigger]
        l.dirs.contains(h) ==> l.chains.dom().contains(h) && directory_sound(d, l, h)
}

/// Every slot of a directory on the device can be read.
pub proof fn lemma_slot_readable(d: Disk, chain: Seq<u32>, a: int, b: int, n: nat)
    requires
        d.geo.valid(),
        on_device(d, chain),
        0 <= a < chain.len(),
        0 <= b < d.geo.slots(),
        n <= DIRENT_SIZE,
    ensures
        d.slot(chain, a, b, n) is Ok,
{
    let c = chain[a];
    assert(d.read_cluster(c) is Ok);
    lemma_slot_part(d, chain, a, b, n);
}

/// A directory on the device can be listed.
pub proof fn lemma_entries_readable(d: Disk, chain: Seq<u32>, i: int, j: int)
    requires
        d.geo.valid(),
        on_device(d, chain),
        0 <= i,
        0 <= j,
    ensures
        d.entries_from(chain, i, j) is Ok,
    decreases chain.len() - i, d.geo.slots() - j,
{
    if i < chain.len() {
        if j >= d.geo.slots() {
            lemma_entries_readable(d, chain, i + 1, 0);
        } else {
            lemma_slot_readable(d, chain, i, j, DIRENT_SIZE as nat);
            lemma_entries_readable(d, chain, i, j + 1);
        }
    }
}

/// A vacant slot can be looked for in a directory on the device.
pub proof fn lemma_vacancy_readable(d: Disk, chain: Seq<u32>, i: int, j: int)
    requires
        d.geo.valid(),
        on_device(d, chain),
        0 <= i,
        0 <= j,
    ensures
        d.vacant_slot(chain, i, j) is Ok,
    decreases chain.len() - i, d.geo.slots() - j,
{
    if i < chain.len() {
        if j >= d.geo.slots() {
            lemma_vacancy_readable(d, chain, i + 1, 0);
        } else {
            lemma_slot_readable(d, chain, i, j, 1);
            lemma_vacancy_readable(d, chain, i, j + 1);
        }
    }
}

/// A chain of the layout is what following it gives.
pub proof fn lemma_layout_chain(d: Disk, l: Layout, h: u32)
    requires
        chains_apart(d, l),
        l.chains.dom().contains(h),
    ensures
        d.chain(h) == Ok::<Seq<u32>, ErrView>(l.chains[h]),
        is_chain(d, l.chains[h]),
        all_in_range(d.geo, l.chains[h]),
        l.chains[h].no_duplicates(),
        l.chains[h].len() <= d.geo.total_clusters,
        l.chains[h][0] == h,
        d.geo.in_range(h),
{
    let s = l.chains[h];
    lemma_chain_distinct(d, s);
    lemma_distinct_len(d.geo, s);
    lemma_follow_chain(d, s, (d.geo.total_clusters + 1) as nat);
    assert(d.geo.in_range(s[0]));
}

/// A directory of a sound volume can be listed, and what lies behind its end can be read.
pub proof fn lemma_directory_readable(d: Disk, l: Layout, h: u32)
    requires
        sound(d, l),
        l.dirs.contains(h),
    ensures
        l.chains.dom().contains(h),
        directory_sound(d, l, h),
        d.chain(h) == Ok::<Seq<u32>, ErrView>(l.chains[h]),
        d.entries(h) is Ok,
        behind_end_readable(d, l.chains[h]),
{
    lemma_layout_chain(d, l, h);
    let s = l.chains[h];
    lemma_entries_readable(d, s, 0, 0);
    if d.vacant_slot(s, 0, 0) is Ok && d.vacant_slot(s, 0, 0)->Ok_0 is Some {
        lemma_vacant(d, s, 0, 0);
        let (p, q) = d.vacant_slot(s, 0, 0)->Ok_0->Some_0;
        if q + 1 < d.geo.slots() {
            lemma_slot_readable(d, s, p, q + 1, DIRENT_SIZE as nat);
        }
        lemma_entries_readable(d, s, p + 1, 0);
    }
}

proof fn lemma_found_member(entries: Seq<DirentView>, name: Seq<char>)
    ensures
        find_entry(entries, name) matches Some(e) ==> entries.contains(e) && same_name(
            e.filename(),
            name,
        ),
    decreases entries.len(),
{
    if entries.len() > 0 {
        if same_name(entries[0].filename(), name) {
            assert(entries.contains(entries[0]));
        } else {
            let rest = entries.drop_first();
            lemma_found_member(rest, name);
            if find_entry(rest, name) is Some {
                let e = find_entry(rest, name)->Some_0;
                let k = choose|k: int| 0 <= k < rest.len() && rest[k] == e;
                assert(entries[k + 1] == e);
            }
        }
    }
}

/// What is found in a directory of a sound volume leads into its layout.
pub proof fn lemma_found_leads(d: Disk, l: Layout, h: u32, name: Seq<char>)
    requires
        sound(d, l),
        l.dirs.contains(h),
    ensures
        find_entry(d.entries(h)->Ok_0, name) matches Some(e) ==> leads_into(l, e) && same_name(
            e.filename(),
            name,
        ),
{
    let entries = d.entries(h)->Ok_0;
    lemma_found_member(entries, name);
    if find_entry(entries, name) is Some {
        let e = find_entry(entries, name)->Some_0;
        let k = choose|k: int| 0 <= k < entries.len() && entries[k] == e;
        assert(leads_into(l, entries[k]));
    }
}

/// On a sound volume every way keeps clear of every directory, and leads into the layout.
pub proof fn lemma_sound_walk(
    d: Disk,
    l: Layout,
    c: u32,
    names: Seq<Seq<char>>,
    i: int,
    p: u32,
)
    requires
        sound(d, l),
        l.dirs.contains(c),
        l.dirs.contains(p),
        0 <= i,
        d.resolve_from(c, names, i) is Ok,
    ensures
        walk_clear(d, c, names, i, p),
        i < names.len() ==> leads_into(l, d.resolve_from(c, names, i)->Ok_0),
    decreases names.len() - i,
{
    if i < names.len() {
        lemma_directory_readable(d, l, c);
        lemma_directory_readable(d, l, p);
        lemma_found_leads(d, l, c, names[i]);
        let e = find_entry(d.entries(c)->Ok_0, names[i])->Some_0;
        if c != p {
            assert(disjoint(l.chains[c], l.chains[p]));
        }
        if i + 1 < names.len() {
            lemma_sound_walk(d, l, e.first_cluster, names, i + 1, p);
        }
    }
}

// ---------------------------------------------------------------------------
// Entering
// ---------------------------------------------------------------------------

/// The entries of the table that are touched when a directory with the clusters `s` becomes one
/// with the clusters `s2`.
pub open spec fn placed_fats(s: Seq<u32>, s2: Seq<u32>) -> Set<u32> {
    if s2 == s {
        Set::empty()
    } else {
        set![s2.last(), s.last()]
    }
}

/// The clusters that are touched then.
pub open spec fn placed_data(s: Seq<u32>, s2: Seq<u32>) -> Set<u32> {
    if s2 == s {
        s.to_set()
    } else {
        set![s2.last()]
    }
}

/// A listing has got an entry somewhere, and is otherwise as it was.
pub open spec fn has_got(before: Seq<DirentView>, after: Seq<DirentView>, e: DirentView) -> bool {
    exists|m: int| 0 <= m <= before.len() && after == #[trigger] before.insert(m, e)
}

/// Every entry of a listing that has got one is the new one, or was there before.
proof fn lemma_got_members(before: Seq<DirentView>, after: Seq<DirentView>, e: DirentView)
    requires
        has_got(before, after, e),
    ensures
        forall|k: int|
            0 <= k < after.len() ==> (#[trigger] after[k] == e || before.contains(after[k])),
{
    let m = choose|m: int| 0 <= m <= before.len() && after == #[trigger] before.insert(m, e);
    assert forall|k: int| 0 <= k < after.len() implies (#[trigger] after[k] == e || before.contains(
        after[k],
    )) by {
        if k < m {
            assert(after[k] == before[k]);
        } else if k > m {
            assert(after[k] == before[k - 1]);
        }
    }
}

/// The entry has been put into the directory at `c`, which has the clusters `s2` now: those it
/// had, and perhaps one more that was free.
pub open spec fn placed(d: Disk, d2: Disk, c: u32, e: DirentView, s2: Seq<u32>) -> bool {
    let s = d.chain(c)->Ok_0;
    &&& is_chain(d2, s2)
    &&& d2.chain(c) == Ok::<Seq<u32>, ErrView>(s2)
    &&& s2 == s || s2 == s.push(s2.last()) && free_set(d).contains(s2.last())
    &&& touches(d, d2, placed_fats(s, s2), placed_data(s, s2))
    &&& d2.entries(c) is Ok
    &&& forall|k: int|
        0 <= k < d2.entries(c)->Ok_0.len() ==> (#[trigger] d2.entries(c)->Ok_0[k] == e || d.entries(
            c,
        )->Ok_0.contains(d2.entries(c)->Ok_0[k]))
    &&& has_got(d.entries(c)->Ok_0, d2.entries(c)->Ok_0, e)
    &&& ends_last(d2, s2)
    &&& on_device(d2, s2)
}

/// What is listed once a vacant slot has been filled: the entries that were, and the new one.
proof fn lemma_filled_members(
    d: Disk,
    d2: Disk,
    chain: Seq<u32>,
    p: int,
    q: int,
    at_end: bool,
    e: DirentView,
    i: int,
    j: int,
) -> (m: int)
    requires
        0 <= i,
        0 <= j,
        storable(e),
        d.vacant_slot(chain, i, j) == Ok::<Option<(int, int)>, ErrView>(Some((p, q))),
        at_end == (d.slot(chain, p, q, 1)->Ok_0[0] != DIRENT_DELETED),
        at_end ==> p + 1 == chain.len(),
        filled(d, d2, chain, p, q, at_end, e),
        d.entries_from(chain, i, j) is Ok,
    ensures
        0 <= m <= d.entries_from(chain, i, j)->Ok_0.len(),
        d2.entries_from(chain, i, j) == Ok::<Seq<DirentView>, ErrView>(
            d.entries_from(chain, i, j)->Ok_0.insert(m, e),
        ),
    decreases chain.len() - i, d.geo.slots() - j,
{
    let n = DIRENT_SIZE as nat;
    lemma_vacant(d, chain, i, j);
    if j >= d.geo.slots() {
        lemma_filled_members(d, d2, chain, p, q, at_end, e, i + 1, 0)
    } else {
        assert(d.slot(chain, i, j, n) is Ok);
        lemma_slot_marker(d, chain, i, j);
        let raw = d.slot(chain, i, j, n)->Ok_0;
        let old_all = d.entries_from(chain, i, j)->Ok_0;
        if i == p && j == q {
            law_dirent_roundtrip(d.geo.big_endian, e);
            assert(dirent_bytes(d.geo.big_endian, e)[0] == e.filename_len);
            if at_end {
                if q + 1 < d.geo.slots() {
                    assert(d2.entries_from(chain, p, q + 1) == Ok::<Seq<DirentView>, ErrView>(
                        seq![],
                    ));
                } else {
                    assert(d2.entries_from(chain, p, q + 1) == d2.entries_from(chain, p + 1, 0));
                    assert(d2.entries_from(chain, p + 1, 0) == Ok::<Seq<DirentView>, ErrView>(
                        seq![],
                    ));
                }
            } else {
                lemma_behind_filled(d, d2, chain, p, q, e, p, q + 1);
            }
            let rest = d2.entries_from(chain, p, q + 1)->Ok_0;
            assert(rest == old_all);
            assert(seq![e] + rest =~= old_all.insert(0, e));
            0
        } else {
            assert(!is_end_marker(raw[0]) && raw[0] != DIRENT_DELETED);
            assert(d2.slot(chain, i, j, n) == d.slot(chain, i, j, n));
            let m = lemma_filled_members(d, d2, chain, p, q, at_end, e, i, j + 1);
            let x = parse_dirent(d.geo.big_endian, raw);
            let old_rest = d.entries_from(chain, i, j + 1)->Ok_0;
            assert(old_all == seq![x] + old_rest);
            assert(seq![x] + old_rest.insert(m, e) =~= old_all.insert(m + 1, e));
            m + 1
        }
    }
}

/// A full cluster holds no end marker.
proof fn lemma_full_has_no_end(d: Disk, chain: Seq<u32>, i: int, j: int, a: int, b: int)
    requires
        d.geo.valid(),
        on_device(d, chain),
        0 <= i,
        0 <= j,
        d.vacant_slot(chain, i, j) == Ok::<Option<(int, int)>, ErrView>(None),
        i <= a < chain.len(),
        0 <= b < d.geo.slots(),
        a == i ==> j <= b,
    ensures
        !is_end_marker(d.slot(chain, a, b, DIRENT_SIZE as nat)->Ok_0[0]),
    decreases chain.len() - i, d.geo.slots() - j,
{
    if j >= d.geo.slots() {
        lemma_full_has_no_end(d, chain, i + 1, 0, a, b);
    } else {
        assert(d.geo.in_range(chain[i]));
        lemma_slot_readable(d, chain, i, j, DIRENT_SIZE as nat);
        lemma_slot_marker(d, chain, i, j);
        if !(i == a && j == b) {
            lemma_full_has_no_end(d, chain, i, j + 1, a, b);
        }
    }
}

proof fn lemma_placed_in_slot(d: Disk, c: u32, e: DirentView, p: int, q: int)
    requires
        intact(d),
        on_device(d, d.chain(c)->Ok_0),
        d.entries(c) is Ok,
        ends_last(d, d.chain(c)->Ok_0),
        storable(e),
        d.vacant_slot(d.chain(c)->Ok_0, 0, 0) == Ok::<Option<(int, int)>, ErrView>(Some((p, q))),
        d.add_entry(c, e).1 is Ok,
    ensures
        placed(d, d.add_entry(c, e).0, c, e, d.chain(c)->Ok_0),
{
    let n = DIRENT_SIZE as nat;
    let s = d.chain(c)->Ok_0;
    let d2 = d.add_entry(c, e).0;
    lemma_listing_in_range(d, c);
    lemma_vacant(d, s, 0, 0);
    let at_end = d.slot(s, p, q, 1)->Ok_0[0] != DIRENT_DELETED;
    if at_end && q + 1 < d.geo.slots() {
        lemma_slot_readable(d, s, p, q + 1, n);
    }
    lemma_slot_readable(d, s, p, q, n);
    lemma_slot_marker(d, s, p, q);
    if at_end && p < s.len() - 1 {
        assert(!is_end_marker(d.slot(s, p, q, n)->Ok_0[0]));
    }
    lemma_fill_slot(d, s, p, q, at_end, e);
    lemma_chain_kept(d, d2, s, Set::empty(), set![s[p]]);
    lemma_follow_chain(d2, s, (d.geo.total_clusters + 1) as nat);
    let m = lemma_filled_members(d, d2, s, p, q, at_end, e, 0, 0);
    assert(has_got(d.entries(c)->Ok_0, d2.entries(c)->Ok_0, e));
    lemma_got_members(d.entries(c)->Ok_0, d2.entries(c)->Ok_0, e);
    lemma_on_device_kept(d, d2, s);
    assert(s.to_set().contains(s[p]));
    lemma_touches_widen(d, d2, Set::empty(), set![s[p]], Set::empty(), s.to_set());
    assert forall|a: int, b: int|
        #![trigger d2.slot(s, a, b, n)]
        0 <= a < s.len() - 1 && 0 <= b < d2.geo.slots() implies !is_end_marker(
        d2.slot(s, a, b, n)->Ok_0[0],
    ) by {
        assert(d.geo.in_range(s[a]));
        lemma_slot_readable(d, s, a, b, n);
        assert(!is_end_marker(d.slot(s, a, b, n)->Ok_0[0]));
        if a == p && b == q {
            law_dirent_roundtrip(d.geo.big_endian, e);
            assert(dirent_bytes(d.geo.big_endian, e)[0] == e.filename_len);
        } else {
            assert(d2.slot(s, a, b, n) == d.slot(s, a, b, n));
        }
    }
}

proof fn lemma_placed_by_expansion(d: Disk, c: u32, e: DirentView) -> (s2: Seq<u32>)
    requires
        intact(d),
        on_device(d, d.chain(c)->Ok_0),
        all_linkable(d),
        d.entries(c) is Ok,
        storable(e),
        d.vacant_slot(d.chain(c)->Ok_0, 0, 0) == Ok::<Option<(int, int)>, ErrView>(None),
        d.add_entry(c, e).1 is Ok,
    ensures
        placed(d, d.add_entry(c, e).0, c, e, s2),
{
    let n = DIRENT_SIZE as nat;
    let s = d.chain(c)->Ok_0;
    let d2 = d.add_entry(c, e).0;
    lemma_listing_in_range(d, c);
    lemma_next_linkable(d);
    let fresh = lemma_added_by_expansion(d, c, e);
    let s2 = s.push(fresh);
    let old_list = d.entries(c)->Ok_0;
    let list = d2.entries(c)->Ok_0;
    assert(list == old_list.push(e));
    assert(list =~= old_list.insert(old_list.len() as int, e));
    assert(has_got(old_list, list, e));
    lemma_got_members(old_list, list, e);
    assert forall|a: int, b: int|
        #![trigger d2.slot(s2, a, b, n)]
        0 <= a < s2.len() - 1 && 0 <= b < d2.geo.slots() implies !is_end_marker(
        d2.slot(s2, a, b, n)->Ok_0[0],
    ) by {
        assert(d.geo.in_range(s[a]));
        lemma_slot_readable(d, s, a, b, n);
        lemma_full_has_no_end(d, s, 0, 0, a, b);
        assert(d2.slot(s2, a, b, n) == d.slot(s, a, b, n));
    }
    assert forall|k: int| 0 <= k < s2.len() implies d2.read_cluster(#[trigger] s2[k]) is Ok by {
        if k < s.len() {
            assert(d.read_cluster(s[k]) is Ok);
        }
    }
    assert(s2.last() == fresh);
    assert(s2 != s) by {
        assert(s2.len() != s.len());
    }
    s2
}

/// The next cluster to be taken has a number that can be stored.
pub proof fn lemma_next_linkable(d: Disk)
    requires
        all_linkable(d),
    ensures
        next_linkable(d),
{
    crate::directory::lemma_free_in_range(d, FIRST_CLUSTER as int, 1);
    if d.free_from(FIRST_CLUSTER as int, 1) is Ok {
        let list = d.free_from(FIRST_CLUSTER as int, 1)->Ok_0;
        if list.len() > 0 {
            assert(d.geo.in_range(list[0]));
        }
    }
}

/// Adding an entry places it.
pub proof fn lemma_placed(d: Disk, c: u32, e: DirentView) -> (s2: Seq<u32>)
    requires
        intact(d),
        on_device(d, d.chain(c)->Ok_0),
        all_linkable(d),
        d.entries(c) is Ok,
        ends_last(d, d.chain(c)->Ok_0),
        storable(e),
        d.add_entry(c, e).1 is Ok,
    ensures
        placed(d, d.add_entry(c, e).0, c, e, s2),
{
    match d.vacant_slot(d.chain(c)->Ok_0, 0, 0) {
        Ok(Some((p, q))) => {
            lemma_placed_in_slot(d, c, e, p, q);
            d.chain(c)->Ok_0
        },
        Ok(None) => lemma_placed_by_expansion(d, c, e),
        Err(_) => seq![],
    }
}

/// A chain apart from the directory is not touched.
pub proof fn lemma_apart_untouched(d: Disk, d2: Disk, c: u32, e: DirentView, s2: Seq<u32>, t: Seq<u32>)
    requires
        d.entries(c) is Ok,
        d.geo.valid(),
        placed(d, d2, c, e, s2),
        is_chain(d, t),
        disjoint(t, d.chain(c)->Ok_0),
    ensures
        disjoint(t, s2),
        forall|k: int|
            0 <= k < t.len() ==> !placed_fats(d.chain(c)->Ok_0, s2).contains(#[trigger] t[k])
                && !placed_data(d.chain(c)->Ok_0, s2).contains(t[k]),
{
    let s = d.chain(c)->Ok_0;
    lemma_listing_in_range(d, c);
    assert forall|k: int| 0 <= k < t.len() implies !placed_fats(s, s2).contains(#[trigger] t[k])
        && !placed_data(s, s2).contains(t[k]) by {
        assert(t.contains(t[k]));
        lemma_chain_in_use(d, t, t[k]);
        assert(t[k] != s[s.len() - 1]);
        if s2 == s && s.to_set().contains(t[k]) {
            let j = choose|j: int| 0 <= j < s.len() && s[j] == t[k];
            assert(t[k] != s[j]);
        }
    }
    assert forall|i: int, j: int| 0 <= i < t.len() && 0 <= j < s2.len() implies #[trigger] t[i]
        != #[trigger] s2[j] by {
        assert(t.contains(t[i]));
        lemma_chain_in_use(d, t, t[i]);
        if j < s.len() {
            assert(t[i] != s[j]);
        }
    }
}

/// The device only grows.
pub proof fn lemma_on_device_kept(d: Disk, d2: Disk, chain: Seq<u32>)
    requires
        on_device(d, chain),
        d2.geo == d.geo,
        d2.bytes.len() >= d.bytes.len(),
    ensures
        on_device(d2, chain),
{
    assert forall|k: int| 0 <= k < chain.len() implies d2.read_cluster(#[trigger] chain[k]) is Ok by {
        assert(d.read_cluster(chain[k]) is Ok);
    }
}

/// A directory that is left alone stays sound.
pub proof fn lemma_directory_kept(
    d: Disk,
    d2: Disk,
    l: Layout,
    h: u32,
    fats: Set<u32>,
    data: Set<u32>,
)
    requires
        sound(d, l),
        l.dirs.contains(h),
        touches(d, d2, fats, data),
        forall|k: int|
            0 <= k < l.chains[h].len() ==> !fats.contains(#[trigger] l.chains[h][k])
                && !data.contains(l.chains[h][k]),
    ensures
        d2.entries(h) == d.entries(h),
        d2.chain(h) == d.chain(h),
        ends_last(d2, l.chains[h]),
        on_device(d2, l.chains[h]),
{
    let n = DIRENT_SIZE as nat;
    let t = l.chains[h];
    lemma_directory_readable(d, l, h);
    lemma_layout_chain(d, l, h);
    lemma_listing_kept(d, d2, h, fats, data);
    lemma_slots_kept(d, d2, t, fats, data);
    lemma_on_device_kept(d, d2, t);
    assert forall|a: int, b: int|
        #![trigger d2.slot(t, a, b, n)]
        0 <= a < t.len() - 1 && 0 <= b < d2.geo.slots() implies !is_end_marker(
        d2.slot(t, a, b, n)->Ok_0[0],
    ) by {
        assert(d.geo.in_range(t[a]));
        lemma_slot_readable(d, t, a, b, n);
        assert(!is_end_marker(d.slot(t, a, b, n)->Ok_0[0]));
        assert(d2.slot(t, a, b, n) == d.slot(t, a, b, n));
    }
}

/// A chain of the layout and a list of free clusters have none in common.
pub proof fn lemma_free_beside(d: Disk, l: Layout, list: Seq<u32>, h: u32)
    requires
        chains_apart(d, l),
        l.chains.dom().contains(h),
        forall|k: int|
            0 <= k < list.len() ==> d.read_fat(#[trigger] list[k]) == Ok::<FatEntry, ErrView>(
                FatEntry::Free,
            ),
    ensures
        disjoint(list, l.chains[h]),
        disjoint(l.chains[h], list),
        forall|k: int| 0 <= k < l.chains[h].len() ==> !list.to_set().contains(
            #[trigger] l.chains[h][k],
        ),
{
    let t = l.chains[h];
    assert forall|i: int, j: int| 0 <= i < list.len() && 0 <= j < t.len() implies #[trigger] list[i]
        != #[trigger] t[j] by {
        assert(t.contains(t[j]));
        lemma_chain_in_use(d, t, t[j]);
    }
    assert forall|k: int| 0 <= k < t.len() implies !list.to_set().contains(#[trigger] t[k]) by {
        if list.to_set().contains(t[k]) {
            let j = choose|j: int| 0 <= j < list.len() && list[j] == t[k];
            assert(list[j] != t[k]);
        }
    }
}

/// A volume stays sound when free clusters are taken.
pub proof fn lemma_sound_beside_new_data(d: Disk, d2: Disk, l: Layout, list: Seq<u32>)
    requires
        sound(d, l),
        intact(d2),
        touches(d, d2, list.to_set(), list.to_set()),
        forall|k: int|
            0 <= k < list.len() ==> d.read_fat(#[trigger] list[k]) == Ok::<FatEntry, ErrView>(
                FatEntry::Free,
            ),
    ensures
        sound(d2, l),
{
    assert(all_linkable(d2));
    assert forall|h: u32|
        #![trigger l.chains[h]]
        l.chains.dom().contains(h) implies is_chain(d2, l.chains[h]) && l.chains[h][0] == h
        && all_in_range(d2.geo, l.chains[h]) by {
        lemma_layout_chain(d, l, h);
        lemma_free_beside(d, l, list, h);
        lemma_chain_kept(d, d2, l.chains[h], list.to_set(), list.to_set());
    }
    assert forall|h: u32| #[trigger] l.dirs.contains(h) implies l.chains.dom().contains(h)
        && directory_sound(d2, l, h) by {
        assert(directory_sound(d, l, h));
        lemma_free_beside(d, l, list, h);
        lemma_directory_kept(d, d2, l, h, list.to_set(), list.to_set());
        assert forall|k: int| 0 <= k < d2.entries(h)->Ok_0.len() implies leads_into(
            l,
            #[trigger] d2.entries(h)->Ok_0[k],
        ) by {
            assert(leads_into(l, d.entries(h)->Ok_0[k]));
        }
    }
}

/// The layout once an entry with the chain `list` has been entered in the directory at `p`,
/// which has the clusters `s2` now.
pub open spec fn grown(l: Layout, p: u32, s2: Seq<u32>, e: DirentView, list: Seq<u32>) -> Layout {
    Layout {
        chains: l.chains.insert(p, s2).insert(list[0], list),
        dirs: if e.is_directory() {
            l.dirs.insert(list[0])
        } else {
            l.dirs
        },
    }
}

/// What has to hold of a chain that is to be entered.
pub open spec fn enterable(d: Disk, l: Layout, e: DirentView, list: Seq<u32>) -> bool {
    &&& is_chain(d, list)
    &&& all_in_range(d.geo, list)
    &&& list[0] == e.first_cluster
    &&& forall|h: u32|
        #![trigger l.chains[h]]
        l.chains.dom().contains(h) ==> disjoint(list, l.chains[h]) && disjoint(l.chains[h], list)
    &&& e.is_directory() ==> list.len() == 1 && on_device(d, list) && d.entries(list[0]) == Ok::<
        Seq<DirentView>,
        ErrView,
    >(seq![])
}

proof fn lemma_new_head(d: Disk, l: Layout, e: DirentView, list: Seq<u32>)
    requires
        sound(d, l),
        enterable(d, l, e, list),
    ensures
        !l.chains.dom().contains(list[0]),
        !l.dirs.contains(list[0]),
{
    if l.chains.dom().contains(list[0]) {
        lemma_layout_chain(d, l, list[0]);
        let t = l.chains[list[0]];
        assert(disjoint(list, t));
        assert(list[0] != t[0]);
    }
}

/// The chains of the grown layout are chains of the volume and apart from each other.
proof fn lemma_chains_grown(
    d: Disk,
    d2: Disk,
    l: Layout,
    p: u32,
    e: DirentView,
    list: Seq<u32>,
    s2: Seq<u32>,
)
    requires
        sound(d, l),
        l.dirs.contains(p),
        enterable(d, l, e, list),
        placed(d, d2, p, e, s2),
    ensures
        chains_apart(d2, grown(l, p, s2, e, list)),
        is_chain(d2, list),
{
    let l2 = grown(l, p, s2, e, list);
    let s = l.chains[p];
    lemma_new_head(d, l, e, list);
    lemma_directory_readable(d, l, p);
    lemma_layout_chain(d, l, p);
    assert(s2.len() > 0 && s2[0] == p);
    assert(all_in_range(d.geo, s2)) by {
        assert forall|k: int| 0 <= k < s2.len() implies d.geo.in_range(#[trigger] s2[k]) by {
            if k < s.len() {
                assert(d.geo.in_range(s[k]));
            }
        }
    }
    assert(disjoint(list, s));
    lemma_apart_untouched(d, d2, p, e, s2, list);
    lemma_chain_kept(d, d2, list, placed_fats(s, s2), placed_data(s, s2));
    assert forall|h: u32|
        #![trigger l2.chains[h]]
        l2.chains.dom().contains(h) implies is_chain(d2, l2.chains[h]) && l2.chains[h][0] == h
        && all_in_range(d2.geo, l2.chains[h]) by {
        if h != list[0] && h != p {
            let t = l.chains[h];
            lemma_layout_chain(d, l, h);
            assert(disjoint(t, s));
            lemma_apart_untouched(d, d2, p, e, s2, t);
            lemma_chain_kept(d, d2, t, placed_fats(s, s2), placed_data(s, s2));
        }
    }
    assert forall|g: u32, h: u32|
        #![trigger l2.chains[g], l2.chains[h]]
        l2.chains.dom().contains(g) && l2.chains.dom().contains(h) && g != h implies disjoint(
        l2.chains[g],
        l2.chains[h],
    ) by {
        if g != p && g != list[0] {
            let t = l.chains[g];
            lemma_layout_chain(d, l, g);
            assert(disjoint(t, s));
            lemma_apart_untouched(d, d2, p, e, s2, t);
            if h != p && h != list[0] {
                assert(disjoint(t, l.chains[h]));
            } else if h == list[0] {
                assert(disjoint(t, list));
            }
        } else if h != p && h != list[0] {
            let t = l.chains[h];
            lemma_layout_chain(d, l, h);
            assert(disjoint(t, s));
            lemma_apart_untouched(d, d2, p, e, s2, t);
            if g == list[0] {
                assert(disjoint(list, t));
            } else {
                lemma_disjoint_flip(t, s2);
            }
        } else if g == p {
            lemma_disjoint_flip(list, s2);
        }
    }
}

proof fn lemma_disjoint_flip(a: Seq<u32>, b: Seq<u32>)
    requires
        disjoint(a, b),
    ensures
        disjoint(b, a),
{
    assert forall|i: int, j: int| 0 <= i < b.len() && 0 <= j < a.len() implies #[trigger] b[i]
        != #[trigger] a[j] by {
        assert(a[j] != b[i]);
    }
}

/// What leads into a layout leads into it when it has grown.
proof fn lemma_leads_on(
    d: Disk,
    l: Layout,
    p: u32,
    s2: Seq<u32>,
    e: DirentView,
    list: Seq<u32>,
    x: DirentView,
)
    requires
        sound(d, l),
        l.dirs.contains(p),
        enterable(d, l, e, list),
        x == e || leads_into(l, x),
    ensures
        leads_into(grown(l, p, s2, e, list), x),
{
    lemma_new_head(d, l, e, list);
}

/// Entering something keeps a volume sound.
pub proof fn lemma_sound_entered(
    d: Disk,
    d2: Disk,
    l: Layout,
    p: u32,
    e: DirentView,
    list: Seq<u32>,
    s2: Seq<u32>,
)
    requires
        sound(d, l),
        intact(d2),
        l.dirs.contains(p),
        enterable(d, l, e, list),
        placed(d, d2, p, e, s2),
    ensures
        sound(d2, grown(l, p, s2, e, list)),
{
    let l2 = grown(l, p, s2, e, list);
    let s = l.chains[p];
    lemma_new_head(d, l, e, list);
    lemma_directory_readable(d, l, p);
    lemma_layout_chain(d, l, p);
    assert(all_linkable(d2));
    lemma_chains_grown(d, d2, l, p, e, list, s2);
    assert forall|h: u32| #[trigger] l2.dirs.contains(h) implies l2.chains.dom().contains(h)
        && directory_sound(d2, l2, h) by {
        if h == p {
            assert forall|k: int| 0 <= k < d2.entries(h)->Ok_0.len() implies leads_into(
                l2,
                #[trigger] d2.entries(h)->Ok_0[k],
            ) by {
                let x = d2.entries(h)->Ok_0[k];
                if x != e {
                    let old_list = d.entries(p)->Ok_0;
                    assert(old_list.contains(x));
                    let m = choose|m: int| 0 <= m < old_list.len() && old_list[m] == x;
                    assert(leads_into(l, old_list[m]));
                }
                lemma_leads_on(d, l, p, s2, e, list, x);
            }
        } else if h == list[0] {
            lemma_apart_untouched(d, d2, p, e, s2, list);
            lemma_follow_list(d, list);
            lemma_on_device_kept(d, d2, list);
            lemma_listing_kept(d, d2, h, placed_fats(s, s2), placed_data(s, s2));
        } else {
            let t = l.chains[h];
            assert(l.dirs.contains(h));
            lemma_layout_chain(d, l, h);
            assert(disjoint(t, s));
            lemma_apart_untouched(d, d2, p, e, s2, t);
            lemma_directory_kept(d, d2, l, h, placed_fats(s, s2), placed_data(s, s2));
            assert forall|k: int| 0 <= k < d2.entries(h)->Ok_0.len() implies leads_into(
                l2,
                #[trigger] d2.entries(h)->Ok_0[k],
            ) by {
                assert(leads_into(l, d.entries(h)->Ok_0[k]));
                lemma_leads_on(d, l, p, s2, e, list, d.entries(h)->Ok_0[k]);
            }
        }
    }
}

pub proof fn lemma_follow_list(d: Disk, list: Seq<u32>)
    requires
        is_chain(d, list),
        all_in_range(d.geo, list),
    ensures
        d.chain(list[0]) == Ok::<Seq<u32>, ErrView>(list),
{
    lemma_chain_distinct(d, list);
    lemma_distinct_len(d.geo, list);
    lemma_follow_chain(d, list, (d.geo.total_clusters + 1) as nat);
}

} // verus!
