//! Lemmas about directories: what keeps a listing, and what an added entry makes of it.

use vstd::prelude::*;
use crate::laws::chain_facts::{
    all_in_range, is_chain, lemma_allocate_cluster, lemma_chain_distinct, lemma_chain_in_range,
    lemma_chain_in_use, lemma_chain_kept, lemma_distinct_len, lemma_follow_chain,
    lemma_followed_chain, linked,
};
use crate::dirent::law_dirent_roundtrip;
use crate::disk::{blank, dirent_bytes, encodable, find_entry, parse_dirent, sector_ceil, Disk};
use crate::error::ErrView;
use crate::laws::frame::{
    lemma_touches_trans, lemma_touches_widen, lemma_write_fat, lemma_write_part, part, roomy,
    touches,
};
use crate::text::same_name;
use crate::types::{
    is_end_marker, DirentView, FatEntry, DIRENT_DELETED, DIRENT_END, DIRENT_SIZE, FIRST_CLUSTER,
    MAX_FILENAME_LEN,
};

verus! {

/// The clusters of the volume that are free.
pub open spec fn free_set(d: Disk) -> Set<u32> {
    Set::new(|c: u32| d.geo.in_range(c) && d.read_fat(c) == Ok::<FatEntry, ErrView>(FatEntry::Free))
}

/// The entry is one that a directory can hold: it has a name, and is neither deleted nor an
/// end marker.
pub open spec fn storable(e: DirentView) -> bool {
    &&& 1 <= e.filename_len <= MAX_FILENAME_LEN
    &&& e.filename_raw.len() == MAX_FILENAME_LEN
    &&& e.attributes.bits & 0x3F == e.attributes.bits
}

// ---------------------------------------------------------------------------
// Slots
// ---------------------------------------------------------------------------

/// A slot is a part of its cluster.
pub proof fn lemma_slot_part(d: Disk, chain: Seq<u32>, i: int, j: int, len: nat)
    requires
        d.geo.in_range(chain[i]),
        0 <= j < d.geo.slots(),
        len <= DIRENT_SIZE,
    ensures
        d.slot(chain, i, j, len) == part(d, chain[i], j * DIRENT_SIZE, len),
        0 <= j * DIRENT_SIZE,
        j * DIRENT_SIZE + DIRENT_SIZE <= d.geo.cluster_size(),
{
}

/// The first byte of a slot can be read where the slot can, and is the same.
pub proof fn lemma_slot_marker(d: Disk, chain: Seq<u32>, i: int, j: int)
    requires
        0 <= j,
        d.slot(chain, i, j, DIRENT_SIZE as nat) is Ok,
    ensures
        d.slot(chain, i, j, 1) is Ok,
        d.slot(chain, i, j, 1)->Ok_0[0] == d.slot(chain, i, j, DIRENT_SIZE as nat)->Ok_0[0],
        d.geo.in_range(chain[i]),
{
    let pos = (d.geo.cluster_pos(chain[i]) + j * DIRENT_SIZE) as nat;
    let start = (d.geo.base + pos) as int;
    assert(sector_ceil(start + 1) <= sector_ceil(start + DIRENT_SIZE));
    assert(start + DIRENT_SIZE <= sector_ceil(start + DIRENT_SIZE));
}

/// A listing that can be read comes from clusters of the volume.
pub proof fn lemma_listing_in_range(d: Disk, c: u32)
    requires
        d.geo.valid(),
        d.entries(c) is Ok,
    ensures
        ({
            let s = d.chain(c)->Ok_0;
            &&& d.chain(c) is Ok
            &&& is_chain(d, s)
            &&& s[0] == c
            &&& s.no_duplicates()
            &&& all_in_range(d.geo, s)
            &&& s.len() <= d.geo.total_clusters
        }),
{
    let fuel = (d.geo.total_clusters + 1) as nat;
    let s = d.chain(c)->Ok_0;
    lemma_followed_chain(d, c, fuel);
    assert(d.slot(s, 0, 0, DIRENT_SIZE as nat) is Ok) by {
        assert(d.entries_from(s, 0, 0) is Ok);
    }
    lemma_chain_in_range(d, s);
    lemma_chain_distinct(d, s);
    lemma_distinct_len(d.geo, s);
}

/// Slots of clusters that are left alone stay the same, and so does what is listed.
pub proof fn lemma_entries_kept(
    d: Disk,
    d2: Disk,
    chain: Seq<u32>,
    fats: Set<u32>,
    data: Set<u32>,
    i: int,
    j: int,
)
    requires
        touches(d, d2, fats, data),
        all_in_range(d.geo, chain),
        forall|k: int| i <= k < chain.len() ==> !data.contains(#[trigger] chain[k]),
        0 <= i,
        0 <= j,
        d.entries_from(chain, i, j) is Ok,
    ensures
        d2.entries_from(chain, i, j) == d.entries_from(chain, i, j),
    decreases chain.len() - i, d.geo.slots() - j,
{
    if i < chain.len() {
        if j >= d.geo.slots() {
            lemma_entries_kept(d, d2, chain, fats, data, i + 1, 0);
        } else {
            let n = DIRENT_SIZE as nat;
            lemma_slot_part(d, chain, i, j, n);
            lemma_slot_part(d2, chain, i, j, n);
            assert(!data.contains(chain[i]));
            assert(d2.slot(chain, i, j, n) == d.slot(chain, i, j, n));
            let raw = d.slot(chain, i, j, n)->Ok_0;
            if !is_end_marker(raw[0]) {
                lemma_entries_kept(d, d2, chain, fats, data, i, j + 1);
            }
        }
    }
}

/// A directory whose clusters are left alone lists the same entries.
pub proof fn lemma_listing_kept(d: Disk, d2: Disk, c: u32, fats: Set<u32>, data: Set<u32>)
    requires
        d.geo.valid(),
        touches(d, d2, fats, data),
        d.entries(c) is Ok,
        forall|k: int|
            0 <= k < d.chain(c)->Ok_0.len() ==> !fats.contains(#[trigger] d.chain(c)->Ok_0[k])
                && !data.contains(d.chain(c)->Ok_0[k]),
    ensures
        d2.entries(c) == d.entries(c),
        d2.chain(c) == d.chain(c),
{
    let s = d.chain(c)->Ok_0;
    lemma_listing_in_range(d, c);
    lemma_chain_kept(d, d2, s, fats, data);
    lemma_follow_chain(d2, s, (d.geo.total_clusters + 1) as nat);
    lemma_entries_kept(d, d2, s, fats, data, 0, 0);
}

// ---------------------------------------------------------------------------
// Looking up
// ---------------------------------------------------------------------------

/// Putting an entry in front hides nothing of another name.
pub proof fn lemma_find_cons(e: DirentView, rest: Seq<DirentView>, name: Seq<char>)
    ensures
        find_entry(seq![e] + rest, name) == (if same_name(e.filename(), name) {
            Some(e)
        } else {
            find_entry(rest, name)
        }),
{
    assert((seq![e] + rest).drop_first() =~= rest);
    assert((seq![e] + rest)[0] == e);
}

/// What is found in the first of two listings is found in both together.
pub proof fn lemma_find_append(a: Seq<DirentView>, b: Seq<DirentView>, name: Seq<char>)
    ensures
        find_entry(a + b, name) == (match find_entry(a, name) {
            Some(e) => Some(e),
            None => find_entry(b, name),
        }),
    decreases a.len(),
{
    if a.len() == 0 {
        assert(a + b =~= b);
    } else {
        assert((a + b).drop_first() =~= a.drop_first() + b);
        lemma_find_append(a.drop_first(), b, name);
    }
}

/// The slot that a new entry goes into.
pub proof fn lemma_vacant(d: Disk, chain: Seq<u32>, i: int, j: int)
    requires
        0 <= i,
        0 <= j,
    ensures
        d.vacant_slot(chain, i, j) matches Ok(Some((p, q))) ==> {
            &&& i <= p < chain.len()
            &&& 0 <= q < d.geo.slots()
            &&& p == i ==> j <= q
            &&& d.geo.in_range(chain[p])
            &&& d.slot(chain, p, q, 1) is Ok
            &&& is_end_marker(d.slot(chain, p, q, 1)->Ok_0[0]) || d.slot(chain, p, q, 1)->Ok_0[0]
                == DIRENT_DELETED
        },
    decreases chain.len() - i, d.geo.slots() - j,
{
    if i < chain.len() {
        if j >= d.geo.slots() {
            lemma_vacant(d, chain, i + 1, 0);
        } else {
            lemma_vacant(d, chain, i, j + 1);
        }
    }
}

/// `d2` has the entry `e` in the slot `(p, q)` of the directory, an end marker behind it if
/// it took the place of one and the cluster goes on, and is otherwise as `d`.
pub open spec fn filled(
    d: Disk,
    d2: Disk,
    chain: Seq<u32>,
    p: int,
    q: int,
    at_end: bool,
    e: DirentView,
) -> bool {
    let n = DIRENT_SIZE as nat;
    &&& d2.geo == d.geo
    &&& d2.slot(chain, p, q, n) == Ok::<Seq<u8>, ErrView>(dirent_bytes(d.geo.big_endian, e))
    &&& at_end && q + 1 < d.geo.slots() ==> {
        &&& d2.slot(chain, p, q + 1, n) is Ok
        &&& d2.slot(chain, p, q + 1, n)->Ok_0[0] == DIRENT_END
    }
    &&& forall|a: int, b: int|
        #![trigger d2.slot(chain, a, b, n)]
        0 <= a < chain.len() && 0 <= b < d.geo.slots() && !(a == p && b == q) && !(at_end && a == p
            && b == q + 1) && d.slot(chain, a, b, n) is Ok ==> d2.slot(chain, a, b, n) == d.slot(
            chain,
            a,
            b,
            n,
        )
}

/// Behind the filled slot nothing has changed.
pub proof fn lemma_behind_filled(
    d: Disk,
    d2: Disk,
    chain: Seq<u32>,
    p: int,
    q: int,
    e: DirentView,
    i: int,
    j: int,
)
    requires
        filled(d, d2, chain, p, q, false, e),
        0 <= p <= i,
        0 <= j,
        i == p ==> j > q,
        d.entries_from(chain, i, j) is Ok,
    ensures
        d2.entries_from(chain, i, j) == d.entries_from(chain, i, j),
    decreases chain.len() - i, d.geo.slots() - j,
{
    if i < chain.len() {
        if j >= d.geo.slots() {
            lemma_behind_filled(d, d2, chain, p, q, e, i + 1, 0);
        } else {
            let n = DIRENT_SIZE as nat;
            assert(d2.slot(chain, i, j, n) == d.slot(chain, i, j, n));
            if !is_end_marker(d.slot(chain, i, j, n)->Ok_0[0]) {
                lemma_behind_filled(d, d2, chain, p, q, e, i, j + 1);
            }
        }
    }
}

/// What a directory lists once its vacant slot has been filled: the same entries up to the
/// slot, then the new entry, then, if the slot held a deleted entry, the same entries again.
pub proof fn lemma_filled_listing(
    d: Disk,
    d2: Disk,
    chain: Seq<u32>,
    p: int,
    q: int,
    at_end: bool,
    e: DirentView,
    i: int,
    j: int,
    name: Seq<char>,
)
    requires
        0 <= i,
        0 <= j,
        storable(e),
        d.vacant_slot(chain, i, j) == Ok::<Option<(int, int)>, ErrView>(Some((p, q))),
        at_end == (d.slot(chain, p, q, 1)->Ok_0[0] != DIRENT_DELETED),
        filled(d, d2, chain, p, q, at_end, e),
        d.entries_from(chain, i, j) is Ok,
        at_end && q + 1 == d.geo.slots() ==> d2.entries_from(chain, p + 1, 0) is Ok,
    ensures
        d2.entries_from(chain, i, j) is Ok,
        ({
            let before = find_entry(d.entries_from(chain, i, j)->Ok_0, name);
            let after = find_entry(d2.entries_from(chain, i, j)->Ok_0, name);
            &&& same_name(e.filename(), name) && before is None ==> after == Some(e)
            &&& !same_name(e.filename(), name) && before is Some ==> after == before
        }),
    decreases chain.len() - i, d.geo.slots() - j,
{
    let n = DIRENT_SIZE as nat;
    lemma_vacant(d, chain, i, j);
    if j >= d.geo.slots() {
        lemma_filled_listing(d, d2, chain, p, q, at_end, e, i + 1, 0, name);
    } else {
        let raw = d.slot(chain, i, j, n)->Ok_0;
        assert(d.slot(chain, i, j, n) is Ok);
        lemma_slot_marker(d, chain, i, j);
        if i == p && j == q {
            law_dirent_roundtrip(d.geo.big_endian, e);
            let stored = dirent_bytes(d.geo.big_endian, e);
            assert(stored[0] == e.filename_len);
            if at_end {
                if q + 1 < d.geo.slots() {
                    assert(d2.entries_from(chain, p, q + 1) is Ok);
                } else {
                    assert(d2.entries_from(chain, p, q + 1) == d2.entries_from(chain, p + 1, 0));
                }
            } else {
                lemma_behind_filled(d, d2, chain, p, q, e, p, q + 1);
            }
            let rest = d2.entries_from(chain, p, q + 1)->Ok_0;
            lemma_find_cons(e, rest, name);
            assert(d2.entries_from(chain, i, j) == Ok::<Seq<DirentView>, ErrView>(seq![e] + rest));
        } else {
            assert(!is_end_marker(raw[0]) && raw[0] != DIRENT_DELETED);
            assert(d.vacant_slot(chain, i, j) == d.vacant_slot(chain, i, j + 1));
            assert(!(at_end && i == p && j == q + 1));
            assert(d2.slot(chain, i, j, n) == d.slot(chain, i, j, n));
            lemma_filled_listing(d, d2, chain, p, q, at_end, e, i, j + 1, name);
            let x = parse_dirent(d.geo.big_endian, raw);
            lemma_find_cons(x, d.entries_from(chain, i, j + 1)->Ok_0, name);
            lemma_find_cons(x, d2.entries_from(chain, i, j + 1)->Ok_0, name);
        }
    }
}

/// What a directory without a vacant slot lists once it has been made longer: the same
/// entries, then the new one.
pub proof fn lemma_expanded_listing(
    d: Disk,
    d2: Disk,
    chain: Seq<u32>,
    fresh: u32,
    e: DirentView,
    i: int,
    j: int,
)
    requires
        0 <= i <= chain.len(),
        0 <= j,
        i == chain.len() ==> j == 0,
        storable(e),
        d.geo.slots() > 1,
        d2.geo == d.geo,
        d.vacant_slot(chain, i, j) == Ok::<Option<(int, int)>, ErrView>(None),
        d.entries_from(chain, i, j) is Ok,
        forall|a: int, b: int|
            #![trigger d2.slot(chain.push(fresh), a, b, DIRENT_SIZE as nat)]
            0 <= a < chain.len() && 0 <= b < d.geo.slots() && d.slot(
                chain,
                a,
                b,
                DIRENT_SIZE as nat,
            ) is Ok ==> d2.slot(chain.push(fresh), a, b, DIRENT_SIZE as nat) == d.slot(
                chain,
                a,
                b,
                DIRENT_SIZE as nat,
            ),
        d2.slot(chain.push(fresh), chain.len() as int, 0, DIRENT_SIZE as nat) == Ok::<
            Seq<u8>,
            ErrView,
        >(dirent_bytes(d.geo.big_endian, e)),
        d2.slot(chain.push(fresh), chain.len() as int, 1, DIRENT_SIZE as nat) is Ok,
        d2.slot(chain.push(fresh), chain.len() as int, 1, DIRENT_SIZE as nat)->Ok_0[0]
            == DIRENT_END,
    ensures
        d2.entries_from(chain.push(fresh), i, j) == Ok::<Seq<DirentView>, ErrView>(
            d.entries_from(chain, i, j)->Ok_0.push(e),
        ),
    decreases chain.len() - i, d.geo.slots() - j,
{
    let n = DIRENT_SIZE as nat;
    let longer = chain.push(fresh);
    if i == chain.len() {
        law_dirent_roundtrip(d.geo.big_endian, e);
        assert(dirent_bytes(d.geo.big_endian, e)[0] == e.filename_len);
        assert(d2.entries_from(longer, i, 1) == Ok::<Seq<DirentView>, ErrView>(seq![]));
        assert(seq![e] + Seq::<DirentView>::empty() =~= Seq::<DirentView>::empty().push(e));
    } else if j >= d.geo.slots() {
        lemma_expanded_listing(d, d2, chain, fresh, e, i + 1, 0);
    } else {
        let raw = d.slot(chain, i, j, n)->Ok_0;
        assert(d.slot(chain, i, j, n) is Ok);
        lemma_slot_marker(d, chain, i, j);
        assert(d2.slot(longer, i, j, n) == d.slot(chain, i, j, n));
        lemma_expanded_listing(d, d2, chain, fresh, e, i, j + 1);
        let x = parse_dirent(d.geo.big_endian, raw);
        let rest = d.entries_from(chain, i, j + 1)->Ok_0;
        assert(seq![x] + rest.push(e) =~= (seq![x] + rest).push(e));
    }
}

// ---------------------------------------------------------------------------
// Adding an entry
// ---------------------------------------------------------------------------

/// Filling a slot touches its cluster only, and there only the slot and the end marker.
pub proof fn lemma_fill_slot(
    d: Disk,
    chain: Seq<u32>,
    p: int,
    q: int,
    at_end: bool,
    e: DirentView,
)
    requires
        d.geo.valid(),
        roomy(d.geo),
        chain.no_duplicates(),
        all_in_range(d.geo, chain),
        0 <= p < chain.len(),
        0 <= q < d.geo.slots(),
        storable(e),
        at_end && q + 1 < d.geo.slots() ==> d.slot(chain, p, q + 1, DIRENT_SIZE as nat) is Ok,
        d.fill_slot(chain[p], q, at_end, e).1 is Ok,
    ensures
        ({
            let d2 = d.fill_slot(chain[p], q, at_end, e).0;
            &&& filled(d, d2, chain, p, q, at_end, e)
            &&& touches(d, d2, Set::empty(), set![chain[p]])
        }),
{
    let n = DIRENT_SIZE as nat;
    let c = chain[p];
    let raw = dirent_bytes(d.geo.big_endian, e);
    let d2 = d.fill_slot(c, q, at_end, e).0;
    assert(d.geo.in_range(c));
    law_dirent_roundtrip(d.geo.big_endian, e);
    lemma_slot_part(d, chain, p, q, n);
    let pos = (d.geo.cluster_pos(c) + q * DIRENT_SIZE) as nat;
    let d1 = d.write(pos, raw)->Ok_0;
    lemma_write_part(d, c, q * DIRENT_SIZE, raw);
    assert(raw.subrange(0, 64) =~= raw);
    assert(part(d1, c, q * DIRENT_SIZE, n) == Ok::<Seq<u8>, ErrView>(raw));
    let both = at_end && q + 1 < d.geo.slots();
    if both {
        let end = seq![DIRENT_END];
        lemma_slot_part(d, chain, p, q + 1, n);
        let at = (q + 1) * DIRENT_SIZE;
        assert((d1.geo.cluster_pos(c) + at) as nat == pos + DIRENT_SIZE as nat);
        lemma_write_part(d1, c, at, end);
        lemma_touches_trans(d, d1, d2, Set::empty(), set![c], Set::empty(), set![c]);
        assert(set![c].union(set![c]) =~= set![c]);
        assert(Set::<u32>::empty().union(Set::empty()) =~= Set::<u32>::empty());
        assert(part(d2, c, q * DIRENT_SIZE, n) == part(d1, c, q * DIRENT_SIZE, n));
        assert(part(d2, c, at, 1) == Ok::<Seq<u8>, ErrView>(end.subrange(0, 1)));
        assert(part(d2, c, at, n) is Ok);
        assert(d2.slot(chain, p, q + 1, n) is Ok);
        lemma_slot_marker(d2, chain, p, q + 1);
        assert(d2.slot(chain, p, q + 1, 1) == part(d2, c, at, 1));
    }
    assert(d2.slot(chain, p, q, n) == part(d2, c, q * DIRENT_SIZE, n));
    assert forall|a: int, b: int|
        #![trigger d2.slot(chain, a, b, n)]
        0 <= a < chain.len() && 0 <= b < d.geo.slots() && !(a == p && b == q) && !(at_end && a == p
            && b == q + 1) && d.slot(chain, a, b, n) is Ok implies d2.slot(chain, a, b, n)
        == d.slot(chain, a, b, n) by {
        assert(d.geo.in_range(chain[a]));
        lemma_slot_part(d, chain, a, b, n);
        lemma_slot_part(d1, chain, a, b, n);
        lemma_slot_part(d2, chain, a, b, n);
        if a != p {
            assert(chain[a] != c);
            assert(part(d2, chain[a], b * DIRENT_SIZE, n) == part(d, chain[a], b * DIRENT_SIZE, n));
        } else {
            assert(part(d1, c, b * DIRENT_SIZE, n) == part(d, c, b * DIRENT_SIZE, n));
            if both {
                assert(part(d2, c, b * DIRENT_SIZE, n) == part(d1, c, b * DIRENT_SIZE, n));
            }
        }
    }
}

/// What lies behind the end marker that the next new entry takes the place of can be read:
/// the next slot of the same cluster, or else the clusters that follow.
pub open spec fn behind_end_readable(d: Disk, chain: Seq<u32>) -> bool {
    d.vacant_slot(chain, 0, 0) matches Ok(Some((p, q))) ==> (d.slot(chain, p, q, 1)->Ok_0[0]
        != DIRENT_DELETED ==> if q + 1 < d.geo.slots() {
        d.slot(chain, p, q + 1, DIRENT_SIZE as nat) is Ok
    } else {
        d.entries_from(chain, p + 1, 0) is Ok
    })
}

/// The number of the cluster that is taken next can be stored as a link.
pub open spec fn next_linkable(d: Disk) -> bool {
    d.free_from(FIRST_CLUSTER as int, 1) matches Ok(list) ==> list.len() > 0 ==> encodable(
        d.geo.fat_type,
        FatEntry::Next(list[0]),
    )
}

/// The directory at `c` has got the entry `e`. Only free clusters and clusters of the
/// directory have been touched, and only the last of these has another link.
pub open spec fn entry_added(d: Disk, d2: Disk, c: u32, e: DirentView) -> bool {
    let s = d.chain(c)->Ok_0;
    &&& touches(d, d2, free_set(d).insert(s.last()), free_set(d).union(s.to_set()))
    &&& d2.entries(c) is Ok
    &&& forall|name: Seq<char>|
        {
            let before = find_entry(d.entries(c)->Ok_0, name);
            let after = #[trigger] find_entry(d2.entries(c)->Ok_0, name);
            &&& same_name(e.filename(), name) && before is None ==> after == Some(e)
            &&& !same_name(e.filename(), name) && before is Some ==> after == before
        }
}

proof fn lemma_added_in_slot(d: Disk, c: u32, e: DirentView, p: int, q: int)
    requires
        d.geo.valid(),
        roomy(d.geo),
        storable(e),
        d.entries(c) is Ok,
        behind_end_readable(d, d.chain(c)->Ok_0),
        d.vacant_slot(d.chain(c)->Ok_0, 0, 0) == Ok::<Option<(int, int)>, ErrView>(Some((p, q))),
        d.add_entry(c, e).1 is Ok,
    ensures
        entry_added(d, d.add_entry(c, e).0, c, e),
{
    let s = d.chain(c)->Ok_0;
    let d2 = d.add_entry(c, e).0;
    lemma_listing_in_range(d, c);
    lemma_vacant(d, s, 0, 0);
    let at_end = d.slot(s, p, q, 1)->Ok_0[0] != DIRENT_DELETED;
    lemma_fill_slot(d, s, p, q, at_end, e);
    lemma_chain_kept(d, d2, s, Set::empty(), set![s[p]]);
    lemma_follow_chain(d2, s, (d.geo.total_clusters + 1) as nat);
    if at_end && q + 1 == d.geo.slots() {
        assert forall|k: int| p + 1 <= k < s.len() implies !set![s[p]].contains(#[trigger] s[k]) by {}
        lemma_entries_kept(d, d2, s, Set::empty(), set![s[p]], p + 1, 0);
    }
    lemma_filled_listing(d, d2, s, p, q, at_end, e, 0, 0, seq![]);
    assert forall|name: Seq<char>|
        {
            let before = find_entry(d.entries(c)->Ok_0, name);
            let after = #[trigger] find_entry(d2.entries(c)->Ok_0, name);
            &&& same_name(e.filename(), name) && before is None ==> after == Some(e)
            &&& !same_name(e.filename(), name) && before is Some ==> after == before
        } by {
        lemma_filled_listing(d, d2, s, p, q, at_end, e, 0, 0, name);
    }
    assert(s.to_set().contains(s[p]));
    lemma_touches_widen(
        d,
        d2,
        Set::empty(),
        set![s[p]],
        free_set(d).insert(s.last()),
        free_set(d).union(s.to_set()),
    );
}

#[verifier::rlimit(60)]
pub proof fn lemma_added_by_expansion(d: Disk, c: u32, e: DirentView) -> (fresh: u32)
    requires
        d.geo.valid(),
        roomy(d.geo),
        storable(e),
        d.entries(c) is Ok,
        next_linkable(d),
        d.vacant_slot(d.chain(c)->Ok_0, 0, 0) == Ok::<Option<(int, int)>, ErrView>(None),
        d.add_entry(c, e).1 is Ok,
    ensures
        entry_added(d, d.add_entry(c, e).0, c, e),
        ({
            let s = d.chain(c)->Ok_0;
            let d2 = d.add_entry(c, e).0;
            &&& free_set(d).contains(fresh)
            &&& touches(d, d2, set![fresh, s.last()], set![fresh])
            &&& d2.chain(c) == Ok::<Seq<u32>, ErrView>(s.push(fresh))
            &&& is_chain(d2, s.push(fresh))
            &&& d2.entries(c) == Ok::<Seq<DirentView>, ErrView>(d.entries(c)->Ok_0.push(e))
            &&& d2.read_cluster(fresh) is Ok
            &&& forall|a: int, b: int|
                #![trigger d2.slot(s.push(fresh), a, b, DIRENT_SIZE as nat)]
                0 <= a < s.len() && 0 <= b < d.geo.slots() && d.slot(
                    s,
                    a,
                    b,
                    DIRENT_SIZE as nat,
                ) is Ok ==> d2.slot(s.push(fresh), a, b, DIRENT_SIZE as nat) == d.slot(
                    s,
                    a,
                    b,
                    DIRENT_SIZE as nat,
                )
        }),
{
    let n = DIRENT_SIZE as nat;
    let s = d.chain(c)->Ok_0;
    let last = s.last();
    let d4 = d.add_entry(c, e).0;
    lemma_listing_in_range(d, c);
    lemma_allocate_cluster(d);
    let (d1, got) = d.allocate_cluster();
    let fresh = got->Ok_0;
    assert(!s.contains(fresh)) by {
        if s.contains(fresh) {
            lemma_chain_in_use(d, s, fresh);
        }
    }
    assert(s.contains(last));
    assert(d.geo.in_range(last));
    lemma_write_fat(d1, last, FatEntry::Next(fresh));
    let d2 = d1.write_fat(last, FatEntry::Next(fresh))->Ok_0;
    lemma_write_part(d2, fresh, 0, blank(d.geo.cluster_size()));
    assert((d2.geo.cluster_pos(fresh) + 0) as nat == d2.geo.cluster_pos(fresh));
    let d3 = d2.write_cluster(fresh, blank(d.geo.cluster_size()))->Ok_0;
    let one = seq![fresh];
    assert(one.no_duplicates());
    assert(all_in_range(d3.geo, one));
    assert(d3.slot(one, 0, 1, n) is Ok) by {
        lemma_slot_part(d3, one, 0, 1, n);
        assert(part(d3, fresh, DIRENT_SIZE as int, n) is Ok);
    }
    lemma_fill_slot(d3, one, 0, 0, true, e);
    assert(d4 == d3.fill_slot(fresh, 0, true, e).0);

    // What has been touched.
    let none = Set::<u32>::empty();
    lemma_touches_trans(d, d1, d2, set![fresh], none, set![last], none);
    lemma_touches_trans(d, d2, d3, set![fresh].union(set![last]), none.union(none), none, set![fresh]);
    lemma_touches_trans(
        d,
        d3,
        d4,
        set![fresh].union(set![last]).union(none),
        none.union(none).union(set![fresh]),
        none,
        set![fresh],
    );
    let fats = set![fresh].union(set![last]).union(none).union(none);
    let data = none.union(none).union(set![fresh]).union(set![fresh]);
    assert(free_set(d).contains(fresh));
    lemma_touches_widen(
        d,
        d4,
        fats,
        data,
        free_set(d).insert(s.last()),
        free_set(d).union(s.to_set()),
    );

    // The chain has become one longer.
    let longer = s.push(fresh);
    assert forall|k: int| 0 <= k < longer.len() implies #[trigger] linked(d4, longer, k) by {
        if k < s.len() - 1 {
            assert(linked(d, s, k));
            assert(s[k] != last && s[k] != fresh);
            assert(d.geo.in_range(s[k]));
            assert(d4.read_fat(s[k]) == d.read_fat(s[k]));
        } else if k == s.len() - 1 {
            assert(d4.read_fat(last) == d3.read_fat(last));
            assert(d3.read_fat(last) == d2.read_fat(last));
        } else {
            assert(d4.read_fat(fresh) == d3.read_fat(fresh));
            assert(d3.read_fat(fresh) == d2.read_fat(fresh));
            assert(d2.read_fat(fresh) == d1.read_fat(fresh));
        }
    }
    lemma_chain_distinct(d4, longer);
    assert(all_in_range(d.geo, longer));
    lemma_distinct_len(d.geo, longer);
    lemma_follow_chain(d4, longer, (d.geo.total_clusters + 1) as nat);

    // The listing has become one longer.
    assert forall|a: int, b: int|
        #![trigger d4.slot(longer, a, b, n)]
        0 <= a < s.len() && 0 <= b < d.geo.slots() && d.slot(s, a, b, n) is Ok implies d4.slot(
        longer,
        a,
        b,
        n,
    ) == d.slot(s, a, b, n) by {
        assert(d.geo.in_range(s[a]));
        assert(longer[a] == s[a]);
        lemma_slot_part(d, s, a, b, n);
        lemma_slot_part(d4, longer, a, b, n);
        assert(s.contains(s[a]));
        assert(!data.contains(s[a]));
        assert(part(d4, s[a], b * DIRENT_SIZE, n) == part(d, s[a], b * DIRENT_SIZE, n));
    }
    assert(d4.slot(longer, s.len() as int, 0, n) == d4.slot(one, 0, 0, n));
    assert(d4.slot(longer, s.len() as int, 1, n) == d4.slot(one, 0, 1, n));
    lemma_expanded_listing(d, d4, s, fresh, e, 0, 0);
    let listing = d.entries(c)->Ok_0;
    assert forall|name: Seq<char>|
        {
            let before = find_entry(listing, name);
            let after = #[trigger] find_entry(d4.entries(c)->Ok_0, name);
            &&& same_name(e.filename(), name) && before is None ==> after == Some(e)
            &&& !same_name(e.filename(), name) && before is Some ==> after == before
        } by {
        lemma_find_append(listing, seq![e], name);
        assert(listing + seq![e] =~= listing.push(e));
        lemma_find_cons(e, seq![], name);
        assert(seq![e] + Seq::<DirentView>::empty() =~= seq![e]);
    }
    assert(part(d3, fresh, 0, d.geo.cluster_size()) is Ok);
    assert(d4.read_cluster(fresh) is Ok);
    assert(fats =~= set![fresh, last]);
    assert(data =~= set![fresh]);
    fresh
}

/// An entry that has been added to a directory is found there, and hides no other.
pub proof fn lemma_add_entry(d: Disk, c: u32, e: DirentView)
    requires
        d.geo.valid(),
        roomy(d.geo),
        storable(e),
        d.entries(c) is Ok,
        next_linkable(d),
        behind_end_readable(d, d.chain(c)->Ok_0),
        d.add_entry(c, e).1 is Ok,
    ensures
        entry_added(d, d.add_entry(c, e).0, c, e),
{
    match d.vacant_slot(d.chain(c)->Ok_0, 0, 0) {
        Ok(Some((p, q))) => lemma_added_in_slot(d, c, e, p, q),
        Ok(None) => {
            let fresh = lemma_added_by_expansion(d, c, e);
        },
        Err(_) => {},
    }
}

} // verus!
