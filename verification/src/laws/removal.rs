//! Laws of deleting and renaming.

use vstd::prelude::*;
use vstd::utf8::encode_utf8;
use crate::disk::{
    find_entry, padded_name, parse_dirent, renamed_bytes, root_entry, validate_name, Disk,
};
use crate::error::ErrView;
use crate::laws::chain_facts::{
    all_in_range, disjoint, lemma_chain_kept, lemma_follow_chain, lemma_followed_chain, linked,
};
use crate::laws::creation::{
    intact, lemma_find_same, lemma_intact_kept, lemma_new_entry, lemma_resolve_kept,
    lemma_resolve_path, walk_clear, walk_kept,
};
use crate::laws::dir_facts::{
    lemma_find_cons, lemma_listing_in_range, lemma_listing_kept, lemma_slot_part,
};
use crate::laws::frame::{
    lemma_fat_writable, lemma_touches_trans, lemma_touches_widen, lemma_write_fat,
    lemma_write_part, part, roomy, touches,
};
use crate::path::{law_parts_of_split, name_of, parent_of, parts};
use crate::text::same_name;
use crate::types::{is_end_marker, DirentView, FatEntry, DIRENT_DELETED, DIRENT_SIZE, FIRST_CLUSTER};

verus! {

/// The entries without the first one of that name.
pub open spec fn without_first(entries: Seq<DirentView>, name: Seq<char>) -> Seq<DirentView>
    decreases entries.len(),
{
    if entries.len() == 0 {
        entries
    } else if same_name(entries[0].filename(), name) {
        entries.drop_first()
    } else {
        seq![entries[0]] + without_first(entries.drop_first(), name)
    }
}

/// The entries with the first one of that name replaced.
pub open spec fn with_first_replaced(
    entries: Seq<DirentView>,
    name: Seq<char>,
    e: DirentView,
) -> Seq<DirentView>
    decreases entries.len(),
{
    if entries.len() == 0 {
        entries
    } else if same_name(entries[0].filename(), name) {
        seq![e] + entries.drop_first()
    } else {
        seq![entries[0]] + with_first_replaced(entries.drop_first(), name, e)
    }
}

/// `d2` has other bytes in the slot `(p, q)` of the directory, and is otherwise as `d`.
pub open spec fn slot_replaced(
    d: Disk,
    d2: Disk,
    chain: Seq<u32>,
    p: int,
    q: int,
    raw: Seq<u8>,
) -> bool {
    let n = DIRENT_SIZE as nat;
    &&& d2.geo == d.geo
    &&& d2.slot(chain, p, q, n) == Ok::<Seq<u8>, ErrView>(raw)
    &&& forall|a: int, b: int|
        #![trigger d2.slot(chain, a, b, n)]
        0 <= a < chain.len() && 0 <= b < d.geo.slots() && !(a == p && b == q) && d.slot(
            chain,
            a,
            b,
            n,
        ) is Ok ==> d2.slot(chain, a, b, n) == d.slot(chain, a, b, n)
}

/// Writing inside a slot replaces it.
pub proof fn lemma_slot_replaced(
    d: Disk,
    chain: Seq<u32>,
    p: int,
    q: int,
    data: Seq<u8>,
    raw: Seq<u8>,
)
    requires
        d.geo.valid(),
        roomy(d.geo),
        chain.no_duplicates(),
        all_in_range(d.geo, chain),
        0 <= p < chain.len(),
        0 <= q < d.geo.slots(),
        0 < data.len() <= DIRENT_SIZE,
        d.slot(chain, p, q, DIRENT_SIZE as nat) is Ok,
        raw == data + d.slot(chain, p, q, DIRENT_SIZE as nat)->Ok_0.skip(data.len() as int),
    ensures
        ({
            let r = d.write(
                (d.geo.cluster_pos(chain[p]) + q * DIRENT_SIZE) as nat,
                data,
            );
            &&& r is Ok
            &&& slot_replaced(d, r->Ok_0, chain, p, q, raw)
            &&& touches(d, r->Ok_0, Set::empty(), set![chain[p]])
        }),
{
    let n = DIRENT_SIZE as nat;
    let c = chain[p];
    assert(d.geo.in_range(c));
    let at = q * DIRENT_SIZE;
    let pos = (d.geo.cluster_pos(c) + at) as nat;
    lemma_slot_part(d, chain, p, q, n);
    let old_raw = d.slot(chain, p, q, n)->Ok_0;
    assert(d.write(pos, data) is Ok) by {
        let start = (d.geo.base + pos) as int;
        assert(crate::disk::sector_ceil(start + data.len()) <= crate::disk::sector_ceil(start + n));
    }
    lemma_write_part(d, c, at, data);
    let d2 = d.write(pos, data)->Ok_0;
    lemma_slot_part(d2, chain, p, q, n);
    assert(part(d2, c, at, n) is Ok);
    let new_raw = part(d2, c, at, n)->Ok_0;
    assert(new_raw =~= raw) by {
        let start = (d.geo.base + pos) as int;
        assert(new_raw == d2.bytes.subrange(start, start + n));
        assert(old_raw == d.bytes.subrange(start, start + n));
        assert forall|k: int| 0 <= k < n implies new_raw[k] == raw[k] by {
            assert(new_raw[k] == d2.bytes[start + k]);
            assert(old_raw[k] == d.bytes[start + k]);
        }
    }
    assert forall|a: int, b: int|
        #![trigger d2.slot(chain, a, b, n)]
        0 <= a < chain.len() && 0 <= b < d.geo.slots() && !(a == p && b == q) && d.slot(
            chain,
            a,
            b,
            n,
        ) is Ok implies d2.slot(chain, a, b, n) == d.slot(chain, a, b, n) by {
        assert(d.geo.in_range(chain[a]));
        lemma_slot_part(d, chain, a, b, n);
        lemma_slot_part(d2, chain, a, b, n);
        assert(part(d2, chain[a], b * DIRENT_SIZE, n) == part(d, chain[a], b * DIRENT_SIZE, n));
    }
}

/// Finding a slot and finding an entry are the same.
pub proof fn lemma_find_slot(d: Disk, chain: Seq<u32>, name: Seq<char>, i: int, j: int)
    requires
        0 <= i,
        0 <= j,
        d.entries_from(chain, i, j) is Ok,
    ensures
        match d.find_slot(chain, name, None, i, j) {
            Err(_) => false,
            Ok(None) => find_entry(d.entries_from(chain, i, j)->Ok_0, name) is None,
            Ok(Some((p, q))) => {
                let raw = d.slot(chain, p, q, DIRENT_SIZE as nat);
                &&& i <= p < chain.len()
                &&& 0 <= q < d.geo.slots()
                &&& p == i ==> j <= q
                &&& raw is Ok
                &&& !is_end_marker(raw->Ok_0[0])
                &&& raw->Ok_0[0] != DIRENT_DELETED
                &&& find_entry(d.entries_from(chain, i, j)->Ok_0, name) == Some(
                    parse_dirent(d.geo.big_endian, raw->Ok_0),
                )
                &&& same_name(parse_dirent(d.geo.big_endian, raw->Ok_0).filename(), name)
            },
        },
    decreases chain.len() - i, d.geo.slots() - j,
{
    if i < chain.len() {
        if j >= d.geo.slots() {
            lemma_find_slot(d, chain, name, i + 1, 0);
        } else {
            let raw = d.slot(chain, i, j, DIRENT_SIZE as nat)->Ok_0;
            if !is_end_marker(raw[0]) {
                lemma_find_slot(d, chain, name, i, j + 1);
                lemma_find_cons(
                    parse_dirent(d.geo.big_endian, raw),
                    d.entries_from(chain, i, j + 1)->Ok_0,
                    name,
                );
            }
        }
    }
}

/// Behind the replaced slot nothing has changed.
proof fn lemma_behind_replaced(
    d: Disk,
    d2: Disk,
    chain: Seq<u32>,
    p: int,
    q: int,
    raw: Seq<u8>,
    i: int,
    j: int,
)
    requires
        slot_replaced(d, d2, chain, p, q, raw),
        0 <= p <= i,
        0 <= j,
        i == p ==> j > q,
        d.entries_from(chain, i, j) is Ok,
    ensures
        d2.entries_from(chain, i, j) == d.entries_from(chain, i, j),
    decreases chain.len() - i, d.geo.slots() - j,
{
    if i < chain.len() {
        if j >= d.geo.slots() {
            lemma_behind_replaced(d, d2, chain, p, q, raw, i + 1, 0);
        } else {
            let n = DIRENT_SIZE as nat;
            assert(d2.slot(chain, i, j, n) == d.slot(chain, i, j, n));
            if !is_end_marker(d.slot(chain, i, j, n)->Ok_0[0]) {
                lemma_behind_replaced(d, d2, chain, p, q, raw, i, j + 1);
            }
        }
    }
}

/// What a directory lists once an entry has been marked as deleted or given another name.
pub proof fn lemma_replaced_listing(
    d: Disk,
    d2: Disk,
    chain: Seq<u32>,
    name: Seq<char>,
    p: int,
    q: int,
    raw: Seq<u8>,
    i: int,
    j: int,
)
    requires
        0 <= i,
        0 <= j,
        d.entries_from(chain, i, j) is Ok,
        d.find_slot(chain, name, None, i, j) == Ok::<Option<(int, int)>, ErrView>(Some((p, q))),
        slot_replaced(d, d2, chain, p, q, raw),
        !is_end_marker(raw[0]),
    ensures
        d2.entries_from(chain, i, j) == Ok::<Seq<DirentView>, ErrView>(
            if raw[0] == DIRENT_DELETED {
                without_first(d.entries_from(chain, i, j)->Ok_0, name)
            } else {
                with_first_replaced(
                    d.entries_from(chain, i, j)->Ok_0,
                    name,
                    parse_dirent(d.geo.big_endian, raw),
                )
            },
        ),
    decreases chain.len() - i, d.geo.slots() - j,
{
    let n = DIRENT_SIZE as nat;
    lemma_find_slot(d, chain, name, i, j);
    if j >= d.geo.slots() {
        lemma_replaced_listing(d, d2, chain, name, p, q, raw, i + 1, 0);
    } else {
        let here = d.slot(chain, i, j, n)->Ok_0;
        assert(d.slot(chain, i, j, n) is Ok);
        let x = parse_dirent(d.geo.big_endian, here);
        let rest = d.entries_from(chain, i, j + 1)->Ok_0;
        assert((seq![x] + rest).drop_first() =~= rest);
        assert((seq![x] + rest)[0] == x);
        if i == p && j == q {
            lemma_behind_replaced(d, d2, chain, p, q, raw, p, q + 1);
        } else {
            assert(d2.slot(chain, i, j, n) == d.slot(chain, i, j, n));
            lemma_replaced_listing(d, d2, chain, name, p, q, raw, i, j + 1);
        }
    }
}

// ---------------------------------------------------------------------------
// Freeing
// ---------------------------------------------------------------------------

/// Freeing clusters makes them free and touches nothing else.
pub proof fn lemma_free_all(d: Disk, list: Seq<u32>, i: int)
    requires
        intact(d),
        0 <= i <= list.len(),
        forall|k: int| 0 <= k < list.len() ==> #[trigger] list[k] <= d.geo.total_clusters,
    ensures
        ({
            let (d2, r) = d.free_all(list, i);
            &&& r is Ok
            &&& intact(d2)
            &&& touches(d, d2, list.to_set(), Set::empty())
            &&& d2.bytes.len() == d.bytes.len()
            &&& forall|k: int|
                i <= k < list.len() ==> d2.read_fat(#[trigger] list[k]) == Ok::<FatEntry, ErrView>(
                    FatEntry::Free,
                )
            &&& forall|c: u32|
                c <= d.geo.total_clusters && d.read_fat(c) == Ok::<FatEntry, ErrView>(
                    FatEntry::Free,
                ) ==> #[trigger] d2.read_fat(c) == Ok::<FatEntry, ErrView>(FatEntry::Free)
        }),
    decreases list.len() - i,
{
    if i < list.len() {
        let c = list[i];
        assert(c <= d.geo.total_clusters);
        assert(d.read_fat(c) is Ok);
        lemma_fat_writable(d, c, FatEntry::Free);
        lemma_write_fat(d, c, FatEntry::Free);
        let d1 = d.write_fat(c, FatEntry::Free)->Ok_0;
        lemma_intact_kept(d, d1);
        lemma_free_all(d1, list, i + 1);
        let d2 = d1.free_all(list, i + 1).0;
        lemma_touches_trans(d, d1, d2, set![c], Set::empty(), list.to_set(), Set::empty());
        assert(list.to_set().contains(c));
        assert(set![c].union(list.to_set()) =~= list.to_set());
        assert(Set::<u32>::empty().union(Set::empty()) =~= Set::<u32>::empty());
        assert forall|k: int| i <= k < list.len() implies d2.read_fat(#[trigger] list[k]) == Ok::<
            FatEntry,
            ErrView,
        >(FatEntry::Free) by {
            if k == i {
                assert(d1.read_fat(c) == Ok::<FatEntry, ErrView>(FatEntry::Free));
            }
        }
        assert forall|x: u32|
            x <= d.geo.total_clusters && d.read_fat(x) == Ok::<FatEntry, ErrView>(
                FatEntry::Free,
            ) implies #[trigger] d2.read_fat(x) == Ok::<FatEntry, ErrView>(FatEntry::Free) by {
            assert(d1.read_fat(x) == Ok::<FatEntry, ErrView>(FatEntry::Free));
        }
    } else {
        assert(touches(d, d, list.to_set(), Set::empty()));
    }
}

/// The clusters of the directories on the way, the last one included, are none of `list`.
pub open spec fn walk_apart(d: Disk, c: u32, names: Seq<Seq<char>>, i: int, list: Seq<u32>) -> bool
    decreases names.len() - i,
{
    if i < 0 || i >= names.len() {
        true
    } else {
        &&& disjoint(d.chain(c)->Ok_0, list)
        &&& find_entry(d.entries(c)->Ok_0, names[i]) matches Some(e) ==> walk_apart(
            d,
            e.first_cluster,
            names,
            i + 1,
            list,
        )
    }
}

/// Once `list` has been freed, a walk apart from it finds the same entries, and keeps clear
/// of the same directory.
proof fn lemma_walk_beside_freed(
    d: Disk,
    d2: Disk,
    c: u32,
    names: Seq<Seq<char>>,
    i: int,
    list: Seq<u32>,
    p: u32,
)
    requires
        0 <= i,
        intact(d),
        touches(d, d2, list.to_set(), Set::empty()),
        d.resolve_from(c, names, i) is Ok,
        walk_apart(d, c, names, i, list),
        walk_clear(d, c, names, i, p),
        d.chain(p) == d2.chain(p),
    ensures
        d2.resolve_from(c, names, i) == d.resolve_from(c, names, i),
        walk_clear(d2, c, names, i, p),
    decreases names.len() - i,
{
    if i < names.len() {
        let t = d.chain(c)->Ok_0;
        assert forall|k: int| 0 <= k < t.len() implies !list.to_set().contains(#[trigger] t[k]) by {
            if list.to_set().contains(t[k]) {
                let j = choose|j: int| 0 <= j < list.len() && list[j] == t[k];
                assert(t[k] != list[j]);
            }
        }
        lemma_listing_kept(d, d2, c, list.to_set(), Set::empty());
        let e = find_entry(d.entries(c)->Ok_0, names[i])->Some_0;
        if i + 1 < names.len() {
            lemma_walk_beside_freed(d, d2, e.first_cluster, names, i + 1, list, p);
        }
    }
}

// ---------------------------------------------------------------------------
// Looking up after a change
// ---------------------------------------------------------------------------

proof fn lemma_find_without(entries: Seq<DirentView>, name: Seq<char>, other: Seq<char>)
    requires
        !same_name(name, other),
    ensures
        find_entry(without_first(entries, name), other) == find_entry(entries, other),
    decreases entries.len(),
{
    if entries.len() > 0 && !same_name(entries[0].filename(), name) {
        lemma_find_without(entries.drop_first(), name, other);
        lemma_find_cons(entries[0], without_first(entries.drop_first(), name), other);
    }
}

pub proof fn lemma_find_replaced(
    entries: Seq<DirentView>,
    name: Seq<char>,
    e: DirentView,
    other: Seq<char>,
)
    requires
        !same_name(name, other),
        !same_name(e.filename(), other),
    ensures
        find_entry(with_first_replaced(entries, name, e), other) == find_entry(entries, other),
    decreases entries.len(),
{
    if entries.len() > 0 {
        if same_name(entries[0].filename(), name) {
            lemma_find_cons(e, entries.drop_first(), other);
        } else {
            lemma_find_replaced(entries.drop_first(), name, e, other);
            lemma_find_cons(
                entries[0],
                with_first_replaced(entries.drop_first(), name, e),
                other,
            );
        }
    }
}

/// The way does not lead through the entry called `name` of the directory at `p`.
pub open spec fn walk_avoids(
    d: Disk,
    c: u32,
    names: Seq<Seq<char>>,
    i: int,
    p: u32,
    name: Seq<char>,
) -> bool
    decreases names.len() - i,
{
    if i < 0 || i >= names.len() {
        true
    } else {
        &&& c == p ==> !same_name(name, names[i])
        &&& find_entry(d.entries(c)->Ok_0, names[i]) matches Some(e) ==> walk_avoids(
            d,
            e.first_cluster,
            names,
            i + 1,
            p,
            name,
        )
    }
}

/// A way that keeps clear of the directory at `p`, and does not lead through the entry that
/// has been changed there, is as before.
pub proof fn lemma_walk_after_change(
    d: Disk,
    d2: Disk,
    c: u32,
    names: Seq<Seq<char>>,
    i: int,
    p: u32,
    name: Seq<char>,
)
    requires
        0 <= i,
        d.geo.valid(),
        d.resolve_from(c, names, i) is Ok,
        d.entries(p) is Ok,
        touches(d, d2, Set::empty(), d.chain(p)->Ok_0.to_set()),
        walk_clear(d, c, names, i, p),
        walk_avoids(d, c, names, i, p, name),
        d2.entries(p) is Ok,
        forall|other: Seq<char>|
            !same_name(name, other) && find_entry(d.entries(p)->Ok_0, other) is Some
                ==> #[trigger] find_entry(d2.entries(p)->Ok_0, other) == find_entry(
                d.entries(p)->Ok_0,
                other,
            ),
    ensures
        walk_kept(d, d2, c, names, i),
    decreases names.len() - i,
{
    if i < names.len() {
        let listing = d.entries(c)->Ok_0;
        let x = find_entry(listing, names[i])->Some_0;
        if c == p {
            assert(find_entry(d2.entries(p)->Ok_0, names[i]) == find_entry(listing, names[i]));
        } else {
            let s = d.chain(p)->Ok_0;
            let t = d.chain(c)->Ok_0;
            lemma_listing_in_range(d, c);
            assert forall|k: int| 0 <= k < t.len() implies !s.to_set().contains(#[trigger] t[k]) by {
                if s.to_set().contains(t[k]) {
                    let j = choose|j: int| 0 <= j < s.len() && s[j] == t[k];
                    assert(t[k] != s[j]);
                }
            }
            lemma_listing_kept(d, d2, c, Set::empty(), s.to_set());
        }
        if i + 1 < names.len() {
            lemma_walk_after_change(d, d2, x.first_cluster, names, i + 1, p, name);
        } else {
            assert(walk_kept(d, d2, x.first_cluster, names, i + 1));
        }
    }
}

/// A path with components leads through directories.
proof fn lemma_parent_is_directory(
    d: Disk,
    c: u32,
    names: Seq<Seq<char>>,
    i: int,
    name: Seq<char>,
)
    requires
        0 <= i < names.len(),
        d.resolve_from(c, names.push(name), i) is Ok,
    ensures
        d.resolve_from(c, names, i) is Ok,
        d.resolve_from(c, names, i)->Ok_0.is_directory(),
    decreases names.len() - i,
{
    let longer = names.push(name);
    assert(longer[i] == names[i]);
    if i + 1 < names.len() {
        let e = find_entry(d.entries(c)->Ok_0, names[i])->Some_0;
        lemma_parent_is_directory(d, e.first_cluster, names, i + 1, name);
    }
}

/// What a path leads to is found in its parent, which is a directory.
pub proof fn lemma_resolved_in_parent(d: Disk, path: Seq<char>)
    requires
        name_of(path).len() > 0,
        d.resolve(path) is Ok,
    ensures
        d.resolve(parent_of(path)) is Ok,
        d.resolve(parent_of(path))->Ok_0.is_directory(),
        d.entries(d.resolve(parent_of(path))->Ok_0.first_cluster) is Ok,
        find_entry(
            d.entries(d.resolve(parent_of(path))->Ok_0.first_cluster)->Ok_0,
            name_of(path),
        ) == Some(d.resolve(path)->Ok_0),
{
    let names = parts(parent_of(path));
    law_parts_of_split(path);
    if names.len() > 0 {
        lemma_parent_is_directory(d, FIRST_CLUSTER, names, 0, name_of(path));
    } else {
        assert(root_entry().is_directory()) by {
            assert(0x10u8 & 0x10 == 0x10) by (bit_vector);
        }
    }
    lemma_resolve_path(d, path);
}

// ---------------------------------------------------------------------------
// Deleting
// ---------------------------------------------------------------------------

/// A way apart from the clusters of what is found at `p` under `name` does not lead through
/// it.
pub proof fn lemma_apart_avoids(
    d: Disk,
    c: u32,
    names: Seq<Seq<char>>,
    i: int,
    p: u32,
    name: Seq<char>,
    list: Seq<u32>,
)
    requires
        0 <= i,
        d.resolve_from(c, names, i) is Ok,
        i < names.len() ==> d.resolve_from(c, names, i)->Ok_0.first_cluster == p,
        walk_apart(d, c, names, i, list),
        disjoint(d.chain(p)->Ok_0, list),
        list.len() > 0,
        find_entry(d.entries(p)->Ok_0, name) is Some,
        d.chain(find_entry(d.entries(p)->Ok_0, name)->Some_0.first_cluster) == Ok::<
            Seq<u32>,
            ErrView,
        >(list),
    ensures
        walk_avoids(d, c, names, i, p, name),
    decreases names.len() - i,
{
    if i < names.len() {
        let e = find_entry(d.entries(c)->Ok_0, names[i])->Some_0;
        if c == p && same_name(name, names[i]) {
            lemma_find_same(d.entries(p)->Ok_0, name, names[i]);
            assert(list[0] != list[0]) by {
                if i + 1 < names.len() {
                    assert(walk_apart(d, e.first_cluster, names, i + 1, list));
                    assert(disjoint(d.chain(e.first_cluster)->Ok_0, list));
                } else {
                    assert(e.first_cluster == p);
                }
            }
        }
        if i + 1 < names.len() {
            lemma_apart_avoids(d, e.first_cluster, names, i + 1, p, name, list);
        } else {
            assert(walk_avoids(d, e.first_cluster, names, i + 1, p, name));
        }
    }
}

/// The entry at `path` and its clusters are apart from the directories on the way: no
/// directory on the way shares clusters with the parent directory or with what is deleted.
pub open spec fn stands_apart(d: Disk, path: Seq<char>) -> bool {
    let names = parts(parent_of(path));
    let p = d.resolve(parent_of(path))->Ok_0.first_cluster;
    let list = d.chain(d.resolve(path)->Ok_0.first_cluster)->Ok_0;
    &&& walk_clear(d, FIRST_CLUSTER, names, 0, p)
    &&& walk_apart(d, FIRST_CLUSTER, names, 0, list)
    &&& disjoint(d.chain(p)->Ok_0, list)
}

/// After the clusters of what a path leads to have been freed, the way to its directory is as
/// before.
proof fn lemma_way_beside_freed(d: Disk, d1: Disk, path: Seq<char>)
    requires
        intact(d),
        name_of(path).len() > 0,
        d.resolve(path) is Ok,
        stands_apart(d, path),
        touches(
            d,
            d1,
            d.chain(d.resolve(path)->Ok_0.first_cluster)->Ok_0.to_set(),
            Set::empty(),
        ),
    ensures
        ({
            let names = parts(parent_of(path));
            let p = d.resolve(parent_of(path))->Ok_0.first_cluster;
            &&& d1.resolve(parent_of(path)) == d.resolve(parent_of(path))
            &&& d1.entries(p) == d.entries(p)
            &&& d1.chain(p) == d.chain(p)
            &&& walk_clear(d1, FIRST_CLUSTER, names, 0, p)
        }),
{
    let names = parts(parent_of(path));
    let p = d.resolve(parent_of(path))->Ok_0.first_cluster;
    let list = d.chain(d.resolve(path)->Ok_0.first_cluster)->Ok_0;
    lemma_resolved_in_parent(d, path);
    lemma_listing_in_range(d, p);
    let s = d.chain(p)->Ok_0;
    assert forall|k: int| 0 <= k < s.len() implies !list.to_set().contains(#[trigger] s[k]) by {
        if list.to_set().contains(s[k]) {
            let j = choose|j: int| 0 <= j < list.len() && list[j] == s[k];
            assert(s[k] != list[j]);
        }
    }
    lemma_listing_kept(d, d1, p, list.to_set(), Set::empty());
    lemma_walk_beside_freed(d, d1, FIRST_CLUSTER, names, 0, list, p);
}

/// A walk that finds the same entries avoids the same entry.
proof fn lemma_avoids_kept(
    d: Disk,
    d2: Disk,
    c: u32,
    names: Seq<Seq<char>>,
    i: int,
    p: u32,
    name: Seq<char>,
    list: Seq<u32>,
)
    requires
        0 <= i,
        intact(d),
        touches(d, d2, list.to_set(), Set::empty()),
        d.resolve_from(c, names, i) is Ok,
        walk_apart(d, c, names, i, list),
        walk_avoids(d, c, names, i, p, name),
    ensures
        walk_avoids(d2, c, names, i, p, name),
    decreases names.len() - i,
{
    if i < names.len() {
        let t = d.chain(c)->Ok_0;
        assert forall|k: int| 0 <= k < t.len() implies !list.to_set().contains(#[trigger] t[k]) by {
            if list.to_set().contains(t[k]) {
                let j = choose|j: int| 0 <= j < list.len() && list[j] == t[k];
                assert(t[k] != list[j]);
            }
        }
        lemma_listing_kept(d, d2, c, list.to_set(), Set::empty());
        let e = find_entry(d.entries(c)->Ok_0, names[i])->Some_0;
        if i + 1 < names.len() {
            lemma_avoids_kept(d, d2, e.first_cluster, names, i + 1, p, name, list);
        } else {
            assert(walk_avoids(d2, e.first_cluster, names, i + 1, p, name));
        }
    }
}

/// Marking an entry as deleted removes it from its directory's listing, and touches that
/// directory only.
proof fn lemma_delete_entry(d: Disk, p: u32, name: Seq<char>)
    requires
        intact(d),
        d.entries(p) is Ok,
        find_entry(d.entries(p)->Ok_0, name) is Some,
    ensures
        ({
            let (d2, r) = d.delete_entry(p, name);
            &&& r is Ok
            &&& touches(d, d2, Set::empty(), d.chain(p)->Ok_0.to_set())
            &&& d2.entries(p) == Ok::<Seq<DirentView>, ErrView>(
                without_first(d.entries(p)->Ok_0, name),
            )
        }),
{
    let s = d.chain(p)->Ok_0;
    lemma_listing_in_range(d, p);
    lemma_find_slot(d, s, name, 0, 0);
    let (i, j) = d.find_slot(s, name, None, 0, 0)->Ok_0->Some_0;
    let raw = d.slot(s, i, j, DIRENT_SIZE as nat)->Ok_0;
    let mark = seq![DIRENT_DELETED];
    let gone = mark + raw.skip(1);
    lemma_slot_replaced(d, s, i, j, mark, gone);
    let d2 = d.delete_entry(p, name).0;
    lemma_replaced_listing(d, d2, s, name, i, j, gone, 0, 0);
    lemma_chain_kept(d, d2, s, Set::empty(), set![s[i]]);
    lemma_follow_chain(d2, s, (d.geo.total_clusters + 1) as nat);
    assert(s.to_set().contains(s[i]));
    lemma_touches_widen(d, d2, Set::empty(), set![s[i]], Set::empty(), s.to_set());
}

/// What has been deleted is no longer found, and its clusters are free. Nothing else has been
/// touched but the directory that held it.
///
/// Left out are directories that hold the name a second time, and entries whose clusters are
/// shared with the directories on the way.
pub proof fn law_deleted_is_gone(d: Disk, path: Seq<char>)
    requires
        intact(d),
        name_of(path).len() > 0,
        d.delete(path).1 is Ok,
        d.resolve(path)->Ok_0.first_cluster <= d.geo.total_clusters,
        stands_apart(d, path),
        find_entry(
            without_first(
                d.entries(d.resolve(parent_of(path))->Ok_0.first_cluster)->Ok_0,
                name_of(path),
            ),
            name_of(path),
        ) is None,
    ensures
        ({
            let d2 = d.delete(path).0;
            let list = d.chain(d.resolve(path)->Ok_0.first_cluster)->Ok_0;
            let dir = d.chain(d.resolve(parent_of(path))->Ok_0.first_cluster)->Ok_0;
            &&& d2.resolve(path) == Err::<DirentView, ErrView>(
                ErrView::FileNotFound(name_of(path)),
            )
            &&& forall|k: int|
                0 <= k < list.len() ==> d2.read_fat(#[trigger] list[k]) == Ok::<FatEntry, ErrView>(
                    FatEntry::Free,
                )
            &&& touches(d, d2, list.to_set(), dir.to_set())
        }),
{
    let name = name_of(path);
    let names = parts(parent_of(path));
    lemma_resolved_in_parent(d, path);
    let parent = d.resolve(parent_of(path))->Ok_0;
    let p = parent.first_cluster;
    let target = d.resolve(path)->Ok_0;
    let list = d.chain(target.first_cluster)->Ok_0;
    let dir = d.chain(p)->Ok_0;
    let d1 = d.free_chain(target.first_cluster).0;
    let d2 = d.delete(path).0;
    assert(d.chain(target.first_cluster) is Ok);
    lemma_followed_chain(d, target.first_cluster, (d.geo.total_clusters + 1) as nat);
    assert forall|k: int| 0 <= k < list.len() implies #[trigger] list[k] <= d.geo.total_clusters by {
        if k > 0 {
            assert(linked(d, list, k - 1));
        }
    }
    lemma_free_all(d, list, 0);
    lemma_way_beside_freed(d, d1, path);
    lemma_delete_entry(d1, p, name);
    assert(d2 == d1.delete_entry(p, name).0);

    // The way is as before, and the name is not found at its end.
    lemma_apart_avoids(d, FIRST_CLUSTER, names, 0, p, name, list);
    lemma_avoids_kept(d, d1, FIRST_CLUSTER, names, 0, p, name, list);
    assert forall|other: Seq<char>|
        !same_name(name, other) && find_entry(d1.entries(p)->Ok_0, other)
            is Some implies #[trigger] find_entry(d2.entries(p)->Ok_0, other) == find_entry(
        d1.entries(p)->Ok_0,
        other,
    ) by {
        lemma_find_without(d1.entries(p)->Ok_0, name, other);
    }
    lemma_walk_after_change(d1, d2, FIRST_CLUSTER, names, 0, p, name);
    lemma_resolve_kept(d1, d2, FIRST_CLUSTER, names, 0);
    lemma_resolve_path(d2, path);

    // What has been touched.
    lemma_touches_trans(d, d1, d2, list.to_set(), Set::empty(), Set::empty(), dir.to_set());
    assert(list.to_set().union(Set::empty()) =~= list.to_set());
    assert(Set::<u32>::empty().union(dir.to_set()) =~= dir.to_set());
    assert forall|k: int| 0 <= k < list.len() implies d2.read_fat(#[trigger] list[k]) == Ok::<
        FatEntry,
        ErrView,
    >(FatEntry::Free) by {
        assert(d1.read_fat(list[k]) == Ok::<FatEntry, ErrView>(FatEntry::Free));
    }
}

/// The disk when all that is in a directory has been deleted, and the directory has not.
pub open spec fn emptied(d: Disk, path: Seq<char>) -> Disk {
    let target = d.resolve(path)->Ok_0;
    if target.is_directory() {
        d.delete_children(
            path,
            d.entries(target.first_cluster)->Ok_0,
            0,
            (d.geo.total_clusters - 1) as nat,
        ).0
    } else {
        d
    }
}

/// A tree that has been deleted is no longer found. Left out are the trees whose top, once
/// it is empty, [`law_deleted_is_gone`] leaves out.
pub proof fn law_deleted_tree_is_gone(d: Disk, path: Seq<char>)
    requires
        d.delete_recursive(path).1 is Ok,
        name_of(path).len() > 0,
        ({
            let d1 = emptied(d, path);
            &&& intact(d1)
            &&& d1.resolve(path)->Ok_0.first_cluster <= d1.geo.total_clusters
            &&& stands_apart(d1, path)
            &&& find_entry(
                without_first(
                    d1.entries(d1.resolve(parent_of(path))->Ok_0.first_cluster)->Ok_0,
                    name_of(path),
                ),
                name_of(path),
            ) is None
        }),
    ensures
        d.delete_recursive(path).0.resolve(path) == Err::<DirentView, ErrView>(
            ErrView::FileNotFound(name_of(path)),
        ),
{
    let d1 = emptied(d, path);
    assert(d.delete_recursive(path) == d1.delete(path));
    law_deleted_is_gone(d1, path);
}

// ---------------------------------------------------------------------------
// Renaming
// ---------------------------------------------------------------------------

/// If no slot but `(p, q)` holds the name, what is found under it is what that slot holds.
proof fn lemma_only_in_slot(
    d: Disk,
    chain: Seq<u32>,
    name: Seq<char>,
    p: int,
    q: int,
    i: int,
    j: int,
)
    requires
        0 <= i,
        0 <= j,
        d.entries_from(chain, i, j) is Ok,
        d.find_slot(chain, name, Some((p, q)), i, j) == Ok::<Option<(int, int)>, ErrView>(None),
    ensures
        find_entry(d.entries_from(chain, i, j)->Ok_0, name) matches Some(e) ==> e == parse_dirent(
            d.geo.big_endian,
            d.slot(chain, p, q, DIRENT_SIZE as nat)->Ok_0,
        ) && same_name(e.filename(), name),
    decreases chain.len() - i, d.geo.slots() - j,
{
    if i < chain.len() {
        if j >= d.geo.slots() {
            lemma_only_in_slot(d, chain, name, p, q, i + 1, 0);
        } else {
            let raw = d.slot(chain, i, j, DIRENT_SIZE as nat)->Ok_0;
            if !is_end_marker(raw[0]) {
                lemma_only_in_slot(d, chain, name, p, q, i, j + 1);
                lemma_find_cons(
                    parse_dirent(d.geo.big_endian, raw),
                    d.entries_from(chain, i, j + 1)->Ok_0,
                    name,
                );
            }
        }
    }
}

/// An entry that has been given a name that no other slot holds is found under it.
proof fn lemma_renamed_found(
    d: Disk,
    d2: Disk,
    chain: Seq<u32>,
    from: Seq<char>,
    to: Seq<char>,
    p: int,
    q: int,
    raw: Seq<u8>,
    i: int,
    j: int,
)
    requires
        0 <= i,
        0 <= j,
        d.entries_from(chain, i, j) is Ok,
        d2.entries_from(chain, i, j) is Ok,
        d.find_slot(chain, from, None, i, j) == Ok::<Option<(int, int)>, ErrView>(Some((p, q))),
        d.find_slot(chain, to, Some((p, q)), i, j) == Ok::<Option<(int, int)>, ErrView>(None),
        slot_replaced(d, d2, chain, p, q, raw),
        !is_end_marker(raw[0]),
        raw[0] != DIRENT_DELETED,
        parse_dirent(d.geo.big_endian, raw).filename() == to,
    ensures
        find_entry(d2.entries_from(chain, i, j)->Ok_0, to) == Some(
            parse_dirent(d.geo.big_endian, raw),
        ),
    decreases chain.len() - i, d.geo.slots() - j,
{
    let n = DIRENT_SIZE as nat;
    lemma_find_slot(d, chain, from, i, j);
    if j >= d.geo.slots() {
        lemma_renamed_found(d, d2, chain, from, to, p, q, raw, i + 1, 0);
    } else {
        let here = d.slot(chain, i, j, n)->Ok_0;
        assert(d.slot(chain, i, j, n) is Ok);
        if i == p && j == q {
            lemma_find_cons(
                parse_dirent(d.geo.big_endian, raw),
                d2.entries_from(chain, i, j + 1)->Ok_0,
                to,
            );
        } else {
            assert(d2.slot(chain, i, j, n) == d.slot(chain, i, j, n));
            assert(d2.entries_from(chain, i, j + 1) is Ok);
            lemma_renamed_found(d, d2, chain, from, to, p, q, raw, i, j + 1);
            lemma_find_cons(
                parse_dirent(d.geo.big_endian, here),
                d2.entries_from(chain, i, j + 1)->Ok_0,
                to,
            );
        }
    }
}

/// An entry with another name.
pub open spec fn renamed(e: DirentView, name: Seq<char>) -> DirentView {
    DirentView {
        filename_len: encode_utf8(name).len() as u8,
        filename_raw: padded_name(name),
        ..e
    }
}

/// Replacing the name in the bytes of an entry gives the entry with another name.
pub proof fn lemma_renamed_bytes(big_endian: bool, raw: Seq<u8>, name: Seq<char>)
    requires
        raw.len() == DIRENT_SIZE,
        validate_name(name) is Ok,
    ensures
        ({
            let new_raw = renamed_bytes(raw, name);
            &&& new_raw.len() == DIRENT_SIZE
            &&& !is_end_marker(new_raw[0])
            &&& new_raw[0] != DIRENT_DELETED
            &&& parse_dirent(big_endian, new_raw) == renamed(parse_dirent(big_endian, raw), name)
            &&& parse_dirent(big_endian, new_raw).filename() == name
        }),
{
    let new_raw = renamed_bytes(raw, name);
    let t = if big_endian { 2int } else { 0int };
    let d = 2 - t;
    assert(new_raw.subrange(2, 44) =~= padded_name(name));
    assert(new_raw.subrange(44, 48) =~= raw.subrange(44, 48));
    assert(new_raw.subrange(48, 52) =~= raw.subrange(48, 52));
    assert(new_raw.subrange(52 + t, 54 + t) =~= raw.subrange(52 + t, 54 + t));
    assert(new_raw.subrange(52 + d, 54 + d) =~= raw.subrange(52 + d, 54 + d));
    assert(new_raw.subrange(56 + t, 58 + t) =~= raw.subrange(56 + t, 58 + t));
    assert(new_raw.subrange(56 + d, 58 + d) =~= raw.subrange(56 + d, 58 + d));
    assert(new_raw.subrange(60 + t, 62 + t) =~= raw.subrange(60 + t, 62 + t));
    assert(new_raw.subrange(60 + d, 62 + d) =~= raw.subrange(60 + d, 62 + d));
    assert(0x20u8 & 0x3F == 0x20) by (bit_vector);
    let any = crate::disk::Stamp { date: 0, time: 0 };
    lemma_new_entry(name, 0x20, 0, 0, any);
    let fresh = crate::disk::new_entry(name, 0x20, 0, 0, any);
    assert(renamed(parse_dirent(big_endian, raw), name).filename() == fresh.filename());
}

/// Renaming replaces the entry in its directory's listing, and touches that directory only.
pub proof fn lemma_rename_in(d: Disk, p: u32, from: Seq<char>, to: Seq<char>)
    requires
        intact(d),
        d.entries(p) is Ok,
        validate_name(to) is Ok,
        d.rename_in(d.chain(p)->Ok_0, from, to).1 is Ok,
    ensures
        ({
            let d2 = d.rename_in(d.chain(p)->Ok_0, from, to).0;
            let before = d.entries(p)->Ok_0;
            let after = d2.entries(p)->Ok_0;
            &&& touches(d, d2, Set::empty(), d.chain(p)->Ok_0.to_set())
            &&& d2.entries(p) is Ok
            &&& find_entry(before, from) is Some
            &&& find_entry(before, to) matches Some(x) ==> x == find_entry(before, from)->Some_0
            &&& find_entry(after, to) == Some(renamed(find_entry(before, from)->Some_0, to))
            &&& after == with_first_replaced(
                before,
                from,
                renamed(find_entry(before, from)->Some_0, to),
            )
            &&& forall|other: Seq<char>|
                !same_name(from, other) && find_entry(before, other) is Some
                    ==> #[trigger] find_entry(after, other) == find_entry(before, other)
        }),
{
    let s = d.chain(p)->Ok_0;
    lemma_listing_in_range(d, p);
    lemma_find_slot(d, s, from, 0, 0);
    let (i, j) = d.find_slot(s, from, None, 0, 0)->Ok_0->Some_0;
    let raw = d.slot(s, i, j, DIRENT_SIZE as nat)->Ok_0;
    let e = find_entry(d.entries(p)->Ok_0, from)->Some_0;
    let new_raw = renamed_bytes(raw, to);
    lemma_renamed_bytes(d.geo.big_endian, raw, to);
    assert(new_raw =~= new_raw + raw.skip(new_raw.len() as int));
    lemma_slot_replaced(d, s, i, j, new_raw, new_raw);
    let d2 = d.rename_in(s, from, to).0;
    lemma_replaced_listing(d, d2, s, from, i, j, new_raw, 0, 0);
    lemma_renamed_found(d, d2, s, from, to, i, j, new_raw, 0, 0);
    lemma_chain_kept(d, d2, s, Set::empty(), set![s[i]]);
    lemma_follow_chain(d2, s, (d.geo.total_clusters + 1) as nat);
    assert(s.to_set().contains(s[i]));
    lemma_touches_widen(d, d2, Set::empty(), set![s[i]], Set::empty(), s.to_set());
    lemma_only_in_slot(d, s, to, i, j, 0, 0);
    assert forall|other: Seq<char>|
        !same_name(from, other) && find_entry(d.entries(p)->Ok_0, other)
            is Some implies #[trigger] find_entry(d2.entries(p)->Ok_0, other) == find_entry(
        d.entries(p)->Ok_0,
        other,
    ) by {
        if same_name(to, other) {
            lemma_find_same(d.entries(p)->Ok_0, to, other);
        }
        lemma_find_replaced(d.entries(p)->Ok_0, from, renamed(e, to), other);
    }
}

/// What has been renamed is found under its new name, as it was but for the name. Under the
/// old name nothing is found, if the names differ and the directory held the old name once.
///
/// `new_path` is any path to the new name in the same directory. Left out are ways that lead
/// through what is renamed, or through directories that share clusters with its directory.
pub proof fn law_renamed_is_found(d: Disk, path: Seq<char>, name: Seq<char>, new_path: Seq<char>)
    requires
        intact(d),
        name_of(path).len() > 0,
        d.resolve(path) is Ok,
        d.rename(path, name).1 is Ok,
        parent_of(new_path) == parent_of(path),
        name_of(new_path) == name,
        ({
            let names = parts(parent_of(path));
            let p = d.resolve(parent_of(path))->Ok_0.first_cluster;
            &&& walk_clear(d, FIRST_CLUSTER, names, 0, p)
            &&& walk_avoids(d, FIRST_CLUSTER, names, 0, p, name_of(path))
        }),
    ensures
        ({
            let d2 = d.rename(path, name).0;
            let dir = d.resolve(parent_of(path))->Ok_0.first_cluster;
            let e = d.resolve(path)->Ok_0;
            &&& d2.resolve(new_path) == Ok::<DirentView, ErrView>(renamed(e, name))
            &&& !same_name(name_of(path), name) && find_entry(
                without_first(d.entries(dir)->Ok_0, name_of(path)),
                name_of(path),
            ) is None ==> d2.resolve(path) == Err::<DirentView, ErrView>(
                ErrView::FileNotFound(name_of(path)),
            )
            &&& touches(d, d2, Set::empty(), d.chain(dir)->Ok_0.to_set())
        }),
{
    let old_name = name_of(path);
    let names = parts(parent_of(path));
    lemma_resolved_in_parent(d, path);
    let p = d.resolve(parent_of(path))->Ok_0.first_cluster;
    let e = d.resolve(path)->Ok_0;
    let d2 = d.rename(path, name).0;
    lemma_rename_in(d, p, old_name, name);
    lemma_walk_after_change(d, d2, FIRST_CLUSTER, names, 0, p, old_name);
    lemma_resolve_kept(d, d2, FIRST_CLUSTER, names, 0);
    lemma_resolve_path(d2, path);
    lemma_resolve_path(d2, new_path);
    let before = d.entries(p)->Ok_0;
    if !same_name(old_name, name) {
        lemma_renamed_bytes(d.geo.big_endian, Seq::new(64, |i: int| 0u8), name);
        lemma_find_gone(before, old_name, renamed(e, name));
    }
}

/// Once the first entry of a name has got another name, the name finds what it would without
/// that entry.
pub proof fn lemma_find_gone(entries: Seq<DirentView>, name: Seq<char>, e: DirentView)
    requires
        !same_name(e.filename(), name),
    ensures
        find_entry(with_first_replaced(entries, name, e), name) == find_entry(
            without_first(entries, name),
            name,
        ),
    decreases entries.len(),
{
    if entries.len() > 0 {
        if same_name(entries[0].filename(), name) {
            lemma_find_cons(e, entries.drop_first(), name);
        } else {
            lemma_find_gone(entries.drop_first(), name, e);
            lemma_find_cons(
                entries[0],
                with_first_replaced(entries.drop_first(), name, e),
                name,
            );
            lemma_find_cons(entries[0], without_first(entries.drop_first(), name), name);
        }
    }
}

/// A rename that fails, for instance because the name is taken, changes nothing.
pub proof fn law_failed_rename_changes_nothing(d: Disk, path: Seq<char>, name: Seq<char>)
    requires
        d.rename(path, name).1 is Err,
    ensures
        d.rename(path, name).0 == d,
{
}

} // verus!
