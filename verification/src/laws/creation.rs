//! Laws of creating files and directories.

use vstd::prelude::*;
use vstd::utf8::{
    encode_utf8, encode_utf8_decode_utf8, encode_utf8_valid_utf8, is_ascii_chars,
    is_ascii_chars_encode_utf8,
};
use crate::laws::chain_facts::{
    all_in_range, disjoint, is_chain, lemma_allocate_chain, lemma_chain_distinct,
    lemma_chain_in_use, lemma_chain_kept, lemma_cluster_kept, lemma_distinct_len,
    lemma_enough_clusters, lemma_follow_chain, lemma_read_data, lemma_write_data, linkable,
};
use crate::laws::dir_facts::{
    behind_end_readable, entry_added, free_set, lemma_add_entry, lemma_entries_kept,
    lemma_listing_in_range, lemma_listing_kept, lemma_slot_marker, lemma_slot_part, lemma_vacant,
    next_linkable, storable,
};
use crate::directory::lemma_free_in_range;
use crate::disk::{
    chunk, clusters_needed, encodable, find_entry, first_bad_char, is_bad_char, new_entry,
    padded_name, validate_name, Disk, Stamp,
};
use crate::error::ErrView;
use crate::laws::frame::{lemma_touches_trans, roomy, touches};
use crate::path::{law_parts_of_split, name_of, parent_of, parts};
use crate::text::same_name;
use crate::types::{
    is_end_marker, is_name_byte, name_bytes, DirentView, FatEntry, FileAttributes, DIRENT_DELETED,
    DIRENT_SIZE, FIRST_CLUSTER,
};

verus! {

/// The file allocation table is on the device in full and does not overlap the clusters.
pub open spec fn intact(d: Disk) -> bool {
    &&& d.geo.valid()
    &&& roomy(d.geo)
    &&& forall|c: u32| c <= d.geo.total_clusters ==> #[trigger] d.read_fat(c) is Ok
}

/// No directory on the way shares a cluster with the directory that starts at `p`, other
/// than that directory itself.
pub open spec fn walk_clear(d: Disk, c: u32, names: Seq<Seq<char>>, i: int, p: u32) -> bool
    decreases names.len() - i,
{
    if i < 0 || i >= names.len() {
        true
    } else {
        &&& c == p || disjoint(d.chain(c)->Ok_0, d.chain(p)->Ok_0)
        &&& find_entry(d.entries(c)->Ok_0, names[i]) matches Some(e) ==> walk_clear(
            d,
            e.first_cluster,
            names,
            i + 1,
            p,
        )
    }
}

// ---------------------------------------------------------------------------
// Names
// ---------------------------------------------------------------------------

pub proof fn lemma_no_bad_char(name: Seq<char>, i: int)
    requires
        0 <= i,
        first_bad_char(name, i) is None,
    ensures
        forall|k: int| i <= k < name.len() ==> !is_bad_char(#[trigger] name[k]),
    decreases name.len() - i,
{
    if i < name.len() {
        lemma_no_bad_char(name, i + 1);
    }
}

pub proof fn lemma_plain_char(c: char)
    requires
        !is_bad_char(c),
    ensures
        '\0' <= c <= '\u{7f}',
{
}

pub proof fn lemma_filter_all(s: Seq<u8>, keep: spec_fn(u8) -> bool)
    requires
        forall|k: int| 0 <= k < s.len() ==> keep(#[trigger] s[k]),
    ensures
        s.filter(keep) == s,
    decreases s.len(),
{
    reveal(Seq::filter);
    if s.len() > 0 {
        lemma_filter_all(s.drop_last(), keep);
        assert(s.drop_last().push(s.last()) =~= s);
    } else {
        assert(s.filter(keep) =~= s);
    }
}

/// A new entry has the name it was given, and is one that a directory can hold.
pub proof fn lemma_new_entry(
    name: Seq<char>,
    attributes: u8,
    first_cluster: u32,
    file_size: u32,
    now: Stamp,
)
    requires
        validate_name(name) is Ok,
        attributes & 0x3F == attributes,
    ensures
        ({
            let e = new_entry(name, attributes, first_cluster, file_size, now);
            storable(e) && e.filename() == name
        }),
{
    let e = new_entry(name, attributes, first_cluster, file_size, now);
    let b = encode_utf8(name);
    lemma_no_bad_char(name, 0);
    assert(is_ascii_chars(name)) by {
        assert forall|k: int| 0 <= k < name.len() implies '\0' <= #[trigger] name[k] <= '\u{7f}' by {
            lemma_plain_char(name[k]);
        }
    }
    is_ascii_chars_encode_utf8(name);
    assert(b.len() == name.len());
    let raw = padded_name(name);
    let keep = |x: u8| is_name_byte(x);
    assert(raw.take(b.len() as int) =~= b);
    assert forall|k: int| 0 <= k < b.len() implies keep(#[trigger] b[k]) by {
        assert(!is_bad_char(name[k]));
        assert(b[k] == name[k] as u8);
    }
    lemma_filter_all(b, keep);
    assert(name_bytes(e.filename_len, e.filename_raw) == b);
    encode_utf8_valid_utf8(name);
    encode_utf8_decode_utf8(name);
}

/// Names that are the same find the same entry.
pub proof fn lemma_find_same(entries: Seq<DirentView>, a: Seq<char>, b: Seq<char>)
    requires
        same_name(a, b),
    ensures
        find_entry(entries, a) == find_entry(entries, b),
    decreases entries.len(),
{
    if entries.len() > 0 {
        lemma_find_same(entries.drop_first(), a, b);
    }
}

// ---------------------------------------------------------------------------
// Walking
// ---------------------------------------------------------------------------

/// Every lookup on the way gives the same entry on both disks.
pub open spec fn walk_kept(d: Disk, d2: Disk, c: u32, names: Seq<Seq<char>>, i: int) -> bool
    decreases names.len() - i,
{
    if i < 0 || i >= names.len() {
        true
    } else {
        &&& d2.entries(c) is Ok
        &&& find_entry(d2.entries(c)->Ok_0, names[i]) == find_entry(d.entries(c)->Ok_0, names[i])
        &&& find_entry(d.entries(c)->Ok_0, names[i]) matches Some(e) ==> walk_kept(
            d,
            d2,
            e.first_cluster,
            names,
            i + 1,
        )
    }
}

pub proof fn lemma_resolve_kept(d: Disk, d2: Disk, c: u32, names: Seq<Seq<char>>, i: int)
    requires
        0 <= i,
        d.resolve_from(c, names, i) is Ok,
        walk_kept(d, d2, c, names, i),
    ensures
        d2.resolve_from(c, names, i) == d.resolve_from(c, names, i),
    decreases names.len() - i,
{
    if i < names.len() {
        let e = find_entry(d.entries(c)->Ok_0, names[i])->Some_0;
        if i + 1 < names.len() {
            lemma_resolve_kept(d, d2, e.first_cluster, names, i + 1);
        }
    }
}

/// One more component is looked up in the directory that the others lead to.
pub proof fn lemma_resolve_push(d: Disk, c: u32, names: Seq<Seq<char>>, i: int, name: Seq<char>)
    requires
        0 <= i <= names.len(),
        i < names.len() ==> d.resolve_from(c, names, i) is Ok && d.resolve_from(
            c,
            names,
            i,
        )->Ok_0.is_directory(),
    ensures
        ({
            let at = if i < names.len() {
                d.resolve_from(c, names, i)->Ok_0.first_cluster
            } else {
                c
            };
            d.resolve_from(c, names.push(name), i) == (match d.entries(at) {
                Err(e) => Err::<DirentView, ErrView>(e),
                Ok(entries) => match find_entry(entries, name) {
                    None => Err(ErrView::FileNotFound(name)),
                    Some(e) => Ok(e),
                },
            })
        }),
    decreases names.len() - i,
{
    let longer = names.push(name);
    if i < names.len() {
        assert(longer[i] == names[i]);
        let e = find_entry(d.entries(c)->Ok_0, names[i])->Some_0;
        if i + 1 < names.len() {
            lemma_resolve_push(d, e.first_cluster, names, i + 1, name);
        } else {
            lemma_resolve_push(d, e.first_cluster, names, i + 1, name);
        }
    } else {
        assert(longer[i] == name);
    }
}

/// What a path leads to is looked up in what its parent leads to.
pub proof fn lemma_resolve_path(d: Disk, path: Seq<char>)
    requires
        name_of(path).len() > 0,
        d.resolve(parent_of(path)) is Ok,
        d.resolve(parent_of(path))->Ok_0.is_directory(),
    ensures
        d.resolve(path) == (match d.entries(d.resolve(parent_of(path))->Ok_0.first_cluster) {
            Err(e) => Err::<DirentView, ErrView>(e),
            Ok(entries) => match find_entry(entries, name_of(path)) {
                None => Err(ErrView::FileNotFound(name_of(path))),
                Some(e) => Ok(e),
            },
        }),
{
    law_parts_of_split(path);
    lemma_resolve_push(d, FIRST_CLUSTER, parts(parent_of(path)), 0, name_of(path));
}

// ---------------------------------------------------------------------------
// Allocation
// ---------------------------------------------------------------------------

/// Entries of the table stay readable.
pub proof fn lemma_intact_kept(d: Disk, d2: Disk)
    requires
        intact(d),
        d2.geo == d.geo,
        d2.bytes.len() >= d.bytes.len(),
    ensures
        intact(d2),
{
    assert forall|c: u32| c <= d2.geo.total_clusters implies #[trigger] d2.read_fat(c) is Ok by {
        assert(d.read_fat(c) is Ok);
    }
}

/// Once the first `n` free clusters are taken, the next free cluster is the one after them.
proof fn lemma_next_free(d: Disk, d2: Disk, c: int, n: nat)
    requires
        1 <= c,
        d2.geo == d.geo,
        d.free_from(c, n + 1) is Ok,
        d.free_from(c, n) is Ok,
        forall|x: u32|
            c <= x <= d.geo.total_clusters ==> if d.free_from(c, n)->Ok_0.contains(x) {
                #[trigger] d2.read_fat(x) is Ok && d2.read_fat(x)->Ok_0 != FatEntry::Free
            } else {
                d2.read_fat(x) == d.read_fat(x)
            },
    ensures
        ({
            let list = d.free_from(c, n + 1)->Ok_0;
            d2.free_from(c, 1) == Ok::<Seq<u32>, ErrView>(
                if list.len() > n {
                    seq![list[n as int]]
                } else {
                    seq![]
                },
            ) && list.len() <= n + 1
        }),
    decreases d.geo.total_clusters + 1 - c,
{
    lemma_free_in_range(d, c, n + 1);
    lemma_free_in_range(d, c, n);
    if c <= d.geo.total_clusters {
        let x = c as u32;
        let taken = d.free_from(c, n)->Ok_0;
        lemma_free_in_range(d, c + 1, n);
        if n > 0 {
            lemma_free_in_range(d, c + 1, (n - 1) as nat);
        }
        if d.read_fat(x) == Ok::<FatEntry, ErrView>(FatEntry::Free) {
            if n > 0 {
                let rest = d.free_from(c + 1, (n - 1) as nat)->Ok_0;
                assert(taken =~= seq![x] + rest);
                assert(taken[0] == x);
                assert(taken.contains(x));
                assert forall|y: u32| c + 1 <= y <= d.geo.total_clusters implies if rest.contains(
                    y,
                ) {
                    #[trigger] d2.read_fat(y) is Ok && d2.read_fat(y)->Ok_0 != FatEntry::Free
                } else {
                    d2.read_fat(y) == d.read_fat(y)
                } by {
                    if rest.contains(y) {
                        let k = choose|k: int| 0 <= k < rest.len() && rest[k] == y;
                        assert(taken[k + 1] == y);
                    } else if taken.contains(y) {
                        let k = choose|k: int| 0 <= k < taken.len() && taken[k] == y;
                        assert(rest[k - 1] == y);
                    }
                }
                lemma_next_free(d, d2, c + 1, (n - 1) as nat);
                assert((n - 1) as nat + 1 == n);
                let more = d.free_from(c + 1, n)->Ok_0;
                assert(d.free_from(c, n + 1)->Ok_0 =~= seq![x] + more);
                assert(d2.free_from(c, 1) == d2.free_from(c + 1, 1));
            } else {
                assert(taken =~= seq![]);
                assert(d2.read_fat(x) == d.read_fat(x));
                assert(d.free_from(c + 1, 0) == Ok::<Seq<u32>, ErrView>(seq![]));
                assert(d2.free_from(c + 1, 0) == Ok::<Seq<u32>, ErrView>(seq![]));
                assert(seq![x] + Seq::<u32>::empty() =~= seq![x]);
            }
        } else {
            assert(!taken.contains(x)) by {
                if taken.contains(x) {
                    let k = choose|k: int| 0 <= k < taken.len() && taken[k] == x;
                    assert(d.read_fat(taken[k]) == Ok::<FatEntry, ErrView>(FatEntry::Free));
                }
            }
            assert(d2.read_fat(x) == d.read_fat(x));
            assert(d.free_from(c, n + 1) == d.free_from(c + 1, n + 1));
            if n > 0 {
                assert(d.free_from(c, n) == d.free_from(c + 1, n));
            }
            lemma_next_free(d, d2, c + 1, n);
        }
    }
}

/// Fewer free clusters can be found where more can.
proof fn lemma_fewer_free(d: Disk, c: int, n: nat)
    requires
        intact(d),
        1 <= c,
    ensures
        d.free_from(c, n) is Ok,
        d.free_from(c, n + 1) is Ok,
        d.free_from(c, n + 1)->Ok_0.len() >= d.free_from(c, n)->Ok_0.len(),
        d.free_from(c, n)->Ok_0 == d.free_from(c, n + 1)->Ok_0.take(
            d.free_from(c, n)->Ok_0.len() as int,
        ),
    decreases d.geo.total_clusters + 1 - c,
{
    if c <= d.geo.total_clusters {
        assert(d.read_fat(c as u32) is Ok);
        lemma_fewer_free(d, c + 1, n);
        if n > 0 {
            lemma_fewer_free(d, c + 1, (n - 1) as nat);
            assert((n - 1) as nat + 1 == n);
        }
        assert(d.free_from(c, n)->Ok_0 =~= d.free_from(c, n + 1)->Ok_0.take(
            d.free_from(c, n)->Ok_0.len() as int,
        ));
    } else {
        assert(d.free_from(c, n)->Ok_0 =~= d.free_from(c, n + 1)->Ok_0.take(0));
    }
}

// ---------------------------------------------------------------------------
// Creating and reading files
// ---------------------------------------------------------------------------

/// The slot that a new entry goes into stays the same when the directory's clusters are left
/// alone.
pub proof fn lemma_vacant_kept(
    d: Disk,
    d2: Disk,
    chain: Seq<u32>,
    fats: Set<u32>,
    data: Set<u32>,
    i: int,
    j: int,
)
    requires
        touches(d, d2, fats, data),
        all_in_range(d.geo, chain),
        forall|k: int| 0 <= k < chain.len() ==> !data.contains(#[trigger] chain[k]),
        0 <= i,
        0 <= j,
        d.entries_from(chain, i, j) is Ok,
    ensures
        d2.vacant_slot(chain, i, j) == d.vacant_slot(chain, i, j),
        d.vacant_slot(chain, i, j) is Ok,
    decreases chain.len() - i, d.geo.slots() - j,
{
    if i < chain.len() {
        if j >= d.geo.slots() {
            lemma_vacant_kept(d, d2, chain, fats, data, i + 1, 0);
        } else {
            let n = DIRENT_SIZE as nat;
            assert(d.geo.in_range(chain[i]));
            assert(d.slot(chain, i, j, n) is Ok);
            lemma_slot_marker(d, chain, i, j);
            lemma_slot_part(d, chain, i, j, 1);
            lemma_slot_part(d2, chain, i, j, 1);
            assert(!data.contains(chain[i]));
            assert(d2.slot(chain, i, j, 1) == d.slot(chain, i, j, 1));
            let m = d.slot(chain, i, j, 1)->Ok_0[0];
            if !is_end_marker(m) && m != DIRENT_DELETED {
                lemma_vacant_kept(d, d2, chain, fats, data, i, j + 1);
            }
        }
    }
}

pub proof fn lemma_behind_end_kept(d: Disk, d2: Disk, chain: Seq<u32>, fats: Set<u32>, data: Set<u32>)
    requires
        d.geo.valid(),
        touches(d, d2, fats, data),
        all_in_range(d.geo, chain),
        forall|k: int| 0 <= k < chain.len() ==> !data.contains(#[trigger] chain[k]),
        d.entries_from(chain, 0, 0) is Ok,
        behind_end_readable(d, chain),
    ensures
        behind_end_readable(d2, chain),
{
    lemma_vacant_kept(d, d2, chain, fats, data, 0, 0);
    lemma_vacant(d, chain, 0, 0);
    if let Ok(Some((p, q))) = d.vacant_slot(chain, 0, 0) {
        let n = DIRENT_SIZE as nat;
        assert(!data.contains(chain[p]));
        lemma_slot_part(d, chain, p, q, 1);
        lemma_slot_part(d2, chain, p, q, 1);
        assert(d2.slot(chain, p, q, 1) == d.slot(chain, p, q, 1));
        if d.slot(chain, p, q, 1)->Ok_0[0] != DIRENT_DELETED {
            if q + 1 < d.geo.slots() {
                lemma_slot_part(d, chain, p, q + 1, n);
                lemma_slot_part(d2, chain, p, q + 1, n);
                assert(d2.slot(chain, p, q + 1, n) == d.slot(chain, p, q + 1, n));
            } else {
                lemma_entries_kept(d, d2, chain, fats, data, p + 1, 0);
            }
        }
    }
}

/// A walk that keeps clear of the directory at `p` finds the same entries once a new name has
/// been entered there.
pub proof fn lemma_walk_kept(
    d: Disk,
    d2: Disk,
    c: u32,
    names: Seq<Seq<char>>,
    i: int,
    p: u32,
    e: DirentView,
)
    requires
        0 <= i,
        d.geo.valid(),
        d.resolve_from(c, names, i) is Ok,
        d.entries(p) is Ok,
        find_entry(d.entries(p)->Ok_0, e.filename()) is None,
        walk_clear(d, c, names, i, p),
        entry_added(d, d2, p, e),
    ensures
        walk_kept(d, d2, c, names, i),
    decreases names.len() - i,
{
    if i < names.len() {
        let listing = d.entries(c)->Ok_0;
        let x = find_entry(listing, names[i])->Some_0;
        if c == p {
            if same_name(e.filename(), names[i]) {
                lemma_find_same(listing, e.filename(), names[i]);
            }
            assert(find_entry(d2.entries(p)->Ok_0, names[i]) == find_entry(listing, names[i]));
        } else {
            let s = d.chain(p)->Ok_0;
            let t = d.chain(c)->Ok_0;
            lemma_listing_in_range(d, p);
            lemma_listing_in_range(d, c);
            let fats = free_set(d).insert(s.last());
            let data = free_set(d).union(s.to_set());
            assert forall|k: int| 0 <= k < t.len() implies !fats.contains(#[trigger] t[k])
                && !data.contains(t[k]) by {
                assert(t.contains(t[k]));
                lemma_chain_in_use(d, t, t[k]);
                assert(t[k] != s[s.len() - 1]);
                if s.to_set().contains(t[k]) {
                    let j = choose|j: int| 0 <= j < s.len() && s[j] == t[k];
                    assert(t[k] != s[j]);
                }
            }
            lemma_listing_kept(d, d2, c, fats, data);
        }
        if i + 1 < names.len() {
            lemma_walk_kept(d, d2, x.first_cluster, names, i + 1, p, e);
        } else {
            assert(walk_kept(d, d2, x.first_cluster, names, i + 1));
        }
    }
}

/// What has to hold for a new entry at `path` to be found there afterwards: its directory can
/// be listed and does not have the name yet, what lies behind its end can be read, and no
/// other directory on the way shares clusters with it.
pub open spec fn clear_way(d: Disk, path: Seq<char>) -> bool {
    let parent = d.resolve(parent_of(path))->Ok_0.first_cluster;
    &&& d.entries(parent) is Ok
    &&& find_entry(d.entries(parent)->Ok_0, name_of(path)) is None
    &&& behind_end_readable(d, d.chain(parent)->Ok_0)
    &&& walk_clear(d, FIRST_CLUSTER, parts(parent_of(path)), 0, parent)
}

/// Once an entry has been added to the parent directory, the path leads to it.
proof fn lemma_path_leads_to_added(d: Disk, d2: Disk, path: Seq<char>, e: DirentView)
    requires
        d.geo.valid(),
        d.parent_for(path) is Ok,
        clear_way(d, path),
        e.filename() == name_of(path),
        entry_added(d, d2, d.parent_for(path)->Ok_0.first_cluster, e),
    ensures
        d2.resolve(path) == Ok::<DirentView, ErrView>(e),
{
    let parent = d.parent_for(path)->Ok_0;
    let p = parent.first_cluster;
    let names = parts(parent_of(path));
    lemma_walk_kept(d, d2, FIRST_CLUSTER, names, 0, p, e);
    lemma_resolve_kept(d, d2, FIRST_CLUSTER, names, 0);
    lemma_resolve_path(d2, path);
    assert(find_entry(d2.entries(p)->Ok_0, name_of(path)) == Some(e));
}

/// After the data of a new file has been stored in free clusters, the file's chain is in
/// place, and nothing but those clusters has been touched.
proof fn lemma_data_stored(d: Disk, data: Seq<u8>)
    requires
        intact(d),
        ({
            let count = clusters_needed(data.len(), d.geo.cluster_size());
            let (d1, got) = d.allocate_chain(count);
            &&& got is Ok
            &&& linkable(d.geo, d.free_from(FIRST_CLUSTER as int, count)->Ok_0)
            &&& d1.write_data(d1.chain(got->Ok_0)->Ok_0, data, 0).1 is Ok
        }),
    ensures
        ({
            let size = d.geo.cluster_size();
            let count = clusters_needed(data.len(), size);
            let list = d.free_from(FIRST_CLUSTER as int, count)->Ok_0;
            let (d1, got) = d.allocate_chain(count);
            let d2 = d1.write_data(d1.chain(got->Ok_0)->Ok_0, data, 0).0;
            &&& got == Ok::<u32, ErrView>(list[0])
            &&& d1.chain(list[0]) == Ok::<Seq<u32>, ErrView>(list)
            &&& list.len() == count
            &&& intact(d2)
            &&& touches(d, d2, list.to_set(), list.to_set())
            &&& is_chain(d2, list)
            &&& list.no_duplicates()
            &&& all_in_range(d.geo, list)
            &&& forall|k: int|
                0 <= k < list.len() ==> d.read_fat(#[trigger] list[k]) == Ok::<FatEntry, ErrView>(
                    FatEntry::Free,
                )
            &&& forall|k: int|
                0 <= k < list.len() && k * size < data.len() ==> #[trigger] d2.read_cluster(list[k])
                    == Ok::<Seq<u8>, ErrView>(chunk(data, size, k))
        }),
{
    let size = d.geo.cluster_size();
    let count = clusters_needed(data.len(), size);
    lemma_enough_clusters(data.len(), size);
    lemma_free_in_range(d, FIRST_CLUSTER as int, count);
    lemma_allocate_chain(d, count);
    let list = d.free_from(FIRST_CLUSTER as int, count)->Ok_0;
    let (d1, got) = d.allocate_chain(count);
    lemma_write_data(d1, list, data, 0);
    let d2 = d1.write_data(list, data, 0).0;
    lemma_touches_trans(d, d1, d2, list.to_set(), Set::empty(), Set::empty(), list.to_set());
    assert(list.to_set().union(Set::empty()) =~= list.to_set());
    assert(Set::<u32>::empty().union(list.to_set()) =~= list.to_set());
    lemma_intact_kept(d, d2);
    lemma_chain_kept(d1, d2, list, Set::empty(), list.to_set());
}

/// The clusters of a directory are none of those that a new file has taken.
pub proof fn lemma_listing_beside_new_data(d: Disk, d2: Disk, c: u32, list: Seq<u32>)
    requires
        intact(d),
        touches(d, d2, list.to_set(), list.to_set()),
        d.entries(c) is Ok,
        forall|k: int|
            0 <= k < list.len() ==> d.read_fat(#[trigger] list[k]) == Ok::<FatEntry, ErrView>(
                FatEntry::Free,
            ),
    ensures
        d2.entries(c) == d.entries(c),
        d2.chain(c) == d.chain(c),
        forall|k: int|
            0 <= k < d.chain(c)->Ok_0.len() ==> !list.to_set().contains(
                #[trigger] d.chain(c)->Ok_0[k],
            ),
{
    let t = d.chain(c)->Ok_0;
    lemma_listing_in_range(d, c);
    assert forall|k: int| 0 <= k < t.len() implies !list.to_set().contains(#[trigger] t[k]) by {
        assert(t.contains(t[k]));
        lemma_chain_in_use(d, t, t[k]);
        if list.to_set().contains(t[k]) {
            let j = choose|j: int| 0 <= j < list.len() && list[j] == t[k];
            assert(d.read_fat(list[j]) == Ok::<FatEntry, ErrView>(FatEntry::Free));
        }
    }
    lemma_listing_kept(d, d2, c, list.to_set(), list.to_set());
}

/// A walk finds the same entries and keeps clear of the same directory once a new file has
/// taken free clusters.
pub proof fn lemma_walk_beside_new_data(
    d: Disk,
    d2: Disk,
    list: Seq<u32>,
    c: u32,
    names: Seq<Seq<char>>,
    i: int,
    p: u32,
)
    requires
        0 <= i,
        intact(d),
        touches(d, d2, list.to_set(), list.to_set()),
        forall|k: int|
            0 <= k < list.len() ==> d.read_fat(#[trigger] list[k]) == Ok::<FatEntry, ErrView>(
                FatEntry::Free,
            ),
        d.resolve_from(c, names, i) is Ok,
        d.entries(p) is Ok,
        walk_clear(d, c, names, i, p),
    ensures
        walk_clear(d2, c, names, i, p),
        d2.resolve_from(c, names, i) == d.resolve_from(c, names, i),
    decreases names.len() - i,
{
    if i < names.len() {
        lemma_listing_beside_new_data(d, d2, c, list);
        lemma_listing_beside_new_data(d, d2, p, list);
        let x = find_entry(d.entries(c)->Ok_0, names[i])->Some_0;
        if i + 1 < names.len() {
            lemma_walk_beside_new_data(d, d2, list, x.first_cluster, names, i + 1, p);
        }
    }
}

/// Once a new file has taken the first free clusters, the way to its directory is as clear
/// as before.
pub proof fn lemma_way_beside_new_data(d: Disk, d2: Disk, path: Seq<char>, count: nat)
    requires
        intact(d),
        intact(d2),
        d.parent_for(path) is Ok,
        clear_way(d, path),
        linkable(d.geo, d.free_from(FIRST_CLUSTER as int, count + 1)->Ok_0),
        count > 0,
        d.free_from(FIRST_CLUSTER as int, count)->Ok_0.len() == count,
        touches(
            d,
            d2,
            d.free_from(FIRST_CLUSTER as int, count)->Ok_0.to_set(),
            d.free_from(FIRST_CLUSTER as int, count)->Ok_0.to_set(),
        ),
        is_chain(d2, d.free_from(FIRST_CLUSTER as int, count)->Ok_0),
    ensures
        d2.parent_for(path) == d.parent_for(path),
        clear_way(d2, path),
        next_linkable(d2),
        ({
            let p = d.parent_for(path)->Ok_0.first_cluster;
            &&& d2.chain(p) == d.chain(p)
            &&& disjoint(d.free_from(FIRST_CLUSTER as int, count)->Ok_0, d.chain(p)->Ok_0)
        }),
{
    let p = d.parent_for(path)->Ok_0.first_cluster;
    let names = parts(parent_of(path));
    lemma_fewer_free(d, FIRST_CLUSTER as int, count);
    let list = d.free_from(FIRST_CLUSTER as int, count)->Ok_0;
    lemma_free_in_range(d, FIRST_CLUSTER as int, count);
    lemma_listing_beside_new_data(d, d2, p, list);
    lemma_walk_beside_new_data(d, d2, list, FIRST_CLUSTER, names, 0, p);
    let s = d.chain(p)->Ok_0;
    lemma_listing_in_range(d, p);
    lemma_behind_end_kept(d, d2, s, list.to_set(), list.to_set());
    assert forall|i: int, j: int| 0 <= i < list.len() && 0 <= j < s.len() implies #[trigger] list[i]
        != #[trigger] s[j] by {
        assert(list.to_set().contains(list[i]));
        assert(!list.to_set().contains(s[j]));
    }
    assert forall|x: u32| 1 <= x <= d.geo.total_clusters implies if list.contains(x) {
        #[trigger] d2.read_fat(x) is Ok && d2.read_fat(x)->Ok_0 != FatEntry::Free
    } else {
        d2.read_fat(x) == d.read_fat(x)
    } by {
        assert(d.read_fat(x) is Ok);
        if list.contains(x) {
            lemma_chain_in_use(d2, list, x);
        } else {
            assert(!list.to_set().contains(x));
        }
    }
    lemma_next_free(d, d2, FIRST_CLUSTER as int, count);
    let more = d.free_from(FIRST_CLUSTER as int, count + 1)->Ok_0;
    if more.len() > count {
        assert(encodable(d.geo.fat_type, FatEntry::Next(more[count as int])));
    }
}

/// Entering something in a directory leaves a chain alone that is not the directory's.
proof fn lemma_chain_beside_added(d: Disk, d2: Disk, p: u32, e: DirentView, list: Seq<u32>)
    requires
        intact(d),
        d.entries(p) is Ok,
        entry_added(d, d2, p, e),
        is_chain(d, list),
        all_in_range(d.geo, list),
        disjoint(list, d.chain(p)->Ok_0),
    ensures
        d2.chain(list[0]) == Ok::<Seq<u32>, ErrView>(list),
        forall|k: int|
            0 <= k < list.len() && d.read_cluster(list[k]) is Ok ==> #[trigger] d2.read_cluster(
                list[k],
            ) == d.read_cluster(list[k]),
{
    let s = d.chain(p)->Ok_0;
    lemma_listing_in_range(d, p);
    let fats = free_set(d).insert(s.last());
    let touched = free_set(d).union(s.to_set());
    assert forall|k: int| 0 <= k < list.len() implies !fats.contains(#[trigger] list[k])
        && !touched.contains(list[k]) by {
        assert(list.contains(list[k]));
        lemma_chain_in_use(d, list, list[k]);
        assert(list[k] != s[s.len() - 1]);
        if s.to_set().contains(list[k]) {
            let j = choose|j: int| 0 <= j < s.len() && s[j] == list[k];
            assert(list[k] != s[j]);
        }
    }
    lemma_chain_kept(d, d2, list, fats, touched);
    lemma_chain_distinct(d2, list);
    lemma_distinct_len(d2.geo, list);
    lemma_follow_chain(d2, list, (d.geo.total_clusters + 1) as nat);
    assert forall|k: int| 0 <= k < list.len() && d.read_cluster(list[k]) is Ok implies #[trigger] d2.read_cluster(
        list[k],
    ) == d.read_cluster(list[k]) by {
        lemma_cluster_kept(d, d2, fats, touched, list[k]);
    }
}

/// Clusters that hold the pieces of a file are the file's contents.
pub proof fn lemma_file_contents(d: Disk, e: DirentView, list: Seq<u32>, data: Seq<u8>)
    requires
        d.geo.valid(),
        !e.is_directory(),
        e.file_size == data.len(),
        d.chain(e.first_cluster) == Ok::<Seq<u32>, ErrView>(list),
        list.len() == clusters_needed(data.len(), d.geo.cluster_size()),
        forall|k: int|
            0 <= k < list.len() && k * d.geo.cluster_size() < data.len()
                ==> #[trigger] d.read_cluster(list[k]) == Ok::<Seq<u8>, ErrView>(
                chunk(data, d.geo.cluster_size(), k),
            ),
        data.len() == 0 ==> d.read_cluster(list[0]) is Ok,
    ensures
        d.read_file(e) == Ok::<Seq<u8>, ErrView>(data),
{
    let size = d.geo.cluster_size();
    lemma_enough_clusters(data.len(), size);
    if data.len() > 0 {
        assert(0 * size == 0);
        lemma_read_data(d, list, data, 0);
        assert(data.skip(0) =~= data);
    } else {
        assert(d.read_cluster(list[0])->Ok_0.take(0) =~= data);
    }
}

/// Something entered at a path is found there, and chains other than the directory's are
/// left alone.
pub proof fn lemma_entered(d: Disk, path: Seq<char>, e: DirentView, list: Seq<u32>)
    requires
        intact(d),
        d.parent_for(path) is Ok,
        clear_way(d, path),
        next_linkable(d),
        storable(e),
        e.filename() == name_of(path),
        d.add_entry(d.parent_for(path)->Ok_0.first_cluster, e).1 is Ok,
        is_chain(d, list),
        all_in_range(d.geo, list),
        disjoint(list, d.chain(d.parent_for(path)->Ok_0.first_cluster)->Ok_0),
    ensures
        ({
            let d2 = d.add_entry(d.parent_for(path)->Ok_0.first_cluster, e).0;
            &&& d2.geo == d.geo
            &&& d2.resolve(path) == Ok::<DirentView, ErrView>(e)
            &&& d2.chain(list[0]) == Ok::<Seq<u32>, ErrView>(list)
            &&& forall|k: int|
                0 <= k < list.len() && d.read_cluster(list[k]) is Ok ==> #[trigger] d2.read_cluster(
                    list[k],
                ) == d.read_cluster(list[k])
        }),
{
    let p = d.parent_for(path)->Ok_0.first_cluster;
    let d2 = d.add_entry(p, e).0;
    lemma_add_entry(d, p, e);
    lemma_path_leads_to_added(d, d2, path, e);
    lemma_chain_beside_added(d, d2, p, e, list);
}

/// The steps of creating a file.
pub proof fn lemma_create_file_steps(d: Disk, path: Seq<char>, data: Seq<u8>, now: Stamp) -> (d2: Disk)
    requires
        d.create_file(path, data, now).1 is Ok,
        intact(d),
        linkable(
            d.geo,
            d.free_from(
                FIRST_CLUSTER as int,
                clusters_needed(data.len(), d.geo.cluster_size()) + 1,
            )->Ok_0,
        ),
    ensures
        ({
            let size = d.geo.cluster_size();
            let count = clusters_needed(data.len(), size);
            let list = d.free_from(FIRST_CLUSTER as int, count)->Ok_0;
            let e = new_entry(
                name_of(path),
                FileAttributes::ARCHIVE,
                list[0],
                (data.len() % 0x1_0000_0000) as u32,
                now,
            );
            &&& d.parent_for(path) is Ok
            &&& count > 0
            &&& list.len() == count
            &&& all_in_range(d.geo, list)
            &&& intact(d2)
            &&& touches(d, d2, list.to_set(), list.to_set())
            &&& is_chain(d2, list)
            &&& forall|k: int|
                0 <= k < list.len() && k * size < data.len() ==> #[trigger] d2.read_cluster(list[k])
                    == Ok::<Seq<u8>, ErrView>(chunk(data, size, k))
            &&& d.create_file(path, data, now) == d2.add_entry(
                d.parent_for(path)->Ok_0.first_cluster,
                e,
            )
        }),
{
    let size = d.geo.cluster_size();
    let count = clusters_needed(data.len(), size);
    lemma_fewer_free(d, FIRST_CLUSTER as int, count);
    let list = d.free_from(FIRST_CLUSTER as int, count)->Ok_0;
    let more = d.free_from(FIRST_CLUSTER as int, count + 1)->Ok_0;
    assert(linkable(d.geo, list)) by {
        assert forall|k: int| 1 <= k < list.len() implies encodable(
            d.geo.fat_type,
            FatEntry::Next(#[trigger] list[k]),
        ) by {
            assert(list[k] == more[k]);
        }
    }
    lemma_data_stored(d, data);
    lemma_enough_clusters(data.len(), size);
    d.allocate_chain(count).0.write_data(list, data, 0).0
}

/// The last step of creating a file: its entry is added, and it reads as its data.
proof fn lemma_file_entered(
    d: Disk,
    d2: Disk,
    path: Seq<char>,
    data: Seq<u8>,
    e: DirentView,
    list: Seq<u32>,
)
    requires
        intact(d),
        d.parent_for(path) is Ok,
        clear_way(d, path),
        next_linkable(d),
        storable(e),
        e.filename() == name_of(path),
        !e.is_directory(),
        e.file_size == data.len(),
        e.first_cluster == list[0],
        d.add_entry(d.parent_for(path)->Ok_0.first_cluster, e) == (d2, Ok::<(), ErrView>(())),
        is_chain(d, list),
        all_in_range(d.geo, list),
        disjoint(list, d.chain(d.parent_for(path)->Ok_0.first_cluster)->Ok_0),
        list.len() == clusters_needed(data.len(), d.geo.cluster_size()),
        forall|k: int|
            0 <= k < list.len() && k * d.geo.cluster_size() < data.len()
                ==> #[trigger] d.read_cluster(list[k]) == Ok::<Seq<u8>, ErrView>(
                chunk(data, d.geo.cluster_size(), k),
            ),
        data.len() == 0 ==> d.read_cluster(list[0]) is Ok,
    ensures
        d2.resolve(path) == Ok::<DirentView, ErrView>(e),
        d2.read_path(path) == Ok::<Seq<u8>, ErrView>(data),
{
    let size = d.geo.cluster_size();
    lemma_entered(d, path, e, list);
    assert forall|k: int| 0 <= k < list.len() && k * size < data.len() implies #[trigger] d2.read_cluster(
        list[k],
    ) == Ok::<Seq<u8>, ErrView>(chunk(data, size, k)) by {
        assert(d.read_cluster(list[k]) is Ok);
    }
    lemma_file_contents(d2, e, list, data);
}

pub proof fn lemma_size_fits(n: nat)
    requires
        n <= u32::MAX,
    ensures
        (n % 0x1_0000_0000) as u32 == n,
        n % 0x1_0000_0000 == n,
{
}

/// A file that has been created reads back as it was written.
///
/// Left out are files of more than 4 GiB, whose size the entry cannot hold; clusters whose
/// numbers cannot be stored as links; an empty file whose cluster lies behind the end of the
/// device; and ways that are not clear.
pub proof fn law_created_file_reads_back(d: Disk, path: Seq<char>, data: Seq<u8>, now: Stamp)
    requires
        intact(d),
        d.create_file(path, data, now).1 is Ok,
        data.len() <= u32::MAX,
        linkable(
            d.geo,
            d.free_from(
                FIRST_CLUSTER as int,
                clusters_needed(data.len(), d.geo.cluster_size()) + 1,
            )->Ok_0,
        ),
        data.len() == 0 ==> d.read_cluster(d.free_from(FIRST_CLUSTER as int, 1)->Ok_0[0]) is Ok,
        clear_way(d, path),
    ensures
        d.create_file(path, data, now).0.read_path(path) == Ok::<Seq<u8>, ErrView>(data),
        d.create_file(path, data, now).0.resolve(path) == Ok::<DirentView, ErrView>(
            new_entry(
                name_of(path),
                FileAttributes::ARCHIVE,
                d.free_from(
                    FIRST_CLUSTER as int,
                    clusters_needed(data.len(), d.geo.cluster_size()),
                )->Ok_0[0],
                data.len() as u32,
                now,
            ),
        ),
{
    let count = clusters_needed(data.len(), d.geo.cluster_size());
    let list = d.free_from(FIRST_CLUSTER as int, count)->Ok_0;
    let file_size = (data.len() % 0x1_0000_0000) as u32;
    let e = new_entry(name_of(path), FileAttributes::ARCHIVE, list[0], file_size, now);
    let d3 = d.create_file(path, data, now).0;
    let d2 = lemma_create_file_steps(d, path, data, now);
    lemma_way_beside_new_data(d, d2, path, count);
    assert(0x20u8 & 0x3F == 0x20) by (bit_vector);
    assert(0x20u8 & 0x10 != 0x10) by (bit_vector);
    lemma_size_fits(data.len());
    lemma_new_entry(name_of(path), FileAttributes::ARCHIVE, list[0], file_size, now);
    lemma_file_entered(d2, d3, path, data, e, list);
}

} // verus!
