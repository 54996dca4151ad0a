//! Laws of success: which requests a volume in order grants.

use vstd::prelude::*;
use crate::directory::lemma_free_in_range;
use crate::disk::{blank, chunk, clusters_needed, find_entry, new_entry, sector_ceil, Disk, Stamp};
use crate::error::ErrView;
use crate::laws::chain_facts::{
    all_in_range, lemma_allocate_chain, lemma_allocate_cluster, lemma_chain_kept, lemma_write_data,
};
use crate::laws::counting::{law_free_count, lemma_tally_ok};
use crate::laws::creation::{intact, lemma_intact_kept};
use crate::laws::dir_facts::{free_set, lemma_vacant};
use crate::laws::entries::law_names;
use crate::laws::frame::{lemma_fat_writable, lemma_touches_trans, lemma_write_fat, touches};
use crate::laws::sound_creation::{lemma_free_linkable, lemma_free_readable, lemma_sound_directory};
use crate::laws::soundness::{
    lemma_directory_readable, lemma_layout_chain, lemma_sound_beside_new_data,
    lemma_vacancy_readable, sound, Layout,
};
use crate::path::{name_of, parent_of};
use crate::types::{
    DirentView, FatEntry, FileAttributes, DIRENT_DELETED, DIRENT_SIZE, FIRST_CLUSTER,
};

verus! {

/// Every cluster of the volume is on the device, which holds no more than it can.
pub open spec fn spacious(d: Disk) -> bool {
    &&& d.bytes.len() <= d.capacity
    &&& forall|c: u32|
        1 <= c <= d.geo.total_clusters ==> (#[trigger] d.read_cluster(c)) is Ok
}

pub proof fn lemma_spacious_kept(d: Disk, d2: Disk)
    requires
        spacious(d),
        d2.geo == d.geo,
        d2.capacity == d.capacity,
        d2.bytes.len() == d.bytes.len(),
    ensures
        spacious(d2),
{
    assert forall|c: u32| 1 <= c <= d2.geo.total_clusters implies (#[trigger] d2.read_cluster(
        c,
    )) is Ok by {
        assert(d.read_cluster(c) is Ok);
    }
}

/// Inside a cluster everything can be written.
pub proof fn lemma_write_ok(d: Disk, c: u32, at: int, data: Seq<u8>)
    requires
        spacious(d),
        d.geo.in_range(c),
        0 <= at,
        at + data.len() <= d.geo.cluster_size(),
    ensures
        ({
            let r = d.write((d.geo.cluster_pos(c) + at) as nat, data);
            &&& r is Ok
            &&& r->Ok_0.geo == d.geo
            &&& r->Ok_0.capacity == d.capacity
            &&& r->Ok_0.bytes.len() == d.bytes.len()
            &&& spacious(r->Ok_0)
        }),
{
    assert(d.read_cluster(c) is Ok);
    let start = d.geo.base + d.geo.cluster_pos(c) + at;
    let end = d.geo.base + d.geo.cluster_pos(c) + d.geo.cluster_size();
    assert(sector_ceil(end as int) <= d.bytes.len());
    assert(sector_ceil(start + data.len()) <= sector_ceil(end as int));
    assert(sector_ceil(end as int) >= end);
    let r = d.write((d.geo.cluster_pos(c) + at) as nat, data);
    lemma_spacious_kept(d, r->Ok_0);
}

pub proof fn lemma_write_data_ok(d: Disk, list: Seq<u32>, data: Seq<u8>, i: int)
    requires
        spacious(d),
        all_in_range(d.geo, list),
        0 <= i,
    ensures
        ({
            let (d2, r) = d.write_data(list, data, i);
            &&& r is Ok
            &&& spacious(d2)
            &&& d2.geo == d.geo
            &&& d2.capacity == d.capacity
            &&& d2.bytes.len() == d.bytes.len()
        }),
    decreases list.len() - i,
{
    let size = d.geo.cluster_size();
    if i < list.len() && i * size < data.len() {
        assert(d.geo.in_range(list[i]));
        lemma_write_ok(d, list[i], 0, chunk(data, size, i));
        let d1 = d.write_cluster(list[i], chunk(data, size, i))->Ok_0;
        lemma_write_data_ok(d1, list, data, i + 1);
    }
}

/// If fewer clusters are found than were looked for, all free ones are among them.
proof fn lemma_exhausted(d: Disk, c: int, count: nat, x: u32)
    requires
        1 <= c,
        d.free_from(c, count) is Ok,
        d.free_from(c, count)->Ok_0.len() < count,
        c <= x,
        free_set(d).contains(x),
    ensures
        d.free_from(c, count)->Ok_0.contains(x),
    decreases d.geo.total_clusters + 1 - c,
{
    let list = d.free_from(c, count)->Ok_0;
    if d.read_fat(c as u32)->Ok_0 == FatEntry::Free {
        let rest = d.free_from(c + 1, (count - 1) as nat)->Ok_0;
        assert(list == seq![c as u32] + rest);
        if x == c {
            assert(list[0] == x);
        } else {
            lemma_exhausted(d, c + 1, (count - 1) as nat, x);
            let k = choose|k: int| 0 <= k < rest.len() && rest[k] == x;
            assert(list[k + 1] == x);
        }
    } else {
        lemma_exhausted(d, c + 1, count, x);
    }
}

/// As many clusters are found as are looked for if as many are free.
pub proof fn lemma_enough_free(d: Disk, count: nat)
    requires
        intact(d),
        free_set(d).len() >= count,
    ensures
        d.free_from(FIRST_CLUSTER as int, count) is Ok,
        d.free_from(FIRST_CLUSTER as int, count)->Ok_0.len() == count,
{
    lemma_free_readable(d, FIRST_CLUSTER as int, count);
    lemma_free_in_range(d, FIRST_CLUSTER as int, count);
    let list = d.free_from(FIRST_CLUSTER as int, count)->Ok_0;
    lemma_tally_ok(d, FIRST_CLUSTER as int);
    law_free_count(d);
    if list.len() < count {
        assert forall|x: u32| free_set(d).contains(x) implies list.to_set().contains(x) by {
            lemma_exhausted(d, FIRST_CLUSTER as int, count, x);
        }
        list.lemma_cardinality_of_set();
        vstd::set_lib::lemma_len_subset(free_set(d), list.to_set());
    }
}

/// Too few clusters are found if too few are free.
pub proof fn lemma_too_few_free(d: Disk, count: nat)
    requires
        intact(d),
        free_set(d).len() < count,
    ensures
        d.free_from(FIRST_CLUSTER as int, count) is Ok,
        d.free_from(FIRST_CLUSTER as int, count)->Ok_0.len() < count,
{
    lemma_free_readable(d, FIRST_CLUSTER as int, count);
    lemma_free_in_range(d, FIRST_CLUSTER as int, count);
    let list = d.free_from(FIRST_CLUSTER as int, count)->Ok_0;
    lemma_tally_ok(d, FIRST_CLUSTER as int);
    law_free_count(d);
    assert(list.no_duplicates());
    list.unique_seq_to_set();
    assert(list.to_set().subset_of(free_set(d))) by {
        assert forall|x: u32| list.to_set().contains(x) implies free_set(d).contains(x) by {
            let k = choose|k: int| 0 <= k < list.len() && list[k] == x;
            assert(d.geo.in_range(list[k]));
        }
    }
    vstd::set_lib::lemma_len_subset(list.to_set(), free_set(d));
}

/// A chain can be taken from a volume in order if and only if as many clusters are free, and
/// nothing is taken if not.
pub proof fn law_allocation(d: Disk, l: Layout, count: nat)
    requires
        sound(d, l),
        count > 0,
    ensures
        d.allocate_chain(count).1 is Ok <==> count <= free_set(d).len(),
        count > free_set(d).len() ==> d.allocate_chain(count) == (
            d,
            Err::<u32, ErrView>(ErrView::DiskFull),
        ),
        d.allocate_cluster().1 is Ok <==> free_set(d).len() >= 1,
        free_set(d).len() == 0 ==> d.allocate_cluster() == (
            d,
            Err::<u32, ErrView>(ErrView::DiskFull),
        ),
{
    if count <= free_set(d).len() {
        lemma_enough_free(d, count);
        lemma_free_linkable(d, count);
        lemma_allocate_chain(d, count);
    } else {
        lemma_too_few_free(d, count);
    }
    if free_set(d).len() >= 1 {
        lemma_cluster_taken(d);
    } else {
        lemma_too_few_free(d, 1);
    }
}

proof fn lemma_cluster_taken(d: Disk)
    requires
        intact(d),
        free_set(d).len() >= 1,
    ensures
        d.allocate_cluster().1 is Ok,
{
    lemma_enough_free(d, 1);
    lemma_free_in_range(d, FIRST_CLUSTER as int, 1);
    let c = d.free_from(FIRST_CLUSTER as int, 1)->Ok_0[0];
    assert(d.geo.in_range(c));
    assert(d.read_fat(c) is Ok);
    lemma_fat_writable(d, c, FatEntry::EndOfChain);
}

proof fn lemma_fill_ok(d: Disk, c: u32, j: int, at_end: bool, e: DirentView)
    requires
        spacious(d),
        d.geo.in_range(c),
        0 <= j < d.geo.slots(),
        e.filename_raw.len() == 42,
    ensures
        d.fill_slot(c, j, at_end, e).1 is Ok,
{
    let raw = crate::disk::dirent_bytes(d.geo.big_endian, e);
    assert(raw.len() == 64);
    assert(j * DIRENT_SIZE + 64 <= d.geo.cluster_size());
    lemma_write_ok(d, c, j * DIRENT_SIZE, raw);
    let d1 = d.write((d.geo.cluster_pos(c) + j * DIRENT_SIZE) as nat, raw)->Ok_0;
    if j + 1 < d.geo.slots() {
        lemma_write_ok(d1, c, (j + 1) * DIRENT_SIZE, seq![crate::types::DIRENT_END]);
        assert(d.geo.cluster_pos(c) + j * DIRENT_SIZE + DIRENT_SIZE == d.geo.cluster_pos(c) + (j
            + 1) * DIRENT_SIZE);
    }
}

/// A directory of a volume in order has a slot for something new: one that is vacant.
pub open spec fn has_vacancy(d: Disk, p: u32) -> bool {
    d.vacant_slot(d.chain(p)->Ok_0, 0, 0) matches Ok(Some(_))
}

/// Something new can be entered in a directory that has a vacant slot, and in any other if a
/// cluster is free.
pub proof fn lemma_entering_ok(d: Disk, l: Layout, p: u32, e: DirentView)
    requires
        sound(d, l),
        spacious(d),
        l.dirs.contains(p),
        e.filename_raw.len() == 42,
        has_vacancy(d, p) || free_set(d).len() >= 1,
    ensures
        d.add_entry(p, e).1 is Ok,
{
    lemma_directory_readable(d, l, p);
    lemma_layout_chain(d, l, p);
    let chain = l.chains[p];
    lemma_vacancy_readable(d, chain, 0, 0);
    lemma_vacant(d, chain, 0, 0);
    match d.vacant_slot(chain, 0, 0)->Ok_0 {
        Some((i, j)) => {
            lemma_fill_ok(d, chain[i], j, d.slot(chain, i, j, 1)->Ok_0[0] != DIRENT_DELETED, e);
        },
        None => {
            lemma_cluster_taken(d);
            lemma_allocate_cluster(d);
            let (d1, r) = d.allocate_cluster();
            let fresh = r->Ok_0;
            let last = chain.last();
            assert(d.geo.in_range(chain[chain.len() - 1]));
            lemma_intact_kept(d, d1);
            lemma_spacious_kept(d, d1);
            assert(d1.read_fat(last) is Ok);
            lemma_fat_writable(d1, last, FatEntry::Next(fresh));
            lemma_write_fat(d1, last, FatEntry::Next(fresh));
            let d2 = d1.write_fat(last, FatEntry::Next(fresh))->Ok_0;
            lemma_spacious_kept(d1, d2);
            let empty = blank(d.geo.cluster_size());
            lemma_write_ok(d2, fresh, 0, empty);
            let d3 = d2.write_cluster(fresh, empty)->Ok_0;
            lemma_fill_ok(d3, fresh, 0, true, e);
        },
    }
}

/// The state of a volume when clusters have been taken and filled.
proof fn lemma_data_stored(d: Disk, l: Layout, count: nat, data: Seq<u8>)
    requires
        sound(d, l),
        spacious(d),
        0 < count <= free_set(d).len(),
    ensures
        ({
            let list = d.free_from(FIRST_CLUSTER as int, count)->Ok_0;
            let (d1, first) = d.allocate_chain(count);
            let (d2, r) = d1.write_data(list, data, 0);
            &&& first == Ok::<u32, ErrView>(list[0])
            &&& d1.chain(list[0]) == Ok::<Seq<u32>, ErrView>(list)
            &&& r is Ok
            &&& sound(d2, l)
            &&& spacious(d2)
            &&& touches(d, d2, list.to_set(), list.to_set())
            &&& free_set(d2) == free_set(d).difference(list.to_set())
            &&& list.len() == count
            &&& list.no_duplicates()
            &&& list.to_set().subset_of(free_set(d))
        }),
{
    lemma_enough_free(d, count);
    lemma_free_linkable(d, count);
    lemma_allocate_chain(d, count);
    let list = d.free_from(FIRST_CLUSTER as int, count)->Ok_0;
    let d1 = d.allocate_chain(count).0;
    lemma_spacious_kept(d, d1);
    lemma_write_data_ok(d1, list, data, 0);
    let d2 = d1.write_data(list, data, 0).0;
    lemma_intact_kept(d, d1);
    lemma_write_data(d1, list, data, 0);
    lemma_touches_trans(d, d1, d2, list.to_set(), Set::empty(), Set::empty(), list.to_set());
    assert(list.to_set().union(Set::empty()) =~= list.to_set());
    assert(Set::<u32>::empty().union(list.to_set()) =~= list.to_set());
    lemma_intact_kept(d, d2);
    lemma_sound_beside_new_data(d, d2, l, list);
    assert(list.to_set().subset_of(free_set(d))) by {
        assert forall|x: u32| list.to_set().contains(x) implies free_set(d).contains(x) by {
            let k = choose|k: int| 0 <= k < list.len() && list[k] == x;
            assert(d.read_fat(list[k]) == Ok::<FatEntry, ErrView>(FatEntry::Free));
            assert(d.geo.in_range(list[k]));
        }
    }
    lemma_chain_kept(d1, d2, list, Set::empty(), list.to_set());
    assert(free_set(d2) =~= free_set(d).difference(list.to_set())) by {
        assert forall|x: u32| free_set(d2).contains(x) == free_set(d).difference(
            list.to_set(),
        ).contains(x) by {
            if list.to_set().contains(x) {
                assert(list.contains(x));
                crate::laws::chain_facts::lemma_chain_in_use(d2, list, x);
            } else if d.geo.in_range(x) {
                assert(d.read_fat(x) is Ok);
                assert(d2.read_fat(x) == d.read_fat(x));
            }
        }
    }
}

/// A vacant slot stays vacant when free clusters are taken.
proof fn lemma_vacancy_kept(d: Disk, d2: Disk, l: Layout, p: u32, list: Seq<u32>)
    requires
        sound(d, l),
        sound(d2, l),
        l.dirs.contains(p),
        touches(d, d2, list.to_set(), list.to_set()),
        list.to_set().subset_of(free_set(d)),
        has_vacancy(d, p),
    ensures
        has_vacancy(d2, p),
{
    lemma_directory_readable(d, l, p);
    lemma_directory_readable(d2, l, p);
    lemma_layout_chain(d, l, p);
    let chain = l.chains[p];
    assert forall|k: int| 0 <= k < chain.len() implies !list.to_set().contains(#[trigger] chain[k]) by {
        if list.to_set().contains(chain[k]) {
            assert(chain.contains(chain[k]));
            crate::laws::chain_facts::lemma_chain_in_use(d, chain, chain[k]);
            assert(free_set(d).contains(chain[k]));
        }
    }
    lemma_same_vacancy(d, d2, chain, list, 0, 0);
}

proof fn lemma_same_vacancy(d: Disk, d2: Disk, chain: Seq<u32>, list: Seq<u32>, i: int, j: int)
    requires
        touches(d, d2, list.to_set(), list.to_set()),
        d.geo.valid(),
        all_in_range(d.geo, chain),
        forall|k: int| 0 <= k < chain.len() ==> !list.to_set().contains(#[trigger] chain[k]),
        crate::laws::soundness::on_device(d, chain),
        0 <= i,
        0 <= j,
    ensures
        d2.vacant_slot(chain, i, j) == d.vacant_slot(chain, i, j),
    decreases chain.len() - i, d.geo.slots() - j,
{
    if i < chain.len() {
        if j >= d.geo.slots() {
            lemma_same_vacancy(d, d2, chain, list, i + 1, 0);
        } else {
            assert(d.geo.in_range(chain[i]));
            assert(!list.to_set().contains(chain[i]));
            crate::laws::soundness::lemma_slot_readable(d, chain, i, j, 1);
            let at = j * DIRENT_SIZE;
            let part = crate::laws::frame::part(d, chain[i], at, 1);
            assert(part == d.slot(chain, i, j, 1));
            assert(crate::laws::frame::part(d2, chain[i], at, 1) == part);
            assert(crate::laws::frame::part(d2, chain[i], at, 1) == d2.slot(chain, i, j, 1));
            lemma_same_vacancy(d, d2, chain, list, i, j + 1);
        }
    }
}

/// The number of clusters that are taken for `len` bytes: no more than can hold them, but for
/// one that an empty file has as well.
pub proof fn law_clusters_needed(len: nat, size: nat, k: nat)
    requires
        size > 0,
        k >= 1,
        len <= k * size,
    ensures
        1 <= clusters_needed(len, size) <= k,
        len <= clusters_needed(len, size) * size,
{
    crate::laws::chain_facts::lemma_enough_clusters(len, size);
    let n = clusters_needed(len, size);
    if len > 0 {
        assert(n <= k) by (nonlinear_arith)
            requires
                (n - 1) * size < len,
                len <= k * size,
                size > 0,
        ;
    }
}

/// Which names something new can have, spelled out.
pub open spec fn proper_name(name: Seq<char>) -> bool {
    &&& 1 <= name.len() <= 42
    &&& forall|i: int| 0 <= i < name.len() ==> 1 <= #[trigger] name[i] as int <= 0x7F
}

/// A file can be created on a volume in order: under every name of 1 to 42 characters from
/// U+0001 to U+007F, in every directory, if `k` clusters can hold its contents, at least one,
/// and as many are free, and one more unless the directory has a vacant slot.
pub proof fn law_file_can_be_created(
    d: Disk,
    l: Layout,
    path: Seq<char>,
    data: Seq<u8>,
    now: Stamp,
    k: nat,
)
    requires
        sound(d, l),
        spacious(d),
        proper_name(name_of(path)),
        d.resolve(parent_of(path)) is Ok,
        d.resolve(parent_of(path))->Ok_0.is_directory(),
        k >= 1,
        data.len() <= k * (512 * d.geo.sectors_per_cluster),
        free_set(d).len() >= k,
        free_set(d).len() > k || has_vacancy(d, d.resolve(parent_of(path))->Ok_0.first_cluster),
    ensures
        d.create_file(path, data, now).1 is Ok,
{
    let name = name_of(path);
    law_names(name);
    let p = d.resolve(parent_of(path))->Ok_0.first_cluster;
    let size = d.geo.cluster_size();
    assert(size == 512 * d.geo.sectors_per_cluster);
    law_clusters_needed(data.len(), size, k);
    let count = clusters_needed(data.len(), size);
    lemma_sound_directory(d, l, parent_of(path));
    lemma_data_stored(d, l, count, data);
    let list = d.free_from(FIRST_CLUSTER as int, count)->Ok_0;
    let d1 = d.allocate_chain(count).0;
    let d2 = d1.write_data(list, data, 0).0;
    let e = new_entry(
        name,
        FileAttributes::ARCHIVE,
        list[0],
        (data.len() % 0x1_0000_0000) as u32,
        now,
    );
    lemma_tally_ok(d, FIRST_CLUSTER as int);
    law_free_count(d);
    if free_set(d).len() > k {
        list.unique_seq_to_set();
        assert(free_set(d2).len() >= 1) by {
            vstd::set_lib::lemma_set_difference_len(free_set(d), list.to_set());
            let inter = free_set(d).intersect(list.to_set());
            assert(inter =~= list.to_set());
        }
    } else {
        lemma_vacancy_kept(d, d2, l, p, list);
    }
    lemma_entering_ok(d2, l, p, e);
}

/// A file that needs more clusters than are free is not created, and nothing changes.
pub proof fn law_no_room_for_file(d: Disk, l: Layout, path: Seq<char>, data: Seq<u8>, now: Stamp)
    requires
        sound(d, l),
        proper_name(name_of(path)),
        d.resolve(parent_of(path)) is Ok,
        d.resolve(parent_of(path))->Ok_0.is_directory(),
        data.len() > free_set(d).len() * (512 * d.geo.sectors_per_cluster),
    ensures
        d.create_file(path, data, now) == (d, Err::<(), ErrView>(ErrView::DiskFull)),
{
    law_names(name_of(path));
    let size = d.geo.cluster_size();
    let n = clusters_needed(data.len(), size);
    let f = free_set(d).len();
    crate::laws::chain_facts::lemma_enough_clusters(data.len(), size);
    assert(n > f) by (nonlinear_arith)
        requires
            data.len() <= n * size,
            data.len() > f * size,
            size > 0,
    ;
    law_allocation(d, l, n);
}

/// A directory can be created on a volume in order: under every proper name that is not taken,
/// in every directory, if a cluster is free, and one more unless the directory has a vacant
/// slot.
pub proof fn law_directory_can_be_created(d: Disk, l: Layout, path: Seq<char>, now: Stamp)
    requires
        sound(d, l),
        spacious(d),
        proper_name(name_of(path)),
        d.resolve(parent_of(path)) is Ok,
        d.resolve(parent_of(path))->Ok_0.is_directory(),
        find_entry(
            d.entries(d.resolve(parent_of(path))->Ok_0.first_cluster)->Ok_0,
            name_of(path),
        ) is None,
        free_set(d).len() >= 1,
        free_set(d).len() >= 2 || has_vacancy(d, d.resolve(parent_of(path))->Ok_0.first_cluster),
    ensures
        d.create_directory(path, now).1 is Ok,
{
    let name = name_of(path);
    law_names(name);
    let p = d.resolve(parent_of(path))->Ok_0.first_cluster;
    lemma_sound_directory(d, l, parent_of(path));
    lemma_directory_readable(d, l, p);
    lemma_cluster_taken(d);
    lemma_allocate_cluster(d);
    let (d1, r) = d.allocate_cluster();
    let fresh = r->Ok_0;
    lemma_intact_kept(d, d1);
    lemma_spacious_kept(d, d1);
    let empty = blank(d.geo.cluster_size());
    lemma_write_ok(d1, fresh, 0, empty);
    let d2 = d1.write_cluster(fresh, empty)->Ok_0;
    crate::laws::rewriting::lemma_write_cluster(d1, fresh, empty);
    lemma_touches_trans(d, d1, d2, set![fresh], Set::empty(), Set::empty(), set![fresh]);
    let list = seq![fresh];
    assert(list.to_set() =~= set![fresh]) by {
        assert(list[0] == fresh);
        assert(list.contains(fresh));
    }
    assert(set![fresh].union(Set::empty()) =~= list.to_set());
    assert(Set::<u32>::empty().union(set![fresh]) =~= list.to_set());
    lemma_intact_kept(d, d2);
    lemma_sound_beside_new_data(d, d2, l, list);
    assert(free_set(d).contains(fresh));
    assert(free_set(d2) =~= free_set(d).remove(fresh)) by {
        assert forall|x: u32| free_set(d2).contains(x) == free_set(d).remove(fresh).contains(x) by {
            assert(d1.geo.in_range(x) ==> d1.read_fat(x) is Ok);
            assert(d1.geo.in_range(x) ==> d2.read_fat(x) == d1.read_fat(x));
        }
    }
    lemma_tally_ok(d, FIRST_CLUSTER as int);
    law_free_count(d);
    if !has_vacancy(d, p) {
        assert(free_set(d2).len() >= 1);
    } else {
        lemma_vacancy_kept(d, d2, l, p, list);
    }
    let e = new_entry(name, FileAttributes::DIRECTORY, fresh, 0, now);
    lemma_entering_ok(d2, l, p, e);
}

/// A name that is taken cannot be given to a new directory, and nothing changes.
pub proof fn law_directory_name_taken(d: Disk, path: Seq<char>, now: Stamp)
    requires
        proper_name(name_of(path)),
        d.resolve(parent_of(path)) is Ok,
        d.resolve(parent_of(path))->Ok_0.is_directory(),
        d.entries(d.resolve(parent_of(path))->Ok_0.first_cluster) is Ok,
        find_entry(
            d.entries(d.resolve(parent_of(path))->Ok_0.first_cluster)->Ok_0,
            name_of(path),
        ) is Some,
    ensures
        d.create_directory(path, now) == (d, Err::<(), ErrView>(ErrView::FileExists(path))),
{
    law_names(name_of(path));
}

/// Nothing can be created where the parent is no directory or is not there, nor under a name
/// that is not proper, and nothing changes.
pub proof fn law_creation_refused(d: Disk, path: Seq<char>, data: Seq<u8>, now: Stamp)
    ensures
        ({
            let name = name_of(path);
            let file = d.create_file(path, data, now);
            let dir = d.create_directory(path, now);
            &&& !proper_name(name) ==> file.0 == d && dir.0 == d && file.1 is Err && dir.1 is Err
            &&& proper_name(name) ==> match d.resolve(parent_of(path)) {
                Err(e) => file == (d, Err::<(), ErrView>(e)) && dir == (d, Err::<(), ErrView>(e)),
                Ok(p) => !p.is_directory() ==> file == (
                    d,
                    Err::<(), ErrView>(ErrView::NotADirectory(parent_of(path))),
                ) && dir == file,
            }
        }),
{
    law_names(name_of(path));
}

} // verus!
