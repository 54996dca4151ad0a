//! Laws about the number of free and used clusters, and about chains as such.

use vstd::prelude::*;
use crate::disk::{find_entry, Disk};
use crate::error::ErrView;
use crate::laws::chain_facts::{
    lemma_allocate_chain, lemma_chain_distinct, lemma_chain_in_use, lemma_followed_chain, linkable,
    linked,
};
use crate::laws::creation::{intact, lemma_intact_kept};
use crate::laws::dir_facts::free_set;
use crate::laws::removal::{law_deleted_is_gone, stands_apart, without_first};
use crate::path::{name_of, parent_of};
use crate::types::{FatEntry, FIRST_CLUSTER};

verus! {

/// Every cluster is counted once: as free, as used or as bad.
pub proof fn law_stats_add_up(d: Disk, c: int)
    requires
        0 <= c <= d.geo.total_clusters + 1,
        d.tally_from(c) is Ok,
    ensures
        ({
            let t = d.tally_from(c)->Ok_0;
            t.free + t.used + t.bad == d.geo.total_clusters + 1 - c
        }),
    decreases d.geo.total_clusters + 1 - c,
{
    if c <= d.geo.total_clusters {
        law_stats_add_up(d, c + 1);
    }
}

/// Following a chain gives each of its clusters once, starting with the first, each leading to
/// the next; none of them is free.
pub proof fn law_chain_is_sound(d: Disk, c: u32)
    requires
        d.chain(c) is Ok,
    ensures
        ({
            let s = d.chain(c)->Ok_0;
            &&& s.len() > 0
            &&& s[0] == c
            &&& s.no_duplicates()
            &&& forall|k: int| 0 <= k < s.len() ==> #[trigger] linked(d, s, k)
            &&& forall|k: int|
                0 <= k < s.len() ==> d.read_fat(#[trigger] s[k])->Ok_0 != FatEntry::Free
        }),
{
    let s = d.chain(c)->Ok_0;
    lemma_followed_chain(d, c, (d.geo.total_clusters + 1) as nat);
    lemma_chain_distinct(d, s);
    assert forall|k: int| 0 <= k < s.len() implies d.read_fat(#[trigger] s[k])->Ok_0
        != FatEntry::Free by {
        assert(s.contains(s[k]));
        lemma_chain_in_use(d, s, s[k]);
    }
}

/// The free clusters from `c` on.
spec fn free_set_from(d: Disk, c: int) -> Set<u32> {
    Set::new(|x: u32| c <= x && free_set(d).contains(x))
}

proof fn lemma_tally_free(d: Disk, c: int)
    requires
        1 <= c <= d.geo.total_clusters + 1,
        d.tally_from(c) is Ok,
    ensures
        free_set_from(d, c).finite(),
        d.tally_from(c)->Ok_0.free == free_set_from(d, c).len(),
    decreases d.geo.total_clusters + 1 - c,
{
    let here = free_set_from(d, c);
    if c <= d.geo.total_clusters {
        lemma_tally_free(d, c + 1);
        let rest = free_set_from(d, c + 1);
        let x = c as u32;
        if d.read_fat(x) == Ok::<FatEntry, ErrView>(FatEntry::Free) {
            assert(here =~= rest.insert(x));
        } else {
            assert(here =~= rest);
        }
    } else {
        assert(here =~= Set::empty());
    }
}

/// The number of free clusters that is counted is the number of clusters that are free.
pub proof fn law_free_count(d: Disk)
    requires
        d.tally_from(FIRST_CLUSTER as int) is Ok,
    ensures
        free_set(d).finite(),
        d.tally_from(FIRST_CLUSTER as int)->Ok_0.free == free_set(d).len(),
{
    lemma_tally_free(d, FIRST_CLUSTER as int);
    assert(free_set_from(d, FIRST_CLUSTER as int) =~= free_set(d));
}

/// An intact volume can be counted.
pub proof fn lemma_tally_ok(d: Disk, c: int)
    requires
        intact(d),
        1 <= c,
    ensures
        d.tally_from(c) is Ok,
    decreases d.geo.total_clusters + 1 - c,
{
    if c <= d.geo.total_clusters {
        assert(d.read_fat(c as u32) is Ok);
        lemma_tally_ok(d, c + 1);
    }
}

proof fn lemma_distinct_set(s: Seq<u32>)
    requires
        s.no_duplicates(),
    ensures
        s.to_set().finite(),
        s.to_set().len() == s.len(),
{
    s.unique_seq_to_set();
}

/// Allocating a chain takes as many free clusters as it has.
pub proof fn law_allocation_takes_free_clusters(d: Disk, count: nat)
    requires
        intact(d),
        d.allocate_chain(count).1 is Ok,
        linkable(d.geo, d.free_from(FIRST_CLUSTER as int, count)->Ok_0),
    ensures
        d.tally_from(FIRST_CLUSTER as int) is Ok,
        d.allocate_chain(count).0.tally_from(FIRST_CLUSTER as int) is Ok,
        d.allocate_chain(count).0.tally_from(FIRST_CLUSTER as int)->Ok_0.free + count
            == d.tally_from(FIRST_CLUSTER as int)->Ok_0.free,
{
    let d2 = d.allocate_chain(count).0;
    let list = d.free_from(FIRST_CLUSTER as int, count)->Ok_0;
    crate::directory::lemma_free_in_range(d, FIRST_CLUSTER as int, count);
    lemma_allocate_chain(d, count);
    lemma_intact_kept(d, d2);
    lemma_tally_ok(d, FIRST_CLUSTER as int);
    lemma_tally_ok(d2, FIRST_CLUSTER as int);
    law_free_count(d);
    law_free_count(d2);
    assert(free_set(d) =~= free_set(d2).union(list.to_set())) by {
        assert forall|x: u32| free_set(d).contains(x) == free_set(d2).union(list.to_set()).contains(
            x,
        ) by {
            if list.to_set().contains(x) {
                let k = choose|k: int| 0 <= k < list.len() && list[k] == x;
                assert(d.read_fat(list[k]) == Ok::<FatEntry, ErrView>(FatEntry::Free));
                assert(d.geo.in_range(list[k]));
            } else if d.geo.in_range(x) {
                assert(d.read_fat(x) is Ok);
                assert(d2.read_fat(x) == d.read_fat(x));
            }
        }
    }
    assert(free_set(d2).disjoint(list.to_set())) by {
        assert forall|x: u32| !(free_set(d2).contains(x) && list.to_set().contains(x)) by {
            if list.to_set().contains(x) {
                assert(list.contains(x));
                lemma_chain_in_use(d2, list, x);
            }
        }
    }
    lemma_distinct_set(list);
    vstd::set_lib::lemma_set_disjoint_lens(free_set(d2), list.to_set());
}

/// Deleting something makes as many clusters free as it had.
pub proof fn law_delete_frees_clusters(d: Disk, path: Seq<char>)
    requires
        intact(d),
        name_of(path).len() > 0,
        d.delete(path).1 is Ok,
        d.geo.in_range(d.resolve(path)->Ok_0.first_cluster),
        stands_apart(d, path),
        find_entry(
            without_first(
                d.entries(d.resolve(parent_of(path))->Ok_0.first_cluster)->Ok_0,
                name_of(path),
            ),
            name_of(path),
        ) is None,
    ensures
        d.tally_from(FIRST_CLUSTER as int) is Ok,
        d.delete(path).0.tally_from(FIRST_CLUSTER as int) is Ok,
        d.delete(path).0.tally_from(FIRST_CLUSTER as int)->Ok_0.free == d.tally_from(
            FIRST_CLUSTER as int,
        )->Ok_0.free + d.chain(d.resolve(path)->Ok_0.first_cluster)->Ok_0.len(),
{
    let d2 = d.delete(path).0;
    let c = d.resolve(path)->Ok_0.first_cluster;
    let list = d.chain(c)->Ok_0;
    law_deleted_is_gone(d, path);
    lemma_followed_chain(d, c, (d.geo.total_clusters + 1) as nat);
    lemma_chain_distinct(d, list);
    crate::laws::chain_facts::lemma_chain_in_range(d, list);
    lemma_intact_kept(d, d2);
    lemma_tally_ok(d, FIRST_CLUSTER as int);
    lemma_tally_ok(d2, FIRST_CLUSTER as int);
    law_free_count(d);
    law_free_count(d2);
    assert(free_set(d2) =~= free_set(d).union(list.to_set())) by {
        assert forall|x: u32| free_set(d2).contains(x) == free_set(d).union(list.to_set()).contains(
            x,
        ) by {
            if list.to_set().contains(x) {
                let k = choose|k: int| 0 <= k < list.len() && list[k] == x;
                assert(d2.read_fat(list[k]) == Ok::<FatEntry, ErrView>(FatEntry::Free));
                assert(d.geo.in_range(list[k]));
            } else if d.geo.in_range(x) {
                assert(d.read_fat(x) is Ok);
                assert(d2.read_fat(x) == d.read_fat(x));
            }
        }
    }
    assert(free_set(d).disjoint(list.to_set())) by {
        assert forall|x: u32| !(free_set(d).contains(x) && list.to_set().contains(x)) by {
            if list.to_set().contains(x) {
                assert(list.contains(x));
                lemma_chain_in_use(d, list, x);
            }
        }
    }
    lemma_distinct_set(list);
    vstd::set_lib::lemma_set_disjoint_lens(free_set(d), list.to_set());
}

/// The clusters that are marked as bad, from `c` on.
pub open spec fn bad_set(d: Disk, c: int) -> Set<u32> {
    Set::new(
        |x: u32|
            c <= x <= d.geo.total_clusters && d.read_fat(x) == Ok::<FatEntry, ErrView>(
                FatEntry::Bad,
            ),
    )
}

/// The count of bad clusters is the number of those that are marked as bad.
pub proof fn law_bad_count(d: Disk, c: int)
    requires
        0 <= c,
        d.tally_from(c) is Ok,
    ensures
        bad_set(d, c).finite(),
        d.tally_from(c)->Ok_0.bad == bad_set(d, c).len(),
    decreases d.geo.total_clusters + 1 - c,
{
    if c <= d.geo.total_clusters {
        law_bad_count(d, c + 1);
        let x = c as u32;
        if d.read_fat(x) == Ok::<FatEntry, ErrView>(FatEntry::Bad) {
            assert(bad_set(d, c) =~= bad_set(d, c + 1).insert(x));
            assert(!bad_set(d, c + 1).contains(x));
        } else {
            assert(bad_set(d, c) =~= bad_set(d, c + 1));
        }
    } else {
        assert(bad_set(d, c) =~= Set::empty());
    }
}

/// The clusters can be counted if all entries of the table can be read, and only then.
pub proof fn law_count_reads_all(d: Disk, c: int)
    requires
        0 <= c,
    ensures
        d.tally_from(c) is Ok <==> forall|x: u32|
            c <= x <= d.geo.total_clusters ==> #[trigger] d.read_fat(x) is Ok,
    decreases d.geo.total_clusters + 1 - c,
{
    if c <= d.geo.total_clusters {
        law_count_reads_all(d, c + 1);
        let here = c as u32;
        if d.tally_from(c) is Ok {
            assert forall|x: u32| c <= x <= d.geo.total_clusters implies #[trigger] d.read_fat(x)
                is Ok by {
                if x != here {
                    assert(c + 1 <= x);
                }
            }
        } else if d.read_fat(here) is Ok {
            assert(d.tally_from(c + 1) is Err);
        }
    }
}

} // verus!
