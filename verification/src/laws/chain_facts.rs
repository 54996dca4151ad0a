//! Lemmas about chains of clusters: what makes a chain, what keeps it, and what the data
//! written into one reads back as.

use vstd::prelude::*;
use crate::directory::lemma_free_in_range;
use crate::disk::{chunk, clusters_needed, encodable, Disk, Geometry};
use crate::error::ErrView;
use crate::laws::frame::{
    lemma_fat_writable, lemma_touches_trans, lemma_write_fat, lemma_write_part, part, roomy,
    touches,
};
use crate::types::{FatEntry, FIRST_CLUSTER};

verus! {

/// The `k`-th cluster of `s` leads to the next one, or ends the chain if it is the last.
pub open spec fn linked(d: Disk, s: Seq<u32>, k: int) -> bool {
    if k + 1 < s.len() {
        d.read_fat(s[k]) == Ok::<FatEntry, ErrView>(FatEntry::Next(s[k + 1])) && d.geo.in_range(
            s[k + 1],
        )
    } else {
        d.read_fat(s[k]) == Ok::<FatEntry, ErrView>(FatEntry::EndOfChain)
    }
}

/// The clusters of `s` form a chain.
pub open spec fn is_chain(d: Disk, s: Seq<u32>) -> bool {
    s.len() > 0 && forall|k: int| 0 <= k < s.len() ==> #[trigger] linked(d, s, k)
}

/// No cluster is in both.
pub open spec fn disjoint(a: Seq<u32>, b: Seq<u32>) -> bool {
    forall|i: int, j: int| 0 <= i < a.len() && 0 <= j < b.len() ==> #[trigger] a[i] != #[trigger] b[j]
}

/// Every cluster is one of the volume.
pub open spec fn all_in_range(geo: Geometry, s: Seq<u32>) -> bool {
    forall|k: int| 0 <= k < s.len() ==> geo.in_range(#[trigger] s[k])
}

/// What following a chain gives is a chain.
pub proof fn lemma_followed_chain(d: Disk, c: u32, fuel: nat)
    requires
        d.chain_from(c, fuel) is Ok,
    ensures
        ({
            let s = d.chain_from(c, fuel)->Ok_0;
            &&& is_chain(d, s)
            &&& s[0] == c
            &&& s.len() <= fuel
        }),
    decreases fuel,
{
    let s = d.chain_from(c, fuel)->Ok_0;
    match d.read_fat(c) {
        Ok(FatEntry::Next(next)) => {
            let rest = d.chain_from(next, (fuel - 1) as nat)->Ok_0;
            lemma_followed_chain(d, next, (fuel - 1) as nat);
            assert(s =~= seq![c] + rest);
            assert forall|k: int| 0 <= k < s.len() implies #[trigger] linked(d, s, k) by {
                if k > 0 {
                    assert(linked(d, rest, k - 1));
                    assert(s[k] == rest[k - 1]);
                }
            }
        },
        _ => {},
    }
}

/// Following a chain gives all of it.
pub proof fn lemma_follow_chain(d: Disk, s: Seq<u32>, fuel: nat)
    requires
        is_chain(d, s),
        s.len() <= fuel,
    ensures
        d.chain_from(s[0], fuel) == Ok::<Seq<u32>, ErrView>(s),
    decreases s.len(),
{
    assert(linked(d, s, 0));
    if s.len() > 1 {
        let rest = s.drop_first();
        assert forall|k: int| 0 <= k < rest.len() implies #[trigger] linked(d, rest, k) by {
            assert(linked(d, s, k + 1));
        }
        lemma_follow_chain(d, rest, (fuel - 1) as nat);
        assert(rest[0] == s[1]);
        assert(s =~= seq![s[0]] + rest);
    } else {
        assert(s =~= seq![s[0]]);
    }
}

proof fn lemma_chain_runs_parallel(d: Disk, s: Seq<u32>, i: int, j: int, t: nat)
    requires
        is_chain(d, s),
        0 <= i < j,
        j + t < s.len(),
        s[i] == s[j],
    ensures
        s[i + t] == s[j + t],
    decreases t,
{
    if t > 0 {
        lemma_chain_runs_parallel(d, s, i, j, (t - 1) as nat);
        assert(linked(d, s, i + t - 1));
        assert(linked(d, s, j + t - 1));
    }
}

/// No cluster occurs twice in a chain.
pub proof fn lemma_chain_distinct(d: Disk, s: Seq<u32>)
    requires
        is_chain(d, s),
    ensures
        s.no_duplicates(),
{
    assert forall|i: int, j: int| 0 <= i < j < s.len() implies s[i] != s[j] by {
        if s[i] == s[j] {
            let t = (s.len() - 1 - j) as nat;
            lemma_chain_runs_parallel(d, s, i, j, t);
            assert(linked(d, s, i + t));
            assert(linked(d, s, j + t));
        }
    }
}

/// The clusters of a chain are in use.
pub proof fn lemma_chain_in_use(d: Disk, s: Seq<u32>, c: u32)
    requires
        is_chain(d, s),
        s.contains(c),
    ensures
        d.read_fat(c) is Ok,
        d.read_fat(c)->Ok_0 != FatEntry::Free,
{
    let k = choose|k: int| 0 <= k < s.len() && s[k] == c;
    assert(linked(d, s, k));
}

/// The clusters of a chain are clusters of the volume if the first one is.
pub proof fn lemma_chain_in_range(d: Disk, s: Seq<u32>)
    requires
        is_chain(d, s),
        d.geo.in_range(s[0]),
    ensures
        all_in_range(d.geo, s),
{
    assert forall|k: int| 0 <= k < s.len() implies d.geo.in_range(#[trigger] s[k]) by {
        if k > 0 {
            assert(linked(d, s, k - 1));
        }
    }
}

/// A chain stays as it is when the entries of its clusters are left alone.
pub proof fn lemma_chain_kept(d: Disk, d2: Disk, s: Seq<u32>, fats: Set<u32>, data: Set<u32>)
    requires
        touches(d, d2, fats, data),
        is_chain(d, s),
        all_in_range(d.geo, s),
        forall|k: int| 0 <= k < s.len() ==> !fats.contains(#[trigger] s[k]),
    ensures
        is_chain(d2, s),
{
    assert forall|k: int| 0 <= k < s.len() implies #[trigger] linked(d2, s, k) by {
        assert(linked(d, s, k));
        assert(!fats.contains(s[k]));
        assert(d2.read_fat(s[k]) == d.read_fat(s[k]));
    }
}

proof fn lemma_rising(s: Seq<u32>, k: int)
    requires
        forall|i: int, j: int| 0 <= i < j < s.len() ==> s[i] < s[j],
        s.len() > 0 ==> s[0] >= 1,
        0 <= k < s.len(),
    ensures
        s[k] >= k + 1,
    decreases k,
{
    if k > 0 {
        lemma_rising(s, k - 1);
    }
}

/// Distinct clusters of a volume are no more than it has.
pub proof fn lemma_distinct_len(geo: Geometry, s: Seq<u32>)
    requires
        s.no_duplicates(),
        all_in_range(geo, s),
    ensures
        s.len() <= geo.total_clusters,
{
    let ints = s.map_values(|c: u32| c as int);
    assert(ints.no_duplicates());
    ints.unique_seq_to_set();
    let all = vstd::set_lib::set_int_range(1, geo.total_clusters + 1);
    vstd::set_lib::lemma_int_range(1, geo.total_clusters + 1);
    assert(ints.to_set().subset_of(all)) by {
        assert forall|x: int| ints.to_set().contains(x) implies all.contains(x) by {
            let k = choose|k: int| 0 <= k < ints.len() && ints[k] == x;
            assert(geo.in_range(s[k]));
        }
    }
    vstd::set_lib::lemma_len_subset(ints.to_set(), all);
}

// ---------------------------------------------------------------------------
// Allocation
// ---------------------------------------------------------------------------

/// The numbers of the clusters behind the first can be stored as links.
pub open spec fn linkable(geo: Geometry, list: Seq<u32>) -> bool {
    forall|k: int|
        1 <= k < list.len() ==> encodable(geo.fat_type, FatEntry::Next(#[trigger] list[k]))
}

/// Linking clusters makes them a chain and touches nothing else.
pub proof fn lemma_link(d: Disk, list: Seq<u32>, i: int)
    requires
        roomy(d.geo),
        0 <= i <= list.len(),
        list.no_duplicates(),
        all_in_range(d.geo, list),
        linkable(d.geo, list),
        forall|k: int| i <= k < list.len() ==> d.read_fat(#[trigger] list[k]) is Ok,
    ensures
        ({
            let (d2, r) = d.link(list, i);
            &&& r is Ok
            &&& touches(d, d2, list.to_set(), Set::empty())
            &&& d2.bytes.len() == d.bytes.len()
            &&& forall|k: int| i <= k < list.len() ==> #[trigger] linked(d2, list, k)
            &&& forall|k: int| 0 <= k < i ==> d2.read_fat(#[trigger] list[k]) == d.read_fat(list[k])
        }),
    decreases list.len() - i,
{
    if i < list.len() {
        let entry = if i + 1 < list.len() {
            FatEntry::Next(list[i + 1])
        } else {
            FatEntry::EndOfChain
        };
        lemma_fat_writable(d, list[i], entry);
        lemma_write_fat(d, list[i], entry);
        let d1 = d.write_fat(list[i], entry)->Ok_0;
        assert forall|k: int| i + 1 <= k < list.len() implies d1.read_fat(#[trigger] list[k])
            is Ok by {
            assert(list[k] != list[i]);
        }
        lemma_link(d1, list, i + 1);
        let (d2, r) = d1.link(list, i + 1);
        lemma_touches_trans(
            d,
            d1,
            d2,
            set![list[i]],
            Set::empty(),
            list.to_set(),
            Set::empty(),
        );
        assert(list.to_set().contains(list[i]));
        assert(set![list[i]].union(list.to_set()) =~= list.to_set());
        assert(Set::<u32>::empty().union(Set::empty()) =~= Set::<u32>::empty());
        assert forall|k: int| i <= k < list.len() implies #[trigger] linked(d2, list, k) by {
            if k == i {
                assert(d2.read_fat(list[i]) == d1.read_fat(list[i]));
                if i + 1 < list.len() {
                    assert(d.geo.in_range(list[i + 1]));
                    assert(encodable(d.geo.fat_type, FatEntry::Next(list[i + 1])));
                }
            }
        }
        assert forall|k: int| 0 <= k < i implies d2.read_fat(#[trigger] list[k]) == d.read_fat(
            list[k],
        ) by {
            assert(list[k] != list[i]);
        }
    } else {
        assert(touches(d, d, list.to_set(), Set::empty()));
    }
}

/// Allocating a chain succeeds exactly when there are enough free clusters, and then gives
/// a chain of the first free ones.
pub proof fn lemma_allocate_chain(d: Disk, count: nat)
    requires
        roomy(d.geo),
        count > 0,
        d.free_from(FIRST_CLUSTER as int, count) is Ok,
        d.free_from(FIRST_CLUSTER as int, count)->Ok_0.len() == count,
        linkable(d.geo, d.free_from(FIRST_CLUSTER as int, count)->Ok_0),
    ensures
        ({
            let list = d.free_from(FIRST_CLUSTER as int, count)->Ok_0;
            let (d2, r) = d.allocate_chain(count);
            &&& r == Ok::<u32, ErrView>(list[0])
            &&& touches(d, d2, list.to_set(), Set::empty())
            &&& d2.bytes.len() == d.bytes.len()
            &&& is_chain(d2, list)
            &&& d2.chain(list[0]) == Ok::<Seq<u32>, ErrView>(list)
            &&& list.no_duplicates()
            &&& all_in_range(d.geo, list)
            &&& forall|k: int|
                0 <= k < list.len() ==> d.read_fat(#[trigger] list[k]) == Ok::<FatEntry, ErrView>(
                    FatEntry::Free,
                )
        }),
{
    let list = d.free_from(FIRST_CLUSTER as int, count)->Ok_0;
    lemma_free_in_range(d, FIRST_CLUSTER as int, count);
    assert(all_in_range(d.geo, list));
    assert(list.no_duplicates());
    lemma_link(d, list, 0);
    let (d2, r) = d.link(list, 0);
    lemma_distinct_len(d.geo, list);
    lemma_follow_chain(d2, list, (d.geo.total_clusters + 1) as nat);
}

/// Allocating one cluster gives a chain of it alone.
pub proof fn lemma_allocate_cluster(d: Disk)
    requires
        roomy(d.geo),
        d.allocate_cluster().1 is Ok,
    ensures
        ({
            let (d2, r) = d.allocate_cluster();
            let c = r->Ok_0;
            &&& d.geo.in_range(c)
            &&& d.read_fat(c) == Ok::<FatEntry, ErrView>(FatEntry::Free)
            &&& touches(d, d2, set![c], Set::empty())
            &&& d2.bytes.len() == d.bytes.len()
            &&& d2.read_fat(c) == Ok::<FatEntry, ErrView>(FatEntry::EndOfChain)
            &&& forall|x: u32| x != c ==> #[trigger] d2.read_fat(x) == d.read_fat(x)
        }),
{
    lemma_free_in_range(d, FIRST_CLUSTER as int, 1);
    let list = d.free_from(FIRST_CLUSTER as int, 1)->Ok_0;
    lemma_write_fat(d, list[0], FatEntry::EndOfChain);
}

// ---------------------------------------------------------------------------
// Data
// ---------------------------------------------------------------------------

/// The contents of a cluster that is left alone stay the same.
pub proof fn lemma_cluster_kept(d: Disk, d2: Disk, fats: Set<u32>, data: Set<u32>, c: u32)
    requires
        touches(d, d2, fats, data),
        !data.contains(c),
        d.read_cluster(c) is Ok,
    ensures
        d2.read_cluster(c) == d.read_cluster(c),
{
    let size = d.geo.cluster_size();
    assert(part(d, c, 0, size) == d.read_cluster(c));
    assert(part(d2, c, 0, size) == part(d, c, 0, size));
    assert(part(d2, c, 0, size) == d2.read_cluster(c));
}

/// Writing data into clusters puts its pieces there, and touches nothing else.
pub proof fn lemma_write_data(d: Disk, list: Seq<u32>, data: Seq<u8>, i: int)
    requires
        roomy(d.geo),
        0 <= i,
        list.no_duplicates(),
        all_in_range(d.geo, list),
        d.write_data(list, data, i).1 is Ok,
    ensures
        ({
            let d2 = d.write_data(list, data, i).0;
            let size = d.geo.cluster_size();
            &&& touches(d, d2, Set::empty(), list.to_set())
            &&& forall|k: int|
                i <= k < list.len() && k * size < data.len() ==> #[trigger] d2.read_cluster(list[k])
                    == Ok::<Seq<u8>, ErrView>(chunk(data, size, k))
            &&& forall|k: int|
                0 <= k < i && k < list.len() && d.read_cluster(list[k]) is Ok
                    ==> #[trigger] d2.read_cluster(list[k]) == d.read_cluster(list[k])
        }),
    decreases list.len() - i,
{
    let size = d.geo.cluster_size();
    let d2 = d.write_data(list, data, i).0;
    if i < list.len() && i * size < data.len() {
        let piece = chunk(data, size, i);
        let d1 = d.write_cluster(list[i], piece)->Ok_0;
        assert(d.geo.in_range(list[i]));
        lemma_write_part(d, list[i], 0, piece);
        assert((d.geo.cluster_pos(list[i]) + 0) as nat == d.geo.cluster_pos(list[i]));
        assert(touches(d, d1, Set::empty(), set![list[i]]));
        assert(part(d1, list[i], 0, size) == Ok::<Seq<u8>, ErrView>(
            piece.subrange(0, size as int),
        ));
        assert(piece.subrange(0, size as int) =~= piece);
        lemma_write_data(d1, list, data, i + 1);
        lemma_touches_trans(
            d,
            d1,
            d2,
            Set::empty(),
            set![list[i]],
            Set::empty(),
            list.to_set(),
        );
        assert(list.to_set().contains(list[i]));
        assert(set![list[i]].union(list.to_set()) =~= list.to_set());
        assert(Set::<u32>::empty().union(Set::empty()) =~= Set::<u32>::empty());
        assert(d1.read_cluster(list[i]) == Ok::<Seq<u8>, ErrView>(piece));
        assert forall|k: int| i <= k < list.len() && k * size < data.len() implies #[trigger] d2.read_cluster(
            list[k],
        ) == Ok::<Seq<u8>, ErrView>(chunk(data, size, k)) by {
            if k == i {
                assert(d2.read_cluster(list[i]) == d1.read_cluster(list[i]));
            }
        }
        assert forall|k: int|
            0 <= k < i && k < list.len() && d.read_cluster(list[k]) is Ok implies #[trigger] d2.read_cluster(
            list[k],
        ) == d.read_cluster(list[k]) by {
            assert(list[k] != list[i]);
            lemma_cluster_kept(d, d1, Set::empty(), set![list[i]], list[k]);
        }
    } else {
        assert(touches(d, d, Set::empty(), list.to_set()));
        assert forall|k: int| i <= k < list.len() && k * size < data.len() implies #[trigger] d2.read_cluster(
            list[k],
        ) == Ok::<Seq<u8>, ErrView>(chunk(data, size, k)) by {
            assert(i * size <= k * size) by (nonlinear_arith)
                requires
                    i <= k,
                    0 <= size,
            ;
        }
    }
}

/// Clusters that hold the pieces of some data read as that data.
pub proof fn lemma_read_data(d: Disk, list: Seq<u32>, data: Seq<u8>, i: int)
    requires
        d.geo.cluster_size() > 0,
        0 <= i < list.len(),
        i * d.geo.cluster_size() < data.len(),
        data.len() <= list.len() * d.geo.cluster_size(),
        forall|k: int|
            0 <= k < list.len() && k * d.geo.cluster_size() < data.len()
                ==> #[trigger] d.read_cluster(list[k]) == Ok::<Seq<u8>, ErrView>(
                chunk(data, d.geo.cluster_size(), k),
            ),
    ensures
        d.read_data(list, i, (data.len() - i * d.geo.cluster_size()) as nat) == Ok::<
            Seq<u8>,
            ErrView,
        >(data.skip(i * d.geo.cluster_size())),
    decreases list.len() - i,
{
    let size = d.geo.cluster_size() as int;
    let left = data.len() - i * size;
    let b = chunk(data, size as nat, i);
    assert(d.read_cluster(list[i]) == Ok::<Seq<u8>, ErrView>(b));
    assert((i + 1) * size == i * size + size) by (nonlinear_arith);
    if left <= size {
        assert(b.take(left) =~= data.skip(i * size));
    } else {
        assert(i + 1 < list.len()) by {
            if i + 1 >= list.len() {
                assert(list.len() * size <= (i + 1) * size) by (nonlinear_arith)
                    requires
                        list.len() <= i + 1,
                        0 < size,
                ;
            }
        }
        lemma_read_data(d, list, data, i + 1);
        assert(b.take(size) + data.skip((i + 1) * size) =~= data.skip(i * size));
    }
}

/// The clusters needed for some data hold all of it.
pub proof fn lemma_enough_clusters(len: nat, size: nat)
    requires
        size > 0,
    ensures
        len <= clusters_needed(len, size) * size,
        clusters_needed(len, size) > 0,
        len > 0 ==> (clusters_needed(len, size) - 1) * size < len,
{
    let s = size as int;
    let n = clusters_needed(len, size) as int;
    if len > 0 {
        let q = (len + s - 1) / s;
        vstd::arithmetic::div_mod::lemma_fundamental_div_mod(len + s - 1, s);
        vstd::arithmetic::div_mod::lemma_mod_bound(len + s - 1, s);
        assert(s * q == q * s) by (nonlinear_arith);
        assert(q >= 1) by (nonlinear_arith)
            requires
                len + s - 1 < q * s + s,
                len >= 1,
                s >= 1,
        ;
        assert((q - 1) * s == q * s - s) by (nonlinear_arith);
    } else {
        assert(n * s == s) by (nonlinear_arith)
            requires
                n == 1,
        ;
    }
}

} // verus!
