//! Deleting a file on a sound volume: it is no longer found, nothing else changes, and the
//! volume stays sound.

use vstd::prelude::*;
use crate::disk::{find_entry, Disk};
use crate::error::ErrView;
use crate::laws::chain_facts::{disjoint, is_chain, lemma_chain_kept, lemma_follow_chain};
use crate::laws::creation::lemma_intact_kept;
use crate::laws::dir_facts::lemma_listing_in_range;
use crate::laws::frame::{lemma_touches_trans, lemma_touches_widen, touches};
use crate::laws::removal::{
    law_deleted_is_gone, lemma_find_slot, lemma_free_all, lemma_replaced_listing,
    lemma_resolved_in_parent, lemma_slot_replaced, stands_apart, walk_apart, without_first,
};
use crate::laws::sound_creation::{
    lemma_absent_all, lemma_sound_apart, lemma_sound_directory, lemma_sound_target,
};
use crate::laws::soundness::{
    all_linkable, directory_sound, ends_last, leads_into, lemma_directory_kept,
    lemma_directory_readable, lemma_layout_chain, lemma_on_device_kept, lemma_slot_readable,
    lemma_sound_walk, on_device, sound, Layout,
};
use crate::path::{name_of, parent_of, parts};
use crate::text::same_name;
use crate::types::{
    is_end_marker, DirentView, FatEntry, DIRENT_DELETED, DIRENT_SIZE, FIRST_CLUSTER,
};

verus! {

/// The entry called `name` in the directory at `p` is the only one that leads to the chain at
/// `h`, and the directory holds the name once.
pub open spec fn sole_entry(d: Disk, l: Layout, p: u32, name: Seq<char>, h: u32) -> bool {
    &&& forall|g: u32, k: int|
        #![trigger l.dirs.contains(g), d.entries(g)->Ok_0[k]]
        l.dirs.contains(g) && 0 <= k < d.entries(g)->Ok_0.len()
            && d.entries(g)->Ok_0[k].first_cluster == h ==> g == p && same_name(
            d.entries(g)->Ok_0[k].filename(),
            name,
        )
    &&& find_entry(without_first(d.entries(p)->Ok_0, name), name) is None
}

/// What is left of a listing was in it.
proof fn lemma_without_members(entries: Seq<DirentView>, name: Seq<char>, k: int)
    requires
        0 <= k < without_first(entries, name).len(),
    ensures
        entries.contains(without_first(entries, name)[k]),
    decreases entries.len(),
{
    if entries.len() > 0 {
        let left = without_first(entries, name);
        if same_name(entries[0].filename(), name) {
            assert(entries[k + 1] == left[k]);
        } else {
            let rest = without_first(entries.drop_first(), name);
            assert(left == seq![entries[0]] + rest);
            if k == 0 {
                assert(entries[0] == left[0]);
            } else {
                lemma_without_members(entries.drop_first(), name, k - 1);
                let m = choose|m: int|
                    0 <= m < entries.drop_first().len() && entries.drop_first()[m] == rest[k - 1];
                assert(entries[m + 1] == left[k]);
            }
        }
    }
}

/// Marking an entry as deleted keeps the end of its directory in the last cluster.
proof fn lemma_marked(d: Disk, p: u32, name: Seq<char>)
    requires
        crate::laws::creation::intact(d),
        d.entries(p) is Ok,
        find_entry(d.entries(p)->Ok_0, name) is Some,
        on_device(d, d.chain(p)->Ok_0),
        ends_last(d, d.chain(p)->Ok_0),
    ensures
        ({
            let (d2, r) = d.delete_entry(p, name);
            let s = d.chain(p)->Ok_0;
            &&& r is Ok
            &&& touches(d, d2, Set::empty(), s.to_set())
            &&& d2.entries(p) == Ok::<Seq<DirentView>, ErrView>(
                without_first(d.entries(p)->Ok_0, name),
            )
            &&& d2.chain(p) == d.chain(p)
            &&& ends_last(d2, s)
            &&& on_device(d2, s)
        }),
{
    let n = DIRENT_SIZE as nat;
    let s = d.chain(p)->Ok_0;
    lemma_listing_in_range(d, p);
    lemma_find_slot(d, s, name, 0, 0);
    let (i, j) = d.find_slot(s, name, None, 0, 0)->Ok_0->Some_0;
    let raw = d.slot(s, i, j, n)->Ok_0;
    let mark = seq![DIRENT_DELETED];
    let gone = mark + raw.skip(1);
    lemma_slot_replaced(d, s, i, j, mark, gone);
    let d2 = d.delete_entry(p, name).0;
    lemma_replaced_listing(d, d2, s, name, i, j, gone, 0, 0);
    lemma_chain_kept(d, d2, s, Set::empty(), set![s[i]]);
    lemma_follow_chain(d2, s, (d.geo.total_clusters + 1) as nat);
    assert(s.to_set().contains(s[i]));
    lemma_touches_widen(d, d2, Set::empty(), set![s[i]], Set::empty(), s.to_set());
    lemma_on_device_kept(d, d2, s);
    assert forall|a: int, b: int|
        #![trigger d2.slot(s, a, b, n)]
        0 <= a < s.len() - 1 && 0 <= b < d2.geo.slots() implies !is_end_marker(
        d2.slot(s, a, b, n)->Ok_0[0],
    ) by {
        lemma_slot_readable(d, s, a, b, n);
        assert(!is_end_marker(d.slot(s, a, b, n)->Ok_0[0]));
        if !(a == i && b == j) {
            assert(d2.slot(s, a, b, n) == d.slot(s, a, b, n));
        }
    }
}

/// The layout without a chain.
pub open spec fn without_chain(l: Layout, h: u32) -> Layout {
    Layout { chains: l.chains.remove(h), dirs: l.dirs.remove(h) }
}

/// Freeing a chain all of whose entries are gone keeps a volume sound.
proof fn lemma_sound_freed(
    d: Disk,
    d1: Disk,
    d2: Disk,
    l: Layout,
    p: u32,
    name: Seq<char>,
    h: u32,
)
    requires
        sound(d, l),
        l.dirs.contains(p),
        l.chains.dom().contains(h),
        h != p,
        h != FIRST_CLUSTER,
        sole_entry(d, l, p, name, h),
        crate::laws::creation::intact(d2),
        touches(d, d1, l.chains[h].to_set(), Set::empty()),
        touches(d1, d2, Set::empty(), l.chains[p].to_set()),
        d2.entries(p) == Ok::<Seq<DirentView>, ErrView>(without_first(d.entries(p)->Ok_0, name)),
        ends_last(d2, l.chains[p]),
        on_device(d2, l.chains[p]),
    ensures
        sound(d2, without_chain(l, h)),
        forall|g: u32| #[trigger]
            l.dirs.contains(g) && g != p && g != h ==> d2.entries(g) == d.entries(g),
{
    let l2 = without_chain(l, h);
    let list = l.chains[h];
    let s = l.chains[p];
    lemma_touches_trans(d, d1, d2, list.to_set(), Set::empty(), Set::empty(), s.to_set());
    assert(list.to_set().union(Set::empty()) =~= list.to_set());
    assert(Set::<u32>::empty().union(s.to_set()) =~= s.to_set());
    assert(all_linkable(d2));
    assert forall|g: u32| l.chains.dom().contains(g) && g != h implies (forall|k: int|
        0 <= k < l.chains[g].len() ==> !list.to_set().contains(#[trigger] l.chains[g][k])) by {
        let t = l.chains[g];
        assert(disjoint(t, list));
        assert forall|k: int| 0 <= k < t.len() implies !list.to_set().contains(#[trigger] t[k]) by {
            if list.to_set().contains(t[k]) {
                let m = choose|m: int| 0 <= m < list.len() && list[m] == t[k];
                assert(t[k] != list[m]);
            }
        }
    }
    assert forall|g: u32|
        #![trigger l2.chains[g]]
        l2.chains.dom().contains(g) implies is_chain(d2, l2.chains[g]) && l2.chains[g][0] == g
        && crate::laws::chain_facts::all_in_range(d2.geo, l2.chains[g]) by {
        assert(l2.chains[g] == l.chains[g]);
        lemma_layout_chain(d, l, g);
        lemma_chain_kept(d, d2, l.chains[g], list.to_set(), s.to_set());
    }
    assert forall|g: u32, k: u32|
        #![trigger l2.chains[g], l2.chains[k]]
        l2.chains.dom().contains(g) && l2.chains.dom().contains(k) && g != k implies disjoint(
        l2.chains[g],
        l2.chains[k],
    ) by {
        assert(disjoint(l.chains[g], l.chains[k]));
    }
    assert forall|g: u32| #[trigger] l.dirs.contains(g) && g != p && g != h implies d2.entries(g)
        == d.entries(g) && ends_last(d2, l.chains[g]) && on_device(d2, l.chains[g]) by {
        assert(l.chains.dom().contains(g));
        let t = l.chains[g];
        assert(disjoint(t, s));
        assert forall|k: int| 0 <= k < t.len() implies !list.to_set().contains(#[trigger] t[k])
            && !s.to_set().contains(t[k]) by {
            if s.to_set().contains(t[k]) {
                let m = choose|m: int| 0 <= m < s.len() && s[m] == t[k];
                assert(t[k] != s[m]);
            }
        }
        lemma_directory_kept(d, d2, l, g, list.to_set(), s.to_set());
    }
    assert forall|g: u32| #[trigger] l2.dirs.contains(g) implies l2.chains.dom().contains(g)
        && directory_sound(d2, l2, g) by {
        assert(l.dirs.contains(g));
        assert(directory_sound(d, l, g));
        assert(l2.chains[g] == l.chains[g]);
        let after = d2.entries(g)->Ok_0;
        assert forall|k: int| 0 <= k < after.len() implies leads_into(l2, #[trigger] after[k]) by {
            let before = d.entries(g)->Ok_0;
            if g == p {
                lemma_without_members(before, name, k);
                lemma_absent_all(after, name, k);
                let m = choose|m: int| 0 <= m < before.len() && before[m] == after[k];
                assert(leads_into(l, before[m]));
                assert(d.entries(g)->Ok_0[m] == after[k]);
            } else {
                assert(leads_into(l, before[k]));
                assert(d.entries(g)->Ok_0[k] == after[k]);
            }
        }
    }
}

/// What is deleted on a sound volume is no longer found, its clusters are free, every other
/// directory is listed as before, and the volume stays sound: a file or an empty directory that
/// the way does not lead through, and that no other entry leads to.
pub proof fn lemma_deleted_soundly(d: Disk, l: Layout, path: Seq<char>)
    requires
        sound(d, l),
        name_of(path).len() > 0,
        d.resolve(path) is Ok,
        ({
            let e = d.resolve(path)->Ok_0;
            let p = d.resolve(parent_of(path))->Ok_0.first_cluster;
            &&& leads_into(l, e)
            &&& e.first_cluster != p
            &&& e.first_cluster != FIRST_CLUSTER
            &&& e.is_directory() ==> d.entries(e.first_cluster) == Ok::<Seq<DirentView>, ErrView>(
                seq![],
            )
            &&& sole_entry(d, l, p, name_of(path), e.first_cluster)
            &&& walk_apart(
                d,
                FIRST_CLUSTER,
                parts(parent_of(path)),
                0,
                l.chains[e.first_cluster],
            )
        }),
    ensures
        ({
            let (d2, r) = d.delete(path);
            let p = d.resolve(parent_of(path))->Ok_0.first_cluster;
            let h = d.resolve(path)->Ok_0.first_cluster;
            &&& r is Ok
            &&& d2.geo == d.geo
            &&& d2.resolve(path) == Err::<DirentView, ErrView>(
                ErrView::FileNotFound(name_of(path)),
            )
            &&& sound(d2, without_chain(l, h))
            &&& d2.entries(p) == Ok::<Seq<DirentView>, ErrView>(
                without_first(d.entries(p)->Ok_0, name_of(path)),
            )
            &&& forall|g: u32| #[trigger]
                l.dirs.contains(g) && g != p && g != h ==> d2.entries(g) == d.entries(g)
            &&& forall|k: int|
                0 <= k < l.chains[h].len() ==> d2.read_fat(#[trigger] l.chains[h][k]) == Ok::<
                    FatEntry,
                    ErrView,
                >(FatEntry::Free)
            &&& touches(d, d2, l.chains[h].to_set(), l.chains[p].to_set())
        }),
{
    let name = name_of(path);
    let names = parts(parent_of(path));
    let e = d.resolve(path)->Ok_0;
    let h = e.first_cluster;
    lemma_resolved_in_parent(d, path);
    let p = d.resolve(parent_of(path))->Ok_0.first_cluster;
    lemma_sound_directory(d, l, parent_of(path));
    lemma_layout_chain(d, l, h);
    lemma_directory_readable(d, l, p);
    lemma_layout_chain(d, l, p);
    lemma_sound_walk(d, l, FIRST_CLUSTER, names, 0, p);
    let list = l.chains[h];
    let s = l.chains[p];
    assert(disjoint(s, list));
    assert(stands_apart(d, path));
    assert forall|k: int| 0 <= k < list.len() implies #[trigger] list[k] <= d.geo.total_clusters by {
        assert(d.geo.in_range(list[k]));
    }
    lemma_free_all(d, list, 0);
    let d1 = d.free_all(list, 0).0;
    assert forall|k: int| 0 <= k < s.len() implies !list.to_set().contains(#[trigger] s[k]) by {
        if list.to_set().contains(s[k]) {
            let m = choose|m: int| 0 <= m < list.len() && list[m] == s[k];
            assert(s[k] != list[m]);
        }
    }
    lemma_directory_kept(d, d1, l, p, list.to_set(), Set::empty());
    lemma_marked(d1, p, name);
    let d2 = d1.delete_entry(p, name).0;
    assert(d.delete(path) == d1.delete_entry(p, name));
    lemma_intact_kept(d1, d2);
    lemma_sound_freed(d, d1, d2, l, p, name, h);
    law_deleted_is_gone(d, path);
}

/// On a sound volume a file that has been deleted is no longer found, every other directory
/// is listed as before, and the volume stays sound.
///
/// Left out are directories that hold the name a second time, and files that other entries
/// lead to as well.
pub proof fn law_file_deleted_soundly(d: Disk, l: Layout, path: Seq<char>)
    requires
        sound(d, l),
        name_of(path).len() > 0,
        d.resolve(path) is Ok,
        !d.resolve(path)->Ok_0.is_directory(),
        sole_entry(
            d,
            l,
            d.resolve(parent_of(path))->Ok_0.first_cluster,
            name_of(path),
            d.resolve(path)->Ok_0.first_cluster,
        ),
    ensures
        ({
            let (d2, r) = d.delete(path);
            let p = d.resolve(parent_of(path))->Ok_0.first_cluster;
            let h = d.resolve(path)->Ok_0.first_cluster;
            &&& r is Ok
            &&& d2.geo == d.geo
            &&& d2.resolve(path) == Err::<DirentView, ErrView>(
                ErrView::FileNotFound(name_of(path)),
            )
            &&& sound(d2, without_chain(l, h))
            &&& d2.entries(p) == Ok::<Seq<DirentView>, ErrView>(
                without_first(d.entries(p)->Ok_0, name_of(path)),
            )
            &&& forall|g: u32| #[trigger]
                l.dirs.contains(g) && g != p ==> d2.entries(g) == d.entries(g)
        }),
{
    let names = parts(parent_of(path));
    let h = d.resolve(path)->Ok_0.first_cluster;
    lemma_resolved_in_parent(d, path);
    lemma_sound_directory(d, l, parent_of(path));
    lemma_sound_target(d, l, path);
    lemma_layout_chain(d, l, h);
    lemma_sound_apart(d, l, FIRST_CLUSTER, names, 0, h);
    lemma_deleted_soundly(d, l, path);
}

} // verus!
