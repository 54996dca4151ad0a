//! Deleting a directory with all that is in it, on a sound volume whose directories form a tree.

use vstd::prelude::*;
use crate::disk::{find_entry, Disk};
use crate::error::ErrView;
use crate::laws::chain_facts::{disjoint, lemma_distinct_len};
use crate::laws::creation::lemma_resolve_path;
use crate::laws::dir_facts::free_set;
use crate::laws::frame::touches;
use crate::laws::keeping::lemma_file_kept;
use crate::laws::removal::{lemma_resolved_in_parent, walk_apart, without_first};
use crate::laws::sound_creation::{
    lemma_absent, lemma_sound_apart, lemma_sound_directory, lemma_sound_target,
};
use crate::laws::sound_removal::{lemma_deleted_soundly, sole_entry, without_chain};
use crate::laws::soundness::{
    leads_into, lemma_directory_readable, lemma_found_leads, lemma_layout_chain, sound, Layout,
};
use crate::path::{is_component, joined_path, lemma_joined_path, name_of, parent_of, parts};
use crate::text::same_name;
use crate::types::{DirentView, FatEntry, FIRST_CLUSTER};

verus! {

// ---------------------------------------------------------------------------
// Trees
// ---------------------------------------------------------------------------

/// The entries of a directory.
pub open spec fn listing(d: Disk, g: u32) -> Seq<DirentView> {
    d.entries(g)->Ok_0
}

/// An entry of the directory at `g` has a name that paths can hold, and leads one level down.
pub open spec fn hangs(e: DirentView, g: u32, level: spec_fn(u32) -> nat) -> bool {
    &&& is_component(e.filename())
    &&& e.first_cluster != FIRST_CLUSTER
    &&& e.is_directory() ==> level(e.first_cluster) == level(g) + 1
}

/// The directories of a sound volume form a tree: every directory is a level above those in it,
/// no two entries lead to the same chain, and no directory holds a name twice.
pub open spec fn is_tree(d: Disk, l: Layout, level: spec_fn(u32) -> nat) -> bool {
    &&& sound(d, l)
    &&& level(FIRST_CLUSTER) == 0
    &&& forall|g: u32, k: int|
        #![trigger l.dirs.contains(g), listing(d, g)[k]]
        l.dirs.contains(g) && 0 <= k < listing(d, g).len() ==> hangs(listing(d, g)[k], g, level)
    &&& forall|g: u32, k: int, g2: u32, k2: int|
        #![trigger listing(d, g)[k], listing(d, g2)[k2]]
        l.dirs.contains(g) && l.dirs.contains(g2) && 0 <= k < listing(d, g).len() && 0 <= k2
            < listing(d, g2).len() && listing(d, g)[k].first_cluster == listing(
            d,
            g2,
        )[k2].first_cluster ==> g == g2 && k == k2
    &&& forall|g: u32, k: int, k2: int|
        #![trigger listing(d, g)[k], listing(d, g)[k2]]
        l.dirs.contains(g) && 0 <= k < k2 < listing(d, g).len() ==> !same_name(
            listing(d, g)[k].filename(),
            listing(d, g)[k2].filename(),
        )
}

/// What is left of a listing without the first entry of a name.
proof fn lemma_without_remove(entries: Seq<DirentView>, name: Seq<char>) -> (m: int)
    requires
        find_entry(entries, name) is Some,
    ensures
        0 <= m < entries.len(),
        find_entry(entries, name) == Some(entries[m]),
        same_name(entries[m].filename(), name),
        without_first(entries, name) == entries.remove(m),
    decreases entries.len(),
{
    if same_name(entries[0].filename(), name) {
        assert(entries.drop_first() =~= entries.remove(0));
        0
    } else {
        let rest = entries.drop_first();
        let m = lemma_without_remove(rest, name);
        assert(seq![entries[0]] + rest.remove(m) =~= entries.remove(m + 1));
        m + 1
    }
}

/// In a tree the entry that a name leads to is the only one that leads there.
pub proof fn lemma_sole(d: Disk, l: Layout, level: spec_fn(u32) -> nat, p: u32, name: Seq<char>)
    requires
        is_tree(d, l, level),
        l.dirs.contains(p),
        find_entry(listing(d, p), name) is Some,
    ensures
        sole_entry(d, l, p, name, find_entry(listing(d, p), name)->Some_0.first_cluster),
{
    let es = listing(d, p);
    let m = lemma_without_remove(es, name);
    let h = es[m].first_cluster;
    assert forall|g: u32, k: int|
        #![trigger l.dirs.contains(g), d.entries(g)->Ok_0[k]]
        l.dirs.contains(g) && 0 <= k < d.entries(g)->Ok_0.len()
            && d.entries(g)->Ok_0[k].first_cluster == h implies g == p && same_name(
        d.entries(g)->Ok_0[k].filename(),
        name,
    ) by {
        assert(listing(d, g)[k].first_cluster == listing(d, p)[m].first_cluster);
    }
    let left = es.remove(m);
    assert forall|k: int| 0 <= k < left.len() implies !same_name(
        (#[trigger] left[k]).filename(),
        name,
    ) by {
        if k < m {
            assert(left[k] == es[k]);
            assert(!same_name(listing(d, p)[k].filename(), listing(d, p)[m].filename()));
        } else {
            assert(left[k] == es[k + 1]);
            assert(!same_name(listing(d, p)[m].filename(), listing(d, p)[k + 1].filename()));
        }
    }
    lemma_absent(left, name);
}

/// The way to a directory leads down, and not through a directory further down.
proof fn lemma_way_down(
    d: Disk,
    l: Layout,
    level: spec_fn(u32) -> nat,
    c: u32,
    names: Seq<Seq<char>>,
    i: int,
    h: u32,
)
    requires
        is_tree(d, l, level),
        l.dirs.contains(c),
        l.dirs.contains(h),
        0 <= i < names.len(),
        d.resolve_from(c, names, i) is Ok,
        d.resolve_from(c, names, i)->Ok_0.is_directory(),
        level(h) > level(d.resolve_from(c, names, i)->Ok_0.first_cluster),
    ensures
        level(d.resolve_from(c, names, i)->Ok_0.first_cluster) > level(c),
        walk_apart(d, c, names, i, l.chains[h]),
    decreases names.len() - i,
{
    lemma_directory_readable(d, l, c);
    lemma_directory_readable(d, l, h);
    let m = lemma_without_remove(listing(d, c), names[i]);
    let e = listing(d, c)[m];
    assert(hangs(e, c, level));
    lemma_found_leads(d, l, c, names[i]);
    if i + 1 < names.len() {
        lemma_way_down(d, l, level, e.first_cluster, names, i + 1, h);
    }
    assert(c != h);
    assert(disjoint(l.chains[c], l.chains[h]));
    reveal_with_fuel(walk_apart, 2);
}

/// The way to a directory is the same where the directories further up are listed as before.
pub proof fn lemma_way_same(
    d: Disk,
    d2: Disk,
    l: Layout,
    level: spec_fn(u32) -> nat,
    c: u32,
    names: Seq<Seq<char>>,
    i: int,
)
    requires
        is_tree(d, l, level),
        l.dirs.contains(c),
        0 <= i < names.len(),
        d.resolve_from(c, names, i) is Ok,
        d.resolve_from(c, names, i)->Ok_0.is_directory(),
        forall|g: u32| #[trigger]
            l.dirs.contains(g) && level(g) < level(
                d.resolve_from(c, names, i)->Ok_0.first_cluster,
            ) ==> d2.entries(g) == d.entries(g),
    ensures
        level(d.resolve_from(c, names, i)->Ok_0.first_cluster) > level(c),
        d2.resolve_from(c, names, i) == d.resolve_from(c, names, i),
    decreases names.len() - i,
{
    lemma_directory_readable(d, l, c);
    let m = lemma_without_remove(listing(d, c), names[i]);
    let e = listing(d, c)[m];
    assert(hangs(e, c, level));
    lemma_found_leads(d, l, c, names[i]);
    if i + 1 < names.len() {
        lemma_way_same(d, d2, l, level, e.first_cluster, names, i + 1);
    }
}

// ---------------------------------------------------------------------------
// What is cut off
// ---------------------------------------------------------------------------

/// Between `d` and `d2` some chains have been given up: their clusters are free, all other
/// files read as before, and every entry is still listed where it was, unless what it led to is
/// gone.
pub open spec fn pruned(d: Disk, d2: Disk, l: Layout, l2: Layout) -> bool {
    &&& forall|h: u32| #[trigger]
        l2.chains.dom().contains(h) ==> l.chains.dom().contains(h) && l2.chains[h] == l.chains[h]
            && (l2.dirs.contains(h) <==> l.dirs.contains(h))
    &&& forall|g: u32| #[trigger] l2.dirs.contains(g) ==> l.dirs.contains(g)
    &&& forall|c: u32| #[trigger] free_set(d).contains(c) ==> free_set(d2).contains(c)
    &&& forall|h: u32, k: int|
        #![trigger l.chains[h][k]]
        l.chains.dom().contains(h) && !l2.chains.dom().contains(h) && 0 <= k < l.chains[h].len()
            ==> free_set(d2).contains(l.chains[h][k])
    &&& forall|g: u32, k: int|
        #![trigger listing(d, g)[k]]
        l.dirs.contains(g) && 0 <= k < listing(d, g).len() ==> l2.dirs.contains(g) && listing(
            d2,
            g,
        ).contains(listing(d, g)[k]) || !l2.chains.dom().contains(listing(d, g)[k].first_cluster)
    &&& forall|x: DirentView|
        leads_into(l2, x) && d.read_file(x) is Ok ==> #[trigger] d2.read_file(x) == d.read_file(x)
}

/// Nothing given up.
proof fn lemma_pruned_none(d: Disk, l: Layout)
    requires
        forall|g: u32| #[trigger] l.dirs.contains(g) ==> l.chains.dom().contains(g),
    ensures
        pruned(d, d, l, l),
{
    assert forall|g: u32, k: int|
        #![trigger listing(d, g)[k]]
        l.dirs.contains(g) && 0 <= k < listing(d, g).len() implies listing(d, g).contains(
        listing(d, g)[k],
    ) by {}
}

/// Chains given up in two steps.
proof fn lemma_pruned_twice(d: Disk, d1: Disk, d2: Disk, l: Layout, l1: Layout, l2: Layout)
    requires
        pruned(d, d1, l, l1),
        pruned(d1, d2, l1, l2),
    ensures
        pruned(d, d2, l, l2),
{
    assert forall|h: u32| #[trigger] l2.chains.dom().contains(h) implies l.chains.dom().contains(h)
        && l2.chains[h] == l.chains[h] && (l2.dirs.contains(h) <==> l.dirs.contains(h)) by {
        assert(l1.chains.dom().contains(h));
    }
    assert forall|g: u32| #[trigger] l2.dirs.contains(g) implies l.dirs.contains(g) by {
        assert(l1.dirs.contains(g));
    }
    assert forall|c: u32| #[trigger] free_set(d).contains(c) implies free_set(d2).contains(c) by {
        assert(free_set(d1).contains(c));
    }
    assert forall|h: u32, k: int|
        #![trigger l.chains[h][k]]
        l.chains.dom().contains(h) && !l2.chains.dom().contains(h) && 0 <= k
            < l.chains[h].len() implies free_set(d2).contains(l.chains[h][k]) by {
        if l1.chains.dom().contains(h) {
            assert(l1.chains[h][k] == l.chains[h][k]);
        } else {
            assert(free_set(d1).contains(l.chains[h][k]));
        }
    }
    assert forall|g: u32, k: int|
        #![trigger listing(d, g)[k]]
        l.dirs.contains(g) && 0 <= k < listing(d, g).len() implies l2.dirs.contains(g) && listing(
        d2,
        g,
    ).contains(listing(d, g)[k]) || !l2.chains.dom().contains(listing(d, g)[k].first_cluster) by {
        let x = listing(d, g)[k];
        if l1.dirs.contains(g) && listing(d1, g).contains(x) {
            let m = choose|m: int| 0 <= m < listing(d1, g).len() && listing(d1, g)[m] == x;
            assert(listing(d1, g)[m] == x);
        } else {
            assert(!l1.chains.dom().contains(x.first_cluster));
        }
    }
    assert forall|x: DirentView| leads_into(l2, x) && d.read_file(x) is Ok implies
        #[trigger] d2.read_file(x) == d.read_file(x) by {
        assert(l2.chains.dom().contains(x.first_cluster));
        assert(leads_into(l1, x));
        assert(d1.read_file(x) == d.read_file(x));
    }
}

/// What the path led to is gone: it is no longer found, its directory is listed without it, and
/// every other directory that is left is listed as before. Only directories that are no further
/// up are gone with it.
pub open spec fn cut_off(
    d: Disk,
    d2: Disk,
    l: Layout,
    l2: Layout,
    level: spec_fn(u32) -> nat,
    path: Seq<char>,
) -> bool {
    let e = d.resolve(path)->Ok_0;
    let p = d.resolve(parent_of(path))->Ok_0.first_cluster;
    &&& is_tree(d2, l2, level)
    &&& d2.geo == d.geo
    &&& pruned(d, d2, l, l2)
    &&& !l2.chains.dom().contains(e.first_cluster)
    &&& d2.resolve(path) == Err::<DirentView, ErrView>(ErrView::FileNotFound(name_of(path)))
    &&& d2.entries(p) == Ok::<Seq<DirentView>, ErrView>(
        without_first(listing(d, p), name_of(path)),
    )
    &&& forall|g: u32| #[trigger] l2.dirs.contains(g) && g != p ==> d2.entries(g) == d.entries(g)
    &&& forall|g: u32| #[trigger]
        l.dirs.contains(g) && !l2.dirs.contains(g) ==> e.is_directory() && level(g) >= level(
            e.first_cluster,
        )
}

/// A tree stays one when an entry and its chain are gone.
proof fn lemma_tree_left(
    d: Disk,
    d2: Disk,
    l: Layout,
    level: spec_fn(u32) -> nat,
    p: u32,
    m: int,
    h: u32,
)
    requires
        is_tree(d, l, level),
        l.dirs.contains(p),
        h != p,
        0 <= m < listing(d, p).len(),
        sound(d2, without_chain(l, h)),
        d2.geo == d.geo,
        d2.entries(p) == Ok::<Seq<DirentView>, ErrView>(listing(d, p).remove(m)),
        forall|g: u32| #[trigger]
            l.dirs.contains(g) && g != p && g != h ==> d2.entries(g) == d.entries(g),
    ensures
        is_tree(d2, without_chain(l, h), level),
{
    let l2 = without_chain(l, h);
    let before = |g: u32, k: int| if g == p && k >= m { k + 1 } else { k };
    assert forall|g: u32, k: int|
        #![trigger listing(d2, g)[k]]
        l2.dirs.contains(g) && 0 <= k < listing(d2, g).len() implies l.dirs.contains(g) && 0
        <= before(g, k) < listing(d, g).len() && listing(d2, g)[k] == listing(d, g)[before(
        g,
        k,
    )] by {
        assert(l.dirs.contains(g));
    }
    assert forall|g: u32, k: int|
        #![trigger l2.dirs.contains(g), listing(d2, g)[k]]
        l2.dirs.contains(g) && 0 <= k < listing(d2, g).len() implies hangs(
        listing(d2, g)[k],
        g,
        level,
    ) by {
        assert(hangs(listing(d, g)[before(g, k)], g, level));
    }
    assert forall|g: u32, k: int, g2: u32, k2: int|
        #![trigger listing(d2, g)[k], listing(d2, g2)[k2]]
        l2.dirs.contains(g) && l2.dirs.contains(g2) && 0 <= k < listing(d2, g).len() && 0 <= k2
            < listing(d2, g2).len() && listing(d2, g)[k].first_cluster == listing(
            d2,
            g2,
        )[k2].first_cluster implies g == g2 && k == k2 by {
        assert(listing(d, g)[before(g, k)].first_cluster == listing(d, g2)[before(
            g2,
            k2,
        )].first_cluster);
    }
    assert forall|g: u32, k: int, k2: int|
        #![trigger listing(d2, g)[k], listing(d2, g)[k2]]
        l2.dirs.contains(g) && 0 <= k < k2 < listing(d2, g).len() implies !same_name(
        listing(d2, g)[k].filename(),
        listing(d2, g)[k2].filename(),
    ) by {
        assert(!same_name(
            listing(d, g)[before(g, k)].filename(),
            listing(d, g)[before(g, k2)].filename(),
        ));
    }
}

/// Giving up one chain and its entry.
proof fn lemma_pruned_one(d: Disk, d2: Disk, l: Layout, p: u32, m: int, h: u32)
    requires
        sound(d, l),
        l.dirs.contains(p),
        l.chains.dom().contains(h),
        h != p,
        0 <= m < listing(d, p).len(),
        listing(d, p)[m].first_cluster == h,
        l.dirs.contains(h) ==> listing(d, h).len() == 0,
        touches(d, d2, l.chains[h].to_set(), l.chains[p].to_set()),
        forall|k: int|
            0 <= k < l.chains[h].len() ==> d2.read_fat(#[trigger] l.chains[h][k]) == Ok::<
                FatEntry,
                ErrView,
            >(FatEntry::Free),
        d2.entries(p) == Ok::<Seq<DirentView>, ErrView>(listing(d, p).remove(m)),
        forall|g: u32| #[trigger]
            l.dirs.contains(g) && g != p && g != h ==> d2.entries(g) == d.entries(g),
    ensures
        pruned(d, d2, l, without_chain(l, h)),
{
    let l2 = without_chain(l, h);
    let list = l.chains[h];
    let s = l.chains[p];
    lemma_layout_chain(d, l, h);
    lemma_layout_chain(d, l, p);
    assert forall|c: u32| #[trigger] free_set(d).contains(c) implies free_set(d2).contains(c) by {
        if list.to_set().contains(c) {
            let k = choose|k: int| 0 <= k < list.len() && list[k] == c;
            assert(d2.read_fat(list[k]) == Ok::<FatEntry, ErrView>(FatEntry::Free));
        } else {
            assert(d2.read_fat(c) == d.read_fat(c));
        }
    }
    assert forall|g: u32, k: int|
        #![trigger l.chains[g][k]]
        l.chains.dom().contains(g) && !l2.chains.dom().contains(g) && 0 <= k
            < l.chains[g].len() implies free_set(d2).contains(l.chains[g][k]) by {
        assert(g == h);
        assert(d.geo.in_range(list[k]));
        assert(d2.read_fat(list[k]) == Ok::<FatEntry, ErrView>(FatEntry::Free));
    }
    assert forall|g: u32, k: int|
        #![trigger listing(d, g)[k]]
        l.dirs.contains(g) && 0 <= k < listing(d, g).len() implies l2.dirs.contains(g) && listing(
        d2,
        g,
    ).contains(listing(d, g)[k]) || !l2.chains.dom().contains(listing(d, g)[k].first_cluster) by {
        let x = listing(d, g)[k];
        if x.first_cluster != h {
            assert(g != h);
            let at = if g == p && k > m { k - 1 } else { k };
            assert(listing(d2, g)[at] == x);
        }
    }
    assert forall|x: DirentView| leads_into(l2, x) && d.read_file(x) is Ok implies
        #[trigger] d2.read_file(x) == d.read_file(x) by {
        let g = x.first_cluster;
        assert(l.chains.dom().contains(g));
        assert(l2.dirs.contains(p));
        assert(g != p && g != h);
        lemma_layout_chain(d, l, g);
        let t = l.chains[g];
        assert(disjoint(t, list));
        assert(disjoint(t, s));
        assert forall|k: int| 0 <= k < t.len() implies !list.to_set().contains(#[trigger] t[k])
            && !s.to_set().contains(t[k]) by {
            if list.to_set().contains(t[k]) {
                let j = choose|j: int| 0 <= j < list.len() && list[j] == t[k];
                assert(t[k] != list[j]);
            }
            if s.to_set().contains(t[k]) {
                let j = choose|j: int| 0 <= j < s.len() && s[j] == t[k];
                assert(t[k] != s[j]);
            }
        }
        lemma_file_kept(d, d2, x, list.to_set(), s.to_set());
    }
}

/// A file or an empty directory is cut off by deleting it.
proof fn lemma_one_cut(d: Disk, l: Layout, level: spec_fn(u32) -> nat, path: Seq<char>)
    requires
        is_tree(d, l, level),
        name_of(path).len() > 0,
        d.resolve(path) is Ok,
        d.resolve(path)->Ok_0.is_directory() ==> d.entries(d.resolve(path)->Ok_0.first_cluster)
            == Ok::<Seq<DirentView>, ErrView>(seq![]),
    ensures
        d.delete(path).1 is Ok,
        cut_off(
            d,
            d.delete(path).0,
            l,
            without_chain(l, d.resolve(path)->Ok_0.first_cluster),
            level,
            path,
        ),
{
    let name = name_of(path);
    let names = parts(parent_of(path));
    let e = d.resolve(path)->Ok_0;
    let h = e.first_cluster;
    lemma_resolved_in_parent(d, path);
    let p = d.resolve(parent_of(path))->Ok_0.first_cluster;
    lemma_sound_directory(d, l, parent_of(path));
    lemma_directory_readable(d, l, p);
    let m = lemma_without_remove(listing(d, p), name);
    assert(hangs(listing(d, p)[m], p, level));
    lemma_found_leads(d, l, p, name);
    lemma_sole(d, l, level, p, name);
    if e.is_directory() {
        if names.len() > 0 {
            lemma_way_down(d, l, level, FIRST_CLUSTER, names, 0, h);
        }
    } else {
        lemma_sound_apart(d, l, FIRST_CLUSTER, names, 0, h);
    }
    assert(h != p);
    lemma_deleted_soundly(d, l, path);
    let d2 = d.delete(path).0;
    lemma_tree_left(d, d2, l, level, p, m, h);
    lemma_pruned_one(d, d2, l, p, m, h);
}

// ---------------------------------------------------------------------------
// Whole trees
// ---------------------------------------------------------------------------

/// The directory that the path leads to is empty, every other directory that is left is listed
/// as before, and only directories further down are gone.
spec fn cleared(
    d: Disk,
    d2: Disk,
    l: Layout,
    l2: Layout,
    level: spec_fn(u32) -> nat,
    path: Seq<char>,
) -> bool {
    let h = d.resolve(path)->Ok_0.first_cluster;
    &&& is_tree(d2, l2, level)
    &&& d2.geo == d.geo
    &&& pruned(d, d2, l, l2)
    &&& l2.dirs.contains(h)
    &&& d2.entries(h) == Ok::<Seq<DirentView>, ErrView>(seq![])
    &&& forall|g: u32| #[trigger] l2.dirs.contains(g) && g != h ==> d2.entries(g) == d.entries(g)
    &&& forall|g: u32| #[trigger]
        l.dirs.contains(g) && !l2.dirs.contains(g) ==> level(g) > level(h)
}

/// The directories on the way, from the root directory down to `c`.
spec fn way_to(l: Layout, level: spec_fn(u32) -> nat, c: u32, way: Seq<u32>) -> bool {
    &&& way.len() == level(c) + 1
    &&& way.last() == c
    &&& forall|k: int|
        0 <= k < way.len() ==> l.dirs.contains(#[trigger] way[k]) && level(way[k]) == k
}

/// There is a directory at every level above one that a path leads to.
proof fn lemma_way_exists(
    d: Disk,
    l: Layout,
    level: spec_fn(u32) -> nat,
    c: u32,
    names: Seq<Seq<char>>,
    i: int,
    way: Seq<u32>,
) -> (longer: Seq<u32>)
    requires
        is_tree(d, l, level),
        l.dirs.contains(c),
        way_to(l, level, c, way),
        0 <= i < names.len(),
        d.resolve_from(c, names, i) is Ok,
        d.resolve_from(c, names, i)->Ok_0.is_directory(),
    ensures
        way_to(l, level, d.resolve_from(c, names, i)->Ok_0.first_cluster, longer),
    decreases names.len() - i,
{
    lemma_directory_readable(d, l, c);
    let m = lemma_without_remove(listing(d, c), names[i]);
    let e = listing(d, c)[m];
    assert(hangs(e, c, level));
    lemma_found_leads(d, l, c, names[i]);
    let next = way.push(e.first_cluster);
    assert(e.is_directory());
    assert(way_to(l, level, e.first_cluster, next)) by {
        assert forall|k: int| 0 <= k < next.len() implies l.dirs.contains(#[trigger] next[k])
            && level(next[k]) == k by {
            if k < way.len() {
                assert(next[k] == way[k]);
            }
        }
    }
    if i + 1 < names.len() {
        lemma_way_exists(d, l, level, e.first_cluster, names, i + 1, next)
    } else {
        next
    }
}

/// No path leads to a level further down than there are clusters.
proof fn lemma_level_bound(d: Disk, l: Layout, level: spec_fn(u32) -> nat, path: Seq<char>)
    requires
        is_tree(d, l, level),
        d.resolve(path) is Ok,
        d.resolve(path)->Ok_0.is_directory(),
    ensures
        level(d.resolve(path)->Ok_0.first_cluster) < d.geo.total_clusters,
{
    let names = parts(path);
    let h = d.resolve(path)->Ok_0.first_cluster;
    let root = seq![FIRST_CLUSTER];
    assert(way_to(l, level, FIRST_CLUSTER, root));
    let way = if names.len() > 0 {
        lemma_way_exists(d, l, level, FIRST_CLUSTER, names, 0, root)
    } else {
        root
    };
    assert(way_to(l, level, h, way));
    assert(way.no_duplicates()) by {
        assert forall|a: int, b: int| 0 <= a < way.len() && 0 <= b < way.len() && a != b implies
            way[a] != way[b] by {
            assert(level(way[a]) == a && level(way[b]) == b);
        }
    }
    assert forall|k: int| 0 <= k < way.len() implies d.geo.in_range(#[trigger] way[k]) by {
        assert(l.dirs.contains(way[k]));
        lemma_directory_readable(d, l, way[k]);
        lemma_layout_chain(d, l, way[k]);
    }
    lemma_distinct_len(d.geo, way);
}

/// A path to a directory leads there still when only directories that are no further up have
/// changed.
proof fn lemma_path_kept(
    d: Disk,
    d2: Disk,
    l: Layout,
    l2: Layout,
    level: spec_fn(u32) -> nat,
    path: Seq<char>,
    h: u32,
)
    requires
        is_tree(d, l, level),
        d.resolve(path) is Ok,
        d.resolve(path)->Ok_0.is_directory(),
        level(h) >= level(d.resolve(path)->Ok_0.first_cluster),
        forall|g: u32| #[trigger]
            l2.dirs.contains(g) && g != h ==> d2.entries(g) == d.entries(g),
        forall|g: u32| #[trigger]
            l.dirs.contains(g) && !l2.dirs.contains(g) ==> level(g) > level(h),
    ensures
        d2.resolve(path) == d.resolve(path),
{
    let names = parts(path);
    if names.len() > 0 {
        assert forall|g: u32| #[trigger]
            l.dirs.contains(g) && level(g) < level(d.resolve(path)->Ok_0.first_cluster) implies
            d2.entries(g) == d.entries(g) by {
            assert(l2.dirs.contains(g));
        }
        lemma_way_same(d, d2, l, level, FIRST_CLUSTER, names, 0);
    }
}

/// The first entry of a directory is found under its path.
proof fn lemma_first_child(d: Disk, l: Layout, path: Seq<char>, e: DirentView)
    requires
        sound(d, l),
        d.resolve(path) is Ok,
        d.resolve(path)->Ok_0.is_directory(),
        d.entries(d.resolve(path)->Ok_0.first_cluster) is Ok,
        listing(d, d.resolve(path)->Ok_0.first_cluster).len() > 0,
        listing(d, d.resolve(path)->Ok_0.first_cluster)[0] == e,
        is_component(e.filename()),
    ensures
        ({
            let child = joined_path(path, e.filename());
            &&& name_of(child) == e.filename()
            &&& d.resolve(parent_of(child)) == d.resolve(path)
            &&& d.resolve(child) == Ok::<DirentView, ErrView>(e)
        }),
{
    lemma_joined_path(path, e.filename());
    lemma_resolve_path(d, joined_path(path, e.filename()));
}

/// The volume is a tree; kept shut, since it says so much.
#[verifier::opaque]
spec fn tree(d: Disk, l: Layout, level: spec_fn(u32) -> nat) -> bool {
    is_tree(d, l, level)
}

/// What the path led to is cut off; kept shut, as [`tree`] is.
#[verifier::opaque]
spec fn cut(
    d: Disk,
    d2: Disk,
    l: Layout,
    l2: Layout,
    level: spec_fn(u32) -> nat,
    path: Seq<char>,
) -> bool {
    cut_off(d, d2, l, l2, level, path)
}

/// The directory is cleared; kept shut, as [`tree`] is.
#[verifier::opaque]
spec fn clear(
    d: Disk,
    d2: Disk,
    l: Layout,
    l2: Layout,
    level: spec_fn(u32) -> nat,
    path: Seq<char>,
) -> bool {
    cleared(d, d2, l, l2, level, path)
}

/// An empty directory is cleared.
proof fn lemma_clear_already(d: Disk, l: Layout, level: spec_fn(u32) -> nat, path: Seq<char>)
    requires
        tree(d, l, level),
        d.resolve(path) is Ok,
        d.resolve(path)->Ok_0.is_directory(),
        d.entries(d.resolve(path)->Ok_0.first_cluster) == Ok::<Seq<DirentView>, ErrView>(seq![]),
    ensures
        clear(d, d, l, l, level, path),
{
    reveal(tree);
    reveal(clear);
    lemma_sound_directory(d, l, path);
    lemma_pruned_none(d, l);
}

/// The first of the entries that are left in a directory can be cut off.
proof fn lemma_next_child(
    d: Disk,
    l: Layout,
    level: spec_fn(u32) -> nat,
    path: Seq<char>,
    es: Seq<DirentView>,
    i: int,
)
    requires
        tree(d, l, level),
        d.resolve(path) is Ok,
        d.resolve(path)->Ok_0.is_directory(),
        0 <= i < es.len(),
        d.entries(d.resolve(path)->Ok_0.first_cluster) == Ok::<Seq<DirentView>, ErrView>(es.skip(i)),
    ensures
        ({
            let e = es[i];
            let h = d.resolve(path)->Ok_0.first_cluster;
            let child = joined_path(path, e.filename());
            &&& name_of(child) == e.filename()
            &&& name_of(child).len() > 0
            &&& d.resolve(parent_of(child)) == d.resolve(path)
            &&& d.resolve(child) == Ok::<DirentView, ErrView>(e)
            &&& e.is_directory() ==> level(e.first_cluster) == level(h) + 1
        }),
{
    reveal(tree);
    let h = d.resolve(path)->Ok_0.first_cluster;
    lemma_sound_directory(d, l, path);
    assert(listing(d, h)[0] == es[i]);
    assert(hangs(listing(d, h)[0], h, level));
    lemma_first_child(d, l, path, es[i]);
}

/// Once an entry has been cut off, the rest of its directory is left.
proof fn lemma_after_child(
    d: Disk,
    d1: Disk,
    l: Layout,
    l1: Layout,
    level: spec_fn(u32) -> nat,
    path: Seq<char>,
    es: Seq<DirentView>,
    i: int,
)
    requires
        tree(d, l, level),
        d.resolve(path) is Ok,
        d.resolve(path)->Ok_0.is_directory(),
        0 <= i < es.len(),
        d.entries(d.resolve(path)->Ok_0.first_cluster) == Ok::<Seq<DirentView>, ErrView>(es.skip(i)),
        cut(d, d1, l, l1, level, joined_path(path, es[i].filename())),
    ensures
        tree(d1, l1, level),
        d1.geo == d.geo,
        d1.resolve(path) == d.resolve(path),
        d1.entries(d.resolve(path)->Ok_0.first_cluster) == Ok::<Seq<DirentView>, ErrView>(
            es.skip(i + 1),
        ),
{
    lemma_next_child(d, l, level, path, es, i);
    reveal(tree);
    reveal(cut);
    let h = d.resolve(path)->Ok_0.first_cluster;
    lemma_sound_directory(d, l, path);
    assert(es.skip(i)[0] == es[i]);
    assert(without_first(es.skip(i), es[i].filename()) =~= es.skip(i + 1));
    lemma_path_kept(d, d1, l, l1, level, path, h);
}

/// A directory from which an entry is cut off, and which is cleared then, is cleared.
proof fn lemma_cleared_on(
    d: Disk,
    d1: Disk,
    d2: Disk,
    l: Layout,
    l1: Layout,
    l2: Layout,
    level: spec_fn(u32) -> nat,
    path: Seq<char>,
    child: Seq<char>,
)
    requires
        cut(d, d1, l, l1, level, child),
        d.resolve(parent_of(child)) == d.resolve(path),
        d.resolve(child)->Ok_0.is_directory() ==> level(d.resolve(child)->Ok_0.first_cluster)
            > level(d.resolve(path)->Ok_0.first_cluster),
        d1.resolve(path) == d.resolve(path),
        clear(d1, d2, l1, l2, level, path),
    ensures
        clear(d, d2, l, l2, level, path),
{
    reveal(cut);
    reveal(clear);
    let h = d.resolve(path)->Ok_0.first_cluster;
    lemma_pruned_twice(d, d1, d2, l, l1, l2);
    assert forall|g: u32| #[trigger] l2.dirs.contains(g) && g != h implies d2.entries(g)
        == d.entries(g) by {
        assert(l1.dirs.contains(g));
    }
    assert forall|g: u32| #[trigger] l.dirs.contains(g) && !l2.dirs.contains(g) implies level(g)
        > level(h) by {
        if l1.dirs.contains(g) {
            assert(level(g) > level(h));
        }
    }
}

/// A directory that has been cleared is cut off by deleting it.
proof fn lemma_cleared_cut(
    d: Disk,
    d1: Disk,
    l: Layout,
    l1: Layout,
    level: spec_fn(u32) -> nat,
    path: Seq<char>,
) -> (l2: Layout)
    requires
        tree(d, l, level),
        name_of(path).len() > 0,
        d.resolve(path) is Ok,
        d.resolve(path)->Ok_0.is_directory(),
        clear(d, d1, l, l1, level, path),
    ensures
        d1.delete(path).1 is Ok,
        cut(d, d1.delete(path).0, l, l2, level, path),
{
    reveal(tree);
    reveal(cut);
    reveal(clear);
    let h = d.resolve(path)->Ok_0.first_cluster;
    lemma_resolved_in_parent(d, path);
    let p = d.resolve(parent_of(path))->Ok_0.first_cluster;
    lemma_sound_directory(d, l, parent_of(path));
    lemma_directory_readable(d, l, p);
    let m = lemma_without_remove(listing(d, p), name_of(path));
    assert(hangs(listing(d, p)[m], p, level));
    lemma_path_kept(d, d1, l, l1, level, path, h);
    lemma_path_kept(d, d1, l, l1, level, parent_of(path), h);
    lemma_one_cut(d1, l1, level, path);
    let d2 = d1.delete(path).0;
    let l2 = without_chain(l1, h);
    lemma_pruned_twice(d, d1, d2, l, l1, l2);
    assert(l1.dirs.contains(p));
    assert(d1.entries(p) == d.entries(p));
    assert forall|g: u32| #[trigger] l2.dirs.contains(g) && g != p implies d2.entries(g)
        == d.entries(g) by {
        assert(l1.dirs.contains(g) && g != h);
    }
    assert forall|g: u32| #[trigger] l.dirs.contains(g) && !l2.dirs.contains(g) implies level(g)
        >= level(h) by {
        if l1.dirs.contains(g) {
            assert(g == h);
        }
    }
    l2
}

/// A tree is cut off by deleting all that is in it, and then its top.
proof fn lemma_tree_cut(
    d: Disk,
    l: Layout,
    level: spec_fn(u32) -> nat,
    path: Seq<char>,
    depth: nat,
) -> (l2: Layout)
    requires
        tree(d, l, level),
        name_of(path).len() > 0,
        d.resolve(path) is Ok,
        d.resolve(path)->Ok_0.is_directory() ==> d.geo.total_clusters <= depth + level(
            d.resolve(path)->Ok_0.first_cluster,
        ),
    ensures
        d.delete_tree(path, depth).1 is Ok,
        cut(d, d.delete_tree(path, depth).0, l, l2, level, path),
    decreases depth, 0int, 0int,
{
    let e = d.resolve(path)->Ok_0;
    let h = e.first_cluster;
    if !e.is_directory() {
        reveal(tree);
        reveal(cut);
        lemma_one_cut(d, l, level, path);
        without_chain(l, h)
    } else {
        assert(d.entries(h) is Ok) by {
            reveal(tree);
            lemma_sound_directory(d, l, path);
            lemma_directory_readable(d, l, h);
        }
        assert(depth > 0) by {
            reveal(tree);
            lemma_level_bound(d, l, level, path);
        }
        let es = listing(d, h);
        assert(es.skip(0) =~= es);
        let l1 = lemma_children_cut(d, l, level, path, es, 0, (depth - 1) as nat);
        let d1 = d.delete_children(path, es, 0, (depth - 1) as nat).0;
        assert(d.delete_tree(path, depth) == d1.delete(path));
        lemma_cleared_cut(d, d1, l, l1, level, path)
    }
}

/// A directory is cleared by cutting off its entries one by one.
proof fn lemma_children_cut(
    d: Disk,
    l: Layout,
    level: spec_fn(u32) -> nat,
    path: Seq<char>,
    es: Seq<DirentView>,
    i: int,
    depth: nat,
) -> (l2: Layout)
    requires
        tree(d, l, level),
        d.resolve(path) is Ok,
        d.resolve(path)->Ok_0.is_directory(),
        d.geo.total_clusters <= depth + level(d.resolve(path)->Ok_0.first_cluster) + 1,
        0 <= i <= es.len(),
        d.entries(d.resolve(path)->Ok_0.first_cluster) == Ok::<Seq<DirentView>, ErrView>(es.skip(i)),
    ensures
        d.delete_children(path, es, i, depth).1 is Ok,
        clear(d, d.delete_children(path, es, i, depth).0, l, l2, level, path),
    decreases depth, 1int, es.len() - i,
{
    if i >= es.len() {
        assert(es.skip(i) =~= seq![]);
        lemma_clear_already(d, l, level, path);
        l
    } else {
        let child = joined_path(path, es[i].filename());
        lemma_next_child(d, l, level, path, es, i);
        let l1 = lemma_tree_cut(d, l, level, child, depth);
        let d1 = d.delete_tree(child, depth).0;
        lemma_after_child(d, d1, l, l1, level, path, es, i);
        let l2 = lemma_children_cut(d1, l1, level, path, es, i + 1, depth);
        let d2 = d1.delete_children(path, es, i + 1, depth).0;
        assert(d.delete_children(path, es, i, depth) == d1.delete_children(path, es, i + 1, depth));
        lemma_cleared_on(d, d1, d2, l, l1, l2, level, path, child);
        l2
    }
}

/// On a sound volume whose directories form a tree, deleting a directory with all that is in it
/// succeeds, however deep it is, and so does deleting a file this way. The path leads nowhere
/// then. The clusters of everything that was below are free, everything else is listed where it
/// was and reads as it did, and the volume is sound and a tree. The layout that it has then is
/// given.
pub proof fn law_tree_deleted_soundly(
    d: Disk,
    l: Layout,
    level: spec_fn(u32) -> nat,
    path: Seq<char>,
) -> (l2: Layout)
    requires
        is_tree(d, l, level),
        name_of(path).len() > 0,
        d.resolve(path) is Ok,
    ensures
        d.delete_recursive(path).1 is Ok,
        cut_off(d, d.delete_recursive(path).0, l, l2, level, path),
{
    if d.resolve(path)->Ok_0.is_directory() {
        lemma_sound_directory(d, l, path);
    }
    reveal(tree);
    reveal(cut);
    lemma_tree_cut(d, l, level, path, d.geo.total_clusters as nat)
}

} // verus!
