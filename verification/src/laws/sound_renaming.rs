//! Renaming on a sound volume: only the name changes, and the volume stays sound, and a tree if
//! it was one.

use vstd::prelude::*;
use crate::disk::{find_entry, renamed_bytes, validate_name, Disk};
use crate::error::ErrView;
use crate::laws::chain_facts::{all_in_range, disjoint, is_chain, lemma_chain_kept};
use crate::laws::creation::{intact, lemma_intact_kept, lemma_resolve_path};
use crate::laws::dir_facts::lemma_listing_in_range;
use crate::laws::frame::touches;
use crate::laws::keeping::lemma_file_kept;
use crate::laws::removal::{
    lemma_find_gone, lemma_find_slot, lemma_rename_in, lemma_renamed_bytes,
    lemma_resolved_in_parent, lemma_slot_replaced, renamed, with_first_replaced,
};
use crate::laws::sound_creation::{lemma_absent_all, lemma_sound_directory};
use crate::laws::sound_trees::{hangs, is_tree, lemma_sole, lemma_way_same, listing};
use crate::laws::soundness::{
    all_linkable, directory_sound, ends_last, leads_into, lemma_directory_kept,
    lemma_directory_readable, lemma_found_leads, lemma_layout_chain, lemma_on_device_kept,
    lemma_slot_readable, on_device, sound, Layout,
};
use crate::laws::tree_growth::lemma_name_is_component;
use crate::path::{name_of, parent_of, parts};
use crate::text::same_name;
use crate::types::{is_end_marker, DirentView, DIRENT_SIZE, FIRST_CLUSTER};

verus! {

/// Replacing the first entry of a name is replacing the entry that is found.
pub proof fn lemma_replaced_update(entries: Seq<DirentView>, name: Seq<char>, e: DirentView) -> (m: int)
    requires
        find_entry(entries, name) is Some,
    ensures
        0 <= m < entries.len(),
        find_entry(entries, name) == Some(entries[m]),
        with_first_replaced(entries, name, e) == entries.update(m, e),
    decreases entries.len(),
{
    if same_name(entries[0].filename(), name) {
        assert(seq![e] + entries.drop_first() =~= entries.update(0, e));
        0
    } else {
        let rest = entries.drop_first();
        let m = lemma_replaced_update(rest, name, e);
        assert(seq![entries[0]] + rest.update(m, e) =~= entries.update(m + 1, e));
        m + 1
    }
}

/// Renaming keeps the end of the directory in its last cluster.
proof fn lemma_renamed_end(d: Disk, p: u32, from: Seq<char>, to: Seq<char>)
    requires
        intact(d),
        d.entries(p) is Ok,
        validate_name(to) is Ok,
        d.rename_in(d.chain(p)->Ok_0, from, to).1 is Ok,
        on_device(d, d.chain(p)->Ok_0),
        ends_last(d, d.chain(p)->Ok_0),
    ensures
        ends_last(d.rename_in(d.chain(p)->Ok_0, from, to).0, d.chain(p)->Ok_0),
{
    let n = DIRENT_SIZE as nat;
    let s = d.chain(p)->Ok_0;
    lemma_listing_in_range(d, p);
    lemma_find_slot(d, s, from, 0, 0);
    let (i, j) = d.find_slot(s, from, None, 0, 0)->Ok_0->Some_0;
    let raw = d.slot(s, i, j, n)->Ok_0;
    let new_raw = renamed_bytes(raw, to);
    lemma_renamed_bytes(d.geo.big_endian, raw, to);
    assert(new_raw =~= new_raw + raw.skip(new_raw.len() as int));
    lemma_slot_replaced(d, s, i, j, new_raw, new_raw);
    let d2 = d.rename_in(s, from, to).0;
    assert forall|a: int, b: int|
        #![trigger d2.slot(s, a, b, n)]
        0 <= a < s.len() - 1 && 0 <= b < d2.geo.slots() implies !is_end_marker(
        d2.slot(s, a, b, n)->Ok_0[0],
    ) by {
        lemma_slot_readable(d, s, a, b, n);
        assert(!is_end_marker(d.slot(s, a, b, n)->Ok_0[0]));
        if !(a == i && b == j) {
            assert(d2.slot(s, a, b, n) == d.slot(s, a, b, n));
        }
    }
}

/// A chain of the layout holds no cluster of another one.
proof fn lemma_outside(d: Disk, l: Layout, g: u32, p: u32)
    requires
        sound(d, l),
        l.chains.dom().contains(g),
        l.chains.dom().contains(p),
        g != p,
    ensures
        forall|k: int|
            0 <= k < l.chains[g].len() ==> !l.chains[p].to_set().contains(
                #[trigger] l.chains[g][k],
            ),
{
    let t = l.chains[g];
    let s = l.chains[p];
    assert(disjoint(t, s));
    assert forall|k: int| 0 <= k < t.len() implies !s.to_set().contains(#[trigger] t[k]) by {
        if s.to_set().contains(t[k]) {
            let m = choose|m: int| 0 <= m < s.len() && s[m] == t[k];
            assert(t[k] != s[m]);
        }
    }
}

/// Replacing an entry by one that leads to the same chain keeps a volume sound, lists every
/// other directory as before, and leaves every file as it was.
pub proof fn lemma_entry_replaced(
    d: Disk,
    d2: Disk,
    l: Layout,
    p: u32,
    name: Seq<char>,
    e: DirentView,
)
    requires
        sound(d, l),
        l.dirs.contains(p),
        touches(d, d2, Set::empty(), l.chains[p].to_set()),
        find_entry(d.entries(p)->Ok_0, name) is Some,
        e.first_cluster == find_entry(d.entries(p)->Ok_0, name)->Some_0.first_cluster,
        e.is_directory() == find_entry(d.entries(p)->Ok_0, name)->Some_0.is_directory(),
        d2.entries(p) == Ok::<Seq<DirentView>, ErrView>(
            with_first_replaced(d.entries(p)->Ok_0, name, e),
        ),
        ends_last(d2, l.chains[p]),
    ensures
        sound(d2, l),
        forall|g: u32| #[trigger] l.dirs.contains(g) && g != p ==> d2.entries(g) == d.entries(g),
        forall|x: DirentView|
            leads_into(l, x) && !x.is_directory() && d.read_file(x) is Ok ==> #[trigger] d2.read_file(
                x,
            ) == d.read_file(x),
{
    let s = l.chains[p];
    lemma_directory_readable(d, l, p);
    lemma_intact_kept(d, d2);
    assert(all_linkable(d2));
    assert forall|g: u32|
        #![trigger l.chains[g]]
        l.chains.dom().contains(g) implies is_chain(d2, l.chains[g]) && l.chains[g][0] == g
        && all_in_range(d2.geo, l.chains[g]) by {
        lemma_layout_chain(d, l, g);
        lemma_chain_kept(d, d2, l.chains[g], Set::empty(), s.to_set());
    }
    lemma_on_device_kept(d, d2, s);
    assert forall|g: u32| #[trigger] l.dirs.contains(g) && g != p implies d2.entries(g)
        == d.entries(g) && ends_last(d2, l.chains[g]) && on_device(d2, l.chains[g]) by {
        assert(l.chains.dom().contains(g));
        lemma_outside(d, l, g, p);
        lemma_directory_kept(d, d2, l, g, Set::empty(), s.to_set());
    }
    let m = lemma_replaced_update(d.entries(p)->Ok_0, name, e);
    assert forall|g: u32| #[trigger] l.dirs.contains(g) implies l.chains.dom().contains(g)
        && directory_sound(d2, l, g) by {
        assert(directory_sound(d, l, g));
        let before = d.entries(g)->Ok_0;
        let after = d2.entries(g)->Ok_0;
        assert forall|k: int| 0 <= k < after.len() implies leads_into(l, #[trigger] after[k]) by {
            assert(leads_into(l, before[k]));
        }
    }
    assert forall|x: DirentView|
        leads_into(l, x) && !x.is_directory() && d.read_file(x) is Ok implies #[trigger] d2.read_file(
        x,
    ) == d.read_file(x) by {
        lemma_layout_chain(d, l, x.first_cluster);
        lemma_outside(d, l, x.first_cluster, p);
        lemma_file_kept(d, d2, x, Set::empty(), s.to_set());
    }
}

/// On a sound volume renaming replaces the name in the one entry that is found under the path,
/// every other directory is listed as before, every file reads as before, and the volume stays
/// sound.
pub proof fn law_renamed_soundly(d: Disk, l: Layout, path: Seq<char>, name: Seq<char>)
    requires
        sound(d, l),
        name_of(path).len() > 0,
        d.resolve(path) is Ok,
        d.rename(path, name).1 is Ok,
    ensures
        ({
            let d2 = d.rename(path, name).0;
            let p = d.resolve(parent_of(path))->Ok_0.first_cluster;
            &&& sound(d2, l)
            &&& d2.geo == d.geo
            &&& l.dirs.contains(p)
            &&& d2.entries(p) == Ok::<Seq<DirentView>, ErrView>(
                with_first_replaced(
                    d.entries(p)->Ok_0,
                    name_of(path),
                    renamed(d.resolve(path)->Ok_0, name),
                ),
            )
            &&& forall|g: u32| #[trigger]
                l.dirs.contains(g) && g != p ==> d2.entries(g) == d.entries(g)
            &&& forall|x: DirentView|
                leads_into(l, x) && !x.is_directory() && d.read_file(x)
                    is Ok ==> #[trigger] d2.read_file(x) == d.read_file(x)
        }),
{
    let d2 = d.rename(path, name).0;
    let e = d.resolve(path)->Ok_0;
    lemma_resolved_in_parent(d, path);
    let p = d.resolve(parent_of(path))->Ok_0.first_cluster;
    lemma_sound_directory(d, l, parent_of(path));
    lemma_directory_readable(d, l, p);
    lemma_rename_in(d, p, name_of(path), name);
    lemma_renamed_end(d, p, name_of(path), name);
    lemma_entry_replaced(d, d2, l, p, name_of(path), renamed(e, name));
}

/// A tree in which an entry has been replaced by one that leads to the same chain, under a name
/// that no other entry of the directory has, stays one.
pub proof fn lemma_tree_replaced(
    d: Disk,
    d2: Disk,
    l: Layout,
    l2: Layout,
    level: spec_fn(u32) -> nat,
    p: u32,
    m: int,
    e: DirentView,
)
    requires
        is_tree(d, l, level),
        sound(d2, l2),
        l2.dirs == l.dirs,
        l.dirs.contains(p),
        0 <= m < listing(d, p).len(),
        listing(d2, p) == listing(d, p).update(m, e),
        e.first_cluster == listing(d, p)[m].first_cluster,
        e.is_directory() == listing(d, p)[m].is_directory(),
        hangs(e, p, level),
        forall|k: int|
            0 <= k < listing(d, p).len() && k != m ==> !same_name(
                (#[trigger] listing(d, p)[k]).filename(),
                e.filename(),
            ),
        forall|g: u32| #[trigger] l.dirs.contains(g) && g != p ==> d2.entries(g) == d.entries(g),
    ensures
        is_tree(d2, l2, level),
{
    assert forall|g: u32, k: int|
        #![trigger l2.dirs.contains(g), listing(d2, g)[k]]
        l2.dirs.contains(g) && 0 <= k < listing(d2, g).len() implies hangs(
        listing(d2, g)[k],
        g,
        level,
    ) by {
        assert(hangs(listing(d, g)[k], g, level));
    }
    assert forall|g: u32, k: int, g2: u32, k2: int|
        #![trigger listing(d2, g)[k], listing(d2, g2)[k2]]
        l.dirs.contains(g) && l.dirs.contains(g2) && 0 <= k < listing(d2, g).len() && 0 <= k2
            < listing(d2, g2).len() && listing(d2, g)[k].first_cluster == listing(
            d2,
            g2,
        )[k2].first_cluster implies g == g2 && k == k2 by {
        assert(listing(d, g)[k].first_cluster == listing(d, g2)[k2].first_cluster);
    }
    assert forall|g: u32, k: int, k2: int|
        #![trigger listing(d2, g)[k], listing(d2, g)[k2]]
        l.dirs.contains(g) && 0 <= k < k2 < listing(d2, g).len() implies !same_name(
        listing(d2, g)[k].filename(),
        listing(d2, g)[k2].filename(),
    ) by {
        assert(!same_name(listing(d, g)[k].filename(), listing(d, g)[k2].filename()));
    }
}

/// In a tree what has been renamed is found under its new name, as it was but for the name, and
/// under the old one no longer, unless the two differ only in case. The tree stays one.
///
/// `new_path` is any path to the new name in the same directory. Left out are names with a
/// slash, which no path leads to.
pub proof fn law_renamed_in_tree(
    d: Disk,
    l: Layout,
    level: spec_fn(u32) -> nat,
    path: Seq<char>,
    name: Seq<char>,
    new_path: Seq<char>,
)
    requires
        is_tree(d, l, level),
        name_of(path).len() > 0,
        d.resolve(path) is Ok,
        d.rename(path, name).1 is Ok,
        parent_of(new_path) == parent_of(path),
        name_of(new_path) == name,
    ensures
        ({
            let d2 = d.rename(path, name).0;
            &&& is_tree(d2, l, level)
            &&& d2.resolve(new_path) == Ok::<DirentView, ErrView>(
                renamed(d.resolve(path)->Ok_0, name),
            )
            &&& !same_name(name_of(path), name) ==> d2.resolve(path) == Err::<DirentView, ErrView>(
                ErrView::FileNotFound(name_of(path)),
            )
        }),
{
    let old_name = name_of(path);
    let names = parts(parent_of(path));
    let d2 = d.rename(path, name).0;
    let e = d.resolve(path)->Ok_0;
    let e2 = renamed(e, name);
    lemma_resolved_in_parent(d, path);
    let p = d.resolve(parent_of(path))->Ok_0.first_cluster;
    law_renamed_soundly(d, l, path, name);
    lemma_directory_readable(d, l, p);
    lemma_rename_in(d, p, old_name, name);
    lemma_renamed_bytes(d.geo.big_endian, Seq::new(64, |i: int| 0u8), name);
    lemma_name_is_component(new_path);
    let before = listing(d, p);
    let m = lemma_replaced_update(before, old_name, e2);
    assert(hangs(listing(d, p)[m], p, level));
    assert(e2.filename() == name);
    assert forall|k: int| 0 <= k < before.len() && k != m implies !same_name(
        (#[trigger] listing(d, p)[k]).filename(),
        name,
    ) by {
        if same_name(before[k].filename(), name) {
            if find_entry(before, name) is None {
                lemma_absent_all(before, name, k);
            }
            let m2 = lemma_replaced_update(before, name, e2);
            assert(listing(d, p)[m2].first_cluster == listing(d, p)[m].first_cluster);
            lemma_found_leads(d, l, p, name);
            if k < m {
                assert(!same_name(listing(d, p)[k].filename(), listing(d, p)[m].filename()));
            } else {
                assert(!same_name(listing(d, p)[m].filename(), listing(d, p)[k].filename()));
            }
        }
    }
    lemma_tree_replaced(d, d2, l, l, level, p, m, e2);
    if names.len() > 0 {
        lemma_way_same(d, d2, l, level, FIRST_CLUSTER, names, 0);
    }
    lemma_resolve_path(d2, new_path);
    lemma_resolve_path(d2, path);
    if !same_name(old_name, name) {
        lemma_find_gone(before, old_name, e2);
        lemma_sole(d, l, level, p, old_name);
    }
}

} // verus!
