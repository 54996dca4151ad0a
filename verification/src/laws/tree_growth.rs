//! Trees from the start: a new volume is a tree, and creating files and directories keeps it one.

use vstd::prelude::*;
use crate::disk::{find_entry, Disk, Stamp};
use crate::error::ErrView;
use crate::laws::creation::lemma_resolve_path;
use crate::laws::formatting::{blank_table, formatted_disk, law_formatted_root_is_empty};
use crate::laws::frame::roomy;
use crate::laws::sound_creation::{
    law_directory_created_soundly, law_file_created_soundly, lemma_absent_all, lemma_sound_way,
    listed_anew,
};
use crate::laws::sound_formatting::{law_formatted_volume_is_sound, root_layout};
use crate::laws::sound_trees::{hangs, is_tree, listing};
use crate::laws::soundness::{
    all_linkable, leads_into, lemma_directory_readable, sound, Layout,
};
use crate::mkimage::MIN_SIZE;
use crate::path::{is_component, law_parts_are_names, law_parts_of_split, name_of, parent_of, parts};
use crate::text::same_name;
use crate::types::{DirentView, FIRST_CLUSTER};
use crate::volume::{geometry, valid_cluster_sectors};

verus! {

/// The levels once there is a directory at `h` on level `n`.
pub open spec fn with_level(level: spec_fn(u32) -> nat, h: u32, n: nat) -> spec_fn(u32) -> nat {
    |c: u32| if c == h { n } else { level(c) }
}

/// The name at the end of a path is one.
pub proof fn lemma_name_is_component(path: Seq<char>)
    requires
        name_of(path).len() > 0,
    ensures
        is_component(name_of(path)),
{
    law_parts_are_names(path);
    law_parts_of_split(path);
    let k = parts(path).len() - 1;
    assert(parts(path)[k] == name_of(path));
    assert forall|i: int| 0 <= i < name_of(path).len() implies #[trigger] name_of(path)[i] != '/' by {
        assert(parts(path)[k].contains(name_of(path)[i]));
    }
}

/// An entry of a directory that has got one: where it was before, unless it is the new one.
proof fn lemma_entry_before(
    d: Disk,
    d2: Disk,
    l: Layout,
    l2: Layout,
    p: u32,
    name: Seq<char>,
    e: DirentView,
    m: int,
    g: u32,
    k: int,
) -> (b: int)
    requires
        sound(d, l),
        l.dirs.contains(p),
        listed_anew(d, d2, l, l2, p, name, e),
        0 <= m <= listing(d, p).len(),
        listing(d2, p) == listing(d, p).insert(m, e),
        e.is_directory() ==> d2.entries(e.first_cluster) == Ok::<Seq<DirentView>, ErrView>(seq![]),
        l2.dirs.contains(g),
        0 <= k < listing(d2, g).len(),
    ensures
        l.dirs.contains(g),
        g == p && k == m ==> listing(d2, g)[k] == e,
        !(g == p && k == m) ==> {
            &&& 0 <= b < listing(d, g).len()
            &&& listing(d2, g)[k] == listing(d, g)[b]
            &&& leads_into(l, listing(d, g)[b])
            &&& b == (if g == p && k > m {
                k - 1
            } else {
                k
            })
        },
{
    let b = if g == p && k > m {
        k - 1
    } else {
        k
    };
    if e.is_directory() && g == e.first_cluster && !l.dirs.contains(g) {
        assert(listing(d2, g).len() == 0);
    }
    lemma_directory_readable(d, l, g);
    if !(g == p && k == m) {
        if g == p {
            if k > m {
                assert(listing(d2, g)[k] == listing(d, p)[k - 1]);
            } else {
                assert(listing(d2, g)[k] == listing(d, p)[k]);
            }
        }
        assert(leads_into(l, d.entries(g)->Ok_0[b]));
    }
    b
}

/// A tree that gets an entry under a new name, to a chain of its own, stays one.
proof fn lemma_tree_grown(
    d: Disk,
    d2: Disk,
    l: Layout,
    l2: Layout,
    level: spec_fn(u32) -> nat,
    level2: spec_fn(u32) -> nat,
    p: u32,
    name: Seq<char>,
    e: DirentView,
)
    requires
        is_tree(d, l, level),
        sound(d2, l2),
        l.dirs.contains(p),
        listed_anew(d, d2, l, l2, p, name, e),
        is_component(name),
        find_entry(listing(d, p), name) is None,
        !l.chains.dom().contains(e.first_cluster),
        e.is_directory() ==> d2.entries(e.first_cluster) == Ok::<Seq<DirentView>, ErrView>(seq![])
            && level2(e.first_cluster) == level(p) + 1,
        forall|g: u32| #[trigger] l.dirs.contains(g) ==> level2(g) == level(g),
    ensures
        is_tree(d2, l2, level2),
{
    let before = listing(d, p);
    let m = choose|m: int| 0 <= m <= before.len() && listing(d2, p) == #[trigger] before.insert(m, e);
    assert(l.chains.dom().contains(FIRST_CLUSTER));
    assert forall|g: u32, k: int|
        #![trigger l2.dirs.contains(g), listing(d2, g)[k]]
        l2.dirs.contains(g) && 0 <= k < listing(d2, g).len() implies hangs(
        listing(d2, g)[k],
        g,
        level2,
    ) by {
        let b = lemma_entry_before(d, d2, l, l2, p, name, e, m, g, k);
        if !(g == p && k == m) {
            assert(hangs(listing(d, g)[b], g, level));
            assert(leads_into(l, listing(d, g)[b]));
        }
    }
    assert forall|g: u32, k: int, g2: u32, k2: int|
        #![trigger listing(d2, g)[k], listing(d2, g2)[k2]]
        l2.dirs.contains(g) && l2.dirs.contains(g2) && 0 <= k < listing(d2, g).len() && 0 <= k2
            < listing(d2, g2).len() && listing(d2, g)[k].first_cluster == listing(
            d2,
            g2,
        )[k2].first_cluster implies g == g2 && k == k2 by {
        let b = lemma_entry_before(d, d2, l, l2, p, name, e, m, g, k);
        let b2 = lemma_entry_before(d, d2, l, l2, p, name, e, m, g2, k2);
        if !(g == p && k == m) && !(g2 == p && k2 == m) {
            assert(listing(d, g)[b].first_cluster == listing(d, g2)[b2].first_cluster);
        }
    }
    assert forall|g: u32, k: int, k2: int|
        #![trigger listing(d2, g)[k], listing(d2, g)[k2]]
        l2.dirs.contains(g) && 0 <= k < k2 < listing(d2, g).len() implies !same_name(
        listing(d2, g)[k].filename(),
        listing(d2, g)[k2].filename(),
    ) by {
        let b = lemma_entry_before(d, d2, l, l2, p, name, e, m, g, k);
        let b2 = lemma_entry_before(d, d2, l, l2, p, name, e, m, g, k2);
        if g == p && k == m {
            lemma_absent_all(before, name, b2);
        } else if g == p && k2 == m {
            lemma_absent_all(before, name, b);
        } else {
            assert(!same_name(listing(d, g)[b].filename(), listing(d, g)[b2].filename()));
        }
    }
}

/// A file that is created under a new name in a tree leaves a tree. The layout that it has then
/// is given.
///
/// Left out is what [`law_file_created_soundly`] leaves out.
pub proof fn law_file_created_in_tree(
    d: Disk,
    l: Layout,
    level: spec_fn(u32) -> nat,
    path: Seq<char>,
    data: Seq<u8>,
    now: Stamp,
) -> (l2: Layout)
    requires
        is_tree(d, l, level),
        d.create_file(path, data, now).1 is Ok,
        !(d.resolve(path) is Ok),
        data.len() <= u32::MAX,
        data.len() == 0 ==> d.read_cluster(d.free_from(FIRST_CLUSTER as int, 1)->Ok_0[0]) is Ok,
    ensures
        is_tree(d.create_file(path, data, now).0, l2, level),
{
    let l2 = law_file_created_soundly(d, l, path, data, now);
    let d2 = d.create_file(path, data, now).0;
    let p = d.resolve(parent_of(path))->Ok_0.first_cluster;
    assert(name_of(path).len() > 0);
    lemma_sound_way(d, l, path);
    lemma_resolve_path(d, path);
    lemma_name_is_component(path);
    lemma_tree_grown(d, d2, l, l2, level, level, p, name_of(path), d2.resolve(path)->Ok_0);
    l2
}

/// A directory that is created in a tree leaves a tree, in which it is one level below the
/// directory that it is in. The layout that it has then is given.
pub proof fn law_directory_created_in_tree(
    d: Disk,
    l: Layout,
    level: spec_fn(u32) -> nat,
    path: Seq<char>,
    now: Stamp,
) -> (l2: Layout)
    requires
        is_tree(d, l, level),
        d.create_directory(path, now).1 is Ok,
    ensures
        ({
            let d2 = d.create_directory(path, now).0;
            let p = d.resolve(parent_of(path))->Ok_0.first_cluster;
            is_tree(
                d2,
                l2,
                with_level(level, d2.resolve(path)->Ok_0.first_cluster, level(p) + 1),
            )
        }),
{
    let l2 = law_directory_created_soundly(d, l, path, now);
    let d2 = d.create_directory(path, now).0;
    let p = d.resolve(parent_of(path))->Ok_0.first_cluster;
    let made = d2.resolve(path)->Ok_0;
    let level2 = with_level(level, made.first_cluster, level(p) + 1);
    assert(name_of(path).len() > 0);
    lemma_sound_way(d, l, path);
    lemma_resolve_path(d, path);
    lemma_name_is_component(path);
    assert forall|g: u32| #[trigger] l.dirs.contains(g) implies level2(g) == level(g) by {
        assert(l.chains.dom().contains(g));
    }
    lemma_tree_grown(d, d2, l, l2, level, level2, p, name_of(path), made);
    l2
}

/// A new volume is a tree of one directory.
///
/// Left out is what [`law_formatted_volume_is_sound`] leaves out.
pub proof fn law_formatted_volume_is_tree(
    start: Seq<u8>,
    size: u64,
    is_xtaf: bool,
    spc: u32,
    volume_id: u32,
    capacity: nat,
)
    requires
        size >= MIN_SIZE,
        valid_cluster_sectors(spc),
        geometry(0, is_xtaf, size as int, spc).total_clusters >= 1,
        roomy(geometry(0, is_xtaf, size as int, spc)),
        blank_table(start, size, is_xtaf, spc),
        all_linkable(formatted_disk(start, size, is_xtaf, spc, volume_id, capacity)),
    ensures
        is_tree(
            formatted_disk(start, size, is_xtaf, spc, volume_id, capacity),
            root_layout(),
            |c: u32| 0,
        ),
{
    law_formatted_volume_is_sound(start, size, is_xtaf, spc, volume_id, capacity);
    law_formatted_root_is_empty(start, size, is_xtaf, spc, volume_id, capacity);
}

} // verus!
