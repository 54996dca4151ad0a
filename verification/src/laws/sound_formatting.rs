//! New volumes are sound.

use vstd::prelude::*;
use crate::disk::sector_ceil;
use crate::laws::chain_facts::{is_chain, linked};
use crate::laws::formatting::{
    blank_table, formatted_disk, law_formatted_root_is_empty, law_formatted_volume_is_free,
    lemma_formatted_places, lemma_formatted_table, lemma_layout_fits,
};
use crate::laws::frame::roomy;
use crate::laws::soundness::{all_linkable, directory_sound, on_device, sound, Layout};
use crate::mkimage::MIN_SIZE;
use crate::types::FIRST_CLUSTER;
use crate::volume::{geometry, valid_cluster_sectors};

verus! {

/// The layout of a new volume: a root directory of one cluster.
pub open spec fn root_layout() -> Layout {
    Layout { chains: map![FIRST_CLUSTER => seq![FIRST_CLUSTER]], dirs: set![FIRST_CLUSTER] }
}

/// A new volume is sound.
///
/// Left out are shapes in which the table has no room for the entry of the last cluster, those
/// with clusters whose numbers cannot be stored as links, and devices that held something where
/// the table comes to lie.
pub proof fn law_formatted_volume_is_sound(
    start: Seq<u8>,
    size: u64,
    is_xtaf: bool,
    spc: u32,
    volume_id: u32,
    capacity: nat,
)
    requires
        size >= MIN_SIZE,
        valid_cluster_sectors(spc),
        geometry(0, is_xtaf, size as int, spc).total_clusters >= 1,
        roomy(geometry(0, is_xtaf, size as int, spc)),
        blank_table(start, size, is_xtaf, spc),
        all_linkable(formatted_disk(start, size, is_xtaf, spc, volume_id, capacity)),
    ensures
        sound(formatted_disk(start, size, is_xtaf, spc, volume_id, capacity), root_layout()),
{
    let d = formatted_disk(start, size, is_xtaf, spc, volume_id, capacity);
    let l = root_layout();
    let one = seq![FIRST_CLUSTER];
    lemma_layout_fits(size, is_xtaf, spc);
    lemma_formatted_places(start, size, is_xtaf, spc, volume_id);
    law_formatted_volume_is_free(start, size, is_xtaf, spc, volume_id, capacity);
    law_formatted_root_is_empty(start, size, is_xtaf, spc, volume_id, capacity);
    lemma_formatted_table(start, size, is_xtaf, spc, volume_id, capacity, 1);
    assert(linked(d, one, 0));
    assert(is_chain(d, one));
    assert(l.chains[FIRST_CLUSTER] == one);
    assert(d.geo.cluster_pos(1) == d.geo.data_offset);
    assert(sector_ceil((d.geo.data_offset + d.geo.cluster_size()) as int) == d.geo.data_offset
        + d.geo.cluster_size());
    assert(d.read_cluster(FIRST_CLUSTER) is Ok);
    assert(on_device(d, one));
    assert(directory_sound(d, l, FIRST_CLUSTER));
}

} // verus!
