//! What a conversion leaves behind: the same package at every place.

use vstd::prelude::*;
use crate::device::Device;
use crate::disk::{blank, find_entry, new_entry, Disk, Stamp};
use crate::directory::lemma_free_in_range;
use crate::error::ErrView;
use crate::laws::creation::lemma_resolve_path;
use crate::laws::keeping::lemma_blank_allocated;
use crate::laws::sound_creation::{
    extends_layout, law_directory_created_soundly, law_file_created_soundly,
    law_head_patched_soundly, lemma_free_readable, lemma_sound_directory, lemma_sound_target,
    only_added,
};
use crate::laws::soundness::{
    lemma_directory_readable, lemma_sound_beside_new_data, lemma_vacancy_readable, sound,
    Layout,
};
use crate::path::{is_component, lemma_child_path, name_of, parent_of, parts};
use crate::text::same_name;
use crate::types::{DirentView, FileAttributes, FIRST_CLUSTER};
use crate::volume::FatxVolume;
use super::convert::{
    begun, chain_upto, conversion, packed, parts_upto, written, Job, Outside, Run,
};
use super::hash_list::page;
use super::laws::law_part_size;
use super::names::{
    lemma_header_name_differs, lemma_hex8, lemma_part_name, lemma_part_names_differ,
    lemma_part_path, part_name,
};
use super::package::{hex8, package_id, package_paths, part_path, GodSink, PathsView};
use super::part::{part_image, part_master};
use super::source::{ContentType, TitleExecutionInfo};
use super::{BLOCK_SIZE, MAX_PART_BYTES};

verus! {

// ---------------------------------------------------------------------------
// Directories
// ---------------------------------------------------------------------------

/// Entering something in a directory of a sound volume never fails with the word that it is
/// there already.
proof fn lemma_entering_error(d: Disk, l: Layout, p: u32, e: DirentView)
    requires
        sound(d, l),
        l.dirs.contains(p),
    ensures
        !(d.add_entry(p, e).1 matches Err(ErrView::FileExists(_))),
{
    lemma_directory_readable(d, l, p);
    lemma_vacancy_readable(d, l.chains[p], 0, 0);
    lemma_free_readable(d, FIRST_CLUSTER as int, 1);
}

/// Where a directory cannot be made because the name is taken, nothing has changed.
proof fn lemma_taken(d: Disk, l: Layout, path: Seq<char>, now: Stamp)
    requires
        sound(d, l),
        d.create_directory(path, now).1 matches Err(ErrView::FileExists(_)),
    ensures
        d.create_directory(path, now).0 == d,
{
    if d.parent_for(path) is Ok {
        let p = d.parent_for(path)->Ok_0.first_cluster;
        lemma_sound_directory(d, l, parent_of(path));
        lemma_directory_readable(d, l, p);
        if find_entry(d.entries(p)->Ok_0, name_of(path)) is None && d.allocate_cluster().1 is Ok {
            let (d1, got) = d.allocate_cluster();
            let fresh = got->Ok_0;
            let e = new_entry(name_of(path), FileAttributes::DIRECTORY, fresh, 0, now);
            if d1.write_cluster(fresh, blank(d1.geo.cluster_size())) is Ok {
                let d2 = d1.write_cluster(fresh, blank(d1.geo.cluster_size()))->Ok_0;
                assert(d1.geo == d.geo);
                lemma_blank_allocated(d);
                let list = d.free_from(FIRST_CLUSTER as int, 1)->Ok_0;
                lemma_free_in_range(d, FIRST_CLUSTER as int, 1);
                lemma_sound_beside_new_data(d, d2, l, list);
                lemma_entering_error(d2, l, p, e);
            }
        }
    }
}

/// Making sure of a directory on a sound volume: it was there, and nothing has changed, or it
/// has been made and is empty.
proof fn lemma_directory_ensured(d: Disk, l: Layout, path: Seq<char>, now: Stamp) -> (l2: Layout)
    requires
        sound(d, l),
        d.ensure_directory(path, now).1 is Ok,
    ensures
        ({
            let d2 = d.ensure_directory(path, now).0;
            let dir = d2.resolve(path)->Ok_0;
            &&& sound(d2, l2)
            &&& d2.geo == d.geo
            &&& d2.resolve(path) is Ok
            &&& dir.is_directory()
            &&& d2 == d && l2 == l || {
                &&& d2.entries(dir.first_cluster) == Ok::<Seq<DirentView>, ErrView>(seq![])
                &&& extends_layout(l2, l)
                &&& only_added(
                    d,
                    d2,
                    l,
                    d.resolve(parent_of(path))->Ok_0.first_cluster,
                    name_of(path),
                )
            }
        }),
{
    if d.create_directory(path, now).1 is Ok {
        law_directory_created_soundly(d, l, path, now)
    } else {
        lemma_taken(d, l, path, now);
        l
    }
}

// ---------------------------------------------------------------------------
// The stages of a conversion on a volume
// ---------------------------------------------------------------------------

/// The volume is sound, and has this layout.
#[verifier::opaque]
pub open spec fn steady(d: Disk, l: Layout) -> bool {
    sound(d, l)
}

/// The first `k` Data files have clusters of their own.
pub open spec fn heads_differ(d: Disk, paths: PathsView, k: nat) -> bool {
    forall|i: int, j: int|
        #![trigger part_path(paths, i as nat), part_path(paths, j as nat)]
        0 <= i < j < k ==> d.resolve(part_path(paths, i as nat))->Ok_0.first_cluster != d.resolve(
            part_path(paths, j as nat),
        )->Ok_0.first_cluster
}

/// A Data file whose first cluster is new differs from the others.
proof fn lemma_heads_staged(d: Disk, d2: Disk, l: Layout, paths: PathsView, k: nat)
    requires
        heads_differ(d, paths, k),
        forall|i: int|
            0 <= i < k ==> l.chains.dom().contains(
                d.resolve(#[trigger] part_path(paths, i as nat))->Ok_0.first_cluster,
            ),
        forall|i: int|
            0 <= i < k ==> d2.resolve(#[trigger] part_path(paths, i as nat)) == d.resolve(
                part_path(paths, i as nat),
            ),
        !l.chains.dom().contains(d2.resolve(part_path(paths, k))->Ok_0.first_cluster),
    ensures
        heads_differ(d2, paths, k + 1),
{
    assert forall|i: int, j: int|
        #![trigger part_path(paths, i as nat), part_path(paths, j as nat)]
        0 <= i < j < k + 1 implies d2.resolve(part_path(paths, i as nat))->Ok_0.first_cluster
        != d2.resolve(part_path(paths, j as nat))->Ok_0.first_cluster by {
        assert(d2.resolve(part_path(paths, i as nat)) == d.resolve(part_path(paths, i as nat)));
        if j < k {
            assert(d2.resolve(part_path(paths, j as nat)) == d.resolve(
                part_path(paths, j as nat),
            ));
        } else {
            assert(j as nat == k);
        }
    }
}

/// The first Data files of a package are on a volume, with the contents `files`; the others
/// and the header are not.
pub open spec fn staged(
    d: Disk,
    l: Layout,
    paths: PathsView,
    header_name: Seq<char>,
    n: nat,
    files: Seq<Seq<u8>>,
) -> bool {
    let data_dir = d.resolve(paths.data_dir)->Ok_0;
    let content_dir = d.resolve(paths.content_dir)->Ok_0;
    &&& steady(d, l)
    &&& d.resolve(paths.data_dir) is Ok && data_dir.is_directory()
    &&& d.resolve(paths.content_dir) is Ok && content_dir.is_directory()
    &&& forall|i: int|
        0 <= i < files.len() ==> #[trigger] d.read_path(part_path(paths, i as nat)) == Ok::<
            Seq<u8>,
            ErrView,
        >(files[i])
    &&& heads_differ(d, paths, files.len())
    &&& forall|i: int|
        files.len() <= i < n ==> find_entry(
            d.entries(data_dir.first_cluster)->Ok_0,
            #[trigger] part_name(i as nat),
        ) is None
    &&& find_entry(d.entries(content_dir.first_cluster)->Ok_0, header_name) is None
}

/// A path whose name is not found in its directory leads nowhere.
proof fn lemma_not_found(d: Disk, dir: Seq<char>, name: Seq<char>)
    requires
        is_component(name),
        d.resolve(dir) is Ok,
        d.resolve(dir)->Ok_0.is_directory(),
        find_entry(d.entries(d.resolve(dir)->Ok_0.first_cluster)->Ok_0, name) is None,
    ensures
        !(d.resolve(dir + "/"@ + name) is Ok),
        d.resolve(parent_of(dir + "/"@ + name)) == d.resolve(dir),
        name_of(dir + "/"@ + name) == name,
{
    let path = dir + "/"@ + name;
    lemma_child_path(dir, name);
    assert(d.resolve(parent_of(path)) == d.resolve(dir));
    lemma_resolve_path(d, path);
}

/// A file has been added to a volume, and nothing else has changed.
spec fn file_added(
    d: Disk,
    d2: Disk,
    l: Layout,
    l2: Layout,
    path: Seq<char>,
    name: Seq<char>,
    data: Seq<u8>,
) -> bool {
    &&& steady(d2, l2)
    &&& d2.geo == d.geo
    &&& d2.read_path(path) == Ok::<Seq<u8>, ErrView>(data)
    &&& forall|other: Seq<char>|
        d.read_path(other) is Ok ==> #[trigger] d2.read_path(other) == d.read_path(other)
            && l.chains.dom().contains(d.resolve(other)->Ok_0.first_cluster)
    &&& forall|other: Seq<char>|
        d.resolve(other) is Ok ==> #[trigger] d2.resolve(other) == d.resolve(other)
    &&& forall|dir: Seq<char>, other: Seq<char>|
        #![trigger d.resolve(dir), same_name(name, other)]
        d.resolve(dir) is Ok && d.resolve(dir)->Ok_0.is_directory() && !same_name(name, other)
            && find_entry(d.entries(d.resolve(dir)->Ok_0.first_cluster)->Ok_0, other) is None
            ==> find_entry(d2.entries(d.resolve(dir)->Ok_0.first_cluster)->Ok_0, other) is None
    &&& !l.chains.dom().contains(d2.resolve(path)->Ok_0.first_cluster)
}

/// A new file in a directory that does not have its name yet.
proof fn lemma_file_added(
    d: Disk,
    l: Layout,
    dir: Seq<char>,
    name: Seq<char>,
    data: Seq<u8>,
    now: Stamp,
) -> (l2: Layout)
    requires
        steady(d, l),
        is_component(name),
        d.resolve(dir) is Ok,
        d.resolve(dir)->Ok_0.is_directory(),
        find_entry(d.entries(d.resolve(dir)->Ok_0.first_cluster)->Ok_0, name) is None,
        data.len() <= u32::MAX,
        data.len() == 0 ==> d.read_cluster(d.free_from(FIRST_CLUSTER as int, 1)->Ok_0[0]) is Ok,
        d.create_file(dir + "/"@ + name, data, now).1 is Ok,
    ensures
        file_added(
            d,
            d.create_file(dir + "/"@ + name, data, now).0,
            l,
            l2,
            dir + "/"@ + name,
            name,
            data,
        ),
{
    reveal(steady);
    let path = dir + "/"@ + name;
    let d2 = d.create_file(path, data, now).0;
    lemma_not_found(d, dir, name);
    let l2 = law_file_created_soundly(d, l, path, data, now);
    assert forall|other: Seq<char>| d.read_path(other) is Ok implies #[trigger] d2.read_path(other)
        == d.read_path(other) && l.chains.dom().contains(
        d.resolve(other)->Ok_0.first_cluster,
    ) by {
        lemma_sound_target(d, l, other);
    }
    assert forall|q: Seq<char>, other: Seq<char>|
        #![trigger d.resolve(q), same_name(name, other)]
        d.resolve(q) is Ok && d.resolve(q)->Ok_0.is_directory() && !same_name(name, other)
            && find_entry(d.entries(d.resolve(q)->Ok_0.first_cluster)->Ok_0, other)
            is None implies find_entry(
        d2.entries(d.resolve(q)->Ok_0.first_cluster)->Ok_0,
        other,
    ) is None by {
        lemma_sound_directory(d, l, q);
    }
    l2
}

/// One more Data file is written.
proof fn lemma_part_staged(
    d: Disk,
    d2: Disk,
    l: Layout,
    l2: Layout,
    paths: PathsView,
    id: u32,
    n: nat,
    files: Seq<Seq<u8>>,
    data: Seq<u8>,
)
    requires
        staged(d, l, paths, hex8(id), n, files),
        files.len() < n,
        file_added(
            d,
            d2,
            l,
            l2,
            part_path(paths, files.len()),
            part_name(files.len()),
            data,
        ),
    ensures
        staged(d2, l2, paths, hex8(id), n, files.push(data)),
{
    let k = files.len();
    let more = files.push(data);
    assert(d2.resolve(paths.data_dir) == d.resolve(paths.data_dir));
    assert(d2.resolve(paths.content_dir) == d.resolve(paths.content_dir));
    assert forall|i: int| 0 <= i < more.len() implies #[trigger] d2.read_path(
        part_path(paths, i as nat),
    ) == Ok::<Seq<u8>, ErrView>(more[i]) by {
        if i < k {
            assert(d.read_path(part_path(paths, i as nat)) == Ok::<Seq<u8>, ErrView>(files[i]));
        } else {
            assert(i as nat == k);
        }
    }
    assert(heads_differ(d2, paths, more.len())) by {
        assert forall|i: int| 0 <= i < k implies l.chains.dom().contains(
            d.resolve(#[trigger] part_path(paths, i as nat))->Ok_0.first_cluster,
        ) && d2.resolve(part_path(paths, i as nat)) == d.resolve(part_path(paths, i as nat)) by {
            let a = part_path(paths, i as nat);
            assert(d.read_path(a) == Ok::<Seq<u8>, ErrView>(files[i]));
            assert(d2.read_path(a) == d.read_path(a));
        }
        lemma_heads_staged(d, d2, l, paths, k);
    }
    let dd = d.resolve(paths.data_dir)->Ok_0.first_cluster;
    assert forall|i: int| more.len() <= i < n implies find_entry(
        d2.entries(dd)->Ok_0,
        #[trigger] part_name(i as nat),
    ) is None by {
        assert(find_entry(d.entries(dd)->Ok_0, part_name(i as nat)) is None);
        if same_name(part_name(k), part_name(i as nat)) {
            lemma_part_names_differ(k, i as nat);
        }
    }
    lemma_header_name_differs(id, k);
    assert(!same_name(part_name(k), hex8(id)));
}

/// The first page of a Data file is replaced.
proof fn lemma_patch_staged(
    d: Disk,
    l: Layout,
    paths: PathsView,
    id: u32,
    files: Seq<Seq<u8>>,
    i: int,
    new: Seq<u8>,
)
    requires
        staged(d, l, paths, hex8(id), files.len(), files),
        0 <= i < files.len(),
        new.len() <= files[i].len(),
        new.len() <= d.geo.cluster_size(),
        d.patch_head(part_path(paths, i as nat), new).1 is Ok,
    ensures
        staged(
            d.patch_head(part_path(paths, i as nat), new).0,
            l,
            paths,
            hex8(id),
            files.len(),
            files.update(i, new + files[i].skip(new.len() as int)),
        ),
        d.patch_head(part_path(paths, i as nat), new).0.geo == d.geo,
{
    reveal(steady);
    let path = part_path(paths, i as nat);
    let d2 = d.patch_head(path, new).0;
    let after = files.update(i, new + files[i].skip(new.len() as int));
    lemma_part_path(paths, i as nat);
    lemma_part_name(i as nat);
    lemma_child_path(paths.data_dir, part_name(i as nat));
    lemma_sound_directory(d, l, paths.data_dir);
    lemma_sound_directory(d, l, paths.content_dir);
    assert(d.read_path(path) == Ok::<Seq<u8>, ErrView>(files[i]));
    law_head_patched_soundly(d, l, path, new);
    assert(d2.resolve(paths.data_dir) == d.resolve(paths.data_dir));
    assert(d2.resolve(paths.content_dir) == d.resolve(paths.content_dir));
    assert forall|j: int| 0 <= j < after.len() implies #[trigger] d2.read_path(
        part_path(paths, j as nat),
    ) == Ok::<Seq<u8>, ErrView>(after[j]) by {
        let a = part_path(paths, j as nat);
        assert(d.read_path(a) == Ok::<Seq<u8>, ErrView>(files[j]));
        if j < i {
            assert(d.resolve(a)->Ok_0.first_cluster != d.resolve(path)->Ok_0.first_cluster);
        } else if j > i {
            assert(d.resolve(path)->Ok_0.first_cluster != d.resolve(a)->Ok_0.first_cluster);
        }
    }
    assert(heads_differ(d2, paths, after.len()));
}

/// A path that leads nowhere has a name that is not found in its directory.
proof fn lemma_absent_in_directory(d: Disk, l: Layout, dir: Seq<char>, name: Seq<char>)
    requires
        sound(d, l),
        is_component(name),
        d.resolve(dir) is Ok,
        d.resolve(dir)->Ok_0.is_directory(),
        !(d.resolve(dir + "/"@ + name) is Ok),
    ensures
        find_entry(d.entries(d.resolve(dir)->Ok_0.first_cluster)->Ok_0, name) is None,
{
    let path = dir + "/"@ + name;
    lemma_child_path(dir, name);
    assert(d.resolve(parent_of(path)) == d.resolve(dir));
    lemma_sound_directory(d, l, dir);
    lemma_directory_readable(d, l, d.resolve(dir)->Ok_0.first_cluster);
    lemma_resolve_path(d, path);
}

/// None of the files of a package is on a volume.
pub open spec fn without_package(d: Disk, paths: PathsView, n: nat) -> bool {
    &&& !(d.resolve(paths.con_header) is Ok)
    &&& forall|i: int| 0 <= i < n ==> !(#[trigger] d.resolve(part_path(paths, i as nat)) is Ok)
}

/// The paths of a package, one below the other.
proof fn lemma_package_paths(
    dest: Seq<char>,
    exe: TitleExecutionInfo,
    content_type: ContentType,
)
    ensures
        ({
            let paths = package_paths(dest, exe, content_type);
            let id = package_id(exe, content_type);
            &&& paths.content_dir == paths.title_dir + "/"@ + hex8(content_type.spec_number())
            &&& paths.con_header == paths.content_dir + "/"@ + hex8(id)
            &&& paths.data_dir == paths.content_dir + "/"@ + (hex8(id) + ".data"@)
        }),
{
    let paths = package_paths(dest, exe, content_type);
    let id = package_id(exe, content_type);
    assert(paths.data_dir =~= paths.content_dir + "/"@ + (hex8(id) + ".data"@));
}

/// Once the directories of a package have been made, nothing of it is there yet.
proof fn lemma_begun(
    d: Disk,
    l: Layout,
    dest: Seq<char>,
    exe: TitleExecutionInfo,
    content_type: ContentType,
    n: nat,
    now: Stamp,
) -> (l3: Layout)
    requires
        sound(d, l),
        without_package(d, package_paths(dest, exe, content_type), n),
        d.ensure_package(package_paths(dest, exe, content_type), now).1 is Ok,
    ensures
        staged(
            d.ensure_package(package_paths(dest, exe, content_type), now).0,
            l3,
            package_paths(dest, exe, content_type),
            hex8(package_id(exe, content_type)),
            n,
            seq![],
        ),
        d.ensure_package(package_paths(dest, exe, content_type), now).0.geo == d.geo,
{
    let paths = package_paths(dest, exe, content_type);
    let id = package_id(exe, content_type);
    let name = hex8(id);
    lemma_package_paths(dest, exe, content_type);
    lemma_hex8(id);
    lemma_hex8(content_type.spec_number());
    lemma_header_name_differs(id, 0);
    let d1 = d.ensure_directory(paths.title_dir, now).0;
    let l1 = lemma_directory_ensured(d, l, paths.title_dir, now);
    let d2 = d1.ensure_directory(paths.content_dir, now).0;
    let l2 = lemma_directory_ensured(d1, l1, paths.content_dir, now);
    let d3 = d2.ensure_directory(paths.data_dir, now).0;
    let l3 = lemma_directory_ensured(d2, l2, paths.data_dir, now);
    if d1 != d && d2 == d1 {
        lemma_not_found(d1, paths.title_dir, hex8(content_type.spec_number()));
    }
    if d2 != d1 && d3 == d2 {
        lemma_not_found(d2, paths.content_dir, hex8(id) + ".data"@);
    }
    let cd = d2.resolve(paths.content_dir)->Ok_0.first_cluster;
    assert(find_entry(d2.entries(cd)->Ok_0, name) is None) by {
        if d2 == d1 {
            lemma_absent_in_directory(d2, l2, paths.content_dir, name);
        }
    }
    lemma_sound_directory(d2, l2, paths.content_dir);
    assert(d3.resolve(paths.content_dir) == d2.resolve(paths.content_dir));
    assert(find_entry(d3.entries(cd)->Ok_0, name) is None) by {
        if d3 != d2 {
            lemma_child_path(paths.content_dir, hex8(id) + ".data"@);
            assert(name_of(paths.data_dir) == hex8(id) + ".data"@);
        }
    }
    let dd = d3.resolve(paths.data_dir)->Ok_0.first_cluster;
    assert forall|i: int| 0 <= i < n implies find_entry(
        d3.entries(dd)->Ok_0,
        #[trigger] part_name(i as nat),
    ) is None by {
        if d3 == d2 {
            lemma_part_path(paths, i as nat);
            lemma_part_name(i as nat);
            assert(!(d.resolve(part_path(paths, i as nat)) is Ok));
            lemma_absent_in_directory(d3, l3, paths.data_dir, part_name(i as nat));
        }
    }
    reveal(steady);
    l3
}

// ---------------------------------------------------------------------------
// A whole conversion
// ---------------------------------------------------------------------------

/// Data file number `i` of a package: a page with the chained hashes, then the hashed blocks.
pub open spec fn package_file(job: Job, i: int) -> Seq<u8> {
    page(job.chained(i)) + part_image(job.data(i)).skip(BLOCK_SIZE as int)
}

/// The first `k` Data files as they are written first.
spec fn files_written(job: Job, k: nat) -> Seq<Seq<u8>> {
    Seq::new(k, |i: int| part_image(job.data(i)))
}

/// The Data files once `k` steps of the chain are done.
spec fn files_chained(job: Job, k: nat) -> Seq<Seq<u8>> {
    Seq::new(
        job.report.part_count as nat,
        |i: int|
            if i >= job.report.part_count - 1 - k {
                package_file(job, i)
            } else {
                part_image(job.data(i))
            },
    )
}

/// A Data file holds at least a page, and no more than the largest one does.
proof fn lemma_part_sizes(job: Job, i: int)
    requires
        0 <= i,
    ensures
        BLOCK_SIZE <= part_image(job.data(i)).len() <= MAX_PART_BYTES,
        page(job.chained(i)).len() == BLOCK_SIZE,
{
    law_part_size(job.data(i));
}

proof fn lemma_parts_on_volume<D: Device>(
    job: Job,
    out: Outside,
    run: Run<Disk>,
    l: Layout,
    id: u32,
    k: nat,
) -> (l2: Layout)
    requires
        k <= job.report.part_count,
        staged(run.place, l, job.paths, hex8(id), job.report.part_count as nat, seq![]),
        run.end is Ok,
        parts_upto::<FatxVolume<D>>(job, out, run, k).end is Ok,
    ensures
        staged(
            parts_upto::<FatxVolume<D>>(job, out, run, k).place,
            l2,
            job.paths,
            hex8(id),
            job.report.part_count as nat,
            files_written(job, k),
        ),
        parts_upto::<FatxVolume<D>>(job, out, run, k).place.geo == run.place.geo,
    decreases k,
{
    if k == 0 {
        assert(files_written(job, 0) =~= seq![]);
        l
    } else {
        let m = (k - 1) as nat;
        let before = parts_upto::<FatxVolume<D>>(job, out, run, m);
        let l1 = lemma_parts_on_volume::<D>(job, out, run, l, id, m);
        let d = before.place;
        let data = part_image(job.data(m as int));
        let now = out.stamps[(m + 1) as int];
        let n = job.report.part_count as nat;
        lemma_part_sizes(job, m as int);
        lemma_part_path(job.paths, m);
        lemma_part_name(m);
        let dd = d.resolve(job.paths.data_dir)->Ok_0.first_cluster;
        assert(find_entry(d.entries(dd)->Ok_0, part_name(m as int as nat)) is None);
        let l2 = lemma_file_added(d, l1, job.paths.data_dir, part_name(m), data, now);
        let d2 = parts_upto::<FatxVolume<D>>(job, out, run, k).place;
        assert(d2 == d.create_file(part_path(job.paths, m), data, now).0);
        assert(files_written(job, m).len() == m);
        lemma_part_staged(d, d2, l1, l2, job.paths, id, n, files_written(job, m), data);
        assert(files_written(job, m).push(data) =~= files_written(job, k));
        l2
    }
}

proof fn lemma_chain_on_volume<D: Device>(
    job: Job,
    out: Outside,
    run: Run<Disk>,
    l: Layout,
    id: u32,
    k: nat,
)
    requires
        k < job.report.part_count,
        staged(
            run.place,
            l,
            job.paths,
            hex8(id),
            job.report.part_count as nat,
            files_chained(job, 0),
        ),
        k > 0 ==> BLOCK_SIZE <= run.place.geo.cluster_size(),
        run.end is Ok,
        chain_upto::<FatxVolume<D>>(job, out, run, k).end is Ok,
    ensures
        staged(
            chain_upto::<FatxVolume<D>>(job, out, run, k).place,
            l,
            job.paths,
            hex8(id),
            job.report.part_count as nat,
            files_chained(job, k),
        ),
        chain_upto::<FatxVolume<D>>(job, out, run, k).place.geo == run.place.geo,
    decreases k,
{
    if k > 0 {
        let m = (k - 1) as nat;
        let i = job.report.part_count - 1 - k;
        lemma_chain_place::<D>(job, out, run, k);
        lemma_chain_on_volume::<D>(job, out, run, l, id, m);
        let d = chain_upto::<FatxVolume<D>>(job, out, run, m).place;
        lemma_files_step(job, k);
        lemma_patch_staged(d, l, job.paths, id, files_chained(job, m), i, page(job.chained(i)));
    }
}

/// A step of the chain replaces the first page of a Data file.
proof fn lemma_chain_place<D: Device>(job: Job, out: Outside, run: Run<Disk>, k: nat)
    requires
        0 < k < job.report.part_count,
        chain_upto::<FatxVolume<D>>(job, out, run, k).end is Ok,
    ensures
        ({
            let before = chain_upto::<FatxVolume<D>>(job, out, run, (k - 1) as nat);
            let i = job.report.part_count - 1 - k;
            let step = before.place.patch_head(
                part_path(job.paths, i as nat),
                page(job.chained(i)),
            );
            &&& before.end is Ok
            &&& step.1 is Ok
            &&& chain_upto::<FatxVolume<D>>(job, out, run, k).place == step.0
        }),
{
}

proof fn lemma_files_step(job: Job, k: nat)
    requires
        0 < k < job.report.part_count,
    ensures
        ({
            let i = job.report.part_count - 1 - k;
            let files = files_chained(job, (k - 1) as nat);
            let new = page(job.chained(i));
            &&& files.len() == job.report.part_count
            &&& 0 <= i < files.len()
            &&& new.len() == BLOCK_SIZE
            &&& new.len() <= files[i].len()
            &&& files.update(i, new + files[i].skip(new.len() as int)) == files_chained(job, k)
        }),
{
    let i = job.report.part_count - 1 - k;
    let files = files_chained(job, (k - 1) as nat);
    let new = page(job.chained(i));
    lemma_part_sizes(job, i);
    assert(files[i] == part_image(job.data(i)));
    assert(files.update(i, new + files[i].skip(new.len() as int)) =~= files_chained(job, k));
}

proof fn lemma_parts_were_on<K: GodSink>(job: Job, out: Outside, run: Run<K::State>, k: nat)
    requires
        parts_upto::<K>(job, out, run, k).end is Ok,
    ensures
        run.end is Ok,
    decreases k,
{
    if k > 0 {
        lemma_parts_were_on::<K>(job, out, run, (k - 1) as nat);
    }
}

proof fn lemma_chain_was_on<K: GodSink>(job: Job, out: Outside, run: Run<K::State>, k: nat)
    requires
        chain_upto::<K>(job, out, run, k).end is Ok,
    ensures
        run.end is Ok,
    decreases k,
{
    if k > 0 {
        lemma_chain_was_on::<K>(job, out, run, (k - 1) as nat);
    }
}

/// Before the first step of the chain the Data files are as they were written.
proof fn lemma_files_start(job: Job)
    requires
        job.report.part_count > 0,
    ensures
        files_chained(job, 0) == files_written(job, job.report.part_count as nat),
{
    let n = job.report.part_count as int;
    let data = job.data(n - 1);
    assert(job.chained(n - 1) == part_master(data));
    assert(package_file(job, n - 1) =~= part_image(data));
    assert(files_chained(job, 0) =~= files_written(job, n as nat));
}

/// The stages of a conversion that succeeds.
proof fn lemma_stages<K: GodSink>(job: Job, out: Outside, run: Run<K::State>)
    requires
        job.report.part_count > 0,
        conversion::<K>(job, out, run).end is Ok,
    ensures
        ({
            let n = job.report.part_count as nat;
            let first = begun::<K>(job, out, run);
            let parts = parts_upto::<K>(job, out, first, n);
            let then = written::<K>(job, out, run);
            let chain = chain_upto::<K>(job, out, then, (n - 1) as nat);
            let last = K::after_write(
                chain.place,
                job.paths.con_header,
                out.header,
                out.stamps[job.report.part_count + 1],
            );
            &&& K::after_begin(run.place, job.paths, out.stamps[0]).1 is Ok
            &&& first.place == K::after_begin(run.place, job.paths, out.stamps[0]).0
            &&& first.end is Ok
            &&& parts.end is Ok
            &&& then.place == parts.place
            &&& then.end is Ok
            &&& chain.end is Ok
            &&& last.1 is Ok
            &&& conversion::<K>(job, out, run).place == last.0
        }),
{
    let n = job.report.part_count as nat;
    let first = begun::<K>(job, out, run);
    let then = written::<K>(job, out, run);
    assert(packed::<K>(job, out, run) == chain_upto::<K>(job, out, then, (n - 1) as nat));
    assert(packed::<K>(job, out, run).end is Ok);
    lemma_chain_was_on::<K>(job, out, then, (n - 1) as nat);
    lemma_parts_were_on::<K>(job, out, first, n);
}

/// A header can be read back from a volume: its size fits in an entry, and if it is empty, its
/// cluster is on the device.
pub open spec fn keeps_header(d: Disk, header: Seq<u8>) -> bool {
    &&& header.len() <= u32::MAX
    &&& header.len() == 0 ==> d.read_cluster(d.free_from(FIRST_CLUSTER as int, 1)->Ok_0[0]) is Ok
}

/// A conversion that succeeds on a sound volume leaves the whole package there, and a sound
/// volume.
///
/// Left out are volumes that hold files of the package already, clusters too small for a page
/// of hashes if there is more than one Data file, headers of more than 4 GiB, and an empty
/// header whose cluster lies behind the end of the device.
pub proof fn law_package_on_volume<D: Device>(
    job: Job,
    out: Outside,
    run: Run<Disk>,
    l: Layout,
    dest: Seq<char>,
    exe: TitleExecutionInfo,
    content_type: ContentType,
) -> (l2: Layout)
    requires
        sound(run.place, l),
        job.paths == package_paths(dest, exe, content_type),
        job.report.part_count > 0,
        without_package(run.place, job.paths, job.report.part_count as nat),
        job.report.part_count == 1 || BLOCK_SIZE <= run.place.geo.cluster_size(),
        keeps_header(packed::<FatxVolume<D>>(job, out, run).place, out.header),
        conversion::<FatxVolume<D>>(job, out, run).end is Ok,
    ensures
        ({
            let d = conversion::<FatxVolume<D>>(job, out, run).place;
            &&& forall|i: int|
                0 <= i < job.report.part_count ==> #[trigger] d.read_path(
                    part_path(job.paths, i as nat),
                ) == Ok::<Seq<u8>, ErrView>(package_file(job, i))
            &&& d.read_path(job.paths.con_header) == Ok::<Seq<u8>, ErrView>(out.header)
            &&& sound(d, l2)
        }),
{
    let n = job.report.part_count as nat;
    let id = package_id(exe, content_type);
    lemma_stages::<FatxVolume<D>>(job, out, run);
    let first = begun::<FatxVolume<D>>(job, out, run);
    let then = written::<FatxVolume<D>>(job, out, run);
    let l0 = lemma_begun(run.place, l, dest, exe, content_type, n, out.stamps[0]);
    let l1 = lemma_parts_on_volume::<D>(job, out, first, l0, id, n);
    lemma_files_start(job);
    lemma_chain_on_volume::<D>(job, out, then, l1, id, (n - 1) as nat);
    let chain = chain_upto::<FatxVolume<D>>(job, out, then, (n - 1) as nat);
    lemma_package_paths(dest, exe, content_type);
    lemma_hex8(id);
    let l2 = lemma_file_added(
        chain.place,
        l1,
        job.paths.content_dir,
        hex8(id),
        out.header,
        out.stamps[(n + 1) as int],
    );
    let d = conversion::<FatxVolume<D>>(job, out, run).place;
    assert forall|i: int| 0 <= i < n implies #[trigger] d.read_path(part_path(job.paths, i as nat))
        == Ok::<Seq<u8>, ErrView>(package_file(job, i)) by {
        assert(files_chained(job, (n - 1) as nat)[i] == package_file(job, i));
        assert(chain.place.read_path(part_path(job.paths, i as nat)) == Ok::<Seq<u8>, ErrView>(
            files_chained(job, (n - 1) as nat)[i],
        ));
    }
    reveal(steady);
    l2
}

// ---------------------------------------------------------------------------
// The same package everywhere
// ---------------------------------------------------------------------------

/// A place that keeps files: `read` gives what is written, a page in front of a file replaces
/// its first bytes, and other files stay as they are.
pub open spec fn keeps_files<K: GodSink>(
    read: spec_fn(K::State, Seq<char>) -> Option<Seq<u8>>,
) -> bool {
    &&& forall|s: K::State, path: Seq<char>, data: Seq<u8>, now: Stamp|
        #![trigger K::after_write(s, path, data, now)]
        K::after_write(s, path, data, now).1 is Ok ==> file_set(
            read,
            s,
            K::after_write(s, path, data, now).0,
            path,
            data,
        )
    &&& forall|s: K::State, path: Seq<char>, new: Seq<u8>|
        #![trigger K::after_patch(s, path, new)]
        K::after_patch(s, path, new).1 is Ok && read(s, path) is Some && new.len() <= read(
            s,
            path,
        )->0.len() ==> file_set(
            read,
            s,
            K::after_patch(s, path, new).0,
            path,
            new + read(s, path)->0.skip(new.len() as int),
        )
}

/// The file at `path` holds `data` now, and the others are as they were.
pub open spec fn file_set<T>(
    read: spec_fn(T, Seq<char>) -> Option<Seq<u8>>,
    s: T,
    s2: T,
    path: Seq<char>,
    data: Seq<u8>,
) -> bool {
    &&& read(s2, path) == Some(data)
    &&& forall|other: Seq<char>|
        other != path && read(s, other) is Some ==> #[trigger] read(s2, other) == read(s, other)
}

/// The first Data files are at a place, with the contents `files`.
spec fn kept_at<T>(
    read: spec_fn(T, Seq<char>) -> Option<Seq<u8>>,
    s: T,
    paths: PathsView,
    files: Seq<Seq<u8>>,
) -> bool {
    forall|i: int|
        0 <= i < files.len() ==> #[trigger] read(s, part_path(paths, i as nat)) == Some(files[i])
}

proof fn lemma_part_paths_differ(paths: PathsView, i: nat, j: nat)
    requires
        part_path(paths, i) == part_path(paths, j),
    ensures
        i == j,
{
    lemma_part_path(paths, i);
    lemma_part_path(paths, j);
    let head = paths.data_dir + "/"@;
    assert((head + part_name(i)).skip(head.len() as int) =~= part_name(i));
    assert((head + part_name(j)).skip(head.len() as int) =~= part_name(j));
    lemma_part_names_differ(i, j);
}

proof fn lemma_set_kept<T>(
    read: spec_fn(T, Seq<char>) -> Option<Seq<u8>>,
    s: T,
    s2: T,
    paths: PathsView,
    files: Seq<Seq<u8>>,
    i: int,
    data: Seq<u8>,
)
    requires
        kept_at(read, s, paths, files),
        0 <= i <= files.len(),
        file_set(read, s, s2, part_path(paths, i as nat), data),
    ensures
        kept_at(
            read,
            s2,
            paths,
            if i < files.len() {
                files.update(i, data)
            } else {
                files.push(data)
            },
        ),
{
    let after = if i < files.len() {
        files.update(i, data)
    } else {
        files.push(data)
    };
    assert forall|j: int| 0 <= j < after.len() implies #[trigger] read(
        s2,
        part_path(paths, j as nat),
    ) == Some(after[j]) by {
        if j != i {
            assert(read(s, part_path(paths, j as nat)) == Some(files[j]));
            if part_path(paths, j as nat) == part_path(paths, i as nat) {
                lemma_part_paths_differ(paths, j as nat, i as nat);
            }
        }
    }
}

proof fn lemma_parts_at_place<K: GodSink>(
    job: Job,
    out: Outside,
    run: Run<K::State>,
    read: spec_fn(K::State, Seq<char>) -> Option<Seq<u8>>,
    k: nat,
)
    requires
        keeps_files::<K>(read),
        k <= job.report.part_count,
        parts_upto::<K>(job, out, run, k).end is Ok,
    ensures
        kept_at(read, parts_upto::<K>(job, out, run, k).place, job.paths, files_written(job, k)),
    decreases k,
{
    if k > 0 {
        let m = (k - 1) as nat;
        let before = parts_upto::<K>(job, out, run, m);
        lemma_parts_at_place::<K>(job, out, run, read, m);
        let data = part_image(job.data(m as int));
        let step = K::after_write(
            before.place,
            part_path(job.paths, m),
            data,
            out.stamps[(m + 1) as int],
        );
        assert(parts_upto::<K>(job, out, run, k).place == step.0);
        assert(files_written(job, m).len() == m);
        lemma_set_kept(read, before.place, step.0, job.paths, files_written(job, m), m as int, data);
        assert(files_written(job, m).push(data) =~= files_written(job, k));
    }
}

proof fn lemma_chain_at_place<K: GodSink>(
    job: Job,
    out: Outside,
    run: Run<K::State>,
    read: spec_fn(K::State, Seq<char>) -> Option<Seq<u8>>,
    k: nat,
)
    requires
        keeps_files::<K>(read),
        k < job.report.part_count,
        kept_at(read, run.place, job.paths, files_chained(job, 0)),
        chain_upto::<K>(job, out, run, k).end is Ok,
    ensures
        kept_at(read, chain_upto::<K>(job, out, run, k).place, job.paths, files_chained(job, k)),
    decreases k,
{
    if k > 0 {
        let m = (k - 1) as nat;
        let i = job.report.part_count - 1 - k;
        let before = chain_upto::<K>(job, out, run, m);
        lemma_chain_at_place::<K>(job, out, run, read, m);
        lemma_files_step(job, k);
        let files = files_chained(job, m);
        let new = page(job.chained(i));
        let step = K::after_patch(before.place, part_path(job.paths, i as nat), new);
        assert(chain_upto::<K>(job, out, run, k).place == step.0);
        assert(read(before.place, part_path(job.paths, i as nat)) == Some(files[i]));
        lemma_set_kept(
            read,
            before.place,
            step.0,
            job.paths,
            files,
            i,
            new + files[i].skip(new.len() as int),
        );
    }
}

/// A conversion that succeeds leaves the whole package at every place that keeps files.
pub proof fn law_package_at_place<K: GodSink>(
    job: Job,
    out: Outside,
    run: Run<K::State>,
    read: spec_fn(K::State, Seq<char>) -> Option<Seq<u8>>,
    dest: Seq<char>,
    exe: TitleExecutionInfo,
    content_type: ContentType,
)
    requires
        keeps_files::<K>(read),
        job.paths == package_paths(dest, exe, content_type),
        job.report.part_count > 0,
        conversion::<K>(job, out, run).end is Ok,
    ensures
        ({
            let s = conversion::<K>(job, out, run).place;
            &&& forall|i: int|
                0 <= i < job.report.part_count ==> #[trigger] read(
                    s,
                    part_path(job.paths, i as nat),
                ) == Some(package_file(job, i))
            &&& read(s, job.paths.con_header) == Some(out.header)
        }),
{
    let n = job.report.part_count as nat;
    lemma_stages::<K>(job, out, run);
    let first = begun::<K>(job, out, run);
    let then = written::<K>(job, out, run);
    lemma_parts_at_place::<K>(job, out, first, read, n);
    lemma_files_start(job);
    lemma_chain_at_place::<K>(job, out, then, read, (n - 1) as nat);
    let chain = chain_upto::<K>(job, out, then, (n - 1) as nat);
    let s = conversion::<K>(job, out, run).place;
    assert forall|i: int| 0 <= i < n implies #[trigger] read(s, part_path(job.paths, i as nat))
        == Some(package_file(job, i)) by {
        let path = part_path(job.paths, i as nat);
        assert(files_chained(job, (n - 1) as nat)[i] == package_file(job, i));
        assert(read(chain.place, path) == Some(files_chained(job, (n - 1) as nat)[i]));
        reveal_strlit(".data");
        assert(path.len() > job.paths.con_header.len());
    }
}

/// The files of a package do not depend on where it goes, nor on what messages start with.
proof fn lemma_same_files(a: Job, b: Job, i: int)
    requires
        b == (Job { paths: b.paths, context: b.context, ..a }),
    ensures
        b.chained(i) == a.chained(i),
        package_file(b, i) == package_file(a, i),
    decreases a.report.part_count - i,
{
    assert(b.data(i) == a.data(i));
    if i < a.report.part_count - 1 {
        lemma_same_files(a, b, i + 1);
    }
}

/// A conversion to a volume has the same output as one to any place that keeps files, a
/// directory of the host for one: the same Data files and, if it is stored in the same form,
/// the same header.
///
/// Left out is what [`law_package_on_volume`] leaves out.
pub proof fn law_same_output<K: GodSink, D: Device>(
    job: Job,
    out: Outside,
    run: Run<K::State>,
    read: spec_fn(K::State, Seq<char>) -> Option<Seq<u8>>,
    dest: Seq<char>,
    vol_job: Job,
    vol_out: Outside,
    vol_run: Run<Disk>,
    l: Layout,
    vol_dest: Seq<char>,
    exe: TitleExecutionInfo,
    content_type: ContentType,
)
    requires
        keeps_files::<K>(read),
        job.paths == package_paths(dest, exe, content_type),
        job.report.part_count > 0,
        conversion::<K>(job, out, run).end is Ok,
        vol_job == (Job { paths: vol_job.paths, context: vol_job.context, ..job }),
        vol_job.paths == package_paths(vol_dest, exe, content_type),
        sound(vol_run.place, l),
        without_package(vol_run.place, vol_job.paths, job.report.part_count as nat),
        job.report.part_count == 1 || BLOCK_SIZE <= vol_run.place.geo.cluster_size(),
        vol_out.header == out.header,
        keeps_header(
            packed::<FatxVolume<D>>(vol_job, vol_out, vol_run).place,
            vol_out.header,
        ),
        conversion::<FatxVolume<D>>(vol_job, vol_out, vol_run).end is Ok,
    ensures
        vol_job.report == job.report,
        ({
            let s = conversion::<K>(job, out, run).place;
            let d = conversion::<FatxVolume<D>>(vol_job, vol_out, vol_run).place;
            &&& forall|i: int|
                0 <= i < job.report.part_count ==> {
                    &&& read(s, #[trigger] part_path(job.paths, i as nat)) is Some
                    &&& d.read_path(part_path(vol_job.paths, i as nat)) == Ok::<Seq<u8>, ErrView>(
                        read(s, part_path(job.paths, i as nat))->0,
                    )
                }
            &&& read(s, job.paths.con_header) is Some
            &&& d.read_path(vol_job.paths.con_header) == Ok::<Seq<u8>, ErrView>(
                read(s, job.paths.con_header)->0,
            )
        }),
{
    law_package_at_place::<K>(job, out, run, read, dest, exe, content_type);
    let l2 = law_package_on_volume::<D>(
        vol_job,
        vol_out,
        vol_run,
        l,
        vol_dest,
        exe,
        content_type,
    );
    let s = conversion::<K>(job, out, run).place;
    let d = conversion::<FatxVolume<D>>(vol_job, vol_out, vol_run).place;
    assert forall|i: int| 0 <= i < job.report.part_count implies {
        &&& read(s, #[trigger] part_path(job.paths, i as nat)) is Some
        &&& d.read_path(part_path(vol_job.paths, i as nat)) == Ok::<Seq<u8>, ErrView>(
            read(s, part_path(job.paths, i as nat))->0,
        )
    } by {
        lemma_same_files(job, vol_job, i);
        assert(read(s, part_path(job.paths, i as nat)) == Some(package_file(job, i)));
        assert(d.read_path(part_path(vol_job.paths, i as nat)) == Ok::<Seq<u8>, ErrView>(
            package_file(vol_job, i),
        ));
    }
}

} // verus!
