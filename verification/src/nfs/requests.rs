//! Laws of requests: what a client gets, and what has become of the volume.

use vstd::prelude::*;
use vstd::utf8::{decode_utf8, valid_utf8};
use crate::disk::{find_entry, Stamp};
use crate::error::ErrView;
use crate::laws::entries::law_finding;
use crate::laws::granting::{law_created_directory, law_created_file};
use crate::laws::removal::{lemma_rename_in, lemma_resolved_in_parent};
use crate::laws::sound_creation::{law_directory_created_soundly, law_file_created_soundly};
use crate::laws::sound_removal::{law_file_deleted_soundly, sole_entry};
use crate::laws::soundness::{sound, Layout};
use crate::nfs::attrs::{cluster_of_id, entry_attr, FileAttr, FileKind, NfsStatus, NfsTime};
use crate::nfs::server::{
    climb, entry_line, files_without, is_metadata_name, learned, merged, page, page_start, LineView,
    NfsView,
};
use crate::nfs::storage::{contents_before, in_its_place};
use crate::notation::law_path_steps;
use crate::path::{name_of, parent_of, parts};
use crate::text::{has_prefix, same_name};
use crate::types::{DirentView, FIRST_CLUSTER};

verus! {

// ---------------------------------------------------------------------------
// Lookups and listings
// ---------------------------------------------------------------------------

/// Looking up a name gives the cluster of the first entry of that name, whatever its case. A dot
/// is the directory itself, and two are the directory that it was seen in. Names that are no
/// text, or that the directory does not have, are not found.
pub proof fn law_lookup(s: NfsView, dirid: u64, filename: Seq<u8>, k: int)
    requires
        dirid <= u32::MAX,
    ensures
        ({
            let name = decode_utf8(filename);
            let (s2, listed) = s.dir_entries(dirid as u32);
            let entries = listed->Ok_0;
            let (s3, r) = s.lookup(dirid, filename);
            if !valid_utf8(filename) {
                s3 == s && r == Err::<u64, NfsStatus>(NfsStatus::Noent)
            } else if name == seq!['.'] {
                s3 == s && r == Ok::<u64, NfsStatus>(dirid)
            } else if name == seq!['.', '.'] {
                &&& s3 == s
                &&& s.parents.dom().contains(dirid as u32) ==> r == Ok::<u64, NfsStatus>(
                    s.parents[dirid as u32].0 as u64,
                )
                &&& !s.parents.dom().contains(dirid as u32) ==> r == Ok::<u64, NfsStatus>(1)
            } else {
                &&& s3 == s2
                &&& listed is Err ==> r == Err::<u64, NfsStatus>(listed->Err_0)
                &&& listed is Ok && 0 <= k < entries.len() && same_name(entries[k].filename(), name)
                    && (forall|m: int|
                    0 <= m < k ==> !same_name((#[trigger] entries[m]).filename(), name)) ==> r
                    == Ok::<u64, NfsStatus>(entries[k].first_cluster as u64)
                &&& listed is Ok && (forall|m: int|
                    0 <= m < entries.len() ==> !same_name(
                        (#[trigger] entries[m]).filename(),
                        name,
                    )) ==> r == Err::<u64, NfsStatus>(NfsStatus::Noent)
            }
        }),
{
    reveal_strlit(".");
    reveal_strlit("..");
    assert("."@ =~= seq!['.']);
    assert(".."@ =~= seq!['.', '.']);
    assert(cluster_of_id(dirid) == dirid as u32);
    let entries = s.dir_entries(dirid as u32).1->Ok_0;
    let j = law_finding(entries, decode_utf8(filename));
}

/// A directory is listed from the disk, unless it is remembered. What has been listed is
/// remembered as it was, until it is forgotten.
pub proof fn law_listing_is_remembered(s: NfsView, cluster: u32)
    ensures
        !s.dirs.dom().contains(cluster) && s.disk.entries(cluster) is Ok ==> s.dir_entries(
            cluster,
        ).1 == Ok::<Seq<DirentView>, NfsStatus>(s.disk.entries(cluster)->Ok_0),
        !s.dirs.dom().contains(cluster) && s.disk.entries(cluster) is Err ==> s.dir_entries(
            cluster,
        ) == (s, Err::<Seq<DirentView>, NfsStatus>(NfsStatus::Io)),
        s.dir_entries(cluster).1 is Ok ==> s.dir_entries(cluster).0.dir_entries(cluster) == (
            s.dir_entries(cluster).0,
            s.dir_entries(cluster).1,
        ),
        s.dir_entries(cluster).0.disk == s.disk,
        s.dir_entries(cluster).0.files == s.files,
        !s.forget_dir(cluster).dirs.dom().contains(cluster),
        s.forget_dir(cluster).disk == s.disk,
        forall|other: u32|
            other != cluster && s.dirs.dom().contains(other) ==> s.forget_dir(
                cluster,
            ).dirs.dom().contains(other) && s.forget_dir(cluster).dirs[other] == s.dirs[other],
{
}

/// Listing a directory tells where its entries are: each is known to be in the directory, under
/// its name. What is known of others stays.
pub proof fn law_learned(
    parents: Map<u32, (u32, Seq<char>)>,
    dir: u32,
    entries: Seq<DirentView>,
    k: int,
    other: u32,
)
    requires
        0 <= k < entries.len(),
        forall|m: int|
            k < m < entries.len() ==> (#[trigger] entries[m]).first_cluster
                != entries[k].first_cluster,
        forall|m: int| 0 <= m < entries.len() ==> (#[trigger] entries[m]).first_cluster != other,
    ensures
        ({
            let after = learned(parents, dir, entries, 0);
            let c = entries[k].first_cluster;
            &&& after.dom().contains(c)
            &&& after[c] == (dir, entries[k].filename())
            &&& after.dom().contains(other) == parents.dom().contains(other)
            &&& parents.dom().contains(other) ==> after[other] == parents[other]
        }),
{
    lemma_learned_one(parents, dir, entries, 0, k);
    lemma_learned_others(parents, dir, entries, 0, other);
}

proof fn lemma_learned_one(
    parents: Map<u32, (u32, Seq<char>)>,
    dir: u32,
    entries: Seq<DirentView>,
    i: int,
    k: int,
)
    requires
        0 <= i <= entries.len(),
        0 <= k < entries.len(),
        k >= i || (parents.dom().contains(entries[k].first_cluster)
            && parents[entries[k].first_cluster] == (dir, entries[k].filename())),
        forall|m: int|
            k < m < entries.len() ==> (#[trigger] entries[m]).first_cluster
                != entries[k].first_cluster,
    ensures
        learned(parents, dir, entries, i).dom().contains(entries[k].first_cluster),
        learned(parents, dir, entries, i)[entries[k].first_cluster] == (dir, entries[k].filename()),
    decreases entries.len() - i,
{
    if i < entries.len() {
        assert(i > k ==> entries[i].first_cluster != entries[k].first_cluster);
        lemma_learned_one(
            parents.insert(entries[i].first_cluster, (dir, entries[i].filename())),
            dir,
            entries,
            i + 1,
            k,
        );
    }
}

proof fn lemma_learned_others(
    parents: Map<u32, (u32, Seq<char>)>,
    dir: u32,
    entries: Seq<DirentView>,
    i: int,
    other: u32,
)
    requires
        0 <= i <= entries.len(),
        forall|m: int| 0 <= m < entries.len() ==> (#[trigger] entries[m]).first_cluster != other,
    ensures
        ({
            let after = learned(parents, dir, entries, i);
            &&& after.dom().contains(other) == parents.dom().contains(other)
            &&& parents.dom().contains(other) ==> after[other] == parents[other]
        }),
    decreases entries.len() - i,
{
    if i < entries.len() {
        assert(entries[i].first_cluster != other);
        lemma_learned_others(
            parents.insert(entries[i].first_cluster, (dir, entries[i].filename())),
            dir,
            entries,
            i + 1,
            other,
        );
    }
}

/// Steps from one cluster to another, each below the one before: what they are called, one
/// behind the other.
pub open spec fn joined(names: Seq<Seq<char>>) -> Seq<char>
    decreases names.len(),
{
    if names.len() == 0 {
        seq![]
    } else {
        joined(names.drop_last()).push('/') + names.last()
    }
}

/// The path of what is in a directory goes from the root through all the directories that lead
/// there. `clusters` are these directories, below the root, and `names` what they are called.
pub proof fn law_paths_of_clusters(
    s: NfsView,
    clusters: Seq<u32>,
    names: Seq<Seq<char>>,
    name: Seq<char>,
)
    requires
        clusters.len() == names.len() <= s.parents.len(),
        forall|i: int|
            0 <= i < clusters.len() ==> {
                let c = #[trigger] clusters[i];
                &&& c != 1
                &&& s.parents.dom().contains(c)
                &&& s.parents[c].0 == (if i == 0 { 1u32 } else { clusters[i - 1] })
                &&& s.parents[c].1 == names[i]
            },
    ensures
        ({
            let dirid = if clusters.len() == 0 { 1u64 } else { clusters.last() as u64 };
            s.path_of(dirid, name) == joined(names.push(name))
        }),
{
    let c = if clusters.len() == 0 { 1u32 } else { clusters.last() };
    crate::nfs::attrs::law_file_ids(c);
    lemma_climb(s.parents, clusters, names, s.parents.len());
    assert(names.push(name).drop_last() =~= names);
}

proof fn lemma_climb(
    parents: Map<u32, (u32, Seq<char>)>,
    clusters: Seq<u32>,
    names: Seq<Seq<char>>,
    fuel: nat,
)
    requires
        clusters.len() == names.len() <= fuel,
        forall|i: int|
            0 <= i < clusters.len() ==> {
                let c = #[trigger] clusters[i];
                &&& c != 1
                &&& parents.dom().contains(c)
                &&& parents[c].0 == (if i == 0 { 1u32 } else { clusters[i - 1] })
                &&& parents[c].1 == names[i]
            },
    ensures
        climb(parents, if clusters.len() == 0 { 1u32 } else { clusters.last() }, fuel) == joined(
            names,
        ),
    decreases names.len(),
{
    if clusters.len() > 0 {
        let n = clusters.len() - 1;
        assert(clusters[n] == clusters.last());
        let before = clusters.drop_last();
        assert forall|i: int| 0 <= i < before.len() implies {
            let c = #[trigger] before[i];
            &&& c != 1
            &&& parents.dom().contains(c)
            &&& parents[c].0 == (if i == 0 { 1u32 } else { before[i - 1] })
            &&& parents[c].1 == names.drop_last()[i]
        } by {
            assert(before[i] == clusters[i]);
        }
        lemma_climb(parents, before, names.drop_last(), (fuel - 1) as nat);
    }
}

/// A page has at most as many lines as are wanted, and they stand in the listing one behind the
/// other. The first page begins with the listing; others begin behind the first line that has
/// the identifier given, and are empty if there is none. A page says that the listing ends with
/// it exactly when its last line does.
pub proof fn law_page(lines: Seq<LineView>, after: u64, max: nat) -> (start: int)
    ensures
        ({
            let (part, end) = page(lines, after, max);
            &&& 0 <= start <= lines.len()
            &&& part.len() <= max
            &&& start + part.len() <= lines.len()
            &&& forall|i: int| 0 <= i < part.len() ==> #[trigger] part[i] == lines[start + i]
            &&& end <==> start + part.len() == lines.len()
            &&& part.len() < max ==> end
            &&& after == 0 ==> start == 0
            &&& after != 0 && start > 0 ==> (lines[start - 1].fileid == after || start
                == lines.len())
            &&& after != 0 ==> forall|i: int|
                0 <= i < start - 1 ==> (#[trigger] lines[i]).fileid != after
            &&& after != 0 && lines.len() > 0 ==> start > 0
        }),
{
    lemma_start(lines, after);
    page_start(lines, after) as int
}

proof fn lemma_start(lines: Seq<LineView>, after: u64)
    ensures
        ({
            let start = page_start(lines, after) as int;
            &&& start <= lines.len()
            &&& after == 0 ==> start == 0
            &&& after != 0 && start > 0 ==> (lines[start - 1].fileid == after || start
                == lines.len())
            &&& after != 0 ==> forall|i: int|
                0 <= i < start - 1 ==> (#[trigger] lines[i]).fileid != after
            &&& after != 0 && lines.len() > 0 ==> start > 0
        }),
    decreases lines.len(),
{
    if after != 0 && lines.len() > 0 && lines[0].fileid != after {
        let rest = lines.drop_first();
        lemma_start(rest, after);
        let start = page_start(lines, after) as int;
        assert forall|i: int| 0 <= i < start - 1 implies (#[trigger] lines[i]).fileid != after by {
            if i > 0 {
                assert(rest[i - 1] == lines[i]);
            }
        }
    }
}

/// What a directory lists: itself under a dot, its parent under two, both with the attributes
/// that are given for them, then its entries in their order, each under its name with the
/// attributes of the entry.
pub proof fn law_directory_lines(s: NfsView, dirid: u64, max: nat, now: NfsTime, k: int)
    requires
        s.readdir(dirid, 0, max, now).1 is Ok,
        max >= s.dir_entries(cluster_of_id(dirid)).1->Ok_0.len() + 2,
    ensures
        ({
            let (s1, listed) = s.dir_entries(cluster_of_id(dirid));
            let entries = listed->Ok_0;
            let (s2, own) = s1.getattr(dirid, now);
            let above = s2.getattr(s2.parent_id(dirid), now).1;
            let (lines, end) = s.readdir(dirid, 0, max, now).1->Ok_0;
            &&& listed is Ok && own is Ok && above is Ok
            &&& end
            &&& lines.len() == entries.len() + 2
            &&& lines[0].name == seq!['.'] && lines[0].fileid == dirid && lines[0].attr
                == own->Ok_0
            &&& lines[1].name == seq!['.', '.'] && lines[1].fileid == s2.parent_id(dirid)
            &&& lines[1].attr == above->Ok_0
            &&& 0 <= k < entries.len() ==> {
                &&& lines[k + 2].name == entries[k].filename()
                &&& lines[k + 2].fileid == entries[k].first_cluster
                &&& lines[k + 2].attr == entry_attr(entries[k])
                &&& lines[k + 2].attr.size == entries[k].file_size
            }
        }),
{
    reveal_strlit(".");
    reveal_strlit("..");
    assert("."@ =~= seq!['.']);
    assert(".."@ =~= seq!['.', '.']);
}

/// Pages are parts of one listing: what a page gives is a part of what a page long enough for
/// all gives from the start.
pub proof fn law_pages_of_one_listing(
    s: NfsView,
    dirid: u64,
    after: u64,
    max: nat,
    all: nat,
    now: NfsTime,
)
    requires
        s.readdir(dirid, 0, all, now).1 is Ok,
        all >= s.dir_entries(cluster_of_id(dirid)).1->Ok_0.len() + 2,
    ensures
        s.readdir(dirid, after, max, now).0 == s.readdir(dirid, 0, all, now).0,
        s.readdir(dirid, after, max, now).1 == Ok::<(Seq<LineView>, bool), NfsStatus>(
            page(s.readdir(dirid, 0, all, now).1->Ok_0.0, after, max),
        ),
{
    let (s1, listed) = s.dir_entries(cluster_of_id(dirid));
    let (s2, own) = s1.getattr(dirid, now);
    let parent = s2.parent_id(dirid);
    let above = s2.getattr(parent, now).1;
    let lines = seq![
        LineView { fileid: dirid, name: "."@, attr: own->Ok_0 },
        LineView { fileid: parent, name: ".."@, attr: above->Ok_0 },
    ] + listed->Ok_0.map_values(|e: DirentView| entry_line(e));
    assert(page(lines, 0, all).0 =~= lines);
}

// ---------------------------------------------------------------------------
// Names and contents
// ---------------------------------------------------------------------------

/// Contents after a write: as long as they were, or up to the end of what was written; what was
/// written from the offset on, what was there elsewhere, and zeros in between.
pub proof fn law_merged(data: Seq<u8>, offset: u64, new: Seq<u8>, i: int)
    ensures
        ({
            let all = merged(data, offset, new);
            &&& all.len() >= data.len() && all.len() >= offset + new.len()
            &&& all.len() == data.len() || all.len() == offset + new.len()
            &&& 0 <= i < new.len() ==> all[offset + i] == new[i]
            &&& 0 <= i < data.len() && !(offset <= i < offset + new.len()) ==> all[i] == data[i]
            &&& data.len() <= i < offset ==> all[i] == 0
        }),
{
}

/// The names that no client may use are those of the files that macOS leaves everywhere: four
/// names, and all that begin with a dot and an underscore.
pub proof fn law_metadata_names(name: Seq<char>)
    ensures
        name.len() >= 2 && name[0] == '.' && name[1] == '_' ==> is_metadata_name(name),
        name == ".DS_Store"@ || name == ".Spotlight-V100"@ || name == ".Trashes"@ || name
            == ".fseventsd"@ ==> is_metadata_name(name),
        is_metadata_name(name) ==> name.len() >= 2 && name[0] == '.' && (name[1] == '_' || name
            == ".DS_Store"@ || name == ".Spotlight-V100"@ || name == ".Trashes"@ || name
            == ".fseventsd"@),
{
    reveal_strlit("._");
    reveal_strlit(".DS_Store");
    reveal_strlit(".Spotlight-V100");
    reveal_strlit(".Trashes");
    reveal_strlit(".fseventsd");
    if name.len() >= 2 && name[0] == '.' && name[1] == '_' {
        assert(name.take(2) =~= "._"@);
    }
    if has_prefix(name, "._"@) {
        assert(name.take(2)[0] == name[0] && name.take(2)[1] == name[1]);
    }
}

/// A client's name that is no text is refused, and so is one that it may not use. Nothing
/// changes.
pub proof fn law_refused_requests(
    s: NfsView,
    dirid: u64,
    name: Seq<u8>,
    other: Seq<u8>,
    other_id: u64,
    stamp: Stamp,
)
    requires
        !s.readonly,
    ensures
        !valid_utf8(name) ==> {
            &&& s.create(dirid, name, stamp) == (
                s,
                Err::<(u64, FileAttr), NfsStatus>(NfsStatus::Inval),
            )
            &&& s.mkdir(dirid, name, stamp) == (
                s,
                Err::<(u64, FileAttr), NfsStatus>(NfsStatus::Inval),
            )
            &&& s.create_exclusive(dirid, name, stamp) == (
                s,
                Err::<u64, NfsStatus>(NfsStatus::Inval),
            )
            &&& s.remove(dirid, name) == (s, Err::<(), NfsStatus>(NfsStatus::Inval))
            &&& s.rename(dirid, name, dirid, other) == (
                s,
                Err::<(), NfsStatus>(NfsStatus::Inval),
            )
            &&& s.rename(dirid, other, dirid, name) == (
                s,
                Err::<(), NfsStatus>(NfsStatus::Inval),
            )
        },
        valid_utf8(name) && is_metadata_name(decode_utf8(name)) ==> {
            &&& s.create(dirid, name, stamp) == (
                s,
                Err::<(u64, FileAttr), NfsStatus>(NfsStatus::Perm),
            )
            &&& s.mkdir(dirid, name, stamp) == (
                s,
                Err::<(u64, FileAttr), NfsStatus>(NfsStatus::Perm),
            )
            &&& s.create_exclusive(dirid, name, stamp) == (
                s,
                Err::<u64, NfsStatus>(NfsStatus::Perm),
            )
        },
        dirid != other_id ==> s.rename(dirid, name, other_id, other) == (
            s,
            Err::<(), NfsStatus>(NfsStatus::NotSupp),
        ),
{
}

// ---------------------------------------------------------------------------
// Changes
// ---------------------------------------------------------------------------

/// A name that a client can give to something in a directory that the server knows the way to.
pub open spec fn usable(s: NfsView, dirid: u64, filename: Seq<u8>) -> bool {
    let name = decode_utf8(filename);
    let path = s.path_of(dirid, name);
    &&& valid_utf8(filename)
    &&& name.len() > 0
    &&& name != seq!['.'] && name != seq!['.', '.']
    &&& forall|i: int| 0 <= i < name.len() ==> #[trigger] name[i] != '/'
    &&& s.disk.resolve(parent_of(path)) is Ok
    &&& s.disk.resolve(parent_of(path))->Ok_0.first_cluster == cluster_of_id(dirid)
}

/// What has been found in a directory that is not remembered.
proof fn lemma_looked_up(s: NfsView, dirid: u64, filename: Seq<u8>, e: DirentView)
    requires
        valid_utf8(filename),
        decode_utf8(filename) != seq!['.'],
        decode_utf8(filename) != seq!['.', '.'],
        !s.dirs.dom().contains(cluster_of_id(dirid)),
        s.disk.entries(cluster_of_id(dirid)) is Ok,
        find_entry(s.disk.entries(cluster_of_id(dirid))->Ok_0, decode_utf8(filename)) == Some(e),
    ensures
        s.lookup(dirid, filename).1 == Ok::<u64, NfsStatus>(e.first_cluster as u64),
        s.find_new(dirid, decode_utf8(filename)).1 == Ok::<(u64, FileAttr), NfsStatus>(
            (e.first_cluster as u64, entry_attr(e)),
        ),
        s.find_new(dirid, decode_utf8(filename)).0.lookup(dirid, filename).1 == Ok::<
            u64,
            NfsStatus,
        >(e.first_cluster as u64),
{
    reveal_strlit(".");
    reveal_strlit("..");
    assert("."@ =~= seq!['.']);
    assert(".."@ =~= seq!['.', '.']);
}

/// A file that a client creates under a new name is there: it is found under that name with the
/// identifier given, is a file, and is empty.
pub proof fn law_created_at_server(
    s: NfsView,
    l: Layout,
    dirid: u64,
    filename: Seq<u8>,
    stamp: Stamp,
)
    requires
        sound(s.disk, l),
        !s.readonly,
        usable(s, dirid, filename),
        !is_metadata_name(decode_utf8(filename)),
        ({
            let path = s.path_of(dirid, decode_utf8(filename));
            &&& s.disk.resolve(path) is Err
            &&& s.disk.create_file(path, seq![], stamp).1 is Ok
            &&& s.disk.read_cluster(s.disk.free_from(FIRST_CLUSTER as int, 1)->Ok_0[0]) is Ok
        }),
    ensures
        ({
            let path = s.path_of(dirid, decode_utf8(filename));
            let (s2, r) = s.create(dirid, filename, stamp);
            let (id, a) = r->Ok_0;
            &&& r is Ok
            &&& s2.disk == s.disk.create_file(path, seq![], stamp).0
            &&& a.kind == FileKind::Regular && a.size == 0 && a.fileid == id
            &&& s2.lookup(dirid, filename).1 == Ok::<u64, NfsStatus>(id)
        }),
{
    let name = decode_utf8(filename);
    let dir = climb(s.parents, cluster_of_id(dirid), s.parents.len());
    let path = s.path_of(dirid, name);
    assert(path == dir.push('/') + name);
    law_path_steps(dir, name);
    let d2 = s.disk.create_file(path, seq![], stamp).0;
    law_created_file(s.disk, l, path, seq![], stamp);
    let l2 = law_file_created_soundly(s.disk, l, path, seq![], stamp);
    lemma_resolved_in_parent(d2, path);
    assert(d2.resolve(parent_of(path)) == s.disk.resolve(parent_of(path)));
    let e = d2.resolve(path)->Ok_0;
    let s1 = s.with_disk(d2).forget_dir(cluster_of_id(dirid));
    lemma_looked_up(s1, dirid, filename, e);
    assert(s.create(dirid, filename, stamp) == s1.find_new(dirid, name));
}

/// A directory that a client creates is there: it is found under its name with the identifier
/// given, and is a directory.
pub proof fn law_made_at_server(
    s: NfsView,
    l: Layout,
    dirid: u64,
    filename: Seq<u8>,
    stamp: Stamp,
)
    requires
        sound(s.disk, l),
        !s.readonly,
        usable(s, dirid, filename),
        !is_metadata_name(decode_utf8(filename)),
        s.disk.create_directory(s.path_of(dirid, decode_utf8(filename)), stamp).1 is Ok,
    ensures
        ({
            let path = s.path_of(dirid, decode_utf8(filename));
            let (s2, r) = s.mkdir(dirid, filename, stamp);
            let (id, a) = r->Ok_0;
            &&& r is Ok
            &&& s2.disk == s.disk.create_directory(path, stamp).0
            &&& a.kind == FileKind::Directory && a.size == 0 && a.fileid == id
            &&& s2.lookup(dirid, filename).1 == Ok::<u64, NfsStatus>(id)
        }),
{
    let name = decode_utf8(filename);
    let dir = climb(s.parents, cluster_of_id(dirid), s.parents.len());
    let path = s.path_of(dirid, name);
    assert(path == dir.push('/') + name);
    law_path_steps(dir, name);
    let d2 = s.disk.create_directory(path, stamp).0;
    law_created_directory(s.disk, l, path, stamp);
    let l2 = law_directory_created_soundly(s.disk, l, path, stamp);
    lemma_resolved_in_parent(d2, path);
    assert(d2.resolve(parent_of(path)) == s.disk.resolve(parent_of(path)));
    let e = d2.resolve(path)->Ok_0;
    assert(0x10u8 & 0x10 == 0x10) by (bit_vector);
    let s1 = s.with_disk(d2).forget_dir(cluster_of_id(dirid));
    lemma_looked_up(s1, dirid, filename, e);
    assert(s.mkdir(dirid, filename, stamp) == s1.find_new(dirid, name));
}

/// Creating a file exclusively under a new name is creating it; under a name that is taken, it
/// is refused.
pub proof fn law_created_exclusively(s: NfsView, dirid: u64, filename: Seq<u8>, stamp: Stamp)
    requires
        !s.readonly,
        valid_utf8(filename),
        !is_metadata_name(decode_utf8(filename)),
        s.dir_entries(cluster_of_id(dirid)).1 is Ok,
    ensures
        ({
            let (s1, listed) = s.dir_entries(cluster_of_id(dirid));
            let taken = exists|k: int|
                0 <= k < listed->Ok_0.len() && same_name(
                    (#[trigger] listed->Ok_0[k]).filename(),
                    decode_utf8(filename),
                );
            let (s2, r) = s.create_exclusive(dirid, filename, stamp);
            let (s3, made) = s1.create(dirid, filename, stamp);
            &&& taken ==> s2 == s1 && r == Err::<u64, NfsStatus>(NfsStatus::Exist)
            &&& !taken ==> s2 == s3 && (r is Ok <==> made is Ok)
            &&& !taken && r is Ok ==> r->Ok_0 == made->Ok_0.0
            &&& !taken && r is Err ==> r->Err_0 == made->Err_0
        }),
{
    let entries = s.dir_entries(cluster_of_id(dirid)).1->Ok_0;
    let k = law_finding(entries, decode_utf8(filename));
}

/// What is not in a directory that is not remembered is not found.
proof fn lemma_not_found(s: NfsView, dirid: u64, filename: Seq<u8>)
    requires
        valid_utf8(filename),
        decode_utf8(filename) != seq!['.'],
        decode_utf8(filename) != seq!['.', '.'],
        !s.dirs.dom().contains(cluster_of_id(dirid)),
        s.disk.entries(cluster_of_id(dirid)) is Ok,
        find_entry(s.disk.entries(cluster_of_id(dirid))->Ok_0, decode_utf8(filename)) is None,
    ensures
        s.lookup(dirid, filename).1 == Err::<u64, NfsStatus>(NfsStatus::Noent),
{
    reveal_strlit(".");
    reveal_strlit("..");
    assert("."@ =~= seq!['.']);
    assert(".."@ =~= seq!['.', '.']);
}

/// A file that a client removes is there no more.
pub proof fn law_removed_at_server(s: NfsView, l: Layout, dirid: u64, filename: Seq<u8>)
    requires
        sound(s.disk, l),
        !s.readonly,
        usable(s, dirid, filename),
        ({
            let path = s.path_of(dirid, decode_utf8(filename));
            &&& s.disk.resolve(path) is Ok
            &&& !s.disk.resolve(path)->Ok_0.is_directory()
            &&& sole_entry(
                s.disk,
                l,
                cluster_of_id(dirid),
                decode_utf8(filename),
                s.disk.resolve(path)->Ok_0.first_cluster,
            )
        }),
    ensures
        ({
            let path = s.path_of(dirid, decode_utf8(filename));
            let (s2, r) = s.remove(dirid, filename);
            &&& r == Ok::<(), NfsStatus>(())
            &&& s2.disk.resolve(path) == Err::<DirentView, ErrView>(
                ErrView::FileNotFound(name_of(path)),
            )
            &&& s2.lookup(dirid, filename).1 == Err::<u64, NfsStatus>(NfsStatus::Noent)
        }),
{
    let name = decode_utf8(filename);
    let dir = climb(s.parents, cluster_of_id(dirid), s.parents.len());
    let path = s.path_of(dirid, name);
    assert(path == dir.push('/') + name);
    law_path_steps(dir, name);
    law_file_deleted_soundly(s.disk, l, path);
    let d2 = s.disk.delete(path).0;
    let s1 = s.with_disk(d2).forget_dir(cluster_of_id(dirid));
    law_remove_follows_the_volume(s, dirid, filename);
    assert(s.remove(dirid, filename).0 == s1);
    lemma_not_found(s1, dirid, filename);
}

/// A file or directory that a client renames is found under its new name, with the same
/// identifier.
pub proof fn law_renamed_at_server(s: NfsView, l: Layout, dirid: u64, from: Seq<u8>, to: Seq<u8>)
    requires
        sound(s.disk, l),
        !s.readonly,
        usable(s, dirid, from),
        valid_utf8(to),
        decode_utf8(to) != seq!['.'],
        decode_utf8(to) != seq!['.', '.'],
        s.disk.resolve(s.path_of(dirid, decode_utf8(from))) is Ok,
        s.disk.rename(s.path_of(dirid, decode_utf8(from)), decode_utf8(to)).1 is Ok,
    ensures
        ({
            let path = s.path_of(dirid, decode_utf8(from));
            let (s2, r) = s.rename(dirid, from, dirid, to);
            &&& r == Ok::<(), NfsStatus>(())
            &&& s2.disk == s.disk.rename(path, decode_utf8(to)).0
            &&& s2.lookup(dirid, to).1 == Ok::<u64, NfsStatus>(
                s.disk.resolve(path)->Ok_0.first_cluster as u64,
            )
        }),
{
    let name = decode_utf8(from);
    let dir = climb(s.parents, cluster_of_id(dirid), s.parents.len());
    let path = s.path_of(dirid, name);
    assert(path == dir.push('/') + name);
    law_path_steps(dir, name);
    lemma_resolved_in_parent(s.disk, path);
    let d2 = s.disk.rename(path, decode_utf8(to)).0;
    lemma_rename_in(s.disk, cluster_of_id(dirid), name, decode_utf8(to));
    let s1 = s.with_disk(d2).forget_dir(cluster_of_id(dirid));
    let e = find_entry(d2.entries(cluster_of_id(dirid))->Ok_0, decode_utf8(to))->Some_0;
    lemma_looked_up(s1, dirid, to, e);
}

/// What the volume makes or renames for a client stays as the volume has made it, whether or not
/// the name was taken before, and the directory is listed anew.
pub proof fn law_changes_follow_the_volume(
    s: NfsView,
    dirid: u64,
    filename: Seq<u8>,
    to: Seq<u8>,
    stamp: Stamp,
)
    requires
        !s.readonly,
        valid_utf8(filename),
        valid_utf8(to),
    ensures
        ({
            let path = s.path_of(dirid, decode_utf8(filename));
            let file = s.disk.create_file(path, seq![], stamp);
            let directory = s.disk.create_directory(path, stamp);
            let new_name = s.disk.rename(path, decode_utf8(to));
            let c = cluster_of_id(dirid);
            &&& !is_metadata_name(decode_utf8(filename)) ==> {
                &&& s.create(dirid, filename, stamp).0.disk == file.0
                &&& s.mkdir(dirid, filename, stamp).0.disk == directory.0
                &&& file.1 is Ok && file.0.entries(c) is Ok ==> s.create(
                    dirid,
                    filename,
                    stamp,
                ).0.dir_entries(c).1 == Ok::<Seq<DirentView>, NfsStatus>(file.0.entries(c)->Ok_0)
                &&& directory.1 is Ok && directory.0.entries(c) is Ok ==> s.mkdir(
                    dirid,
                    filename,
                    stamp,
                ).0.dir_entries(c).1 == Ok::<Seq<DirentView>, NfsStatus>(
                    directory.0.entries(c)->Ok_0,
                )
            }
            &&& s.rename(dirid, filename, dirid, to).0.disk == new_name.0
            &&& new_name.1 is Ok && new_name.0.entries(c) is Ok ==> s.rename(
                dirid,
                filename,
                dirid,
                to,
            ).0.dir_entries(c).1 == Ok::<Seq<DirentView>, NfsStatus>(new_name.0.entries(c)->Ok_0)
        }),
{
}

/// What the volume refuses is an error of input and output to a client.
pub proof fn law_volume_errors(
    s: NfsView,
    dirid: u64,
    filename: Seq<u8>,
    to: Seq<u8>,
    stamp: Stamp,
)
    requires
        !s.readonly,
        valid_utf8(filename),
        valid_utf8(to),
        !is_metadata_name(decode_utf8(filename)),
    ensures
        ({
            let path = s.path_of(dirid, decode_utf8(filename));
            &&& s.disk.create_file(path, seq![], stamp).1 is Err ==> s.create(
                dirid,
                filename,
                stamp,
            ).1 == Err::<(u64, FileAttr), NfsStatus>(NfsStatus::Io)
            &&& s.disk.create_directory(path, stamp).1 is Err ==> s.mkdir(dirid, filename, stamp).1
                == Err::<(u64, FileAttr), NfsStatus>(NfsStatus::Io)
            &&& s.disk.rename(path, decode_utf8(to)).1 is Err ==> s.rename(
                dirid,
                filename,
                dirid,
                to,
            ).1 == Err::<(), NfsStatus>(NfsStatus::Io)
            &&& s.disk.resolve(path) is Err ==> s.remove(dirid, filename).1 == Err::<
                (),
                NfsStatus,
            >(NfsStatus::Io)
        }),
{
    let path = s.path_of(dirid, decode_utf8(filename));
    if s.disk.resolve(path) is Err {
        crate::laws::granting::law_nothing_to_delete(s.disk, path);
    }
}

/// A write that the volume takes is done: the file is made anew with the merged contents, under
/// its path, and what was remembered of it is forgotten.
pub proof fn law_write_granted(
    s: NfsView,
    l: Layout,
    id: u64,
    offset: u64,
    data: Seq<u8>,
    stamp: Stamp,
    now: NfsTime,
)
    requires
        !s.readonly,
        in_its_place(s, l, cluster_of_id(id)),
        contents_before(s, cluster_of_id(id)) is Ok,
        ({
            let (s1, found) = s.entry_of(cluster_of_id(id));
            let path = s1.path_of(s.parents[cluster_of_id(id)].0 as u64, found->Ok_0.filename());
            let all = merged(contents_before(s, cluster_of_id(id))->Ok_0, offset, data);
            s.disk.delete(path).0.create_file(path, all, stamp).1 is Ok
        }),
    ensures
        ({
            let (s1, found) = s.entry_of(cluster_of_id(id));
            let p = s.parents[cluster_of_id(id)].0;
            let path = s1.path_of(p as u64, found->Ok_0.filename());
            let all = merged(contents_before(s, cluster_of_id(id))->Ok_0, offset, data);
            let d2 = s.disk.delete(path).0.create_file(path, all, stamp).0;
            let (s2, r) = s.write(id, offset, data, stamp, now);
            &&& s2.disk == d2
            &&& (s2, r) == s1.with_disk(d2).forget_file(cluster_of_id(id)).forget_dir(p).getattr(
                id,
                now,
            )
        }),
{
    let cluster = cluster_of_id(id);
    let s1 = s.entry_of(cluster).0;
    assert(s1.disk == s.disk);
    assert(s1.files == s.files);
}

/// Nothing can be written to what the server has not seen, or where the old contents cannot be
/// read.
pub proof fn law_write_refused(
    s: NfsView,
    id: u64,
    offset: u64,
    data: Seq<u8>,
    stamp: Stamp,
    now: NfsTime,
)
    requires
        !s.readonly,
    ensures
        !s.parents.dom().contains(cluster_of_id(id)) ==> s.write(id, offset, data, stamp, now) == (
            s,
            Err::<FileAttr, NfsStatus>(NfsStatus::Noent),
        ),
        s.entry_of(cluster_of_id(id)).1 is Ok && contents_before(s, cluster_of_id(id)) is Err
            ==> s.write(id, offset, data, stamp, now) == (
            s.entry_of(cluster_of_id(id)).0,
            Err::<FileAttr, NfsStatus>(NfsStatus::Io),
        ),
{
    let cluster = cluster_of_id(id);
    let s1 = s.entry_of(cluster).0;
    assert(s1.disk == s.disk);
    assert(s1.files == s.files);
}

/// What the volume deletes is removed, and what it will not delete is an error, but for a
/// directory that is not empty.
pub proof fn law_remove_follows_the_volume(s: NfsView, dirid: u64, filename: Seq<u8>)
    requires
        !s.readonly,
        valid_utf8(filename),
    ensures
        ({
            let (d2, done) = s.disk.delete(s.path_of(dirid, decode_utf8(filename)));
            let (s2, r) = s.remove(dirid, filename);
            &&& done is Ok ==> r == Ok::<(), NfsStatus>(()) && s2.disk == d2
            &&& done is Ok ==> !s2.dirs.dom().contains(cluster_of_id(dirid))
            &&& done is Err && !(done->Err_0 is DirectoryNotEmpty) ==> r == Err::<(), NfsStatus>(
                NfsStatus::Io,
            ) && s2 == s.with_disk(d2)
        }),
{
}

/// Forgetting a directory forgets the contents of the files in it, and no others.
pub proof fn law_forgotten_files(
    files: Map<u32, Seq<u8>>,
    entries: Seq<DirentView>,
    i: int,
    cluster: u32,
)
    requires
        0 <= i <= entries.len(),
    ensures
        ({
            let left = files_without(files, entries, i);
            let listed = exists|k: int|
                i <= k < entries.len() && (#[trigger] entries[k]).first_cluster == cluster;
            &&& listed ==> !left.dom().contains(cluster)
            &&& !listed ==> left.dom().contains(cluster) == files.dom().contains(cluster)
            &&& !listed && files.dom().contains(cluster) ==> left[cluster] == files[cluster]
        }),
    decreases entries.len() - i,
{
    if i < entries.len() {
        let c = entries[i].first_cluster;
        law_forgotten_files(files.remove(c), entries, i + 1, cluster);
        let listed = exists|k: int|
            i <= k < entries.len() && (#[trigger] entries[k]).first_cluster == cluster;
        if c == cluster {
            assert(entries[i].first_cluster == cluster);
            crate::nfs::storage::lemma_still_forgotten(files.remove(c), entries, i + 1, cluster);
        } else if listed {
            let k = choose|k: int|
                i <= k < entries.len() && (#[trigger] entries[k]).first_cluster == cluster;
            assert(k != i);
        }
    }
}

} // verus!
