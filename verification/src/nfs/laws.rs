//! Laws of serving a volume: reads after writes, pages of listings, what a removal takes, and
//! what a read-only mount keeps.

use vstd::prelude::*;
use vstd::utf8::{decode_utf8, valid_utf8};
use crate::disk::{find_entry, Stamp};
use crate::nfs::attrs::{cluster_of_id, FileAttr, NfsStatus, NfsTime};
use crate::nfs::server::{
    find_by_cluster, learned, merged, page, page_start, slice_of, LineView, NfsView,
};
use crate::path::parent_of;
use crate::text::same_name;
use crate::types::DirentView;

verus! {

/// What has been written to a file is read back.
pub proof fn law_write_then_read(data: Seq<u8>, offset: u64, new: Seq<u8>, count: u32)
    requires
        0 < new.len() == count,
    ensures
        slice_of(merged(data, offset, new), offset, count).0 == new,
{
    let all = merged(data, offset, new);
    let (part, eof) = slice_of(all, offset, count);
    assert(all.subrange(offset as int, offset + count) =~= new);
    if eof {
        assert(all.skip(offset as int) =~= new);
    }
}

/// A write leaves the rest of a file as it was.
pub proof fn law_write_keeps_rest(data: Seq<u8>, offset: u64, new: Seq<u8>, i: int)
    requires
        0 <= i < data.len(),
        i < offset || i >= offset + new.len(),
    ensures
        merged(data, offset, new)[i] == data[i],
        merged(data, offset, new).len() >= data.len(),
{
}

/// Reading a file part by part gives all of it: two parts that follow each other are one part
/// of their length together.
pub proof fn law_reads_join(data: Seq<u8>, offset: u64, a: u32, b: u32)
    requires
        offset + a <= u64::MAX,
        a + b <= u32::MAX,
    ensures
        ({
            let first = slice_of(data, offset, a);
            let second = slice_of(data, (offset + a) as u64, b);
            let both = slice_of(data, offset, (a + b) as u32);
            &&& both.0 == first.0 + second.0
            &&& both.1 == second.1
        }),
{
    let first = slice_of(data, offset, a);
    let second = slice_of(data, (offset + a) as u64, b);
    let both = slice_of(data, offset, (a + b) as u32);
    assert(both.0 =~= first.0 + second.0);
}

proof fn lemma_page_start(lines: Seq<LineView>, k: int)
    requires
        0 <= k < lines.len(),
        lines[k].fileid != 0,
        forall|j: int| 0 <= j < k ==> (#[trigger] lines[j]).fileid != lines[k].fileid,
    ensures
        page_start(lines, lines[k].fileid) == k + 1,
    decreases lines.len(),
{
    if k > 0 {
        let rest = lines.drop_first();
        assert(rest[k - 1] == lines[k]);
        assert forall|j: int| 0 <= j < k - 1 implies (#[trigger] rest[j]).fileid != rest[k
            - 1].fileid by {
            assert(rest[j] == lines[j + 1]);
        }
        assert(lines[0].fileid != lines[k].fileid);
        lemma_page_start(rest, k - 1);
    }
}

/// The page that is asked for with the identifier of the last line of another page goes on
/// right behind it, provided that no earlier line has the same identifier.
pub proof fn law_pages_continue(lines: Seq<LineView>, k: int, max: nat)
    requires
        0 <= k < lines.len(),
        lines[k].fileid != 0,
        forall|j: int| 0 <= j < k ==> (#[trigger] lines[j]).fileid != lines[k].fileid,
    ensures
        ({
            let (part, end) = page(lines, lines[k].fileid, max);
            let stop = if k + 1 + max >= lines.len() { lines.len() as int } else { k + 1 + max };
            &&& part == lines.subrange(k + 1, stop)
            &&& end == (stop == lines.len())
        }),
{
    lemma_page_start(lines, k);
    if k + 1 + max >= lines.len() {
        assert(lines.skip(k + 1) =~= lines.subrange(k + 1, lines.len() as int));
    }
}

/// On a volume that is mounted read-only, every request that would change it is refused, and
/// nothing changes.
pub proof fn law_readonly_refuses(
    s: NfsView,
    id: u64,
    offset: u64,
    data: Seq<u8>,
    name: Seq<u8>,
    other_id: u64,
    other: Seq<u8>,
    stamp: Stamp,
    now: NfsTime,
)
    requires
        s.readonly,
    ensures
        s.write(id, offset, data, stamp, now) == (s, Err::<FileAttr, NfsStatus>(NfsStatus::Rofs)),
        s.create(id, name, stamp) == (s, Err::<(u64, FileAttr), NfsStatus>(NfsStatus::Rofs)),
        s.create_exclusive(id, name, stamp) == (s, Err::<u64, NfsStatus>(NfsStatus::Rofs)),
        s.mkdir(id, name, stamp) == (s, Err::<(u64, FileAttr), NfsStatus>(NfsStatus::Rofs)),
        s.remove(id, name) == (s, Err::<(), NfsStatus>(NfsStatus::Rofs)),
        s.rename(id, name, other_id, other) == (s, Err::<(), NfsStatus>(NfsStatus::Rofs)),
{
}

/// Removing a directory that is not empty deletes it with all that is in it: the disk and the
/// answer are those of the recursive deletion, and no listing and no contents are remembered.
pub proof fn law_remove_takes_the_tree(s: NfsView, dirid: u64, filename: Seq<u8>)
    requires
        !s.readonly,
        valid_utf8(filename),
        ({
            let path = s.path_of(dirid, decode_utf8(filename));
            &&& s.disk.resolve(parent_of(path)) is Ok
            &&& s.disk.resolve(path) matches Ok(target)
            &&& target.is_directory()
            &&& s.disk.entries(target.first_cluster) matches Ok(entries)
            &&& entries.len() > 0
        }),
    ensures
        ({
            let (d, done) = s.disk.delete_recursive(s.path_of(dirid, decode_utf8(filename)));
            let (s2, r) = s.remove(dirid, filename);
            &&& s2 == s.with_disk(d).forget_all()
            &&& r == (if done is Ok {
                Ok::<(), NfsStatus>(())
            } else {
                Err(NfsStatus::Io)
            })
        }),
{
    assert(s.with_disk(s.disk) == s);
}

/// Creating exclusively never touches a file that exists: the volume stays as it is.
pub proof fn law_exclusive_create_keeps_existing(
    s: NfsView,
    dirid: u64,
    filename: Seq<u8>,
    stamp: Stamp,
)
    requires
        s.dir_entries(cluster_of_id(dirid)).1 matches Ok(entries) && find_entry(
            entries,
            decode_utf8(filename),
        ) is Some,
    ensures
        s.create_exclusive(dirid, filename, stamp).0.disk == s.disk,
        s.create_exclusive(dirid, filename, stamp).1 is Err,
{
}

proof fn lemma_learned(
    parents: Map<u32, (u32, Seq<char>)>,
    dir: u32,
    entries: Seq<DirentView>,
    i: int,
    k: int,
)
    requires
        0 <= i,
        0 <= k < entries.len(),
        k >= i || (parents.dom().contains(entries[k].first_cluster)
            && parents[entries[k].first_cluster].0 == dir),
    ensures
        learned(parents, dir, entries, i).dom().contains(entries[k].first_cluster),
        learned(parents, dir, entries, i)[entries[k].first_cluster].0 == dir,
    decreases entries.len() - i,
{
    if i < entries.len() {
        lemma_learned(
            parents.insert(entries[i].first_cluster, (dir, entries[i].filename())),
            dir,
            entries,
            i + 1,
            k,
        );
    }
}

proof fn lemma_found_index(entries: Seq<DirentView>, name: Seq<char>) -> (k: int)
    requires
        find_entry(entries, name) is Some,
    ensures
        0 <= k < entries.len(),
        find_entry(entries, name) == Some(entries[k]),
    decreases entries.len(),
{
    if same_name(entries[0].filename(), name) {
        0
    } else {
        let k = lemma_found_index(entries.drop_first(), name);
        k + 1
    }
}

proof fn lemma_cluster_found(entries: Seq<DirentView>, k: int)
    requires
        0 <= k < entries.len(),
    ensures
        find_by_cluster(entries, entries[k].first_cluster) is Some,
    decreases entries.len(),
{
    if entries[0].first_cluster != entries[k].first_cluster {
        lemma_cluster_found(entries.drop_first(), k - 1);
    }
}

/// What has been looked up in a directory that was not known before has attributes: an entry
/// that starts at the same cluster.
#[verifier::rlimit(30)]
pub proof fn law_lookup_makes_attributes_known(
    s: NfsView,
    dirid: u64,
    filename: Seq<u8>,
    now: NfsTime,
)
    requires
        !s.dirs.dom().contains(cluster_of_id(dirid)),
        s.lookup(dirid, filename).1 is Ok,
        decode_utf8(filename) != "."@,
        decode_utf8(filename) != ".."@,
    ensures
        ({
            let (s2, found) = s.lookup(dirid, filename);
            s2.getattr(found->Ok_0, now).1 is Ok
        }),
{
    let dir = cluster_of_id(dirid);
    let entries = s.disk.entries(dir)->Ok_0;
    let k = lemma_found_index(entries, decode_utf8(filename));
    let c = entries[k].first_cluster;
    assert(cluster_of_id(c as u64) == c);
    lemma_learned(s.parents, dir, entries, 0, k);
    lemma_cluster_found(entries, k);
}

} // verus!
