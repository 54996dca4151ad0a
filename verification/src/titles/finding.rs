//! Laws of finding names: which number a path stands for, which name a list gives, which files
//! are tried, and which of their names counts.

use vstd::prelude::*;
use crate::disk::Disk;
use crate::error::ErrView;
use crate::laws::reading::law_range_is_part_of_file;
use crate::laws::tools::{all_below, lemma_digits_from, lemma_value_grows, value_behind};
use crate::path::{name_of, trim_len};
use crate::titles::catalog::{listed_name, merged, ListedTitle, Source};
use crate::titles::dynamic::{
    added_by, answers_candidates, candidate_header, candidates, child_header, file_header,
    file_name, files_in, first_name, folder_entries, law_remembered_name, law_smallest_first,
    may_name, name_for, names_folder, placed, rising, scan_step, scanned, title_of_path, tried,
    CandidateView, Scan,
};
use crate::types::DirentView;

verus! {

// ---------------------------------------------------------------------------
// Numbers and lists
// ---------------------------------------------------------------------------

/// A path stands for a title if its last step has eight characters, all of them hexadecimal
/// digits, and for the one whose number they are.
pub proof fn law_title_of_path(path: Seq<char>)
    ensures
        ({
            let last = name_of(path);
            let fits = last.len() == 8 && all_below(last, 16);
            &&& title_of_path(path) is Some <==> fits
            &&& fits ==> title_of_path(path)->0 == value_behind(last, 16, 0)
        }),
{
    let last = name_of(path);
    if last.len() == 8 {
        lemma_digits_from(last, 16, u32::MAX as int, 0);
        if all_below(last, 16) {
            lemma_value_fits(last);
            lemma_value_grows(last, 16, 0);
            assert(power16(8) == 0x1_0000_0000) by {
                assert(power16(0) == 1);
                assert(power16(1) == 0x10);
                assert(power16(2) == 0x100);
                assert(power16(3) == 0x1000);
                assert(power16(4) == 0x1_0000);
                assert(power16(5) == 0x10_0000);
                assert(power16(6) == 0x100_0000);
                assert(power16(7) == 0x1000_0000);
            }
        }
    }
}

spec fn power16(n: nat) -> int
    decreases n,
{
    if n == 0 {
        1
    } else {
        16 * power16((n - 1) as nat)
    }
}

proof fn lemma_value_fits(s: Seq<char>)
    requires
        all_below(s, 16),
    ensures
        value_behind(s, 16, 0) < power16(s.len()),
    decreases s.len(),
{
    if s.len() > 0 {
        let head = s.drop_last();
        assert forall|i: int| 0 <= i < head.len() implies crate::laws::tools::rank(
            #[trigger] head[i],
        ) < 16 by {
            assert(head[i] == s[i]);
        }
        lemma_value_fits(head);
        assert(crate::laws::tools::rank(s[s.len() - 1]) < 16);
    }
}

/// The last line on a title counts, and without one a list knows no name.
pub proof fn law_listed_name(list: Seq<ListedTitle>, title_id: u32, k: int)
    ensures
        0 <= k < list.len() && list[k].title_id == title_id && (forall|m: int|
            k < m < list.len() ==> (#[trigger] list[m]).title_id != title_id) ==> listed_name(
            list,
            title_id,
        ) == Some(list[k].name@),
        (forall|m: int| 0 <= m < list.len() ==> (#[trigger] list[m]).title_id != title_id) <==> (
        listed_name(list, title_id) is None),
    decreases list.len(),
{
    if list.len() > 0 {
        let n = list.len() - 1;
        if list[n].title_id != title_id {
            let head = list.drop_last();
            law_listed_name(head, title_id, k);
            assert forall|m: int| 0 <= m < head.len() implies head[m] == #[trigger] list[m] by {}
            if 0 <= k < n {
                assert(head[k] == list[k]);
            }
            if listed_name(head, title_id) is None {
                assert forall|m: int| 0 <= m < list.len() implies (#[trigger] list[m]).title_id
                    != title_id by {
                    if m < n {
                        assert(head[m] == list[m]);
                    }
                }
            }
        } else if 0 <= k < n {
            assert(list[n].title_id == title_id);
        }
    }
}

/// The lists together: a title is known if either list has it, the list of the original console
/// counts where both do, and where it stands is told.
pub proof fn law_merged_lists(
    xbox360: Seq<ListedTitle>,
    original: Seq<ListedTitle>,
    title_id: u32,
)
    ensures
        ({
            let a = listed_name(xbox360, title_id);
            let b = listed_name(original, title_id);
            let m = merged(xbox360, original, title_id);
            let (name, source) = m->Some_0;
            &&& m is Some <==> a is Some || b is Some
            &&& b is Some ==> name == b->0
            &&& a is Some && b is None ==> name == a->0
            &&& m is Some ==> (source == Source::Both <==> a is Some && b is Some)
            &&& m is Some ==> (source == Source::Xbox360 <==> b is None)
            &&& m is Some ==> (source == Source::XboxOriginal <==> a is None)
        }),
{
}

// ---------------------------------------------------------------------------
// Files that are tried
// ---------------------------------------------------------------------------

/// The files of a directory are candidates, each with its size and its path, and nothing else
/// is.
pub proof fn law_files_of_directory(dir: Seq<char>, entries: Seq<DirentView>)
    ensures
        forall|k: int|
            #![trigger entries[k]]
            0 <= k < entries.len() && !entries[k].is_directory() ==> files_in(
                dir,
                entries,
            ).contains(
                CandidateView {
                    size: entries[k].file_size as u64,
                    path: dir.push('/') + entries[k].filename(),
                },
            ),
        forall|i: int|
            0 <= i < files_in(dir, entries).len() ==> exists|k: int|
                #![trigger entries[k]]
                0 <= k < entries.len() && !entries[k].is_directory() && #[trigger] files_in(
                    dir,
                    entries,
                )[i] == (CandidateView {
                    size: entries[k].file_size as u64,
                    path: dir.push('/') + entries[k].filename(),
                }),
    decreases entries.len(),
{
    reveal_strlit("/");
    if entries.len() > 0 {
        let n = entries.len() - 1;
        let head = entries.drop_last();
        law_files_of_directory(dir, head);
        let before = files_in(dir, head);
        let all = files_in(dir, entries);
        let last = CandidateView {
            size: entries[n].file_size as u64,
            path: dir.push('/') + entries[n].filename(),
        };
        assert(dir + "/"@ + entries[n].filename() =~= dir.push('/') + entries[n].filename());
        assert forall|k: int|
            #![trigger entries[k]]
            0 <= k < entries.len() && !entries[k].is_directory() implies all.contains(
            CandidateView {
                size: entries[k].file_size as u64,
                path: dir.push('/') + entries[k].filename(),
            },
        ) by {
            if k < n {
                assert(head[k] == entries[k]);
                let c = CandidateView {
                    size: entries[k].file_size as u64,
                    path: dir.push('/') + entries[k].filename(),
                };
                let i = choose|i: int| 0 <= i < before.len() && before[i] == c;
                assert(all[i] == c);
            } else {
                assert(all[all.len() - 1] == last);
            }
        }
        assert forall|i: int| 0 <= i < all.len() implies exists|k: int|
            #![trigger entries[k]]
            0 <= k < entries.len() && !entries[k].is_directory() && #[trigger] all[i] == (
            CandidateView {
                size: entries[k].file_size as u64,
                path: dir.push('/') + entries[k].filename(),
            }) by {
            if i < before.len() {
                assert(all[i] == before[i]);
                let k = choose|k: int|
                    #![trigger head[k]]
                    0 <= k < head.len() && !head[k].is_directory() && before[i] == (CandidateView {
                        size: head[k].file_size as u64,
                        path: dir.push('/') + head[k].filename(),
                    });
                assert(entries[k] == head[k]);
            } else {
                assert(all[i] == last);
                assert(!entries[n].is_directory());
            }
        }
    }
}

/// The candidates of a folder: its files, and those of the directories in it, one after the
/// other. A directory in it that the device cannot read is an error.
pub proof fn law_candidates(d: Disk, dir: Seq<char>, entries: Seq<DirentView>, e: DirentView)
    ensures
        candidates(d, dir, seq![]) == Ok::<Seq<CandidateView>, ErrView>(seq![]),
        ({
            let before = candidates(d, dir, entries);
            let all = candidates(d, dir, entries.push(e));
            let inner = d.entries(e.first_cluster);
            &&& before is Err ==> all == before
            &&& before is Ok && !e.is_directory() ==> all == Ok::<Seq<CandidateView>, ErrView>(
                before->Ok_0.push(
                    CandidateView {
                        size: e.file_size as u64,
                        path: dir.push('/') + e.filename(),
                    },
                ),
            )
            &&& before is Ok && e.is_directory() && inner is Ok ==> all == Ok::<
                Seq<CandidateView>,
                ErrView,
            >(before->Ok_0 + files_in(dir.push('/') + e.filename(), inner->Ok_0))
            &&& before is Ok && e.is_directory() && inner is Err && inner->Err_0 is Io ==> all is Err
            &&& before is Ok && e.is_directory() && inner is Err && !(inner->Err_0 is Io) ==> all
                == before
        }),
{
    reveal_strlit("/");
    assert(entries.push(e).drop_last() =~= entries);
    assert(dir + "/"@ + e.filename() =~= dir.push('/') + e.filename());
    let before = candidates(d, dir, entries);
    if before is Ok {
        let list = before->Ok_0;
        let one = CandidateView { size: e.file_size as u64, path: dir.push('/') + e.filename() };
        assert(list + seq![one] =~= list.push(one));
        assert(list + Seq::<CandidateView>::empty() =~= list);
        assert(added_by(d, dir, e) == added_by(d, dir, entries.push(e).last()));
    }
}

/// A candidate goes behind those that are not larger: those of the same size are tried in the
/// order in which they were found.
pub proof fn law_place_of_candidate(list: Seq<CandidateView>, c: CandidateView) -> (k: int)
    ensures
        0 <= k <= list.len(),
        placed(list, c) == list.insert(k, c),
        forall|i: int| k <= i < list.len() ==> c.size < (#[trigger] list[i]).size,
        k > 0 ==> list[k - 1].size <= c.size,
    decreases list.len(),
{
    if list.len() == 0 {
        assert(seq![c] =~= list.insert(0, c));
        0
    } else if c.size < list.last().size {
        let head = list.drop_last();
        let k = law_place_of_candidate(head, c);
        assert(head.insert(k, c).push(list.last()) =~= list.insert(k, c));
        assert forall|i: int| k <= i < list.len() implies c.size < (#[trigger] list[i]).size by {
            if i < head.len() {
                assert(head[i] == list[i]);
            }
        }
        k
    } else {
        assert(list.push(c) =~= list.insert(list.len() as int, c));
        list.len() as int
    }
}

/// Only a directory has entries to look at; all of them are looked at.
pub proof fn law_entries_of_folder(d: Disk, path: Seq<char>)
    ensures
        ({
            let found = d.resolve(path);
            let r = folder_entries(d, path);
            let listed = d.entries(found->Ok_0.first_cluster);
            &&& found is Err ==> r == Err::<Option<Seq<DirentView>>, ErrView>(found->Err_0)
            &&& found is Ok && !found->Ok_0.is_directory() ==> r == Ok::<
                Option<Seq<DirentView>>,
                ErrView,
            >(None)
            &&& found is Ok && found->Ok_0.is_directory() && listed is Ok ==> r == Ok::<
                Option<Seq<DirentView>>,
                ErrView,
            >(Some(listed->Ok_0))
            &&& found is Ok && found->Ok_0.is_directory() && listed is Err ==> r == Err::<
                Option<Seq<DirentView>>,
                ErrView,
            >(listed->Err_0)
        }),
{
}

/// All candidates of a folder are tried, each once, from the smallest to the largest. Slashes at
/// the end of the folder's path make no difference to theirs.
pub proof fn law_files_tried(d: Disk, dir: Seq<char>, path: Seq<char>, entries: Seq<DirentView>)
    requires
        path == dir || path == dir.push('/'),
        dir.len() == 0 || dir.last() != '/',
    ensures
        ({
            let list = candidates(d, dir, entries);
            let order = tried(d, path, entries);
            &&& list is Err ==> order == list
            &&& list is Ok ==> order is Ok && order->Ok_0.to_multiset()
                == list->Ok_0.to_multiset() && rising(order->Ok_0)
        }),
{
    let n = trim_len(path);
    if path != dir {
        assert(path.drop_last() =~= dir);
        assert(trim_len(path) == trim_len(dir));
    }
    assert(n == dir.len());
    assert(path.take(n as int) =~= dir);
    if candidates(d, dir, entries) is Ok {
        law_smallest_first(candidates(d, dir, entries)->Ok_0);
    }
}

// ---------------------------------------------------------------------------
// Names that count
// ---------------------------------------------------------------------------

/// The header of a file is its first bytes, as many as are needed. Directories and files that
/// are too short have none.
pub proof fn law_header_of_file(d: Disk, path: Seq<char>, min_header: nat)
    requires
        d.geo.valid(),
        d.resolve(path) is Ok,
    ensures
        ({
            let e = d.resolve(path)->Ok_0;
            let h = file_header(d, path, min_header);
            &&& e.is_directory() || e.file_size < min_header ==> h == Ok::<
                Option<Seq<u8>>,
                ErrView,
            >(None)
            &&& !e.is_directory() && e.file_size >= min_header && d.read_file(e) is Ok
                && d.read_file(e)->Ok_0.len() >= min_header ==> h == Ok::<
                Option<Seq<u8>>,
                ErrView,
            >(Some(d.read_file(e)->Ok_0.take(min_header as int)))
        }),
{
    let e = d.resolve(path)->Ok_0;
    if d.read_file(e) is Ok {
        law_range_is_part_of_file(d, e, 0, min_header);
        let data = d.read_file(e)->Ok_0;
        if data.len() >= min_header {
            assert(data.subrange(0, min_header as int) =~= data.take(min_header as int));
        }
    }
}

/// The header of a candidate, in the same way; one that is damaged has none.
pub proof fn law_header_of_candidate(d: Disk, c: CandidateView, min_header: nat)
    requires
        d.geo.valid(),
    ensures
        ({
            let h = candidate_header(d, c, min_header);
            let found = d.resolve(c.path);
            let e = found->Ok_0;
            &&& c.size < min_header ==> h == Ok::<Option<Seq<u8>>, ErrView>(None)
            &&& c.size >= min_header && found is Err && found->Err_0 is Io ==> h is Err
            &&& c.size >= min_header && found is Err && !(found->Err_0 is Io) ==> h == Ok::<
                Option<Seq<u8>>,
                ErrView,
            >(None)
            &&& c.size >= min_header && found is Ok && d.read_file(e) is Ok && d.read_file(
                e,
            )->Ok_0.len() >= min_header ==> h == Ok::<Option<Seq<u8>>, ErrView>(
                Some(d.read_file(e)->Ok_0.take(min_header as int)),
            )
        }),
{
    if d.resolve(c.path) is Ok {
        let e = d.resolve(c.path)->Ok_0;
        if d.read_file(e) is Ok {
            law_range_is_part_of_file(d, e, 0, min_header);
            let data = d.read_file(e)->Ok_0;
            if data.len() >= min_header {
                assert(data.subrange(0, min_header as int) =~= data.take(min_header as int));
            }
        }
    }
}

/// A candidate that settles the search: its header cannot be read, or the answer on it is a
/// name.
pub open spec fn settles(
    d: Disk,
    list: Seq<CandidateView>,
    min_header: nat,
    answers: Seq<Option<Seq<char>>>,
    k: int,
) -> bool {
    match candidate_header(d, list[k], min_header) {
        Err(_) => true,
        Ok(None) => false,
        Ok(Some(_)) => answers[k] matches Some(name) && name.len() > 0,
    }
}

/// The first candidate that settles the search decides: its name is the one found, or its error
/// the answer. If none does, there is no name.
pub proof fn law_first_name(
    d: Disk,
    list: Seq<CandidateView>,
    min_header: nat,
    answers: Seq<Option<Seq<char>>>,
    k: int,
)
    ensures
        ({
            let found = first_name(d, list, min_header, answers);
            &&& 0 <= k < answers.len() && settles(d, list, min_header, answers, k) && (forall|m: int|
                0 <= m < k ==> !#[trigger] settles(d, list, min_header, answers, m)) ==> found
                == match candidate_header(d, list[k], min_header) {
                Err(e) => Err::<Option<Seq<char>>, ErrView>(e),
                Ok(_) => Ok(answers[k]),
            }
            &&& (forall|m: int|
                0 <= m < answers.len() ==> !#[trigger] settles(d, list, min_header, answers, m))
                ==> found == Ok::<Option<Seq<char>>, ErrView>(None)
        }),
    decreases answers.len(),
{
    if answers.len() > 0 {
        let n = answers.len() - 1;
        let head = answers.drop_last();
        law_first_name(d, list, min_header, head, k);
        assert forall|m: int| 0 <= m < n implies settles(d, list, min_header, head, m)
            == #[trigger] settles(d, list, min_header, answers, m) by {
            assert(head[m] == answers[m]);
        }
        assert forall|m: int| 0 <= m < n implies #[trigger] settles(
            d,
            list,
            min_header,
            head,
            m,
        ) == settles(d, list, min_header, answers, m) by {
            assert(head[m] == answers[m]);
        }
        let here = settles(d, list, min_header, answers, n);
        if 0 <= k < n {
            assert(head[k] == answers[k]);
        }
    }
}

/// The name that a folder gets is one that the caller gave for the header of a file that was
/// tried. If no file has a header, there is none; if the first has one that is given a name
/// whenever it is asked about, there is one.
pub proof fn law_name_of_folder<F: Fn(&Vec<u8>) -> Option<String>>(
    parse: F,
    d: Disk,
    path: Seq<char>,
    min_header: nat,
    found: core::result::Result<Option<Seq<char>>, ErrView>,
    entries: Seq<DirentView>,
    list: Seq<CandidateView>,
)
    requires
        names_folder(parse, d, path, min_header, found),
        folder_entries(d, path) == Ok::<Option<Seq<DirentView>>, ErrView>(Some(entries)),
        tried(d, path, entries) == Ok::<Seq<CandidateView>, ErrView>(list),
    ensures
        found matches Ok(Some(name)) ==> name.len() > 0 && exists|k: int, header: Seq<u8>|
            0 <= k < list.len() && candidate_header(d, list[k], min_header) == Ok::<
                Option<Seq<u8>>,
                ErrView,
            >(Some(header)) && #[trigger] named_by(parse, list[k], header, name),
        (forall|k: int|
            0 <= k < list.len() ==> candidate_header(d, #[trigger] list[k], min_header) == Ok::<
                Option<Seq<u8>>,
                ErrView,
            >(None)) ==> found == Ok::<Option<Seq<char>>, ErrView>(None),
        list.len() > 0 && (candidate_header(d, list[0], min_header) matches Ok(Some(header)) && (
        forall|a: Option<Seq<char>>|
            #[trigger] may_name(parse, header, a) ==> (a matches Some(name) && name.len() > 0)))
            ==> found matches Ok(Some(_)),
        list.len() > 0 && candidate_header(d, list[0], min_header) is Err ==> found is Err,
{
    let answers = choose|answers: Seq<Option<Seq<char>>>|
        #[trigger] answers_candidates(parse, d, list, min_header, answers) && found == first_name(
            d,
            list,
            min_header,
            answers,
        );
    let k = lemma_settled(d, list, min_header, answers);
    law_first_name(d, list, min_header, answers, k);
    if k < answers.len() {
        if candidate_header(d, list[k], min_header) is Ok {
            let header = candidate_header(d, list[k], min_header)->Ok_0->Some_0;
            let name = answers[k]->Some_0;
            assert(may_name(parse, header, answers[k]));
            assert(named_by(parse, list[k], header, name));
        }
    }
    if list.len() > 0 {
        if answers.len() == 0 {
            assert(first_name(d, list, min_header, answers) == Ok::<Option<Seq<char>>, ErrView>(
                None,
            ));
        } else {
            let first = candidate_header(d, list[0], min_header);
            if first is Ok && first->Ok_0 is Some {
                assert(may_name(parse, first->Ok_0->Some_0, answers[0]));
            }
            if settles(d, list, min_header, answers, 0) {
                assert(k == 0);
            }
        }
    }
}

/// The caller may give that name for that header of that file.
pub open spec fn named_by<F: Fn(&Vec<u8>) -> Option<String>>(
    parse: F,
    c: CandidateView,
    header: Seq<u8>,
    name: Seq<char>,
) -> bool {
    may_name(parse, header, Some(name))
}

/// The first candidate that settles the search, or the number of answers.
proof fn lemma_settled(
    d: Disk,
    list: Seq<CandidateView>,
    min_header: nat,
    answers: Seq<Option<Seq<char>>>,
) -> (k: int)
    ensures
        0 <= k <= answers.len(),
        k < answers.len() ==> settles(d, list, min_header, answers, k),
        forall|m: int| 0 <= m < k ==> !#[trigger] settles(d, list, min_header, answers, m),
{
    if exists|m: int| 0 <= m < answers.len() && #[trigger] settles(d, list, min_header, answers, m) {
        let m = choose|m: int|
            0 <= m < answers.len() && #[trigger] settles(d, list, min_header, answers, m);
        lemma_first_settled(d, list, min_header, answers, m)
    } else {
        answers.len() as int
    }
}

proof fn lemma_first_settled(
    d: Disk,
    list: Seq<CandidateView>,
    min_header: nat,
    answers: Seq<Option<Seq<char>>>,
    m: int,
) -> (k: int)
    requires
        0 <= m < answers.len(),
        settles(d, list, min_header, answers, m),
    ensures
        0 <= k <= m,
        settles(d, list, min_header, answers, k),
        forall|j: int| 0 <= j < k ==> !#[trigger] settles(d, list, min_header, answers, j),
    decreases m,
{
    if exists|j: int| 0 <= j < m && #[trigger] settles(d, list, min_header, answers, j) {
        let j = choose|j: int| 0 <= j < m && #[trigger] settles(d, list, min_header, answers, j);
        lemma_first_settled(d, list, min_header, answers, j)
    } else {
        m
    }
}

/// Looking at one more entry of a folder: a directory changes nothing, a name is remembered for
/// the path of its file, and every file counts once.
pub proof fn law_scan_step(
    d: Disk,
    dir: Seq<char>,
    min_header: nat,
    e: DirentView,
    answer: Option<Seq<char>>,
    scan: Scan,
    other: Seq<char>,
)
    requires
        scan.end is Ok,
    ensures
        ({
            let path = dir.push('/') + e.filename();
            let header = file_header(d, path, min_header);
            let next = scan_step(d, dir, min_header, e, answer, scan);
            let named = header matches Ok(Some(_)) && answer matches Some(name) && name.len() > 0;
            &&& e.is_directory() ==> next == scan
            &&& !e.is_directory() && header is Err ==> next == (Scan {
                end: Err(header->Err_0),
                ..scan
            })
            &&& !e.is_directory() && header is Ok ==> next.end is Ok && next.resolved + next.skipped
                == scan.resolved + scan.skipped + 1
            &&& !e.is_directory() && header is Ok && named ==> next.resolved == scan.resolved + 1
                && name_for(next.cache, path) == answer
            &&& !e.is_directory() && header is Ok && !named ==> next.resolved == scan.resolved
                && next.cache == scan.cache
            &&& other != path ==> name_for(next.cache, other) == name_for(scan.cache, other)
        }),
{
    reveal_strlit("/");
    let path = dir.push('/') + e.filename();
    assert(dir + "/"@ + e.filename() =~= path);
    let header = child_header(d, dir, e, min_header);
    assert(header == file_header(d, path, min_header));
    let r = file_name(header, answer);
    if answer is Some {
        law_remembered_name(scan.cache, path, answer->0, other);
    }
}

/// The entries of a folder are looked at in order, each once.
pub proof fn law_scanning(
    d: Disk,
    dir: Seq<char>,
    min_header: nat,
    entries: Seq<DirentView>,
    answers: Seq<Option<Seq<char>>>,
    answer: Option<Seq<char>>,
    start: Scan,
)
    ensures
        scanned(d, dir, min_header, entries, seq![], start) == start,
        scanned(d, dir, min_header, entries, answers.push(answer), start) == scan_step(
            d,
            dir,
            min_header,
            entries[answers.len() as int],
            answer,
            scanned(d, dir, min_header, entries, answers, start),
        ),
{
    assert(answers.push(answer).drop_last() =~= answers);
}

} // verus!
