//! Names found on the volume itself: the packages in a title's folder carry the name of the
//! title in their headers.
//!
//! How the header of a package is read is left to the caller, who hands in the number of
//! bytes that a header takes at least and a function that finds the name in them.

use vstd::prelude::*;
use std::collections::HashMap;
use crate::device::Device;
use crate::directory::entry_views;
use crate::disk::Disk;
use crate::error::{ErrView, FatxError, Result};
use crate::iso::god::convert::optional_text;
use crate::numbers::{digits_from, parse_number};
use crate::path::{name_of, split_path, trim_len, trim_slashes};
use crate::text::{chars_of, same_text};
use crate::types::{DirectoryEntry, DirentView};
use crate::volume::{fault, FatxVolume};

verus! {

// ---------------------------------------------------------------------------
// Paths
// ---------------------------------------------------------------------------

/// The number of the title whose folder a path leads to: the last component, if that is
/// eight hexadecimal digits.
pub open spec fn title_of_path(path: Seq<char>) -> Option<u32> {
    let last = name_of(path);
    if last.len() != 8 {
        None
    } else {
        match digits_from(last, 16, u32::MAX as int, 0) {
            Ok(n) => Some(n as u32),
            Err(_) => None,
        }
    }
}

/// The number of the title whose folder a path leads to.
pub fn title_id_from_path(path: &str) -> (id: Option<u32>)
    ensures
        id == title_of_path(path@),
{
    let (_, last) = split_path(path);
    let chars = chars_of(last);
    if chars.len() != 8 {
        return None;
    }
    if chars[0] == '+' {
        return None;
    }
    assert(chars@.skip(0) =~= chars@);
    match parse_number(&chars, 0, 16, u32::MAX as u64) {
        Ok(n) => Some(n as u32),
        Err(_) => None,
    }
}

/// A name in a directory, as a path.
pub open spec fn joined(dir: Seq<char>, name: Seq<char>) -> Seq<char> {
    dir + "/"@ + name
}

fn join(dir: &str, name: &str) -> (s: String)
    ensures
        s@ == joined(dir@, name@),
{
    let mut s = dir.to_owned();
    vstd::string::StringExecFns::append(&mut s, "/");
    vstd::string::StringExecFns::append(&mut s, name);
    s
}

// ---------------------------------------------------------------------------
// Headers
// ---------------------------------------------------------------------------

/// Asked for the name in a header, the caller may give this answer.
pub open spec fn may_name<F: Fn(&Vec<u8>) -> Option<String>>(
    parse: F,
    header: Seq<u8>,
    answer: Option<Seq<char>>,
) -> bool {
    exists|h: Vec<u8>, a: Option<String>|
        h@ == header && optional_text(a) == answer && #[trigger] call_ensures(parse, (&h,), a)
}

/// An answer that can serve as a name.
pub open spec fn usable_name(answer: Option<Seq<char>>) -> Option<Seq<char>> {
    match answer {
        Some(name) => if name.len() > 0 {
            Some(name)
        } else {
            None
        },
        None => None,
    }
}

fn ask_for_name<F: Fn(&Vec<u8>) -> Option<String>>(parse: &F, header: &Vec<u8>) -> (r: (
    Option<String>,
    Ghost<Option<Seq<char>>>,
))
    requires
        forall|h: &Vec<u8>| call_requires(*parse, (h,)),
    ensures
        may_name(*parse, header@, r.1@),
        optional_text(r.0) == usable_name(r.1@),
{
    let answer = parse(header);
    let ghost said = optional_text(answer);
    assert(call_ensures(*parse, (header,), answer));
    match answer {
        Some(name) => {
            let chars = chars_of(name.as_str());
            if chars.len() == 0 {
                (None, Ghost(said))
            } else {
                (Some(name), Ghost(said))
            }
        },
        None => (None, Ghost(said)),
    }
}

/// The bytes in which the header of a file is looked for; nothing if the file is a directory
/// or too short.
pub open spec fn file_header(d: Disk, path: Seq<char>, min_header: nat) -> core::result::Result<
    Option<Seq<u8>>,
    ErrView,
> {
    match d.resolve(path) {
        Err(e) => Err(e),
        Ok(entry) => if entry.is_directory() || entry.file_size < min_header {
            Ok(None)
        } else {
            match d.read_range(entry, 0, min_header) {
                Err(e) => Err(e),
                Ok(bytes) => Ok(Some(bytes)),
            }
        },
    }
}

/// The name that a file carries, given the answer on its header.
pub open spec fn file_name(
    header: core::result::Result<Option<Seq<u8>>, ErrView>,
    answer: Option<Seq<char>>,
) -> core::result::Result<Option<Seq<char>>, ErrView> {
    match header {
        Err(e) => Err(e),
        Ok(None) => Ok(None),
        Ok(Some(_)) => Ok(usable_name(answer)),
    }
}

/// A result that may hold a name, taken by its view.
pub open spec fn name_outcome(r: Result<Option<String>>) -> core::result::Result<
    Option<Seq<char>>,
    ErrView,
> {
    match r {
        Ok(name) => Ok(optional_text(name)),
        Err(e) => Err(e@),
    }
}

/// The answer is one that the caller may give on the header, if there is one.
pub open spec fn answers_header<F: Fn(&Vec<u8>) -> Option<String>>(
    parse: F,
    header: core::result::Result<Option<Seq<u8>>, ErrView>,
    answer: Option<Seq<char>>,
) -> bool {
    header matches Ok(Some(bytes)) ==> may_name(parse, bytes, answer)
}

fn name_in_file<D: Device, F: Fn(&Vec<u8>) -> Option<String>>(
    vol: &mut FatxVolume<D>,
    file_path: &str,
    min_header: usize,
    parse: &F,
) -> (r: (Result<Option<String>>, Ghost<Option<Seq<char>>>))
    requires
        old(vol).wf(),
        forall|h: &Vec<u8>| call_requires(*parse, (h,)),
    ensures
        final(vol).same_as(old(vol)),
        fault(r.0) ==> !old(vol).reliable(),
        !fault(r.0) ==> ({
            let header = file_header(old(vol)@, file_path@, min_header as nat);
            answers_header(*parse, header, r.1@) && name_outcome(r.0) == file_name(header, r.1@)
        }),
{
    let entry = match vol.resolve_path(file_path) {
        Ok(entry) => entry,
        Err(e) => return (Err(e), Ghost(None)),
    };
    if entry.is_directory() || (entry.file_size as usize) < min_header {
        return (Ok(None), Ghost(None));
    }
    let bytes = match vol.read_file_range(&entry, 0, min_header) {
        Ok(bytes) => bytes,
        Err(e) => return (Err(e), Ghost(None)),
    };
    let (name, answer) = ask_for_name(parse, &bytes);
    (Ok(name), answer)
}

/// The name that the package at a path carries in its header. A directory, a file that is
/// too short and a header without a name carry none.
pub fn from_file<D: Device, F: Fn(&Vec<u8>) -> Option<String>>(
    vol: &mut FatxVolume<D>,
    file_path: &str,
    min_header: usize,
    parse: &F,
) -> (r: Result<Option<String>>)
    requires
        old(vol).wf(),
        forall|h: &Vec<u8>| call_requires(*parse, (h,)),
    ensures
        final(vol).same_as(old(vol)),
        fault(r) ==> !old(vol).reliable(),
        !fault(r) ==> ({
            let header = file_header(old(vol)@, file_path@, min_header as nat);
            exists|answer: Option<Seq<char>>|
                #[trigger] answers_header(*parse, header, answer) && name_outcome(r) == file_name(
                    header,
                    answer,
                )
        }),
{
    let (r, Ghost(answer)) = name_in_file(vol, file_path, min_header, parse);
    proof {
        let header = file_header(old(vol)@, file_path@, min_header as nat);
        if !fault(r) {
            assert(answers_header(*parse, header, answer));
        }
    }
    r
}

// ---------------------------------------------------------------------------
// Folders
// ---------------------------------------------------------------------------

/// A file that may be a package.
pub struct Candidate {
    pub size: u64,
    pub path: String,
}

/// A file that may be a package, as a mathematical value.
#[verifier::ext_equal]
pub struct CandidateView {
    pub size: u64,
    pub path: Seq<char>,
}

impl View for Candidate {
    type V = CandidateView;

    open spec fn view(&self) -> CandidateView {
        CandidateView { size: self.size, path: self.path@ }
    }
}

/// Candidates by their views.
pub open spec fn candidate_views(v: Seq<Candidate>) -> Seq<CandidateView> {
    v.map_values(|c: Candidate| c@)
}

/// A file of a directory.
pub open spec fn candidate(dir: Seq<char>, e: DirentView) -> CandidateView {
    CandidateView { size: e.file_size as u64, path: joined(dir, e.filename()) }
}

/// The files among the entries of a directory, in order.
pub open spec fn files_in(dir: Seq<char>, entries: Seq<DirentView>) -> Seq<CandidateView>
    decreases entries.len(),
{
    if entries.len() == 0 {
        seq![]
    } else {
        let e = entries.last();
        let before = files_in(dir, entries.drop_last());
        if e.is_directory() {
            before
        } else {
            before.push(candidate(dir, e))
        }
    }
}

/// What one entry of a folder adds to the candidates: itself, or the files in it. A directory
/// that the device cannot read is an error; one that is damaged adds nothing.
pub open spec fn added_by(d: Disk, dir: Seq<char>, e: DirentView) -> core::result::Result<
    Seq<CandidateView>,
    ErrView,
> {
    if e.is_directory() {
        match d.entries(e.first_cluster) {
            Ok(inner) => Ok(files_in(joined(dir, e.filename()), inner)),
            Err(ErrView::Io(kind)) => Err(ErrView::Io(kind)),
            Err(_) => Ok(seq![]),
        }
    } else {
        Ok(seq![candidate(dir, e)])
    }
}

/// The files in a folder and in its immediate subdirectories, in order.
pub open spec fn candidates(
    d: Disk,
    dir: Seq<char>,
    entries: Seq<DirentView>,
) -> core::result::Result<Seq<CandidateView>, ErrView>
    decreases entries.len(),
{
    if entries.len() == 0 {
        Ok(seq![])
    } else {
        match candidates(d, dir, entries.drop_last()) {
            Err(e) => Err(e),
            Ok(before) => match added_by(d, dir, entries.last()) {
                Err(e) => Err(e),
                Ok(more) => Ok(before + more),
            },
        }
    }
}

/// `c` put into a list behind all that are not larger.
pub open spec fn placed(list: Seq<CandidateView>, c: CandidateView) -> Seq<CandidateView>
    decreases list.len(),
{
    if list.len() == 0 {
        seq![c]
    } else if c.size < list.last().size {
        placed(list.drop_last(), c).push(list.last())
    } else {
        list.push(c)
    }
}

/// Candidates from the smallest to the largest; those of the same size stay in order.
pub open spec fn by_size(list: Seq<CandidateView>) -> Seq<CandidateView>
    decreases list.len(),
{
    if list.len() == 0 {
        seq![]
    } else {
        placed(by_size(list.drop_last()), list.last())
    }
}

/// The bytes in which the header of a candidate is looked for; nothing if it is too small or
/// damaged. That the device cannot read it is an error.
pub open spec fn candidate_header(d: Disk, c: CandidateView, min_header: nat) -> core::result::Result<
    Option<Seq<u8>>,
    ErrView,
> {
    if c.size < min_header {
        Ok(None)
    } else {
        match d.resolve(c.path) {
            Err(ErrView::Io(kind)) => Err(ErrView::Io(kind)),
            Err(_) => Ok(None),
            Ok(entry) => match d.read_range(entry, 0, min_header) {
                Err(ErrView::Io(kind)) => Err(ErrView::Io(kind)),
                Err(_) => Ok(None),
                Ok(bytes) => Ok(Some(bytes)),
            },
        }
    }
}

/// The first name that the candidates carry, or the first error, given the answers on the
/// headers of the first of them.
pub open spec fn first_name(
    d: Disk,
    list: Seq<CandidateView>,
    min_header: nat,
    answers: Seq<Option<Seq<char>>>,
) -> core::result::Result<Option<Seq<char>>, ErrView>
    decreases answers.len(),
{
    if answers.len() == 0 {
        Ok(None)
    } else {
        let before = first_name(d, list, min_header, answers.drop_last());
        let i = answers.len() - 1;
        if before != Ok::<Option<Seq<char>>, ErrView>(None) {
            before
        } else {
            match candidate_header(d, list[i], min_header) {
                Err(e) => Err(e),
                Ok(Some(_)) => Ok(usable_name(answers[i])),
                Ok(None) => Ok(None),
            }
        }
    }
}

/// The answers are ones that the caller may give, and go on until there is a name or an
/// error, or no more candidate.
pub open spec fn answers_candidates<F: Fn(&Vec<u8>) -> Option<String>>(
    parse: F,
    d: Disk,
    list: Seq<CandidateView>,
    min_header: nat,
    answers: Seq<Option<Seq<char>>>,
) -> bool {
    &&& answers.len() <= list.len()
    &&& answers.len() < list.len() ==> first_name(d, list, min_header, answers) != Ok::<
        Option<Seq<char>>,
        ErrView,
    >(None)
    &&& forall|i: int|
        0 <= i < answers.len() ==> (candidate_header(d, list[i], min_header) matches Ok(Some(bytes))
            ==> may_name(parse, bytes, #[trigger] answers[i]))
}

fn add_files(list: &mut Vec<Candidate>, dir: &str, entries: &Vec<DirectoryEntry>)
    ensures
        candidate_views(final(list)@) == candidate_views(old(list)@) + files_in(
            dir@,
            entry_views(entries@),
        ),
{
    let ghost all = entry_views(entries@);
    let ghost start = candidate_views(list@);
    let mut i: usize = 0;
    proof {
        assert(all.take(0) =~= seq![]);
        assert(start + files_in(dir@, all.take(0)) =~= start);
    }
    while i < entries.len()
        invariant
            i <= entries.len(),
            all == entry_views(entries@),
            candidate_views(list@) == start + files_in(dir@, all.take(i as int)),
        decreases entries.len() - i,
    {
        let e = &entries[i];
        let ghost before = list@;
        proof {
            assert(all[i as int] == e@);
            assert(all.take(i + 1).drop_last() =~= all.take(i as int));
        }
        if !e.is_directory() {
            let name = e.filename();
            let c = Candidate { size: e.file_size as u64, path: join(dir, name.as_str()) };
            list.push(c);
            assert(candidate_views(list@) =~= candidate_views(before).push(c@));
            assert(start + files_in(dir@, all.take(i + 1)) =~= candidate_views(before).push(c@));
        }
        i = i + 1;
    }
    assert(all.take(i as int) =~= all);
}

fn collect_candidates<D: Device>(
    vol: &mut FatxVolume<D>,
    dir: &str,
    entries: &Vec<DirectoryEntry>,
) -> (r: Result<Vec<Candidate>>)
    requires
        old(vol).wf(),
    ensures
        final(vol).same_as(old(vol)),
        fault(r) ==> !old(vol).reliable(),
        !fault(r) ==> match (r, candidates(old(vol)@, dir@, entry_views(entries@))) {
            (Ok(list), Ok(want)) => candidate_views(list@) == want,
            (Err(e), Err(x)) => e@ == x,
            _ => false,
        },
{
    let ghost d = vol@;
    let ghost all = entry_views(entries@);
    let mut list: Vec<Candidate> = Vec::new();
    let mut i: usize = 0;
    proof {
        assert(all.take(0) =~= seq![]);
        assert(candidate_views(list@) =~= seq![]);
    }
    while i < entries.len()
        invariant
            i <= entries.len(),
            d == old(vol)@,
            vol.same_as(old(vol)),
            all == entry_views(entries@),
            candidates(d, dir@, all.take(i as int)) == Ok::<Seq<CandidateView>, ErrView>(
                candidate_views(list@),
            ),
        decreases entries.len() - i,
    {
        let e = &entries[i];
        let ghost before = list@;
        proof {
            assert(all[i as int] == e@);
            assert(all.take(i + 1).drop_last() =~= all.take(i as int));
        }
        let name = e.filename();
        let child_path = join(dir, name.as_str());
        if e.is_directory() {
            match vol.read_directory(e.first_cluster) {
                Ok(inner) => add_files(&mut list, child_path.as_str(), &inner),
                Err(FatxError::Io(e)) => {
                    proof {
                        lemma_candidates_stop(d, dir@, all, i as int);
                    }
                    return Err(FatxError::Io(e));
                },
                Err(_) => {
                    assert(candidate_views(before) + Seq::<CandidateView>::empty()
                        =~= candidate_views(before));
                },
            }
        } else {
            let c = Candidate { size: e.file_size as u64, path: child_path };
            list.push(c);
            assert(candidate_views(list@) =~= candidate_views(before) + seq![c@]);
        }
        i = i + 1;
    }
    assert(all.take(i as int) =~= all);
    Ok(list)
}

/// The first entry that cannot be read decides on the error.
proof fn lemma_candidates_stop(d: Disk, dir: Seq<char>, entries: Seq<DirentView>, i: int)
    requires
        0 <= i < entries.len(),
        candidates(d, dir, entries.take(i)) is Ok,
    ensures
        added_by(d, dir, entries[i]) is Err ==> candidates(d, dir, entries) == Err::<
            Seq<CandidateView>,
            ErrView,
        >(added_by(d, dir, entries[i])->Err_0),
    decreases entries.len(),
{
    if i == entries.len() - 1 {
        assert(entries.drop_last() =~= entries.take(i));
    } else {
        assert(entries.drop_last().take(i) =~= entries.take(i));
        lemma_candidates_stop(d, dir, entries.drop_last(), i);
    }
}

fn place(list: &mut Vec<Candidate>, c: Candidate)
    ensures
        candidate_views(final(list)@) == placed(candidate_views(old(list)@), c@),
{
    let ghost all = candidate_views(list@);
    let mut k: usize = list.len();
    assert(all.take(k as int) =~= all);
    assert(placed(all, c@) =~= placed(all.take(k as int), c@) + all.skip(k as int));
    while k > 0 && c.size < list[k - 1].size
        invariant
            k <= list.len(),
            all == candidate_views(list@),
            placed(all, c@) == placed(all.take(k as int), c@) + all.skip(k as int),
        decreases k,
    {
        proof {
            let t = all.take(k as int);
            assert(t.last() == list@[k - 1]@);
            assert(t.drop_last() =~= all.take(k - 1));
            assert(placed(all.take(k - 1), c@).push(t.last()) + all.skip(k as int) =~= placed(
                all.take(k - 1),
                c@,
            ) + all.skip(k - 1));
        }
        k = k - 1;
    }
    proof {
        let t = all.take(k as int);
        if k > 0 {
            assert(t.last() == list@[k - 1]@);
        }
        assert(placed(t, c@) == t.push(c@));
    }
    let ghost new = c@;
    list.insert(k, c);
    assert(candidate_views(list@) =~= all.take(k as int).push(new) + all.skip(k as int));
}

fn sort_by_size(list: Vec<Candidate>) -> (sorted: Vec<Candidate>)
    ensures
        candidate_views(sorted@) == by_size(candidate_views(list@)),
{
    let ghost all = candidate_views(list@);
    let n: usize = list.len();
    let mut rest = list;
    let mut sorted: Vec<Candidate> = Vec::new();
    let mut i: usize = 0;
    assert(candidate_views(sorted@) =~= by_size(all.take(0)));
    assert(all.skip(0) =~= all);
    while i < n
        invariant
            i <= n,
            n == all.len(),
            candidate_views(rest@) == all.skip(i as int),
            candidate_views(sorted@) == by_size(all.take(i as int)),
        decreases n - i,
    {
        let ghost before = rest@;
        assert(candidate_views(before).len() == n - i);
        let c = rest.remove(0);
        proof {
            assert(candidate_views(before)[0] == c@);
            assert(c@ == all[i as int]);
            assert(rest@ =~= before.drop_first());
            assert(candidate_views(rest@) =~= candidate_views(before).drop_first());
            assert(candidate_views(before).drop_first() =~= all.skip(i + 1));
            assert(all.take(i + 1).drop_last() =~= all.take(i as int));
            assert(all.take(i + 1).last() == c@);
        }
        place(&mut sorted, c);
        i = i + 1;
    }
    assert(all.take(n as int) =~= all);
    sorted
}

/// The header of a candidate.
fn read_candidate<D: Device>(vol: &mut FatxVolume<D>, c: &Candidate, min_header: usize) -> (r:
    Result<Option<Vec<u8>>>)
    requires
        old(vol).wf(),
    ensures
        final(vol).same_as(old(vol)),
        fault(r) ==> !old(vol).reliable(),
        !fault(r) ==> match (r, candidate_header(old(vol)@, c@, min_header as nat)) {
            (Ok(Some(a)), Ok(Some(b))) => a@ == b,
            (Ok(None), Ok(None)) => true,
            (Err(e), Err(x)) => e@ == x,
            _ => false,
        },
{
    if c.size < min_header as u64 {
        return Ok(None);
    }
    let entry = match vol.resolve_path(c.path.as_str()) {
        Ok(entry) => entry,
        Err(FatxError::Io(e)) => return Err(FatxError::Io(e)),
        Err(_) => return Ok(None),
    };
    match vol.read_file_range(&entry, 0, min_header) {
        Ok(bytes) => Ok(Some(bytes)),
        Err(FatxError::Io(e)) => Err(FatxError::Io(e)),
        Err(_) => Ok(None),
    }
}

fn try_candidates<D: Device, F: Fn(&Vec<u8>) -> Option<String>>(
    vol: &mut FatxVolume<D>,
    list: &Vec<Candidate>,
    min_header: usize,
    parse: &F,
) -> (r: (Result<Option<String>>, Ghost<Seq<Option<Seq<char>>>>))
    requires
        old(vol).wf(),
        forall|h: &Vec<u8>| call_requires(*parse, (h,)),
    ensures
        final(vol).same_as(old(vol)),
        fault(r.0) ==> !old(vol).reliable(),
        !fault(r.0) ==> answers_candidates(
            *parse,
            old(vol)@,
            candidate_views(list@),
            min_header as nat,
            r.1@,
        ) && name_outcome(r.0) == first_name(
            old(vol)@,
            candidate_views(list@),
            min_header as nat,
            r.1@,
        ),
{
    let ghost d = vol@;
    let ghost all = candidate_views(list@);
    let ghost mut answers: Seq<Option<Seq<char>>> = seq![];
    let mut i: usize = 0;
    while i < list.len()
        invariant
            i <= list.len(),
            d == old(vol)@,
            vol.same_as(old(vol)),
            all == candidate_views(list@),
            forall|h: &Vec<u8>| call_requires(*parse, (h,)),
            answers.len() == i,
            first_name(d, all, min_header as nat, answers) == Ok::<Option<Seq<char>>, ErrView>(None),
            forall|k: int|
                0 <= k < answers.len() ==> (candidate_header(
                    d,
                    all[k],
                    min_header as nat,
                ) matches Ok(Some(bytes)) ==> may_name(*parse, bytes, #[trigger] answers[k])),
        decreases list.len() - i,
    {
        let ghost before = answers;
        assert(all[i as int] == list@[i as int]@);
        proof {
            answers = before.push(None);
            assert(answers.drop_last() =~= before);
        }
        match read_candidate(vol, &list[i], min_header) {
            Err(e) => return (Err(e), Ghost(answers)),
            Ok(None) => {},
            Ok(Some(bytes)) => {
                let (name, Ghost(answer)) = ask_for_name(parse, &bytes);
                proof {
                    answers = before.push(answer);
                    assert(answers.drop_last() =~= before);
                }
                match name {
                    Some(name) => return (Ok(Some(name)), Ghost(answers)),
                    None => {},
                }
            },
        }
        i = i + 1;
    }
    (Ok(None), Ghost(answers))
}

/// The entries of the folder that a path leads to, or nothing if it leads to a file.
pub open spec fn folder_entries(d: Disk, path: Seq<char>) -> core::result::Result<
    Option<Seq<DirentView>>,
    ErrView,
> {
    match d.resolve(path) {
        Err(e) => Err(e),
        Ok(entry) => if !entry.is_directory() {
            Ok(None)
        } else {
            match d.entries(entry.first_cluster) {
                Err(e) => Err(e),
                Ok(entries) => Ok(Some(entries)),
            }
        },
    }
}

/// The files of a folder in the order in which they are tried.
pub open spec fn tried(d: Disk, path: Seq<char>, entries: Seq<DirentView>) -> core::result::Result<
    Seq<CandidateView>,
    ErrView,
> {
    match candidates(d, path.take(trim_len(path) as int), entries) {
        Ok(list) => Ok(by_size(list)),
        Err(e) => Err(e),
    }
}

fn read_folder<D: Device>(vol: &mut FatxVolume<D>, path: &str) -> (r: Result<
    Option<Vec<DirectoryEntry>>,
>)
    requires
        old(vol).wf(),
    ensures
        final(vol).same_as(old(vol)),
        fault(r) ==> !old(vol).reliable(),
        !fault(r) ==> match (r, folder_entries(old(vol)@, path@)) {
            (Ok(Some(v)), Ok(Some(s))) => entry_views(v@) == s,
            (Ok(None), Ok(None)) => true,
            (Err(e), Err(x)) => e@ == x,
            _ => false,
        },
{
    let entry = match vol.resolve_path(path) {
        Ok(entry) => entry,
        Err(e) => return Err(e),
    };
    if !entry.is_directory() {
        return Ok(None);
    }
    match vol.read_directory(entry.first_cluster) {
        Ok(entries) => Ok(Some(entries)),
        Err(e) => Err(e),
    }
}

/// What looking for the name of a title in its folder may find.
pub open spec fn names_folder<F: Fn(&Vec<u8>) -> Option<String>>(
    parse: F,
    d: Disk,
    path: Seq<char>,
    min_header: nat,
    found: core::result::Result<Option<Seq<char>>, ErrView>,
) -> bool {
    match folder_entries(d, path) {
        Err(e) => found == Err::<Option<Seq<char>>, ErrView>(e),
        Ok(None) => found == Ok::<Option<Seq<char>>, ErrView>(None),
        Ok(Some(entries)) => match tried(d, path, entries) {
            Err(e) => found == Err::<Option<Seq<char>>, ErrView>(e),
            Ok(list) => exists|answers: Seq<Option<Seq<char>>>|
                #[trigger] answers_candidates(parse, d, list, min_header, answers) && found
                    == first_name(d, list, min_header, answers),
        },
    }
}

/// The name of a title, from the first package in its folder that carries one. The files in
/// the folder and in its immediate subdirectories are tried, the smallest first. What is
/// damaged is passed over; what the device cannot read ends the search with its error.
pub fn from_folder<D: Device, F: Fn(&Vec<u8>) -> Option<String>>(
    vol: &mut FatxVolume<D>,
    title_folder_path: &str,
    min_header: usize,
    parse: &F,
) -> (r: Result<Option<String>>)
    requires
        old(vol).wf(),
        forall|h: &Vec<u8>| call_requires(*parse, (h,)),
    ensures
        final(vol).same_as(old(vol)),
        fault(r) ==> !old(vol).reliable(),
        !fault(r) ==> names_folder(
            *parse,
            old(vol)@,
            title_folder_path@,
            min_header as nat,
            name_outcome(r),
        ),
{
    let entries = match read_folder(vol, title_folder_path) {
        Ok(Some(entries)) => entries,
        Ok(None) => return Ok(None),
        Err(e) => return Err(e),
    };
    let trimmed = trim_slashes(title_folder_path);
    let found = match collect_candidates(vol, trimmed.as_str(), &entries) {
        Ok(found) => found,
        Err(e) => return Err(e),
    };
    let sorted = sort_by_size(found);
    let (name, Ghost(answers)) = try_candidates(vol, &sorted, min_header, parse);
    name
}

// ---------------------------------------------------------------------------
// Remembering names
// ---------------------------------------------------------------------------

/// The names of titles that were found on volumes.
pub struct TitleCache {
    names: HashMap<u32, String>,
}

impl TitleCache {
    /// The names that are remembered.
    pub closed spec fn view(&self) -> Map<u32, Seq<char>> {
        self.names@.map_values(|s: String| s@)
    }

    /// Remembers nothing yet.
    pub fn new() -> (c: TitleCache)
        ensures
            c@ == Map::<u32, Seq<char>>::empty(),
    {
        let c = TitleCache { names: HashMap::new() };
        assert(c@ =~= Map::<u32, Seq<char>>::empty());
        c
    }

    /// Remembers the name of a title; an earlier one is forgotten.
    pub fn insert(&mut self, title_id: u32, name: String)
        ensures
            final(self)@ == old(self)@.insert(title_id, name@),
    {
        let ghost text = name@;
        self.names.insert(title_id, name);
        assert(self@ =~= old(self)@.insert(title_id, text));
    }

    /// The name of a title, if it is remembered.
    pub fn lookup(&self, title_id: u32) -> (name: Option<&String>)
        ensures
            match name {
                Some(s) => self@.dom().contains(title_id) && s@ == self@[title_id],
                None => !self@.dom().contains(title_id),
            },
    {
        self.names.get(&title_id)
    }
}

/// The names that files carry.
pub struct FileCache {
    names: Vec<(String, String)>,
}

/// The names in a list of pairs.
pub open spec fn pair_views(v: Seq<(String, String)>) -> Seq<(Seq<char>, Seq<char>)> {
    v.map_values(|p: (String, String)| (p.0@, p.1@))
}

/// The place of a path in a list of pairs, from `i` on; the length of the list if it is not
/// there.
pub open spec fn pair_index(v: Seq<(Seq<char>, Seq<char>)>, path: Seq<char>, i: int) -> int
    decreases v.len() - i,
{
    if i < 0 || i >= v.len() {
        v.len() as int
    } else if v[i].0 == path {
        i
    } else {
        pair_index(v, path, i + 1)
    }
}

/// A list of pairs with the name of a path set: in place if the path is there, at the end if
/// it is not.
pub open spec fn with_name(
    v: Seq<(Seq<char>, Seq<char>)>,
    path: Seq<char>,
    name: Seq<char>,
) -> Seq<(Seq<char>, Seq<char>)> {
    let i = pair_index(v, path, 0);
    if i < v.len() {
        v.update(i, (path, name))
    } else {
        v.push((path, name))
    }
}

/// The name that a list of pairs has for a path.
pub open spec fn name_for(v: Seq<(Seq<char>, Seq<char>)>, path: Seq<char>) -> Option<Seq<char>> {
    let i = pair_index(v, path, 0);
    if i < v.len() {
        Some(v[i].1)
    } else {
        None
    }
}

impl FileCache {
    /// The paths with the names that are remembered for them.
    pub closed spec fn view(&self) -> Seq<(Seq<char>, Seq<char>)> {
        pair_views(self.names@)
    }

    /// Remembers nothing yet.
    pub fn new() -> (c: FileCache)
        ensures
            c@ == Seq::<(Seq<char>, Seq<char>)>::empty(),
    {
        let c = FileCache { names: Vec::new() };
        assert(c@ =~= Seq::<(Seq<char>, Seq<char>)>::empty());
        c
    }

    fn position(&self, path: &str) -> (i: usize)
        ensures
            i == pair_index(self@, path@, 0),
            i <= self@.len(),
    {
        let mut i: usize = 0;
        while i < self.names.len()
            invariant
                i <= self.names.len(),
                pair_index(self@, path@, i as int) == pair_index(self@, path@, 0),
            decreases self.names.len() - i,
        {
            assert(self@[i as int].0 == self.names@[i as int].0@);
            if same_text(self.names[i].0.as_str(), path) {
                return i;
            }
            i = i + 1;
        }
        i
    }

    /// Remembers the name of a file; an earlier one is forgotten.
    pub fn insert(&mut self, path: String, name: String)
        ensures
            final(self)@ == with_name(old(self)@, path@, name@),
    {
        let i = self.position(path.as_str());
        let ghost pair = (path@, name@);
        let ghost before = self@;
        if i < self.names.len() {
            self.names.set(i, (path, name));
            assert(self@ =~= before.update(i as int, pair));
        } else {
            self.names.push((path, name));
            assert(self@ =~= before.push(pair));
        }
    }

    /// The name of a file, if it is remembered.
    pub fn lookup(&self, path: &str) -> (name: Option<&String>)
        ensures
            match (name, name_for(self@, path@)) {
                (Some(s), Some(n)) => s@ == n,
                (None, None) => true,
                _ => false,
            },
    {
        let i = self.position(path);
        if i < self.names.len() {
            Some(&self.names[i].1)
        } else {
            None
        }
    }
}

/// A name is found again where it was put, and only there.
pub proof fn law_remembered_name(
    v: Seq<(Seq<char>, Seq<char>)>,
    path: Seq<char>,
    name: Seq<char>,
    other: Seq<char>,
)
    ensures
        name_for(with_name(v, path, name), path) == Some(name),
        other != path ==> name_for(with_name(v, path, name), other) == name_for(v, other),
{
    let w = with_name(v, path, name);
    lemma_pair_index(v, path, 0);
    lemma_pair_index(w, path, 0);
    lemma_pair_index(v, other, 0);
    lemma_pair_index(w, other, 0);
    let i = pair_index(v, path, 0);
    assert(w[i] == (path, name));
    if other != path {
        let a = pair_index(v, other, 0);
        let b = pair_index(w, other, 0);
        if a < v.len() {
            assert(w[a].0 == other);
        }
        if b < w.len() {
            assert(v[b].0 == other);
        }
    }
}

proof fn lemma_pair_index(v: Seq<(Seq<char>, Seq<char>)>, path: Seq<char>, i: int)
    requires
        0 <= i <= v.len(),
    ensures
        i <= pair_index(v, path, i) <= v.len(),
        pair_index(v, path, i) < v.len() ==> v[pair_index(v, path, i)].0 == path,
        forall|k: int| i <= k < pair_index(v, path, i) ==> (#[trigger] v[k]).0 != path,
    decreases v.len() - i,
{
    if i < v.len() && v[i].0 != path {
        lemma_pair_index(v, path, i + 1);
    }
}

// ---------------------------------------------------------------------------
// Finding and remembering
// ---------------------------------------------------------------------------

/// What came of looking for the name of a title.
#[derive(Debug)]
pub enum ResolveOutcome {
    /// The name was found and is remembered; `saved_to` is where the names were saved, if
    /// they were.
    Resolved { title_id: u32, name: String, saved_to: Option<String> },
    /// The path does not end in the number of a title.
    BadTitleIdInPath { last_segment: String },
    /// No package in the folder carries a name.
    NoStfs,
}

/// Asked to save the names of titles, the caller may have put them there.
pub open spec fn may_save<C, W: Fn(&C) -> Option<String>>(
    save: W,
    persist: bool,
    cache: C,
    saved_to: Option<String>,
) -> bool {
    if persist {
        call_ensures(save, (&cache,), saved_to)
    } else {
        saved_to is None
    }
}

/// Looks for the name of the title whose folder a path leads to, and remembers it. With
/// `persist` the caller is asked to save all the names; a failure to do so is no failure of
/// the search.
pub fn resolve_and_cache<
    D: Device,
    F: Fn(&Vec<u8>) -> Option<String>,
    W: Fn(&TitleCache) -> Option<String>,
>(
    vol: &mut FatxVolume<D>,
    title_folder_path: &str,
    persist: bool,
    cache: &mut TitleCache,
    min_header: usize,
    parse: &F,
    save: &W,
) -> (r: Result<ResolveOutcome>)
    requires
        old(vol).wf(),
        forall|h: &Vec<u8>| call_requires(*parse, (h,)),
        forall|c: &TitleCache| call_requires(*save, (c,)),
    ensures
        final(vol).same_as(old(vol)),
        fault(r) ==> !old(vol).reliable(),
        !(r matches Ok(ResolveOutcome::Resolved { .. })) ==> final(cache)@ == old(cache)@,
        title_of_path(title_folder_path@) is None ==> (r matches Ok(
            ResolveOutcome::BadTitleIdInPath { last_segment },
        ) && last_segment@ == name_of(title_folder_path@)),
        !fault(r) && title_of_path(title_folder_path@) is Some
            ==> exists|found: core::result::Result<Option<Seq<char>>, ErrView>|
            #[trigger] names_folder(
                *parse,
                old(vol)@,
                title_folder_path@,
                min_header as nat,
                found,
            ) && match found {
                Err(e) => r matches Err(x) && x@ == e,
                Ok(None) => r matches Ok(ResolveOutcome::NoStfs),
                Ok(Some(text)) => (r matches Ok(
                    ResolveOutcome::Resolved { title_id, name, saved_to },
                ) && {
                    &&& title_id == title_of_path(title_folder_path@)->0
                    &&& name@ == text
                    &&& final(cache)@ == old(cache)@.insert(title_id, text)
                    &&& may_save(*save, persist, *final(cache), saved_to)
                }),
            },
{
    let title_id: u32 = match title_id_from_path(title_folder_path) {
        Some(id) => id,
        None => {
            let (_, last) = split_path(title_folder_path);
            return Ok(ResolveOutcome::BadTitleIdInPath { last_segment: last.to_owned() });
        },
    };
    let found = from_folder(vol, title_folder_path, min_header, parse);
    let ghost seen = name_outcome(found);
    let name = match found {
        Ok(Some(name)) => name,
        Ok(None) => return Ok(ResolveOutcome::NoStfs),
        Err(e) => return Err(e),
    };
    cache.insert(title_id, name.as_str().to_owned());
    let saved_to: Option<String> = if persist {
        save(cache)
    } else {
        None
    };
    Ok(ResolveOutcome::Resolved { title_id, name, saved_to })
}

/// What came of looking at all the files of a folder.
#[derive(Debug)]
pub struct ScanSummary {
    /// Files that carry a name.
    pub resolved: usize,
    /// Files that carry none.
    pub skipped: usize,
    /// Where the names were saved, if they were.
    pub saved_to: Option<String>,
}

/// How far looking at the files of a folder has come.
#[verifier::ext_equal]
pub struct Scan {
    /// The names that are remembered.
    pub cache: Seq<(Seq<char>, Seq<char>)>,
    pub resolved: nat,
    pub skipped: nat,
    /// Why it has stopped, if it has.
    pub end: core::result::Result<(), ErrView>,
}

/// The header of a file in a directory.
pub open spec fn child_header(
    d: Disk,
    dir: Seq<char>,
    e: DirentView,
    min_header: nat,
) -> core::result::Result<Option<Seq<u8>>, ErrView> {
    file_header(d, joined(dir, e.filename()), min_header)
}

/// One more entry of a folder is looked at, and this is the answer on its header.
pub open spec fn scan_step(
    d: Disk,
    dir: Seq<char>,
    min_header: nat,
    e: DirentView,
    answer: Option<Seq<char>>,
    scan: Scan,
) -> Scan {
    if scan.end is Err || e.is_directory() {
        scan
    } else {
        match file_name(child_header(d, dir, e, min_header), answer) {
            Err(x) => Scan { end: Err(x), ..scan },
            Ok(None) => Scan { skipped: scan.skipped + 1, ..scan },
            Ok(Some(name)) => Scan {
                cache: with_name(scan.cache, joined(dir, e.filename()), name),
                resolved: scan.resolved + 1,
                ..scan
            },
        }
    }
}

/// The first entries of a folder are looked at, as many as there are answers.
pub open spec fn scanned(
    d: Disk,
    dir: Seq<char>,
    min_header: nat,
    entries: Seq<DirentView>,
    answers: Seq<Option<Seq<char>>>,
    start: Scan,
) -> Scan
    decreases answers.len(),
{
    if answers.len() == 0 {
        start
    } else {
        scan_step(
            d,
            dir,
            min_header,
            entries[answers.len() - 1],
            answers.last(),
            scanned(d, dir, min_header, entries, answers.drop_last(), start),
        )
    }
}

/// The answers are ones that the caller may give, and go on until the scan stops or there is
/// no more entry.
pub open spec fn answers_scan<F: Fn(&Vec<u8>) -> Option<String>>(
    parse: F,
    d: Disk,
    dir: Seq<char>,
    min_header: nat,
    entries: Seq<DirentView>,
    answers: Seq<Option<Seq<char>>>,
    start: Scan,
) -> bool {
    &&& answers.len() <= entries.len()
    &&& answers.len() < entries.len() ==> scanned(
        d,
        dir,
        min_header,
        entries,
        answers,
        start,
    ).end is Err
    &&& forall|i: int|
        0 <= i < answers.len() && !entries[i].is_directory() ==> answers_header(
            parse,
            child_header(d, dir, entries[i], min_header),
            #[trigger] answers[i],
        )
}

fn scan_entries<D: Device, F: Fn(&Vec<u8>) -> Option<String>>(
    vol: &mut FatxVolume<D>,
    dir: &str,
    entries: &Vec<DirectoryEntry>,
    cache: &mut FileCache,
    min_header: usize,
    parse: &F,
) -> (r: (Result<(usize, usize)>, Ghost<Seq<Option<Seq<char>>>>))
    requires
        old(vol).wf(),
        forall|h: &Vec<u8>| call_requires(*parse, (h,)),
    ensures
        final(vol).same_as(old(vol)),
        fault(r.0) ==> !old(vol).reliable(),
        !fault(r.0) ==> ({
            let start = Scan {
                cache: old(cache)@,
                resolved: 0,
                skipped: 0,
                end: Ok::<(), ErrView>(()),
            };
            let all = entry_views(entries@);
            let scan = scanned(old(vol)@, dir@, min_header as nat, all, r.1@, start);
            &&& answers_scan(*parse, old(vol)@, dir@, min_header as nat, all, r.1@, start)
            &&& final(cache)@ == scan.cache
            &&& match r.0 {
                Ok(n) => scan.end is Ok && n.0 == scan.resolved && n.1 == scan.skipped,
                Err(e) => scan.end == Err::<(), ErrView>(e@),
            }
        }),
{
    let ghost d = vol@;
    let ghost all = entry_views(entries@);
    let ghost start = Scan {
        cache: cache@,
        resolved: 0,
        skipped: 0,
        end: Ok::<(), ErrView>(()),
    };
    let ghost mut answers: Seq<Option<Seq<char>>> = seq![];
    let mut resolved: usize = 0;
    let mut skipped: usize = 0;
    let mut i: usize = 0;
    while i < entries.len()
        invariant
            i <= entries.len(),
            d == old(vol)@,
            vol.same_as(old(vol)),
            all == entry_views(entries@),
            start == (Scan {
                cache: old(cache)@,
                resolved: 0,
                skipped: 0,
                end: Ok::<(), ErrView>(()),
            }),
            forall|h: &Vec<u8>| call_requires(*parse, (h,)),
            answers.len() == i,
            resolved + skipped <= i,
            scanned(d, dir@, min_header as nat, all, answers, start) == (Scan {
                cache: cache@,
                resolved: resolved as nat,
                skipped: skipped as nat,
                end: Ok::<(), ErrView>(()),
            }),
            forall|k: int|
                0 <= k < answers.len() && !all[k].is_directory() ==> answers_header(
                    *parse,
                    child_header(d, dir@, all[k], min_header as nat),
                    #[trigger] answers[k],
                ),
        decreases entries.len() - i,
    {
        let e = &entries[i];
        let ghost before = answers;
        assert(all[i as int] == e@);
        if e.is_directory() {
            proof {
                answers = before.push(None);
                assert(answers.drop_last() =~= before);
            }
        } else {
            let name = e.filename();
            let path = join(dir, name.as_str());
            let (found, Ghost(answer)) = name_in_file(vol, path.as_str(), min_header, parse);
            proof {
                answers = before.push(answer);
                assert(answers.drop_last() =~= before);
            }
            match found {
                Ok(Some(name)) => {
                    cache.insert(path, name);
                    resolved = resolved + 1;
                },
                Ok(None) => {
                    skipped = skipped + 1;
                },
                Err(x) => return (Err(x), Ghost(answers)),
            }
        }
        i = i + 1;
    }
    (Ok((resolved, skipped)), Ghost(answers))
}

/// Looks at every file in a folder and remembers the names that they carry. With `persist`
/// the caller is asked to save all the names, if there are new ones.
pub fn scan_folder_files<
    D: Device,
    F: Fn(&Vec<u8>) -> Option<String>,
    W: Fn(&FileCache) -> Option<String>,
>(
    vol: &mut FatxVolume<D>,
    content_type_folder_path: &str,
    persist: bool,
    cache: &mut FileCache,
    min_header: usize,
    parse: &F,
    save: &W,
) -> (r: Result<ScanSummary>)
    requires
        old(vol).wf(),
        forall|h: &Vec<u8>| call_requires(*parse, (h,)),
        forall|c: &FileCache| call_requires(*save, (c,)),
    ensures
        final(vol).same_as(old(vol)),
        fault(r) ==> !old(vol).reliable(),
        !fault(r) ==> match folder_entries(old(vol)@, content_type_folder_path@) {
            Err(e) => r matches Err(x) && x@ == e && final(cache)@ == old(cache)@,
            Ok(None) => r matches Ok(s) && s.resolved == 0 && s.skipped == 0 && s.saved_to is None
                && final(cache)@ == old(cache)@,
            Ok(Some(entries)) => {
                let dir = content_type_folder_path@.take(
                    trim_len(content_type_folder_path@) as int,
                );
                let start = Scan {
                    cache: old(cache)@,
                    resolved: 0,
                    skipped: 0,
                    end: Ok::<(), ErrView>(()),
                };
                exists|answers: Seq<Option<Seq<char>>>|
                    #[trigger] answers_scan(
                        *parse,
                        old(vol)@,
                        dir,
                        min_header as nat,
                        entries,
                        answers,
                        start,
                    ) && {
                        let scan = scanned(
                            old(vol)@,
                            dir,
                            min_header as nat,
                            entries,
                            answers,
                            start,
                        );
                        &&& final(cache)@ == scan.cache
                        &&& match r {
                            Ok(s) => {
                                &&& scan.end is Ok
                                &&& s.resolved == scan.resolved
                                &&& s.skipped == scan.skipped
                                &&& may_save(
                                    *save,
                                    persist && s.resolved > 0,
                                    *final(cache),
                                    s.saved_to,
                                )
                            },
                            Err(e) => scan.end == Err::<(), ErrView>(e@),
                        }
                    }
            },
        },
{
    let entries = match read_folder(vol, content_type_folder_path) {
        Ok(Some(entries)) => entries,
        Ok(None) => return Ok(ScanSummary { resolved: 0, skipped: 0, saved_to: None }),
        Err(e) => return Err(e),
    };
    let trimmed = trim_slashes(content_type_folder_path);
    let (counts, Ghost(answers)) = scan_entries(
        vol,
        trimmed.as_str(),
        &entries,
        cache,
        min_header,
        parse,
    );
    let (resolved, skipped) = match counts {
        Ok(counts) => counts,
        Err(e) => return Err(e),
    };
    let saved_to: Option<String> = if persist && resolved > 0 {
        save(cache)
    } else {
        None
    };
    Ok(ScanSummary { resolved, skipped, saved_to })
}

/// Sizes never fall from one candidate to the next.
pub open spec fn rising(list: Seq<CandidateView>) -> bool {
    forall|i: int, j: int|
        0 <= i < j < list.len() ==> (#[trigger] list[i]).size <= (#[trigger] list[j]).size
}

proof fn lemma_placed(list: Seq<CandidateView>, c: CandidateView)
    requires
        rising(list),
    ensures
        rising(placed(list, c)),
        placed(list, c).len() == list.len() + 1,
        placed(list, c).to_multiset() =~= list.to_multiset().insert(c),
        forall|k: int|
            0 <= k < placed(list, c).len() ==> (#[trigger] placed(list, c)[k]).size <= c.size
                || list.len() > 0 && placed(list, c)[k].size <= list.last().size,
    decreases list.len(),
{
    broadcast use vstd::seq_lib::group_to_multiset_ensures;

    if list.len() > 0 && c.size < list.last().size {
        let head = list.drop_last();
        lemma_placed(head, c);
        assert(list =~= head.push(list.last()));
        let part = placed(head, c);
        assert forall|k: int| 0 <= k < part.len() implies (#[trigger] part[k]).size
            <= list.last().size by {
            if head.len() > 0 {
                assert(list[head.len() - 1].size <= list[list.len() - 1].size);
            }
        }
    }
}

/// The files of a folder are tried from the smallest to the largest, each of them once.
pub proof fn law_smallest_first(list: Seq<CandidateView>)
    ensures
        rising(by_size(list)),
        by_size(list).to_multiset() =~= list.to_multiset(),
    decreases list.len(),
{
    broadcast use vstd::seq_lib::group_to_multiset_ensures;

    if list.len() > 0 {
        law_smallest_first(list.drop_last());
        lemma_placed(by_size(list.drop_last()), list.last());
        assert(list =~= list.drop_last().push(list.last()));
    } else {
        assert(list =~= seq![]);
    }
}

} // verus!
