//! Which files of a disc image are wanted.

use vstd::prelude::*;
use crate::text::{ascii_lower, chars_of, same_name, string_of};

verus! {

/// A file of a disc image.
#[derive(Debug)]
pub struct XisoFile {
    /// Where the file stands in the image.
    pub path: String,
    /// Its size in bytes.
    pub size: u64,
}

/// A file of a disc image, as a mathematical value.
#[verifier::ext_equal]
pub struct XisoView {
    pub path: Seq<char>,
    pub size: u64,
}

impl View for XisoFile {
    type V = XisoView;

    open spec fn view(&self) -> XisoView {
        XisoView { path: self.path@, size: self.size }
    }
}

impl XisoFile {
    /// The same file once more.
    pub fn copy(&self) -> (f: XisoFile)
        ensures
            f@ == self@,
    {
        XisoFile { path: self.path.as_str().to_owned(), size: self.size }
    }
}

/// A list of files by their views.
pub open spec fn files_view(files: Seq<XisoFile>) -> Seq<XisoView> {
    files.map_values(|f: XisoFile| f@)
}

/// The sizes of some files together.
pub open spec fn total_size(files: Seq<XisoView>) -> nat
    decreases files.len(),
{
    if files.len() == 0 {
        0
    } else {
        total_size(files.drop_last()) + files.last().size as nat
    }
}

/// `s` without the slashes it starts with.
pub open spec fn unrooted(s: Seq<char>) -> Seq<char>
    decreases s.len(),
{
    if s.len() > 0 && s[0] == '/' {
        unrooted(s.skip(1))
    } else {
        s
    }
}

/// `s` up to its first slash.
pub open spec fn before_slash(s: Seq<char>) -> Seq<char>
    decreases s.len(),
{
    if s.len() == 0 || s[0] == '/' {
        seq![]
    } else {
        seq![s[0]] + before_slash(s.skip(1))
    }
}

/// The file is part of the dashboard update that retail discs carry: the first component of
/// its path is `$SystemUpdate`, in any case.
pub open spec fn in_systemupdate(path: Seq<char>) -> bool {
    ascii_lower(before_slash(unrooted(path))) == ascii_lower("$SystemUpdate"@)
}

/// The file is wanted.
pub open spec fn wanted(f: XisoView, keep_systemupdate: bool) -> bool {
    keep_systemupdate || !in_systemupdate(f.path)
}

/// The files that are wanted, in order.
pub open spec fn kept_of(files: Seq<XisoView>, keep_systemupdate: bool) -> Seq<XisoView> {
    files.filter(|f: XisoView| wanted(f, keep_systemupdate))
}

/// The files that are not wanted, in order.
pub open spec fn skipped_of(files: Seq<XisoView>, keep_systemupdate: bool) -> Seq<XisoView> {
    files.filter(|f: XisoView| !wanted(f, keep_systemupdate))
}

/// The files of an image, parted into those that are wanted and the others.
#[derive(Debug)]
pub struct FilteredIsoFiles {
    pub kept: Vec<XisoFile>,
    pub skipped: Vec<XisoFile>,
    /// The sizes of the wanted files together.
    pub kept_bytes: u64,
    /// The sizes of the other files together.
    pub skipped_bytes: u64,
}

impl FilteredIsoFiles {
    /// How many files are wanted.
    pub fn kept_files(&self) -> (n: usize)
        ensures
            n == self.kept@.len(),
    {
        self.kept.len()
    }

    /// How many files are not wanted.
    pub fn skipped_files(&self) -> (n: usize)
        ensures
            n == self.skipped@.len(),
    {
        self.skipped.len()
    }
}

/// Whether a file is part of the dashboard update that retail discs carry.
pub fn is_systemupdate_path(path: &str) -> (b: bool)
    ensures
        b == in_systemupdate(path@),
{
    let chars = chars_of(path);
    let mut start: usize = 0;
    proof {
        assert(chars@.skip(0) =~= chars@);
    }
    while start < chars.len() && chars[start] == '/'
        invariant
            chars@ == path@,
            start <= chars.len(),
            unrooted(chars@.skip(start as int)) == unrooted(path@),
        decreases chars.len() - start,
    {
        proof {
            let rest = chars@.skip(start as int);
            assert(rest[0] == chars@[start as int]);
            assert(rest.skip(1) =~= chars@.skip(start + 1));
        }
        start = start + 1;
    }
    let ghost tail = chars@.skip(start as int);
    assert(unrooted(tail) == tail) by {
        if tail.len() > 0 {
            assert(tail[0] == chars@[start as int]);
        }
    }
    let mut end: usize = start;
    proof {
        assert(chars@.subrange(start as int, start as int) + before_slash(tail) =~= before_slash(
            tail,
        ));
    }
    while end < chars.len() && chars[end] != '/'
        invariant
            start <= end <= chars.len(),
            tail == chars@.skip(start as int),
            chars@.subrange(start as int, end as int) + before_slash(chars@.skip(end as int))
                == before_slash(tail),
        decreases chars.len() - end,
    {
        proof {
            let rest = chars@.skip(end as int);
            assert(rest[0] == chars@[end as int]);
            assert(rest.skip(1) =~= chars@.skip(end + 1));
            assert(chars@.subrange(start as int, end + 1) + before_slash(rest.skip(1))
                =~= chars@.subrange(start as int, end as int) + before_slash(rest));
        }
        end = end + 1;
    }
    let first = string_of(&chars, start, end);
    proof {
        let rest = chars@.skip(end as int);
        assert(before_slash(rest) =~= seq![]) by {
            if rest.len() > 0 {
                assert(rest[0] == chars@[end as int]);
            }
        }
        assert(first@ =~= before_slash(tail));
    }
    first.as_str().eq_ignore_ascii_case("$SystemUpdate")
}

proof fn lemma_take_next(files: Seq<XisoView>, keep: bool, i: int)
    requires
        0 <= i < files.len(),
    ensures
        kept_of(files.take(i + 1), keep) == (if wanted(files[i], keep) {
            kept_of(files.take(i), keep).push(files[i])
        } else {
            kept_of(files.take(i), keep)
        }),
        skipped_of(files.take(i + 1), keep) == (if wanted(files[i], keep) {
            skipped_of(files.take(i), keep)
        } else {
            skipped_of(files.take(i), keep).push(files[i])
        }),
{
    reveal(Seq::filter);
    assert(files.take(i + 1).drop_last() =~= files.take(i));
}

proof fn lemma_total_push(files: Seq<XisoView>, f: XisoView)
    ensures
        total_size(files.push(f)) == total_size(files) + f.size,
{
    assert(files.push(f).drop_last() =~= files);
}

/// Parting a list loses nothing: the two lists have the files and the bytes of the whole
/// between them, and each holds what it should.
pub proof fn law_filter_parts_the_files(files: Seq<XisoView>, keep_systemupdate: bool)
    ensures
        kept_of(files, keep_systemupdate).len() + skipped_of(files, keep_systemupdate).len()
            == files.len(),
        total_size(kept_of(files, keep_systemupdate)) + total_size(
            skipped_of(files, keep_systemupdate),
        ) == total_size(files),
        forall|i: int|
            0 <= i < kept_of(files, keep_systemupdate).len() ==> wanted(
                #[trigger] kept_of(files, keep_systemupdate)[i],
                keep_systemupdate,
            ),
        forall|i: int|
            0 <= i < skipped_of(files, keep_systemupdate).len() ==> !wanted(
                #[trigger] skipped_of(files, keep_systemupdate)[i],
                keep_systemupdate,
            ),
        forall|i: int|
            0 <= i < files.len() ==> kept_of(files, keep_systemupdate).contains(
                #[trigger] files[i],
            ) || skipped_of(files, keep_systemupdate).contains(files[i]),
        keep_systemupdate ==> kept_of(files, keep_systemupdate) == files,
    decreases files.len(),
{
    let keep = keep_systemupdate;
    reveal(Seq::filter);
    if files.len() > 0 {
        let n = files.len() - 1;
        let init = files.drop_last();
        law_filter_parts_the_files(init, keep);
        assert(files.take(n) =~= init);
        assert(files.take(n + 1) =~= files);
        lemma_take_next(files, keep, n);
        lemma_total_push(kept_of(init, keep), files[n]);
        lemma_total_push(skipped_of(init, keep), files[n]);
        let k = kept_of(files, keep);
        let s = skipped_of(files, keep);
        assert forall|i: int| 0 <= i < files.len() implies k.contains(#[trigger] files[i])
            || s.contains(files[i]) by {
            if i < n {
                assert(init[i] == files[i]);
                if kept_of(init, keep).contains(files[i]) {
                    let j = choose|j: int|
                        0 <= j < kept_of(init, keep).len() && kept_of(init, keep)[j] == files[i];
                    assert(k[j] == files[i]);
                } else {
                    let j = choose|j: int|
                        0 <= j < skipped_of(init, keep).len() && skipped_of(init, keep)[j]
                            == files[i];
                    assert(s[j] == files[i]);
                }
            } else if wanted(files[n], keep) {
                assert(k[k.len() - 1] == files[n]);
            } else {
                assert(s[s.len() - 1] == files[n]);
            }
        }
        if keep {
            assert(k =~= files);
        }
    } else {
        assert(kept_of(files, keep) =~= files);
    }
}

/// The first component of a path: what stands between the slashes that it starts with, if any,
/// and the next slash or its end. `from` and `to` are where it starts and ends.
pub open spec fn first_component_at(path: Seq<char>, from: int, to: int) -> bool {
    &&& 0 <= from <= to <= path.len()
    &&& forall|i: int| 0 <= i < from ==> #[trigger] path[i] == '/'
    &&& forall|i: int| from <= i < to ==> #[trigger] path[i] != '/'
    &&& from < path.len() ==> path[from] != '/'
    &&& to < path.len() ==> path[to] == '/'
}

proof fn lemma_before_slash(s: Seq<char>, n: int)
    requires
        0 <= n <= s.len(),
        forall|i: int| 0 <= i < n ==> #[trigger] s[i] != '/',
        n < s.len() ==> s[n] == '/',
    ensures
        before_slash(s) == s.take(n),
    decreases n,
{
    if n == 0 {
        assert(s.take(0) =~= seq![]);
    } else {
        assert(s[0] != '/');
        let t = s.skip(1);
        assert forall|i: int| 0 <= i < n - 1 implies #[trigger] t[i] != '/' by {
            assert(t[i] == s[i + 1]);
        }
        lemma_before_slash(t, n - 1);
        assert(s.take(n) =~= seq![s[0]] + t.take(n - 1));
    }
}

proof fn lemma_unrooted(s: Seq<char>, n: int)
    requires
        0 <= n <= s.len(),
        forall|i: int| 0 <= i < n ==> #[trigger] s[i] == '/',
        n < s.len() ==> s[n] != '/',
    ensures
        unrooted(s) == s.skip(n),
    decreases n,
{
    if n == 0 {
        assert(s.skip(0) =~= s);
    } else {
        assert(s[0] == '/');
        let t = s.skip(1);
        assert forall|i: int| 0 <= i < n - 1 implies #[trigger] t[i] == '/' by {
            assert(t[i] == s[i + 1]);
        }
        lemma_unrooted(t, n - 1);
        assert(s.skip(n) =~= t.skip(n - 1));
    }
}

proof fn lemma_filtered<T>(s: Seq<T>, keep: spec_fn(T) -> bool, i: int)
    requires
        0 <= i < s.len(),
    ensures
        s.filter(keep).contains(s[i]) == keep(s[i]),
    decreases s.len(),
{
    reveal(Seq::filter);
    let init = s.drop_last();
    let f = s.filter(keep);
    let g = init.filter(keep);
    if s.filter(keep).contains(s[i]) {
        let j = choose|j: int| 0 <= j < f.len() && f[j] == s[i];
        lemma_filtered_member(s, keep, j);
    }
    if keep(s[i]) {
        if i < init.len() {
            lemma_filtered(init, keep, i);
            assert(init[i] == s[i]);
            let j = choose|j: int| 0 <= j < g.len() && g[j] == s[i];
            assert(f[j] == s[i]);
        } else {
            assert(f[f.len() - 1] == s[i]);
        }
    }
}

proof fn lemma_filtered_member<T>(s: Seq<T>, keep: spec_fn(T) -> bool, j: int)
    requires
        0 <= j < s.filter(keep).len(),
    ensures
        keep(s.filter(keep)[j]),
    decreases s.len(),
{
    reveal(Seq::filter);
    if s.len() > 0 {
        let g = s.drop_last().filter(keep);
        if j < g.len() {
            lemma_filtered_member(s.drop_last(), keep, j);
        }
    }
}

/// Which files are kept: with dashboard updates, all of them; without, those and only those
/// whose path does not start with the component `$SystemUpdate` in any case. Nothing but the
/// path matters.
pub proof fn law_kept_by_first_component(
    files: Seq<XisoView>,
    keep_systemupdate: bool,
    i: int,
    from: int,
    to: int,
)
    requires
        0 <= i < files.len(),
        first_component_at(files[i].path, from, to),
    ensures
        ({
            let update = same_name(files[i].path.subrange(from, to), "$SystemUpdate"@);
            let kept = kept_of(files, keep_systemupdate);
            let skipped = skipped_of(files, keep_systemupdate);
            &&& kept.contains(files[i]) <==> keep_systemupdate || !update
            &&& skipped.contains(files[i]) <==> !keep_systemupdate && update
        }),
{
    let f = files[i];
    lemma_unrooted(f.path, from);
    let rest = f.path.skip(from);
    assert forall|k: int| 0 <= k < to - from implies #[trigger] rest[k] != '/' by {
        assert(rest[k] == f.path[from + k]);
    }
    lemma_before_slash(rest, to - from);
    assert(rest.take(to - from) =~= f.path.subrange(from, to));
    lemma_filtered(files, |g: XisoView| wanted(g, keep_systemupdate), i);
    lemma_filtered(files, |g: XisoView| !wanted(g, keep_systemupdate), i);
}

/// Files with the same path are treated alike, whatever their sizes.
pub proof fn law_size_does_not_matter(
    files: Seq<XisoView>,
    others: Seq<XisoView>,
    keep_systemupdate: bool,
    i: int,
    j: int,
)
    requires
        0 <= i < files.len(),
        0 <= j < others.len(),
        files[i].path == others[j].path,
    ensures
        kept_of(files, keep_systemupdate).contains(files[i]) == kept_of(
            others,
            keep_systemupdate,
        ).contains(others[j]),
{
    lemma_filtered(files, |g: XisoView| wanted(g, keep_systemupdate), i);
    lemma_filtered(others, |g: XisoView| wanted(g, keep_systemupdate), j);
}

/// The kept files and the others are in the order in which they were.
pub proof fn law_order_is_kept(
    files: Seq<XisoView>,
    keep_systemupdate: bool,
) -> (places: (Seq<int>, Seq<int>))
    ensures
        in_order_of(files, kept_of(files, keep_systemupdate), places.0),
        in_order_of(files, skipped_of(files, keep_systemupdate), places.1),
{
    (
        lemma_filter_places(files, |g: XisoView| wanted(g, keep_systemupdate)),
        lemma_filter_places(files, |g: XisoView| !wanted(g, keep_systemupdate)),
    )
}

/// `some` are the files of `all` at rising places.
pub open spec fn in_order_of(all: Seq<XisoView>, some: Seq<XisoView>, places: Seq<int>) -> bool {
    &&& places.len() == some.len()
    &&& forall|k: int|
        0 <= k < places.len() ==> 0 <= #[trigger] places[k] < all.len() && all[places[k]] == some[k]
    &&& forall|k: int, m: int| 0 <= k < m < places.len() ==> places[k] < places[m]
}

proof fn lemma_filter_places(s: Seq<XisoView>, keep: spec_fn(XisoView) -> bool) -> (places: Seq<int>)
    ensures
        in_order_of(s, s.filter(keep), places),
    decreases s.len(),
{
    reveal(Seq::filter);
    if s.len() == 0 {
        seq![]
    } else {
        let init = s.drop_last();
        let p = lemma_filter_places(init, keep);
        assert forall|k: int| 0 <= k < p.len() implies 0 <= #[trigger] p[k] < s.len() && s[p[k]]
            == init.filter(keep)[k] by {
            assert(init[p[k]] == s[p[k]]);
        }
        if keep(s.last()) {
            p.push(s.len() - 1)
        } else {
            p
        }
    }
}

proof fn lemma_total_bounds(files: Seq<XisoView>, keep: bool, i: int)
    requires
        0 <= i <= files.len(),
    ensures
        total_size(kept_of(files.take(i), keep)) <= total_size(files),
        total_size(skipped_of(files.take(i), keep)) <= total_size(files),
    decreases files.len() - i,
{
    if i == files.len() {
        assert(files.take(i) =~= files);
        law_filter_parts_the_files(files, keep);
    } else {
        lemma_total_bounds(files, keep, i + 1);
        lemma_take_next(files, keep, i);
        lemma_total_push(kept_of(files.take(i), keep), files[i]);
        lemma_total_push(skipped_of(files.take(i), keep), files[i]);
    }
}

/// Parts the files of an image into those that are wanted and the others. The sizes of all
/// files together must fit in 64 bits.
pub fn filter_entries(entries: &[XisoFile], keep_systemupdate: bool) -> (r: FilteredIsoFiles)
    requires
        total_size(files_view(entries@)) <= u64::MAX,
    ensures
        files_view(r.kept@) == kept_of(files_view(entries@), keep_systemupdate),
        files_view(r.skipped@) == skipped_of(files_view(entries@), keep_systemupdate),
        r.kept_bytes == total_size(files_view(r.kept@)),
        r.skipped_bytes == total_size(files_view(r.skipped@)),
{
    let ghost files = files_view(entries@);
    let mut kept: Vec<XisoFile> = Vec::new();
    let mut skipped: Vec<XisoFile> = Vec::new();
    let mut kept_bytes: u64 = 0;
    let mut skipped_bytes: u64 = 0;
    let mut i: usize = 0;
    proof {
        reveal(Seq::filter);
        assert(files.take(0) =~= seq![]);
        assert(files_view(kept@) =~= kept_of(files.take(0), keep_systemupdate));
        assert(files_view(skipped@) =~= skipped_of(files.take(0), keep_systemupdate));
    }
    while i < entries.len()
        invariant
            i <= entries.len(),
            files == files_view(entries@),
            total_size(files) <= u64::MAX,
            files_view(kept@) == kept_of(files.take(i as int), keep_systemupdate),
            files_view(skipped@) == skipped_of(files.take(i as int), keep_systemupdate),
            kept_bytes == total_size(files_view(kept@)),
            skipped_bytes == total_size(files_view(skipped@)),
        decreases entries.len() - i,
    {
        let entry = entries[i].copy();
        let ghost k = kept@;
        let ghost s = skipped@;
        proof {
            assert(entry@ == files[i as int]);
            lemma_take_next(files, keep_systemupdate, i as int);
            lemma_total_bounds(files, keep_systemupdate, i + 1);
            lemma_total_push(files_view(k), entry@);
            lemma_total_push(files_view(s), entry@);
        }
        if keep_systemupdate || !is_systemupdate_path(entry.path.as_str()) {
            kept_bytes = kept_bytes + entry.size;
            kept.push(entry);
            assert(files_view(kept@) =~= files_view(k).push(entry@));
        } else {
            skipped_bytes = skipped_bytes + entry.size;
            skipped.push(entry);
            assert(files_view(skipped@) =~= files_view(s).push(entry@));
        }
        i = i + 1;
    }
    assert(files.take(i as int) =~= files);
    FilteredIsoFiles { kept, skipped, kept_bytes, skipped_bytes }
}

} // verus!
