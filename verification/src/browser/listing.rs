//! Directory listings as the browser shows them.

use vstd::prelude::*;
use crate::mkimage::{bytes_text, format_bytes};
use crate::text::{lowercase_text, to_lowercase, chars_of};
use crate::types::{datetime_text, DirectoryEntry, DirentView, FileAttributes};

verus! {

/// A line of a listing.
pub struct DisplayEntry {
    pub name: String,
    pub is_dir: bool,
    pub size: u64,
    /// The time of the last write.
    pub modified: String,
    /// Four letters or dashes: directory, read-only, hidden, system.
    pub attributes: String,
    pub first_cluster: u32,
}

/// A line of a listing as a mathematical value.
#[verifier::ext_equal]
pub struct DisplayView {
    pub name: Seq<char>,
    pub is_dir: bool,
    pub size: u64,
    pub modified: Seq<char>,
    pub attributes: Seq<char>,
    pub first_cluster: u32,
}

impl View for DisplayEntry {
    type V = DisplayView;

    open spec fn view(&self) -> DisplayView {
        DisplayView {
            name: self.name@,
            is_dir: self.is_dir,
            size: self.size,
            modified: self.modified@,
            attributes: self.attributes@,
            first_cluster: self.first_cluster,
        }
    }
}

/// The views of lines.
pub open spec fn display_views(v: Seq<DisplayEntry>) -> Seq<DisplayView> {
    v.map_values(|e: DisplayEntry| e@)
}

/// A letter for a bit that is set.
pub open spec fn flag_char(set: bool, letter: char) -> char {
    if set {
        letter
    } else {
        '-'
    }
}

/// The line of a directory entry.
pub open spec fn display_of(e: DirentView) -> DisplayView {
    DisplayView {
        name: e.filename(),
        is_dir: e.is_directory(),
        size: e.file_size as u64,
        modified: datetime_text(e.write_date, e.write_time),
        attributes: seq![
            flag_char(e.is_directory(), 'd'),
            flag_char(e.attributes.includes(FileAttributes::READ_ONLY), 'r'),
            flag_char(e.attributes.includes(FileAttributes::HIDDEN), 'h'),
            flag_char(e.attributes.includes(FileAttributes::SYSTEM), 's'),
        ],
        first_cluster: e.first_cluster,
    }
}

fn push_flag(s: &mut String, set: bool, letter: char)
    ensures
        final(s)@ == old(s)@.push(flag_char(set, letter)),
{
    s.push(if set { letter } else { '-' });
}

/// Makes the line of a directory entry.
pub fn make_line(e: &DirectoryEntry) -> (l: DisplayEntry)
    ensures
        l@ == display_of(e@),
{
    let mut attributes = String::new();
    push_flag(&mut attributes, e.is_directory(), 'd');
    push_flag(&mut attributes, e.attributes.contains(FileAttributes::READ_ONLY), 'r');
    push_flag(&mut attributes, e.attributes.contains(FileAttributes::HIDDEN), 'h');
    push_flag(&mut attributes, e.attributes.contains(FileAttributes::SYSTEM), 's');
    assert(attributes@ =~= display_of(e@).attributes);
    DisplayEntry {
        name: e.filename(),
        is_dir: e.is_directory(),
        size: e.file_size as u64,
        modified: e.write_datetime_str(),
        attributes,
        first_cluster: e.first_cluster,
    }
}

// ---------------------------------------------------------------------------
// Order
// ---------------------------------------------------------------------------

/// `a` comes before `b` in the dictionary.
pub open spec fn text_less(a: Seq<char>, b: Seq<char>) -> bool
    decreases a.len(),
{
    if b.len() == 0 {
        false
    } else if a.len() == 0 {
        true
    } else {
        a[0] < b[0] || (a[0] == b[0] && text_less(a.drop_first(), b.drop_first()))
    }
}

/// `a` is listed before `b`: directories come first, and names go by the dictionary, upper
/// and lower case alike.
pub open spec fn listed_before(a: DisplayView, b: DisplayView) -> bool {
    if a.is_dir != b.is_dir {
        a.is_dir
    } else {
        text_less(lowercase_text(a.name), lowercase_text(b.name))
    }
}

/// `e` put into an ordered listing, behind those that are not listed after it.
pub open spec fn insert_line(lines: Seq<DisplayView>, e: DisplayView) -> Seq<DisplayView>
    decreases lines.len(),
{
    if lines.len() == 0 || !listed_before(e, lines.last()) {
        lines.push(e)
    } else {
        insert_line(lines.drop_last(), e).push(lines.last())
    }
}

/// The lines in order; lines of the same rank stay in the order they came in.
pub open spec fn sorted_lines(lines: Seq<DisplayView>) -> Seq<DisplayView>
    decreases lines.len(),
{
    if lines.len() == 0 {
        seq![]
    } else {
        insert_line(sorted_lines(lines.drop_last()), lines.last())
    }
}

/// Whether `a` comes before `b` in the dictionary.
fn is_text_less(a: &Vec<char>, b: &Vec<char>) -> (less: bool)
    ensures
        less == text_less(a@, b@),
{
    let mut i: usize = 0;
    assert(a@.skip(0) =~= a@);
    assert(b@.skip(0) =~= b@);
    while i < a.len() && i < b.len()
        invariant
            i <= a.len(),
            i <= b.len(),
            text_less(a@.skip(i as int), b@.skip(i as int)) == text_less(a@, b@),
        decreases a.len() - i,
    {
        proof {
            let x = a@.skip(i as int);
            let y = b@.skip(i as int);
            assert(x[0] == a@[i as int] && y[0] == b@[i as int]);
            assert(x.drop_first() =~= a@.skip(i + 1));
            assert(y.drop_first() =~= b@.skip(i + 1));
        }
        if a[i] < b[i] {
            return true;
        }
        if b[i] < a[i] {
            return false;
        }
        i = i + 1;
    }
    i < b.len()
}

fn is_listed_before(a: &DisplayEntry, b: &DisplayEntry) -> (before: bool)
    ensures
        before == listed_before(a@, b@),
{
    if a.is_dir != b.is_dir {
        a.is_dir
    } else {
        let x = chars_of(to_lowercase(a.name.as_str()).as_str());
        let y = chars_of(to_lowercase(b.name.as_str()).as_str());
        is_text_less(&x, &y)
    }
}

fn place_line(lines: &mut Vec<DisplayEntry>, e: DisplayEntry)
    ensures
        display_views(final(lines)@) == insert_line(display_views(old(lines)@), e@),
{
    let ghost all = display_views(lines@);
    let mut k: usize = lines.len();
    assert(all.take(k as int) =~= all);
    assert(insert_line(all, e@) =~= insert_line(all.take(k as int), e@) + all.skip(k as int));
    while k > 0 && is_listed_before(&e, &lines[k - 1])
        invariant
            k <= lines.len(),
            all == display_views(lines@),
            insert_line(all, e@) == insert_line(all.take(k as int), e@) + all.skip(k as int),
        decreases k,
    {
        proof {
            let t = all.take(k as int);
            assert(t.last() == lines@[k - 1]@);
            assert(t.drop_last() =~= all.take(k - 1));
            assert(insert_line(all.take(k - 1), e@).push(t.last()) + all.skip(k as int)
                =~= insert_line(all.take(k - 1), e@) + all.skip(k - 1));
        }
        k = k - 1;
    }
    proof {
        let t = all.take(k as int);
        if k > 0 {
            assert(t.last() == lines@[k - 1]@);
        }
        assert(insert_line(t, e@) == t.push(e@));
    }
    let ghost new = e@;
    lines.insert(k, e);
    assert(display_views(lines@) =~= all.take(k as int).push(new) + all.skip(k as int));
}

/// Puts lines in order.
pub fn sort_lines(lines: Vec<DisplayEntry>) -> (sorted: Vec<DisplayEntry>)
    ensures
        display_views(sorted@) == sorted_lines(display_views(lines@)),
{
    let ghost all = display_views(lines@);
    let n: usize = lines.len();
    let mut rest = lines;
    let mut sorted: Vec<DisplayEntry> = Vec::new();
    let mut i: usize = 0;
    assert(display_views(sorted@) =~= sorted_lines(all.take(0)));
    assert(all.skip(0) =~= all);
    while i < n
        invariant
            i <= n,
            n == all.len(),
            display_views(rest@) == all.skip(i as int),
            display_views(sorted@) == sorted_lines(all.take(i as int)),
        decreases n - i,
    {
        let ghost before = rest@;
        assert(display_views(before).len() == n - i);
        let e = rest.remove(0);
        proof {
            assert(display_views(before)[0] == e@);
            assert(e@ == all[i as int]);
            assert(rest@ =~= before.drop_first());
            assert(display_views(rest@) =~= display_views(before).drop_first());
            assert(display_views(before).drop_first() =~= all.skip(i + 1));
            assert(all.take(i + 1).drop_last() =~= all.take(i as int));
            assert(all.take(i + 1).last() == e@);
        }
        place_line(&mut sorted, e);
        i = i + 1;
    }
    assert(all.take(n as int) =~= all);
    sorted
}

// ---------------------------------------------------------------------------
// Laws of the order
// ---------------------------------------------------------------------------

/// The dictionary has one order: of two different texts exactly one comes first.
proof fn lemma_text_order(a: Seq<char>, b: Seq<char>)
    ensures
        !(text_less(a, b) && text_less(b, a)),
        a == b ==> !text_less(a, b),
    decreases a.len(),
{
    if a.len() > 0 && b.len() > 0 {
        lemma_text_order(a.drop_first(), b.drop_first());
    }
}

proof fn lemma_text_transitive(a: Seq<char>, b: Seq<char>, c: Seq<char>)
    requires
        !text_less(b, a),
        !text_less(c, b),
    ensures
        !text_less(c, a),
    decreases a.len(),
{
    if a.len() > 0 && b.len() > 0 && c.len() > 0 {
        if a[0] == b[0] && b[0] == c[0] {
            lemma_text_transitive(a.drop_first(), b.drop_first(), c.drop_first());
        }
    }
}

proof fn lemma_listed_transitive(a: DisplayView, b: DisplayView, c: DisplayView)
    requires
        !listed_before(b, a),
        !listed_before(c, b),
    ensures
        !listed_before(c, a),
{
    if a.is_dir == b.is_dir && b.is_dir == c.is_dir {
        lemma_text_transitive(lowercase_text(a.name), lowercase_text(b.name), lowercase_text(c.name));
    }
}

proof fn lemma_listed_total(a: DisplayView, b: DisplayView)
    ensures
        listed_before(a, b) ==> !listed_before(b, a),
{
    lemma_text_order(lowercase_text(a.name), lowercase_text(b.name));
}

/// No line is listed before one that stands above it.
pub open spec fn in_order(lines: Seq<DisplayView>) -> bool {
    forall|i: int, j: int|
        0 <= i < j < lines.len() ==> !listed_before(#[trigger] lines[j], #[trigger] lines[i])
}

proof fn lemma_insert_in_order(lines: Seq<DisplayView>, e: DisplayView)
    requires
        in_order(lines),
    ensures
        in_order(insert_line(lines, e)),
        insert_line(lines, e).to_multiset() =~= lines.to_multiset().insert(e),
        insert_line(lines, e).len() == lines.len() + 1,
        forall|x: DisplayView|
            (forall|k: int| 0 <= k < lines.len() ==> !listed_before(x, #[trigger] lines[k]))
                && !listed_before(x, e) ==> (forall|k: int|
                0 <= k < insert_line(lines, e).len() ==> !listed_before(
                    x,
                    #[trigger] insert_line(lines, e)[k],
                )),
    decreases lines.len(),
{
    broadcast use vstd::seq_lib::group_to_multiset_ensures;

    let r = insert_line(lines, e);
    if lines.len() == 0 || !listed_before(e, lines.last()) {
        assert forall|i: int, j: int| 0 <= i < j < r.len() implies !listed_before(
            #[trigger] r[j],
            #[trigger] r[i],
        ) by {
            if j == lines.len() && i < lines.len() - 1 {
                assert(!listed_before(lines[lines.len() - 1], lines[i]));
                lemma_listed_transitive(lines[i], lines.last(), e);
            }
        }
    } else {
        let head = lines.drop_last();
        let last = lines.last();
        lemma_insert_in_order(head, e);
        let part = insert_line(head, e);
        lemma_listed_total(e, last);
        assert forall|k: int| 0 <= k < head.len() implies !listed_before(last, #[trigger] head[k]) by {
            assert(!listed_before(lines[lines.len() - 1], lines[k]));
        }
        assert forall|i: int, j: int| 0 <= i < j < r.len() implies !listed_before(
            #[trigger] r[j],
            #[trigger] r[i],
        ) by {
            if j == part.len() {
                assert(!listed_before(last, part[i]));
            } else {
                assert(!listed_before(part[j], part[i]));
            }
        }
        assert(lines =~= head.push(last));
        assert forall|x: DisplayView|
            (forall|k: int| 0 <= k < lines.len() ==> !listed_before(x, #[trigger] lines[k]))
                && !listed_before(x, e) implies (forall|k: int|
            0 <= k < r.len() ==> !listed_before(x, #[trigger] r[k])) by {
            assert forall|k: int| 0 <= k < head.len() implies !listed_before(x, #[trigger] head[k]) by {
                assert(head[k] == lines[k]);
            }
            assert(!listed_before(x, lines[lines.len() - 1]));
            assert forall|k: int| 0 <= k < r.len() implies !listed_before(x, #[trigger] r[k]) by {
                if k < part.len() {
                    assert(r[k] == part[k]);
                }
            }
        }
    }
}

/// A listing that has been put in order has the same lines, in order: directories first, and
/// by name.
pub proof fn law_listing_is_sorted(lines: Seq<DisplayView>)
    ensures
        in_order(sorted_lines(lines)),
        sorted_lines(lines).to_multiset() =~= lines.to_multiset(),
    decreases lines.len(),
{
    broadcast use vstd::seq_lib::group_to_multiset_ensures;

    if lines.len() > 0 {
        law_listing_is_sorted(lines.drop_last());
        lemma_insert_in_order(sorted_lines(lines.drop_last()), lines.last());
        assert(lines =~= lines.drop_last().push(lines.last()));
    } else {
        assert(lines =~= seq![]);
    }
}

// ---------------------------------------------------------------------------
// Text
// ---------------------------------------------------------------------------

/// `n` spaces.
pub open spec fn spaces(n: int) -> Seq<char> {
    Seq::new(
        if n > 0 {
            n as nat
        } else {
            0
        },
        |i: int| ' ',
    )
}

/// A line as it is shown: an icon, the name, the size, the time and the attributes.
pub open spec fn line_text(e: DisplayView) -> Seq<char> {
    let icon = if e.is_dir { "\u{1F4C1}"@ } else { "\u{1F4C4}"@ };
    let size = if e.is_dir { "<DIR>"@ } else { bytes_text(e.size as nat) };
    " "@ + icon + " "@ + e.name + spaces(42 - e.name.len()) + " "@ + spaces(10 - size.len()) + size
        + "  "@ + e.modified + "  "@ + e.attributes
}

fn put(s: &mut String, words: &str)
    ensures
        final(s)@ == old(s)@ + words@,
{
    vstd::string::StringExecFns::append(s, words);
}

fn put_spaces(s: &mut String, n: usize)
    ensures
        final(s)@ == old(s)@ + spaces(n as int),
{
    let ghost start = s@;
    for i in 0..n
        invariant
            s@ == start + spaces(i as int),
    {
        s.push(' ');
        assert(s@ =~= start + spaces(i + 1));
    }
}

fn put_padding(s: &mut String, width: usize, len: usize)
    ensures
        final(s)@ == old(s)@ + spaces(width - len),
{
    if len < width {
        put_spaces(s, width - len);
    } else {
        assert(s@ =~= old(s)@ + spaces(width - len));
    }
}

/// A line as it is shown.
pub fn show_line(e: &DisplayEntry) -> (s: String)
    ensures
        s@ == line_text(e@),
{
    let mut s = String::new();
    put(&mut s, " ");
    put(&mut s, if e.is_dir { "\u{1F4C1}" } else { "\u{1F4C4}" });
    put(&mut s, " ");
    put(&mut s, e.name.as_str());
    put_padding(&mut s, 42, chars_of(e.name.as_str()).len());
    put(&mut s, " ");
    let size = if e.is_dir { "<DIR>".to_owned() } else { format_bytes(e.size) };
    put_padding(&mut s, 10, chars_of(size.as_str()).len());
    put(&mut s, size.as_str());
    put(&mut s, "  ");
    put(&mut s, e.modified.as_str());
    put(&mut s, "  ");
    put(&mut s, e.attributes.as_str());
    assert(s@ =~= line_text(e@));
    s
}

} // verus!
