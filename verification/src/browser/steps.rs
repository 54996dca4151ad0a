//! Laws of the browser's steps: what it shows, where keys lead, and what they do to a volume.

use vstd::prelude::*;
use crate::browser::app::{
    join_path, listing_lines, ActionView, AppView, FoundView, InputMode, Key,
};
use crate::browser::listing::{
    display_of, in_order, insert_line, law_listing_is_sorted, line_text, listed_before,
    sorted_lines, text_less, DisplayView,
};
use crate::disk::{Disk, Stamp};
use crate::mkimage::bytes_text;
use crate::notation::{law_fixed_decimal, law_path_steps, power, reading};
use crate::path::parts;
use crate::text::{decimal, lowercase_text, same_name};
use crate::types::{datetime_text, DirentView};

verus! {

// ---------------------------------------------------------------------------
// Lines
// ---------------------------------------------------------------------------

/// A moment as it is shown: four digits of the year, then two of the month, the day, the hour,
/// the minute and the second, with dashes, a space and colons between them.
pub proof fn law_shown_moment(date: u16, time: u16)
    ensures
        ({
            let t = datetime_text(date, time);
            &&& t.len() == 19
            &&& reading(t.subrange(0, 4), 10) == date / 512 + 1980
            &&& reading(t.subrange(5, 7), 10) == date / 32 % 16
            &&& reading(t.subrange(8, 10), 10) == date % 32
            &&& reading(t.subrange(11, 13), 10) == time / 2048
            &&& reading(t.subrange(14, 16), 10) == time / 32 % 64
            &&& reading(t.subrange(17, 19), 10) == time % 32 * 2
            &&& t[4] == '-' && t[7] == '-' && t[10] == ' ' && t[13] == ':' && t[16] == ':'
        }),
{
    let (y, mo, d) = crate::types::unpack_date(date);
    let (h, mi, s) = crate::types::unpack_time(time);
    let t = datetime_text(date, time);
    lemma_four(y as nat);
    lemma_two(mo as nat);
    lemma_two(d as nat);
    lemma_two(h as nat);
    lemma_two(mi as nat);
    lemma_two(s as nat);
    assert(t.subrange(0, 4) =~= crate::text::fixed_decimal(y as nat, 4));
    assert(t.subrange(5, 7) =~= crate::text::fixed_decimal(mo as nat, 2));
    assert(t.subrange(8, 10) =~= crate::text::fixed_decimal(d as nat, 2));
    assert(t.subrange(11, 13) =~= crate::text::fixed_decimal(h as nat, 2));
    assert(t.subrange(14, 16) =~= crate::text::fixed_decimal(mi as nat, 2));
    assert(t.subrange(17, 19) =~= crate::text::fixed_decimal(s as nat, 2));
}

proof fn lemma_two(n: nat)
    requires
        n < 100,
    ensures
        crate::text::fixed_decimal(n, 2).len() == 2,
        reading(crate::text::fixed_decimal(n, 2), 10) == n,
{
    law_fixed_decimal(n, 2);
    assert(power(10, 0) == 1);
    assert(power(10, 1) == 10);
    assert(power(10, 2) == 100);
    assert(n % 100 == n);
}

proof fn lemma_four(n: nat)
    requires
        n < 10000,
    ensures
        crate::text::fixed_decimal(n, 4).len() == 4,
        reading(crate::text::fixed_decimal(n, 4), 10) == n,
{
    law_fixed_decimal(n, 4);
    assert(power(10, 0) == 1);
    assert(power(10, 1) == 10);
    assert(power(10, 2) == 100);
    assert(power(10, 3) == 1000);
    assert(power(10, 4) == 10000);
    assert(n % 10000 == n);
}

/// The line of an entry: its name, size, first cluster and time of the last write as they are,
/// and a letter for each of four attributes that it has, or else a dash.
pub proof fn law_line_of_entry(e: DirentView)
    ensures
        ({
            let l = display_of(e);
            let bits = e.attributes.bits;
            &&& l.name == e.filename()
            &&& l.size == e.file_size
            &&& l.first_cluster == e.first_cluster
            &&& l.modified == datetime_text(e.write_date, e.write_time)
            &&& l.is_dir <==> bits / 16 % 2 == 1
            &&& l.attributes.len() == 4
            &&& l.attributes[0] == if bits / 16 % 2 == 1 { 'd' } else { '-' }
            &&& l.attributes[1] == if bits % 2 == 1 { 'r' } else { '-' }
            &&& l.attributes[2] == if bits / 2 % 2 == 1 { 'h' } else { '-' }
            &&& l.attributes[3] == if bits / 4 % 2 == 1 { 's' } else { '-' }
        }),
{
    let b = e.attributes.bits;
    assert((b & 0x10 == 0x10 <==> b / 16 % 2 == 1) && (b & 1 == 1 <==> b % 2 == 1) && (b & 2 == 2
        <==> b / 2 % 2 == 1) && (b & 4 == 4 <==> b / 4 % 2 == 1)) by (bit_vector);
}

/// What is shown in a line: the name from the fourth column on, the size so that it ends in the
/// fifty-sixth, then the time and the attributes. Names and sizes that do not fit are left out
/// here.
pub proof fn law_shown_line(e: DisplayView)
    requires
        e.name.len() <= 42,
        e.is_dir || bytes_text(e.size as nat).len() <= 10,
    ensures
        ({
            let t = line_text(e);
            let size = if e.is_dir { "<DIR>"@ } else { bytes_text(e.size as nat) };
            let m = e.modified.len();
            &&& t.len() == 60 + m + e.attributes.len()
            &&& t.subrange(0, 3) == " "@ + (if e.is_dir { "\u{1F4C1}"@ } else { "\u{1F4C4}"@ })
                + " "@
            &&& t.subrange(3, 3 + e.name.len() as int) == e.name
            &&& t.subrange(56 - size.len(), 56) == size
            &&& t.subrange(58, 58 + m as int) == e.modified
            &&& t.skip(60 + m as int) == e.attributes
            &&& forall|i: int| 3 + e.name.len() <= i < 56 - size.len() ==> #[trigger] t[i] == ' '
        }),
{
    reveal_strlit(" ");
    reveal_strlit("  ");
    reveal_strlit("<DIR>");
    reveal_strlit("\u{1F4C1}");
    reveal_strlit("\u{1F4C4}");
    let t = line_text(e);
    let size = if e.is_dir { "<DIR>"@ } else { bytes_text(e.size as nat) };
    let m = e.modified.len();
    assert(t.len() == 60 + m + e.attributes.len());
    assert(t.subrange(0, 3) =~= " "@ + (if e.is_dir { "\u{1F4C1}"@ } else { "\u{1F4C4}"@ })
        + " "@);
    assert(t.subrange(3, 3 + e.name.len() as int) =~= e.name);
    assert(t.subrange(56 - size.len(), 56) =~= size);
    assert(t.subrange(58, 58 + m as int) =~= e.modified);
    assert(t.skip(60 + m as int) =~= e.attributes);
}

// ---------------------------------------------------------------------------
// Order
// ---------------------------------------------------------------------------

/// A text comes before another in the dictionary if it is a shorter beginning of it, or has the
/// smaller character at the first place where they differ.
pub proof fn law_dictionary(a: Seq<char>, b: Seq<char>, k: int)
    requires
        0 <= k <= a.len(),
        k <= b.len(),
        forall|i: int| 0 <= i < k ==> a[i] == #[trigger] b[i],
    ensures
        k == b.len() ==> !text_less(a, b),
        k == a.len() && k < b.len() ==> text_less(a, b),
        k < a.len() && k < b.len() && (a[k] as int) < b[k] as int ==> text_less(a, b),
        k < a.len() && k < b.len() && a[k] as int > b[k] as int ==> !text_less(a, b),
    decreases k,
{
    if k > 0 {
        assert(a[0] == b[0]);
        let (x, y) = (a.drop_first(), b.drop_first());
        assert forall|i: int| 0 <= i < k - 1 implies x[i] == #[trigger] y[i] by {
            assert(a[i + 1] == b[i + 1]);
        }
        law_dictionary(x, y, k - 1);
        if k < a.len() {
            assert(x[k - 1] == a[k]);
        }
        if k < b.len() {
            assert(y[k - 1] == b[k]);
        }
    }
}

/// Directories come before files, and names in either kind go by the dictionary in lower case.
pub proof fn law_order_of_lines(a: DisplayView, b: DisplayView)
    ensures
        a.is_dir && !b.is_dir ==> listed_before(a, b) && !listed_before(b, a),
        a.is_dir == b.is_dir ==> listed_before(a, b) == text_less(
            lowercase_text(a.name),
            lowercase_text(b.name),
        ),
{
}

/// A line goes into a listing in front of the lines that it is listed before, and behind all
/// others: those of the same rank stay in the order they came in. Where it goes is given.
pub proof fn law_place_of_line(lines: Seq<DisplayView>, e: DisplayView) -> (k: int)
    ensures
        0 <= k <= lines.len(),
        insert_line(lines, e) == lines.insert(k, e),
        forall|i: int| k <= i < lines.len() ==> listed_before(e, #[trigger] lines[i]),
        k > 0 ==> !listed_before(e, lines[k - 1]),
    decreases lines.len(),
{
    if lines.len() == 0 || !listed_before(e, lines.last()) {
        assert(lines.push(e) =~= lines.insert(lines.len() as int, e));
        lines.len() as int
    } else {
        let head = lines.drop_last();
        let k = law_place_of_line(head, e);
        assert(head.insert(k, e).push(lines.last()) =~= lines.insert(k, e));
        assert forall|i: int| k <= i < lines.len() implies listed_before(e, #[trigger] lines[i]) by {
            if i < head.len() {
                assert(head[i] == lines[i]);
            }
        }
        k
    }
}

/// A listing is put in order line by line.
pub proof fn law_sorting_steps(lines: Seq<DisplayView>, e: DisplayView)
    ensures
        sorted_lines(seq![]) == Seq::<DisplayView>::empty(),
        sorted_lines(lines.push(e)) == insert_line(sorted_lines(lines), e),
{
    assert(lines.push(e).drop_last() =~= lines);
}

/// Listing a directory shows all its entries, in order, and nothing else. The browser stays in
/// the directory.
pub proof fn law_listing_shows_all(a: AppView, d: Disk)
    requires
        d.resolve(a.cwd) is Ok,
        d.entries(d.resolve(a.cwd)->Ok_0.first_cluster) is Ok,
    ensures
        ({
            let entries = d.entries(d.resolve(a.cwd)->Ok_0.first_cluster)->Ok_0;
            let r = a.refreshed(d);
            &&& r.entries.to_multiset() == entries.map_values(
                |e: DirentView| display_of(e),
            ).to_multiset()
            &&& in_order(r.entries)
            &&& r.entries.len() == entries.len()
            &&& r.cwd == a.cwd
            &&& !r.status_is_error
            &&& r.input_mode == a.input_mode
            &&& r.download_dir == a.download_dir
            &&& r.should_quit == a.should_quit
            &&& entries.len() > 0 ==> r.status.take(decimal(entries.len()).len() as int)
                == decimal(entries.len())
        }),
{
    broadcast use vstd::seq_lib::group_to_multiset_ensures;

    let entries = d.entries(d.resolve(a.cwd)->Ok_0.first_cluster)->Ok_0;
    let lines = entries.map_values(|e: DirentView| display_of(e));
    law_listing_is_sorted(lines);
    assert(listing_lines(entries) == sorted_lines(lines));
    assert(sorted_lines(lines).len() == lines.len()) by {
        assert(sorted_lines(lines).to_multiset().len() == lines.to_multiset().len());
    }
    let digits = decimal(entries.len());
    if entries.len() > 0 {
        let words = a.refreshed(d).status;
        assert(words.take(digits.len() as int) =~= digits);
    }
}

/// A directory that cannot be listed is an error.
pub proof fn law_listing_fails(a: AppView, d: Disk)
    requires
        d.resolve(a.cwd) is Err || d.entries(d.resolve(a.cwd)->Ok_0.first_cluster) is Err,
    ensures
        a.refreshed(d).status_is_error,
        a.refreshed(d).cwd == a.cwd,
        d.resolve(a.cwd) is Err ==> a.refreshed(d).entries == a.entries,
        d.resolve(a.cwd) is Ok ==> a.refreshed(d).entries.len() == 0,
{
}

// ---------------------------------------------------------------------------
// Moving
// ---------------------------------------------------------------------------

/// Where keys move the selection: one line up or down, twenty lines with the page keys, to the
/// first or the last line; never beyond these. The letters j and k move it as well. Nothing else
/// changes.
pub proof fn law_moving(a: AppView, d: Disk, i: usize)
    requires
        a.selected == Some(i),
        i < a.entries.len() <= usize::MAX,
    ensures
        ({
            let n = a.entries.len();
            let up = if i == 0 { 0 } else { i - 1 };
            let down = if i + 1 == n { i as int } else { i + 1 };
            let far_up = if i < 20 { 0 } else { i - 20 };
            let far_down = if i + 20 >= n { n - 1 } else { i + 20 };
            &&& a.normal_key(d, Key::Up) == AppView { selected: Some(up as usize), ..a }
            &&& a.normal_key(d, Key::Char('k')) == a.normal_key(d, Key::Up)
            &&& a.normal_key(d, Key::Down) == AppView { selected: Some(down as usize), ..a }
            &&& a.normal_key(d, Key::Char('j')) == a.normal_key(d, Key::Down)
            &&& a.normal_key(d, Key::PageUp) == AppView { selected: Some(far_up as usize), ..a }
            &&& a.normal_key(d, Key::PageDown) == AppView {
                selected: Some(far_down as usize),
                ..a
            }
            &&& a.normal_key(d, Key::Home) == AppView { selected: Some(0usize), ..a }
            &&& a.normal_key(d, Key::End) == AppView { selected: Some((n - 1) as usize), ..a }
            &&& a.selected_entry() == Some(a.entries[i as int])
        }),
{
}

/// Keys that leave the browser, and keys that do nothing.
pub proof fn law_leaving(a: AppView, d: Disk, c: char)
    ensures
        a.normal_key(d, Key::Esc) == (AppView { should_quit: true, ..a }),
        a.normal_key(d, Key::Char('q')) == (AppView { should_quit: true, ..a }),
        a.normal_key(d, Key::Other) == a,
        a.normal_key(d, Key::Char(c)).should_quit ==> a.should_quit || c == 'q',
        c != 'q' && c != 'k' && c != 'j' && c != 'd' && c != 'u' && c != 'n' && c != 'm' && c != 'D'
            && c != 'r' && c != 'i' ==> a.normal_key(d, Key::Char(c)) == a,
{
}

/// The path of something in the directory that is shown is one step longer than the directory's.
pub proof fn law_full_path(a: AppView, name: Seq<char>)
    requires
        name.len() > 0,
        forall|i: int| 0 <= i < name.len() ==> #[trigger] name[i] != '/',
    ensures
        parts(a.full_path(name)) == parts(a.cwd).push(name),
{
    reveal_strlit("/");
    law_path_steps(a.cwd, name);
    law_path_steps(seq![], name);
    if a.cwd == "/"@ {
        assert(a.full_path(name) =~= Seq::<char>::empty().push('/') + name);
        assert(a.cwd =~= Seq::<char>::empty().push('/'));
    } else {
        assert(a.full_path(name) =~= a.cwd.push('/') + name);
    }
}

/// Entering a directory shows what is in it; a file is only told of. The right arrow enters
/// directories too, and leaves files alone.
pub proof fn law_entering(a: AppView, d: Disk, e: DisplayView)
    requires
        a.selected_entry() == Some(e),
    ensures
        ({
            let inside = (AppView { cwd: a.full_path(e.name), ..a }).refreshed(d);
            &&& e.is_dir ==> a.normal_key(d, Key::Enter) == inside
            &&& e.is_dir ==> a.normal_key(d, Key::Right) == inside
            &&& !e.is_dir ==> a.normal_key(d, Key::Right) == a
            &&& !e.is_dir ==> {
                let r = a.normal_key(d, Key::Enter);
                r == (AppView { status: r.status, status_is_error: false, ..a })
            }
        }),
{
}

/// The keys that lead up do so, and stay at the root.
pub proof fn law_leading_up(a: AppView, d: Disk)
    ensures
        a.normal_key(d, Key::Left) == a.normal_key(d, Key::Backspace),
        a.normal_key(d, Key::Left) == a.go_up(d),
        a.cwd == seq!['/'] ==> a.go_up(d) == a,
{
    reveal_strlit("/");
    assert("/"@ =~= seq!['/']);
}

/// A local path: a name that starts with a slash stands alone; else it goes behind the
/// directory, with one slash between them.
pub proof fn law_local_path(dir: Seq<char>, name: Seq<char>)
    ensures
        join_path(dir, seq!['/'] + name) == seq!['/'] + name,
        name.len() == 0 || name[0] != '/' ==> {
            &&& join_path(seq![], name) == name
            &&& join_path(dir.push('/'), name) == dir.push('/') + name
            &&& dir.len() > 0 && dir.last() != '/' ==> join_path(dir, name) == dir.push('/') + name
        },
{
    assert(Seq::<char>::empty() + name =~= name);
}

// ---------------------------------------------------------------------------
// Asking
// ---------------------------------------------------------------------------

/// What letters ask for, and what is filled in beforehand.
pub proof fn law_asking(a: AppView, d: Disk, e: DisplayView)
    requires
        a.selected_entry() == Some(e),
    ensures
        ({
            let download = a.normal_key(d, Key::Char('d'));
            let rename = a.normal_key(d, Key::Char('r'));
            let delete = a.normal_key(d, Key::Char('D'));
            &&& e.is_dir ==> download.status_is_error && download.input_mode == a.input_mode
            &&& !e.is_dir ==> download.input_mode == InputMode::DownloadPath
                && download.input_buffer == join_path(a.download_dir, e.name)
            &&& rename.input_mode == InputMode::RenameName && rename.input_buffer == e.name
            &&& delete.input_mode == InputMode::ConfirmDelete && delete.input_buffer.len() == 0
        }),
        ({
            let upload = a.normal_key(d, Key::Char('u'));
            let make = a.normal_key(d, Key::Char('n'));
            &&& upload.input_mode == InputMode::UploadPath && upload.input_buffer == a.download_dir
            &&& make.input_mode == InputMode::MkdirName && make.input_buffer.len() == 0
            &&& a.normal_key(d, Key::Char('m')) == make
        }),
{
}

/// Typing puts a character behind what was typed. The volume stays as it is.
#[verifier::spinoff_prover]
pub proof fn law_typing(a: AppView, d: Disk, c: char, now: Stamp)
    requires
        a.input_mode != InputMode::ConfirmDelete,
    ensures
        a.input_key(d, Key::Char(c), now) == (
            AppView { input_buffer: a.input_buffer.push(c), ..a },
            d,
            ActionView::Nothing,
        ),
{
}

/// Where a yes is asked for, only the last character counts.
#[verifier::spinoff_prover]
pub proof fn law_typing_an_answer(a: AppView, d: Disk, c: char, now: Stamp)
    requires
        a.input_mode == InputMode::ConfirmDelete,
    ensures
        a.input_key(d, Key::Char(c), now) == (
            AppView { input_buffer: seq![c], ..a },
            d,
            ActionView::Nothing,
        ),
{
}

/// What was typed last can be taken away.
#[verifier::spinoff_prover]
pub proof fn law_untyping(a: AppView, d: Disk, now: Stamp)
    ensures
        ({
            let (r, d2, act) = a.input_key(d, Key::Backspace, now);
            &&& d2 == d
            &&& act == ActionView::Nothing
            &&& a.input_buffer.len() == 0 ==> r == a
            &&& a.input_buffer.len() > 0 ==> r.input_buffer.push(a.input_buffer.last())
                == a.input_buffer
            &&& r == (AppView { input_buffer: r.input_buffer, ..a })
        }),
{
    if a.input_buffer.len() > 0 {
        assert(a.input_buffer.drop_last().push(a.input_buffer.last()) =~= a.input_buffer);
    }
}

/// What was asked for can be given up, and nothing has happened.
#[verifier::spinoff_prover]
pub proof fn law_giving_up(a: AppView, d: Disk, now: Stamp)
    ensures
        ({
            let (r, d2, act) = a.input_key(d, Key::Esc, now);
            &&& d2 == d
            &&& act == ActionView::Nothing
            &&& r.input_mode == InputMode::Normal
            &&& !r.status_is_error
            &&& r.entries == a.entries && r.selected == a.selected && r.cwd == a.cwd
        }),
{
}

/// What is done with a name for a new directory: it is made on the volume, in the directory that
/// is shown, under that name.
#[verifier::spinoff_prover]
pub proof fn law_making(a: AppView, d: Disk, now: Stamp)
    requires
        a.input_mode == InputMode::MkdirName,
    ensures
        ({
            let (r, d2, act) = a.input_key(d, Key::Enter, now);
            let made = d.create_directory(a.full_path(a.input_buffer), now);
            &&& act == ActionView::Nothing
            &&& r.input_mode == InputMode::Normal
            &&& a.input_buffer.len() == 0 ==> d2 == d && r.status_is_error
            &&& a.input_buffer.len() > 0 ==> d2 == made.0
            &&& a.input_buffer.len() > 0 && made.1 is Err ==> r.status_is_error && r.entries
                == a.entries
            &&& a.input_buffer.len() > 0 && made.1 is Ok ==> r.entries == a.refreshed(d2).entries
        }),
{
}

/// What is done with a new name for the selected line: it is given to it on the volume.
#[verifier::spinoff_prover]
pub proof fn law_renaming(a: AppView, d: Disk, e: DisplayView, now: Stamp)
    requires
        a.input_mode == InputMode::RenameName,
        a.selected_entry() == Some(e),
    ensures
        ({
            let (r, d2, act) = a.input_key(d, Key::Enter, now);
            let done = d.rename(a.full_path(e.name), a.input_buffer);
            &&& act == ActionView::Nothing
            &&& r.input_mode == InputMode::Normal
            &&& a.input_buffer.len() == 0 ==> d2 == d && r.status_is_error
            &&& a.input_buffer.len() > 0 ==> d2 == done.0
            &&& a.input_buffer.len() > 0 && done.1 is Err ==> r.status_is_error && r.entries
                == a.entries
            &&& a.input_buffer.len() > 0 && done.1 is Ok ==> r.entries == a.refreshed(d2).entries
        }),
{
}

/// What deletes the selected line: a yes, in full or by its first letter, in either case.
pub open spec fn says_yes(words: Seq<char>) -> bool {
    same_name(words, "y"@) || same_name(words, "yes"@)
}

/// The answer yes deletes the selected line.
#[verifier::spinoff_prover]
pub proof fn law_deleting(a: AppView, d: Disk, e: DisplayView, now: Stamp)
    requires
        a.input_mode == InputMode::ConfirmDelete,
        a.selected_entry() == Some(e),
        says_yes(a.input_buffer),
    ensures
        ({
            let (r, d2, act) = a.input_key(d, Key::Enter, now);
            let done = d.delete(a.full_path(e.name));
            &&& act == ActionView::Nothing
            &&& r.input_mode == InputMode::Normal
            &&& d2 == done.0
            &&& done.1 is Err ==> r.status_is_error && r.entries == a.entries
            &&& done.1 is Ok ==> r.entries == a.refreshed(d2).entries
        }),
{
    lemma_deleted(a, d, e);
    let (b, d2) = a.deleted(d);
    assert(a.submitted(d, now) == (b, d2, ActionView::Nothing));
    assert(a.input_key(d, Key::Enter, now) == (
        AppView { input_mode: InputMode::Normal, ..b },
        d2,
        ActionView::Nothing,
    ));
}

proof fn lemma_deleted(a: AppView, d: Disk, e: DisplayView)
    requires
        a.selected_entry() == Some(e),
    ensures
        ({
            let (r, d2) = a.deleted(d);
            let done = d.delete(a.full_path(e.name));
            &&& d2 == done.0
            &&& done.1 is Err ==> r.status_is_error && r.entries == a.entries
            &&& done.1 is Ok ==> r.entries == a.refreshed(d2).entries
        }),
{
}

/// Any other answer leaves the volume as it is.
#[verifier::spinoff_prover]
#[verifier::rlimit(60)]
pub proof fn law_not_deleting(a: AppView, d: Disk, now: Stamp)
    requires
        a.input_mode == InputMode::ConfirmDelete,
        !same_name(a.input_buffer, "y"@),
        !same_name(a.input_buffer, "yes"@),
    ensures
        a.input_key(d, Key::Enter, now) == (
            AppView {
                input_mode: InputMode::Normal,
                status: "Delete cancelled."@,
                status_is_error: false,
                ..a
            },
            d,
            ActionView::Nothing,
        ),
{
}

/// What is done with a local path: a file is read from the volume and handed over whole, or is
/// to be read from the local disk. The volume stays as it is.
#[verifier::spinoff_prover]
pub proof fn law_transferring(a: AppView, d: Disk, e: DisplayView, now: Stamp)
    requires
        a.selected_entry() == Some(e),
    ensures
        ({
            let (r, d2, act) = a.input_key(d, Key::Enter, now);
            let data = d.read_path(a.full_path(e.name));
            &&& a.input_mode == InputMode::DownloadPath ==> {
                &&& d2 == d
                &&& r.input_mode == InputMode::Normal
                &&& data is Ok ==> act == ActionView::SaveFile {
                    name: e.name,
                    local_path: a.input_buffer,
                    data: data->Ok_0,
                }
                &&& data is Err ==> act == ActionView::Nothing && r.status_is_error
            }
            &&& a.input_mode == InputMode::UploadPath ==> {
                &&& d2 == d
                &&& r.input_mode == InputMode::Normal
                &&& act == ActionView::LoadFile { local_path: a.input_buffer }
            }
        }),
{
}

/// A file from the local disk is put on the volume whole, in the directory that is shown, under
/// its name.
#[verifier::spinoff_prover]
pub proof fn law_uploading(
    a: AppView,
    d: Disk,
    filename: Seq<char>,
    parent: Seq<char>,
    data: Seq<u8>,
    now: Stamp,
)
    ensures
        ({
            let (r, d2) = a.loaded(d, FoundView::File { filename, parent, data }, now);
            let made = d.create_file(a.full_path(filename), data, now);
            &&& d2 == made.0
            &&& made.1 is Err ==> r.status_is_error && r.entries == a.entries && r.download_dir
                == a.download_dir
            &&& made.1 is Ok ==> r == (AppView { download_dir: parent, ..a }).refreshed(d2)
        }),
{
}

/// What could not be found or read leaves the volume as it is.
#[verifier::spinoff_prover]
pub proof fn law_not_uploading(a: AppView, d: Disk, found: FoundView, now: Stamp)
    requires
        !(found is File),
    ensures
        ({
            let (r, d2) = a.loaded(d, found, now);
            &&& d2 == d
            &&& r == (AppView { status: r.status, status_is_error: true, ..a })
        }),
{
}

/// Where the next download goes by default: to where the last one went, if it succeeded.
pub proof fn law_download_place(
    a: AppView,
    name: Seq<char>,
    shown: Seq<char>,
    parent: Seq<char>,
    len: nat,
    words: Seq<char>,
)
    ensures
        a.saved(name, shown, parent, len, None).download_dir == parent,
        !a.saved(name, shown, parent, len, None).status_is_error,
        a.saved(name, shown, parent, len, Some(words)).download_dir == a.download_dir,
        a.saved(name, shown, parent, len, Some(words)).status_is_error,
{
}

/// What is told of a volume: the bytes in the clusters that are in use and in those that are
/// free, and how many of all clusters are in use.
pub proof fn law_told_of_volume(a: AppView, d: Disk)
    requires
        d.tally_from(1) is Ok,
    ensures
        ({
            let t = d.tally_from(1)->Ok_0;
            let cs = 512 * d.geo.sectors_per_cluster;
            let r = a.normal_key(d, Key::Char('i'));
            &&& r == (AppView { status: r.status, status_is_error: false, ..a })
            &&& r.status == "Volume: "@ + a.partition_name + " | Used: "@ + bytes_text(
                (t.used * cs) as nat,
            ) + " | Free: "@ + bytes_text((t.free * cs) as nat) + " | Clusters: "@ + decimal(t.used)
                + "/"@ + decimal(d.geo.total_clusters as nat)
        }),
{
}

} // verus!
