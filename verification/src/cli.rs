//! What the programs around the library decide from their arguments and from the text that
//! other programs give them.

use vstd::prelude::*;
use crate::mkimage::{bytes_text, format_bytes, MIN_SIZE};
use crate::text::{
    chars_of, decimal, lowercase_text, push_decimal, same_name, same_text, string_of, to_lowercase,
};
use crate::types::XboxPartition;

verus! {

// ---------------------------------------------------------------------------
// Images
// ---------------------------------------------------------------------------

/// Whether a name of a format stands for that of the Xbox 360; the case does not matter.
pub open spec fn format_of(name: Seq<char>) -> Option<bool> {
    let l = lowercase_text(name);
    if l == "fatx"@ || l == "xbox"@ {
        Some(false)
    } else if l == "xtaf"@ || l == "360"@ || l == "xbox360"@ {
        Some(true)
    } else {
        None
    }
}

/// The number of sectors in a cluster is one that images can have.
pub open spec fn is_cluster_choice(spc: u32) -> bool {
    spc == 1 || spc == 2 || spc == 4 || spc == 8 || spc == 16 || spc == 32 || spc == 64 || spc
        == 128
}

/// Why an image cannot be made, or else whether it is one for the Xbox 360.
pub open spec fn image_choice(
    size: u64,
    format: Seq<char>,
    spc: u32,
    output: Seq<char>,
    in_the_way: bool,
) -> Result<bool, Seq<char>> {
    if size < MIN_SIZE {
        Err(
            "Image size "@ + bytes_text(size as nat) + " is too small (minimum "@ + bytes_text(
                MIN_SIZE as nat,
            ) + ")"@,
        )
    } else if format_of(format) is None {
        Err(
            "Unknown format '"@ + lowercase_text(format) + "'. Use 'fatx' or 'xtaf'."@,
        )
    } else if !is_cluster_choice(spc) {
        Err(
            "Sectors per cluster must be a power of 2 between 1 and 128, got "@ + decimal(
                spc as nat,
            ),
        )
    } else if in_the_way {
        Err(
            "Output file '"@ + output + "' already exists. Use --force to overwrite."@,
        )
    } else {
        Ok(format_of(format)->0)
    }
}

fn add(s: &mut String, words: &str)
    ensures
        final(s)@ == old(s)@ + words@,
{
    vstd::string::StringExecFns::append(s, words);
}

/// Checks what is asked of a new image. `in_the_way` says that there is a file of that name
/// which must not be overwritten.
pub fn check_image(size: u64, format: &str, spc: u32, output: &str, in_the_way: bool) -> (r: Result<
    bool,
    String,
>)
    ensures
        match (r, image_choice(size, format@, spc, output@, in_the_way)) {
            (Ok(a), Ok(b)) => a == b,
            (Err(words), Err(x)) => words@ == x,
            _ => false,
        },
{
    if size < MIN_SIZE {
        let mut s = "Image size ".to_owned();
        self::add(&mut s, format_bytes(size).as_str());
        self::add(&mut s, " is too small (minimum ");
        self::add(&mut s, format_bytes(MIN_SIZE).as_str());
        self::add(&mut s, ")");
        return Err(s);
    }
    let kind = to_lowercase(format);
    let k = kind.as_str();
    let is_xtaf: bool = if same_text(k, "fatx") || same_text(k, "xbox") {
        false
    } else if same_text(k, "xtaf") || same_text(k, "360") || same_text(k, "xbox360") {
        true
    } else {
        let mut s = "Unknown format '".to_owned();
        self::add(&mut s, k);
        self::add(&mut s, "'. Use 'fatx' or 'xtaf'.");
        return Err(s);
    };
    let n = spc;
    if !(n == 1 || n == 2 || n == 4 || n == 8 || n == 16 || n == 32 || n == 64 || n == 128) {
        let mut s = "Sectors per cluster must be a power of 2 between 1 and 128, got ".to_owned();
        push_decimal(&mut s, spc as u64);
        return Err(s);
    }
    if in_the_way {
        let mut s = "Output file '".to_owned();
        self::add(&mut s, output);
        self::add(&mut s, "' already exists. Use --force to overwrite.");
        return Err(s);
    }
    Ok(is_xtaf)
}

// ---------------------------------------------------------------------------
// Mounting
// ---------------------------------------------------------------------------

/// How much is logged.
pub fn log_level(trace: bool, verbose: bool) -> (level: &'static str)
    ensures
        level@ == (if trace {
            "debug"@
        } else if verbose {
            "info"@
        } else {
            "warn"@
        }),
{
    if trace {
        "debug"
    } else if verbose {
        "info"
    } else {
        "warn"
    }
}

/// The number of the first partition of that name; the case of ASCII letters does not matter.
pub open spec fn partition_index(list: Seq<XboxPartition>, name: Seq<char>, i: int) -> Option<int>
    decreases list.len() - i,
{
    if i < 0 || i >= list.len() {
        None
    } else if same_name(list[i].name@, name) {
        Some(i)
    } else {
        partition_index(list, name, i + 1)
    }
}

/// The first partition of that name.
pub fn find_partition(list: &Vec<XboxPartition>, name: &str) -> (p: Option<XboxPartition>)
    ensures
        p == (match partition_index(list@, name@, 0) {
            Some(i) => Some(list@[i]),
            None => None,
        }),
{
    let mut i: usize = 0;
    while i < list.len()
        invariant
            i <= list.len(),
            partition_index(list@, name@, i as int) == partition_index(list@, name@, 0),
        decreases list.len() - i,
    {
        if list[i].name.eq_ignore_ascii_case(name) {
            return Some(list[i]);
        }
        i = i + 1;
    }
    None
}

/// The options that a volume is mounted with, served at `port`.
pub open spec fn mount_options_text(port: u16) -> Seq<char> {
    "nolocks,noresvport,vers=3,tcp,rsize=131072,wsize=131072,actimeo=2,intr,soft,retrans=2,timeo=10,port="@
        + decimal(port as nat) + ",mountport="@ + decimal(port as nat)
}

/// The options that a volume is mounted with, served at `port`.
pub fn mount_options(port: u16) -> (s: String)
    ensures
        s@ == mount_options_text(port),
{
    let mut s = "nolocks,noresvport,vers=3,tcp,rsize=131072,wsize=131072,actimeo=2,intr,soft,retrans=2,timeo=10,port=".to_owned();
    push_decimal(&mut s, port as u64);
    self::add(&mut s, ",mountport=");
    push_decimal(&mut s, port as u64);
    s
}

// ---------------------------------------------------------------------------
// The table of mounts
// ---------------------------------------------------------------------------

/// `pat` stands at place `i` of `s`.
pub open spec fn stands_at(s: Seq<char>, pat: Seq<char>, i: int) -> bool {
    0 <= i && i + pat.len() <= s.len() && s.subrange(i, i + pat.len()) == pat
}

/// The first place from `i` on where `pat` stands in `s`.
pub open spec fn find_from(s: Seq<char>, pat: Seq<char>, i: int) -> Option<int>
    decreases s.len() - i,
{
    if i < 0 || i + pat.len() > s.len() {
        None
    } else if stands_at(s, pat, i) {
        Some(i)
    } else if i < s.len() {
        find_from(s, pat, i + 1)
    } else {
        None
    }
}

/// `s` up to the first `c`, or all of it.
pub open spec fn up_to(s: Seq<char>, c: char) -> Seq<char>
    decreases s.len(),
{
    if s.len() == 0 || s[0] == c {
        seq![]
    } else {
        seq![s[0]] + up_to(s.skip(1), c)
    }
}

/// The lines of a text: a line feed ends a line, with a carriage return before it or not.
pub open spec fn lines_of(s: Seq<char>) -> Seq<Seq<char>>
    decreases s.len(),
{
    if s.len() == 0 {
        seq![]
    } else {
        let line = up_to(s, '\n');
        if line.len() >= s.len() {
            seq![s]
        } else {
            let kept = if line.len() > 0 && line.last() == '\r' {
                line.drop_last()
            } else {
                line
            };
            seq![kept] + lines_of(s.skip(line.len() as int + 1))
        }
    }
}

/// `s` up to the last " (" that starts before `n`, or all of it.
pub open spec fn before_options(s: Seq<char>, n: int) -> Seq<char>
    decreases n,
{
    if n <= 0 {
        s
    } else if stands_at(s, " ("@, n - 1) {
        s.take(n - 1)
    } else {
        before_options(s, n - 1)
    }
}

/// `s` without the kind of file system that some systems name at its end, behind " type ".
pub open spec fn without_type(s: Seq<char>) -> Seq<char> {
    let kind = last_word(s);
    let cut = s.len() - kind.len() - 6;
    if kind.len() > 0 && stands_at(s, " type "@, cut) {
        s.take(cut)
    } else {
        s
    }
}

/// What stands behind the last space of `s`, or all of it.
pub open spec fn last_word(s: Seq<char>) -> Seq<char>
    decreases s.len(),
{
    if s.len() == 0 || s.last() == ' ' {
        seq![]
    } else {
        last_word(s.drop_last()).push(s.last())
    }
}

/// Where a line of the table of mounts says that something served by this machine is
/// mounted: behind the first " on ", up to the options in brackets at the end, and to the
/// kind of file system before them, if there is one. Spaces belong to the place.
pub open spec fn local_mount(line: Seq<char>) -> Option<Seq<char>> {
    if find_from(line, "localhost"@, 0) is None && find_from(line, "127.0.0.1"@, 0) is None {
        None
    } else {
        match find_from(line, " on "@, 0) {
            None => None,
            Some(i) => {
                let rest = line.skip(i + 4);
                let place = without_type(before_options(rest, rest.len() as int));
                if place.len() > 0 {
                    Some(place)
                } else {
                    None
                }
            },
        }
    }
}

/// Where something served by this machine is mounted, according to the first `n` lines of
/// the table of mounts.
pub open spec fn local_mounts(lines: Seq<Seq<char>>, n: nat) -> Seq<Seq<char>>
    decreases n,
{
    if n == 0 {
        seq![]
    } else {
        let before = local_mounts(lines, (n - 1) as nat);
        match local_mount(lines[n - 1]) {
            Some(place) => before.push(place),
            None => before,
        }
    }
}

fn find_text(s: &Vec<char>, pat: &str) -> (r: Option<usize>)
    ensures
        match (r, find_from(s@, pat@, 0)) {
            (Some(a), Some(b)) => a == b && a + pat@.len() <= s@.len(),
            (None, None) => true,
            _ => false,
        },
{
    let p = chars_of(pat);
    let mut i: usize = 0;
    while i <= s.len() && p.len() <= s.len() - i
        invariant
            p@ == pat@,
            i <= s.len() + 1,
            i <= s.len() ==> find_from(s@, pat@, i as int) == find_from(s@, pat@, 0),
            i > s.len() ==> find_from(s@, pat@, 0) is None,
        decreases s.len() + 1 - i,
    {
        let mut k: usize = 0;
        while k < p.len() && s[i + k] == p[k]
            invariant
                k <= p.len(),
                i + p.len() <= s.len(),
                forall|j: int| 0 <= j < k ==> s@[i + j] == p@[j],
            decreases p.len() - k,
        {
            k = k + 1;
        }
        if k == p.len() {
            assert(s@.subrange(i as int, i + p@.len()) =~= p@);
            return Some(i);
        }
        proof {
            assert(s@.subrange(i as int, i + p@.len())[k as int] == s@[i + k]);
            assert(!stands_at(s@, pat@, i as int));
        }
        i = i + 1;
    }
    None
}

proof fn lemma_up_to(s: Seq<char>, c: char)
    ensures
        up_to(s, c).len() <= s.len(),
        up_to(s, c) == s.take(up_to(s, c).len() as int),
        forall|i: int| 0 <= i < up_to(s, c).len() ==> s[i] != c,
        up_to(s, c).len() < s.len() ==> s[up_to(s, c).len() as int] == c,
    decreases s.len(),
{
    if s.len() > 0 && s[0] != c {
        let rest = s.skip(1);
        lemma_up_to(rest, c);
        let u = up_to(s, c);
        let v = up_to(rest, c);
        assert(u =~= s.take(u.len() as int)) by {
            assert forall|i: int| 0 <= i < u.len() implies u[i] == s[i] by {
                if i > 0 {
                    assert(u[i] == v[i - 1]);
                    assert(v[i - 1] == rest.take(v.len() as int)[i - 1]);
                }
            }
        }
        assert forall|i: int| 0 <= i < u.len() implies s[i] != c by {
            if i > 0 {
                assert(rest[i - 1] == s[i]);
            }
        }
        if u.len() < s.len() {
            assert(rest[v.len() as int] == s[u.len() as int]);
        }
    } else {
        assert(up_to(s, c) =~= s.take(0));
    }
}

/// Where `s` from `start` on has its first `c`, or the end.
fn find_char(s: &Vec<char>, start: usize, c: char) -> (end: usize)
    requires
        start <= s.len(),
    ensures
        start <= end <= s.len(),
        s@.subrange(start as int, end as int) == up_to(s@.skip(start as int), c),
        end - start == up_to(s@.skip(start as int), c).len(),
{
    let mut end: usize = start;
    while end < s.len() && s[end] != c
        invariant
            start <= end <= s.len(),
            forall|k: int| start <= k < end ==> s@[k] != c,
        decreases s.len() - end,
    {
        end = end + 1;
    }
    proof {
        let rest = s@.skip(start as int);
        let u = up_to(rest, c);
        lemma_up_to(rest, c);
        if u.len() < end - start {
            assert(s@[start + u.len()] == rest[u.len() as int]);
        }
        if u.len() > end - start {
            assert(rest[end - start] == s@[end as int]);
        }
        assert(s@.subrange(start as int, end as int) =~= u);
    }
    end
}

/// Where the last " (" of `s` behind `start` is, or the end.
fn find_options(s: &Vec<char>, start: usize) -> (end: usize)
    requires
        start <= s.len(),
    ensures
        start <= end <= s.len(),
        s@.subrange(start as int, end as int) == before_options(
            s@.skip(start as int),
            s.len() - start,
        ),
{
    let ghost rest = s@.skip(start as int);
    let mut k: usize = s.len();
    proof {
        reveal_strlit(" (");
    }
    while k > start
        invariant
            start <= k <= s.len(),
            rest == s@.skip(start as int),
            " ("@.len() == 2,
            " ("@[0] == ' ',
            " ("@[1] == '(',
            before_options(rest, k - start) == before_options(rest, s.len() - start),
        decreases k - start,
    {
        k = k - 1;
        if s.len() - k >= 2 && s[k] == ' ' && s[k + 1] == '(' {
            proof {
                let i = k - start;
                assert(rest.subrange(i, i + 2) =~= " ("@);
                assert(stands_at(rest, " ("@, i));
                assert(s@.subrange(start as int, k as int) =~= rest.take(i));
            }
            return k;
        }
        proof {
            let i = k - start;
            if stands_at(rest, " ("@, i) {
                assert(rest.subrange(i, i + 2)[0] == s@[k as int]);
                assert(rest.subrange(i, i + 2)[1] == s@[k + 1]);
            }
        }
    }
    assert(s@.subrange(start as int, s@.len() as int) =~= rest);
    s.len()
}

/// Where the kind of file system starts at the end of the part of `s` from `start` up to
/// `end`, or `end`.
fn find_type(s: &Vec<char>, start: usize, end: usize) -> (cut: usize)
    requires
        start <= end <= s.len(),
    ensures
        start <= cut <= end,
        s@.subrange(start as int, cut as int) == without_type(s@.subrange(start as int, end as int)),
{
    let ghost all = s@.subrange(start as int, end as int);
    let mut k: usize = end;
    assert(all.take(all.len() as int) =~= all);
    assert(last_word(all).len() == last_word(all.take(k - start)).len() + (end - k));
    while k > start && s[k - 1] != ' '
        invariant
            start <= k <= end <= s.len(),
            all == s@.subrange(start as int, end as int),
            last_word(all).len() == last_word(all.take(k - start)).len() + (end - k),
        decreases k - start,
    {
        proof {
            let t = all.take(k - start);
            assert(t.last() == s@[k - 1]);
            assert(t.drop_last() =~= all.take(k - start - 1));
        }
        k = k - 1;
    }
    proof {
        let t = all.take(k - start);
        if k > start {
            assert(t.last() == s@[k - 1]);
        }
        assert(last_word(all).len() == end - k);
        reveal_strlit(" type ");
    }
    if k < end && k - start >= 6 && s[k - 6] == ' ' && s[k - 5] == 't' && s[k - 4] == 'y' && s[k
        - 3] == 'p' && s[k - 2] == 'e' && s[k - 1] == ' ' {
        proof {
            let i = k - start - 6;
            assert(all.subrange(i, i + 6) =~= " type "@);
            assert(s@.subrange(start as int, k - 6) =~= all.take(i));
        }
        return k - 6;
    }
    proof {
        let i = k - start - 6;
        if k < end && stands_at(all, " type "@, i) {
            assert forall|j: int| 0 <= j < 6 implies #[trigger] s@[k - 6 + j] == " type "@[j] by {
                assert(all.subrange(i, i + 6)[j] == s@[k - 6 + j]);
            }
            assert(s@[k - 6 + 0] == ' ' && s@[k - 6 + 1] == 't' && s@[k - 6 + 2] == 'y' && s@[k - 6
                + 3] == 'p' && s@[k - 6 + 4] == 'e' && s@[k - 6 + 5] == ' ');
        }
    }
    end
}

/// Where a line of the table of mounts says that something served by this machine is mounted.
pub fn local_mount_of(line: &Vec<char>) -> (place: Option<String>)
    ensures
        match (place, local_mount(line@)) {
            (Some(a), Some(b)) => a@ == b,
            (None, None) => true,
            _ => false,
        },
{
    if find_text(line, "localhost").is_none() && find_text(line, "127.0.0.1").is_none() {
        return None;
    }
    proof {
        reveal_strlit(" on ");
        assert(" on "@.len() == 4);
    }
    match find_text(line, " on ") {
        None => None,
        Some(i) => {
            assert(i + 4 <= line.len());
            let start: usize = i + 4;
            let options = find_options(line, start);
            let end = find_type(line, start, options);
            if end > start {
                Some(string_of(line, start, end))
            } else {
                None
            }
        },
    }
}

/// Texts by their views.
pub open spec fn text_views(v: Seq<String>) -> Seq<Seq<char>> {
    v.map_values(|s: String| s@)
}

/// Where something served by this machine is mounted, according to the table of mounts.
pub fn find_local_mounts(table: &str) -> (places: Vec<String>)
    ensures
        text_views(places@) == local_mounts(lines_of(table@), lines_of(table@).len()),
{
    let chars = chars_of(table);
    let ghost all = lines_of(table@);
    let mut places: Vec<String> = Vec::new();
    let ghost mut n: nat = 0;
    let mut start: usize = 0;
    proof {
        assert(chars@.skip(0) =~= chars@);
        assert(text_views(places@) =~= seq![]);
        assert(all.take(0) + all =~= all);
    }
    while start < chars.len()
        invariant
            chars@ == table@,
            start <= chars.len(),
            all == lines_of(table@),
            n <= all.len(),
            all == all.take(n as int) + lines_of(chars@.skip(start as int)),
            text_views(places@) == local_mounts(all, n),
        decreases chars.len() - start,
    {
        let ghost rest = chars@.skip(start as int);
        let ghost line = up_to(rest, '\n');
        let end = find_char(&chars, start, '\n');
        let cut: usize = if end < chars.len() && end > start && chars[end - 1] == '\r' {
            end - 1
        } else {
            end
        };
        let mut text: Vec<char> = Vec::new();
        for i in start..cut
            invariant
                start <= cut <= chars.len(),
                text@ == chars@.subrange(start as int, i as int),
        {
            text.push(chars[i]);
        }
        let ghost before = places@;
        let found = local_mount_of(&text);
        proof {
            let head = lines_of(rest)[0];
            assert(line =~= chars@.subrange(start as int, end as int));
            if end < chars.len() {
                if line.len() > 0 {
                    assert(line.last() == chars@[end - 1]);
                }
                assert(text@ =~= head);
                assert(rest.skip(line.len() as int + 1) =~= chars@.skip(end + 1));
            } else {
                assert(text@ =~= rest);
            }
            assert(text@ == head);
            assert(all[n as int] == head);
        }
        match found {
            Some(place) => {
                places.push(place);
                assert(text_views(places@) =~= text_views(before).push(place@));
            },
            None => {},
        }
        proof {
            let tail = if end < chars.len() {
                lines_of(chars@.skip(end + 1))
            } else {
                seq![]
            };
            assert(lines_of(rest) =~= seq![text@] + tail);
            n = n + 1;
            assert(all =~= all.take(n as int) + tail);
            if end >= chars.len() {
                assert(chars@.skip(chars@.len() as int).len() == 0);
            }
        }
        start = if end < chars.len() { end + 1 } else { end };
    }
    proof {
        assert(lines_of(chars@.skip(start as int)) =~= seq![]);
        assert(all.take(n as int).len() == n);
    }
    places
}

} // verus!
