//! Text: case folding, number formatting, and the few operations on strings
//! that the rest of the library builds on.

use vstd::prelude::*;
use vstd::utf8::{decode_utf8, valid_utf8};

verus! {

/// Text, as a mathematical value.
pub type Text = Seq<char>;

// ---------------------------------------------------------------------------
// Operations of std on strings
// ---------------------------------------------------------------------------

/// `String::push` appends one character.
pub assume_specification[ String::push ](s: &mut String, c: char)
    ensures
        final(s)@ == old(s)@.push(c),
;

/// `str::eq_ignore_ascii_case` holds when the two strings are equal once `A` to `Z`
/// have been replaced by `a` to `z` in both.
pub assume_specification[ str::eq_ignore_ascii_case ](a: &str, b: &str) -> (same: bool)
    ensures
        same == (ascii_lower(a@) == ascii_lower(b@)),
;

/// What `String::from_utf8_lossy` makes of bytes that are not UTF-8.
pub uninterp spec fn replaced_text(bytes: Seq<u8>) -> Seq<char>;

/// The text of a byte string: decoded if it is UTF-8, and with replacement characters for
/// what is not.
pub open spec fn lossy_text(bytes: Seq<u8>) -> Seq<char> {
    if valid_utf8(bytes) {
        decode_utf8(bytes)
    } else {
        replaced_text(bytes)
    }
}

/// Calls `String::from_utf8_lossy`. On valid UTF-8 the result is the decoded text. On other
/// bytes it depends on the bytes alone; where the replacement characters stand is left to
/// the name `replaced_text`.
#[verifier::external_body]
pub(crate) fn from_utf8_lossy(bytes: &[u8]) -> (s: String)
    ensures
        s@ == (if valid_utf8(bytes@) {
            decode_utf8(bytes@)
        } else {
            replaced_text(bytes@)
        }),
{
    String::from_utf8_lossy(bytes).into_owned()
}

/// What `str::to_lowercase` makes of a text.
pub uninterp spec fn lowercase_text(s: Seq<char>) -> Seq<char>;

/// Calls `str::to_lowercase`. The result depends on the text alone; what Unicode calls the
/// lower case of a character is left to the name `lowercase_text`.
#[verifier::external_body]
pub(crate) fn to_lowercase(s: &str) -> (t: String)
    ensures
        t@ == lowercase_text(s@),
{
    s.to_lowercase()
}

/// Calls `std::str::from_utf8`: gives the text of bytes that are UTF-8, and nothing for
/// others.
#[verifier::external_body]
pub(crate) fn text_of_utf8(bytes: &[u8]) -> (s: Option<String>)
    ensures
        match s {
            Some(t) => valid_utf8(bytes@) && t@ == decode_utf8(bytes@),
            None => !valid_utf8(bytes@),
        },
{
    core::str::from_utf8(bytes).ok().map(|t| t.to_owned())
}

// ---------------------------------------------------------------------------
// Characters
// ---------------------------------------------------------------------------

/// `c` with an upper-case ASCII letter turned into lower case.
pub open spec fn lower_char(c: char) -> char {
    if 'A' <= c && c <= 'Z' {
        (c as u32 + 32) as char
    } else {
        c
    }
}

/// `s` with its upper-case ASCII letters turned into lower case.
pub open spec fn ascii_lower(s: Seq<char>) -> Seq<char> {
    s.map_values(|c: char| lower_char(c))
}

/// Two names are the same to the file system when they differ in the case of ASCII
/// letters at most.
pub open spec fn same_name(a: Seq<char>, b: Seq<char>) -> bool {
    ascii_lower(a) == ascii_lower(b)
}

/// The characters of `s`, in order.
pub fn chars_of(s: &str) -> (v: Vec<char>)
    ensures
        v@ == s@,
{
    let mut v: Vec<char> = Vec::new();
    for c in it: s.chars()
        invariant
            v@ == it.seq().take(it.index() as int),
            it.seq() == s@,
    {
        v.push(c);
    }
    v
}

/// The string made of the characters `v[from..to]`.
pub fn string_of(v: &Vec<char>, from: usize, to: usize) -> (s: String)
    requires
        from <= to <= v.len(),
    ensures
        s@ == v@.subrange(from as int, to as int),
{
    let mut s = String::new();
    for i in from..to
        invariant
            from <= to <= v.len(),
            s@ == v@.subrange(from as int, i as int),
    {
        s.push(v[i]);
    }
    s
}

/// Whether two strings are the same.
pub fn same_text(a: &str, b: &str) -> (same: bool)
    ensures
        same == (a@ == b@),
{
    let v = chars_of(a);
    let w = chars_of(b);
    if v.len() != w.len() {
        return false;
    }
    let mut i: usize = 0;
    while i < v.len()
        invariant
            v@ == a@,
            w@ == b@,
            v.len() == w.len(),
            i <= v.len(),
            forall|k: int| 0 <= k < i ==> v@[k] == w@[k],
        decreases v.len() - i,
    {
        if v[i] != w[i] {
            return false;
        }
        i = i + 1;
    }
    assert(v@ =~= w@);
    true
}

/// `prefix` is at the start of `s`.
pub open spec fn has_prefix(s: Seq<char>, prefix: Seq<char>) -> bool {
    prefix.len() <= s.len() && s.take(prefix.len() as int) == prefix
}

/// Whether `prefix` is at the start of `s`.
pub fn text_has_prefix(s: &str, prefix: &str) -> (has: bool)
    ensures
        has == has_prefix(s@, prefix@),
{
    let v = chars_of(s);
    let w = chars_of(prefix);
    if w.len() > v.len() {
        return false;
    }
    let mut i: usize = 0;
    while i < w.len()
        invariant
            v@ == s@,
            w@ == prefix@,
            w.len() <= v.len(),
            i <= w.len(),
            forall|k: int| 0 <= k < i ==> v@[k] == w@[k],
        decreases w.len() - i,
    {
        if v[i] != w[i] {
            assert(v@.take(w.len() as int)[i as int] == v@[i as int]);
            return false;
        }
        i = i + 1;
    }
    assert(v@.take(w.len() as int) =~= w@);
    true
}

// ---------------------------------------------------------------------------
// Numbers
// ---------------------------------------------------------------------------

/// The decimal digit of `d`.
pub open spec fn digit_char(d: int) -> char {
    (48 + d) as char
}

/// `n` in decimal, without leading zeros.
pub open spec fn decimal(n: nat) -> Seq<char>
    decreases n,
{
    if n < 10 {
        seq![digit_char(n as int)]
    } else {
        decimal(n / 10).push(digit_char((n % 10) as int))
    }
}

/// `n` in decimal with exactly `width` digits (the last ones, if there are more).
pub open spec fn fixed_decimal(n: nat, width: nat) -> Seq<char>
    decreases width,
{
    if width == 0 {
        seq![]
    } else {
        fixed_decimal(n / 10, (width - 1) as nat).push(digit_char((n % 10) as int))
    }
}

/// The upper-case hexadecimal digit of `d`.
pub open spec fn hex_char(d: int) -> char {
    if d < 10 {
        (48 + d) as char
    } else {
        (55 + d) as char
    }
}

/// `n` in upper-case hexadecimal, without leading zeros.
pub open spec fn hexadecimal(n: nat) -> Seq<char>
    decreases n,
{
    if n < 16 {
        seq![hex_char(n as int)]
    } else {
        hexadecimal(n / 16).push(hex_char((n % 16) as int))
    }
}

/// `s` with zeros in front, so that it has at least `width` characters.
pub open spec fn zero_padded(s: Seq<char>, width: nat) -> Seq<char> {
    if s.len() < width {
        Seq::new((width - s.len()) as nat, |i: int| '0') + s
    } else {
        s
    }
}

/// Appends `n` in decimal.
pub fn push_decimal(s: &mut String, n: u64)
    ensures
        final(s)@ == old(s)@ + decimal(n as nat),
    decreases n,
{
    if n >= 10 {
        push_decimal(s, n / 10);
    }
    s.push((48 + (n % 10) as u8) as char);
}

/// Appends `n` in decimal with exactly `width` digits.
pub fn push_fixed_decimal(s: &mut String, n: u32, width: u32)
    ensures
        final(s)@ == old(s)@ + fixed_decimal(n as nat, width as nat),
    decreases width,
{
    if width > 0 {
        push_fixed_decimal(s, n / 10, width - 1);
        s.push((48 + (n % 10) as u8) as char);
    }
}

/// Appends `n` in decimal, padded with zeros to `width` digits.
pub fn push_padded_decimal(s: &mut String, n: u64, width: u32)
    ensures
        final(s)@ == old(s)@ + zero_padded(decimal(n as nat), width as nat),
    decreases n, width,
{
    if n >= 10 {
        push_padded_decimal(s, n / 10, if width > 0 { width - 1 } else { 0 });
        proof {
            assert(zero_padded(decimal(n as nat), width as nat) =~= zero_padded(
                decimal((n / 10) as nat),
                if width > 0 { (width - 1) as nat } else { 0 },
            ).push(digit_char((n % 10) as int)));
        }
    } else {
        let mut w: u32 = width;
        let ghost start = s@;
        while w > 1
            invariant
                w <= width,
                w >= 1 || width == 0,
                s@ == start + Seq::new((width - w) as nat, |i: int| '0'),
            decreases w,
        {
            s.push('0');
            w = w - 1;
        }
    }
    s.push((48 + (n % 10) as u8) as char);
}

/// The upper-case hexadecimal digit of `d`.
pub fn hex_digit(d: u8) -> (c: char)
    requires
        d < 16,
    ensures
        c == hex_char(d as int),
{
    if d < 10 {
        (48 + d) as char
    } else {
        (55 + d) as char
    }
}

/// Appends `n` in upper-case hexadecimal, padded with zeros to `width` digits.
pub fn push_hex(s: &mut String, n: u64, width: u32)
    ensures
        final(s)@ == old(s)@ + zero_padded(hexadecimal(n as nat), width as nat),
    decreases n, width,
{
    if n >= 16 {
        push_hex(s, n / 16, if width > 0 { width - 1 } else { 0 });
        proof {
            assert(zero_padded(hexadecimal(n as nat), width as nat) =~= zero_padded(
                hexadecimal((n / 16) as nat),
                if width > 0 { (width - 1) as nat } else { 0 },
            ).push(hex_char((n % 16) as int)));
        }
    } else {
        let mut w: u32 = width;
        let ghost start = s@;
        while w > 1
            invariant
                w <= width,
                w >= 1 || width == 0,
                s@ == start + Seq::new((width - w) as nat, |i: int| '0'),
            decreases w,
        {
            s.push('0');
            w = w - 1;
        }
    }
    s.push(hex_digit((n % 16) as u8));
}

} // verus!
