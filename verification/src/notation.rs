//! What written numbers and names mean: laws of digits, of case, and of paths.

use vstd::prelude::*;
use crate::path::{
    is_component, joined_path, law_parts_of_split, lemma_child_path, lemma_parts_trailing_slash,
    name_of, parent_of, parts,
};
use crate::text::{
    ascii_lower, decimal, digit_char, fixed_decimal, hex_char, hexadecimal, lower_char, same_name,
    zero_padded,
};

verus! {

// ---------------------------------------------------------------------------
// Digits
// ---------------------------------------------------------------------------

/// The character is a digit from `0` to `9` or from `A` to `F`.
pub open spec fn is_digit(c: char) -> bool {
    0x30 <= c as int <= 0x39 || 0x41 <= c as int <= 0x46
}

/// What a digit is worth: `0` to `9` nothing to nine, `A` to `F` ten to fifteen.
pub open spec fn worth(c: char) -> int {
    if c as int <= 0x39 {
        c as int - 0x30
    } else {
        c as int - 0x41 + 10
    }
}

/// What digits are worth together, each `radix` times the one behind it.
pub open spec fn reading(s: Seq<char>, radix: int) -> int
    decreases s.len(),
{
    if s.len() == 0 {
        0
    } else {
        radix * reading(s.drop_last(), radix) + worth(s.last())
    }
}

/// All characters are digits of that radix.
pub open spec fn all_digits(s: Seq<char>, radix: int) -> bool {
    forall|i: int| 0 <= i < s.len() ==> is_digit(#[trigger] s[i]) && worth(s[i]) < radix
}

/// The product of `n` factors `b`.
pub open spec fn power(b: int, n: nat) -> int
    decreases n,
{
    if n == 0 {
        1
    } else {
        b * power(b, (n - 1) as nat)
    }
}

proof fn lemma_pushed(s: Seq<char>, c: char, radix: int)
    requires
        all_digits(s, radix),
        is_digit(c),
        worth(c) < radix,
    ensures
        all_digits(s.push(c), radix),
        reading(s.push(c), radix) == radix * reading(s, radix) + worth(c),
{
    assert(s.push(c).drop_last() =~= s);
    assert forall|i: int| 0 <= i < s.push(c).len() implies is_digit(#[trigger] s.push(c)[i])
        && worth(s.push(c)[i]) < radix by {
        if i < s.len() {
            assert(s.push(c)[i] == s[i]);
        }
    }
}

proof fn lemma_alone(c: char, radix: int)
    requires
        is_digit(c),
        worth(c) < radix,
    ensures
        all_digits(seq![c], radix),
        reading(seq![c], radix) == worth(c),
{
    lemma_pushed(seq![], c, radix);
    assert(seq![c] =~= Seq::<char>::empty().push(c));
    assert(reading(Seq::<char>::empty(), radix) == 0);
    assert(radix * 0 == 0);
}

/// A number in decimal: digits that are worth the number, and no zero in front of others.
pub proof fn law_decimal(n: nat)
    ensures
        all_digits(decimal(n), 10),
        reading(decimal(n), 10) == n,
        decimal(n).len() > 0,
        decimal(n).len() > 1 ==> worth(decimal(n)[0]) > 0,
    decreases n,
{
    if n < 10 {
        lemma_alone(digit_char(n as int), 10);
    } else {
        law_decimal(n / 10);
        let d = (n % 10) as int;
        let head = decimal(n / 10);
        lemma_pushed(head, digit_char(d), 10);
        assert(decimal(n)[0] == head[0]);
        if head.len() == 1 {
            assert(head =~= seq![head[0]]);
            assert(is_digit(head[0]));
            lemma_alone(head[0], 10);
        }
    }
}

/// A number in hexadecimal: upper-case digits that are worth the number, and no zero in front
/// of others.
pub proof fn law_hexadecimal(n: nat)
    ensures
        all_digits(hexadecimal(n), 16),
        reading(hexadecimal(n), 16) == n,
        hexadecimal(n).len() > 0,
        hexadecimal(n).len() > 1 ==> worth(hexadecimal(n)[0]) > 0,
    decreases n,
{
    if n < 16 {
        lemma_alone(hex_char(n as int), 16);
    } else {
        law_hexadecimal(n / 16);
        let d = (n % 16) as int;
        let head = hexadecimal(n / 16);
        lemma_pushed(head, hex_char(d), 16);
        assert(hexadecimal(n)[0] == head[0]);
        if head.len() == 1 {
            assert(head =~= seq![head[0]]);
            assert(is_digit(head[0]));
            lemma_alone(head[0], 16);
        }
    }
}

/// A number in a fixed number of decimal digits: those digits, which are worth what is left of
/// the number when whole multiples of their number of combinations are taken away.
pub proof fn law_fixed_decimal(n: nat, width: nat)
    ensures
        fixed_decimal(n, width).len() == width,
        all_digits(fixed_decimal(n, width), 10),
        reading(fixed_decimal(n, width), 10) == n % power(10, width) as nat,
        power(10, width) > 0,
    decreases width,
{
    if width > 0 {
        let m = (width - 1) as nat;
        law_fixed_decimal(n / 10, m);
        lemma_pushed(fixed_decimal(n / 10, m), digit_char((n % 10) as int), 10);
        let p = power(10, m);
        vstd::arithmetic::div_mod::lemma_breakdown(n as int, 10, p);
    } else {
        assert(power(10, 0) == 1);
    }
}

proof fn lemma_zeros(k: nat, s: Seq<char>, radix: int)
    requires
        radix > 0,
        all_digits(s, radix),
    ensures
        reading(Seq::new(k, |i: int| '0') + s, radix) == reading(s, radix),
        all_digits(Seq::new(k, |i: int| '0') + s, radix),
    decreases s.len(), k,
{
    let z = Seq::new(k, |i: int| '0');
    let t = z + s;
    if s.len() > 0 {
        assert(t.drop_last() =~= z + s.drop_last());
        assert(all_digits(s.drop_last(), radix));
        lemma_zeros(k, s.drop_last(), radix);
        assert(t =~= (z + s.drop_last()).push(s.last()));
        lemma_pushed(z + s.drop_last(), s.last(), radix);
    } else if k > 0 {
        let t2 = Seq::new((k - 1) as nat, |i: int| '0') + s;
        assert(t.drop_last() =~= t2);
        lemma_zeros((k - 1) as nat, s, radix);
        assert(t =~= t2.push('0'));
        lemma_pushed(t2, '0', radix);
        assert(reading(t2, radix) == 0);
        assert(radix * 0 == 0);
    } else {
        assert(t =~= s);
    }
}

/// Zeros in front of digits do not change what they are worth. There are as many as it takes
/// to reach the width, and none where the digits reach it.
pub proof fn law_zero_padded(s: Seq<char>, width: nat, radix: int)
    requires
        radix > 0,
        all_digits(s, radix),
    ensures
        ({
            let t = zero_padded(s, width);
            &&& all_digits(t, radix)
            &&& reading(t, radix) == reading(s, radix)
            &&& t.len() == (if s.len() < width { width } else { s.len() })
            &&& t.skip(t.len() - s.len()) == s
        }),
{
    let t = zero_padded(s, width);
    if s.len() < width {
        lemma_zeros((width - s.len()) as nat, s, radix);
    }
    assert(t.skip(t.len() - s.len()) =~= s);
}

proof fn lemma_reading_bound(s: Seq<char>)
    requires
        all_digits(s, 16),
    ensures
        0 <= reading(s, 16),
        s.len() > 0 && worth(s[0]) > 0 ==> power(16, (s.len() - 1) as nat) <= reading(s, 16),
    decreases s.len(),
{
    if s.len() > 0 {
        let t = s.drop_last();
        assert forall|i: int| 0 <= i < t.len() implies is_digit(#[trigger] t[i]) && worth(t[i])
            < 16 by {
            assert(t[i] == s[i]);
        }
        lemma_reading_bound(t);
        assert(is_digit(s[s.len() - 1]));
        if s.len() == 1 {
            assert(reading(t, 16) == 0);
            assert(power(16, 0) == 1);
        } else {
            assert(t[0] == s[0]);
        }
    }
}

/// A number of 32 bits in eight hexadecimal digits.
pub proof fn law_eight_digits(n: u32)
    ensures
        ({
            let s = zero_padded(hexadecimal(n as nat), 8);
            &&& s.len() == 8
            &&& all_digits(s, 16)
            &&& reading(s, 16) == n
        }),
{
    let h = hexadecimal(n as nat);
    law_hexadecimal(n as nat);
    law_zero_padded(h, 8, 16);
    if h.len() > 8 {
        lemma_reading_bound(h);
        lemma_powers(16, 8, (h.len() - 1) as nat);
        assert(power(16, 8) == 0x1_0000_0000) by {
            reveal_with_fuel(power, 9);
        }
    }
}

proof fn lemma_powers(b: int, m: nat, n: nat)
    requires
        b >= 1,
        m <= n,
    ensures
        1 <= power(b, m) <= power(b, n),
    decreases n,
{
    if n > 0 {
        if m < n {
            lemma_powers(b, m, (n - 1) as nat);
            let p = power(b, (n - 1) as nat);
            assert(p <= b * p) by (nonlinear_arith)
                requires
                    b >= 1,
                    p >= 1,
            ;
        } else {
            lemma_powers(b, (m - 1) as nat, (n - 1) as nat);
            let p = power(b, (n - 1) as nat);
            assert(1 <= b * p) by (nonlinear_arith)
                requires
                    b >= 1,
                    p >= 1,
            ;
        }
    }
}

// ---------------------------------------------------------------------------
// Case
// ---------------------------------------------------------------------------

/// Two characters are equal, or the same letter from `A` to `Z` in different case.
pub open spec fn same_letter(a: char, b: char) -> bool {
    ||| a == b
    ||| 0x41 <= a as int <= 0x5A && b as int == a as int + 0x20
    ||| 0x41 <= b as int <= 0x5A && a as int == b as int + 0x20
}

proof fn lemma_same_letter(a: char, b: char)
    ensures
        (lower_char(a) == lower_char(b)) == same_letter(a, b),
{
    let x = lower_char(a);
    let y = lower_char(b);
    if 'A' <= a && a <= 'Z' {
        assert(x as int == a as int + 32);
    }
    if 'A' <= b && b <= 'Z' {
        assert(y as int == b as int + 32);
    }
    if same_letter(a, b) {
        assert(x as int == y as int);
    }
}

/// Names are the same if and only if they have the same length and the same letters, in
/// whatever case.
pub proof fn law_same_name(a: Seq<char>, b: Seq<char>)
    ensures
        same_name(a, b) <==> a.len() == b.len() && forall|i: int|
            0 <= i < a.len() ==> same_letter(#[trigger] a[i], b[i]),
{
    let la = ascii_lower(a);
    let lb = ascii_lower(b);
    if same_name(a, b) {
        assert(la.len() == a.len() && lb.len() == b.len());
        assert forall|i: int| 0 <= i < a.len() implies same_letter(#[trigger] a[i], b[i]) by {
            assert(la[i] == lb[i]);
            lemma_same_letter(a[i], b[i]);
        }
    }
    if a.len() == b.len() && forall|i: int| 0 <= i < a.len() ==> same_letter(#[trigger] a[i], b[i]) {
        assert forall|i: int| 0 <= i < a.len() implies la[i] == lb[i] by {
            assert(same_letter(a[i], b[i]));
            lemma_same_letter(a[i], b[i]);
        }
        assert(la =~= lb);
    }
}

// ---------------------------------------------------------------------------
// Paths
// ---------------------------------------------------------------------------

/// How a path leads: an empty one leads nowhere, a slash at its end changes nothing, and a name
/// behind a slash, or at the start, is one step more. Every path is built up like this.
pub proof fn law_path_steps(dir: Seq<char>, name: Seq<char>)
    requires
        name.len() > 0,
        forall|i: int| 0 <= i < name.len() ==> #[trigger] name[i] != '/',
    ensures
        parts(seq![]) == Seq::<Seq<char>>::empty(),
        parts(dir.push('/')) == parts(dir),
        parts(dir.push('/') + name) == parts(dir).push(name),
        parts(name) == seq![name],
        name_of(dir.push('/') + name) == name,
        name_of(name) == name,
        parts(parent_of(dir.push('/') + name)) == parts(dir),
        parts(parent_of(name)) == Seq::<Seq<char>>::empty(),
{
    reveal_strlit("/");
    assert(is_component(name));
    lemma_parts_trailing_slash(dir);
    lemma_child_path(dir, name);
    let path = dir + "/"@ + name;
    assert(path =~= dir.push('/') + name);
    law_parts_of_split(path);
    lemma_bare_name(name);
}

/// The path of a name in a directory is one step longer than that of the directory.
pub proof fn law_joined_path(dir: Seq<char>, name: Seq<char>)
    requires
        name.len() > 0,
        forall|i: int| 0 <= i < name.len() ==> #[trigger] name[i] != '/',
    ensures
        parts(joined_path(dir, name)) == parts(dir).push(name),
        name_of(joined_path(dir, name)) == name,
{
    reveal_strlit("/");
    let n = crate::path::trim_len(dir);
    lemma_trim_parts(dir);
    let cut = dir.take(n as int);
    law_path_steps(cut, name);
    assert(joined_path(dir, name) =~= cut.push('/') + name);
}

/// Slashes at the end of a path lead nowhere.
proof fn lemma_trim_parts(dir: Seq<char>)
    ensures
        crate::path::trim_len(dir) <= dir.len(),
        parts(dir.take(crate::path::trim_len(dir) as int)) == parts(dir),
    decreases dir.len(),
{
    if dir.len() > 0 && dir.last() == '/' {
        let shorter = dir.drop_last();
        lemma_trim_parts(shorter);
        lemma_parts_trailing_slash(shorter);
        assert(shorter.push('/') =~= dir);
        reveal_strlit("/");
        assert(shorter + "/"@ =~= dir);
        let n = crate::path::trim_len(shorter);
        assert(crate::path::trim_len(dir) == n);
        assert(dir.take(n as int) =~= shorter.take(n as int));
    } else {
        assert(dir.take(dir.len() as int) =~= dir);
    }
}

proof fn lemma_bare_name(name: Seq<char>)
    requires
        is_component(name),
    ensures
        name_of(name) == name,
        parts(name) == seq![name],
        parts(parent_of(name)) == Seq::<Seq<char>>::empty(),
{
    let n = name.len();
    assert(crate::path::trim_len(name) == n);
    crate::path::lemma_name_start(name, n);
    let k = crate::path::name_start(name, n);
    assert(k == 0) by {
        if k > 0 {
            assert(name[k - 1] != '/');
        }
    }
    assert(name.subrange(0, n as int) =~= name);
    let root = seq!['/'];
    assert(root =~= Seq::<char>::empty().push('/'));
    lemma_parts_trailing_slash(Seq::<char>::empty());
    assert(parts(Seq::<char>::empty()) =~= Seq::<Seq<char>>::empty());
    law_parts_of_split(name);
    assert(parts(name) =~= seq![name]);
}

} // verus!
