//! The names of a package's files and directories: they are names of one component each, and
//! no two of them are the same.

use vstd::prelude::*;
use crate::path::is_component;
use crate::text::{
    ascii_lower, decimal, digit_char, hex_char, hexadecimal, lower_char, same_name, zero_padded,
};
use super::package::{hex8, part_path, PathsView};

verus! {

/// The name of Data file number `i`.
pub open spec fn part_name(i: nat) -> Seq<char> {
    "Data"@ + zero_padded(decimal(i), 4)
}

// ---------------------------------------------------------------------------
// Digits
// ---------------------------------------------------------------------------

/// The characters are decimal digits.
spec fn all_digits(s: Seq<char>) -> bool {
    forall|i: int| 0 <= i < s.len() ==> '0' <= #[trigger] s[i] && s[i] <= '9'
}

/// The number that decimal digits stand for.
spec fn value(s: Seq<char>) -> int
    decreases s.len(),
{
    if s.len() == 0 {
        0
    } else {
        10 * value(s.drop_last()) + (s.last() as int - '0' as int)
    }
}

proof fn lemma_decimal_value(n: nat)
    ensures
        value(decimal(n)) == n,
        all_digits(decimal(n)),
        decimal(n).len() > 0,
    decreases n,
{
    if n < 10 {
        let s = seq![digit_char(n as int)];
        assert(s.drop_last() =~= seq![]);
        assert(value(seq![]) == 0);
        assert(s.last() as int == 48 + n);
    } else {
        lemma_decimal_value(n / 10);
        let s = decimal(n);
        let d = (n % 10) as int;
        assert(s.drop_last() =~= decimal(n / 10));
        assert(s.last() == digit_char(d));
        assert(digit_char(d) as int == 48 + d);
        assert forall|i: int| 0 <= i < s.len() implies '0' <= #[trigger] s[i] && s[i] <= '9' by {
            if i < s.len() - 1 {
                assert(s[i] == decimal(n / 10)[i]);
            }
        }
    }
}

proof fn lemma_zeros_in_front(k: nat, s: Seq<char>)
    ensures
        value(Seq::new(k, |i: int| '0') + s) == value(s),
    decreases s.len(), k,
{
    let z = Seq::new(k, |i: int| '0');
    let t = z + s;
    if s.len() > 0 {
        assert(t.drop_last() =~= z + s.drop_last());
        assert(t.last() == s.last());
        lemma_zeros_in_front(k, s.drop_last());
    } else if k > 0 {
        assert(t.drop_last() =~= Seq::new((k - 1) as nat, |i: int| '0') + s);
        assert(t.last() == '0');
        lemma_zeros_in_front((k - 1) as nat, s);
    } else {
        assert(t =~= s);
    }
}

proof fn lemma_padded(n: nat)
    ensures
        value(zero_padded(decimal(n), 4)) == n,
        all_digits(zero_padded(decimal(n), 4)),
        zero_padded(decimal(n), 4).len() >= 4,
{
    let s = decimal(n);
    lemma_decimal_value(n);
    if s.len() < 4 {
        lemma_zeros_in_front((4 - s.len()) as nat, s);
    }
}

/// Digits have no case.
proof fn lemma_digits_lower(s: Seq<char>)
    requires
        all_digits(s),
    ensures
        ascii_lower(s) == s,
{
    assert forall|i: int| 0 <= i < s.len() implies ascii_lower(s)[i] == s[i] by {
        assert('0' <= s[i] && s[i] <= '9');
    }
    assert(ascii_lower(s) =~= s);
}

/// Different Data files have different names.
pub proof fn lemma_part_names_differ(i: nat, j: nat)
    requires
        same_name(part_name(i), part_name(j)),
    ensures
        i == j,
{
    reveal_strlit("Data");
    let a = zero_padded(decimal(i), 4);
    let b = zero_padded(decimal(j), 4);
    lemma_padded(i);
    lemma_padded(j);
    lemma_digits_lower(a);
    lemma_digits_lower(b);
    assert(ascii_lower(part_name(i)).len() == 4 + a.len());
    assert(ascii_lower(part_name(j)).len() == 4 + b.len());
    assert(ascii_lower(part_name(i)).skip(4) =~= ascii_lower(a));
    assert(ascii_lower(part_name(j)).skip(4) =~= ascii_lower(b));
    assert(a == b);
}

/// The name of a Data file has at least eight characters, and its third is a `t`.
pub proof fn lemma_part_name(i: nat)
    ensures
        is_component(part_name(i)),
        part_name(i).len() >= 8,
        part_name(i)[2] == 't',
{
    reveal_strlit("Data");
    lemma_padded(i);
    let p = part_name(i);
    let a = zero_padded(decimal(i), 4);
    assert forall|k: int| 0 <= k < p.len() implies #[trigger] p[k] != '/' by {
        if k >= 4 {
            assert(p[k] == a[k - 4]);
        }
    }
}

/// The characters are upper-case hexadecimal digits.
pub open spec fn all_hex(s: Seq<char>) -> bool {
    forall|i: int|
        0 <= i < s.len() ==> ('0' <= #[trigger] s[i] && s[i] <= '9' || 'A' <= s[i] && s[i] <= 'F')
}

proof fn lemma_hex_char(d: int)
    requires
        0 <= d < 16,
    ensures
        '0' <= hex_char(d) && hex_char(d) <= '9' || 'A' <= hex_char(d) && hex_char(d) <= 'F',
{
}

proof fn lemma_hexadecimal(n: nat, k: nat, bound: nat)
    requires
        n < bound,
        k > 0,
        bound == sixteens(k),
    ensures
        all_hex(hexadecimal(n)),
        0 < hexadecimal(n).len() <= k,
    decreases k,
{
    if n < 16 {
        lemma_hex_char(n as int);
    } else {
        assert(k > 1) by {
            if k == 1 {
                assert(sixteens(0) == 1);
            }
        }
        lemma_hexadecimal(n / 16, (k - 1) as nat, sixteens((k - 1) as nat));
        lemma_hex_char((n % 16) as int);
        let s = hexadecimal(n);
        let t = hexadecimal(n / 16);
        assert forall|i: int| 0 <= i < s.len() implies ('0' <= #[trigger] s[i] && s[i] <= '9' || 'A'
            <= s[i] && s[i] <= 'F') by {
            if i < t.len() {
                assert(s[i] == t[i]);
            }
        }
    }
}

spec fn sixteens(k: nat) -> nat
    decreases k,
{
    if k == 0 {
        1
    } else {
        16 * sixteens((k - 1) as nat)
    }
}

/// A number of 32 bits has eight hexadecimal digits.
pub proof fn lemma_hex8(n: u32)
    ensures
        is_component(hex8(n)),
        hex8(n).len() == 8,
        all_hex(hex8(n)),
{
    reveal_with_fuel(sixteens, 9);
    assert(sixteens(8) == 0x1_0000_0000);
    lemma_hexadecimal(n as nat, 8, 0x1_0000_0000);
    let s = hexadecimal(n as nat);
    let h = hex8(n);
    assert forall|i: int| 0 <= i < h.len() implies ('0' <= #[trigger] h[i] && h[i] <= '9' || 'A'
        <= h[i] && h[i] <= 'F') by {
        if i >= 8 - s.len() {
            assert(h[i] == s[i - (8 - s.len())]);
        }
    }
    assert forall|i: int| 0 <= i < h.len() implies #[trigger] h[i] != '/' by {
        assert('0' <= h[i] && h[i] <= '9' || 'A' <= h[i] && h[i] <= 'F');
    }
}

/// A header is named otherwise than any Data file, and than the directory of the Data files.
pub proof fn lemma_header_name_differs(n: u32, i: nat)
    ensures
        !same_name(part_name(i), hex8(n)),
        !same_name(hex8(n) + ".data"@, hex8(n)),
        is_component(hex8(n) + ".data"@),
{
    reveal_strlit(".data");
    lemma_hex8(n);
    lemma_part_name(i);
    let h = hex8(n);
    assert(ascii_lower(part_name(i))[2] == lower_char('t'));
    assert(ascii_lower(h)[2] == lower_char(h[2]));
    assert('0' <= h[2] && h[2] <= '9' || 'A' <= h[2] && h[2] <= 'F');
    let c = h[2];
    assert(lower_char(c) != 't') by {
        if 'A' <= c && c <= 'Z' {
            assert(lower_char(c) as u32 == c as u32 + 32);
        }
    }
    assert(ascii_lower(h + ".data"@).len() == 13);
    assert(ascii_lower(h).len() == 8);
    let name = h + ".data"@;
    assert forall|k: int| 0 <= k < name.len() implies #[trigger] name[k] != '/' by {
        if k < 8 {
            assert(name[k] == h[k]);
        }
    }
}

/// The path of a Data file is its name in the directory of the Data files.
pub proof fn lemma_part_path(paths: PathsView, i: nat)
    ensures
        part_path(paths, i) == paths.data_dir + "/"@ + part_name(i),
{
    reveal_strlit("/");
    reveal_strlit("Data");
    reveal_strlit("/Data");
    assert("/Data"@ =~= "/"@ + "Data"@);
    assert(part_path(paths, i) =~= paths.data_dir + "/"@ + part_name(i));
}

} // verus!
