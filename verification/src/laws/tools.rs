//! Laws of the tools around the file system: drives, moments, numbers, images and mounts.

use vstd::prelude::*;
use crate::chains::{counted, VolumeStats};
use crate::cli::{
    before_options, find_from, image_choice, last_word, lines_of, local_mount, mount_options_text,
    partition_index, stands_at, up_to,
};
use crate::clock::{stamp_spec, LocalTime};
use crate::disk::{Disk, Tally};
use crate::error::{ErrView, IoKind};
use crate::laws::counting::law_stats_add_up;
use crate::laws::formatting::lemma_formatted_places;
use crate::laws::shape::{lemma_magic, lemma_small_power, magic_at, short_at, small_power, word_at};
use crate::mkimage::{
    bytes_text, div_half_even, double_precision, format_result, formatted_bytes, one_decimal,
    suffix_value, superblock_bytes, ulp,
};
use crate::notation::{law_decimal, reading};
use crate::numbers::{digit_value, digits_from, hex_or_dec, number_of, NumberError};
use crate::partition::{detected, is_known_table, volume_at};
use crate::text::{decimal, digit_char, lowercase_text, same_name};
use crate::types::{
    law_time_roundtrip, pack_date, pack_time, unpack_date, unpack_time, XboxGeneration,
    XboxPartition, FIRST_CLUSTER,
};
use crate::volume::geometry;

verus! {

// ---------------------------------------------------------------------------
// Drives
// ---------------------------------------------------------------------------

/// The counts of a volume's clusters add up, and the sizes are those of the clusters counted.
pub proof fn law_counted(s: VolumeStats, d: Disk, volume_size: u64, t: Tally)
    requires
        d.tally_from(FIRST_CLUSTER as int) == Ok::<Tally, ErrView>(t),
        counted(s, d, volume_size, t),
        d.geo.total_clusters >= 1,
    ensures
        s.total_clusters == d.geo.total_clusters,
        s.free_clusters + s.used_clusters + s.bad_clusters == s.total_clusters,
        s.cluster_size == 512 * d.geo.sectors_per_cluster,
        s.free_size == s.free_clusters * (512 * d.geo.sectors_per_cluster),
        s.used_size == s.used_clusters * (512 * d.geo.sectors_per_cluster),
        s.total_size == volume_size,
        s.free_clusters == crate::laws::dir_facts::free_set(d).len(),
{
    law_stats_add_up(d, FIRST_CLUSTER as int);
    crate::laws::counting::law_free_count(d);
}

/// The partitions that are found on a drive: those of the table that start with a magic word,
/// all of them and no others, in the order of the table. The numbers of those are given.
pub proof fn law_detected(bytes: Seq<u8>, table: Seq<XboxPartition>, n: nat) -> (at: Seq<int>)
    requires
        n <= table.len(),
    ensures
        ({
            let found = detected(bytes, table, n);
            &&& at.len() == found.len()
            &&& forall|k: int|
                0 <= k < at.len() ==> 0 <= #[trigger] at[k] < n && found[k] == table[at[k]]
            &&& forall|j: int, k: int| 0 <= j < k < at.len() ==> at[j] < at[k]
            &&& forall|i: int|
                #![trigger table[i]]
                0 <= i < n ==> {
                    let start = table[i].offset as int;
                    at.contains(i) <==> start + 4 <= bytes.len() && (magic_at(bytes, start, true)
                        || magic_at(bytes, start, false))
                }
        }),
    decreases n,
{
    if n == 0 {
        seq![]
    } else {
        let before = law_detected(bytes, table, (n - 1) as nat);
        let start = table[n - 1].offset;
        lemma_volume_at(bytes, start);
        if volume_at(bytes, start) {
            let at = before.push(n - 1);
            assert forall|i: int|
                #![trigger table[i]]
                0 <= i < n implies {
                let start = table[i].offset as int;
                at.contains(i) <==> start + 4 <= bytes.len() && (magic_at(bytes, start, true)
                    || magic_at(bytes, start, false))
            } by {
                if i == n - 1 {
                    assert(at[at.len() - 1] == i);
                } else if before.contains(i) {
                    let k = choose|k: int| 0 <= k < before.len() && before[k] == i;
                    assert(at[k] == i);
                } else if at.contains(i) {
                    let k = choose|k: int| 0 <= k < at.len() && at[k] == i;
                    assert(before[k] == i);
                }
            }
            at
        } else {
            assert(!before.contains(n - 1));
            before
        }
    }
}

proof fn lemma_volume_at(bytes: Seq<u8>, offset: u64)
    ensures
        volume_at(bytes, offset) <==> offset + 4 <= bytes.len() && (magic_at(
            bytes,
            offset as int,
            true,
        ) || magic_at(bytes, offset as int, false)),
{
    if offset + 4 <= bytes.len() {
        lemma_magic(bytes, offset as int);
    }
}

/// The partitions of a drive: six of the original console and four of its successor. Both start
/// at the same place, and the last of each goes to the end of the drive. The successor's follow
/// each other without gaps.
pub proof fn law_known_partitions(t: Seq<XboxPartition>)
    requires
        is_known_table(t),
    ensures
        t.len() == 10,
        t[0].offset == 0x80000 && t[6].offset == 0x80000,
        t[5].size == 0 && t[9].size == 0,
        forall|i: int|
            6 <= i < 9 ==> #[trigger] t[i].offset + t[i].size == t[i + 1].offset && t[i].size > 0,
        t[0].size == 750 * 65536 && t[1].size == 750 * 65536 && t[2].size == 750 * 65536,
        t[3].size == 500 * 65536 && t[4].size == 0x1312_D000,
        t[1].offset == t[0].offset + t[0].size && t[2].offset == t[1].offset + t[1].size,
        t[4].offset == t[3].offset + t[3].size && t[3].offset == 0x8CA_0000,
        t[5].offset == 0x1DD1_D000,
        forall|i: int|
            0 <= i < 10 ==> (#[trigger] t[i].generation == XboxGeneration::Original <==> i < 6),
        t[0].name@ == "Config (CACHE0)"@ && t[1].name@ == "Game Cache (CACHE1)"@,
        t[2].name@ == "Cache (CACHE2)"@ && t[3].name@ == "System (C)"@,
        t[4].name@ == "Data (E)"@ && t[5].name@ == "Extended (F)"@,
        t[6].name@ == "360 System Cache"@ && t[7].name@ == "360 Game Content"@,
        t[8].name@ == "360 Xbox 1 Compat"@ && t[9].name@ == "360 Data"@,
{
    assert forall|i: int| 0 <= i < 6 implies t.take(6)[i] == #[trigger] t[i] by {}
    assert forall|i: int| 6 <= i < 10 implies t.skip(6)[i - 6] == #[trigger] t[i] by {}
}

/// The partition that a name stands for is the first one of that name, whatever its case.
pub proof fn law_partition_of_name(list: Seq<XboxPartition>, name: Seq<char>, i: int)
    requires
        0 <= i <= list.len(),
    ensures
        match partition_index(list, name, i) {
            Some(k) => i <= k < list.len() && same_name(list[k].name@, name) && forall|m: int|
                i <= m < k ==> !same_name((#[trigger] list[m]).name@, name),
            None => forall|m: int|
                i <= m < list.len() ==> !same_name((#[trigger] list[m]).name@, name),
        },
    decreases list.len() - i,
{
    if i < list.len() && !same_name(list[i].name@, name) {
        law_partition_of_name(list, name, i + 1);
    }
}

// ---------------------------------------------------------------------------
// Moments
// ---------------------------------------------------------------------------

/// A moment is packed as it is, up to the lowest bit of the seconds, if its year is one that
/// can be packed. Earlier years count as 1980, and those that 16 bits cannot hold as 2025.
pub proof fn law_moment(t: LocalTime)
    requires
        1 <= t.month <= 12,
        1 <= t.day <= 31,
        t.hour <= 23,
        t.minute <= 59,
        t.second <= 59,
    ensures
        ({
            let s = stamp_spec(t);
            let (y, m, d) = unpack_date(s.date);
            let (h, min, sec) = unpack_time(s.time);
            &&& 1980 <= t.year <= 2107 ==> y == t.year
            &&& 0 <= t.year < 1980 ==> y == 1980
            &&& t.year < 0 || t.year > 0xFFFF ==> y == 2025
            &&& m == t.month && d == t.day
            &&& h == t.hour && min == t.minute
            &&& sec <= t.second <= sec + 1 && sec % 2 == 0
        }),
{
    let year: u16 = if 0 <= t.year <= 0xFFFF { t.year as u16 } else { 2025 };
    let from: u16 = if year < 1980 { 1980 } else { year };
    let (month, day) = (t.month as u8, t.day as u8);
    lemma_packed_date(from, month, day);
    assert(pack_date(from, month, day) == pack_date(year, month, day));
    law_time_roundtrip(t.hour as u8, t.minute as u8, t.second as u8);
    assert(stamp_spec(t).date == pack_date(year, month, day));
    assert(stamp_spec(t).time == pack_time(t.hour as u8, t.minute as u8, t.second as u8));
}

proof fn lemma_packed_date(year: u16, month: u8, day: u8)
    requires
        1980 <= year,
        month <= 15,
        day <= 31,
    ensures
        ({
            let (y, m, d) = unpack_date(pack_date(year, month, day));
            &&& year <= 2107 ==> y == year
            &&& m == month && d == day
        }),
{
    let years = (year - 1980) % 128;
    let packed = years * 512 + month * 32 + day;
    assert(month % 16 == month && day % 32 == day);
    assert(pack_date(year, month, day) == packed);
    assert(packed / 512 == years);
    assert(packed / 32 % 16 == month);
    assert(packed % 32 == day);
}

// ---------------------------------------------------------------------------
// Numbers
// ---------------------------------------------------------------------------

/// What a character is worth as a digit: 0 to 9 by the digits, 10 to 15 by the letters of
/// either case, and 16 if it is no digit.
pub open spec fn rank(c: char) -> int {
    if 0x30 <= c as int <= 0x39 {
        c as int - 0x30
    } else if 0x41 <= c as int <= 0x46 {
        c as int - 0x41 + 10
    } else if 0x61 <= c as int <= 0x66 {
        c as int - 0x61 + 10
    } else {
        16
    }
}

/// What digits are worth together behind a number.
pub open spec fn value_behind(s: Seq<char>, radix: int, start: int) -> int
    decreases s.len(),
{
    if s.len() == 0 {
        start
    } else {
        value_behind(s.drop_last(), radix, start) * radix + rank(s.last())
    }
}

proof fn lemma_value_behind(s: Seq<char>, radix: int, start: int)
    requires
        s.len() > 0,
    ensures
        value_behind(s, radix, start) == value_behind(s.skip(1), radix, start * radix + rank(s[0])),
    decreases s.len(),
{
    if s.len() == 1 {
        assert(s.drop_last() =~= seq![]);
        assert(s.skip(1) =~= seq![]);
        assert(value_behind(s.drop_last(), radix, start) == start);
    } else {
        lemma_value_behind(s.drop_last(), radix, start);
        assert(s.drop_last().skip(1) =~= s.skip(1).drop_last());
        assert(s.skip(1).last() == s.last());
    }
}

/// Growing numbers do not shrink.
pub proof fn lemma_value_grows(s: Seq<char>, radix: int, start: int)
    requires
        radix >= 1,
        start >= 0,
        forall|i: int| 0 <= i < s.len() ==> rank(#[trigger] s[i]) < radix,
    ensures
        value_behind(s, radix, start) >= start,
    decreases s.len(),
{
    if s.len() > 0 {
        let r = s.drop_last();
        assert forall|i: int| 0 <= i < r.len() implies rank(#[trigger] r[i]) < radix by {
            assert(r[i] == s[i]);
        }
        lemma_value_grows(r, radix, start);
        let v = value_behind(r, radix, start);
        lemma_rank(s.last());
        assert(v * radix >= v) by (nonlinear_arith)
            requires
                v >= 0,
                radix >= 1,
        ;
    }
}

proof fn lemma_rank(c: char)
    ensures
        0 <= rank(c) <= 16,
{
}

proof fn lemma_digit(c: char, radix: int)
    requires
        radix == 10 || radix == 16,
    ensures
        rank(c) < radix ==> digit_value(c, radix) == Some(rank(c)),
        rank(c) >= radix ==> digit_value(c, radix) is None,
{
}

pub proof fn lemma_digits_from(s: Seq<char>, radix: int, max: int, start: int)
    requires
        radix == 10 || radix == 16,
        0 <= start <= max,
    ensures
        ({
            let r = digits_from(s, radix, max, start);
            let all = all_below(s, radix);
            &&& r is Ok <==> all && value_behind(s, radix, start) <= max
            &&& r is Ok ==> r->Ok_0 == value_behind(s, radix, start)
            &&& r is Err && all ==> r == Err::<int, NumberError>(NumberError::TooLarge)
            &&& r is Err ==> r->Err_0 != NumberError::Empty
        }),
    decreases s.len(),
{
    if s.len() > 0 {
        lemma_value_behind(s, radix, start);
        lemma_digit(s[0], radix);
        lemma_rank(s[0]);
        let rest = s.skip(1);
        let next = start * radix + rank(s[0]);
        assert(next >= 0) by (nonlinear_arith)
            requires
                start >= 0,
                radix >= 1,
                next == start * radix + rank(s[0]),
                rank(s[0]) >= 0,
        ;
        assert forall|i: int| 0 <= i < rest.len() implies rest[i] == #[trigger] s[i + 1] by {}
        let all = forall|i: int| 0 <= i < s.len() ==> rank(#[trigger] s[i]) < radix;
        let all_rest = forall|i: int| 0 <= i < rest.len() ==> rank(#[trigger] rest[i]) < radix;
        assert(all <==> rank(s[0]) < radix && all_rest) by {
            if rank(s[0]) < radix && all_rest {
                assert forall|i: int| 0 <= i < s.len() implies rank(#[trigger] s[i]) < radix by {
                    if i > 0 {
                        assert(rest[i - 1] == s[i]);
                    }
                }
            }
            if all {
                assert forall|i: int| 0 <= i < rest.len() implies rank(#[trigger] rest[i])
                    < radix by {
                    assert(rest[i] == s[i + 1]);
                }
            }
        }
        if rank(s[0]) < radix {
            if next <= max {
                lemma_digits_from(rest, radix, max, next);
            } else if all_rest {
                lemma_value_grows(rest, radix, next);
            }
        }
    }
}

/// All characters are digits of that radix.
pub open spec fn all_below(s: Seq<char>, radix: int) -> bool {
    forall|i: int| 0 <= i < s.len() ==> rank(#[trigger] s[i]) < radix
}

/// A text without the plus sign in front of it, if there is one.
pub open spec fn unsigned(s: Seq<char>) -> Seq<char> {
    if s.len() > 0 && s[0] == '+' {
        s.skip(1)
    } else {
        s
    }
}

/// What a text of digits stands for, with a plus sign in front or not: their value, if it is
/// not above the largest number. A text that holds anything else is no number.
pub proof fn law_number(s: Seq<char>, radix: int, max: int)
    requires
        radix == 10 || radix == 16,
        max >= 0,
    ensures
        ({
            let digits = unsigned(s);
            let all = digits.len() > 0 && all_below(digits, radix);
            let r = number_of(s, radix, max);
            &&& r is Ok <==> all && value_behind(digits, radix, 0) <= max
            &&& r is Ok ==> r->Ok_0 == value_behind(digits, radix, 0)
            &&& s.len() == 0 <==> r == Err::<int, NumberError>(NumberError::Empty)
            &&& all && value_behind(digits, radix, 0) > max ==> r == Err::<int, NumberError>(
                NumberError::TooLarge,
            )
            &&& s.len() > 0 && digits.len() == 0 ==> r == Err::<int, NumberError>(
                NumberError::InvalidDigit,
            )
        }),
{
    let digits = unsigned(s);
    lemma_digits_from(digits, radix, max, 0);
}

/// What a number on the command line stands for: behind `0x` or `0X` it is hexadecimal, else
/// decimal, of 64 bits in either case.
pub proof fn law_command_line_number(s: Seq<char>)
    ensures
        hex_or_dec(seq!['0', 'x'] + s) == number_of(s, 16, 0xFFFF_FFFF_FFFF_FFFF),
        hex_or_dec(seq!['0', 'X'] + s) == number_of(s, 16, 0xFFFF_FFFF_FFFF_FFFF),
        s.len() < 2 || s[0] != '0' || (s[1] != 'x' && s[1] != 'X') ==> hex_or_dec(s) == number_of(
            s,
            10,
            0xFFFF_FFFF_FFFF_FFFF,
        ),
{
    assert((seq!['0', 'x'] + s).skip(2) =~= s);
    assert((seq!['0', 'X'] + s).skip(2) =~= s);
}

// ---------------------------------------------------------------------------
// Sizes
// ---------------------------------------------------------------------------

/// The suffixes of sizes, each of either case and 1024 times the one before.
pub proof fn law_suffixes(c: char)
    ensures
        suffix_value(c) is Some <==> c == 'k' || c == 'K' || c == 'm' || c == 'M' || c == 'g' || c
            == 'G',
        suffix_value('k') == suffix_value('K') && suffix_value('K') == Some(1024u64),
        suffix_value('m') == suffix_value('M') && suffix_value('M')->0 == 1024
            * suffix_value('K')->0,
        suffix_value('g') == suffix_value('G') && suffix_value('G')->0 == 1024
            * suffix_value('M')->0,
{
}

/// The unit that a size is shown in, from 1024 bytes on.
pub open spec fn shown_unit(n: nat) -> nat {
    if n >= 1024 * 1024 * 1024 {
        1024 * 1024 * 1024
    } else if n >= 1024 * 1024 {
        1024 * 1024
    } else {
        1024
    }
}

/// How a size is shown: below 1024 all digits, and from there on in the largest unit that is not
/// larger, with one decimal. The number of tenths is given: there is none nearer.
///
/// Left out are sizes of 2 to the power of 53 and more, of which not all digits count.
pub proof fn law_shown_size(n: nat) -> (tenths: nat)
    requires
        n < 0x20_0000_0000_0000,
    ensures
        n < 1024 ==> bytes_text(n) == decimal(n) + " B"@,
        n >= 1024 ==> {
            let unit = shown_unit(n);
            let words = if unit == 1024 {
                " KB"@
            } else if unit == 1024 * 1024 {
                " MB"@
            } else {
                " GB"@
            };
            &&& bytes_text(n) == decimal(tenths / 10).push('.') + decimal(tenths % 10) + words
            &&& 2 * (10 * n - tenths * unit) <= unit
            &&& 2 * (tenths * unit - 10 * n) <= unit
            &&& 2 * (10 * n - tenths * unit) == unit || 2 * (tenths * unit - 10 * n) == unit
                ==> tenths % 2 == 0
        },
{
    let unit = shown_unit(n);
    assert(ulp(n) == 1);
    assert(double_precision(n) == n);
    let tenths = div_half_even(10 * n, unit);
    lemma_nearest(10 * n, unit);
    if n >= 1024 {
        let t = tenths % 10;
        assert(decimal(t) =~= seq![digit_char(t as int)]);
        assert(one_decimal(n, unit) =~= decimal(tenths / 10).push('.') + decimal(t));
    }
    tenths
}

/// Larger sizes are rounded to 53 binary digits first, to the nearest number that has no more.
/// That number and its tenths are given.
pub proof fn law_shown_large_size(n: nat) -> (r: (nat, nat))
    requires
        n >= 0x20_0000_0000_0000,
    ensures
        ({
            let (rounded, tenths) = r;
            let unit: nat = 1024 * 1024 * 1024;
            &&& 2 * (rounded - n) * 0x10_0000_0000_0000 <= n
            &&& 2 * (n - rounded) * 0x10_0000_0000_0000 <= n
            &&& bytes_text(n) == decimal(tenths / 10).push('.') + decimal(tenths % 10) + " GB"@
            &&& 2 * (10 * rounded - tenths * unit) <= unit
            &&& 2 * (tenths * unit - 10 * rounded) <= unit
        }),
{
    let unit: nat = 1024 * 1024 * 1024;
    let u = ulp(n);
    lemma_ulp(n);
    let rounded = double_precision(n);
    lemma_nearest(n, u);
    let tenths = div_half_even(10 * rounded, unit);
    lemma_nearest(10 * rounded, unit);
    let t = tenths % 10;
    assert(decimal(t) =~= seq![digit_char(t as int)]);
    assert(one_decimal(n, unit) =~= decimal(tenths / 10).push('.') + decimal(t));
    (rounded, tenths)
}

proof fn lemma_ulp(n: nat)
    requires
        n >= 0x20_0000_0000_0000,
    ensures
        ulp(n) >= 2,
        ulp(n) * 0x10_0000_0000_0000 <= n,
    decreases n,
{
    if n >= 0x40_0000_0000_0000 {
        lemma_ulp(n / 2);
    } else {
        assert(ulp(n / 2) == 1);
    }
}

proof fn lemma_nearest(a: nat, b: nat)
    requires
        b > 0,
    ensures
        ({
            let q = div_half_even(a, b);
            &&& 2 * (a - q * b) <= b
            &&& 2 * (q * b - a) <= b
            &&& 2 * (a - q * b) == b || 2 * (q * b - a) == b ==> q % 2 == 0
        }),
{
    let q = a / b;
    let r = a % b;
    vstd::arithmetic::div_mod::lemma_fundamental_div_mod(a as int, b as int);
    assert(q * b == b * q) by (nonlinear_arith);
    assert((q + 1) * b == q * b + b) by (nonlinear_arith);
}

// ---------------------------------------------------------------------------
// Images
// ---------------------------------------------------------------------------

/// A new image can be made if it has 2 MiB or more, its format is known, its clusters have 1, 2,
/// 4 and so on up to 128 sectors, and no file is in the way.
pub proof fn law_images_that_can_be_made(
    size: u64,
    format: Seq<char>,
    spc: u32,
    output: Seq<char>,
    in_the_way: bool,
)
    ensures
        ({
            let name = lowercase_text(format);
            let of_first = name == "fatx"@ || name == "xbox"@;
            let of_second = name == "xtaf"@ || name == "360"@ || name == "xbox360"@;
            let r = image_choice(size, format, spc, output, in_the_way);
            &&& r is Ok <==> size >= 2 * 1024 * 1024 && (of_first || of_second) && small_power(spc as int)
                && !in_the_way
            &&& r is Ok && of_first ==> !r->Ok_0
            &&& r is Ok && of_second ==> r->Ok_0
            &&& r is Err && size >= 2 * 1024 * 1024 && (of_first || of_second) && small_power(spc as int)
                ==> r == Err::<bool, Seq<char>>(
                "Output file '"@ + output + "' already exists. Use --force to overwrite."@,
            )
        }),
{
    reveal_strlit("fatx");
    reveal_strlit("xbox");
    reveal_strlit("xtaf");
    reveal_strlit("360");
    reveal_strlit("xbox360");
    lemma_small_power(spc);
    assert("fatx"@[0] != "xtaf"@[0]);
    assert("xbox"@[1] != "xtaf"@[1]);
    assert("fatx"@.len() != "360"@.len() && "fatx"@.len() != "xbox360"@.len());
    assert("xbox"@.len() != "360"@.len() && "xbox"@.len() != "xbox360"@.len());
}

/// Why a new image cannot be made, in words: the first of the reasons that holds.
pub proof fn law_images_that_cannot_be_made(
    size: u64,
    format: Seq<char>,
    spc: u32,
    output: Seq<char>,
    in_the_way: bool,
)
    ensures
        ({
            let name = lowercase_text(format);
            let known = name == "fatx"@ || name == "xbox"@ || name == "xtaf"@ || name == "360"@
                || name == "xbox360"@;
            let r = image_choice(size, format, spc, output, in_the_way);
            &&& size < 2 * 1024 * 1024 ==> r == Err::<bool, Seq<char>>(
                "Image size "@ + bytes_text(size as nat) + " is too small (minimum "@ + bytes_text(
                    2 * 1024 * 1024,
                ) + ")"@,
            )
            &&& size >= 2 * 1024 * 1024 && !known ==> r == Err::<bool, Seq<char>>(
                "Unknown format '"@ + name + "'. Use 'fatx' or 'xtaf'."@,
            )
            &&& size >= 2 * 1024 * 1024 && known && !small_power(spc as int) ==> r == Err::<
                bool,
                Seq<char>,
            >(
                "Sectors per cluster must be a power of 2 between 1 and 128, got "@ + decimal(
                    spc as nat,
                ),
            )
        }),
{
    lemma_small_power(spc);
}

/// The superblock of a new volume, byte for byte: the magic word, the identifier, the sectors in
/// a cluster, one copy of the table, and zeros up to 4096 bytes.
pub proof fn law_superblock(is_xtaf: bool, volume_id: u32, spc: u32, i: int)
    ensures
        ({
            let b = superblock_bytes(is_xtaf, volume_id, spc);
            &&& b.len() == 4096
            &&& magic_at(b, 0, is_xtaf)
            &&& word_at(b, 4, is_xtaf) == volume_id
            &&& word_at(b, 8, is_xtaf) == spc
            &&& short_at(b, 12, is_xtaf) == 1
            &&& 14 <= i < 4096 ==> b[i] == 0
        }),
{
}

/// A device can be formatted if it can hold the volume, and the volume has clusters. One that
/// cannot hold it stays as it is.
pub proof fn law_formatting_granted(
    bytes: Seq<u8>,
    capacity: nat,
    size: u64,
    is_xtaf: bool,
    spc: u32,
    volume_id: u32,
)
    requires
        size >= 2 * 1024 * 1024,
        1 <= spc <= 128,
        geometry(0, is_xtaf, size as int, spc).total_clusters >= 1,
    ensures
        ({
            let (b, r) = format_result(bytes, capacity, size, is_xtaf, spc, volume_id);
            &&& r is Ok <==> size <= capacity
            &&& r is Ok ==> b.len() == size && b == formatted_bytes(
                bytes,
                size,
                is_xtaf,
                spc,
                volume_id,
            )
            &&& r is Err ==> b == bytes && r == Err::<(), ErrView>(ErrView::Io(IoKind::OutOfSpace))
        }),
{
    lemma_formatted_places(bytes, size, is_xtaf, spc, volume_id);
}

// ---------------------------------------------------------------------------
// Mounts
// ---------------------------------------------------------------------------

/// A volume is mounted at the port that it is served at.
pub proof fn law_mount_options(port: u16)
    ensures
        ({
            let head =
                "nolocks,noresvport,vers=3,tcp,rsize=131072,wsize=131072,actimeo=2,intr,soft,retrans=2,timeo=10,port="@;
            let digits = decimal(port as nat);
            &&& reading(digits, 10) == port
            &&& mount_options_text(port) == head + digits + ",mountport="@ + digits
        }),
{
    law_decimal(port as nat);
}

/// `pat` is in `s` at place `i`.
pub open spec fn is_at(s: Seq<char>, pat: Seq<char>, i: int) -> bool {
    0 <= i <= s.len() - pat.len() && forall|j: int|
        0 <= j < pat.len() ==> s[i + j] == #[trigger] pat[j]
}

proof fn lemma_is_at(s: Seq<char>, pat: Seq<char>, i: int)
    ensures
        is_at(s, pat, i) <==> stands_at(s, pat, i),
{
    if is_at(s, pat, i) {
        assert(s.subrange(i, i + pat.len()) =~= pat);
    }
    if stands_at(s, pat, i) {
        assert forall|j: int| 0 <= j < pat.len() implies s[i + j] == #[trigger] pat[j] by {
            assert(s.subrange(i, i + pat.len())[j] == s[i + j]);
        }
    }
}

/// Where a pattern is found: at the first place where it is.
proof fn lemma_found_first(s: Seq<char>, pat: Seq<char>, i: int)
    requires
        0 <= i,
    ensures
        match find_from(s, pat, i) {
            Some(k) => i <= k && is_at(s, pat, k) && forall|m: int|
                i <= m < k ==> !#[trigger] is_at(s, pat, m),
            None => forall|m: int| i <= m ==> !#[trigger] is_at(s, pat, m),
        },
    decreases s.len() - i,
{
    lemma_is_at(s, pat, i);
    if i + pat.len() <= s.len() && !stands_at(s, pat, i) && i < s.len() {
        lemma_found_first(s, pat, i + 1);
    }
}

proof fn lemma_before_options(s: Seq<char>, n: int, k: int)
    requires
        0 <= k < n <= s.len(),
        is_at(s, " ("@, k),
        forall|m: int| k < m ==> !#[trigger] is_at(s, " ("@, m),
    ensures
        before_options(s, n) == s.take(k),
    decreases n,
{
    lemma_is_at(s, " ("@, n - 1);
    if n - 1 > k {
        assert(!is_at(s, " ("@, n - 1));
        lemma_before_options(s, n - 1, k);
    }
}

proof fn lemma_last_word(s: Seq<char>, word: Seq<char>)
    requires
        forall|i: int| 0 <= i < word.len() ==> #[trigger] word[i] != ' ',
    ensures
        last_word(s.push(' ') + word) == word,
    decreases word.len(),
{
    let all = s.push(' ') + word;
    if word.len() == 0 {
        assert(all.last() == ' ');
        assert(word =~= seq![]);
    } else {
        let short = word.drop_last();
        assert forall|i: int| 0 <= i < short.len() implies #[trigger] short[i] != ' ' by {
            assert(short[i] == word[i]);
        }
        lemma_last_word(s, short);
        assert(all.drop_last() =~= s.push(' ') + short);
        assert(all.last() == word.last());
        assert(word[word.len() - 1] != ' ');
        assert(short.push(word.last()) =~= word);
    }
}

/// Where a line of the table of mounts says that something is mounted: what stands between the
/// first " on " and the kind of file system, with all its spaces. Nothing counts that this
/// machine does not serve.
pub proof fn law_mounted_place(head: Seq<char>, place: Seq<char>, kind: Seq<char>, options: Seq<char>)
    requires
        place.len() > 0,
        kind.len() > 0,
        forall|i: int| 0 <= i < kind.len() ==> #[trigger] kind[i] != ' ',
        ({
            let line = head + " on "@ + place + " type "@ + kind + " ("@ + options;
            &&& forall|i: int| 0 <= i < head.len() ==> !#[trigger] is_at(line, " on "@, i)
            &&& forall|i: int|
                head.len() + place.len() + kind.len() + 10 < i ==> !#[trigger] is_at(
                    line,
                    " ("@,
                    i,
                )
        }),
    ensures
        ({
            let line = head + " on "@ + place + " type "@ + kind + " ("@ + options;
            let served = exists|i: int|
                #[trigger] is_at(line, "localhost"@, i) || is_at(line, "127.0.0.1"@, i);
            &&& served ==> local_mount(line) == Some(place)
            &&& !served ==> local_mount(line) is None
        }),
{
    reveal_strlit(" on ");
    reveal_strlit(" type ");
    reveal_strlit(" (");
    let line = head + " on "@ + place + " type "@ + kind + " ("@ + options;
    lemma_found_first(line, "localhost"@, 0);
    lemma_found_first(line, "127.0.0.1"@, 0);
    lemma_found_first(line, " on "@, 0);
    let served = exists|i: int|
        #[trigger] is_at(line, "localhost"@, i) || is_at(line, "127.0.0.1"@, i);
    if find_from(line, "127.0.0.1"@, 0) is Some {
        let k = find_from(line, "127.0.0.1"@, 0)->0;
        let trigger_it = is_at(line, "localhost"@, k);
    }
    if find_from(line, "localhost"@, 0) is Some {
        let k = find_from(line, "localhost"@, 0)->0;
        assert(is_at(line, "localhost"@, k));
    }
    assert(is_at(line, " on "@, head.len() as int));
    let k = find_from(line, " on "@, 0)->0;
    assert(k == head.len());
    let rest = line.skip(k + 4);
    let full = place + " type "@ + kind;
    assert(rest =~= full + " ("@ + options);
    let at = full.len() as int;
    assert(is_at(rest, " ("@, at));
    assert forall|m: int| at < m implies !#[trigger] is_at(rest, " ("@, m) by {
        if is_at(rest, " ("@, m) {
            assert(is_at(line, " ("@, m + k + 4));
        }
    }
    lemma_before_options(rest, rest.len() as int, at);
    assert(rest.take(at) =~= full);
    let typed = place + seq![' ', 't', 'y', 'p', 'e'];
    assert(full =~= typed.push(' ') + kind);
    lemma_last_word(typed, kind);
    let cut = full.len() - kind.len() - 6;
    assert(full.subrange(cut, cut + 6) =~= " type "@);
    assert(stands_at(full, " type "@, cut));
    assert(full.take(cut) =~= place);
}

/// The same for a line that names no kind of file system.
pub proof fn law_mounted_place_alone(head: Seq<char>, place: Seq<char>, options: Seq<char>)
    requires
        place.len() > 0,
        ({
            let line = head + " on "@ + place + " ("@ + options;
            &&& forall|i: int| 0 <= i < head.len() ==> !#[trigger] is_at(line, " on "@, i)
            &&& forall|i: int|
                head.len() + place.len() + 4 < i ==> !#[trigger] is_at(line, " ("@, i)
        }),
        forall|i: int| !#[trigger] is_at(place, " type "@, i),
    ensures
        ({
            let line = head + " on "@ + place + " ("@ + options;
            let served = exists|i: int|
                #[trigger] is_at(line, "localhost"@, i) || is_at(line, "127.0.0.1"@, i);
            &&& served ==> local_mount(line) == Some(place)
            &&& !served ==> local_mount(line) is None
        }),
{
    reveal_strlit(" on ");
    reveal_strlit(" type ");
    reveal_strlit(" (");
    let line = head + " on "@ + place + " ("@ + options;
    lemma_found_first(line, "localhost"@, 0);
    lemma_found_first(line, "127.0.0.1"@, 0);
    lemma_found_first(line, " on "@, 0);
    if find_from(line, "127.0.0.1"@, 0) is Some {
        let k = find_from(line, "127.0.0.1"@, 0)->0;
        let trigger_it = is_at(line, "localhost"@, k);
    }
    if find_from(line, "localhost"@, 0) is Some {
        let k = find_from(line, "localhost"@, 0)->0;
        assert(is_at(line, "localhost"@, k));
    }
    assert(is_at(line, " on "@, head.len() as int));
    let k = find_from(line, " on "@, 0)->0;
    assert(k == head.len());
    let rest = line.skip(k + 4);
    assert(rest =~= place + " ("@ + options);
    let at = place.len() as int;
    assert(is_at(rest, " ("@, at));
    assert forall|m: int| at < m implies !#[trigger] is_at(rest, " ("@, m) by {
        if is_at(rest, " ("@, m) {
            assert(is_at(line, " ("@, m + k + 4));
        }
    }
    lemma_before_options(rest, rest.len() as int, at);
    assert(rest.take(at) =~= place);
    let cut = place.len() - last_word(place).len() - 6;
    lemma_is_at(place, " type "@, cut);
    assert(!is_at(place, " type "@, cut));
}

/// The lines of a text: what stands before the first line feed, without a carriage return at its
/// end, and then those of the rest. What no line feed ends is a line too, unless it is empty.
pub proof fn law_lines(line: Seq<char>, rest: Seq<char>)
    requires
        forall|i: int| 0 <= i < line.len() ==> #[trigger] line[i] != '\n',
    ensures
        lines_of(seq![]) == Seq::<Seq<char>>::empty(),
        line.len() > 0 ==> lines_of(line) == seq![line],
        line.len() == 0 || line.last() != '\r' ==> lines_of(line.push('\n') + rest) == seq![line]
            + lines_of(rest),
        lines_of(line.push('\r').push('\n') + rest) == seq![line] + lines_of(rest),
{
    lemma_up_to_end(line, seq![]);
    assert(line + Seq::<char>::empty() =~= line);
    let a = line.push('\n') + rest;
    lemma_up_to_end(line, seq!['\n'] + rest);
    assert(a =~= line + (seq!['\n'] + rest));
    assert(a.skip(line.len() as int + 1) =~= rest);
    let with = line.push('\r');
    let b = with.push('\n') + rest;
    assert forall|i: int| 0 <= i < with.len() implies #[trigger] with[i] != '\n' by {
        if i < line.len() {
            assert(with[i] == line[i]);
        }
    }
    lemma_up_to_end(with, seq!['\n'] + rest);
    assert(b =~= with + (seq!['\n'] + rest));
    assert(b.skip(with.len() as int + 1) =~= rest);
    assert(with.drop_last() =~= line);
}

proof fn lemma_up_to_end(line: Seq<char>, rest: Seq<char>)
    requires
        forall|i: int| 0 <= i < line.len() ==> #[trigger] line[i] != '\n',
        rest.len() == 0 || rest[0] == '\n',
    ensures
        up_to(line + rest, '\n') == line,
    decreases line.len(),
{
    let all = line + rest;
    if line.len() == 0 {
        assert(all =~= rest);
        assert(line =~= seq![]);
    } else {
        let tail = line.skip(1);
        assert forall|i: int| 0 <= i < tail.len() implies #[trigger] tail[i] != '\n' by {
            assert(tail[i] == line[i + 1]);
        }
        lemma_up_to_end(tail, rest);
        assert(all.skip(1) =~= tail + rest);
        assert(seq![line[0]] + tail =~= line);
    }
}

} // verus!
