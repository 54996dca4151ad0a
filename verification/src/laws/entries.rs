//! Laws of directories: what the bytes of an entry mean, which entries a directory lists, and
//! what a path leads to.

use vstd::prelude::*;
use vstd::utf8::{
    decode_utf8, encode_utf8, encode_utf8_decode_utf8, encode_utf8_valid_utf8, is_ascii_chars,
    is_ascii_chars_encode_utf8, valid_utf8,
};
use crate::disk::{
    dirent_bytes, find_entry, new_entry, parse_dirent, root_entry, validate_name, Disk, Stamp,
};
use crate::dirent::law_dirent_roundtrip;
use crate::error::ErrView;
use crate::laws::creation::{lemma_filter_all, lemma_new_entry, lemma_resolve_push};
use crate::laws::shape::{short_at, word_at};
use crate::notation::law_path_steps;
use crate::path::{name_of, parts};
use crate::text::same_name;
use crate::types::{is_name_byte, name_bytes, DirentView};

verus! {

// ---------------------------------------------------------------------------
// The bytes of an entry
// ---------------------------------------------------------------------------

/// What the 64 bytes of an entry mean, by their places. Each stamp is a time and a date, in this
/// order on FATX, the other way round on XTAF. Of the attributes the low six bits count.
pub proof fn law_entry_places(big_endian: bool, raw: Seq<u8>)
    requires
        raw.len() == 64,
    ensures
        ({
            let e = parse_dirent(big_endian, raw);
            let n = |at: int| short_at(raw, at, big_endian);
            &&& e.filename_len == raw[0]
            &&& e.attributes.bits == raw[1] % 64
            &&& e.filename_raw == raw.subrange(2, 44)
            &&& e.first_cluster == word_at(raw, 44, big_endian)
            &&& e.file_size == word_at(raw, 48, big_endian)
            &&& !big_endian ==> {
                &&& e.creation_time == n(52) && e.creation_date == n(54)
                &&& e.write_time == n(56) && e.write_date == n(58)
                &&& e.access_time == n(60) && e.access_date == n(62)
            }
            &&& big_endian ==> {
                &&& e.creation_date == n(52) && e.creation_time == n(54)
                &&& e.write_date == n(56) && e.write_time == n(58)
                &&& e.access_date == n(60) && e.access_time == n(62)
            }
        }),
{
    let a = raw[1];
    assert(a & 0x3F == a % 64) by (bit_vector);
    assert forall|i: int| 44 <= i <= 62 implies {
        &&& (#[trigger] raw.subrange(i, i + 2))[0] == raw[i]
        &&& raw.subrange(i, i + 2)[1] == raw[i + 1]
    } by {}
    assert forall|i: int| 44 <= i <= 60 implies {
        &&& (#[trigger] raw.subrange(i, i + 4))[0] == raw[i]
        &&& raw.subrange(i, i + 4)[1] == raw[i + 1]
        &&& raw.subrange(i, i + 4)[2] == raw[i + 2]
        &&& raw.subrange(i, i + 4)[3] == raw[i + 3]
    } by {}
}

/// What is stored for an entry is 64 bytes that mean it.
pub proof fn law_entry_stored(big_endian: bool, e: DirentView)
    requires
        e.filename_raw.len() == 42,
        e.attributes.bits < 64,
    ensures
        dirent_bytes(big_endian, e).len() == 64,
        parse_dirent(big_endian, dirent_bytes(big_endian, e)) == e,
        dirent_bytes(big_endian, e)[1] == e.attributes.bits,
{
    let a = e.attributes.bits;
    assert(a < 64 ==> a & 0x3F == a) by (bit_vector);
    law_dirent_roundtrip(big_endian, e);
}

/// What an entry is: a directory if the fifth bit of its attributes is set, deleted if its name
/// has the length 0xE5, and the end of its directory if that is 0 or 0xFF.
pub proof fn law_entry_kinds(e: DirentView)
    ensures
        e.is_directory() <==> e.attributes.bits / 16 % 2 == 1,
        e.is_deleted() <==> e.filename_len == 0xE5,
        e.is_end() <==> e.filename_len == 0 || e.filename_len == 0xFF,
{
    let a = e.attributes.bits;
    assert(a & 0x10 == 0x10 <==> a / 16 % 2 == 1) by (bit_vector);
}

/// The name of an entry: where the bytes that its length counts, at most 42, are all ASCII, the
/// characters of these bytes.
pub proof fn law_entry_name(e: DirentView, n: int)
    requires
        e.filename_raw.len() == 42,
        n == (if e.filename_len < 42 { e.filename_len as int } else { 42 }),
        forall|i: int| 0 <= i < n ==> 1 <= #[trigger] e.filename_raw[i] <= 0x7F,
    ensures
        e.filename().len() == n,
        forall|i: int| 0 <= i < n ==> #[trigger] e.filename()[i] as int == e.filename_raw[i],
{
    let b = e.filename_raw.take(n);
    let name = Seq::new(n as nat, |i: int| e.filename_raw[i] as char);
    assert forall|i: int| 0 <= i < n implies #[trigger] name[i] as int == e.filename_raw[i] by {
        assert(1 <= e.filename_raw[i] <= 0x7F);
    }
    assert(is_ascii_chars(name)) by {
        assert forall|i: int| 0 <= i < name.len() implies '\0' <= #[trigger] name[i] <= '\u{7f}' by {
            assert(name[i] as int == e.filename_raw[i]);
            assert(1 <= e.filename_raw[i] <= 0x7F);
        }
    }
    is_ascii_chars_encode_utf8(name);
    let c = encode_utf8(name);
    assert(c =~= b) by {
        assert forall|i: int| 0 <= i < n implies c[i] == b[i] by {
            assert(c[i] == name[i] as u8);
            assert(name[i] as int == e.filename_raw[i]);
        }
    }
    let keep = |x: u8| is_name_byte(x);
    assert forall|i: int| 0 <= i < b.len() implies keep(#[trigger] b[i]) by {
        assert(1 <= e.filename_raw[i] <= 0x7F);
    }
    lemma_filter_all(b, keep);
    assert(name_bytes(e.filename_len, e.filename_raw) == b);
    encode_utf8_valid_utf8(name);
    encode_utf8_decode_utf8(name);
    assert(e.filename() == name);
}

/// Bytes without those that pad a name, zeros and 0xFF.
pub open spec fn unpadded(b: Seq<u8>) -> Seq<u8>
    decreases b.len(),
{
    if b.len() == 0 {
        b
    } else if b.last() == 0 || b.last() == 0xFF {
        unpadded(b.drop_last())
    } else {
        unpadded(b.drop_last()).push(b.last())
    }
}

proof fn lemma_unpadded(b: Seq<u8>)
    ensures
        b.filter(|x: u8| is_name_byte(x)) == unpadded(b),
    decreases b.len(),
{
    reveal(Seq::filter);
    if b.len() > 0 {
        lemma_unpadded(b.drop_last());
    }
}

/// The name of any entry: the text of the bytes that its length counts, at most 42, without
/// those that pad it, if they are text.
pub proof fn law_name_in_bytes(e: DirentView, n: int)
    requires
        e.filename_raw.len() == 42,
        n == (if e.filename_len < 42 { e.filename_len as int } else { 42 }),
    ensures
        ({
            let b = unpadded(e.filename_raw.take(n));
            valid_utf8(b) ==> e.filename() == decode_utf8(b)
        }),
{
    lemma_unpadded(e.filename_raw.take(n));
}

/// The entry of something new: it has the name, the attributes, the first cluster and the size
/// it was given, and all its stamps are the moment it was made.
pub proof fn law_new_entry(
    name: Seq<char>,
    attributes: u8,
    first_cluster: u32,
    file_size: u32,
    now: Stamp,
)
    requires
        1 <= name.len() <= 42,
        forall|i: int| 0 <= i < name.len() ==> 1 <= #[trigger] name[i] as int <= 0x7F,
        attributes < 64,
    ensures
        ({
            let e = new_entry(name, attributes, first_cluster, file_size, now);
            &&& e.filename() == name
            &&& e.filename_len == name.len()
            &&& e.filename_raw.len() == 42
            &&& e.attributes.bits == attributes
            &&& e.first_cluster == first_cluster
            &&& e.file_size == file_size
            &&& e.creation_date == now.date && e.creation_time == now.time
            &&& e.write_date == now.date && e.write_time == now.time
            &&& e.access_date == now.date && e.access_time == now.time
        }),
{
    law_names(name);
    assert(attributes < 64 ==> attributes & 0x3F == attributes) by (bit_vector);
    lemma_new_entry(name, attributes, first_cluster, file_size, now);
    lemma_ascii_len(name);
}

// ---------------------------------------------------------------------------
// Names
// ---------------------------------------------------------------------------

proof fn lemma_ascii_len(name: Seq<char>)
    requires
        forall|i: int| 0 <= i < name.len() ==> 1 <= #[trigger] name[i] as int <= 0x7F,
    ensures
        encode_utf8(name).len() == name.len(),
{
    assert(is_ascii_chars(name)) by {
        assert forall|i: int| 0 <= i < name.len() implies '\0' <= #[trigger] name[i] <= '\u{7f}' by {
            assert(1 <= name[i] as int <= 0x7F);
        }
    }
    is_ascii_chars_encode_utf8(name);
}

proof fn lemma_bad_char(c: char)
    ensures
        crate::disk::is_bad_char(c) <==> !(1 <= c as int <= 0x7F),
{
}

proof fn lemma_bad_char_found(name: Seq<char>, i: int)
    requires
        0 <= i <= name.len(),
    ensures
        crate::disk::first_bad_char(name, i) is None <==> forall|k: int|
            i <= k < name.len() ==> 1 <= #[trigger] name[k] as int <= 0x7F,
        crate::disk::first_bad_char(name, i) matches Some(c) ==> !(1 <= c as int <= 0x7F),
    decreases name.len() - i,
{
    if i < name.len() {
        lemma_bad_char_found(name, i + 1);
        let c = name[i];
        lemma_bad_char(c);
        if !crate::disk::is_bad_char(c) {
            if crate::disk::first_bad_char(name, i + 1) is None {
                assert forall|k: int| i <= k < name.len() implies 1 <= #[trigger] name[k] as int
                    <= 0x7F by {
                    if k > i {
                        assert(1 <= name[k] as int <= 0x7F);
                    }
                }
            }
        } else {
            assert(!(1 <= name[i] as int <= 0x7F));
        }
    }
}

/// Which names can be given to something new: those of 1 to 42 characters from U+0001 to
/// U+007F, all of them, and no others.
pub proof fn law_names(name: Seq<char>)
    ensures
        validate_name(name) is Ok <==> {
            &&& 1 <= name.len() <= 42
            &&& forall|i: int| 0 <= i < name.len() ==> 1 <= #[trigger] name[i] as int <= 0x7F
        },
{
    lemma_bad_char_found(name, 0);
    if forall|i: int| 0 <= i < name.len() ==> 1 <= #[trigger] name[i] as int <= 0x7F {
        lemma_ascii_len(name);
    }
}

/// Why a name is refused: it is empty or takes more than 42 bytes, or it holds a character that
/// names cannot hold.
pub proof fn law_refused_names(name: Seq<char>)
    ensures
        validate_name(name) matches Err(e) ==> {
            let n = encode_utf8(name).len();
            ||| e == ErrView::FilenameTooLong(n, 42) && n > 42
            ||| e == ErrView::FilenameTooLong(0, 42) && name.len() == 0
            ||| n <= 42 && name.len() > 0 && exists|i: int|
                0 <= i < name.len() && !(1 <= name[i] as int <= 0x7F) && e
                    == ErrView::InvalidFilenameChar(#[trigger] name[i]) && forall|k: int|
                    0 <= k < i ==> 1 <= #[trigger] name[k] as int <= 0x7F
        },
{
    if name.len() > 0 && encode_utf8(name).len() <= 42 && validate_name(name) is Err {
        let i = lemma_bad_char_place(name, 0);
        assert(!(1 <= name[i] as int <= 0x7F));
    }
}

proof fn lemma_bad_char_place(name: Seq<char>, i: int) -> (p: int)
    requires
        0 <= i <= name.len(),
        crate::disk::first_bad_char(name, i) is Some,
    ensures
        i <= p < name.len(),
        crate::disk::first_bad_char(name, i) == Some(name[p]),
        !(1 <= name[p] as int <= 0x7F),
        forall|k: int| i <= k < p ==> 1 <= #[trigger] name[k] as int <= 0x7F,
    decreases name.len() - i,
{
    let c = name[i];
    lemma_bad_char(c);
    if crate::disk::is_bad_char(c) {
        i
    } else {
        lemma_bad_char_place(name, i + 1)
    }
}

// ---------------------------------------------------------------------------
// Listings
// ---------------------------------------------------------------------------

/// The slot `b` comes later than the slot `a`.
pub open spec fn later(a: (int, int), b: (int, int)) -> bool {
    a.0 < b.0 || a.0 == b.0 && a.1 < b.1
}

/// The slot is one of the directory, and starts with another byte than 0 and 0xFF, as do all
/// slots before it from `from` on.
pub open spec fn before_end(d: Disk, chain: Seq<u32>, from: (int, int), at: (int, int)) -> bool {
    &&& 0 <= at.0 < chain.len()
    &&& 0 <= at.1 < d.geo.slots()
    &&& !later(at, from)
    &&& forall|i: int, j: int|
        #![trigger d.slot(chain, i, j, 64)]
        0 <= i < chain.len() && 0 <= j < d.geo.slots() && !later((i, j), from) && !later(at, (i, j))
            ==> d.slot(chain, i, j, 64) is Ok && d.slot(chain, i, j, 64)->Ok_0[0] != 0 && d.slot(
            chain,
            i,
            j,
            64,
        )->Ok_0[0] != 0xFF
}

/// The entries are those in the slots `places`: in order, none of them deleted, and none left
/// out but those that are.
pub open spec fn listed_from(
    d: Disk,
    chain: Seq<u32>,
    from: (int, int),
    entries: Seq<DirentView>,
    places: Seq<(int, int)>,
) -> bool {
    &&& places.len() == entries.len()
    &&& forall|k: int|
        #![trigger places[k]]
        0 <= k < places.len() ==> {
            let raw = d.slot(chain, places[k].0, places[k].1, 64)->Ok_0;
            &&& before_end(d, chain, from, places[k])
            &&& raw[0] != 0xE5
            &&& entries[k] == parse_dirent(d.geo.big_endian, raw)
        }
    &&& forall|k: int, m: int| 0 <= k < m < places.len() ==> later(places[k], places[m])
    &&& forall|at: (int, int)|
        #![trigger before_end(d, chain, from, at)]
        before_end(d, chain, from, at) && d.slot(chain, at.0, at.1, 64)->Ok_0[0] != 0xE5
            ==> places.contains(at)
}

/// Starting at the end of a cluster is starting with the next one.
pub proof fn lemma_next_cluster(d: Disk, chain: Seq<u32>, i: int, j: int, at: (int, int))
    requires
        0 <= i,
        j >= d.geo.slots(),
    ensures
        before_end(d, chain, (i, j), at) == before_end(d, chain, (i + 1, 0), at),
{
    if 0 <= at.0 < chain.len() && 0 <= at.1 < d.geo.slots() {
        assert(later(at, (i, j)) == later(at, (i + 1, 0)));
        assert forall|a: int, b: int| 0 <= b < d.geo.slots() implies later((a, b), (i, j)) == later(
            (a, b),
            (i + 1, 0),
        ) by {}
    }
}

/// Starting with a slot that does not end the directory is starting with the next slot, but for
/// that slot.
pub proof fn lemma_next_slot(d: Disk, chain: Seq<u32>, i: int, j: int, at: (int, int))
    requires
        0 <= i < chain.len(),
        0 <= j < d.geo.slots(),
        d.slot(chain, i, j, 64) is Ok,
        d.slot(chain, i, j, 64)->Ok_0[0] != 0,
        d.slot(chain, i, j, 64)->Ok_0[0] != 0xFF,
    ensures
        before_end(d, chain, (i, j), at) <==> at == (i, j) || before_end(d, chain, (i, j + 1), at),
{
    if before_end(d, chain, (i, j), at) && at != (i, j) {
        assert(!later(at, (i, j + 1)));
    }
    if before_end(d, chain, (i, j + 1), at) {
        assert forall|a: int, b: int|
            #![trigger d.slot(chain, a, b, 64)]
            0 <= a < chain.len() && 0 <= b < d.geo.slots() && !later((a, b), (i, j)) && !later(
                at,
                (a, b),
            ) implies d.slot(chain, a, b, 64) is Ok && d.slot(chain, a, b, 64)->Ok_0[0] != 0
            && d.slot(chain, a, b, 64)->Ok_0[0] != 0xFF by {
            if !(a == i && b == j) {
                assert(!later((a, b), (i, j + 1)));
            }
        }
    }
}

proof fn lemma_listed(d: Disk, chain: Seq<u32>, i: int, j: int) -> (places: Seq<(int, int)>)
    requires
        0 <= i,
        0 <= j,
        d.entries_from(chain, i, j) is Ok,
    ensures
        listed_from(d, chain, (i, j), d.entries_from(chain, i, j)->Ok_0, places),
    decreases chain.len() - i, d.geo.slots() - j,
{
    if i >= chain.len() {
        assert forall|at: (int, int)| !(#[trigger] before_end(d, chain, (i, j), at)) by {}
        seq![]
    } else if j >= d.geo.slots() {
        let places = lemma_listed(d, chain, i + 1, 0);
        assert forall|at: (int, int)| #[trigger]
            before_end(d, chain, (i, j), at) == before_end(d, chain, (i + 1, 0), at) by {
            lemma_next_cluster(d, chain, i, j, at);
        }
        assert forall|k: int|
            #![trigger places[k]]
            0 <= k < places.len() implies before_end(d, chain, (i, j), places[k]) by {
            lemma_next_cluster(d, chain, i, j, places[k]);
        }
        places
    } else {
        let raw = d.slot(chain, i, j, 64)->Ok_0;
        assert(d.slot(chain, i, j, 64) is Ok);
        if raw[0] == 0 || raw[0] == 0xFF {
            assert forall|at: (int, int)| !(#[trigger] before_end(d, chain, (i, j), at)) by {
                if before_end(d, chain, (i, j), at) {
                    assert(!later((i, j), (i, j)));
                    assert(!later(at, (i, j)));
                    assert(d.slot(chain, i, j, 64)->Ok_0[0] != 0);
                }
            }
            seq![]
        } else {
            let rest = lemma_listed(d, chain, i, j + 1);
            let old = d.entries_from(chain, i, j + 1)->Ok_0;
            let here = (i, j);
            let places = if raw[0] == 0xE5 {
                rest
            } else {
                seq![here] + rest
            };
            let all = d.entries_from(chain, i, j)->Ok_0;
            assert forall|at: (int, int)| #[trigger]
                before_end(d, chain, here, at) <==> at == here || before_end(
                    d,
                    chain,
                    (i, j + 1),
                    at,
                ) by {
                lemma_next_slot(d, chain, i, j, at);
            }
            assert forall|k: int|
                #![trigger places[k]]
                0 <= k < places.len() implies {
                let r = d.slot(chain, places[k].0, places[k].1, 64)->Ok_0;
                &&& before_end(d, chain, here, places[k])
                &&& r[0] != 0xE5
                &&& all[k] == parse_dirent(d.geo.big_endian, r)
            } by {
                if raw[0] == 0xE5 {
                    assert(rest[k] == places[k]);
                    assert(before_end(d, chain, (i, j + 1), rest[k]));
                } else if k > 0 {
                    assert(rest[k - 1] == places[k]);
                    assert(before_end(d, chain, (i, j + 1), rest[k - 1]));
                    assert(all[k] == old[k - 1]);
                } else {
                    lemma_next_slot(d, chain, i, j, here);
                }
                lemma_next_slot(d, chain, i, j, places[k]);
            }
            assert forall|k: int, m: int| 0 <= k < m < places.len() implies later(
                places[k],
                places[m],
            ) by {
                if raw[0] != 0xE5 {
                    if k == 0 {
                        assert(before_end(d, chain, (i, j + 1), rest[m - 1]));
                    } else {
                        assert(later(rest[k - 1], rest[m - 1]));
                    }
                }
            }
            assert forall|at: (int, int)|
                #![trigger before_end(d, chain, here, at)]
                before_end(d, chain, here, at) && d.slot(chain, at.0, at.1, 64)->Ok_0[0]
                    != 0xE5 implies places.contains(at) by {
                lemma_next_slot(d, chain, i, j, at);
                if at == here {
                    assert(places[0] == here);
                } else {
                    let k = choose|k: int| 0 <= k < rest.len() && rest[k] == at;
                    if raw[0] == 0xE5 {
                        assert(places[k] == at);
                    } else {
                        assert(places[k + 1] == at);
                    }
                }
            }
            places
        }
    }
}

/// What a directory lists: the entries in its slots of 64 bytes, in order, up to the first slot
/// that starts with 0 or 0xFF, without those that start with 0xE5. The slots are given.
pub proof fn law_listing(d: Disk, cluster: u32) -> (places: Seq<(int, int)>)
    requires
        d.entries(cluster) is Ok,
    ensures
        d.chain(cluster) is Ok,
        listed_from(d, d.chain(cluster)->Ok_0, (0, 0), d.entries(cluster)->Ok_0, places),
{
    lemma_listed(d, d.chain(cluster)->Ok_0, 0, 0)
}

/// A slot is vacant: it starts with 0 or 0xFF, which end the directory, or with 0xE5, which marks
/// what is deleted.
pub open spec fn is_vacant(d: Disk, chain: Seq<u32>, at: (int, int)) -> bool {
    d.slot(chain, at.0, at.1, 1) matches Ok(b) && (b[0] == 0 || b[0] == 0xFF || b[0] == 0xE5)
}

/// A slot of a directory, from `from` on.
pub open spec fn is_slot(d: Disk, chain: Seq<u32>, from: (int, int), at: (int, int)) -> bool {
    0 <= at.0 < chain.len() && 0 <= at.1 < d.geo.slots() && !later(at, from)
}

/// Something new goes into the first vacant slot of a directory. If there is none, all its slots
/// are taken.
pub proof fn law_first_vacancy(d: Disk, chain: Seq<u32>, i: int, j: int)
    requires
        0 <= i,
        0 <= j,
    ensures
        match d.vacant_slot(chain, i, j) {
            Ok(Some(at)) => is_slot(d, chain, (i, j), at) && is_vacant(d, chain, at) && forall|
                other: (int, int),
            |
                #[trigger] is_slot(d, chain, (i, j), other) && later(other, at) ==> !is_vacant(
                    d,
                    chain,
                    other,
                ),
            Ok(None) => forall|other: (int, int)| #[trigger]
                is_slot(d, chain, (i, j), other) ==> !is_vacant(d, chain, other),
            Err(_) => exists|other: (int, int)| #[trigger]
                is_slot(d, chain, (i, j), other) && d.slot(chain, other.0, other.1, 1) is Err,
        },
    decreases chain.len() - i, d.geo.slots() - j,
{
    if i < chain.len() {
        if j >= d.geo.slots() {
            law_first_vacancy(d, chain, i + 1, 0);
            assert forall|other: (int, int)| #[trigger]
                is_slot(d, chain, (i, j), other) == is_slot(d, chain, (i + 1, 0), other) by {}
            if d.vacant_slot(chain, i, j) is Err {
                let other = choose|other: (int, int)| #[trigger]
                    is_slot(d, chain, (i + 1, 0), other) && d.slot(chain, other.0, other.1, 1)
                        is Err;
                assert(is_slot(d, chain, (i, j), other));
            } else if d.vacant_slot(chain, i, j)->Ok_0 is Some {
                let at = d.vacant_slot(chain, i, j)->Ok_0->Some_0;
                assert(is_slot(d, chain, (i + 1, 0), at));
                assert(is_slot(d, chain, (i, j), at));
            }
        } else {
            let here = (i, j);
            assert(is_slot(d, chain, here, here));
            if d.slot(chain, i, j, 1) is Ok && !is_vacant(d, chain, here) {
                law_first_vacancy(d, chain, i, j + 1);
                assert forall|other: (int, int)| #[trigger]
                    is_slot(d, chain, here, other) <==> other == here || is_slot(
                        d,
                        chain,
                        (i, j + 1),
                        other,
                    ) by {}
                if d.vacant_slot(chain, i, j) is Err {
                    let other = choose|other: (int, int)| #[trigger]
                        is_slot(d, chain, (i, j + 1), other) && d.slot(chain, other.0, other.1, 1)
                            is Err;
                    assert(is_slot(d, chain, here, other));
                } else if d.vacant_slot(chain, i, j)->Ok_0 is Some {
                    let at = d.vacant_slot(chain, i, j)->Ok_0->Some_0;
                    assert(is_slot(d, chain, (i, j + 1), at));
                    assert(is_slot(d, chain, here, at));
                }
            }
        }
    } else {
        assert forall|other: (int, int)| !(#[trigger] is_slot(d, chain, (i, j), other)) by {}
    }
}

/// A directory cannot be listed if a slot cannot be read that no end comes before.
pub proof fn law_unreadable_listing(d: Disk, cluster: u32, at: (int, int))
    requires
        d.chain(cluster) is Ok,
        0 <= at.0 < d.chain(cluster)->Ok_0.len(),
        0 <= at.1 < d.geo.slots(),
        d.slot(d.chain(cluster)->Ok_0, at.0, at.1, 64) is Err,
        no_end_before(d, d.chain(cluster)->Ok_0, at),
    ensures
        d.entries(cluster) == Err::<Seq<DirentView>, ErrView>(
            d.slot(d.chain(cluster)->Ok_0, at.0, at.1, 64)->Err_0,
        ),
{
    lemma_unreadable_from(d, d.chain(cluster)->Ok_0, 0, 0, at);
}

/// All slots before that one can be read, and none of them is an end.
pub open spec fn no_end_before(d: Disk, chain: Seq<u32>, at: (int, int)) -> bool {
    forall|i: int, j: int|
        #![trigger d.slot(chain, i, j, 64)]
        0 <= i < chain.len() && 0 <= j < d.geo.slots() && later((i, j), at) ==> d.slot(
            chain,
            i,
            j,
            64,
        ) is Ok && d.slot(chain, i, j, 64)->Ok_0[0] != 0 && d.slot(chain, i, j, 64)->Ok_0[0] != 0xFF
}

proof fn lemma_unreadable_from(d: Disk, chain: Seq<u32>, i: int, j: int, at: (int, int))
    requires
        0 <= at.0 < chain.len(),
        0 <= at.1 < d.geo.slots(),
        0 <= i,
        0 <= j,
        !later(at, (i, j)),
        d.slot(chain, at.0, at.1, 64) is Err,
        no_end_before(d, chain, at),
    ensures
        d.entries_from(chain, i, j) == Err::<Seq<DirentView>, ErrView>(
            d.slot(chain, at.0, at.1, 64)->Err_0,
        ),
    decreases chain.len() - i, d.geo.slots() - j,
{
    if (i, j) != at {
        if j >= d.geo.slots() {
            lemma_unreadable_from(d, chain, i + 1, 0, at);
        } else {
            assert(later((i, j), at));
            assert(d.slot(chain, i, j, 64) is Ok);
            lemma_unreadable_from(d, chain, i, j + 1, at);
        }
    }
}

/// A slot is 64 bytes of its cluster, behind those of the slots before it.
pub proof fn law_slot_place(d: Disk, chain: Seq<u32>, i: int, j: int)
    requires
        0 <= i < chain.len(),
        1 <= chain[i] <= d.geo.total_clusters,
        0 <= j,
    ensures
        d.slot(chain, i, j, 64) == d.read(
            (d.geo.data_offset + (chain[i] - 1) * (512 * d.geo.sectors_per_cluster) + 64 * j) as nat,
            64,
        ),
{
    crate::laws::shape::law_geometry(d.geo, chain[i]);
}

/// Looking for a name finds the first entry of that name, and nothing only if there is none.
pub proof fn law_finding(entries: Seq<DirentView>, name: Seq<char>) -> (k: int)
    ensures
        find_entry(entries, name) is Some ==> {
            &&& 0 <= k < entries.len()
            &&& find_entry(entries, name) == Some(entries[k])
            &&& same_name(entries[k].filename(), name)
            &&& forall|m: int| 0 <= m < k ==> !same_name(#[trigger] entries[m].filename(), name)
        },
        find_entry(entries, name) is None ==> forall|m: int|
            0 <= m < entries.len() ==> !same_name(#[trigger] entries[m].filename(), name),
    decreases entries.len(),
{
    if entries.len() == 0 || same_name(entries[0].filename(), name) {
        0
    } else {
        let rest = entries.drop_first();
        let k = law_finding(rest, name);
        assert forall|m: int|
            0 <= m < entries.len() && (find_entry(entries, name) is None || m <= k) implies !same_name(
            #[trigger] entries[m].filename(),
            name,
        ) by {
            if m > 0 {
                assert(entries[m] == rest[m - 1]);
            }
        }
        k + 1
    }
}

// ---------------------------------------------------------------------------
// Paths
// ---------------------------------------------------------------------------

proof fn lemma_longer(d: Disk, c: u32, names: Seq<Seq<char>>, i: int, name: Seq<char>)
    requires
        0 <= i < names.len(),
    ensures
        d.resolve_from(c, names, i) matches Err(e) ==> d.resolve_from(c, names.push(name), i)
            == Err::<DirentView, ErrView>(e),
        d.resolve_from(c, names, i) matches Ok(e) && !e.is_directory() ==> d.resolve_from(
            c,
            names.push(name),
            i,
        ) == Err::<DirentView, ErrView>(ErrView::NotADirectory(names.last())),
    decreases names.len() - i,
{
    let longer = names.push(name);
    assert(longer[i] == names[i]);
    if i + 1 < names.len() {
        if d.entries(c) is Ok && find_entry(d.entries(c)->Ok_0, names[i]) is Some {
            let e = find_entry(d.entries(c)->Ok_0, names[i])->Some_0;
            lemma_longer(d, e.first_cluster, names, i + 1, name);
        }
    }
}

/// What a path leads to: no component at all to the root directory, which is the directory at
/// cluster 1; one more component to the entry of that name in the directory that the path
/// leads to without it. It leads nowhere where there is no such entry, or no such directory.
pub proof fn law_resolving(d: Disk, dir: Seq<char>, name: Seq<char>)
    requires
        name.len() > 0,
        forall|i: int| 0 <= i < name.len() ==> #[trigger] name[i] != '/',
    ensures
        parts(dir).len() == 0 ==> d.resolve(dir) == Ok::<DirentView, ErrView>(root_entry()),
        root_entry().is_directory(),
        root_entry().first_cluster == 1,
        ({
            let path = dir.push('/') + name;
            &&& d.resolve(dir) matches Err(e) ==> d.resolve(path) == Err::<DirentView, ErrView>(e)
            &&& d.resolve(dir) matches Ok(e) ==> {
                &&& !e.is_directory() ==> d.resolve(path) == Err::<DirentView, ErrView>(
                    ErrView::NotADirectory(name_of(dir)),
                )
                &&& e.is_directory() ==> d.resolve(path) == (match d.entries(e.first_cluster) {
                    Err(x) => Err::<DirentView, ErrView>(x),
                    Ok(entries) => match find_entry(entries, name) {
                        None => Err(ErrView::FileNotFound(name)),
                        Some(found) => Ok(found),
                    },
                })
            }
        }),
{
    assert(0x10u8 & 0x10 == 0x10) by (bit_vector);
    law_path_steps(dir, name);
    let names = parts(dir);
    let path = dir.push('/') + name;
    assert(parts(path) == names.push(name));
    if names.len() > 0 {
        lemma_longer(d, 1, names, 0, name);
        crate::path::lemma_split_bounds(dir);
        crate::path::law_parts_of_split(dir);
        if d.resolve(dir) is Ok && d.resolve(dir)->Ok_0.is_directory() {
            lemma_resolve_push(d, 1, names, 0, name);
        }
    } else {
        lemma_resolve_push(d, 1, names, 0, name);
    }
}

} // verus!
