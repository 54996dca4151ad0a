//! Where the files of a package are filed.

use vstd::prelude::*;
use crate::disk::{Disk, Stamp};
use crate::error::ErrView;
use crate::notation::{
    all_digits, law_decimal, law_eight_digits, law_path_steps, law_zero_padded, reading,
};
use crate::path::{joined_path, lemma_joined_path, name_of, parts, law_parts_of_split};
use crate::text::{decimal, hexadecimal, zero_padded};
use super::names::{
    lemma_hex8, lemma_header_name_differs, lemma_part_name, lemma_part_path, part_name,
};
use super::package::{hex8, package_paths, part_path, PathsView};
use super::source::{ContentType, TitleExecutionInfo};

verus! {

/// A name is a number of 32 bits in eight upper-case hexadecimal digits.
pub open spec fn spells(name: Seq<char>, n: u32) -> bool {
    name.len() == 8 && all_digits(name, 16) && reading(name, 16) == n
}

proof fn lemma_spells(n: u32)
    ensures
        spells(hex8(n), n),
{
    law_eight_digits(n);
}

/// A package is filed in the directory of its title, in that of its content type, under the
/// media identifier if it is a Games-on-Demand title, and under the title identifier if it is
/// one of the original Xbox. The Data files are in a directory of the same name and `.data`
/// beside the header. Nothing else matters: the number of the disc and of the discs do not.
pub proof fn law_package_filing(
    dest: Seq<char>,
    exe: TitleExecutionInfo,
    content_type: ContentType,
)
    ensures
        ({
            let paths = package_paths(dest, exe, content_type);
            let way = parts(paths.con_header);
            let n = parts(dest).len() as int;
            &&& way.len() == n + 3
            &&& way.take(n) == parts(dest)
            &&& spells(way[n], exe.title_id)
            &&& content_type == ContentType::GamesOnDemand ==> spells(way[n + 1], 0x7000)
            &&& content_type == ContentType::XboxOriginal ==> spells(way[n + 1], 0x5000)
            &&& content_type == ContentType::GamesOnDemand ==> spells(way[n + 2], exe.media_id)
            &&& content_type == ContentType::XboxOriginal ==> spells(way[n + 2], exe.title_id)
            &&& name_of(paths.con_header) == way[n + 2]
            &&& parts(paths.title_dir) == way.take(n + 1)
            &&& parts(paths.content_dir) == way.take(n + 2)
            &&& paths.data_dir == paths.con_header + seq!['.', 'd', 'a', 't', 'a']
            &&& parts(paths.data_dir) == way.take(n + 2).push(
                way[n + 2] + seq!['.', 'd', 'a', 't', 'a'],
            )
        }),
{
    reveal_strlit("/");
    reveal_strlit(".data");
    let paths = package_paths(dest, exe, content_type);
    let id = super::package::package_id(exe, content_type);
    let a = hex8(exe.title_id);
    let b = hex8(content_type.spec_number());
    let c = hex8(id);
    lemma_spells(exe.title_id);
    lemma_spells(content_type.spec_number());
    lemma_spells(id);
    lemma_hex8(exe.title_id);
    lemma_hex8(content_type.spec_number());
    lemma_hex8(id);
    lemma_header_name_differs(id, 0);
    let root = dest.take(crate::path::trim_len(dest) as int);
    assert(paths.title_dir =~= joined_path(dest, a));
    lemma_joined_path(dest, a);
    law_parts_of_split(paths.title_dir);
    assert(paths.content_dir =~= paths.title_dir.push('/') + b);
    law_path_steps(paths.title_dir, b);
    assert(paths.con_header =~= paths.content_dir.push('/') + c);
    law_path_steps(paths.content_dir, c);
    let tail = seq!['.', 'd', 'a', 't', 'a'];
    assert(".data"@ =~= tail);
    let named = c + tail;
    assert(named == c + ".data"@);
    assert(paths.data_dir =~= paths.content_dir.push('/') + named);
    law_path_steps(paths.content_dir, named);
    let way = parts(paths.con_header);
    let n = parts(dest).len() as int;
    assert(way =~= parts(dest).push(a).push(b).push(c));
    assert(way.take(n) =~= parts(dest));
    assert(way.take(n + 1) =~= parts(dest).push(a));
    assert(way.take(n + 2) =~= parts(dest).push(a).push(b));
}

/// Two discs of a game with different media identifiers never share a header or a directory of
/// Data files.
pub proof fn law_discs_have_packages_of_their_own(
    dest: Seq<char>,
    one: TitleExecutionInfo,
    two: TitleExecutionInfo,
)
    requires
        one.media_id != two.media_id,
    ensures
        ({
            let p = package_paths(dest, one, ContentType::GamesOnDemand);
            let q = package_paths(dest, two, ContentType::GamesOnDemand);
            &&& p.con_header != q.con_header
            &&& p.data_dir != q.data_dir
        }),
{
    let p = package_paths(dest, one, ContentType::GamesOnDemand);
    let q = package_paths(dest, two, ContentType::GamesOnDemand);
    law_package_filing(dest, one, ContentType::GamesOnDemand);
    law_package_filing(dest, two, ContentType::GamesOnDemand);
    assert(p.con_header != q.con_header);
    if p.data_dir == q.data_dir {
        let k = p.data_dir.len() - 5;
        assert(p.data_dir.take(k) =~= p.con_header);
        assert(q.data_dir.take(k) =~= q.con_header);
    }
}

/// Data file number `i` is called `Data` and `i` in decimal, with zeros in front up to four
/// digits, in the directory of the Data files.
pub proof fn law_part_filing(paths: PathsView, i: nat)
    ensures
        ({
            let path = part_path(paths, i);
            let name = name_of(path);
            let digits = name.skip(4);
            &&& parts(path) == parts(paths.data_dir).push(name)
            &&& name.len() >= 8
            &&& name.take(4) == seq!['D', 'a', 't', 'a']
            &&& all_digits(digits, 10)
            &&& reading(digits, 10) == i
            &&& name.len() > 8 ==> digits == decimal(i)
        }),
{
    reveal_strlit("/");
    reveal_strlit("Data");
    let path = part_path(paths, i);
    let name = part_name(i);
    lemma_part_path(paths, i);
    lemma_part_name(i);
    assert(path =~= paths.data_dir.push('/') + name);
    law_path_steps(paths.data_dir, name);
    law_decimal(i);
    law_zero_padded(decimal(i), 4, 10);
    assert(name.take(4) =~= seq!['D', 'a', 't', 'a']);
    assert(name.skip(4) =~= zero_padded(decimal(i), 4));
}

/// A folder of a package: one that can be made is made, one that is there is kept, and a file of
/// that name is in the way. What else keeps it from being made is an error.
pub proof fn law_folder_made_or_kept(d: Disk, path: Seq<char>, now: Stamp)
    ensures
        ({
            let (d1, made) = d.create_directory(path, now);
            let (d2, r) = d.ensure_directory(path, now);
            let there = d1.resolve(path);
            &&& d2 == d1
            &&& made is Ok ==> r is Ok
            &&& made is Err && made->Err_0 is FileExists && there is Ok
                && there->Ok_0.is_directory() ==> r is Ok
            &&& made is Err && made->Err_0 is FileExists && there is Ok
                && !there->Ok_0.is_directory() ==> r == Err::<(), ErrView>(
                ErrView::NotADirectory(path),
            )
            &&& made is Err && made->Err_0 is FileExists && there is Err ==> r == Err::<
                (),
                ErrView,
            >(there->Err_0)
            &&& made is Err && !(made->Err_0 is FileExists) ==> r == made
        }),
{
}

/// The folders of a package are made from the top down, and the first that cannot be made ends
/// it.
pub proof fn law_folders_in_order(d: Disk, paths: PathsView, now: Stamp)
    ensures
        ({
            let (d1, r1) = d.ensure_directory(paths.title_dir, now);
            let (d2, r2) = d1.ensure_directory(paths.content_dir, now);
            let r = d.ensure_package(paths, now);
            &&& r1 is Err ==> r == (d1, r1)
            &&& r1 is Ok && r2 is Err ==> r == (d2, r2)
            &&& r1 is Ok && r2 is Ok ==> r == d2.ensure_directory(paths.data_dir, now)
        }),
{
}

} // verus!
