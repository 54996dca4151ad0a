//! Planning the extraction of a disc image.

use vstd::prelude::*;
use crate::notation::{all_digits, law_hexadecimal, law_zero_padded, reading, worth};
use crate::text::{hexadecimal, push_hex, zero_padded};
use super::policy::{
    files_view, filter_entries, in_systemupdate, is_systemupdate_path, kept_of, skipped_of,
    total_size, FilteredIsoFiles, XisoFile,
};

verus! {

/// A known way of mastering discs: its name, and where the data partition starts.
#[derive(Debug)]
pub struct XisoLayout {
    pub name: String,
    pub offset: u64,
}

/// What extracting an image will do.
#[derive(Debug)]
pub struct ExtractPlan {
    /// How the disc was mastered, in words.
    pub layout: String,
    /// All files of the image.
    pub entries: Vec<XisoFile>,
    /// The files that are wanted.
    pub kept: Vec<XisoFile>,
    /// The files that are left out.
    pub skipped: Vec<XisoFile>,
    pub kept_bytes: u64,
    pub skipped_bytes: u64,
}

impl ExtractPlan {
    /// How many files are wanted.
    pub fn kept_files(&self) -> (n: usize)
        ensures
            n == self.kept@.len(),
    {
        self.kept.len()
    }

    /// How many files are left out.
    pub fn skipped_files(&self) -> (n: usize)
        ensures
            n == self.skipped@.len(),
    {
        self.skipped.len()
    }

    /// Whether a file is left out.
    pub fn is_skipped(&self, entry: &XisoFile, keep_systemupdate: bool) -> (b: bool)
        ensures
            b == (!keep_systemupdate && in_systemupdate(entry@.path)),
    {
        !keep_systemupdate && is_systemupdate_path(entry.path.as_str())
    }
}

/// How the disc was mastered, in words: the name of the layout and its offset, or the offset
/// alone if the layout is not known.
pub open spec fn layout_text(layout: Option<XisoLayout>, partition_offset: u64) -> Seq<char> {
    match layout {
        Some(l) => l.name@ + " (0x"@ + zero_padded(hexadecimal(l.offset as nat), 8) + ")"@,
        None => "unknown @ 0x"@ + zero_padded(hexadecimal(partition_offset as nat), 8),
    }
}

fn describe_layout(layout: &Option<XisoLayout>, partition_offset: u64) -> (s: String)
    ensures
        s@ == layout_text(*layout, partition_offset),
{
    match layout {
        Some(l) => {
            let mut s = l.name.as_str().to_owned();
            vstd::string::StringExecFns::append(&mut s, " (0x");
            push_hex(&mut s, l.offset, 8);
            vstd::string::StringExecFns::append(&mut s, ")");
            s
        },
        None => {
            let mut s = "unknown @ 0x".to_owned();
            push_hex(&mut s, partition_offset, 8);
            s
        },
    }
}

/// Plans the extraction of an image that holds the files `entries`, was mastered with
/// `layout` if that is known, and has its data partition at `partition_offset`.
pub fn plan_extract(
    entries: Vec<XisoFile>,
    layout: Option<XisoLayout>,
    partition_offset: u64,
    keep_systemupdate: bool,
) -> (plan: ExtractPlan)
    requires
        total_size(files_view(entries@)) <= u64::MAX,
    ensures
        plan.entries@ == entries@,
        plan.layout@ == layout_text(layout, partition_offset),
        files_view(plan.kept@) == kept_of(files_view(entries@), keep_systemupdate),
        files_view(plan.skipped@) == skipped_of(files_view(entries@), keep_systemupdate),
        plan.kept_bytes == total_size(files_view(plan.kept@)),
        plan.skipped_bytes == total_size(files_view(plan.skipped@)),
{
    let FilteredIsoFiles { kept, skipped, kept_bytes, skipped_bytes } = filter_entries(
        entries.as_slice(),
        keep_systemupdate,
    );
    let layout = describe_layout(&layout, partition_offset);
    ExtractPlan { layout, entries, kept, skipped, kept_bytes, skipped_bytes }
}

/// How a layout is put into words: by its name, if it is known, with its offset in hexadecimal
/// behind it, or else by the offset of the partition. Offsets have eight digits, or as many as
/// they need.
pub proof fn law_layout_in_words(layout: Option<XisoLayout>, partition_offset: u64) -> (digits: Seq<
    char,
>)
    ensures
        digits.len() >= 8,
        digits.len() > 8 ==> worth(digits[0]) > 0,
        all_digits(digits, 16),
        layout matches Some(l) ==> layout_text(layout, partition_offset) == l.name@ + " (0x"@
            + digits + ")"@ && reading(digits, 16) == l.offset,
        layout is None ==> layout_text(layout, partition_offset) == "unknown @ 0x"@ + digits
            && reading(digits, 16) == partition_offset,
{
    let n: nat = match layout {
        Some(l) => l.offset as nat,
        None => partition_offset as nat,
    };
    law_hexadecimal(n);
    law_zero_padded(hexadecimal(n), 8, 16);
    let digits = zero_padded(hexadecimal(n), 8);
    if digits.len() > 8 {
        assert(digits.skip(0) =~= digits);
    }
    digits
}

} // verus!
