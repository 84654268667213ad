use vstd::prelude::*;

use crate::bytes::{bytes_at, bytes_eq, le16, le32, occurs_at, read_le16, read_le32};

verus! {

/// Signature of a central-directory file header: `PK\x01\x02`.
pub open spec fn cd_magic() -> Seq<u8> {
    seq![0x50u8, 0x4b, 0x01, 0x02]
}

/// Signature of a local file header: `PK\x03\x04`.
pub open spec fn local_magic() -> Seq<u8> {
    seq![0x50u8, 0x4b, 0x03, 0x04]
}

/// Signature of the end-of-central-directory record: `PK\x05\x06`.
pub open spec fn eocd_magic() -> Seq<u8> {
    seq![0x50u8, 0x4b, 0x05, 0x06]
}

/// Why a fixed-layout ZIP record could not be read.
#[derive(Debug, PartialEq, Eq, Structural, Clone, Copy)]
pub enum ParseFailure {
    /// A signature did not match.
    Tag,
    /// The input ended inside the record.
    Eof,
}

/// One file header of the ZIP central directory.
pub struct CentralDirectoryEntry<'a> {
    pub file_name: &'a [u8],
    pub offset: u32,
    pub compressed_size: u32,
    pub compressed_method: u16,
    pub uncompressed_size: u32,
}

/// The contents of a central-directory file header.
pub struct CdEntryView {
    pub file_name: Seq<u8>,
    pub offset: u32,
    pub compressed_size: u32,
    pub compressed_method: u16,
    pub uncompressed_size: u32,
}

impl<'a> View for CentralDirectoryEntry<'a> {
    type V = CdEntryView;

    open spec fn view(&self) -> CdEntryView {
        CdEntryView {
            file_name: self.file_name@,
            offset: self.offset,
            compressed_size: self.compressed_size,
            compressed_method: self.compressed_method,
            uncompressed_size: self.uncompressed_size,
        }
    }
}

/// Length of the central-directory header at the start of `s`: the fixed part,
/// the file name, the extra field and the comment.
pub open spec fn cd_header_len(s: Seq<u8>) -> int {
    46 + le16(s, 28) + le16(s, 30) + le16(s, 32)
}

/// A central-directory header at the start of `s`: how many bytes it takes, and what it says.
pub open spec fn spec_parse_cd_header(s: Seq<u8>) -> Option<(int, CdEntryView)> {
    if s.len() >= 46 && s.take(4) == cd_magic() && cd_header_len(s) <= s.len() {
        Some(
            (
                cd_header_len(s),
                CdEntryView {
                    file_name: s.subrange(46, 46 + le16(s, 28)),
                    offset: le32(s, 42),
                    compressed_size: le32(s, 20),
                    compressed_method: le16(s, 10),
                    uncompressed_size: le32(s, 24),
                },
            ),
        )
    } else {
        None
    }
}

/// Reads the central-directory file header at the start of `input`; gives the rest of the
/// input after it, and the entry.
pub fn parse_cd_header<'a>(input: &'a [u8]) -> (r: Option<(&'a [u8], CentralDirectoryEntry<'a>)>)
    ensures
        match spec_parse_cd_header(input@) {
            None => r is None,
            Some((n, e)) => r matches Some((rest, entry)) && rest@ == input@.skip(n) && entry@
                == e,
        },
{
    let magic: [u8; 4] = [0x50, 0x4b, 0x01, 0x02];
    assert(magic@ =~= cd_magic());
    if input.len() < 46 || !bytes_at(input, 0, magic.as_slice()) {
        proof {
            if input@.len() >= 46 {
                assert(input@.take(4) =~= input@.subrange(0, 4));
            }
        }
        return None;
    }
    assert(input@.take(4) =~= input@.subrange(0, 4));
    let method = read_le16(input, 10);
    let compressed = read_le32(input, 20);
    let uncompressed = read_le32(input, 24);
    let name_len = read_le16(input, 28);
    let extra_len = read_le16(input, 30);
    let comment_len = read_le16(input, 32);
    let header_offset = read_le32(input, 42);
    let name_end: usize = 46 + name_len as usize;
    let total: usize = name_end + extra_len as usize + comment_len as usize;
    if total > input.len() {
        return None;
    }
    let file_name = vstd::slice::slice_subrange(input, 46, name_end);
    let rest = vstd::slice::slice_subrange(input, total, input.len());
    assert(rest@ =~= input@.skip(total as int));
    Some(
        (
            rest,
            CentralDirectoryEntry {
                file_name,
                offset: header_offset,
                compressed_size: compressed,
                compressed_method: method,
                uncompressed_size: uncompressed,
            },
        ),
    )
}

/// Walks at most `count` central-directory headers from the start of `s` and yields the
/// first whose file name is `target`; the walk stops at the first header that cannot be read.
pub open spec fn spec_find_entry(s: Seq<u8>, count: nat, target: Seq<u8>) -> Option<CdEntryView>
    decreases count,
{
    if count == 0 {
        None
    } else {
        match spec_parse_cd_header(s) {
            None => None,
            Some((n, e)) => if e.file_name == target {
                Some(e)
            } else {
                spec_find_entry(s.skip(n), (count - 1) as nat, target)
            },
        }
    }
}

/// Looks for the entry named `target` among the first `count` headers of the central
/// directory that starts `input`.
pub fn find_entry<'a>(input: &'a [u8], count: u16, target: &[u8]) -> (r: Option<
    CentralDirectoryEntry<'a>,
>)
    ensures
        match spec_find_entry(input@, count as nat, target@) {
            None => r is None,
            Some(e) => r matches Some(entry) && entry@ == e,
        },
{
    let mut cur = input;
    let mut i: u16 = 0;
    while i < count
        invariant
            i <= count,
            spec_find_entry(cur@, (count - i) as nat, target@) == spec_find_entry(
                input@,
                count as nat,
                target@,
            ),
        decreases count - i,
    {
        match parse_cd_header(cur) {
            Some((next, entry)) => {
                if bytes_eq(entry.file_name, target) {
                    return Some(entry);
                }
                cur = next;
            },
            None => {
                return None;
            },
        }
        i = i + 1;
    }
    None
}

/// An end-of-central-directory record starts at `i` and its comment ends exactly at the
/// end of `d`.
pub open spec fn is_eocd_at(d: Seq<u8>, i: int) -> bool {
    &&& 0 <= i
    &&& i + 22 <= d.len()
    &&& occurs_at(d, i, eocd_magic())
    &&& i + 22 + le16(d, i + 20) == d.len()
}

/// The highest position in `lo..=hi` at which `is_eocd_at` holds.
pub open spec fn eocd_search(d: Seq<u8>, lo: int, hi: int) -> Option<int>
    decreases hi - lo + 1,
{
    if hi < lo {
        None
    } else if is_eocd_at(d, hi) {
        Some(hi)
    } else {
        eocd_search(d, lo, hi - 1)
    }
}

/// Lowest position that the backward scan for the end record reaches: a record is 22 bytes
/// and its comment at most 65535.
pub open spec fn eocd_scan_limit(len: int) -> int {
    if len >= 65535 + 22 {
        len - (65535 + 22)
    } else {
        0
    }
}

/// Where the end-of-central-directory record of `d` starts.
pub open spec fn spec_find_eocd(d: Seq<u8>) -> Option<int> {
    if d.len() < 22 {
        None
    } else {
        eocd_search(d, eocd_scan_limit(d.len() as int), d.len() - 22)
    }
}

/// `eocd_search` gives the highest position in `lo..=hi` that holds a record, or `None`
/// where none does.
pub proof fn lemma_eocd_search(d: Seq<u8>, lo: int, hi: int)
    ensures
        match eocd_search(d, lo, hi) {
            Some(i) => lo <= i <= hi && is_eocd_at(d, i) && forall|j: int|
                i < j <= hi ==> !is_eocd_at(d, j),
            None => forall|j: int| lo <= j <= hi ==> !is_eocd_at(d, j),
        },
    decreases hi - lo + 1,
{
    if hi >= lo && !is_eocd_at(d, hi) {
        lemma_eocd_search(d, lo, hi - 1);
    }
}

/// Scans backwards from the end of `data` for the end-of-central-directory record whose
/// comment reaches exactly to the end of the data.
pub fn find_eocd(data: &[u8]) -> (r: Option<usize>)
    ensures
        match spec_find_eocd(data@) {
            None => r is None,
            Some(i) => r matches Some(j) && j as int == i,
        },
        r matches Some(i) ==> is_eocd_at(data@, i as int) && eocd_scan_limit(data@.len() as int)
            <= i,
{
    let len = data.len();
    if len < 22 {
        return None;
    }
    let scan_limit = len.saturating_sub(65535 + 22);
    let magic: [u8; 4] = [0x50, 0x4b, 0x05, 0x06];
    assert(magic@ =~= eocd_magic());
    let mut i: usize = len - 22;
    loop
        invariant
            len == data@.len(),
            len >= 22,
            scan_limit == eocd_scan_limit(len as int),
            scan_limit <= i <= len - 22,
            magic@ == eocd_magic(),
            eocd_search(data@, scan_limit as int, i as int) == spec_find_eocd(data@),
        decreases i,
    {
        if bytes_at(data, i, magic.as_slice()) {
            let comment_len = read_le16(data, i + 20) as usize;
            if comment_len == len - (i + 22) {
                proof {
                    lemma_eocd_search(data@, scan_limit as int, i as int);
                }
                return Some(i);
            }
        }
        assert(!is_eocd_at(data@, i as int));
        assert(eocd_search(data@, scan_limit as int, i as int) == eocd_search(
            data@,
            scan_limit as int,
            i - 1,
        ));
        if i == scan_limit {
            return None;
        }
        i = i - 1;
    }
}

/// The end-of-central-directory record at the start of `s`: (number of entries, start of
/// the central directory).
pub open spec fn spec_parse_eocd(s: Seq<u8>) -> Option<(u16, u32)> {
    if s.len() >= 20 && s.take(4) == eocd_magic() {
        Some((le16(s, 10), le32(s, 16)))
    } else {
        None
    }
}

/// Reads the end-of-central-directory record at the start of `input`.
pub fn parse_eocd(input: &[u8]) -> (r: Option<(&[u8], (u16, u32))>)
    ensures
        match spec_parse_eocd(input@) {
            None => r is None,
            Some(v) => r matches Some((rest, w)) && w == v && rest@ == input@.skip(20),
        },
{
    let magic: [u8; 4] = [0x50, 0x4b, 0x05, 0x06];
    assert(magic@ =~= eocd_magic());
    if input.len() < 20 || !bytes_at(input, 0, magic.as_slice()) {
        proof {
            if input@.len() >= 20 {
                assert(input@.take(4) =~= input@.subrange(0, 4));
            }
        }
        return None;
    }
    assert(input@.take(4) =~= input@.subrange(0, 4));
    let file_count = read_le16(input, 10);
    let cd_start = read_le32(input, 16);
    let rest = vstd::slice::slice_subrange(input, 20, input.len());
    assert(rest@ =~= input@.skip(20));
    Some((rest, (file_count, cd_start)))
}

/// Length of the local file header at the start of `s`: the fixed part, the file name
/// and the extra field.
pub open spec fn local_header_len(s: Seq<u8>) -> int {
    30 + le16(s, 26) + le16(s, 28)
}

/// The local file header at the start of `s`: how many bytes it takes, or why it cannot be
/// read.
pub open spec fn spec_parse_local_file(s: Seq<u8>) -> Result<int, ParseFailure> {
    if !(s.len() >= 4 && s.take(4) == local_magic()) {
        Err(ParseFailure::Tag)
    } else if s.len() < 30 || s.len() < local_header_len(s) {
        Err(ParseFailure::Eof)
    } else {
        Ok(local_header_len(s))
    }
}

/// Skips the local file header at the start of `input`; gives the bytes after it, where the
/// file's data begins.
pub fn parse_local_file(input: &[u8]) -> (r: Result<&[u8], ParseFailure>)
    ensures
        match spec_parse_local_file(input@) {
            Err(e) => r == Err::<&[u8], ParseFailure>(e),
            Ok(n) => r matches Ok(rest) && rest@ == input@.skip(n),
        },
{
    let magic: [u8; 4] = [0x50, 0x4b, 0x03, 0x04];
    assert(magic@ =~= local_magic());
    if input.len() < 4 || !bytes_at(input, 0, magic.as_slice()) {
        proof {
            if input@.len() >= 4 {
                assert(input@.take(4) =~= input@.subrange(0, 4));
            }
        }
        return Err(ParseFailure::Tag);
    }
    assert(input@.take(4) =~= input@.subrange(0, 4));
    if input.len() < 30 {
        return Err(ParseFailure::Eof);
    }
    let filename_length = read_le16(input, 26);
    let ext = read_le16(input, 28);
    let total: usize = 30 + filename_length as usize + ext as usize;
    if total > input.len() {
        return Err(ParseFailure::Eof);
    }
    let rest = vstd::slice::slice_subrange(input, total, input.len());
    assert(rest@ =~= input@.skip(total as int));
    Ok(rest)
}


/// Law: a central-directory header is its 46 fixed bytes followed by the file name, the
/// extra field and the comment, whose lengths the fixed bytes give. Whatever the fixed
/// bytes and the three parts hold, the header is read as the name it carries and the
/// fields of its fixed part, and the input after it is exactly what follows the comment.
pub proof fn lemma_cd_header_layout(
    fixed: Seq<u8>,
    name: Seq<u8>,
    extra: Seq<u8>,
    comment: Seq<u8>,
    rest: Seq<u8>,
)
    requires
        fixed.len() == 46,
        fixed.take(4) == cd_magic(),
        le16(fixed, 28) == name.len(),
        le16(fixed, 30) == extra.len(),
        le16(fixed, 32) == comment.len(),
    ensures
        ({
            let h = fixed + name + extra + comment;
            spec_parse_cd_header(h + rest) == Some(
                (
                    h.len() as int,
                    CdEntryView {
                        file_name: name,
                        offset: le32(fixed, 42),
                        compressed_size: le32(fixed, 20),
                        compressed_method: le16(fixed, 10),
                        uncompressed_size: le32(fixed, 24),
                    },
                ),
            ) && (h + rest).skip(h.len() as int) == rest
        }),
{
    let h = fixed + name + extra + comment;
    let s = h + rest;
    assert forall|i: int| 0 <= i < 46 implies s[i] == fixed[i] by {}
    assert(s.take(4) =~= fixed.take(4));
    assert(le16(s, 10) == le16(fixed, 10));
    assert(le16(s, 28) == le16(fixed, 28));
    assert(le16(s, 30) == le16(fixed, 30));
    assert(le16(s, 32) == le16(fixed, 32));
    assert(le32(s, 20) == le32(fixed, 20));
    assert(le32(s, 24) == le32(fixed, 24));
    assert(le32(s, 42) == le32(fixed, 42));
    assert(s.subrange(46, 46 + le16(s, 28)) =~= name);
    assert(s.skip(h.len() as int) =~= rest);
}

/// Law: the walk of the central directory steps over each header whole: where the input
/// starts with a header for `name` (laid out as in `lemma_cd_header_layout`), the walk
/// yields that header's entry when `name` is the target, and otherwise goes on with the
/// headers that follow it, one fewer to go.
pub proof fn lemma_walk_steps_over_a_header(
    fixed: Seq<u8>,
    name: Seq<u8>,
    extra: Seq<u8>,
    comment: Seq<u8>,
    rest: Seq<u8>,
    count: nat,
    target: Seq<u8>,
)
    requires
        fixed.len() == 46,
        fixed.take(4) == cd_magic(),
        le16(fixed, 28) == name.len(),
        le16(fixed, 30) == extra.len(),
        le16(fixed, 32) == comment.len(),
    ensures
        ({
            let s = fixed + name + extra + comment + rest;
            if name == target {
                spec_find_entry(s, count + 1, target) matches Some(e) && e.file_name == name
                    && e.offset == le32(fixed, 42)
            } else {
                spec_find_entry(s, count + 1, target) == spec_find_entry(rest, count, target)
            }
        }),
{
    lemma_cd_header_layout(fixed, name, extra, comment, rest);
}

/// Law: a local file header is its 30 fixed bytes followed by the file name and the extra
/// field, whose lengths the fixed bytes give; whatever they hold, the file's data begins
/// right after the extra field.
pub proof fn lemma_local_header_layout(fixed: Seq<u8>, name: Seq<u8>, extra: Seq<u8>, data: Seq<u8>)
    requires
        fixed.len() == 30,
        fixed.take(4) == local_magic(),
        le16(fixed, 26) == name.len(),
        le16(fixed, 28) == extra.len(),
    ensures
        ({
            let h = fixed + name + extra;
            spec_parse_local_file(h + data) == Ok::<int, ParseFailure>(h.len() as int) && (h
                + data).skip(h.len() as int) == data
        }),
{
    let h = fixed + name + extra;
    let s = h + data;
    assert forall|i: int| 0 <= i < 30 implies s[i] == fixed[i] by {}
    assert(s.take(4) =~= fixed.take(4));
    assert(le16(s, 26) == le16(fixed, 26));
    assert(le16(s, 28) == le16(fixed, 28));
    assert(s.skip(h.len() as int) =~= data);
}

} // verus!
