//! The OCF container: the ZIP archive that holds an EPUB.
use vstd::prelude::*;
use vstd::string::StringSliceAdditionalSpecFns;
use std::borrow::Cow;

use crate::bytes::{bytes_at, le16, le32, occurs_at, read_le16};
use crate::central_directory::{
    find_entry, find_eocd, local_magic, parse_eocd, parse_local_file, spec_find_entry,
    spec_find_eocd, spec_parse_eocd, spec_parse_local_file, CdEntryView,
};
use crate::errors::EpubError;
use crate::inflate::{inflate_to_slice, inflate_to_vec, inflated_into, inflated_with_limit};
use crate::text::{attr_text, attribute_value};
use crate::xml::{
    events_view, find_attr, first_attr, read_xml_events, xml_events, XmlEvent, XmlEventView,
};

verus! {

/// Where a file's record lies in the archive, and how it is stored.
#[derive(Debug, PartialEq, Eq, Structural, Clone, Copy)]
pub struct ZipEntry {
    pub offset: u32,
    pub compressed_size: u32,
    pub compression_method: u16,
    pub uncompressed_size: u32,
}

/// Where the central directory starts, and how many entries it holds.
#[derive(Debug, PartialEq, Eq, Structural, Clone, Copy)]
pub struct ZipContext {
    pub cd_offset: u32,
    pub file_count: u16,
}

/// The name of the first file of an EPUB: `mimetype`.
pub open spec fn mimetype_name() -> Seq<u8> {
    seq![0x6du8, 0x69, 0x6d, 0x65, 0x74, 0x79, 0x70, 0x65]
}

/// The content of the `mimetype` file: `application/epub+zip`.
pub open spec fn mimetype_content() -> Seq<u8> {
    seq![
        0x61u8, 0x70, 0x70, 0x6c, 0x69, 0x63, 0x61, 0x74, 0x69, 0x6f, 0x6e, 0x2f,
        0x65, 0x70, 0x75, 0x62, 0x2b, 0x7a, 0x69, 0x70,
    ]
}

/// The check of the OCF header at the start of `s`: the archive must begin with a local
/// file header (else `InvalidZipMagic`) of a file stored with method 0 (else
/// `MimetypeCompressed`) named `mimetype` (else `MimetypeMissing`) whose data is
/// `application/epub+zip` (else `MimetypeInvalid`). Where the input ends before a field
/// that the check reads, it fails with `BufferTooShort`. Gives the length of the prefix
/// that the check read.
pub open spec fn spec_epub_header(s: Seq<u8>) -> Result<int, EpubError> {
    if s.len() < 4 {
        Err(EpubError::BufferTooShort)
    } else if s.take(4) != local_magic() {
        Err(EpubError::InvalidZipMagic)
    } else if s.len() < 10 {
        Err(EpubError::BufferTooShort)
    } else if le16(s, 8) != 0 {
        Err(EpubError::MimetypeCompressed)
    } else if s.len() < 30 {
        Err(EpubError::BufferTooShort)
    } else if le16(s, 26) != 8 {
        Err(EpubError::MimetypeMissing)
    } else if s.len() < 38 {
        Err(EpubError::BufferTooShort)
    } else if !occurs_at(s, 30, mimetype_name()) {
        Err(EpubError::MimetypeMissing)
    } else if s.len() < 58 + le16(s, 28) {
        Err(EpubError::BufferTooShort)
    } else if !occurs_at(s, 38 + le16(s, 28), mimetype_content()) {
        Err(EpubError::MimetypeInvalid)
    } else {
        Ok(58 + le16(s, 28))
    }
}

/// Validates the OCF header (see `spec_epub_header` for the error each failure gives).
/// Gives the bytes after the mimetype data.
pub fn parse_epub_header(input: &[u8]) -> (r: Result<&[u8], EpubError>)
    ensures
        match spec_epub_header(input@) {
            Err(e) => r == Err::<&[u8], EpubError>(e),
            Ok(n) => r matches Ok(rest) && rest@ == input@.skip(n),
        },
{
    if input.len() < 4 {
        return Err(EpubError::BufferTooShort);
    }
    let magic: [u8; 4] = [0x50, 0x4b, 0x03, 0x04];
    assert(magic@ =~= local_magic());
    assert(input@.take(4) =~= input@.subrange(0, 4));
    if !bytes_at(input, 0, magic.as_slice()) {
        return Err(EpubError::InvalidZipMagic);
    }
    if input.len() < 10 {
        return Err(EpubError::BufferTooShort);
    }
    let compression = read_le16(input, 8);
    if compression != 0 {
        return Err(EpubError::MimetypeCompressed);
    }
    if input.len() < 30 {
        return Err(EpubError::BufferTooShort);
    }
    let name_len = read_le16(input, 26);
    let extra_len = read_le16(input, 28);
    if name_len != 8 {
        return Err(EpubError::MimetypeMissing);
    }
    if input.len() < 38 {
        return Err(EpubError::BufferTooShort);
    }
    let name: [u8; 8] = [0x6d, 0x69, 0x6d, 0x65, 0x74, 0x79, 0x70, 0x65];
    assert(name@ =~= mimetype_name());
    if !bytes_at(input, 30, name.as_slice()) {
        return Err(EpubError::MimetypeMissing);
    }
    let data_start: usize = 38 + extra_len as usize;
    if input.len() < data_start + 20 {
        return Err(EpubError::BufferTooShort);
    }
    let content: [u8; 20] = [
        0x61, 0x70, 0x70, 0x6c, 0x69, 0x63, 0x61, 0x74, 0x69, 0x6f, 0x6e, 0x2f, 0x65, 0x70,
        0x75, 0x62, 0x2b, 0x7a, 0x69, 0x70,
    ];
    assert(content@ =~= mimetype_content());
    if !bytes_at(input, data_start, content.as_slice()) {
        return Err(EpubError::MimetypeInvalid);
    }
    let rest = vstd::slice::slice_subrange(input, data_start + 20, input.len());
    assert(rest@ =~= input@.skip(data_start + 20));
    Ok(rest)
}

/// The error that the OCF check reports for `s`, if any.
pub open spec fn spec_valid_epub(s: Seq<u8>) -> Result<(), EpubError> {
    match spec_epub_header(s) {
        Ok(_) => Ok(()),
        Err(e) => Err(e),
    }
}

/// Checks that `in_byte` starts as an EPUB must (see `spec_epub_header`).
pub fn valid_epub(in_byte: &[u8]) -> (r: Result<(), EpubError>)
    ensures
        r == spec_valid_epub(in_byte@),
{
    match parse_epub_header(in_byte) {
        Ok(_) => Ok(()),
        Err(e) => Err(e),
    }
}

/// Where the central directory is: the cached location when both parts are given, else
/// the one that the end-of-central-directory record gives.
pub open spec fn spec_zip_context(d: Seq<u8>, offset: Option<u32>, count: Option<u16>) -> Result<
    ZipContext,
    EpubError,
> {
    if offset is Some && count is Some {
        Ok(ZipContext { cd_offset: offset.unwrap(), file_count: count.unwrap() })
    } else {
        match spec_find_eocd(d) {
            None => Err(EpubError::EocdNotFound),
            Some(i) => match spec_parse_eocd(d.skip(i)) {
                None => Err(EpubError::InvalidZipMagic),
                Some((found_count, found_offset)) => Ok(
                    ZipContext { cd_offset: found_offset, file_count: found_count },
                ),
            },
        }
    }
}

/// The central-directory entry of `target`, with the context it was found in.
pub open spec fn spec_locate(
    d: Seq<u8>,
    target: Seq<u8>,
    offset: Option<u32>,
    count: Option<u16>,
) -> Result<(ZipEntry, ZipContext), EpubError> {
    match spec_zip_context(d, offset, count) {
        Err(e) => Err(e),
        Ok(ctx) => if ctx.cd_offset > d.len() {
            Err(EpubError::BufferTooShort)
        } else {
            match spec_find_entry(d.skip(ctx.cd_offset as int), ctx.file_count as nat, target) {
                None => Err(EpubError::FileNotFound),
                Some(e) => Ok((zip_entry_of(e), ctx)),
            }
        },
    }
}

/// The location and storage of a file, as its central-directory header gives them.
pub open spec fn zip_entry_of(e: CdEntryView) -> ZipEntry {
    ZipEntry {
        offset: e.offset,
        compressed_size: e.compressed_size,
        compression_method: e.compressed_method,
        uncompressed_size: e.uncompressed_size,
    }
}

/// Finds the central-directory entry of `target`. Where `offset` and `count` are both given
/// they are taken as the central directory's location; otherwise the location is read from
/// the end-of-central-directory record.
pub fn find_offset_and_size(
    in_byte: &[u8],
    target: &[u8],
    offset: Option<u32>,
    count: Option<u16>,
) -> (r: Result<(ZipEntry, ZipContext), EpubError>)
    ensures
        r == spec_locate(in_byte@, target@, offset, count),
{
    let (current_offset, current_count) = if offset.is_some() && count.is_some() {
        (offset.unwrap(), count.unwrap())
    } else {
        let eocd_index = match find_eocd(in_byte) {
            Some(i) => i,
            None => {
                return Err(EpubError::EocdNotFound);
            },
        };
        let tail = vstd::slice::slice_subrange(in_byte, eocd_index, in_byte.len());
        assert(tail@ =~= in_byte@.skip(eocd_index as int));
        match parse_eocd(tail) {
            Some((_, (found_count, found_offset))) => (found_offset, found_count),
            None => {
                return Err(EpubError::InvalidZipMagic);
            },
        }
    };
    if current_offset as usize > in_byte.len() {
        return Err(EpubError::BufferTooShort);
    }
    let cd_slice = vstd::slice::slice_subrange(in_byte, current_offset as usize, in_byte.len());
    assert(cd_slice@ =~= in_byte@.skip(current_offset as int));
    match find_entry(cd_slice, current_count, target) {
        None => Err(EpubError::FileNotFound),
        Some(entry) => Ok(
            (
                ZipEntry {
                    offset: entry.offset,
                    compressed_size: entry.compressed_size,
                    compression_method: entry.compressed_method,
                    uncompressed_size: entry.uncompressed_size,
                },
                ZipContext { cd_offset: current_offset, file_count: current_count },
            ),
        ),
    }
}

/// Law: where the central directory's offset or count is not given, a lookup ignores the
/// one that is given and reads both from the end-of-central-directory record: it fails
/// with `EocdNotFound` where there is none, and otherwise is the lookup with the record's
/// offset and count.
pub proof fn lemma_location_from_end_record(
    d: Seq<u8>,
    target: Seq<u8>,
    offset: Option<u32>,
    count: Option<u16>,
)
    requires
        offset is None || count is None,
    ensures
        match spec_find_eocd(d) {
            None => spec_locate(d, target, offset, count) == Err::<(ZipEntry, ZipContext), EpubError>(
                EpubError::EocdNotFound,
            ),
            Some(i) => spec_locate(d, target, offset, count) == spec_locate(
                d,
                target,
                Some(le32(d, i + 16)),
                Some(le16(d, i + 10)),
            ),
        },
{
    if let Some(i) = spec_find_eocd(d) {
        crate::central_directory::lemma_eocd_search(
            d,
            crate::central_directory::eocd_scan_limit(d.len() as int),
            d.len() - 22,
        );
        let t = d.skip(i);
        assert(t.take(4) =~= d.subrange(i, i + 4));
        assert(t[10] == d[i + 10] && t[11] == d[i + 11]);
        assert(t[16] == d[i + 16] && t[17] == d[i + 17] && t[18] == d[i + 18] && t[19] == d[i + 19]);
    }
}

/// The stored bytes of the entry `e`: they follow its local header.
pub open spec fn spec_entry_data(d: Seq<u8>, e: ZipEntry) -> Result<Seq<u8>, EpubError> {
    if e.offset > d.len() {
        Err(EpubError::BufferTooShort)
    } else {
        match spec_parse_local_file(d.skip(e.offset as int)) {
            Err(_) => Err(EpubError::InvalidZipMagic),
            Ok(n) => {
                let start = e.offset + n;
                if start + e.compressed_size > d.len() {
                    Err(EpubError::BufferTooShort)
                } else {
                    Ok(d.subrange(start, start + e.compressed_size))
                }
            },
        }
    }
}

/// The content of `target`: stored data as it is, DEFLATE data inflated within the
/// uncompressed size that the directory gives.
pub open spec fn spec_get_content(
    d: Seq<u8>,
    target: Seq<u8>,
    offset: Option<u32>,
    count: Option<u16>,
) -> Result<Seq<u8>, EpubError> {
    match spec_locate(d, target, offset, count) {
        Err(e) => Err(e),
        Ok((e, _)) => match spec_entry_data(d, e) {
            Err(x) => Err(x),
            Ok(raw) => if e.compression_method == 0 {
                Ok(raw)
            } else if e.compression_method == 8 {
                match inflated_with_limit(raw, e.uncompressed_size as usize) {
                    None => Err(EpubError::DeflateError),
                    Some(v) => Ok(v),
                }
            } else {
                Err(EpubError::Unknown)
            },
        },
    }
}

/// Whether `target` is stored (method 0) in the archive.
pub open spec fn is_stored(
    d: Seq<u8>,
    target: Seq<u8>,
    offset: Option<u32>,
    count: Option<u16>,
) -> bool {
    spec_locate(d, target, offset, count) matches Ok((e, _)) && e.compression_method == 0
}

/// Reads the data of the entry `e` that follows its local header.
fn entry_data<'a>(input: &'a [u8], e: ZipEntry) -> (r: Result<&'a [u8], EpubError>)
    ensures
        match spec_entry_data(input@, e) {
            Err(x) => r == Err::<&'a [u8], EpubError>(x),
            Ok(v) => r matches Ok(s) && s@ == v,
        },
{
    if e.offset as usize > input.len() {
        return Err(EpubError::BufferTooShort);
    }
    let local_header_area = vstd::slice::slice_subrange(input, e.offset as usize, input.len());
    assert(local_header_area@ =~= input@.skip(e.offset as int));
    let data_start = match parse_local_file(local_header_area) {
        Ok(rest) => rest,
        Err(_) => {
            return Err(EpubError::InvalidZipMagic);
        },
    };
    if e.compressed_size as usize > data_start.len() {
        return Err(EpubError::BufferTooShort);
    }
    let file_bytes = vstd::slice::slice_subrange(data_start, 0, e.compressed_size as usize);
    proof {
        let n = spec_parse_local_file(input@.skip(e.offset as int))->Ok_0;
        assert(file_bytes@ =~= input@.subrange(e.offset + n, e.offset + n + e.compressed_size));
    }
    Ok(file_bytes)
}

/// Reads the content of `target` from the archive. Stored files are returned borrowed
/// from `input`; DEFLATE files are inflated into a new vector.
pub fn get_content<'a>(
    input: &'a [u8],
    target: &[u8],
    offset: Option<u32>,
    count: Option<u16>,
) -> (r: Result<Cow<'a, [u8]>, EpubError>)
    ensures
        match spec_get_content(input@, target@, offset, count) {
            Err(e) => r matches Err(x) && x == e,
            Ok(v) => r matches Ok(c) && c@ == v,
        },
        r matches Ok(c) ==> (c is Borrowed <==> is_stored(input@, target@, offset, count)),
{
    let (zipentry, _) = find_offset_and_size(input, target, offset, count)?;
    let file_bytes = entry_data(input, zipentry)?;
    if zipentry.compression_method == 0 {
        Ok(Cow::Borrowed(file_bytes))
    } else if zipentry.compression_method == 8 {
        match inflate_to_vec(file_bytes, zipentry.uncompressed_size as usize) {
            Some(decompressed) => Ok(Cow::Owned(decompressed)),
            None => Err(EpubError::DeflateError),
        }
    } else {
        Err(EpubError::Unknown)
    }
}

/// The content of `target` when it is read into a scratch buffer of `capacity` bytes.
pub open spec fn spec_get_content_buffer(
    d: Seq<u8>,
    target: Seq<u8>,
    offset: Option<u32>,
    count: Option<u16>,
    capacity: nat,
) -> Result<Seq<u8>, EpubError> {
    match spec_locate(d, target, offset, count) {
        Err(e) => Err(e),
        Ok((e, _)) => match spec_entry_data(d, e) {
            Err(x) => Err(x),
            Ok(raw) => if e.compression_method == 0 {
                if capacity < e.compressed_size {
                    Err(EpubError::ScratchBufferTooSmall)
                } else {
                    Ok(raw)
                }
            } else if e.compression_method == 8 {
                if capacity < e.uncompressed_size {
                    Err(EpubError::ScratchBufferTooSmall)
                } else {
                    match inflated_into(raw, capacity) {
                        None => Err(EpubError::DeflateError),
                        Some(v) => Ok(v),
                    }
                }
            } else {
                Err(EpubError::DeflateError)
            },
        },
    }
}

/// Whether a read of `target` into a scratch buffer of `capacity` bytes reaches the
/// inflation of a DEFLATE file.
pub open spec fn inflates_into_scratch(
    d: Seq<u8>,
    target: Seq<u8>,
    offset: Option<u32>,
    count: Option<u16>,
    capacity: nat,
) -> bool {
    spec_locate(d, target, offset, count) matches Ok((e, _)) && spec_entry_data(d, e) is Ok
        && e.compression_method == 8 && capacity >= e.uncompressed_size
}

/// Whether a scratch buffer of `capacity` bytes can hold `target` by the sizes that its
/// central-directory header gives: the stored size for a stored file, else the
/// uncompressed size.
pub open spec fn scratch_holds(
    d: Seq<u8>,
    target: Seq<u8>,
    offset: Option<u32>,
    count: Option<u16>,
    capacity: nat,
) -> bool {
    spec_locate(d, target, offset, count) matches Ok((e, _)) && if e.compression_method == 0 {
        capacity >= e.compressed_size
    } else {
        capacity >= e.uncompressed_size
    }
}

/// Reads the content of `target` into `scratch_buf` and returns the part of the buffer that
/// holds it, which is never longer than the buffer. Where the buffer can hold the file, the
/// bytes are those that a read without a scratch buffer gives. Where no inflation takes
/// place, the rest of the buffer is left as it was.
pub fn get_content_buffer<'b>(
    input: &[u8],
    target: &[u8],
    offset: Option<u32>,
    count: Option<u16>,
    scratch_buf: &'b mut [u8],
) -> (r: Result<&'b [u8], EpubError>)
    ensures
        final(scratch_buf)@.len() == old(scratch_buf)@.len(),
        match spec_get_content_buffer(
            input@,
            target@,
            offset,
            count,
            old(scratch_buf)@.len(),
        ) {
            Err(e) => r matches Err(x) && x == e,
            Ok(v) => r matches Ok(s) && s@ == v && v == final(scratch_buf)@.take(v.len() as int),
        },
        r matches Ok(s) ==> s@.len() <= old(scratch_buf)@.len(),
        scratch_holds(input@, target@, offset, count, old(scratch_buf)@.len()) ==> (spec_get_content(
            input@,
            target@,
            offset,
            count,
        ) matches Ok(v) ==> r matches Ok(s) && s@ == v),
        !inflates_into_scratch(input@, target@, offset, count, old(scratch_buf)@.len())
            ==> final(scratch_buf)@ == match r {
            Ok(s) => s@ + old(scratch_buf)@.skip(s@.len() as int),
            Err(_) => old(scratch_buf)@,
        },
{
    let (zipentry, _) = match find_offset_and_size(input, target, offset, count) {
        Ok(found) => found,
        Err(e) => {
            return Err(e);
        },
    };
    let file_bytes = match entry_data(input, zipentry) {
        Ok(b) => b,
        Err(e) => {
            return Err(e);
        },
    };
    if zipentry.compression_method == 0 {
        let size = zipentry.compressed_size as usize;
        if scratch_buf.len() < size {
            return Err(EpubError::ScratchBufferTooSmall);
        }
        let ghost start = scratch_buf@;
        let mut k: usize = 0;
        while k < size
            invariant
                size == file_bytes@.len(),
                size <= scratch_buf@.len(),
                scratch_buf@.len() == start.len(),
                k <= size,
                forall|j: int| 0 <= j < k ==> scratch_buf@[j] == file_bytes@[j],
                forall|j: int| k <= j < start.len() ==> scratch_buf@[j] == start[j],
            decreases size - k,
        {
            scratch_buf[k] = file_bytes[k];
            k = k + 1;
        }
        let filled: &'b [u8] = scratch_buf;
        let out = vstd::slice::slice_subrange(filled, 0, size);
        assert(out@ =~= file_bytes@);
        assert(filled@ =~= out@ + start.skip(size as int));
        Ok(out)
    } else if zipentry.compression_method == 8 {
        if scratch_buf.len() < zipentry.uncompressed_size as usize {
            return Err(EpubError::ScratchBufferTooSmall);
        }
        let ghost limit = zipentry.uncompressed_size as usize;
        let ghost cap = scratch_buf@.len();
        let res = inflate_to_slice(scratch_buf, file_bytes);
        proof {
            if inflated_with_limit(file_bytes@, limit) is Some {
                assert(limit <= cap);
            }
        }
        match res {
            Some(bytes_written) => {
                let filled: &'b [u8] = scratch_buf;
                let out = vstd::slice::slice_subrange(filled, 0, bytes_written);
                Ok(out)
            },
            None => Err(EpubError::DeflateError),
        }
    } else {
        Err(EpubError::DeflateError)
    }
}

/// The path of the package document that `META-INF/container.xml` names: the `full-path`
/// attribute of the first `rootfile` element, decoded and unescaped. The scan stops with
/// nothing at the end of the document, at a read error, at a `rootfile` element without that
/// attribute, and at a value that cannot be decoded.
pub open spec fn opf_path_of(events: Seq<XmlEventView>) -> Option<Seq<char>>
    decreases events.len(),
{
    if events.len() == 0 {
        None
    } else {
        match events[0] {
            XmlEventView::Eof => None,
            XmlEventView::Error => None,
            XmlEventView::Start(t) => if t.name == "rootfile".spec_bytes() {
                match first_attr(t.attributes, "full-path".spec_bytes()) {
                    None => None,
                    Some(v) => attr_text(v),
                }
            } else {
                opf_path_of(events.drop_first())
            },
            XmlEventView::Empty(t) => if t.name == "rootfile".spec_bytes() {
                match first_attr(t.attributes, "full-path".spec_bytes()) {
                    None => None,
                    Some(v) => attr_text(v),
                }
            } else {
                opf_path_of(events.drop_first())
            },
            _ => opf_path_of(events.drop_first()),
        }
    }
}

/// Finds the package document's path in the events of `META-INF/container.xml`.
pub fn opf_path_from_events(events: &Vec<XmlEvent>) -> (r: Option<String>)
    ensures
        match opf_path_of(events_view(events@)) {
            None => r is None,
            Some(p) => r matches Some(s) && s@ == p,
        },
{
    let mut i: usize = 0;
    assert(events_view(events@).skip(0) =~= events_view(events@));
    while i < events.len()
        invariant
            i <= events@.len(),
            opf_path_of(events_view(events@).skip(i as int)) == opf_path_of(events_view(events@)),
        decreases events@.len() - i,
    {
        let ghost rest = events_view(events@).skip(i as int);
        assert(rest[0] == events@[i as int]@);
        assert(rest.drop_first() =~= events_view(events@).skip(i + 1));
        match &events[i] {
            XmlEvent::Eof => {
                return None;
            },
            XmlEvent::Error => {
                return None;
            },
            XmlEvent::Start(t) | XmlEvent::Empty(t) => {
                if crate::bytes::bytes_eq(t.0.as_slice(), "rootfile".as_bytes()) {
                    return match find_attr(&t.1, "full-path".as_bytes()) {
                        None => None,
                        Some(v) => attribute_value(v.as_slice()),
                    };
                }
            },
            _ => {},
        }
        i = i + 1;
    }
    assert(events_view(events@).skip(i as int).len() == 0);
    None
}

/// Reads `META-INF/container.xml` and gives the path of the package document.
pub fn extract_opf_path(content: &[u8]) -> (r: Option<String>)
    ensures
        match opf_path_of(xml_events(content@)) {
            None => r is None,
            Some(p) => r matches Some(s) && s@ == p,
        },
{
    let events = read_xml_events(content);
    opf_path_from_events(&events)
}


/// Law: a lookup with the central-directory location that an uncached lookup found gives
/// the same result as an uncached lookup, for any file, with or without a scratch buffer.
pub proof fn lemma_cached_location_lookup(
    d: Seq<u8>,
    found: Seq<u8>,
    target: Seq<u8>,
    capacity: nat,
)
    requires
        spec_locate(d, found, None, None) is Ok,
    ensures
        ({
            let ctx = spec_locate(d, found, None, None)->Ok_0.1;
            &&& spec_get_content(d, target, Some(ctx.cd_offset), Some(ctx.file_count))
                == spec_get_content(d, target, None, None)
            &&& spec_get_content_buffer(
                d,
                target,
                Some(ctx.cd_offset),
                Some(ctx.file_count),
                capacity,
            ) == spec_get_content_buffer(d, target, None, None, capacity)
        }),
{
    let ctx = spec_locate(d, found, None, None)->Ok_0.1;
    assert(spec_zip_context(d, Some(ctx.cd_offset), Some(ctx.file_count)) == spec_zip_context(
        d,
        None,
        None,
    ));
}

/// Law: a stored file read into a scratch buffer that can hold it gives the same bytes as
/// a read without one.
pub proof fn lemma_scratch_read_of_stored(
    d: Seq<u8>,
    target: Seq<u8>,
    offset: Option<u32>,
    count: Option<u16>,
    capacity: nat,
)
    requires
        is_stored(d, target, offset, count),
        spec_get_content(d, target, offset, count) is Ok,
        capacity >= spec_get_content(d, target, offset, count)->Ok_0.len(),
    ensures
        spec_get_content_buffer(d, target, offset, count, capacity) == spec_get_content(
            d,
            target,
            offset,
            count,
        ),
{
}


/// Law: a file's data is read from right after its local header, whatever extra field
/// that header carries: where the archive holds, at the entry's offset, a local header
/// (its 30 fixed bytes, the name and the extra field) followed by `data` of the entry's
/// compressed size, those are the entry's bytes; and a stored file located there reads
/// back as exactly `data`.
pub proof fn lemma_stored_file_reads_back(
    d: Seq<u8>,
    target: Seq<u8>,
    offset: Option<u32>,
    count: Option<u16>,
    fixed: Seq<u8>,
    name: Seq<u8>,
    extra: Seq<u8>,
    data: Seq<u8>,
)
    requires
        spec_locate(d, target, offset, count) is Ok,
        fixed.len() == 30,
        fixed.take(4) == local_magic(),
        le16(fixed, 26) == name.len(),
        le16(fixed, 28) == extra.len(),
        ({
            let e = spec_locate(d, target, offset, count)->Ok_0.0;
            let rec = fixed + name + extra + data;
            &&& data.len() == e.compressed_size
            &&& e.offset + rec.len() <= d.len()
            &&& d.subrange(e.offset as int, e.offset + rec.len()) == rec
        }),
    ensures
        spec_entry_data(d, spec_locate(d, target, offset, count)->Ok_0.0) == Ok::<Seq<u8>, EpubError>(data),
        spec_locate(d, target, offset, count)->Ok_0.0.compression_method == 0 ==> spec_get_content(
            d,
            target,
            offset,
            count,
        ) == Ok::<Seq<u8>, EpubError>(data),
{
    let e = spec_locate(d, target, offset, count)->Ok_0.0;
    let h = fixed + name + extra;
    let rec = h + data;
    let tail = d.skip(e.offset as int);
    let rest = tail.skip(h.len() as int);
    crate::central_directory::lemma_local_header_layout(fixed, name, extra, rest);
    assert(tail =~= h + rest) by {
        assert forall|i: int| 0 <= i < h.len() implies tail[i] == h[i] by {
            assert(tail[i] == d[e.offset + i]);
            assert(d.subrange(e.offset as int, e.offset + rec.len())[i] == rec[i]);
        }
    }
    let start = e.offset + h.len();
    assert(d.subrange(start, start + e.compressed_size) =~= data) by {
        assert forall|i: int| 0 <= i < data.len() implies d[start + i] == data[i] by {
            assert(d.subrange(e.offset as int, e.offset + rec.len())[h.len() + i] == rec[h.len() + i]);
        }
    }
}

} // verus!
