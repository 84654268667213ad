use std::borrow::Cow;

use light_epub::central_directory::{
    find_entry, find_eocd, parse_cd_header, parse_eocd, parse_local_file, ParseFailure,
};
use light_epub::errors::EpubError;
use light_epub::ocf::{
    find_offset_and_size, get_content, get_content_buffer, parse_epub_header, valid_epub,
};

/// One file of a test archive: name, stored bytes, compression method, uncompressed size.
struct TestFile {
    name: &'static str,
    data: Vec<u8>,
    method: u16,
    size: u32,
}

fn stored(name: &'static str, data: &[u8]) -> TestFile {
    TestFile { name, data: data.to_vec(), method: 0, size: data.len() as u32 }
}

fn deflated(name: &'static str, data: &[u8]) -> TestFile {
    let packed = miniz_oxide::deflate::compress_to_vec(data, 6);
    TestFile { name, data: packed, method: 8, size: data.len() as u32 }
}

fn push16(v: &mut Vec<u8>, x: u16) {
    v.extend_from_slice(&x.to_le_bytes());
}

fn push32(v: &mut Vec<u8>, x: u32) {
    v.extend_from_slice(&x.to_le_bytes());
}

fn build_zip(files: &[TestFile], comment: &[u8]) -> Vec<u8> {
    let mut out = Vec::new();
    let mut offsets = Vec::new();
    for f in files {
        offsets.push(out.len() as u32);
        out.extend_from_slice(b"PK\x03\x04");
        push16(&mut out, 20);
        push16(&mut out, 0);
        push16(&mut out, f.method);
        push16(&mut out, 0);
        push16(&mut out, 0);
        push32(&mut out, 0);
        push32(&mut out, f.data.len() as u32);
        push32(&mut out, f.size);
        push16(&mut out, f.name.len() as u16);
        push16(&mut out, 0);
        out.extend_from_slice(f.name.as_bytes());
        out.extend_from_slice(&f.data);
    }
    let cd_start = out.len() as u32;
    for (f, off) in files.iter().zip(offsets.iter()) {
        out.extend_from_slice(b"PK\x01\x02");
        push16(&mut out, 20);
        push16(&mut out, 20);
        push16(&mut out, 0);
        push16(&mut out, f.method);
        push16(&mut out, 0);
        push16(&mut out, 0);
        push32(&mut out, 0);
        push32(&mut out, f.data.len() as u32);
        push32(&mut out, f.size);
        push16(&mut out, f.name.len() as u16);
        push16(&mut out, 0);
        push16(&mut out, 0);
        push16(&mut out, 0);
        push16(&mut out, 0);
        push32(&mut out, 0);
        push32(&mut out, *off);
        out.extend_from_slice(f.name.as_bytes());
    }
    let cd_size = out.len() as u32 - cd_start;
    out.extend_from_slice(b"PK\x05\x06");
    push16(&mut out, 0);
    push16(&mut out, 0);
    push16(&mut out, files.len() as u16);
    push16(&mut out, files.len() as u16);
    push32(&mut out, cd_size);
    push32(&mut out, cd_start);
    push16(&mut out, comment.len() as u16);
    out.extend_from_slice(comment);
    out
}

fn sample_zip() -> Vec<u8> {
    build_zip(
        &[
            stored("mimetype", b"application/epub+zip"),
            stored("a.txt", b"hello stored"),
            deflated("b.txt", b"hello hello hello hello deflated world"),
        ],
        b"",
    )
}

#[test]
fn cd_header_is_read_field_by_field() {
    let zip = sample_zip();
    let (_, ctx) = find_offset_and_size(&zip, b"a.txt", None, None).unwrap();
    let cd = &zip[ctx.cd_offset as usize..];
    let (rest, entry) = parse_cd_header(cd).unwrap();
    assert_eq!(entry.file_name, b"mimetype");
    assert_eq!(entry.offset, 0);
    assert_eq!(entry.compressed_method, 0);
    assert_eq!(entry.compressed_size, 20);
    assert_eq!(entry.uncompressed_size, 20);
    assert_eq!(rest.len(), cd.len() - 46 - 8);
}

#[test]
fn cd_header_rejects_bad_magic_and_short_input() {
    assert!(parse_cd_header(b"PK\x01\x03aaaaaaaaaaaaaaaaaaaaaaaaaaaaaaaaaaaaaaaaaaaaaaa").is_none());
    assert!(parse_cd_header(b"PK\x01\x02").is_none());
}

#[test]
fn find_entry_walks_the_directory() {
    let zip = sample_zip();
    let (_, ctx) = find_offset_and_size(&zip, b"a.txt", None, None).unwrap();
    let cd = &zip[ctx.cd_offset as usize..];
    let e = find_entry(cd, 3, b"b.txt").unwrap();
    assert_eq!(e.compressed_method, 8);
    assert_eq!(e.uncompressed_size, 38);
    assert!(find_entry(cd, 3, b"c.txt").is_none());
    // only the first two headers are looked at
    assert!(find_entry(cd, 2, b"b.txt").is_none());
}

#[test]
fn eocd_is_found_with_and_without_comment() {
    let zip = sample_zip();
    assert_eq!(find_eocd(&zip), Some(zip.len() - 22));
    let with_comment = build_zip(&[stored("mimetype", b"application/epub+zip")], b"a comment");
    assert_eq!(find_eocd(&with_comment), Some(with_comment.len() - 22 - 9));
    assert_eq!(find_eocd(b"PK\x05\x06"), None);
    let mut broken = zip.clone();
    broken.push(0);
    assert_eq!(find_eocd(&broken), None);
}

#[test]
fn eocd_record_fields() {
    let zip = sample_zip();
    let i = find_eocd(&zip).unwrap();
    let (rest, (count, start)) = parse_eocd(&zip[i..]).unwrap();
    assert_eq!(count, 3);
    assert_eq!(start as usize, i - 3 * 46 - (8 + 5 + 5));
    assert_eq!(rest.len(), 2);
    assert!(parse_eocd(b"PK\x05\x07xxxxxxxxxxxxxxxxxx").is_none());
}

#[test]
fn local_file_header_errors() {
    assert_eq!(parse_local_file(b"PK\x03"), Err(ParseFailure::Tag));
    assert_eq!(parse_local_file(b"XK\x03\x04"), Err(ParseFailure::Tag));
    assert_eq!(parse_local_file(b"PK\x03\x04short"), Err(ParseFailure::Eof));
    let zip = sample_zip();
    let rest = parse_local_file(&zip).unwrap();
    assert_eq!(&rest[..20], b"application/epub+zip");
}

#[test]
fn epub_header_is_accepted() {
    let zip = sample_zip();
    assert_eq!(valid_epub(&zip), Ok(()));
    let rest = parse_epub_header(&zip).unwrap();
    assert_eq!(rest.len(), zip.len() - 58);
}

#[test]
fn epub_header_errors() {
    let mut bad_magic = sample_zip();
    bad_magic[0] = b'X';
    assert_eq!(valid_epub(&bad_magic), Err(EpubError::InvalidZipMagic));

    let compressed = build_zip(&[deflated("mimetype", b"application/epub+zip")], b"");
    assert_eq!(valid_epub(&compressed), Err(EpubError::MimetypeCompressed));

    let wrong_name = build_zip(&[stored("mimetypes", b"application/epub+zip")], b"");
    assert_eq!(valid_epub(&wrong_name), Err(EpubError::MimetypeMissing));

    let other_name = build_zip(&[stored("mimetypx", b"application/epub+zip")], b"");
    assert_eq!(valid_epub(&other_name), Err(EpubError::MimetypeMissing));

    let wrong_content = build_zip(&[stored("mimetype", b"application/zip+epub")], b"");
    assert_eq!(valid_epub(&wrong_content), Err(EpubError::MimetypeInvalid));

    assert_eq!(valid_epub(b"PK\x03\x04\x14\x00"), Err(EpubError::BufferTooShort));
    assert_eq!(parse_epub_header(b"PK\x03\x04\x00\x00"), Err(EpubError::BufferTooShort));
    assert_eq!(valid_epub(b"PK"), Err(EpubError::BufferTooShort));
    let whole = sample_zip();
    assert_eq!(valid_epub(&whole[..35]), Err(EpubError::BufferTooShort));
    assert_eq!(valid_epub(&whole[..50]), Err(EpubError::BufferTooShort));

    let first_is_container = build_zip(
        &[stored("META-INF/", b""), stored("mimetype", b"application/epub+zip")],
        b"",
    );
    assert_eq!(valid_epub(&first_is_container), Err(EpubError::MimetypeMissing));
}

#[test]
fn locate_errors() {
    assert_eq!(
        find_offset_and_size(b"not a zip at all, definitely not", b"a", None, None).err(),
        Some(EpubError::EocdNotFound)
    );
    let zip = sample_zip();
    assert_eq!(
        find_offset_and_size(&zip, b"a.txt", Some(zip.len() as u32 + 1), Some(3)).err(),
        Some(EpubError::BufferTooShort)
    );
    assert_eq!(
        find_offset_and_size(&zip, b"nope", None, None).err(),
        Some(EpubError::FileNotFound)
    );
}

#[test]
fn stored_content_is_borrowed() {
    let zip = sample_zip();
    match get_content(&zip, b"a.txt", None, None).unwrap() {
        Cow::Borrowed(b) => assert_eq!(b, b"hello stored"),
        Cow::Owned(_) => panic!("stored content must be borrowed"),
    }
}

#[test]
fn deflated_content_is_inflated() {
    let zip = sample_zip();
    match get_content(&zip, b"b.txt", None, None).unwrap() {
        Cow::Owned(v) => assert_eq!(v, b"hello hello hello hello deflated world"),
        Cow::Borrowed(_) => panic!("deflated content must be owned"),
    }
}

#[test]
fn content_errors() {
    let mut zip = build_zip(
        &[stored("mimetype", b"application/epub+zip"), stored("odd", b"abc")],
        b"",
    );
    // change the method of "odd" in the central directory to 9
    let (_, ctx) = find_offset_and_size(&zip, b"odd", None, None).unwrap();
    let second = ctx.cd_offset as usize + 46 + 8;
    zip[second + 10] = 9;
    assert_eq!(get_content(&zip, b"odd", None, None).err(), Some(EpubError::Unknown));
    let mut scratch = [0u8; 16];
    assert_eq!(
        get_content_buffer(&zip, b"odd", None, None, &mut scratch).err(),
        Some(EpubError::DeflateError)
    );
    zip[second + 10] = 8;
    assert_eq!(get_content(&zip, b"odd", None, None).err(), Some(EpubError::DeflateError));
}

#[test]
fn scratch_buffer_reads() {
    let zip = sample_zip();
    let mut scratch = [0u8; 64];
    let got = get_content_buffer(&zip, b"a.txt", None, None, &mut scratch).unwrap();
    assert_eq!(got, b"hello stored");
    let mut scratch = [0u8; 64];
    let got = get_content_buffer(&zip, b"b.txt", None, None, &mut scratch).unwrap();
    assert_eq!(got, b"hello hello hello hello deflated world");
    let mut small = [0u8; 4];
    assert_eq!(
        get_content_buffer(&zip, b"a.txt", None, None, &mut small).err(),
        Some(EpubError::ScratchBufferTooSmall)
    );
    assert_eq!(
        get_content_buffer(&zip, b"b.txt", None, None, &mut small).err(),
        Some(EpubError::ScratchBufferTooSmall)
    );
}

#[test]
fn cached_location_gives_the_same_lookups() {
    let zip = sample_zip();
    let (_, ctx) = find_offset_and_size(&zip, b"mimetype", None, None).unwrap();
    for name in [&b"a.txt"[..], b"b.txt", b"missing"] {
        let fresh = get_content(&zip, name, None, None);
        let cached = get_content(&zip, name, Some(ctx.cd_offset), Some(ctx.file_count));
        assert_eq!(fresh.map(|c| c.into_owned()), cached.map(|c| c.into_owned()));
    }
}

#[test]
fn scratch_read_of_stored_matches_plain_read() {
    let zip = sample_zip();
    let plain = get_content(&zip, b"a.txt", None, None).unwrap().into_owned();
    let mut scratch = [0u8; 12];
    let buffered = get_content_buffer(&zip, b"a.txt", None, None, &mut scratch).unwrap();
    assert_eq!(plain, buffered);
}

#[test]
fn scratch_read_of_deflated_matches_plain_read() {
    let zip = sample_zip();
    let plain = get_content(&zip, b"b.txt", None, None).unwrap().into_owned();
    let mut scratch = [0u8; 38];
    let buffered = get_content_buffer(&zip, b"b.txt", None, None, &mut scratch).unwrap();
    assert_eq!(plain, buffered);
    assert!(buffered.len() <= 38);
}

#[test]
fn a_lone_offset_or_count_is_ignored() {
    let zip = sample_zip();
    let fresh = find_offset_and_size(&zip, b"b.txt", None, None).unwrap();
    let with_offset = find_offset_and_size(&zip, b"b.txt", Some(12345), None).unwrap();
    let with_count = find_offset_and_size(&zip, b"b.txt", None, Some(0)).unwrap();
    assert_eq!(fresh, with_offset);
    assert_eq!(fresh, with_count);
    assert_eq!(
        find_offset_and_size(b"no end record here at all.....", b"b.txt", Some(0), None).err(),
        Some(EpubError::EocdNotFound)
    );
}
