use std::borrow::Cow;

use light_epub::book::Book;
use light_epub::errors::EpubError;
use light_epub::ocf::find_offset_and_size;
use light_epub::opf::resolve_path;

/// One file of a test archive: name, stored bytes, compression method, uncompressed size.
struct TestFile {
    name: &'static str,
    data: Vec<u8>,
    method: u16,
    size: u32,
}

fn stored(name: &'static str, data: &[u8]) -> TestFile {
    TestFile { name, data: data.to_vec(), method: 0, size: data.len() as u32 }
}

fn deflated(name: &'static str, data: &[u8]) -> TestFile {
    let packed = miniz_oxide::deflate::compress_to_vec(data, 6);
    TestFile { name, data: packed, method: 8, size: data.len() as u32 }
}

fn push16(v: &mut Vec<u8>, x: u16) {
    v.extend_from_slice(&x.to_le_bytes());
}

fn push32(v: &mut Vec<u8>, x: u32) {
    v.extend_from_slice(&x.to_le_bytes());
}

fn build_zip(files: &[TestFile], comment: &[u8]) -> Vec<u8> {
    let mut out = Vec::new();
    let mut offsets = Vec::new();
    for f in files {
        offsets.push(out.len() as u32);
        out.extend_from_slice(b"PK\x03\x04");
        push16(&mut out, 20);
        push16(&mut out, 0);
        push16(&mut out, f.method);
        push16(&mut out, 0);
        push16(&mut out, 0);
        push32(&mut out, 0);
        push32(&mut out, f.data.len() as u32);
        push32(&mut out, f.size);
        push16(&mut out, f.name.len() as u16);
        push16(&mut out, 0);
        out.extend_from_slice(f.name.as_bytes());
        out.extend_from_slice(&f.data);
    }
    let cd_start = out.len() as u32;
    for (f, off) in files.iter().zip(offsets.iter()) {
        out.extend_from_slice(b"PK\x01\x02");
        push16(&mut out, 20);
        push16(&mut out, 20);
        push16(&mut out, 0);
        push16(&mut out, f.method);
        push16(&mut out, 0);
        push16(&mut out, 0);
        push32(&mut out, 0);
        push32(&mut out, f.data.len() as u32);
        push32(&mut out, f.size);
        push16(&mut out, f.name.len() as u16);
        push16(&mut out, 0);
        push16(&mut out, 0);
        push16(&mut out, 0);
        push16(&mut out, 0);
        push32(&mut out, 0);
        push32(&mut out, *off);
        out.extend_from_slice(f.name.as_bytes());
    }
    let cd_size = out.len() as u32 - cd_start;
    out.extend_from_slice(b"PK\x05\x06");
    push16(&mut out, 0);
    push16(&mut out, 0);
    push16(&mut out, files.len() as u16);
    push16(&mut out, files.len() as u16);
    push32(&mut out, cd_size);
    push32(&mut out, cd_start);
    push16(&mut out, comment.len() as u16);
    out.extend_from_slice(comment);
    out
}

const CONTAINER: &[u8] = br#"<?xml version="1.0"?>
<container version="1.0" xmlns="urn:oasis:names:tc:opendocument:xmlns:container">
  <rootfiles><rootfile full-path="OEBPS/content.opf" media-type="application/oebps-package+xml"/></rootfiles>
</container>"#;

const OPF: &[u8] = br#"<?xml version="1.0" encoding="UTF-8"?>
<package xmlns="http://www.idpf.org/2007/opf" version="2.0">
  <metadata xmlns:dc="http://purl.org/dc/elements/1.1/">
    <dc:title>Test Book</dc:title>
    <dc:creator>Jane Doe</dc:creator>
    <meta name="cover" content="cover"/>
  </metadata>
  <manifest>
    <item id="ncx" href="toc.ncx" media-type="application/x-dtbncx+xml"/>
    <item id="cover" href="images/cover.png" media-type="image/png"/>
    <item id="c1" href="text/ch1.xhtml" media-type="application/xhtml+xml"/>
    <item id="c2" href="text/ch2.xhtml" media-type="application/xhtml+xml"/>
  </manifest>
  <spine toc="ncx"><itemref idref="c1"/><itemref idref="c2"/></spine>
</package>"#;

const NCX: &[u8] = br#"<ncx><navMap>
  <navPoint id="p1"><navLabel><text>Chapter One</text></navLabel><content src="text/ch1.xhtml"/></navPoint>
  <navPoint id="p2"><navLabel><text>Chapter Two</text></navLabel><content src="text/ch2.xhtml"/></navPoint>
</navMap></ncx>"#;

const CH1: &[u8] = b"<html><body><p>first chapter</p></body></html>";
const CH2: &[u8] = b"<html><body><p>second chapter, second chapter, second chapter</p></body></html>";
const COVER: &[u8] = b"\x89PNG fake image bytes";

fn sample_epub() -> Vec<u8> {
    build_zip(
        &[
            stored("mimetype", b"application/epub+zip"),
            stored("META-INF/container.xml", CONTAINER),
            deflated("OEBPS/content.opf", OPF),
            stored("OEBPS/toc.ncx", NCX),
            stored("OEBPS/text/ch1.xhtml", CH1),
            deflated("OEBPS/text/ch2.xhtml", CH2),
            stored("OEBPS/images/cover.png", COVER),
        ],
        b"",
    )
}

#[test]
fn book_opens() {
    let data = sample_epub();
    let book = Book::new(&data).unwrap();
    assert_eq!(book.package.title, "Test Book");
    assert_eq!(book.package.author, "Jane Doe");
    assert_eq!(book.package.toc.as_deref(), Some("OEBPS/toc.ncx"));
    assert_eq!(book.package.cover.as_deref(), Some("OEBPS/images/cover.png"));
    let spine = book.package.spine.as_ref().unwrap();
    assert_eq!(spine.items.len(), 2);
    assert_eq!(spine.items[1].href, "OEBPS/text/ch2.xhtml");
    let (_, ctx) = find_offset_and_size(&data, b"mimetype", None, None).unwrap();
    assert_eq!(book.offset, ctx.cd_offset);
    assert_eq!(book.file_count, 7);
}

#[test]
fn metadata_fast_path() {
    let data = sample_epub();
    let meta = Book::get_metadata(&data).unwrap();
    assert_eq!(meta.title, "Test Book");
    assert_eq!(meta.author, "Jane Doe");
    assert!(meta.spine.is_none());
}

#[test]
fn metadata_agrees_with_the_book() {
    let data = sample_epub();
    let meta = Book::get_metadata(&data).unwrap();
    let book = Book::new(&data).unwrap();
    assert_eq!(meta.title, book.package.title);
    assert_eq!(meta.author, book.package.author);
    assert_eq!(meta.toc, book.package.toc);
    assert_eq!(meta.cover, book.package.cover);
}

#[test]
fn chapters_are_read() {
    let data = sample_epub();
    let book = Book::new(&data).unwrap();
    match book.get_chapter(&data, 0, None).unwrap() {
        Cow::Borrowed(b) => assert_eq!(b, CH1),
        Cow::Owned(_) => panic!("a stored chapter is borrowed"),
    }
    match book.get_chapter(&data, 1, None).unwrap() {
        Cow::Owned(v) => assert_eq!(v, CH2),
        Cow::Borrowed(_) => panic!("a deflated chapter is inflated"),
    }
    assert_eq!(book.get_chapter(&data, 2, None).err(), Some(EpubError::FileNotFound));
}

#[test]
fn chapters_into_scratch_buffers() {
    let data = sample_epub();
    let book = Book::new(&data).unwrap();
    let mut scratch = [0u8; 4096];
    let got = book.get_chapter(&data, 1, Some(&mut scratch)).unwrap();
    assert_eq!(&*got, CH2);
    let mut scratch = [0u8; 4096];
    let got = book.get_chapter(&data, 0, Some(&mut scratch)).unwrap();
    assert_eq!(&*got, CH1);
    let mut tiny = [0u8; 3];
    assert_eq!(
        book.get_chapter(&data, 0, Some(&mut tiny)).err(),
        Some(EpubError::ScratchBufferTooSmall)
    );
}

#[test]
fn scratch_buffer_keeps_what_a_stored_read_does_not_cover() {
    let data = sample_epub();
    let book = Book::new(&data).unwrap();
    let mut scratch = [0xAAu8; 4096];
    let n = book.get_chapter(&data, 0, Some(&mut scratch)).unwrap().len();
    assert_eq!(n, CH1.len());
    assert_eq!(&scratch[..n], CH1);
    assert!(scratch[n..].iter().all(|&b| b == 0xAA));
    let mut untouched = [0x55u8; 64];
    assert_eq!(
        book.get_chapter(&data, 9, Some(&mut untouched)).err(),
        Some(EpubError::FileNotFound)
    );
    assert!(untouched.iter().all(|&b| b == 0x55));
    let mut small = [0x77u8; 8];
    assert_eq!(
        book.get_resource_by_path(&data, "OEBPS/images/cover.png", Some(&mut small)).err(),
        Some(EpubError::ScratchBufferTooSmall)
    );
    assert!(small.iter().all(|&b| b == 0x77));
}

#[test]
fn resources_resolve_against_the_chapter() {
    let data = sample_epub();
    let book = Book::new(&data).unwrap();
    let img = book.get_resource(&data, 0, "../images/cover.png", None).unwrap();
    assert_eq!(&*img, COVER);
    assert_eq!(
        book.get_resource(&data, 0, "../images/none.png", None).err(),
        Some(EpubError::FileNotFound)
    );
    assert_eq!(
        book.get_resource(&data, 5, "x.png", None).err(),
        Some(EpubError::FileNotFound)
    );
    let long = "a/".repeat(200);
    assert_eq!(book.get_resource(&data, 0, &long, None).err(), Some(EpubError::FileNotFound));
}

#[test]
fn resource_is_the_read_of_its_resolved_path() {
    let data = sample_epub();
    let book = Book::new(&data).unwrap();
    let chapter = &book.package.spine.as_ref().unwrap().items[0].href;
    let mut buf = [0u8; 256];
    let path = resolve_path(chapter, "../images/cover.png", &mut buf).unwrap().to_string();
    let a = book.get_resource(&data, 0, "../images/cover.png", None).unwrap().into_owned();
    let b = book.get_resource_by_path(&data, &path, None).unwrap().into_owned();
    assert_eq!(a, b);
}

#[test]
fn deflated_chapter_in_scratch_matches_plain_read() {
    let data = sample_epub();
    let book = Book::new(&data).unwrap();
    let plain = book.get_chapter(&data, 1, None).unwrap().into_owned();
    let mut scratch = [0u8; 4096];
    let buffered = book.get_chapter(&data, 1, Some(&mut scratch)).unwrap().into_owned();
    assert_eq!(plain, buffered);
}

#[test]
fn resources_by_path() {
    let data = sample_epub();
    let book = Book::new(&data).unwrap();
    let img = book.get_resource_by_path(&data, "OEBPS/images/cover.png", None).unwrap();
    assert_eq!(&*img, COVER);
    let raw = Book::get_raw_content(&data, b"OEBPS/images/cover.png", None, None).unwrap();
    assert_eq!(&*raw, COVER);
}

#[test]
fn book_reads_match_raw_reads() {
    let data = sample_epub();
    let book = Book::new(&data).unwrap();
    for path in ["OEBPS/text/ch1.xhtml", "OEBPS/text/ch2.xhtml", "OEBPS/nothing"] {
        let cached = book.get_resource_by_path(&data, path, None).map(|c| c.into_owned());
        let fresh = Book::get_raw_content(&data, path.as_bytes(), None, None).map(|c| c.into_owned());
        assert_eq!(cached, fresh);
    }
}

#[test]
fn ncx_table_of_contents() {
    let data = sample_epub();
    let book = Book::new(&data).unwrap();
    let toc = book.get_toc(&data).unwrap();
    assert_eq!(toc.len(), 2);
    assert_eq!(toc[0].title, "Chapter One");
    assert_eq!(toc[1].title, "Chapter Two");
    assert_eq!(toc[1].spine_index, 1);
}

#[test]
fn nav_table_of_contents() {
    let opf = br#"<package><metadata><title>N</title></metadata><manifest>
        <item id="nav" href="nav.xhtml" properties="nav"/>
        <item id="c1" href="ch1.xhtml"/></manifest>
        <spine><itemref idref="c1"/></spine></package>"#;
    let nav = br#"<html><body><nav><ol><li><a href="ch1.xhtml">Only</a></li></ol></nav></body></html>"#;
    let container = br#"<container><rootfiles><rootfile full-path="content.opf"/></rootfiles></container>"#;
    let data = build_zip(
        &[
            stored("mimetype", b"application/epub+zip"),
            stored("META-INF/container.xml", container),
            stored("content.opf", opf),
            stored("nav.xhtml", nav),
            stored("ch1.xhtml", CH1),
        ],
        b"",
    );
    let book = Book::new(&data).unwrap();
    let toc = book.get_toc(&data).unwrap();
    assert_eq!(toc.len(), 1);
    assert_eq!(toc[0].title, "Only");
    assert_eq!(toc[0].spine_index, 0);
}

#[test]
fn opening_errors() {
    let mut bad = sample_epub();
    bad[0] = b'Q';
    assert_eq!(Book::new(&bad).err(), Some(EpubError::InvalidZipMagic));

    let no_container = build_zip(&[stored("mimetype", b"application/epub+zip")], b"");
    assert_eq!(Book::new(&no_container).err(), Some(EpubError::ContainerNotFound));
    assert_eq!(Book::get_metadata(&no_container).err(), Some(EpubError::ContainerNotFound));

    let no_path = build_zip(
        &[
            stored("mimetype", b"application/epub+zip"),
            stored("META-INF/container.xml", b"<container/>"),
        ],
        b"",
    );
    assert_eq!(Book::new(&no_path).err(), Some(EpubError::OpfNotFound));

    let empty_opf = build_zip(
        &[
            stored("mimetype", b"application/epub+zip"),
            stored("META-INF/container.xml", CONTAINER),
            stored("OEBPS/content.opf", b"<package/>"),
        ],
        b"",
    );
    assert_eq!(Book::new(&empty_opf).err(), Some(EpubError::MalformedXml));
    assert_eq!(Book::get_metadata(&empty_opf).err(), Some(EpubError::MalformedXml));

    let mut truncated = sample_epub();
    truncated.truncate(truncated.len() - 5);
    assert_eq!(Book::new(&truncated).err(), Some(EpubError::EocdNotFound));
}

#[test]
fn toc_missing() {
    let opf = br#"<package><metadata><title>N</title></metadata><manifest>
        <item id="c1" href="ch1.xhtml"/></manifest><spine><itemref idref="c1"/></spine></package>"#;
    let container = br#"<container><rootfiles><rootfile full-path="content.opf"/></rootfiles></container>"#;
    let data = build_zip(
        &[
            stored("mimetype", b"application/epub+zip"),
            stored("META-INF/container.xml", container),
            stored("content.opf", opf),
            stored("ch1.xhtml", CH1),
        ],
        b"",
    );
    let book = Book::new(&data).unwrap();
    assert_eq!(book.get_toc(&data).err(), Some(EpubError::OpfNotFound));
}

#[test]
fn error_messages() {
    assert_eq!(EpubError::BufferTooShort.message(), "Provided buffer is too small");
    assert_eq!(EpubError::MimetypeInvalid.message(), "mimetype content must be 'application/epub+zip'");
    assert_eq!(
        EpubError::ScratchBufferTooSmall.message(),
        "Scratch buffer is smaller than uncompressed size"
    );
    assert_eq!(EpubError::Unknown.message(), "An unknown parsing error occurred");
}
