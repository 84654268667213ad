//! A loaded EPUB book.
use vstd::prelude::*;
use vstd::string::StringSliceAdditionalSpecFns;
use std::borrow::Cow;
use vstd::utf8::{decode_utf8, encode_utf8};

use crate::errors::EpubError;
use crate::nav::{
    all_in_spine, ends_with, lemma_nav_toc_in_spine, lemma_ncx_toc_in_spine, ncx_toc_of, nodes,
    parse_nav_xhtml, parse_toc_ncx, xhtml_toc_of, NavItem,
};
use crate::ocf::{
    inflates_into_scratch, is_stored, scratch_holds, lemma_cached_location_lookup, extract_opf_path, find_offset_and_size, get_content, get_content_buffer, opf_path_of,
    spec_get_content, spec_get_content_buffer, spec_locate, spec_valid_epub, valid_epub,
    ZipContext,
};
use crate::opf::{lemma_metadata_only_package, package_of, parse_package, resolve_path, resolved, Package, PackageView, SpineItem};
use crate::xml::xml_events;

verus! {

/// Path of the container document that names the package document.
pub open spec fn container_path() -> Seq<u8> {
    "META-INF/container.xml".spec_bytes()
}

/// The error of a failed lookup of the container document: a missing container is
/// `ContainerNotFound`, any other failure is reported as it is.
pub open spec fn container_error(e: EpubError) -> EpubError {
    if e == EpubError::FileNotFound {
        EpubError::ContainerNotFound
    } else {
        e
    }
}

/// Opening an EPUB: check the OCF header, locate the central directory through the
/// container document, read the package document that it names and parse it. Gives the
/// package and the central directory's location.
pub open spec fn spec_open(d: Seq<u8>, metadata_only: bool) -> Result<(PackageView, ZipContext), EpubError> {
    match spec_valid_epub(d) {
        Err(e) => Err(e),
        Ok(_) => match spec_locate(d, container_path(), None, None) {
            Err(e) => Err(container_error(e)),
            Ok((_, ctx)) => match spec_get_content(
                d,
                container_path(),
                Some(ctx.cd_offset),
                Some(ctx.file_count),
            ) {
                Err(e) => Err(e),
                Ok(container) => match opf_path_of(xml_events(container)) {
                    None => Err(EpubError::OpfNotFound),
                    Some(opf_path) => match spec_get_content(
                        d,
                        encode_utf8(opf_path),
                        Some(ctx.cd_offset),
                        Some(ctx.file_count),
                    ) {
                        Err(e) => Err(e),
                        Ok(opf) => match package_of(
                            xml_events(opf),
                            encode_utf8(opf_path),
                            metadata_only,
                        ) {
                            None => Err(EpubError::MalformedXml),
                            Some(p) => Ok((p, ctx)),
                        },
                    },
                },
            },
        },
    }
}

/// The content of `path` read with the central directory at `ctx`: into a scratch buffer
/// of the given capacity, or, without one, borrowed or inflated.
pub open spec fn spec_fetch(d: Seq<u8>, path: Seq<u8>, ctx: ZipContext, scratch: Option<nat>) -> Result<
    Seq<u8>,
    EpubError,
> {
    match scratch {
        None => spec_get_content(d, path, Some(ctx.cd_offset), Some(ctx.file_count)),
        Some(cap) => spec_get_content_buffer(
            d,
            path,
            Some(ctx.cd_offset),
            Some(ctx.file_count),
            cap,
        ),
    }
}

/// The spine items of a package; none where it has no spine.
pub open spec fn spine_of(p: Package) -> Seq<SpineItem> {
    match p.spine {
        Some(s) => s.items@,
        None => Seq::empty(),
    }
}

/// The archive path of chapter `index`.
pub open spec fn chapter_path(p: Package, index: usize) -> Result<Seq<u8>, EpubError> {
    match p.spine {
        None => Err(EpubError::OpfNotFound),
        Some(s) => if index < s.items@.len() {
            Ok(encode_utf8(s.items@[index as int].href@))
        } else {
            Err(EpubError::FileNotFound)
        },
    }
}

/// The archive path of `relative`, resolved against the path of chapter `index` in a
/// buffer of 256 bytes.
pub open spec fn resource_path(p: Package, index: usize, relative: Seq<u8>) -> Result<Seq<u8>, EpubError> {
    match chapter_path(p, index) {
        Err(e) => Err(e),
        Ok(chapter) => match resolved(chapter, relative, 256) {
            None => Err(EpubError::FileNotFound),
            Some(out) => Ok(out),
        },
    }
}

/// Represents a loaded EPUB book: the parsed package, and the location of the archive's
/// central directory, kept for the lookups that follow.
pub struct Book {
    /// The parsed metadata, manifest, and spine information.
    pub package: Package,
    /// Where the central directory starts.
    pub offset: u32,
    /// How many entries the central directory holds.
    pub file_count: u16,
}

/// Whether a read of `path` with the central directory at `ctx` hands out a borrowed
/// slice: always into a scratch buffer, else exactly for stored files.
pub open spec fn reads_borrowed(d: Seq<u8>, path: Seq<u8>, ctx: ZipContext, scratch: bool) -> bool {
    scratch || is_stored(d, path, Some(ctx.cd_offset), Some(ctx.file_count))
}

/// What a read of `path` into a scratch buffer that held `before`, and holds `after`
/// afterwards, promises beyond its content: the bytes handed out are the start of the
/// buffer and no longer than it; where the buffer can hold the file, they are the bytes
/// that a read without a scratch buffer gives; and where nothing is inflated, the rest of
/// the buffer keeps what it held (all of it, where the read failed).
pub open spec fn scratch_read<'b>(
    d: Seq<u8>,
    path: Seq<u8>,
    ctx: ZipContext,
    before: Seq<u8>,
    after: Seq<u8>,
    r: Result<Cow<'b, [u8]>, EpubError>,
) -> bool {
    let offset = Some(ctx.cd_offset);
    let count = Some(ctx.file_count);
    &&& r matches Ok(c) ==> c@.len() <= before.len() && c@ == after.take(c@.len() as int)
    &&& scratch_holds(d, path, offset, count, before.len()) ==> (spec_get_content(
        d,
        path,
        offset,
        count,
    ) matches Ok(v) ==> r matches Ok(c) && c@ == v)
    &&& !inflates_into_scratch(d, path, offset, count, before.len()) ==> after == match r {
        Ok(c) => c@ + before.skip(c@.len() as int),
        Err(_) => before,
    }
}

/// The capacity of a scratch buffer, where one is given.
pub open spec fn scratch_capacity(scratch: Option<&mut [u8]>) -> Option<nat> {
    match scratch {
        Some(sb) => Some(sb@.len()),
        None => None,
    }
}

impl Book {
    /// Where the book's central directory is.
    pub open spec fn location(&self) -> ZipContext {
        ZipContext { cd_offset: self.offset, file_count: self.file_count }
    }

    /// Opens the book far enough to read its package document, and reads it.
    fn open(data: &[u8], metadata_only: bool) -> (r: Result<(Package, ZipContext), EpubError>)
        ensures
            match spec_open(data@, metadata_only) {
                Err(e) => r matches Err(x) && x == e,
                Ok((p, ctx)) => r matches Ok((q, c)) && q@ == p && c == ctx,
            },
    {
        valid_epub(data)?;
        let container = "META-INF/container.xml".as_bytes();
        let (_, context) = match find_offset_and_size(data, container, None, None) {
            Ok(found) => found,
            Err(EpubError::FileNotFound) => {
                return Err(EpubError::ContainerNotFound);
            },
            Err(e) => {
                return Err(e);
            },
        };
        let container_content = get_content(
            data,
            container,
            Some(context.cd_offset),
            Some(context.file_count),
        )?;
        let container_bytes: &[u8] = match &container_content {
            Cow::Borrowed(b) => b,
            Cow::Owned(v) => v.as_slice(),
        };
        let opf_path = match extract_opf_path(container_bytes) {
            Some(p) => p,
            None => {
                return Err(EpubError::OpfNotFound);
            },
        };
        let opf_data = get_content(
            data,
            opf_path.as_str().as_bytes(),
            Some(context.cd_offset),
            Some(context.file_count),
        )?;
        let opf_bytes: &[u8] = match &opf_data {
            Cow::Borrowed(b) => b,
            Cow::Owned(v) => v.as_slice(),
        };
        match parse_package(opf_bytes, opf_path.as_str(), metadata_only) {
            Some(package) => Ok((package, context)),
            None => Err(EpubError::MalformedXml),
        }
    }

    /// The fast path: reads the package's metadata without keeping the book's structure;
    /// the spine is not gathered.
    pub fn get_metadata(data: &[u8]) -> (r: Result<Package, EpubError>)
        ensures
            match spec_open(data@, true) {
                Err(e) => r matches Err(x) && x == e,
                Ok((p, _)) => r matches Ok(q) && q@ == p,
            },
    {
        let (package, _) = Self::open(data, true)?;
        Ok(package)
    }

    /// Creates a new Book instance by parsing the container and OPF package.
    pub fn new(data: &[u8]) -> (r: Result<Self, EpubError>)
        ensures
            match spec_open(data@, false) {
                Err(e) => r matches Err(x) && x == e,
                Ok((p, ctx)) => r matches Ok(b) && b.package@ == p && b.location() == ctx,
            },
    {
        let (package, context) = Self::open(data, false)?;
        Ok(Self { package, offset: context.cd_offset, file_count: context.file_count })
    }

    /// Reads `path` with the cached central-directory location: into the scratch buffer
    /// where one is given, else borrowed from `data` or inflated.
    fn fetch<'a, 'b>(&self, data: &'a [u8], path: &[u8], scratch: Option<&'b mut [u8]>) -> (r:
        Result<Cow<'b, [u8]>, EpubError>) where 'a: 'b
        ensures
            match spec_fetch(data@, path@, self.location(), scratch_capacity(scratch)) {
                Err(e) => r matches Err(x) && x == e,
                Ok(v) => r matches Ok(c) && c@ == v,
            },
            r matches Ok(c) ==> (c is Borrowed <==> reads_borrowed(
                data@,
                path@,
                self.location(),
                scratch is Some,
            )),
            scratch matches Some(sb) ==> scratch_read(data@, path@, self.location(), sb@, final(sb)@, r),
    {
        if let Some(sb) = scratch {
            let result = get_content_buffer(data, path, Some(self.offset), Some(self.file_count), sb)?;
            Ok(Cow::Borrowed(result))
        } else {
            get_content(data, path, Some(self.offset), Some(self.file_count))
        }
    }

    /// Retrieves the content of a specific chapter by its index in the spine.
    pub fn get_chapter<'a, 'b>(&self, data: &'a [u8], index: usize, scratch_buf: Option<&'b mut [u8]>) -> (r:
        Result<Cow<'b, [u8]>, EpubError>) where 'a: 'b
        ensures
            match chapter_path(self.package, index) {
                Err(e) => r matches Err(x) && x == e,
                Ok(path) => match spec_fetch(data@, path, self.location(), scratch_capacity(scratch_buf)) {
                    Err(e) => r matches Err(x) && x == e,
                    Ok(v) => r matches Ok(c) && c@ == v && (c is Borrowed <==> reads_borrowed(
                        data@,
                        path,
                        self.location(),
                        scratch_buf is Some,
                    )),
                },
            },
            scratch_buf matches Some(sb) ==> match chapter_path(self.package, index) {
                Err(_) => final(sb)@ == sb@,
                Ok(path) => scratch_read(data@, path, self.location(), sb@, final(sb)@, r),
            },
    {
        let spine = match &self.package.spine {
            Some(s) => s,
            None => {
                return Err(EpubError::OpfNotFound);
            },
        };
        if index >= spine.items.len() {
            return Err(EpubError::FileNotFound);
        }
        let item = &spine.items[index];
        self.fetch(data, item.href.as_str().as_bytes(), scratch_buf)
    }

    /// Resolves and retrieves a resource (like an image) relative to a specific chapter.
    pub fn get_resource<'a, 'b>(
        &self,
        data: &'a [u8],
        chapter_idx: usize,
        relative_path: &str,
        scratch_buf: Option<&'b mut [u8]>,
    ) -> (r: Result<Cow<'b, [u8]>, EpubError>) where 'a: 'b
        ensures
            match resource_path(self.package, chapter_idx, relative_path.spec_bytes()) {
                Err(e) => r matches Err(x) && x == e,
                Ok(path) => match spec_fetch(data@, path, self.location(), scratch_capacity(scratch_buf)) {
                    Err(e) => r matches Err(x) && x == e,
                    Ok(v) => r matches Ok(c) && c@ == v && (c is Borrowed <==> reads_borrowed(
                        data@,
                        path,
                        self.location(),
                        scratch_buf is Some,
                    )),
                },
            },
            scratch_buf matches Some(sb) ==> match resource_path(
                self.package,
                chapter_idx,
                relative_path.spec_bytes(),
            ) {
                Err(_) => final(sb)@ == sb@,
                Ok(path) => scratch_read(data@, path, self.location(), sb@, final(sb)@, r),
            },
    {
        let spine = match &self.package.spine {
            Some(s) => s,
            None => {
                return Err(EpubError::OpfNotFound);
            },
        };
        if chapter_idx >= spine.items.len() {
            return Err(EpubError::FileNotFound);
        }
        let chapter_item = &spine.items[chapter_idx];
        let mut path_buf: Vec<u8> = vec![0u8; 256];
        let resolved_path = match resolve_path(chapter_item.href.as_str(), relative_path, path_buf.as_mut_slice()) {
            Some(p) => p,
            None => {
                return Err(EpubError::FileNotFound);
            },
        };
        proof {
            let out = resolved(encode_utf8(chapter_item.href@), relative_path.spec_bytes(), 256).unwrap();
            vstd::utf8::decode_utf8_encode_utf8(out);
        }
        self.fetch(data, resolved_path.as_bytes(), scratch_buf)
    }

    /// Returns the Table of Contents (Navigation) for the book: from an NCX document when
    /// the path of the table of contents ends in `.ncx`, else from a navigation document.
    pub fn get_toc(&self, data: &[u8]) -> (r: Result<Vec<NavItem>, EpubError>)
        ensures
            match self.package.toc {
                None => r matches Err(x) && x == EpubError::OpfNotFound,
                Some(toc) => match spec_get_content(
                    data@,
                    encode_utf8(toc@),
                    Some(self.location().cd_offset),
                    Some(self.location().file_count),
                ) {
                    Err(e) => r matches Err(x) && x == e,
                    Ok(content) => r matches Ok(v) && nodes(v@) == if ends_with(
                        encode_utf8(toc@),
                        ".ncx".spec_bytes(),
                    ) {
                        ncx_toc_of(xml_events(content), spine_of(self.package))
                    } else {
                        xhtml_toc_of(xml_events(content), spine_of(self.package))
                    },
                },
            },
            r matches Ok(v) ==> all_in_spine(nodes(v@), spine_of(self.package).len()),
    {
        let toc_path = match &self.package.toc {
            Some(t) => t,
            None => {
                return Err(EpubError::OpfNotFound);
            },
        };
        let toc_content = self.fetch(data, toc_path.as_str().as_bytes(), None)?;
        let content: &[u8] = match &toc_content {
            Cow::Borrowed(b) => b,
            Cow::Owned(v) => v.as_slice(),
        };
        let no_items: Vec<SpineItem> = Vec::new();
        let spine_items: &[SpineItem] = match &self.package.spine {
            Some(s) => s.items.as_slice(),
            None => no_items.as_slice(),
        };
        assert(spine_items@ == spine_of(self.package));
        assert(spine_items@.len() <= usize::MAX) by {
            assert(spine_items.len() == spine_items@.len());
        }
        let path = toc_path.as_str().as_bytes();
        let suffix = ".ncx".as_bytes();
        let is_ncx = suffix.len() <= path.len() && crate::bytes::bytes_at(
            path,
            path.len() - suffix.len(),
            suffix,
        );
        proof {
            let s = path@;
            let n = suffix@.len();
            if n <= s.len() {
                assert(s.subrange(s.len() - n, s.len() - n + n) =~= s.skip(s.len() - n));
            }
        }
        if is_ncx {
            proof {
                lemma_ncx_toc_in_spine(xml_events(content@), spine_items@);
            }
            Ok(parse_toc_ncx(content, spine_items))
        } else {
            proof {
                lemma_nav_toc_in_spine(xml_events(content@), spine_items@);
            }
            Ok(parse_nav_xhtml(content, spine_items))
        }
    }

    /// Helper to get any resource by its absolute path within the book.
    pub fn get_resource_by_path<'a, 'b>(&self, data: &'a [u8], path: &str, scratch_buf: Option<&'b mut [u8]>) -> (r:
        Result<Cow<'b, [u8]>, EpubError>) where 'a: 'b
        ensures
            match spec_fetch(data@, path.spec_bytes(), self.location(), scratch_capacity(scratch_buf)) {
                Err(e) => r matches Err(x) && x == e,
                Ok(v) => r matches Ok(c) && c@ == v,
            },
            r matches Ok(c) ==> (c is Borrowed <==> reads_borrowed(
                data@,
                path.spec_bytes(),
                self.location(),
                scratch_buf is Some,
            )),
            scratch_buf matches Some(sb) ==> scratch_read(
                data@,
                path.spec_bytes(),
                self.location(),
                sb@,
                final(sb)@,
                r,
            ),
    {
        self.fetch(data, path.as_bytes(), scratch_buf)
    }

    /// Helper to get data from the archive without constructing the book.
    pub fn get_raw_content<'a>(buf: &'a [u8], target: &[u8], offset: Option<u32>, count: Option<u16>) -> (r:
        Result<Cow<'a, [u8]>, EpubError>)
        ensures
            match spec_get_content(buf@, target@, offset, count) {
                Err(e) => r matches Err(x) && x == e,
                Ok(v) => r matches Ok(c) && c@ == v,
            },
            r matches Ok(c) ==> (c is Borrowed <==> is_stored(buf@, target@, offset, count)),
    {
        get_content(buf, target, offset, count)
    }
}


/// Law: once a book is open, reading a file through the book's kept central-directory
/// location gives what a lookup that reads the location afresh gives, with or without a
/// scratch buffer.
pub proof fn lemma_book_reads_match_raw_reads(
    d: Seq<u8>,
    metadata_only: bool,
    path: Seq<u8>,
    scratch: Option<nat>,
)
    requires
        spec_open(d, metadata_only) is Ok,
    ensures
        spec_fetch(d, path, spec_open(d, metadata_only)->Ok_0.1, scratch) == match scratch {
            None => spec_get_content(d, path, None, None),
            Some(cap) => spec_get_content_buffer(d, path, None, None, cap),
        },
{
    lemma_cached_location_lookup(d, container_path(), path, match scratch {
        None => 0,
        Some(cap) => cap,
    });
}

/// Law: the metadata fast path agrees with opening the whole book: wherever both succeed,
/// the fast path gives the same title, author, table of contents and cover, no spine, and
/// the same central-directory location; where the book opens with a non-empty title, the
/// fast path succeeds; and the fast path never gives a spine.
pub proof fn lemma_metadata_matches_book(d: Seq<u8>)
    ensures
        spec_open(d, false) matches Ok((p, ctx)) ==> (spec_open(d, true) matches Ok((m, c))
            ==> m == (PackageView { spine: None, ..p }) && c == ctx),
        spec_open(d, false) matches Ok((p, ctx)) ==> (p.title.len() > 0 ==> spec_open(d, true)
            == Ok::<(PackageView, ZipContext), EpubError>((PackageView { spine: None, ..p }, ctx))),
        spec_open(d, true) matches Ok((m, _)) ==> m.spine is None,
{
    if let Ok((_, ctx)) = spec_locate(d, container_path(), None, None) {
        if let Ok(container) = spec_get_content(
            d,
            container_path(),
            Some(ctx.cd_offset),
            Some(ctx.file_count),
        ) {
            if let Some(opf_path) = opf_path_of(xml_events(container)) {
                if let Ok(opf) = spec_get_content(
                    d,
                    encode_utf8(opf_path),
                    Some(ctx.cd_offset),
                    Some(ctx.file_count),
                ) {
                    lemma_metadata_only_package(xml_events(opf), encode_utf8(opf_path));
                }
            }
        }
    }
}

/// Law: a resource read relative to a chapter is the read, by path, of the string that
/// `resolve_path` gives for the chapter's path and the relative path in a 256-byte buffer:
/// the path that `get_resource` reads is that string's bytes, so `get_resource` and
/// `get_resource_by_path` of that string make the same promises.
pub proof fn lemma_resource_is_read_by_resolved_path(
    p: Package,
    index: usize,
    relative: &str,
    resolved_path: &str,
)
    requires
        chapter_path(p, index) matches Ok(chapter) && resolved(
            chapter,
            relative.spec_bytes(),
            256,
        ) matches Some(out) && resolved_path@ == decode_utf8(out),
    ensures
        resource_path(p, index, relative.spec_bytes()) == Ok::<Seq<u8>, EpubError>(
            resolved_path.spec_bytes(),
        ),
{
    let out = resolved(chapter_path(p, index)->Ok_0, relative.spec_bytes(), 256)->Some_0;
    vstd::utf8::decode_utf8_encode_utf8(out);
}

} // verus!
