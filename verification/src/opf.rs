//! The OPF package document: metadata, manifest and spine.
use vstd::prelude::*;
use vstd::string::StringSliceAdditionalSpecFns;
use vstd::utf8::{decode_utf8, encode_utf8, valid_utf8};

use crate::bytes::{find_byte, first_index, last_index, lemma_first_index, rfind_byte};
use crate::bytes::{bytes_eq, contains_bytes, find_bytes};
use crate::text::{attr_text, attribute_value, text_value, trimmed_text, utf8_str};
use crate::xml::{
    events_view, local_name, local_part, pairs_view, read_xml_events, xml_events, TagView,
    XmlEvent, XmlEventView, XmlTag,
};

verus! {

/// The part of `acc` that a `..` segment leaves: up to its last `/`. Where `acc` is not
/// valid UTF-8, nothing is left.
pub open spec fn parent_len(acc: Seq<u8>) -> int {
    if valid_utf8(acc) {
        match last_index(acc, 0x2f) {
            Some(i) => i,
            None => 0,
        }
    } else {
        0
    }
}

/// Appends one path segment to the path `acc` in a buffer of `cap` bytes: empty and `.`
/// segments change nothing, `..` drops the last segment, any other segment is added after
/// a `/`. `None` where the buffer would overflow.
pub open spec fn push_segment(acc: Seq<u8>, seg: Seq<u8>, cap: nat) -> Option<Seq<u8>> {
    if seg.len() == 0 || seg == ".".spec_bytes() {
        Some(acc)
    } else if seg == "..".spec_bytes() {
        Some(acc.take(parent_len(acc)))
    } else {
        let sep = acc.len() > 0 && acc.last() != 0x2f;
        if sep && acc.len() >= cap {
            None
        } else {
            let a = if sep { acc.push(0x2f) } else { acc };
            if a.len() + seg.len() > cap {
                None
            } else {
                Some(a + seg)
            }
        }
    }
}

/// Appends each `/`-separated segment of `s` in turn.
pub open spec fn push_segments(acc: Option<Seq<u8>>, s: Seq<u8>, cap: nat) -> Option<Seq<u8>>
    decreases s.len(),
{
    match acc {
        None => None,
        Some(a) => {
            let i = first_index(s, 0x2f);
            let next = push_segment(a, s.take(i), cap);
            if 0 <= i < s.len() {
                push_segments(next, s.skip(i + 1), cap)
            } else {
                next
            }
        },
    }
}

/// The directory part of a path: everything before its last `/`.
pub open spec fn dir_part(base: Seq<u8>) -> Seq<u8> {
    match last_index(base, 0x2f) {
        Some(i) => base.take(i),
        None => Seq::empty(),
    }
}

/// The bytes of `relative` resolved against the directory of `base`, in a buffer of `cap`
/// bytes; `None` where the buffer overflows or the result is not valid UTF-8.
pub open spec fn resolved(base: Seq<u8>, relative: Seq<u8>, cap: nat) -> Option<Seq<u8>> {
    match push_segments(
        push_segments(Some(Seq::empty()), dir_part(base), cap),
        relative,
        cap,
    ) {
        Some(out) => if valid_utf8(out) {
            Some(out)
        } else {
            None
        },
        None => None,
    }
}

/// Appends one segment to the path held in `output[..cursor]`; gives the new length.
fn push_segment_into(output: &mut [u8], cursor: usize, seg: &[u8]) -> (r: Option<usize>)
    requires
        cursor <= old(output)@.len(),
    ensures
        final(output)@.len() == old(output)@.len(),
        match push_segment(old(output)@.take(cursor as int), seg@, old(output)@.len()) {
            None => r is None,
            Some(a) => r matches Some(c) && c <= final(output)@.len() && final(output)@.take(
                c as int,
            ) == a,
        },
{
    let ghost acc = output@.take(cursor as int);
    let dot: &[u8] = ".".as_bytes();
    let dotdot: &[u8] = "..".as_bytes();
    if seg.len() == 0 || crate::bytes::bytes_eq(seg, dot) {
        return Some(cursor);
    }
    if crate::bytes::bytes_eq(seg, dotdot) {
        let written: &[u8] = vstd::slice::slice_subrange(output, 0, cursor);
        assert(written@ =~= acc);
        let new_cursor = match utf8_str(written) {
            Some(_) => match rfind_byte(written, 0x2f) {
                Some(i) => i,
                None => 0,
            },
            None => 0,
        };
        proof {
            crate::bytes::lemma_last_index(acc, 0x2f);
            assert(output@.take(new_cursor as int) =~= acc.take(parent_len(acc)));
        }
        return Some(new_cursor);
    }
    let mut c = cursor;
    if c > 0 && output[c - 1] != 0x2f {
        if c >= output.len() {
            return None;
        }
        output[c] = 0x2f;
        c = c + 1;
        assert(output@.take(c as int) =~= acc.push(0x2f));
    }
    let ghost a = output@.take(c as int);
    if seg.len() > output.len() - c {
        return None;
    }
    let mut k: usize = 0;
    while k < seg.len()
        invariant
            c + seg@.len() <= output@.len(),
            c + seg@.len() <= output.len(),
            output@.len() == old(output)@.len(),
            k <= seg@.len(),
            output@.take(c as int) == a,
            forall|j: int| 0 <= j < k ==> output@[c + j] == seg@[j],
        decreases seg@.len() - k,
    {
        output[c + k] = seg[k];
        k = k + 1;
        assert(output@.take(c as int) =~= a);
    }
    assert(output@.take(c + seg@.len()) =~= a + seg@);
    Some(c + seg.len())
}

/// Appends every `/`-separated segment of `s` to the path in `output[..cursor]`.
fn push_segments_into(output: &mut [u8], cursor: usize, s: &[u8]) -> (r: Option<usize>)
    requires
        cursor <= old(output)@.len(),
    ensures
        final(output)@.len() == old(output)@.len(),
        match push_segments(Some(old(output)@.take(cursor as int)), s@, old(output)@.len()) {
            None => r is None,
            Some(a) => r matches Some(c) && c <= final(output)@.len() && final(output)@.take(
                c as int,
            ) == a,
        },
{
    let ghost cap = output@.len();
    let ghost total = push_segments(Some(output@.take(cursor as int)), s@, cap);
    let mut c = cursor;
    let mut start: usize = 0;
    assert(s@.skip(0) =~= s@);
    loop
        invariant
            start <= s@.len(),
            c <= output@.len(),
            output@.len() == cap,
            cap == old(output)@.len(),
            total == push_segments(Some(old(output)@.take(cursor as int)), s@, cap),
            push_segments(Some(output@.take(c as int)), s@.skip(start as int), cap) == total,
        decreases s@.len() - start,
    {
        let rest = vstd::slice::slice_subrange(s, start, s.len());
        assert(rest@ =~= s@.skip(start as int));
        let i = find_byte(rest, 0x2f);
        proof {
            lemma_first_index(rest@, 0x2f);
        }
        let seg = vstd::slice::slice_subrange(rest, 0, i);
        assert(seg@ =~= rest@.take(i as int));
        let ghost acc = output@.take(c as int);
        assert(push_segments(Some(acc), rest@, cap) == total);
        match push_segment_into(output, c, seg) {
            None => {
                assert(push_segments(None, rest@.skip(i + 1), cap) is None);
                return None;
            },
            Some(next) => {
                if i < rest.len() {
                    assert(rest@.skip(i + 1) =~= s@.skip(start + i + 1));
                    c = next;
                    start = start + i + 1;
                } else {
                    return Some(next);
                }
            },
        }
    }
}

/// Resolves `relative` against the directory of `base` (the part before its last `/`):
/// `.` segments are dropped, `..` segments remove the previous one, and the segments are
/// joined with `/` at the start of `output`, and the result is that prefix of `output`.
/// `None` where they do not fit in `output` or do not form valid UTF-8.
pub fn resolve_path<'a>(base: &str, relative: &str, output: &'a mut [u8]) -> (r: Option<&'a str>)
    ensures
        final(output)@.len() == old(output)@.len(),
        match resolved(base.spec_bytes(), relative.spec_bytes(), old(output)@.len()) {
            None => r is None,
            Some(out) => r matches Some(s) && s@ == decode_utf8(out)
                && out.len() <= final(output)@.len()
                && final(output)@.take(out.len() as int) == out,
        },
{
    let ghost cap = output@.len();
    let base_bytes = base.as_bytes();
    proof {
        crate::bytes::lemma_last_index(base.spec_bytes(), 0x2f);
    }
    let base_dir = match rfind_byte(base_bytes, 0x2f) {
        Some(idx) => vstd::slice::slice_subrange(base_bytes, 0, idx),
        None => vstd::slice::slice_subrange(base_bytes, 0, 0),
    };
    assert(base_dir@ =~= dir_part(base.spec_bytes()));
    assert(output@.take(0) =~= Seq::<u8>::empty());
    let cursor = match push_segments_into(output, 0, base_dir) {
        Some(c) => c,
        None => {
            return None;
        },
    };
    let cursor = match push_segments_into(output, cursor, relative.as_bytes()) {
        Some(c) => c,
        None => {
            return None;
        },
    };
    let filled: &'a [u8] = output;
    let written = vstd::slice::slice_subrange(filled, 0, cursor);
    assert(written@ =~= filled@.take(cursor as int));
    utf8_str(written)
}


/// The package document's metadata, and, unless only metadata was asked for, its spine.
#[derive(Debug)]
pub struct Package {
    pub title: String,
    pub author: String,
    pub spine: Option<Spine>,
    pub toc: Option<String>,
    pub cover: Option<String>,
}

/// The reading order of the book.
#[derive(Debug)]
pub struct Spine {
    pub items: Vec<SpineItem>,
}

/// One document of the reading order: its manifest id and its path in the archive.
#[derive(Debug)]
pub struct SpineItem {
    pub idref: String,
    pub href: String,
}

/// The plain value of a spine item.
pub struct SpineItemView {
    pub idref: Seq<char>,
    pub href: Seq<char>,
}

/// The plain value of a package.
pub struct PackageView {
    pub title: Seq<char>,
    pub author: Seq<char>,
    pub spine: Option<Seq<SpineItemView>>,
    pub toc: Option<Seq<char>>,
    pub cover: Option<Seq<char>>,
}

impl View for SpineItem {
    type V = SpineItemView;

    open spec fn view(&self) -> SpineItemView {
        SpineItemView { idref: self.idref@, href: self.href@ }
    }
}

/// The plain values of spine items.
pub open spec fn spine_items_view(items: Seq<SpineItem>) -> Seq<SpineItemView> {
    items.map_values(|i: SpineItem| i@)
}

/// The characters of an optional string.
pub open spec fn opt_chars(o: Option<String>) -> Option<Seq<char>> {
    match o {
        Some(s) => Some(s@),
        None => None,
    }
}

impl View for Package {
    type V = PackageView;

    open spec fn view(&self) -> PackageView {
        PackageView {
            title: self.title@,
            author: self.author@,
            spine: match self.spine {
                Some(sp) => Some(spine_items_view(sp.items@)),
                None => None,
            },
            toc: opt_chars(self.toc),
            cover: opt_chars(self.cover),
        }
    }
}

impl Clone for SpineItem {
    /// A copy of the item.
    fn clone(&self) -> (r: Self)
        ensures
            r@ == self@,
    {
        SpineItem { idref: self.idref.clone(), href: self.href.clone() }
    }
}

impl Clone for Spine {
    /// A copy of the spine, item by item.
    fn clone(&self) -> (r: Self)
        ensures
            spine_items_view(r.items@) == spine_items_view(self.items@),
    {
        let mut items: Vec<SpineItem> = Vec::new();
        let mut i: usize = 0;
        while i < self.items.len()
            invariant
                i <= self.items@.len(),
                spine_items_view(items@) == spine_items_view(self.items@).take(i as int),
            decreases self.items@.len() - i,
        {
            let ghost before = spine_items_view(items@);
            let item = self.items[i].clone();
            items.push(item);
            assert(spine_items_view(items@) =~= before.push(item@));
            assert(spine_items_view(self.items@).take(i + 1) =~= spine_items_view(self.items@).take(
                i as int,
            ).push(self.items@[i as int]@));
            i = i + 1;
        }
        assert(spine_items_view(self.items@).take(i as int) =~= spine_items_view(self.items@));
        Spine { items }
    }
}

/// A copy of an optional string.
fn clone_text(o: &Option<String>) -> (r: Option<String>)
    ensures
        opt_chars(r) == opt_chars(*o),
{
    match o {
        Some(t) => Some(t.clone()),
        None => None,
    }
}

impl Clone for Package {
    /// A copy of the package.
    fn clone(&self) -> (r: Self)
        ensures
            r@ == self@,
    {
        let spine = match &self.spine {
            Some(sp) => Some(sp.clone()),
            None => None,
        };
        Package {
            title: self.title.clone(),
            author: self.author.clone(),
            spine,
            toc: clone_text(&self.toc),
            cover: clone_text(&self.cover),
        }
    }
}

/// Which part of the package document the scan is in.
#[derive(Debug, PartialEq, Eq, Structural, Clone, Copy)]
pub enum Section {
    Outside,
    Metadata,
    Manifest,
    Spine,
}

/// Which metadata element's text the scan is in.
#[derive(Debug, PartialEq, Eq, Structural, Clone, Copy)]
pub enum TextField {
    Nothing,
    Title,
    Creator,
}

/// What the scan of a package document has gathered so far.
pub struct PackageScan {
    pub section: Section,
    pub field: TextField,
    pub title: Seq<char>,
    pub author: Seq<char>,
    /// (id, href) of each manifest item, in document order.
    pub manifest: Seq<(Seq<char>, Seq<char>)>,
    pub spine_idrefs: Seq<Seq<char>>,
    pub toc_id: Option<Seq<char>>,
    pub cover_id: Option<Seq<char>>,
}

/// The scan state at the start of a package document.
pub open spec fn initial_scan() -> PackageScan {
    PackageScan {
        section: Section::Outside,
        field: TextField::Nothing,
        title: Seq::empty(),
        author: Seq::empty(),
        manifest: Seq::empty(),
        spine_idrefs: Seq::empty(),
        toc_id: None,
        cover_id: None,
    }
}

/// What the attributes of a manifest `item` say.
pub struct ItemAttrs {
    pub id: Option<Seq<char>>,
    pub href: Option<Seq<char>>,
    pub is_nav: bool,
    pub is_cover: bool,
    pub is_ncx: bool,
}

/// One attribute of a manifest `item`; `None` where an id or href cannot be decoded.
pub open spec fn item_attr_step(a: ItemAttrs, attr: (Seq<u8>, Seq<u8>)) -> Option<ItemAttrs> {
    let (key, value) = attr;
    if key == "id".spec_bytes() {
        match attr_text(value) {
            None => None,
            Some(x) => Some(ItemAttrs { id: Some(x), ..a }),
        }
    } else if key == "href".spec_bytes() {
        match attr_text(value) {
            None => None,
            Some(x) => Some(ItemAttrs { href: Some(x), ..a }),
        }
    } else if key == "properties".spec_bytes() {
        Some(
            ItemAttrs {
                is_nav: a.is_nav || contains_bytes(value, "nav".spec_bytes()),
                is_cover: a.is_cover || contains_bytes(value, "cover-image".spec_bytes()),
                ..a
            },
        )
    } else if key == "media-type".spec_bytes() {
        Some(
            ItemAttrs {
                is_ncx: a.is_ncx || value == "application/x-dtbncx+xml".spec_bytes(),
                ..a
            },
        )
    } else {
        Some(a)
    }
}

/// The attributes of a manifest `item`, read in order from `a`.
pub open spec fn item_attrs_from(a: ItemAttrs, attrs: Seq<(Seq<u8>, Seq<u8>)>) -> Option<
    ItemAttrs,
>
    decreases attrs.len(),
{
    if attrs.len() == 0 {
        Some(a)
    } else {
        match item_attr_step(a, attrs[0]) {
            None => None,
            Some(b) => item_attrs_from(b, attrs.drop_first()),
        }
    }
}

/// The attributes of a manifest `item` before any is read.
pub open spec fn no_item_attrs() -> ItemAttrs {
    ItemAttrs { id: None, href: None, is_nav: false, is_cover: false, is_ncx: false }
}

/// A manifest `item`: with both an id and an href it is recorded; a `nav` item, or else
/// the first NCX item, is the table of contents; a `cover-image` item is the cover.
pub open spec fn on_item(st: PackageScan, attrs: Seq<(Seq<u8>, Seq<u8>)>) -> Option<PackageScan> {
    match item_attrs_from(no_item_attrs(), attrs) {
        None => None,
        Some(a) => if a.id is Some && a.href is Some {
            let i = a.id.unwrap();
            let h = a.href.unwrap();
            Some(
                PackageScan {
                    toc_id: if a.is_nav {
                        Some(i)
                    } else if a.is_ncx && st.toc_id is None {
                        Some(i)
                    } else {
                        st.toc_id
                    },
                    cover_id: if a.is_cover {
                        Some(i)
                    } else {
                        st.cover_id
                    },
                    manifest: st.manifest.push((i, h)),
                    ..st
                },
            )
        } else {
            Some(st)
        },
    }
}

/// The `idref` attributes of a spine `itemref`, appended in order; `None` where one cannot
/// be decoded.
pub open spec fn idrefs_from(ids: Seq<Seq<char>>, attrs: Seq<(Seq<u8>, Seq<u8>)>) -> Option<
    Seq<Seq<char>>,
>
    decreases attrs.len(),
{
    if attrs.len() == 0 {
        Some(ids)
    } else if attrs[0].0 == "idref".spec_bytes() {
        match attr_text(attrs[0].1) {
            None => None,
            Some(x) => idrefs_from(ids.push(x), attrs.drop_first()),
        }
    } else {
        idrefs_from(ids, attrs.drop_first())
    }
}

/// The attributes of a `meta` element: whether it names the cover, and its decoded
/// `content` (the last one counts; one that cannot be decoded counts as none).
pub open spec fn meta_from(
    is_cover: bool,
    content: Option<Seq<char>>,
    attrs: Seq<(Seq<u8>, Seq<u8>)>,
) -> (bool, Option<Seq<char>>)
    decreases attrs.len(),
{
    if attrs.len() == 0 {
        (is_cover, content)
    } else if attrs[0].0 == "name".spec_bytes() {
        meta_from(
            is_cover || attrs[0].1 == "cover".spec_bytes(),
            content,
            attrs.drop_first(),
        )
    } else if attrs[0].0 == "content".spec_bytes() {
        meta_from(is_cover, attr_text(attrs[0].1), attrs.drop_first())
    } else {
        meta_from(is_cover, content, attrs.drop_first())
    }
}

/// A start or empty-element tag of the package document.
pub open spec fn on_tag(st: PackageScan, t: TagView, metadata_only: bool) -> Option<PackageScan> {
    let name = local_part(t.name);
    if name == "metadata".spec_bytes() {
        Some(PackageScan { section: Section::Metadata, ..st })
    } else if name == "manifest".spec_bytes() {
        Some(PackageScan { section: Section::Manifest, ..st })
    } else if name == "spine".spec_bytes() {
        Some(PackageScan { section: Section::Spine, ..st })
    } else if name == "item".spec_bytes() && st.section == Section::Manifest {
        on_item(st, t.html_attributes)
    } else if name == "itemref".spec_bytes() && st.section == Section::Spine && !metadata_only {
        match idrefs_from(st.spine_idrefs, t.html_attributes) {
            None => None,
            Some(ids) => Some(PackageScan { spine_idrefs: ids, ..st }),
        }
    } else if name == "title".spec_bytes() && st.section == Section::Metadata {
        Some(PackageScan { field: TextField::Title, ..st })
    } else if name == "creator".spec_bytes() && st.section == Section::Metadata {
        Some(PackageScan { field: TextField::Creator, ..st })
    } else if name == "meta".spec_bytes() && st.section == Section::Metadata {
        let (is_cover, content) = meta_from(false, None, t.html_attributes);
        if is_cover {
            Some(PackageScan { cover_id: content, ..st })
        } else {
            Some(st)
        }
    } else {
        Some(st)
    }
}

/// Character data of the package document: inside `metadata`, the trimmed text of a
/// `title` or `creator` element replaces the title or the author.
pub open spec fn on_text(st: PackageScan, raw: Seq<u8>) -> PackageScan {
    if st.section == Section::Metadata && st.field != TextField::Nothing {
        match trimmed_text(raw) {
            None => st,
            Some(x) => if st.field == TextField::Title {
                PackageScan { title: x, ..st }
            } else {
                PackageScan { author: x, ..st }
            },
        }
    } else {
        st
    }
}

/// An end tag of the package document.
pub open spec fn on_end(st: PackageScan, qname: Seq<u8>) -> PackageScan {
    let name = local_part(qname);
    if name == "metadata".spec_bytes() || name == "manifest".spec_bytes() || name
        == "spine".spec_bytes() {
        PackageScan { section: Section::Outside, ..st }
    } else if name == "title".spec_bytes() || name == "creator".spec_bytes() {
        PackageScan { field: TextField::Nothing, ..st }
    } else {
        st
    }
}

/// Scans the events from `st` until the end of the document; `None` at a read error or at
/// an id, href or idref that cannot be decoded.
pub open spec fn scan_package(st: PackageScan, events: Seq<XmlEventView>, metadata_only: bool) -> Option<
    PackageScan,
>
    decreases events.len(),
{
    if events.len() == 0 {
        Some(st)
    } else {
        match events[0] {
            XmlEventView::Eof => Some(st),
            XmlEventView::Error => None,
            XmlEventView::Start(t) => match on_tag(st, t, metadata_only) {
                None => None,
                Some(s2) => scan_package(s2, events.drop_first(), metadata_only),
            },
            XmlEventView::Empty(t) => match on_tag(st, t, metadata_only) {
                None => None,
                Some(s2) => scan_package(s2, events.drop_first(), metadata_only),
            },
            XmlEventView::Text(raw) => scan_package(
                on_text(st, raw),
                events.drop_first(),
                metadata_only,
            ),
            XmlEventView::End(n) => scan_package(on_end(st, n), events.drop_first(), metadata_only),
            XmlEventView::Other => scan_package(st, events.drop_first(), metadata_only),
        }
    }
}

/// Position of the first manifest entry with the given id.
pub open spec fn manifest_pos(m: Seq<(Seq<char>, Seq<char>)>, id: Seq<char>) -> Option<int>
    decreases m.len(),
{
    if m.len() == 0 {
        None
    } else if m[0].0 == id {
        Some(0)
    } else {
        match manifest_pos(m.drop_first(), id) {
            None => None,
            Some(k) => Some(k + 1),
        }
    }
}

/// Removes entry `k`, putting the last entry in its place.
pub open spec fn swap_removed<A>(m: Seq<A>, k: int) -> Seq<A> {
    m.update(k, m.last()).drop_last()
}

/// The path that an href of the package document stands for.
pub open spec fn resolve_href(base: Seq<u8>, href: Seq<char>) -> Option<Seq<char>> {
    match resolved(base, encode_utf8(href), 512) {
        None => None,
        Some(out) => Some(decode_utf8(out)),
    }
}

/// Takes the manifest entry with the given id out of the manifest (if there is one) and
/// resolves its href.
pub open spec fn take_resolved(
    id: Option<Seq<char>>,
    m: Seq<(Seq<char>, Seq<char>)>,
    base: Seq<u8>,
) -> (Option<Seq<char>>, Seq<(Seq<char>, Seq<char>)>) {
    match id {
        None => (None, m),
        Some(i) => match manifest_pos(m, i) {
            None => (None, m),
            Some(k) => (resolve_href(base, m[k].1), swap_removed(m, k)),
        },
    }
}

/// The spine items for the idrefs, each taking its manifest entry out of the manifest;
/// idrefs without an entry, or whose href cannot be resolved, are left out.
pub open spec fn spine_from(
    items: Seq<SpineItemView>,
    m: Seq<(Seq<char>, Seq<char>)>,
    idrefs: Seq<Seq<char>>,
    base: Seq<u8>,
) -> Seq<SpineItemView>
    decreases idrefs.len(),
{
    if idrefs.len() == 0 {
        items
    } else {
        match manifest_pos(m, idrefs[0]) {
            None => spine_from(items, m, idrefs.drop_first(), base),
            Some(k) => {
                let m2 = swap_removed(m, k);
                match resolve_href(base, m[k].1) {
                    None => spine_from(items, m2, idrefs.drop_first(), base),
                    Some(h) => spine_from(
                        items.push(SpineItemView { idref: m[k].0, href: h }),
                        m2,
                        idrefs.drop_first(),
                        base,
                    ),
                }
            },
        }
    }
}

/// The package that a finished scan describes; `None` when it found neither a title nor
/// a spine entry.
pub open spec fn finish_package(st: PackageScan, base: Seq<u8>, metadata_only: bool) -> Option<
    PackageView,
> {
    if st.title.len() == 0 && st.spine_idrefs.len() == 0 {
        None
    } else {
        let (toc, m1) = take_resolved(st.toc_id, st.manifest, base);
        let (cover, m2) = take_resolved(st.cover_id, m1, base);
        Some(
            PackageView {
                title: st.title,
                author: st.author,
                spine: if metadata_only {
                    None
                } else {
                    Some(spine_from(Seq::empty(), m2, st.spine_idrefs, base))
                },
                toc,
                cover,
            },
        )
    }
}

/// The package described by the events of a package document at `base`.
pub open spec fn package_of(events: Seq<XmlEventView>, base: Seq<u8>, metadata_only: bool) -> Option<
    PackageView,
> {
    match scan_package(initial_scan(), events, metadata_only) {
        None => None,
        Some(st) => finish_package(st, base, metadata_only),
    }
}


/// The characters of each string of a sequence of pairs.
pub open spec fn pairs_chars(v: Seq<(String, String)>) -> Seq<(Seq<char>, Seq<char>)> {
    v.map_values(|p: (String, String)| (p.0@, p.1@))
}

/// The characters of each string of a sequence.
pub open spec fn strings_chars(v: Seq<String>) -> Seq<Seq<char>> {
    v.map_values(|s: String| s@)
}

/// The gathered state of the scan of a package document.
struct RawData {
    section: Section,
    field: TextField,
    title: String,
    author: String,
    manifest: Vec<(String, String)>,
    spine_idrefs: Vec<String>,
    toc_id: Option<String>,
    cover_id: Option<String>,
}

impl View for RawData {
    type V = PackageScan;

    closed spec fn view(&self) -> PackageScan {
        PackageScan {
            section: self.section,
            field: self.field,
            title: self.title@,
            author: self.author@,
            manifest: pairs_chars(self.manifest@),
            spine_idrefs: strings_chars(self.spine_idrefs@),
            toc_id: opt_chars(self.toc_id),
            cover_id: opt_chars(self.cover_id),
        }
    }
}

/// What the attributes of a manifest `item` say.
struct ItemFlags {
    id: Option<String>,
    href: Option<String>,
    is_nav: bool,
    is_cover: bool,
    is_ncx: bool,
}

impl View for ItemFlags {
    type V = ItemAttrs;

    closed spec fn view(&self) -> ItemAttrs {
        ItemAttrs {
            id: opt_chars(self.id),
            href: opt_chars(self.href),
            is_nav: self.is_nav,
            is_cover: self.is_cover,
            is_ncx: self.is_ncx,
        }
    }
}

/// Reads the attributes of a manifest `item`; `None` where an id or href cannot be decoded.
fn item_flags(attrs: &Vec<(Vec<u8>, Vec<u8>)>) -> (r: Option<ItemFlags>)
    ensures
        match item_attrs_from(no_item_attrs(), pairs_view(attrs@)) {
            None => r is None,
            Some(a) => r matches Some(f) && f@ == a,
        },
{
    let mut flags = ItemFlags { id: None, href: None, is_nav: false, is_cover: false, is_ncx: false };
    let ghost all = pairs_view(attrs@);
    let mut i: usize = 0;
    assert(all.skip(0) =~= all);
    while i < attrs.len()
        invariant
            all == pairs_view(attrs@),
            i <= attrs@.len(),
            item_attrs_from(flags@, all.skip(i as int)) == item_attrs_from(no_item_attrs(), all),
        decreases attrs@.len() - i,
    {
        let ghost rest = all.skip(i as int);
        assert(rest[0] == (attrs@[i as int].0@, attrs@[i as int].1@));
        assert(rest.drop_first() =~= all.skip(i + 1));
        let key = attrs[i].0.as_slice();
        let value = attrs[i].1.as_slice();
        if bytes_eq(key, "id".as_bytes()) {
            match attribute_value(value) {
                None => {
                    return None;
                },
                Some(x) => {
                    flags.id = Some(x);
                },
            }
        } else if bytes_eq(key, "href".as_bytes()) {
            match attribute_value(value) {
                None => {
                    return None;
                },
                Some(x) => {
                    flags.href = Some(x);
                },
            }
        } else if bytes_eq(key, "properties".as_bytes()) {
            if find_bytes(value, "nav".as_bytes()) {
                flags.is_nav = true;
            }
            if find_bytes(value, "cover-image".as_bytes()) {
                flags.is_cover = true;
            }
        } else if bytes_eq(key, "media-type".as_bytes()) {
            if bytes_eq(value, "application/x-dtbncx+xml".as_bytes()) {
                flags.is_ncx = true;
            }
        }
        i = i + 1;
    }
    Some(flags)
}

/// Records a manifest `item`; false where its attributes cannot be decoded.
fn record_item(raw: &mut RawData, attrs: &Vec<(Vec<u8>, Vec<u8>)>) -> (ok: bool)
    ensures
        match on_item(old(raw)@, pairs_view(attrs@)) {
            None => !ok,
            Some(st) => ok && final(raw)@ == st,
        },
{
    let flags = match item_flags(attrs) {
        None => {
            return false;
        },
        Some(f) => f,
    };
    match (flags.id, flags.href) {
        (Some(i), Some(h)) => {
            if flags.is_nav {
                raw.toc_id = Some(i.clone());
            } else if flags.is_ncx && raw.toc_id.is_none() {
                raw.toc_id = Some(i.clone());
            }
            if flags.is_cover {
                raw.cover_id = Some(i.clone());
            }
            let ghost m = raw.manifest@;
            raw.manifest.push((i, h));
            assert(pairs_chars(raw.manifest@) =~= pairs_chars(m).push((i@, h@)));
        },
        _ => {},
    }
    true
}

/// Records the `idref` attributes of a spine `itemref`; false where one cannot be decoded.
fn record_idrefs(raw: &mut RawData, attrs: &Vec<(Vec<u8>, Vec<u8>)>) -> (ok: bool)
    ensures
        match idrefs_from(old(raw)@.spine_idrefs, pairs_view(attrs@)) {
            None => !ok,
            Some(ids) => ok && final(raw)@ == (PackageScan { spine_idrefs: ids, ..old(raw)@ }),
        },
{
    let ghost all = pairs_view(attrs@);
    let ghost total = idrefs_from(raw@.spine_idrefs, all);
    let mut i: usize = 0;
    assert(all.skip(0) =~= all);
    while i < attrs.len()
        invariant
            all == pairs_view(attrs@),
            total == idrefs_from(old(raw)@.spine_idrefs, all),
            i <= attrs@.len(),
            idrefs_from(raw@.spine_idrefs, all.skip(i as int)) == total,
            raw@ == (PackageScan { spine_idrefs: raw@.spine_idrefs, ..old(raw)@ }),
        decreases attrs@.len() - i,
    {
        let ghost rest = all.skip(i as int);
        assert(rest[0] == (attrs@[i as int].0@, attrs@[i as int].1@));
        assert(rest.drop_first() =~= all.skip(i + 1));
        if bytes_eq(attrs[i].0.as_slice(), "idref".as_bytes()) {
            match attribute_value(attrs[i].1.as_slice()) {
                None => {
                    return false;
                },
                Some(x) => {
                    let ghost ids = raw.spine_idrefs@;
                    raw.spine_idrefs.push(x);
                    assert(strings_chars(raw.spine_idrefs@) =~= strings_chars(ids).push(x@));
                },
            }
        }
        i = i + 1;
    }
    true
}

/// Reads the attributes of a `meta` element: whether it names the cover, and its content.
fn meta_attributes(attrs: &Vec<(Vec<u8>, Vec<u8>)>) -> (r: (bool, Option<String>))
    ensures
        (r.0, opt_chars(r.1)) == meta_from(false, None, pairs_view(attrs@)),
{
    let ghost all = pairs_view(attrs@);
    let mut is_cover_meta = false;
    let mut content: Option<String> = None;
    let mut i: usize = 0;
    assert(all.skip(0) =~= all);
    while i < attrs.len()
        invariant
            all == pairs_view(attrs@),
            i <= attrs@.len(),
            meta_from(is_cover_meta, opt_chars(content), all.skip(i as int)) == meta_from(
                false,
                None,
                all,
            ),
        decreases attrs@.len() - i,
    {
        let ghost rest = all.skip(i as int);
        assert(rest[0] == (attrs@[i as int].0@, attrs@[i as int].1@));
        assert(rest.drop_first() =~= all.skip(i + 1));
        let key = attrs[i].0.as_slice();
        if bytes_eq(key, "name".as_bytes()) {
            if bytes_eq(attrs[i].1.as_slice(), "cover".as_bytes()) {
                is_cover_meta = true;
            }
        } else if bytes_eq(key, "content".as_bytes()) {
            content = attribute_value(attrs[i].1.as_slice());
        }
        i = i + 1;
    }
    (is_cover_meta, content)
}

/// Handles a start or empty-element tag; false where the scan must stop with nothing.
fn scan_tag(raw: &mut RawData, t: &XmlTag, metadata_only: bool) -> (ok: bool)
    ensures
        match on_tag(old(raw)@, t@, metadata_only) {
            None => !ok,
            Some(st) => ok && final(raw)@ == st,
        },
{
    let name = local_name(t.0.as_slice());
    if bytes_eq(name, "metadata".as_bytes()) {
        raw.section = Section::Metadata;
    } else if bytes_eq(name, "manifest".as_bytes()) {
        raw.section = Section::Manifest;
    } else if bytes_eq(name, "spine".as_bytes()) {
        raw.section = Section::Spine;
    } else if bytes_eq(name, "item".as_bytes()) && raw.section == Section::Manifest {
        return record_item(raw, &t.2);
    } else if bytes_eq(name, "itemref".as_bytes()) && raw.section == Section::Spine
        && !metadata_only {
        return record_idrefs(raw, &t.2);
    } else if bytes_eq(name, "title".as_bytes()) && raw.section == Section::Metadata {
        raw.field = TextField::Title;
    } else if bytes_eq(name, "creator".as_bytes()) && raw.section == Section::Metadata {
        raw.field = TextField::Creator;
    } else if bytes_eq(name, "meta".as_bytes()) && raw.section == Section::Metadata {
        let (is_cover_meta, content) = meta_attributes(&t.2);
        if is_cover_meta {
            raw.cover_id = content;
        }
    }
    true
}

/// Handles character data.
fn scan_text(raw: &mut RawData, text: &Vec<u8>)
    ensures
        final(raw)@ == on_text(old(raw)@, text@),
{
    if raw.section == Section::Metadata && raw.field != TextField::Nothing {
        match text_value(text.as_slice()) {
            None => {},
            Some(x) => {
                if raw.field == TextField::Title {
                    raw.title = x;
                } else {
                    raw.author = x;
                }
            },
        }
    }
}

/// Handles an end tag.
fn scan_end(raw: &mut RawData, qname: &Vec<u8>)
    ensures
        final(raw)@ == on_end(old(raw)@, qname@),
{
    let name = local_name(qname.as_slice());
    if bytes_eq(name, "metadata".as_bytes()) || bytes_eq(name, "manifest".as_bytes())
        || bytes_eq(name, "spine".as_bytes()) {
        raw.section = Section::Outside;
    } else if bytes_eq(name, "title".as_bytes()) || bytes_eq(name, "creator".as_bytes()) {
        raw.field = TextField::Nothing;
    }
}


/// `manifest_pos` is fixed by the first entry with the given id.
pub proof fn lemma_manifest_pos(m: Seq<(Seq<char>, Seq<char>)>, id: Seq<char>, i: int)
    requires
        0 <= i <= m.len(),
        forall|j: int| 0 <= j < i ==> m[j].0 != id,
    ensures
        i < m.len() && m[i].0 == id ==> manifest_pos(m, id) == Some(i),
        i == m.len() ==> manifest_pos(m, id) is None,
    decreases m.len(),
{
    if i > 0 && m[0].0 != id {
        assert forall|j: int| 0 <= j < i - 1 implies m.drop_first()[j].0 != id by {
            assert(m.drop_first()[j] == m[j + 1]);
        }
        lemma_manifest_pos(m.drop_first(), id, i - 1);
    }
}

/// Position of the first manifest entry with the given id.
fn manifest_index(m: &Vec<(String, String)>, id: &String) -> (r: Option<usize>)
    ensures
        match manifest_pos(pairs_chars(m@), id@) {
            None => r is None,
            Some(k) => r matches Some(j) && j as int == k,
        },
        r matches Some(j) ==> j < m@.len(),
{
    let ghost pm = pairs_chars(m@);
    let mut i: usize = 0;
    while i < m.len()
        invariant
            pm == pairs_chars(m@),
            i <= m@.len(),
            forall|j: int| 0 <= j < i ==> pm[j].0 != id@,
        decreases m@.len() - i,
    {
        if m[i].0 == *id {
            proof {
                lemma_manifest_pos(pm, id@, i as int);
            }
            return Some(i);
        }
        i = i + 1;
    }
    proof {
        lemma_manifest_pos(pm, id@, i as int);
    }
    None
}

/// Resolves an href of the package document in the path buffer.
fn resolve_href_into(base: &str, href: &String, path_buf: &mut Vec<u8>) -> (r: Option<String>)
    requires
        old(path_buf)@.len() == 512,
    ensures
        final(path_buf)@.len() == 512,
        opt_chars(r) == resolve_href(base.spec_bytes(), href@),
{
    match resolve_path(base, href.as_str(), path_buf.as_mut_slice()) {
        Some(p) => Some(p.to_owned()),
        None => None,
    }
}

/// Takes the manifest entry with the given id out of the manifest and resolves its href.
fn take_resolved_into(
    id: Option<String>,
    m: &mut Vec<(String, String)>,
    base: &str,
    path_buf: &mut Vec<u8>,
) -> (r: Option<String>)
    requires
        old(path_buf)@.len() == 512,
    ensures
        final(path_buf)@.len() == 512,
        (opt_chars(r), pairs_chars(final(m)@)) == take_resolved(
            opt_chars(id),
            pairs_chars(old(m)@),
            base.spec_bytes(),
        ),
{
    match id {
        None => None,
        Some(i) => match manifest_index(m, &i) {
            None => None,
            Some(k) => {
                let ghost pm = pairs_chars(m@);
                let (_, h) = m.swap_remove(k);
                assert(pairs_chars(m@) =~= swap_removed(pm, k as int));
                resolve_href_into(base, &h, path_buf)
            },
        },
    }
}

/// The spine items for the idrefs, taking each one's manifest entry out of the manifest.
fn spine_items(
    idrefs: Vec<String>,
    m: &mut Vec<(String, String)>,
    base: &str,
    path_buf: &mut Vec<u8>,
) -> (r: Vec<SpineItem>)
    requires
        old(path_buf)@.len() == 512,
    ensures
        final(path_buf)@.len() == 512,
        spine_items_view(r@) == spine_from(
            Seq::empty(),
            pairs_chars(old(m)@),
            strings_chars(idrefs@),
            base.spec_bytes(),
        ),
{
    let ghost ids = strings_chars(idrefs@);
    let ghost total = spine_from(Seq::empty(), pairs_chars(m@), ids, base.spec_bytes());
    let mut items: Vec<SpineItem> = Vec::new();
    let mut i: usize = 0;
    assert(ids.skip(0) =~= ids);
    assert(spine_items_view(items@) =~= Seq::empty());
    while i < idrefs.len()
        invariant
            ids == strings_chars(idrefs@),
            i <= idrefs@.len(),
            path_buf@.len() == 512,
            total == spine_from(Seq::empty(), pairs_chars(old(m)@), ids, base.spec_bytes()),
            spine_from(spine_items_view(items@), pairs_chars(m@), ids.skip(i as int), base.spec_bytes())
                == total,
        decreases idrefs@.len() - i,
    {
        let ghost rest = ids.skip(i as int);
        assert(rest[0] == idrefs@[i as int]@);
        assert(rest.drop_first() =~= ids.skip(i + 1));
        match manifest_index(m, &idrefs[i]) {
            None => {},
            Some(k) => {
                let ghost pm = pairs_chars(m@);
                let (old_id, old_href) = m.swap_remove(k);
                assert(pairs_chars(m@) =~= swap_removed(pm, k as int));
                match resolve_href_into(base, &old_href, path_buf) {
                    None => {},
                    Some(href) => {
                        let ghost before = spine_items_view(items@);
                        let item = SpineItem { idref: old_id, href };
                        items.push(item);
                        assert(spine_items_view(items@) =~= before.push(item@));
                    },
                }
            },
        }
        i = i + 1;
    }
    items
}

/// Turns a finished scan into the package.
fn finish(raw: RawData, base_path: &str, metadata_only: bool) -> (r: Option<Package>)
    ensures
        match finish_package(raw@, base_path.spec_bytes(), metadata_only) {
            None => r is None,
            Some(p) => r matches Some(q) && q@ == p,
        },
{
    if raw.title.as_str().is_empty() && raw.spine_idrefs.len() == 0 {
        return None;
    }
    let RawData { section: _, field: _, title, author, manifest, spine_idrefs, toc_id, cover_id } = raw;
    let mut path_buf: Vec<u8> = vec![0u8; 512];
    let mut manifest = manifest;
    let toc = take_resolved_into(toc_id, &mut manifest, base_path, &mut path_buf);
    let cover = take_resolved_into(cover_id, &mut manifest, base_path, &mut path_buf);
    let spine = if metadata_only {
        None
    } else {
        Some(Spine { items: spine_items(spine_idrefs, &mut manifest, base_path, &mut path_buf) })
    };
    Some(Package { title, author, spine, toc, cover })
}


/// Builds the package from the events of a package document at `base_path`. Where the
/// events run out without an end-of-file event, the scan ends there as at one.
pub fn package_from_events(events: &Vec<XmlEvent>, base_path: &str, metadata_only: bool) -> (r:
    Option<Package>)
    ensures
        match package_of(events_view(events@), base_path.spec_bytes(), metadata_only) {
            None => r is None,
            Some(p) => r matches Some(q) && q@ == p,
        },
{
    let ghost all = events_view(events@);
    let mut raw = RawData {
        section: Section::Outside,
        field: TextField::Nothing,
        title: String::new(),
        author: String::new(),
        manifest: Vec::new(),
        spine_idrefs: Vec::new(),
        toc_id: None,
        cover_id: None,
    };
    assert(raw@.manifest =~= Seq::<(Seq<char>, Seq<char>)>::empty());
    assert(raw@.spine_idrefs =~= Seq::<Seq<char>>::empty());
    assert(raw@ == initial_scan());
    let mut i: usize = 0;
    assert(all.skip(0) =~= all);
    while i < events.len()
        invariant
            all == events_view(events@),
            i <= events@.len(),
            scan_package(raw@, all.skip(i as int), metadata_only) == scan_package(
                initial_scan(),
                all,
                metadata_only,
            ),
        decreases events@.len() - i,
    {
        let ghost rest = all.skip(i as int);
        assert(rest[0] == events@[i as int]@);
        assert(rest.drop_first() =~= all.skip(i + 1));
        match &events[i] {
            XmlEvent::Eof => {
                return finish(raw, base_path, metadata_only);
            },
            XmlEvent::Error => {
                return None;
            },
            XmlEvent::Start(t) | XmlEvent::Empty(t) => {
                if !scan_tag(&mut raw, t, metadata_only) {
                    return None;
                }
            },
            XmlEvent::Text(text) => {
                scan_text(&mut raw, text);
            },
            XmlEvent::End(qname) => {
                scan_end(&mut raw, qname);
            },
            XmlEvent::Other => {},
        }
        i = i + 1;
    }
    assert(all.skip(i as int).len() == 0);
    finish(raw, base_path, metadata_only)
}

/// Reads the package document `opf_content`, found at `base_path` in the archive. With
/// `metadata_only` the spine is not gathered.
pub fn parse_package(opf_content: &[u8], base_path: &str, metadata_only: bool) -> (r: Option<
    Package,
>)
    ensures
        match package_of(xml_events(opf_content@), base_path.spec_bytes(), metadata_only) {
            None => r is None,
            Some(p) => r matches Some(q) && q@ == p,
        },
{
    let events = read_xml_events(opf_content);
    package_from_events(&events, base_path, metadata_only)
}


/// A scan state with the spine idrefs dropped.
pub open spec fn without_spine(st: PackageScan) -> PackageScan {
    PackageScan { spine_idrefs: Seq::empty(), ..st }
}

proof fn lemma_tag_metadata_only(st: PackageScan, t: TagView)
    ensures
        on_tag(st, t, false) matches Some(s2) ==> on_tag(without_spine(st), t, true) == Some(
            without_spine(s2),
        ),
{
    let ws = without_spine(st);
    let name = local_part(t.name);
    if name == "item".spec_bytes() && st.section == Section::Manifest
        && !(name == "metadata".spec_bytes()) && !(name == "manifest".spec_bytes())
        && !(name == "spine".spec_bytes()) {
        match item_attrs_from(no_item_attrs(), t.html_attributes) {
            None => {},
            Some(a) => {
                if a.id is Some && a.href is Some {
                    assert(on_item(ws, t.html_attributes) == Some(
                        without_spine(on_item(st, t.html_attributes).unwrap()),
                    ));
                }
            },
        }
    }
}

proof fn lemma_scan_metadata_only(st: PackageScan, events: Seq<XmlEventView>)
    ensures
        scan_package(st, events, false) matches Some(f) ==> scan_package(
            without_spine(st),
            events,
            true,
        ) == Some(without_spine(f)),
    decreases events.len(),
{
    if events.len() > 0 {
        let rest = events.drop_first();
        match events[0] {
            XmlEventView::Start(t) => {
                lemma_tag_metadata_only(st, t);
                if let Some(s2) = on_tag(st, t, false) {
                    lemma_scan_metadata_only(s2, rest);
                }
            },
            XmlEventView::Empty(t) => {
                lemma_tag_metadata_only(st, t);
                if let Some(s2) = on_tag(st, t, false) {
                    lemma_scan_metadata_only(s2, rest);
                }
            },
            XmlEventView::Text(raw) => {
                assert(on_text(without_spine(st), raw) == without_spine(on_text(st, raw)));
                lemma_scan_metadata_only(on_text(st, raw), rest);
            },
            XmlEventView::End(n) => {
                assert(on_end(without_spine(st), n) == without_spine(on_end(st, n)));
                lemma_scan_metadata_only(on_end(st, n), rest);
            },
            XmlEventView::Other => {
                lemma_scan_metadata_only(st, rest);
            },
            _ => {},
        }
    }
}

/// Law: reading a package document for its metadata only gives the same title, author,
/// table of contents and cover as reading it whole, and no spine, wherever both readings
/// succeed. Where the whole reading succeeds with a title, the metadata-only reading
/// succeeds too (without a title it fails, as it gathers no spine).
pub proof fn lemma_metadata_only_package(events: Seq<XmlEventView>, base: Seq<u8>)
    ensures
        package_of(events, base, false) matches Some(p) ==> (package_of(events, base, true)
            matches Some(m) ==> m == (PackageView { spine: None, ..p })),
        package_of(events, base, false) matches Some(p) ==> (p.title.len() > 0 ==> package_of(
            events,
            base,
            true,
        ) == Some(PackageView { spine: None, ..p })),
        package_of(events, base, true) matches Some(m) ==> m.spine is None,
{
    lemma_scan_metadata_only(initial_scan(), events);
    assert(without_spine(initial_scan()) == initial_scan());
}


/// Law: character data of the package document changes only the title or the author:
/// inside `metadata`, the trimmed text of a `title` element becomes the title and that of a
/// `creator` element the author, each leaving the other alone; text that cannot be
/// decoded, or that stands anywhere else, changes nothing.
pub proof fn lemma_metadata_text(st: PackageScan, raw: Seq<u8>)
    ensures
        ({
            let next = on_text(st, raw);
            &&& next.section == st.section && next.field == st.field
            &&& next.manifest == st.manifest && next.spine_idrefs == st.spine_idrefs
            &&& next.toc_id == st.toc_id && next.cover_id == st.cover_id
            &&& if st.section == Section::Metadata && trimmed_text(raw) is Some {
                &&& st.field == TextField::Title ==> next.title == trimmed_text(raw)->Some_0
                    && next.author == st.author
                &&& st.field == TextField::Creator ==> next.author == trimmed_text(raw)->Some_0
                    && next.title == st.title
                &&& st.field == TextField::Nothing ==> next == st
            } else {
                next == st
            }
        }),
{
}

/// Law: taking the entry with id `i` out of the manifest resolves the href of the first
/// entry with that id and removes exactly one entry; where no entry has that id, nothing
/// is found and the manifest is left as it was.
pub proof fn lemma_take_first_entry(
    i: Seq<char>,
    m: Seq<(Seq<char>, Seq<char>)>,
    base: Seq<u8>,
    k: int,
)
    requires
        0 <= k <= m.len(),
        forall|j: int| 0 <= j < k ==> m[j].0 != i,
        k < m.len() ==> m[k].0 == i,
    ensures
        k < m.len() ==> take_resolved(Some(i), m, base).0 == resolve_href(base, m[k].1)
            && take_resolved(Some(i), m, base).1.len() == m.len() - 1,
        k == m.len() ==> take_resolved(Some(i), m, base) == (None::<Seq<char>>, m),
{
    lemma_manifest_pos(m, i, k);
}

/// An attribute `properties` whose value mentions `nav`.
pub open spec fn nav_property(attr: (Seq<u8>, Seq<u8>)) -> bool {
    attr.0 == "properties".spec_bytes() && contains_bytes(attr.1, "nav".spec_bytes())
}

/// The attribute names that a manifest `item` is read by differ from one another.
proof fn lemma_item_keys_differ()
    ensures
        "properties".spec_bytes() != "id".spec_bytes(),
        "properties".spec_bytes() != "href".spec_bytes(),
{
    reveal_strlit("properties");
    reveal_strlit("id");
    reveal_strlit("href");
    let p = "properties"@;
    assert(vstd::utf8::is_ascii_chars(p)) by {
        assert forall|i: int| 0 <= i < p.len() implies '\0' <= #[trigger] p[i] <= '\u{7f}' by {
            assert(i == 0 || i == 1 || i == 2 || i == 3 || i == 4 || i == 5 || i == 6 || i == 7
                || i == 8 || i == 9);
        }
    }
    vstd::utf8::is_ascii_chars_encode_utf8(p);
    let d = "id"@;
    assert(vstd::utf8::is_ascii_chars(d)) by {
        assert forall|i: int| 0 <= i < d.len() implies '\0' <= #[trigger] d[i] <= '\u{7f}' by {
            assert(i == 0 || i == 1);
        }
    }
    vstd::utf8::is_ascii_chars_encode_utf8(d);
    let h = "href"@;
    assert(vstd::utf8::is_ascii_chars(h)) by {
        assert forall|i: int| 0 <= i < h.len() implies '\0' <= #[trigger] h[i] <= '\u{7f}' by {
            assert(i == 0 || i == 1 || i == 2 || i == 3);
        }
    }
    vstd::utf8::is_ascii_chars_encode_utf8(h);
}

/// Reading the attributes of a manifest `item` marks it as the navigation document exactly
/// where one of them is a `properties` attribute that mentions `nav`, and keeps the
/// id and href that the reading started with unless an attribute sets them.
proof fn lemma_item_nav_flag(a0: ItemAttrs, attrs: Seq<(Seq<u8>, Seq<u8>)>)
    ensures
        item_attrs_from(a0, attrs) matches Some(a) ==> (a.is_nav <==> (a0.is_nav || exists|k: int|
            0 <= k < attrs.len() && #[trigger] nav_property(attrs[k]))),
    decreases attrs.len(),
{
    lemma_item_keys_differ();
    if attrs.len() > 0 {
        if let Some(b) = item_attr_step(a0, attrs[0]) {
            lemma_item_nav_flag(b, attrs.drop_first());
            if let Some(a) = item_attrs_from(a0, attrs) {
                if a.is_nav && !a0.is_nav && !nav_property(attrs[0]) {
                    let k = choose|k: int|
                        0 <= k < attrs.drop_first().len() && #[trigger] nav_property(
                            attrs.drop_first()[k],
                        );
                    assert(nav_property(attrs[k + 1]));
                }
                if exists|k: int| 0 <= k < attrs.len() && #[trigger] nav_property(attrs[k]) {
                    let k = choose|k: int| 0 <= k < attrs.len() && #[trigger] nav_property(attrs[k]);
                    if k > 0 {
                        assert(nav_property(attrs.drop_first()[k - 1]));
                    }
                }
            }
        }
    }
}

/// Law: a manifest `item` with an id, an href and a `properties` attribute that mentions
/// `nav` becomes the table of contents, whatever item (an NCX document among them) was
/// chosen before it. Every item with an id and an href is recorded after the earlier
/// ones, and the title, author, spine and section are left as they were.
pub proof fn lemma_nav_item_is_the_toc(st: PackageScan, attrs: Seq<(Seq<u8>, Seq<u8>)>)
    requires
        item_attrs_from(no_item_attrs(), attrs) matches Some(a) && a.id is Some && a.href is Some,
    ensures
        ({
            let a = item_attrs_from(no_item_attrs(), attrs)->Some_0;
            let id = a.id->Some_0;
            on_item(st, attrs) matches Some(s2) && {
                &&& s2.manifest == st.manifest.push((id, a.href->Some_0))
                &&& (exists|k: int| 0 <= k < attrs.len() && #[trigger] nav_property(attrs[k]))
                    ==> s2.toc_id == Some(id)
                &&& s2.title == st.title && s2.author == st.author
                &&& s2.spine_idrefs == st.spine_idrefs
                &&& s2.section == st.section && s2.field == st.field
            }
        }),
{
    lemma_item_nav_flag(no_item_attrs(), attrs);
}

/// Each `/`-separated segment of `p` is non-empty and neither `.` nor `..`.
pub open spec fn clean_segments(p: Seq<u8>) -> bool
    decreases p.len(),
{
    let i = first_index(p, 0x2f);
    let seg = p.take(i);
    &&& seg.len() > 0
    &&& seg != ".".spec_bytes()
    &&& seg != "..".spec_bytes()
    &&& (0 <= i < p.len() ==> clean_segments(p.skip(i + 1)))
}

/// A path in normal form: empty, or made of clean segments (so it has no leading,
/// trailing or doubled `/`).
pub open spec fn is_clean_path(p: Seq<u8>) -> bool {
    p.len() == 0 || clean_segments(p)
}

/// A segment that `push_segment` appends as it is.
pub open spec fn plain_segment(seg: Seq<u8>) -> bool {
    &&& seg.len() > 0
    &&& seg != ".".spec_bytes()
    &&& seg != "..".spec_bytes()
    &&& first_index(seg, 0x2f) == seg.len()
}

proof fn lemma_clean_last(p: Seq<u8>)
    requires
        clean_segments(p),
    ensures
        p.len() > 0,
        p.last() != 0x2f,
    decreases p.len(),
{
    lemma_first_index(p, 0x2f);
    let i = first_index(p, 0x2f);
    if i < p.len() {
        lemma_clean_last(p.skip(i + 1));
        assert(p.last() == p.skip(i + 1).last());
    } else {
        assert(p.take(i).last() == p.last());
    }
}

proof fn lemma_clean_append(p: Seq<u8>, seg: Seq<u8>)
    requires
        clean_segments(p),
        plain_segment(seg),
    ensures
        clean_segments(p.push(0x2f) + seg),
    decreases p.len(),
{
    let q = p.push(0x2f) + seg;
    lemma_first_index(p, 0x2f);
    let i = first_index(p, 0x2f);
    if i < p.len() {
        assert forall|j: int| 0 <= j < i implies q[j] != 0x2f by {
            assert(q[j] == p[j]);
        }
        assert(q[i] == p[i]);
        crate::bytes::lemma_first_index_at(q, 0x2f, i);
        assert(q.take(i) =~= p.take(i));
        assert(q.skip(i + 1) =~= p.skip(i + 1).push(0x2f) + seg);
        lemma_clean_append(p.skip(i + 1), seg);
    } else {
        assert forall|j: int| 0 <= j < p.len() implies q[j] != 0x2f by {
            assert(q[j] == p[j]);
        }
        crate::bytes::lemma_first_index_at(q, 0x2f, p.len() as int);
        assert(q.take(p.len() as int) =~= p);
        assert(q.skip(p.len() as int + 1) =~= seg);
        assert(p.take(p.len() as int) =~= p);
        lemma_plain_is_clean(seg);
        assert(q.take(p.len() as int).len() > 0);
    }
}

proof fn lemma_plain_is_clean(seg: Seq<u8>)
    requires
        plain_segment(seg),
    ensures
        clean_segments(seg),
{
    assert(seg.take(seg.len() as int) =~= seg);
}

proof fn lemma_clean_parent(p: Seq<u8>, k: int)
    requires
        clean_segments(p),
        last_index(p, 0x2f) == Some(k),
    ensures
        clean_segments(p.take(k)),
    decreases p.len(),
{
    crate::bytes::lemma_last_index(p, 0x2f);
    lemma_first_index(p, 0x2f);
    let i = first_index(p, 0x2f);
    let t = p.take(k);
    if i == k {
        assert forall|j: int| 0 <= j < t.len() implies t[j] != 0x2f by {}
        crate::bytes::lemma_first_index_at(t, 0x2f, t.len() as int);
        assert(t.take(t.len() as int) =~= p.take(i));
    } else {
        assert(i < k);
        assert forall|j: int| 0 <= j < i implies t[j] != 0x2f by {}
        crate::bytes::lemma_first_index_at(t, 0x2f, i);
        assert(t.take(i) =~= p.take(i));
        let r = p.skip(i + 1);
        assert(r[k - i - 1] == 0x2f);
        assert forall|j: int| k - i - 1 < j < r.len() implies r[j] != 0x2f by {
            assert(r[j] == p[j + i + 1]);
        }
        crate::bytes::lemma_last_index(r, 0x2f);
        lemma_last_index_at(r, k - i - 1);
        lemma_clean_parent(r, k - i - 1);
        assert(t.skip(i + 1) =~= r.take(k - i - 1));
    }
}

proof fn lemma_last_index_at(s: Seq<u8>, k: int)
    requires
        0 <= k < s.len(),
        s[k] == 0x2f,
        forall|j: int| k < j < s.len() ==> s[j] != 0x2f,
    ensures
        last_index(s, 0x2f) == Some(k),
    decreases s.len(),
{
    if s.last() != 0x2f {
        assert forall|j: int| k < j < s.drop_last().len() implies s.drop_last()[j] != 0x2f by {}
        lemma_last_index_at(s.drop_last(), k);
    }
}

proof fn lemma_push_segment_clean(acc: Seq<u8>, seg: Seq<u8>, cap: nat)
    requires
        is_clean_path(acc),
        acc.len() <= cap,
        first_index(seg, 0x2f) == seg.len(),
    ensures
        push_segment(acc, seg, cap) matches Some(a) ==> is_clean_path(a) && a.len() <= cap,
{
    if seg.len() == 0 || seg == ".".spec_bytes() {
    } else if seg == "..".spec_bytes() {
        if valid_utf8(acc) {
            if let Some(k) = last_index(acc, 0x2f) {
                crate::bytes::lemma_last_index(acc, 0x2f);
                lemma_clean_parent(acc, k);
            }
        }
    } else {
        if acc.len() > 0 {
            lemma_clean_last(acc);
            lemma_clean_append(acc, seg);
        } else {
            lemma_plain_is_clean(seg);
            assert(acc + seg =~= seg);
        }
    }
}

proof fn lemma_push_segments_clean(acc: Option<Seq<u8>>, s: Seq<u8>, cap: nat)
    requires
        acc matches Some(a) ==> is_clean_path(a) && a.len() <= cap,
    ensures
        push_segments(acc, s, cap) matches Some(a) ==> is_clean_path(a) && a.len() <= cap,
    decreases s.len(),
{
    if let Some(a) = acc {
        lemma_first_index(s, 0x2f);
        let i = first_index(s, 0x2f);
        let seg = s.take(i);
        assert forall|j: int| 0 <= j < seg.len() implies seg[j] != 0x2f by {}
        crate::bytes::lemma_first_index_at(seg, 0x2f, seg.len() as int);
        lemma_push_segment_clean(a, seg, cap);
        if i < s.len() {
            lemma_push_segments_clean(push_segment(a, seg, cap), s.skip(i + 1), cap);
        }
    }
}

/// Law: a resolved path is in normal form (no empty, `.` or `..` segments, so no leading,
/// trailing or doubled `/`), and it fits the buffer.
pub proof fn lemma_resolved_is_clean(base: Seq<u8>, relative: Seq<u8>, cap: nat)
    ensures
        resolved(base, relative, cap) matches Some(out) ==> is_clean_path(out) && out.len()
            <= cap,
{
    let empty = Seq::<u8>::empty();
    lemma_push_segments_clean(Some(empty), dir_part(base), cap);
    lemma_push_segments_clean(
        push_segments(Some(empty), dir_part(base), cap),
        relative,
        cap,
    );
}


/// `p` appended to the path `acc` as `push_segments` would: after a `/` unless `acc` is empty.
pub open spec fn joined(acc: Seq<u8>, p: Seq<u8>) -> Seq<u8> {
    if acc.len() == 0 {
        p
    } else {
        acc.push(0x2f) + p
    }
}

proof fn lemma_push_clean_segments(acc: Seq<u8>, p: Seq<u8>, cap: nat)
    requires
        is_clean_path(acc),
        clean_segments(p),
        joined(acc, p).len() <= cap,
    ensures
        push_segments(Some(acc), p, cap) == Some(joined(acc, p)),
    decreases p.len(),
{
    lemma_first_index(p, 0x2f);
    let i = first_index(p, 0x2f);
    let seg = p.take(i);
    assert forall|j: int| 0 <= j < seg.len() implies seg[j] != 0x2f by {}
    crate::bytes::lemma_first_index_at(seg, 0x2f, seg.len() as int);
    if acc.len() > 0 {
        lemma_clean_last(acc);
    }
    assert(push_segment(acc, seg, cap) == Some(joined(acc, seg)));
    if i < p.len() {
        let rest = p.skip(i + 1);
        let acc2 = joined(acc, seg);
        if acc.len() > 0 {
            lemma_clean_append(acc, seg);
        } else {
            lemma_plain_is_clean(seg);
        }
        assert(p =~= seg.push(0x2f) + rest);
        assert(joined(acc2, rest) =~= joined(acc, p));
        lemma_push_clean_segments(acc2, rest, cap);
    } else {
        assert(seg =~= p);
    }
}

/// Law: resolving a resolved path again, against a base that has no directory part, in
/// any buffer that can hold it, gives it back unchanged.
pub proof fn lemma_resolve_is_idempotent(
    base: Seq<u8>,
    relative: Seq<u8>,
    cap: nat,
    other_base: Seq<u8>,
    other_cap: nat,
)
    requires
        last_index(other_base, 0x2f) is None,
    ensures
        resolved(base, relative, cap) matches Some(out) ==> (out.len() <= other_cap ==> resolved(
            other_base,
            out,
            other_cap,
        ) == Some(out)),
{
    lemma_resolved_is_clean(base, relative, cap);
    if let Some(out) = resolved(base, relative, cap) {
        if out.len() <= other_cap {
            let empty = Seq::<u8>::empty();
            lemma_push_nothing(other_cap);
            assert(dir_part(other_base) == empty);
            if out.len() == 0 {
                assert(out =~= empty);
            } else {
                lemma_push_clean_segments(empty, out, other_cap);
            }
        }
    }
}

/// Pushing the segments of an empty path to an empty path leaves it empty.
proof fn lemma_push_nothing(cap: nat)
    ensures
        push_segments(Some(Seq::<u8>::empty()), Seq::<u8>::empty(), cap) == Some(
            Seq::<u8>::empty(),
        ),
{
    let empty = Seq::<u8>::empty();
    assert(first_index(empty, 0x2f) == 0);
    assert(empty.take(0) =~= empty);
}

/// Pushing `a`, a `/` and `b` is pushing the segments of `a`, then those of `b`.
proof fn lemma_push_segments_concat(acc: Option<Seq<u8>>, a: Seq<u8>, b: Seq<u8>, cap: nat)
    ensures
        push_segments(acc, a.push(0x2f) + b, cap) == push_segments(
            push_segments(acc, a, cap),
            b,
            cap,
        ),
    decreases a.len(),
{
    if let Some(x) = acc {
        let s = a.push(0x2f) + b;
        lemma_first_index(a, 0x2f);
        let i = first_index(a, 0x2f);
        assert forall|j: int| 0 <= j < i implies s[j] != 0x2f by {
            assert(s[j] == a[j]);
        }
        assert(s[i] == 0x2f);
        crate::bytes::lemma_first_index_at(s, 0x2f, i);
        assert(s.take(i) =~= a.take(i));
        if i < a.len() {
            assert(s.skip(i + 1) =~= a.skip(i + 1).push(0x2f) + b);
            lemma_push_segments_concat(push_segment(x, a.take(i), cap), a.skip(i + 1), b, cap);
        } else {
            assert(s.skip(i + 1) =~= b);
        }
    }
}

/// Law: only the directory part of the base path matters: resolving `relative` against
/// `base` is resolving, against a base without a directory part, the directory part of
/// `base`, a `/` and `relative` (or `relative` alone where `base` has no `/`).
pub proof fn lemma_only_the_directory_matters(
    base: Seq<u8>,
    relative: Seq<u8>,
    cap: nat,
    root: Seq<u8>,
)
    requires
        last_index(root, 0x2f) is None,
    ensures
        resolved(base, relative, cap) == resolved(
            root,
            match last_index(base, 0x2f) {
                Some(k) => base.take(k).push(0x2f) + relative,
                None => relative,
            },
            cap,
        ),
{
    let empty = Seq::<u8>::empty();
    lemma_push_nothing(cap);
    assert(dir_part(root) == empty);
    if let Some(k) = last_index(base, 0x2f) {
        lemma_push_segments_concat(Some(empty), base.take(k), relative, cap);
    }
}

} // verus!
