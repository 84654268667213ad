//! The table of contents: EPUB 2 NCX and EPUB 3 navigation documents.
use vstd::prelude::*;
use vstd::string::StringSliceAdditionalSpecFns;
use vstd::utf8::encode_utf8;

use crate::bytes::{bytes_at, bytes_eq, first_index, find_byte, occurs_at};
use crate::opf::SpineItem;
use crate::text::{attr_text, attribute_value, text_value, trimmed_text};
use crate::xml::{
    events_view, find_attr, first_attr, local_name, local_part, read_xml_events, xml_events,
    XmlEvent, XmlEventView,
};

verus! {

/// One entry of the table of contents, with the entries nested under it.
#[derive(Debug)]
pub struct NavItem {
    pub title: String,
    pub href: String,
    pub spine_index: usize,
    pub children: Vec<NavItem>,
}

/// The plain value of a table-of-contents entry.
pub struct NavNode {
    pub title: Seq<char>,
    pub href: Seq<char>,
    pub spine_index: usize,
    pub children: Seq<NavNode>,
}

/// The plain value of a table-of-contents entry and of the entries under it.
pub open spec fn nav_node(item: NavItem) -> NavNode
    decreases item,
{
    NavNode {
        title: item.title@,
        href: item.href@,
        spine_index: item.spine_index,
        children: Seq::new(
            item.children@.len(),
            |i: int|
                if 0 <= i < item.children@.len() {
                    nav_node(item.children@[i])
                } else {
                    leaf(Seq::empty(), Seq::empty(), 0)
                },
        ),
    }
}

impl View for NavItem {
    type V = NavNode;

    open spec fn view(&self) -> NavNode {
        nav_node(*self)
    }
}

impl Clone for NavItem {
    /// A deep copy of the entry and of the entries under it.
    fn clone(&self) -> (r: Self)
        ensures
            r@ == self@,
        decreases self,
    {
        let mut children: Vec<NavItem> = Vec::new();
        let mut i: usize = 0;
        while i < self.children.len()
            invariant
                i <= self.children@.len(),
                nodes(children@) == nodes(self.children@).take(i as int),
            decreases self.children@.len() - i,
        {
            proof {
                assert(decreases_to!(self => self.children));
                assert(decreases_to!(self.children => self.children@));
                assert(decreases_to!(self.children@ => self.children@[i as int]));
            }
            let child = self.children[i].clone();
            let ghost before = children@;
            children.push(child);
            proof {
                lemma_nodes_push(before, child);
                assert(nodes(self.children@).take(i + 1) =~= nodes(self.children@).take(
                    i as int,
                ).push(self.children@[i as int]@));
            }
            i = i + 1;
        }
        assert(nodes(self.children@).take(i as int) =~= nodes(self.children@));
        let r = NavItem {
            title: self.title.clone(),
            href: self.href.clone(),
            spine_index: self.spine_index,
            children,
        };
        proof {
            lemma_children_view(r);
            lemma_children_view(*self);
        }
        r
    }
}

/// An entry without children.
pub open spec fn leaf(title: Seq<char>, href: Seq<char>, spine_index: usize) -> NavNode {
    NavNode { title, href, spine_index, children: Seq::empty() }
}

/// The plain values of a sequence of entries.
pub open spec fn nodes(v: Seq<NavItem>) -> Seq<NavNode> {
    Seq::new(v.len(), |i: int| v[i]@)
}

/// The children of an entry's plain value are the plain values of its children.
pub proof fn lemma_children_view(item: NavItem)
    ensures
        item@.children == nodes(item.children@),
{
    let v = item@.children;
    assert(v.len() == item.children@.len());
    assert forall|i: int| 0 <= i < v.len() implies v[i] == nodes(item.children@)[i] by {}
    assert(v =~= nodes(item.children@));
}

/// `suffix` ends `s`.
pub open spec fn ends_with(s: Seq<u8>, suffix: Seq<u8>) -> bool {
    suffix.len() <= s.len() && s.skip(s.len() - suffix.len()) == suffix
}

/// The part of a link before its fragment (`#...`).
pub open spec fn without_fragment(href: Seq<u8>) -> Seq<u8> {
    href.take(first_index(href, 0x23))
}

/// Position of the first spine item whose path ends with `path`.
pub open spec fn spine_pos(items: Seq<SpineItem>, path: Seq<u8>) -> Option<int>
    decreases items.len(),
{
    if items.len() == 0 {
        None
    } else if ends_with(encode_utf8(items[0].href@), path) {
        Some(0)
    } else {
        match spine_pos(items.drop_first(), path) {
            None => None,
            Some(k) => Some(k + 1),
        }
    }
}

/// The spine position that a link points into: the first spine item whose path ends with
/// the link's path (without its fragment), or 0 where there is none.
pub open spec fn spine_index_of(href: Seq<char>, items: Seq<SpineItem>) -> usize {
    match spine_pos(items, without_fragment(encode_utf8(href))) {
        Some(k) => k as usize,
        None => 0,
    }
}

/// `spine_pos` is fixed by the first spine item whose path ends with `path`.
pub proof fn lemma_spine_pos(items: Seq<SpineItem>, path: Seq<u8>, i: int)
    requires
        0 <= i <= items.len(),
        forall|j: int| 0 <= j < i ==> !ends_with(encode_utf8(#[trigger] items[j].href@), path),
    ensures
        i < items.len() && ends_with(encode_utf8(items[i].href@), path) ==> spine_pos(items, path)
            == Some(i),
        i == items.len() ==> spine_pos(items, path) is None,
    decreases items.len(),
{
    if i > 0 && !ends_with(encode_utf8(items[0].href@), path) {
        assert forall|j: int| 0 <= j < i - 1 implies !ends_with(
            encode_utf8(#[trigger] items.drop_first()[j].href@),
            path,
        ) by {
            assert(items.drop_first()[j] == items[j + 1]);
        }
        lemma_spine_pos(items.drop_first(), path, i - 1);
    }
}

/// Finds the spine position that a link points into (see `spine_index_of`).
pub fn find_spine_index(href: &str, spine_items: &[SpineItem]) -> (r: usize)
    ensures
        r == spine_index_of(href@, spine_items@),
        r == 0 || r < spine_items@.len(),
        (exists|j: int|
            0 <= j < spine_items@.len() && ends_with(
                encode_utf8(#[trigger] spine_items@[j].href@),
                without_fragment(encode_utf8(href@)),
            )) ==> r < spine_items@.len() && ends_with(
            encode_utf8(spine_items@[r as int].href@),
            without_fragment(encode_utf8(href@)),
        ) && forall|j: int|
            0 <= j < r ==> !ends_with(
                encode_utf8(#[trigger] spine_items@[j].href@),
                without_fragment(encode_utf8(href@)),
            ),
        (forall|j: int|
            0 <= j < spine_items@.len() ==> !ends_with(
                encode_utf8(#[trigger] spine_items@[j].href@),
                without_fragment(encode_utf8(href@)),
            )) ==> r == 0,
{
    let bytes = href.as_bytes();
    let cut = find_byte(bytes, 0x23);
    proof {
        crate::bytes::lemma_first_index(bytes@, 0x23);
    }
    let base_path = vstd::slice::slice_subrange(bytes, 0, cut);
    assert(base_path@ =~= without_fragment(encode_utf8(href@)));
    let mut i: usize = 0;
    while i < spine_items.len()
        invariant
            i <= spine_items@.len(),
            base_path@ == without_fragment(encode_utf8(href@)),
            forall|j: int|
                0 <= j < i ==> !ends_with(encode_utf8(#[trigger] spine_items@[j].href@), base_path@),
        decreases spine_items@.len() - i,
    {
        let item_path = spine_items[i].href.as_str().as_bytes();
        let found = base_path.len() <= item_path.len() && bytes_at(
            item_path,
            item_path.len() - base_path.len(),
            base_path,
        );
        proof {
            let s = item_path@;
            let n = base_path@.len();
            if n <= s.len() {
                assert(occurs_at(s, s.len() - n, base_path@) == ends_with(s, base_path@)) by {
                    assert(s.subrange(s.len() - n, s.len() - n + n) =~= s.skip(s.len() - n));
                }
            }
        }
        if found {
            proof {
                lemma_spine_pos(spine_items@, base_path@, i as int);
            }
            return i;
        }
        i = i + 1;
    }
    proof {
        lemma_spine_pos(spine_items@, base_path@, i as int);
    }
    0
}


/// The trimmed text of a character-data event, or nothing where it is not valid UTF-8.
pub open spec fn text_or_empty(raw: Seq<u8>) -> Seq<char> {
    match trimmed_text(raw) {
        Some(x) => x,
        None => Seq::empty(),
    }
}

/// The decoded value of an attribute, or nothing where it cannot be decoded.
pub open spec fn value_or_empty(raw: Seq<u8>) -> Seq<char> {
    match attr_text(raw) {
        Some(x) => x,
        None => Seq::empty(),
    }
}

/// What the scan of an NCX document has built so far: the finished top-level entries,
/// and the entries still open, innermost last.
pub struct NcxScan {
    pub roots: Seq<NavNode>,
    pub stack: Seq<NavNode>,
    pub in_text: bool,
}

/// Closes the innermost open `navPoint`: it becomes the last child of the entry around it,
/// or a top-level entry.
pub open spec fn ncx_close(st: NcxScan) -> NcxScan {
    if st.stack.len() > 0 {
        let finished = st.stack.last();
        let rest = st.stack.drop_last();
        if rest.len() > 0 {
            let parent = rest.last();
            NcxScan {
                stack: rest.update(
                    rest.len() - 1,
                    NavNode { children: parent.children.push(finished), ..parent },
                ),
                ..st
            }
        } else {
            NcxScan { roots: st.roots.push(finished), stack: rest, ..st }
        }
    } else {
        st
    }
}

/// One event of an NCX document: `navPoint` opens an entry and its end closes it, the text
/// of a `text` element titles the open entry, and the `src` of a `content` element is its
/// link.
pub open spec fn ncx_step(st: NcxScan, ev: XmlEventView, spine: Seq<SpineItem>) -> NcxScan {
    match ev {
        XmlEventView::Start(t) => if local_part(t.name) == "navPoint".spec_bytes() {
            NcxScan { stack: st.stack.push(leaf(Seq::empty(), Seq::empty(), 0)), ..st }
        } else if local_part(t.name) == "text".spec_bytes() {
            NcxScan { in_text: true, ..st }
        } else {
            st
        },
        XmlEventView::Text(raw) => if st.in_text && st.stack.len() > 0 {
            let last = st.stack.last();
            NcxScan {
                stack: st.stack.update(
                    st.stack.len() - 1,
                    NavNode { title: text_or_empty(raw), ..last },
                ),
                ..st
            }
        } else {
            st
        },
        XmlEventView::End(n) => if local_part(n) == "text".spec_bytes() {
            NcxScan { in_text: false, ..st }
        } else if local_part(n) == "navPoint".spec_bytes() {
            ncx_close(st)
        } else {
            st
        },
        XmlEventView::Empty(t) => if local_part(t.name) == "content".spec_bytes()
            && st.stack.len() > 0 {
            match first_attr(t.attributes, "src".spec_bytes()) {
                Some(v) => {
                    let h = value_or_empty(v);
                    let last = st.stack.last();
                    NcxScan {
                        stack: st.stack.update(
                            st.stack.len() - 1,
                            NavNode { href: h, spine_index: spine_index_of(h, spine), ..last },
                        ),
                        ..st
                    }
                },
                None => st,
            }
        } else {
            st
        },
        _ => st,
    }
}

/// Scans NCX events from `st` to the end of the document; gives the top-level entries.
pub open spec fn scan_ncx(st: NcxScan, events: Seq<XmlEventView>, spine: Seq<SpineItem>) -> Seq<
    NavNode,
>
    decreases events.len(),
{
    if events.len() == 0 {
        st.roots
    } else if events[0] is Eof {
        st.roots
    } else {
        scan_ncx(ncx_step(st, events[0], spine), events.drop_first(), spine)
    }
}

/// The table of contents that the events of an NCX document describe.
pub open spec fn ncx_toc_of(events: Seq<XmlEventView>, spine: Seq<SpineItem>) -> Seq<NavNode> {
    scan_ncx(NcxScan { roots: Seq::empty(), stack: Seq::empty(), in_text: false }, events, spine)
}

struct NcxState {
    roots: Vec<NavItem>,
    stack: Vec<NavItem>,
    in_text: bool,
}

impl View for NcxState {
    type V = NcxScan;

    closed spec fn view(&self) -> NcxScan {
        NcxScan { roots: nodes(self.roots@), stack: nodes(self.stack@), in_text: self.in_text }
    }
}

fn empty_item() -> (r: NavItem)
    ensures
        r@ == leaf(Seq::empty(), Seq::empty(), 0),
{
    let r = NavItem { title: String::new(), href: String::new(), spine_index: 0, children: Vec::new() };
    assert(r@.children =~= Seq::<NavNode>::empty());
    r
}

proof fn lemma_nodes_push(v: Seq<NavItem>, x: NavItem)
    ensures
        nodes(v.push(x)) == nodes(v).push(x@),
{
    assert(nodes(v.push(x)) =~= nodes(v).push(x@));
}

proof fn lemma_nodes_drop_last(v: Seq<NavItem>)
    requires
        v.len() > 0,
    ensures
        nodes(v.drop_last()) == nodes(v).drop_last(),
        nodes(v).last() == v.last()@,
{
    assert(nodes(v.drop_last()) =~= nodes(v).drop_last());
}

/// Applies one NCX event to the scan state.
fn ncx_event(st: &mut NcxState, ev: &XmlEvent, spine_items: &[SpineItem])
    ensures
        final(st)@ == ncx_step(old(st)@, ev@, spine_items@),
{
    match ev {
        XmlEvent::Start(t) => {
            let name = local_name(t.0.as_slice());
            if bytes_eq(name, "navPoint".as_bytes()) {
                let ghost v = st.stack@;
                let fresh = empty_item();
                let ghost fresh_item = fresh;
                st.stack.push(fresh);
                proof {
                    lemma_nodes_push(v, fresh_item);
                }
            } else if bytes_eq(name, "text".as_bytes()) {
                st.in_text = true;
            }
        },
        XmlEvent::Text(raw) => {
            if st.in_text {
                let ghost v = st.stack@;
                match st.stack.pop() {
                    None => {},
                    Some(mut item) => {
                        proof {
                            lemma_nodes_drop_last(v);
                        }
                        let ghost old_item = item;
                        item.title = match text_value(raw.as_slice()) {
                            Some(x) => x,
                            None => String::new(),
                        };
                        assert(item@ == (NavNode { title: text_or_empty(raw@), ..old_item@ }));
                        st.stack.push(item);
                        proof {
                            lemma_nodes_push(v.drop_last(), item);
                            assert(nodes(v.drop_last()).push(item@) =~= nodes(v).update(
                                v.len() - 1,
                                item@,
                            ));
                        }
                    },
                }
            }
        },
        XmlEvent::End(n) => {
            let name = local_name(n.as_slice());
            if bytes_eq(name, "text".as_bytes()) {
                st.in_text = false;
            } else if bytes_eq(name, "navPoint".as_bytes()) {
                ncx_close_exec(st);
            }
        },
        XmlEvent::Empty(t) => {
            let name = local_name(t.0.as_slice());
            if bytes_eq(name, "content".as_bytes()) && st.stack.len() > 0 {
                match find_attr(&t.1, "src".as_bytes()) {
                    None => {},
                    Some(v) => {
                        let href = match attribute_value(v.as_slice()) {
                            Some(x) => x,
                            None => String::new(),
                        };
                        let index = find_spine_index(href.as_str(), spine_items);
                        let ghost s = st.stack@;
                        match st.stack.pop() {
                            None => {},
                            Some(mut item) => {
                                proof {
                                    lemma_nodes_drop_last(s);
                                }
                                let ghost old_item = item;
                                item.spine_index = index;
                                item.href = href;
                                assert(item@ == (NavNode {
                                    href: value_or_empty(v@),
                                    spine_index: spine_index_of(value_or_empty(v@), spine_items@),
                                    ..old_item@
                                }));
                                st.stack.push(item);
                                proof {
                                    lemma_nodes_push(s.drop_last(), item);
                                    assert(nodes(s.drop_last()).push(item@) =~= nodes(s).update(
                                        s.len() - 1,
                                        item@,
                                    ));
                                }
                            },
                        }
                    },
                }
            }
        },
        _ => {},
    }
}

/// Closes the innermost open entry (see `ncx_close`).
fn ncx_close_exec(st: &mut NcxState)
    ensures
        final(st)@ == ncx_close(old(st)@),
{
    let ghost v = st.stack@;
    match st.stack.pop() {
        None => {},
        Some(finished) => {
            proof {
                lemma_nodes_drop_last(v);
            }
            let ghost rest = st.stack@;
            match st.stack.pop() {
                Some(mut parent) => {
                    proof {
                        lemma_nodes_drop_last(rest);
                    }
                    let ghost old_parent = parent;
                    let ghost kids = parent.children@;
                    parent.children.push(finished);
                    proof {
                        lemma_children_view(parent);
                        lemma_children_view(old_parent);
                        lemma_nodes_push(kids, finished);
                    }
                    assert(parent@ == (NavNode {
                        children: old_parent@.children.push(finished@),
                        ..old_parent@
                    }));
                    st.stack.push(parent);
                    proof {
                        lemma_nodes_push(rest.drop_last(), parent);
                        assert(nodes(rest.drop_last()).push(parent@) =~= nodes(rest).update(
                            rest.len() - 1,
                            parent@,
                        ));
                    }
                },
                None => {
                    let ghost r = st.roots@;
                    st.roots.push(finished);
                    proof {
                        lemma_nodes_push(r, finished);
                    }
                },
            }
        },
    }
}


/// Builds the table of contents from the events of an NCX document. Where the events run
/// out without an end-of-file event, the scan ends there as at one.
pub fn ncx_toc_from_events(events: &Vec<XmlEvent>, spine_items: &[SpineItem]) -> (r: Vec<NavItem>)
    ensures
        nodes(r@) == ncx_toc_of(events_view(events@), spine_items@),
{
    let ghost all = events_view(events@);
    let mut st = NcxState { roots: Vec::new(), stack: Vec::new(), in_text: false };
    assert(st@ == (NcxScan { roots: Seq::empty(), stack: Seq::empty(), in_text: false })) by {
        assert(nodes(st.roots@) =~= Seq::<NavNode>::empty());
        assert(nodes(st.stack@) =~= Seq::<NavNode>::empty());
    }
    let mut i: usize = 0;
    assert(all.skip(0) =~= all);
    while i < events.len()
        invariant
            all == events_view(events@),
            i <= events@.len(),
            scan_ncx(st@, all.skip(i as int), spine_items@) == ncx_toc_of(all, spine_items@),
        decreases events@.len() - i,
    {
        let ghost rest = all.skip(i as int);
        assert(rest[0] == events@[i as int]@);
        assert(rest.drop_first() =~= all.skip(i + 1));
        if let XmlEvent::Eof = &events[i] {
            return st.roots;
        }
        ncx_event(&mut st, &events[i], spine_items);
        i = i + 1;
    }
    st.roots
}

/// Reads the table of contents of an EPUB 2 NCX document.
pub fn parse_toc_ncx(content: &[u8], spine_items: &[SpineItem]) -> (r: Vec<NavItem>)
    ensures
        nodes(r@) == ncx_toc_of(xml_events(content@), spine_items@),
{
    let events = read_xml_events(content);
    ncx_toc_from_events(&events, spine_items)
}


/// What the scan of an EPUB 3 navigation document has built so far: the finished
/// top-level entries, one level of entries per open list (innermost last), whether the
/// scan is inside a link, and that link's target.
pub struct XhtmlScan {
    pub roots: Seq<NavNode>,
    pub levels: Seq<Seq<NavNode>>,
    pub in_anchor: bool,
    pub current_href: Seq<char>,
}

/// Whether a name is that of a list element, `ol` or `ul`.
pub open spec fn is_list(name: Seq<u8>) -> bool {
    name == "ol".spec_bytes() || name == "ul".spec_bytes()
}

/// Closes the innermost list: its entries become the children of the last entry of the
/// level around it (replacing them), or, where that level has no entry or there is none,
/// are added to the top-level entries.
pub open spec fn xhtml_close(st: XhtmlScan) -> XhtmlScan {
    if st.levels.len() > 0 {
        let children = st.levels.last();
        let rest = st.levels.drop_last();
        if rest.len() > 0 && rest.last().len() > 0 {
            let level = rest.last();
            let item = level.last();
            XhtmlScan {
                levels: rest.update(
                    rest.len() - 1,
                    level.update(level.len() - 1, NavNode { children, ..item }),
                ),
                ..st
            }
        } else {
            XhtmlScan { roots: st.roots + children, levels: rest, ..st }
        }
    } else {
        st
    }
}

/// One event of a navigation document: a list opens a level and its end closes it, an
/// `a` element with an `href` starts a link, and each piece of text inside a link adds an
/// entry to the innermost level.
pub open spec fn xhtml_step(st: XhtmlScan, ev: XmlEventView, spine: Seq<SpineItem>) -> XhtmlScan {
    match ev {
        XmlEventView::Start(t) => if is_list(local_part(t.name)) {
            XhtmlScan { levels: st.levels.push(Seq::empty()), ..st }
        } else if local_part(t.name) == "a".spec_bytes() {
            match first_attr(t.attributes, "href".spec_bytes()) {
                Some(v) => XhtmlScan { current_href: value_or_empty(v), in_anchor: true, ..st },
                None => st,
            }
        } else {
            st
        },
        XmlEventView::Text(raw) => if st.in_anchor && st.levels.len() > 0 {
            let node = leaf(
                text_or_empty(raw),
                st.current_href,
                spine_index_of(st.current_href, spine),
            );
            XhtmlScan {
                levels: st.levels.update(st.levels.len() - 1, st.levels.last().push(node)),
                ..st
            }
        } else {
            st
        },
        XmlEventView::End(n) => if local_part(n) == "a".spec_bytes() {
            XhtmlScan { in_anchor: false, ..st }
        } else if is_list(local_part(n)) {
            xhtml_close(st)
        } else {
            st
        },
        _ => st,
    }
}

/// Scans navigation-document events from `st` to the end of the document.
pub open spec fn scan_xhtml(st: XhtmlScan, events: Seq<XmlEventView>, spine: Seq<SpineItem>) -> XhtmlScan
    decreases events.len(),
{
    if events.len() == 0 {
        st
    } else if events[0] is Eof {
        st
    } else {
        scan_xhtml(xhtml_step(st, events[0], spine), events.drop_first(), spine)
    }
}

/// The table of contents that the events of a navigation document describe: the top-level
/// entries, or, where there are none, the entries of the outermost level.
pub open spec fn xhtml_toc_of(events: Seq<XmlEventView>, spine: Seq<SpineItem>) -> Seq<NavNode> {
    let st = scan_xhtml(
        XhtmlScan {
            roots: Seq::empty(),
            levels: seq![Seq::empty()],
            in_anchor: false,
            current_href: Seq::empty(),
        },
        events,
        spine,
    );
    if st.roots.len() == 0 && st.levels.len() > 0 {
        st.levels[0]
    } else {
        st.roots
    }
}

/// The plain values of the open list levels.
pub open spec fn levels_of(v: Seq<Vec<NavItem>>) -> Seq<Seq<NavNode>> {
    Seq::new(v.len(), |i: int| nodes(v[i]@))
}

struct XhtmlState {
    roots: Vec<NavItem>,
    levels: Vec<Vec<NavItem>>,
    in_anchor: bool,
    current_href: String,
}

impl View for XhtmlState {
    type V = XhtmlScan;

    closed spec fn view(&self) -> XhtmlScan {
        XhtmlScan {
            roots: nodes(self.roots@),
            levels: levels_of(self.levels@),
            in_anchor: self.in_anchor,
            current_href: self.current_href@,
        }
    }
}

proof fn lemma_levels_push(v: Seq<Vec<NavItem>>, x: Vec<NavItem>)
    ensures
        levels_of(v.push(x)) == levels_of(v).push(nodes(x@)),
{
    assert(levels_of(v.push(x)) =~= levels_of(v).push(nodes(x@)));
}

proof fn lemma_levels_drop_last(v: Seq<Vec<NavItem>>)
    requires
        v.len() > 0,
    ensures
        levels_of(v.drop_last()) == levels_of(v).drop_last(),
        levels_of(v).last() == nodes(v.last()@),
{
    assert(levels_of(v.drop_last()) =~= levels_of(v).drop_last());
}

/// Whether a name is that of a list element.
fn is_list_name(name: &[u8]) -> (r: bool)
    ensures
        r == is_list(name@),
{
    bytes_eq(name, "ol".as_bytes()) || bytes_eq(name, "ul".as_bytes())
}

/// Closes the innermost list (see `xhtml_close`).
fn xhtml_close_exec(st: &mut XhtmlState)
    ensures
        final(st)@ == xhtml_close(old(st)@),
{
    let ghost v = st.levels@;
    let mut children = match st.levels.pop() {
        None => {
            return;
        },
        Some(c) => c,
    };
    proof {
        lemma_levels_drop_last(v);
    }
    let ghost rest = st.levels@;
    match st.levels.pop() {
        Some(mut level) => {
            proof {
                lemma_levels_drop_last(rest);
            }
            let ghost old_level = level@;
            match level.pop() {
                Some(mut item) => {
                    proof {
                        lemma_nodes_drop_last(old_level);
                    }
                    let ghost old_item = item;
                    let ghost kids = children@;
                    item.children = children;
                    proof {
                        lemma_children_view(item);
                    }
                    assert(item@ == (NavNode { children: nodes(kids), ..old_item@ }));
                    level.push(item);
                    proof {
                        lemma_nodes_push(old_level.drop_last(), item);
                        assert(nodes(level@) =~= nodes(old_level).update(
                            old_level.len() - 1,
                            item@,
                        ));
                    }
                    let ghost new_level = level;
                    st.levels.push(level);
                    proof {
                        lemma_levels_push(rest.drop_last(), new_level);
                        assert(levels_of(st.levels@) =~= levels_of(rest).update(
                            rest.len() - 1,
                            nodes(new_level@),
                        ));
                    }
                },
                None => {
                    let ghost r = st.roots@;
                    let ghost kids = children@;
                    st.roots.append(&mut children);
                    assert(nodes(st.roots@) =~= nodes(r) + nodes(kids));
                    let ghost lv = level;
                    st.levels.push(level);
                    proof {
                        lemma_levels_push(rest.drop_last(), lv);
                        assert(levels_of(st.levels@) =~= levels_of(rest));
                    }
                },
            }
        },
        None => {
            let ghost r = st.roots@;
            let ghost kids = children@;
            st.roots.append(&mut children);
            assert(nodes(st.roots@) =~= nodes(r) + nodes(kids));
        },
    }
}

/// Applies one navigation-document event to the scan state.
fn xhtml_event(st: &mut XhtmlState, ev: &XmlEvent, spine_items: &[SpineItem])
    ensures
        final(st)@ == xhtml_step(old(st)@, ev@, spine_items@),
{
    match ev {
        XmlEvent::Start(t) => {
            let name = local_name(t.0.as_slice());
            if is_list_name(name) {
                let ghost v = st.levels@;
                let fresh: Vec<NavItem> = Vec::new();
                let ghost f = fresh;
                st.levels.push(fresh);
                proof {
                    lemma_levels_push(v, f);
                    assert(nodes(f@) =~= Seq::<NavNode>::empty());
                }
            } else if bytes_eq(name, "a".as_bytes()) {
                match find_attr(&t.1, "href".as_bytes()) {
                    None => {},
                    Some(v) => {
                        st.current_href = match attribute_value(v.as_slice()) {
                            Some(x) => x,
                            None => String::new(),
                        };
                        st.in_anchor = true;
                    },
                }
            }
        },
        XmlEvent::Text(raw) => {
            if st.in_anchor {
                let title = match text_value(raw.as_slice()) {
                    Some(x) => x,
                    None => String::new(),
                };
                let spine_index = find_spine_index(st.current_href.as_str(), spine_items);
                let ghost v = st.levels@;
                match st.levels.pop() {
                    None => {},
                    Some(mut level) => {
                        proof {
                            lemma_levels_drop_last(v);
                        }
                        let ghost old_level = level@;
                        let node = NavItem {
                            title,
                            href: st.current_href.clone(),
                            spine_index,
                            children: Vec::new(),
                        };
                        assert(node@.children =~= Seq::<NavNode>::empty());
                        let ghost n = node;
                        level.push(node);
                        proof {
                            lemma_nodes_push(old_level, n);
                        }
                        let ghost lv = level;
                        st.levels.push(level);
                        proof {
                            lemma_levels_push(v.drop_last(), lv);
                            assert(levels_of(st.levels@) =~= levels_of(v).update(
                                v.len() - 1,
                                nodes(lv@),
                            ));
                        }
                    },
                }
            }
        },
        XmlEvent::End(n) => {
            let name = local_name(n.as_slice());
            if bytes_eq(name, "a".as_bytes()) {
                st.in_anchor = false;
            } else if is_list_name(name) {
                xhtml_close_exec(st);
            }
        },
        _ => {},
    }
}

/// Builds the table of contents from the events of an EPUB 3 navigation document. Where
/// the events run out without an end-of-file event, the scan ends there as at one.
pub fn nav_toc_from_events(events: &Vec<XmlEvent>, spine_items: &[SpineItem]) -> (r: Vec<NavItem>)
    ensures
        nodes(r@) == xhtml_toc_of(events_view(events@), spine_items@),
{
    let ghost all = events_view(events@);
    let mut levels: Vec<Vec<NavItem>> = Vec::new();
    levels.push(Vec::new());
    let mut st = XhtmlState {
        roots: Vec::new(),
        levels,
        in_anchor: false,
        current_href: String::new(),
    };
    let ghost init = XhtmlScan {
        roots: Seq::empty(),
        levels: seq![Seq::empty()],
        in_anchor: false,
        current_href: Seq::empty(),
    };
    assert(st@ == init) by {
        assert(nodes(st.roots@) =~= Seq::<NavNode>::empty());
        assert(nodes(st.levels@[0]@) =~= Seq::<NavNode>::empty());
        assert(levels_of(st.levels@) =~= seq![Seq::<NavNode>::empty()]);
    }
    let mut i: usize = 0;
    assert(all.skip(0) =~= all);
    while i < events.len()
        invariant
            all == events_view(events@),
            i <= events@.len(),
            init == (XhtmlScan {
                roots: Seq::empty(),
                levels: seq![Seq::empty()],
                in_anchor: false,
                current_href: Seq::empty(),
            }),
            scan_xhtml(st@, all.skip(i as int), spine_items@) == scan_xhtml(
                init,
                all,
                spine_items@,
            ),
        decreases events@.len() - i,
    {
        let ghost rest = all.skip(i as int);
        assert(rest[0] == events@[i as int]@);
        assert(rest.drop_first() =~= all.skip(i + 1));
        if let XmlEvent::Eof = &events[i] {
            return nav_result(st);
        }
        xhtml_event(&mut st, &events[i], spine_items);
        i = i + 1;
    }
    nav_result(st)
}

/// The entries of a finished scan: the top-level ones, or, where there are none, those of
/// the outermost level.
fn nav_result(st: XhtmlState) -> (r: Vec<NavItem>)
    ensures
        nodes(r@) == (if st@.roots.len() == 0 && st@.levels.len() > 0 {
            st@.levels[0]
        } else {
            st@.roots
        }),
{
    let XhtmlState { roots, mut levels, in_anchor: _, current_href: _ } = st;
    if roots.len() == 0 && levels.len() > 0 {
        let first = levels.remove(0);
        first
    } else {
        roots
    }
}

/// Reads the table of contents of an EPUB 3 navigation document.
pub fn parse_nav_xhtml(content: &[u8], spine_items: &[SpineItem]) -> (r: Vec<NavItem>)
    ensures
        nodes(r@) == xhtml_toc_of(xml_events(content@), spine_items@),
{
    let events = read_xml_events(content);
    nav_toc_from_events(&events, spine_items)
}


/// Every entry of the tree points to spine position 0 or to a position before `len`.
pub open spec fn node_in_spine(n: NavNode, len: nat) -> bool
    decreases n,
{
    &&& (n.spine_index == 0 || n.spine_index < len)
    &&& forall|i: int| 0 <= i < n.children.len() ==> node_in_spine(n.children[i], len)
}

/// Every tree of `ns` satisfies `node_in_spine`.
pub open spec fn all_in_spine(ns: Seq<NavNode>, len: nat) -> bool {
    forall|i: int| 0 <= i < ns.len() ==> #[trigger] node_in_spine(ns[i], len)
}

proof fn lemma_spine_pos_bound(items: Seq<SpineItem>, path: Seq<u8>)
    ensures
        spine_pos(items, path) matches Some(k) ==> 0 <= k < items.len(),
    decreases items.len(),
{
    if items.len() > 0 {
        lemma_spine_pos_bound(items.drop_first(), path);
    }
}

proof fn lemma_spine_index_bound(href: Seq<char>, items: Seq<SpineItem>)
    requires
        items.len() <= usize::MAX,
    ensures
        spine_index_of(href, items) == 0 || spine_index_of(href, items) < items.len(),
{
    lemma_spine_pos_bound(items, without_fragment(encode_utf8(href)));
}

proof fn lemma_ncx_step_in_spine(st: NcxScan, ev: XmlEventView, spine: Seq<SpineItem>)
    requires
        spine.len() <= usize::MAX,
        all_in_spine(st.roots, spine.len()),
        all_in_spine(st.stack, spine.len()),
    ensures
        all_in_spine(ncx_step(st, ev, spine).roots, spine.len()),
        all_in_spine(ncx_step(st, ev, spine).stack, spine.len()),
{
    let len = spine.len();
    let next = ncx_step(st, ev, spine);
    match ev {
        XmlEventView::Start(t) => {
            assert(node_in_spine(leaf(Seq::empty(), Seq::empty(), 0), len));
            assert forall|i: int| 0 <= i < next.stack.len() implies #[trigger] node_in_spine(
                next.stack[i],
                len,
            ) by {
                if i < st.stack.len() {
                    assert(node_in_spine(st.stack[i], len));
                }
            }
        },
        XmlEventView::Text(raw) => {
            if st.in_text && st.stack.len() > 0 {
                let last = st.stack.last();
                assert(node_in_spine(st.stack[st.stack.len() - 1], len));
                assert forall|i: int| 0 <= i < next.stack.len() implies #[trigger] node_in_spine(
                    next.stack[i],
                    len,
                ) by {
                    if i < st.stack.len() - 1 {
                        assert(node_in_spine(st.stack[i], len));
                    }
                }
            }
        },
        XmlEventView::Empty(t) => {
            if local_part(t.name) == "content".spec_bytes() && st.stack.len() > 0 {
                if let Some(v) = first_attr(t.attributes, "src".spec_bytes()) {
                    lemma_spine_index_bound(value_or_empty(v), spine);
                    assert(node_in_spine(st.stack[st.stack.len() - 1], len));
                    assert forall|i: int| 0 <= i < next.stack.len() implies #[trigger] node_in_spine(
                        next.stack[i],
                        len,
                    ) by {
                        if i < st.stack.len() - 1 {
                            assert(node_in_spine(st.stack[i], len));
                        }
                    }
                }
            }
        },
        XmlEventView::End(n) => {
            if local_part(n) != "text".spec_bytes() && local_part(n) == "navPoint".spec_bytes()
                && st.stack.len() > 0 {
                let finished = st.stack.last();
                let rest = st.stack.drop_last();
                assert(node_in_spine(st.stack[st.stack.len() - 1], len));
                if rest.len() > 0 {
                    let parent = rest.last();
                    assert(parent == st.stack[rest.len() - 1]);
                    assert(node_in_spine(parent, len));
                    let p2 = NavNode { children: parent.children.push(finished), ..parent };
                    assert(node_in_spine(p2, len)) by {
                        assert forall|i: int| 0 <= i < p2.children.len() implies #[trigger] node_in_spine(
                            p2.children[i],
                            len,
                        ) by {
                            if i < parent.children.len() {
                                assert(node_in_spine(parent.children[i], len));
                            }
                        }
                    }
                    assert forall|i: int| 0 <= i < next.stack.len() implies #[trigger] node_in_spine(
                        next.stack[i],
                        len,
                    ) by {
                        if i < rest.len() - 1 {
                            assert(node_in_spine(st.stack[i], len));
                        }
                    }
                } else {
                    assert forall|i: int| 0 <= i < next.roots.len() implies #[trigger] node_in_spine(
                        next.roots[i],
                        len,
                    ) by {
                        if i < st.roots.len() {
                            assert(node_in_spine(st.roots[i], len));
                        }
                    }
                }
            }
        },
        _ => {},
    }
}

proof fn lemma_scan_ncx_in_spine(st: NcxScan, events: Seq<XmlEventView>, spine: Seq<SpineItem>)
    requires
        spine.len() <= usize::MAX,
        all_in_spine(st.roots, spine.len()),
        all_in_spine(st.stack, spine.len()),
    ensures
        all_in_spine(scan_ncx(st, events, spine), spine.len()),
    decreases events.len(),
{
    if events.len() > 0 && !(events[0] is Eof) {
        lemma_ncx_step_in_spine(st, events[0], spine);
        lemma_scan_ncx_in_spine(ncx_step(st, events[0], spine), events.drop_first(), spine);
    }
}

/// Law: every entry of an NCX table of contents, at any depth, points to spine position 0
/// or to a position inside the spine.
pub proof fn lemma_ncx_toc_in_spine(events: Seq<XmlEventView>, spine: Seq<SpineItem>)
    requires
        spine.len() <= usize::MAX,
    ensures
        all_in_spine(ncx_toc_of(events, spine), spine.len()),
{
    lemma_scan_ncx_in_spine(
        NcxScan { roots: Seq::empty(), stack: Seq::empty(), in_text: false },
        events,
        spine,
    );
}


/// Every entry of every level satisfies `node_in_spine`.
pub open spec fn levels_in_spine(levels: Seq<Seq<NavNode>>, len: nat) -> bool {
    forall|k: int| 0 <= k < levels.len() ==> all_in_spine(#[trigger] levels[k], len)
}

proof fn lemma_xhtml_step_in_spine(st: XhtmlScan, ev: XmlEventView, spine: Seq<SpineItem>)
    requires
        spine.len() <= usize::MAX,
        all_in_spine(st.roots, spine.len()),
        levels_in_spine(st.levels, spine.len()),
    ensures
        all_in_spine(xhtml_step(st, ev, spine).roots, spine.len()),
        levels_in_spine(xhtml_step(st, ev, spine).levels, spine.len()),
{
    let len = spine.len();
    let next = xhtml_step(st, ev, spine);
    match ev {
        XmlEventView::Start(t) => {
            assert forall|k: int| 0 <= k < next.levels.len() implies all_in_spine(
                #[trigger] next.levels[k],
                len,
            ) by {
                if k < st.levels.len() {
                    assert(all_in_spine(st.levels[k], len));
                }
            }
        },
        XmlEventView::Text(raw) => {
            if st.in_anchor && st.levels.len() > 0 {
                lemma_spine_index_bound(st.current_href, spine);
                let node = leaf(
                    text_or_empty(raw),
                    st.current_href,
                    spine_index_of(st.current_href, spine),
                );
                assert(node_in_spine(node, len));
                let last = st.levels.last();
                assert(all_in_spine(st.levels[st.levels.len() - 1], len));
                assert(all_in_spine(last.push(node), len)) by {
                    assert forall|i: int| 0 <= i < last.push(node).len() implies node_in_spine(
                        #[trigger] last.push(node)[i],
                        len,
                    ) by {
                        if i < last.len() {
                            assert(node_in_spine(last[i], len));
                        }
                    }
                }
                assert forall|k: int| 0 <= k < next.levels.len() implies all_in_spine(
                    #[trigger] next.levels[k],
                    len,
                ) by {
                    if k < st.levels.len() - 1 {
                        assert(all_in_spine(st.levels[k], len));
                    }
                }
            }
        },
        XmlEventView::End(n) => {
            if local_part(n) != "a".spec_bytes() && is_list(local_part(n)) && st.levels.len() > 0 {
                let children = st.levels.last();
                let rest = st.levels.drop_last();
                assert(all_in_spine(st.levels[st.levels.len() - 1], len));
                if rest.len() > 0 && rest.last().len() > 0 {
                    let level = rest.last();
                    assert(all_in_spine(st.levels[rest.len() - 1], len));
                    let item = level.last();
                    assert(node_in_spine(level[level.len() - 1], len));
                    let item2 = NavNode { children, ..item };
                    assert(node_in_spine(item2, len)) by {
                        assert forall|i: int| 0 <= i < children.len() implies node_in_spine(
                            #[trigger] children[i],
                            len,
                        ) by {}
                    }
                    let level2 = level.update(level.len() - 1, item2);
                    assert(all_in_spine(level2, len)) by {
                        assert forall|i: int| 0 <= i < level2.len() implies node_in_spine(
                            #[trigger] level2[i],
                            len,
                        ) by {
                            if i < level.len() - 1 {
                                assert(node_in_spine(level[i], len));
                            }
                        }
                    }
                    assert forall|k: int| 0 <= k < next.levels.len() implies all_in_spine(
                        #[trigger] next.levels[k],
                        len,
                    ) by {
                        if k < rest.len() - 1 {
                            assert(all_in_spine(st.levels[k], len));
                        }
                    }
                } else {
                    assert forall|i: int| 0 <= i < next.roots.len() implies node_in_spine(
                        #[trigger] next.roots[i],
                        len,
                    ) by {
                        if i < st.roots.len() {
                            assert(node_in_spine(st.roots[i], len));
                        } else {
                            assert(node_in_spine(children[i - st.roots.len()], len));
                        }
                    }
                    assert forall|k: int| 0 <= k < next.levels.len() implies all_in_spine(
                        #[trigger] next.levels[k],
                        len,
                    ) by {
                        assert(all_in_spine(st.levels[k], len));
                    }
                }
            }
        },
        _ => {},
    }
}

proof fn lemma_scan_xhtml_in_spine(st: XhtmlScan, events: Seq<XmlEventView>, spine: Seq<SpineItem>)
    requires
        spine.len() <= usize::MAX,
        all_in_spine(st.roots, spine.len()),
        levels_in_spine(st.levels, spine.len()),
    ensures
        all_in_spine(scan_xhtml(st, events, spine).roots, spine.len()),
        levels_in_spine(scan_xhtml(st, events, spine).levels, spine.len()),
    decreases events.len(),
{
    if events.len() > 0 && !(events[0] is Eof) {
        lemma_xhtml_step_in_spine(st, events[0], spine);
        lemma_scan_xhtml_in_spine(xhtml_step(st, events[0], spine), events.drop_first(), spine);
    }
}

/// Law: every entry of a navigation-document table of contents, at any depth, points to
/// spine position 0 or to a position inside the spine.
pub proof fn lemma_nav_toc_in_spine(events: Seq<XmlEventView>, spine: Seq<SpineItem>)
    requires
        spine.len() <= usize::MAX,
    ensures
        all_in_spine(xhtml_toc_of(events, spine), spine.len()),
{
    let init = XhtmlScan {
        roots: Seq::empty(),
        levels: seq![Seq::empty()],
        in_anchor: false,
        current_href: Seq::empty(),
    };
    assert(levels_in_spine(init.levels, spine.len())) by {
        assert forall|k: int| 0 <= k < init.levels.len() implies all_in_spine(
            #[trigger] init.levels[k],
            spine.len(),
        ) by {
            assert(init.levels[k] =~= Seq::<NavNode>::empty());
        }
    }
    lemma_scan_xhtml_in_spine(init, events, spine);
    let st = scan_xhtml(init, events, spine);
    if st.roots.len() == 0 && st.levels.len() > 0 {
        assert(all_in_spine(st.levels[0], spine.len()));
    }
}


/// The tag names the scans compare against differ from one another.
proof fn lemma_tag_names_differ()
    ensures
        "navPoint".spec_bytes() != "text".spec_bytes(),
        "ol".spec_bytes() != "a".spec_bytes(),
        "ul".spec_bytes() != "a".spec_bytes(),
{
    reveal_strlit("navPoint");
    reveal_strlit("text");
    reveal_strlit("ol");
    reveal_strlit("ul");
    reveal_strlit("a");
    let long = "navPoint"@;
    assert(vstd::utf8::is_ascii_chars(long)) by {
        assert forall|i: int| 0 <= i < long.len() implies '\0' <= #[trigger] long[i] <= '\u{7f}' by {
            assert(i == 0 || i == 1 || i == 2 || i == 3 || i == 4 || i == 5 || i == 6 || i == 7);
        }
    }
    vstd::utf8::is_ascii_chars_encode_utf8(long);
    let short = "text"@;
    assert(vstd::utf8::is_ascii_chars(short)) by {
        assert forall|i: int| 0 <= i < short.len() implies '\0' <= #[trigger] short[i] <= '\u{7f}' by {
            assert(i == 0 || i == 1 || i == 2 || i == 3);
        }
    }
    vstd::utf8::is_ascii_chars_encode_utf8(short);
    let ol = "ol"@;
    assert(vstd::utf8::is_ascii_chars(ol)) by {
        assert forall|i: int| 0 <= i < ol.len() implies '\0' <= #[trigger] ol[i] <= '\u{7f}' by {
            assert(i == 0 || i == 1);
        }
    }
    vstd::utf8::is_ascii_chars_encode_utf8(ol);
    let ul = "ul"@;
    assert(vstd::utf8::is_ascii_chars(ul)) by {
        assert forall|i: int| 0 <= i < ul.len() implies '\0' <= #[trigger] ul[i] <= '\u{7f}' by {
            assert(i == 0 || i == 1);
        }
    }
    vstd::utf8::is_ascii_chars_encode_utf8(ul);
    let a = "a"@;
    assert(vstd::utf8::is_ascii_chars(a)) by {
        assert forall|i: int| 0 <= i < a.len() implies '\0' <= #[trigger] a[i] <= '\u{7f}' by {
            assert(i == 0);
        }
    }
    vstd::utf8::is_ascii_chars_encode_utf8(a);
    assert("navPoint".spec_bytes().len() == 8);
    assert("text".spec_bytes().len() == 4);
    assert("ol".spec_bytes().len() == 2);
    assert("ul".spec_bytes().len() == 2);
    assert("a".spec_bytes().len() == 1);
}

/// Law: the end of a `navPoint` in an NCX document closes the innermost open entry. Inside
/// another open entry, it is appended after that entry's children, so sub-entries keep
/// document order, and nothing else changes: the enclosing entry keeps its title, link and
/// spine position, the entries further out are untouched, and so are the finished
/// top-level entries. At the outermost level it is appended to the top-level entries.
pub proof fn lemma_ncx_close_appends_in_order(st: NcxScan, n: Seq<u8>, spine: Seq<SpineItem>)
    requires
        local_part(n) == "navPoint".spec_bytes(),
        st.stack.len() > 0,
    ensures
        ({
            let next = ncx_step(st, XmlEventView::End(n), spine);
            let k = st.stack.len() - 1;
            let finished = st.stack[k];
            &&& next.stack.len() == k
            &&& next.in_text == st.in_text
            &&& if k > 0 {
                let parent = st.stack[k - 1];
                let p2 = next.stack[k - 1];
                &&& next.roots == st.roots
                &&& forall|j: int| 0 <= j < k - 1 ==> next.stack[j] == st.stack[j]
                &&& p2.title == parent.title && p2.href == parent.href && p2.spine_index
                    == parent.spine_index
                &&& p2.children.len() == parent.children.len() + 1
                &&& forall|j: int| 0 <= j < parent.children.len() ==> p2.children[j]
                    == parent.children[j]
                &&& p2.children[parent.children.len() as int] == finished
            } else {
                &&& next.roots.len() == st.roots.len() + 1
                &&& forall|j: int| 0 <= j < st.roots.len() ==> next.roots[j] == st.roots[j]
                &&& next.roots[st.roots.len() as int] == finished
            }
        }),
{
    lemma_tag_names_differ();
}

/// Law: the end of a list (`ol` or `ul`) in a navigation document closes the innermost
/// level. Its entries become the children of the last entry of the enclosing level (the
/// entry whose `li` holds the list), which keeps its title, link and spine position; every
/// other entry of that level, every level further out and the top-level entries are left
/// as they were. Where the enclosing level has no entry, or there is none, the entries are
/// added, in order, after the top-level entries.
pub proof fn lemma_nav_list_closes_into_its_entry(st: XhtmlScan, n: Seq<u8>, spine: Seq<SpineItem>)
    requires
        is_list(local_part(n)),
        st.levels.len() > 0,
    ensures
        ({
            let next = xhtml_step(st, XmlEventView::End(n), spine);
            let k = st.levels.len() - 1;
            let children = st.levels[k];
            &&& next.levels.len() == k
            &&& next.in_anchor == st.in_anchor
            &&& next.current_href == st.current_href
            &&& if k > 0 && st.levels[k - 1].len() > 0 {
                let level = st.levels[k - 1];
                let last = level.len() - 1;
                let l2 = next.levels[k - 1];
                &&& next.roots == st.roots
                &&& forall|j: int| 0 <= j < k - 1 ==> next.levels[j] == st.levels[j]
                &&& l2.len() == level.len()
                &&& forall|j: int| 0 <= j < last ==> l2[j] == level[j]
                &&& l2[last].title == level[last].title && l2[last].href == level[last].href
                    && l2[last].spine_index == level[last].spine_index
                &&& l2[last].children == children
            } else {
                &&& forall|j: int| 0 <= j < k ==> next.levels[j] == st.levels[j]
                &&& next.roots == st.roots + children
            }
        }),
{
    lemma_tag_names_differ();
}


/// Law: in an NCX document, the start of a `navPoint` opens a new, empty entry inside the
/// ones already open; text inside a `text` element titles the innermost open entry (with
/// its surrounding white space trimmed); and a `content` element's `src` becomes the link
/// of the innermost open entry, with the spine position it points into. No other entry,
/// open or finished, changes.
pub proof fn lemma_ncx_events_fill_the_innermost_entry(
    st: NcxScan,
    ev: XmlEventView,
    spine: Seq<SpineItem>,
)
    ensures
        ({
            let next = ncx_step(st, ev, spine);
            let k = st.stack.len() - 1;
            match ev {
                XmlEventView::Start(t) => local_part(t.name) == "navPoint".spec_bytes() ==> (
                next.stack == st.stack.push(leaf(Seq::empty(), Seq::empty(), 0)) && next.roots
                    == st.roots),
                XmlEventView::Text(raw) => st.in_text && st.stack.len() > 0 ==> {
                    &&& next.roots == st.roots
                    &&& next.stack.len() == st.stack.len()
                    &&& forall|j: int| 0 <= j < k ==> next.stack[j] == st.stack[j]
                    &&& next.stack[k].title == text_or_empty(raw)
                    &&& next.stack[k].href == st.stack[k].href
                    &&& next.stack[k].spine_index == st.stack[k].spine_index
                    &&& next.stack[k].children == st.stack[k].children
                },
                XmlEventView::Empty(t) => (local_part(t.name) == "content".spec_bytes()
                    && st.stack.len() > 0 && first_attr(t.attributes, "src".spec_bytes()) is Some)
                    ==> {
                    let h = value_or_empty(first_attr(t.attributes, "src".spec_bytes())->Some_0);
                    &&& next.roots == st.roots
                    &&& next.stack.len() == st.stack.len()
                    &&& forall|j: int| 0 <= j < k ==> next.stack[j] == st.stack[j]
                    &&& next.stack[k].href == h
                    &&& next.stack[k].spine_index == spine_index_of(h, spine)
                    &&& next.stack[k].title == st.stack[k].title
                    &&& next.stack[k].children == st.stack[k].children
                },
                _ => true,
            }
        }),
{
}

/// Law: in a navigation document, the start of a list opens a new, empty level inside the
/// ones already open; an `a` element with an `href` makes that link current; and each
/// piece of text inside a link adds, at the end of the innermost level, an entry without
/// children titled by the text (trimmed), pointing to the current link and the spine
/// position it points into. No other entry or level changes.
pub proof fn lemma_nav_events_build_the_innermost_level(
    st: XhtmlScan,
    ev: XmlEventView,
    spine: Seq<SpineItem>,
)
    ensures
        ({
            let next = xhtml_step(st, ev, spine);
            let k = st.levels.len() - 1;
            match ev {
                XmlEventView::Start(t) => {
                    &&& is_list(local_part(t.name)) ==> next.levels == st.levels.push(Seq::empty())
                        && next.roots == st.roots
                    &&& (local_part(t.name) == "a".spec_bytes() && first_attr(
                        t.attributes,
                        "href".spec_bytes(),
                    ) is Some) ==> {
                        &&& next.current_href == value_or_empty(
                            first_attr(t.attributes, "href".spec_bytes())->Some_0,
                        )
                        &&& next.in_anchor
                        &&& next.levels == st.levels && next.roots == st.roots
                    }
                },
                XmlEventView::Text(raw) => st.in_anchor && st.levels.len() > 0 ==> {
                    &&& next.roots == st.roots
                    &&& next.levels.len() == st.levels.len()
                    &&& forall|j: int| 0 <= j < k ==> next.levels[j] == st.levels[j]
                    &&& next.levels[k] == st.levels[k].push(
                        leaf(
                            text_or_empty(raw),
                            st.current_href,
                            spine_index_of(st.current_href, spine),
                        ),
                    )
                },
                _ => true,
            }
        }),
{
    lemma_tag_names_differ();
}

} // verus!
