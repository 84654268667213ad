use light_epub::nav::{find_spine_index, parse_nav_xhtml, parse_toc_ncx, NavItem};
use light_epub::ocf::{extract_opf_path, opf_path_from_events};
use light_epub::opf::{package_from_events, parse_package, resolve_path, SpineItem};
use light_epub::xml::{local_name, read_xml_events, XmlEvent, XmlTag};

fn spine(hrefs: &[&str]) -> Vec<SpineItem> {
    hrefs
        .iter()
        .enumerate()
        .map(|(i, h)| SpineItem { idref: format!("c{}", i), href: h.to_string() })
        .collect()
}

#[test]
fn opf_path_is_read_from_the_container() {
    let xml = br#"<?xml version="1.0"?>
<container version="1.0" xmlns="urn:oasis:names:tc:opendocument:xmlns:container">
  <rootfiles>
    <rootfile full-path="OEBPS/content.opf" media-type="application/oebps-package+xml"/>
  </rootfiles>
</container>"#;
    assert_eq!(extract_opf_path(xml), Some("OEBPS/content.opf".to_string()));
}

#[test]
fn opf_path_is_unescaped() {
    let xml = br#"<container><rootfiles><rootfile full-path="a&amp;b.opf"/></rootfiles></container>"#;
    assert_eq!(extract_opf_path(xml), Some("a&b.opf".to_string()));
}

#[test]
fn opf_path_missing() {
    assert_eq!(extract_opf_path(b"<container><rootfile other=\"x\"/></container>"), None);
    assert_eq!(extract_opf_path(b"<container></container>"), None);
    assert_eq!(extract_opf_path(b"<a><rootfile full-path=\"&bogus;\"/></a>"), None);
}

#[test]
fn opf_path_from_given_events() {
    let tag = XmlTag(
        b"rootfile".to_vec(),
        vec![(b"full-path".to_vec(), b"x/y.opf".to_vec())],
        vec![],
    );
    let events = vec![XmlEvent::Other, XmlEvent::Empty(tag), XmlEvent::Eof];
    assert_eq!(opf_path_from_events(&events), Some("x/y.opf".to_string()));
    let events = vec![XmlEvent::Error, XmlEvent::Eof];
    assert_eq!(opf_path_from_events(&events), None);
}

#[test]
fn xml_events_are_read_in_order() {
    let events = read_xml_events(b"<a x='1'>hi</a>");
    assert_eq!(events.len(), 4);
    match &events[0] {
        XmlEvent::Start(t) => {
            assert_eq!(t.0, b"a");
            assert_eq!(t.1, vec![(b"x".to_vec(), b"1".to_vec())]);
        }
        _ => panic!("expected a start tag"),
    }
    match &events[1] {
        XmlEvent::Text(t) => assert_eq!(t, b"hi"),
        _ => panic!("expected text"),
    }
    assert!(matches!(&events[2], XmlEvent::End(n) if n == b"a"));
    assert!(matches!(&events[3], XmlEvent::Eof));
}

#[test]
fn html_attributes_accept_unquoted_values() {
    let events = read_xml_events(b"<item id=one/>");
    match &events[0] {
        XmlEvent::Empty(t) => {
            assert!(t.1.is_empty());
            assert_eq!(t.2, vec![(b"id".to_vec(), b"one".to_vec())]);
        }
        _ => panic!("expected an empty-element tag"),
    }
}

#[test]
fn local_names_drop_the_prefix() {
    assert_eq!(local_name(b"dc:title"), b"title");
    assert_eq!(local_name(b"title"), b"title");
    assert_eq!(local_name(b"a:b:c"), b"b:c");
}

#[test]
fn resolve_relative_paths() {
    let mut buf = [0u8; 256];
    assert_eq!(resolve_path("OEBPS/content.opf", "text/ch1.xhtml", &mut buf), Some("OEBPS/text/ch1.xhtml"));
    let mut buf = [0u8; 256];
    assert_eq!(resolve_path("OEBPS/text/ch1.xhtml", "../images/a.png", &mut buf), Some("OEBPS/images/a.png"));
    let mut buf = [0u8; 256];
    assert_eq!(resolve_path("content.opf", "./ch1.xhtml", &mut buf), Some("ch1.xhtml"));
    let mut buf = [0u8; 256];
    assert_eq!(resolve_path("/a/b/c.opf", "d//e", &mut buf), Some("a/b/d/e"));
    let mut buf = [0u8; 256];
    assert_eq!(resolve_path("a/b.opf", "../../x", &mut buf), Some("x"));
}

#[test]
fn resolve_fails_when_the_buffer_is_too_small() {
    let mut buf = [0u8; 8];
    assert_eq!(resolve_path("OEBPS/content.opf", "ch1.xhtml", &mut buf), None);
    let mut buf = [0u8; 9];
    assert_eq!(resolve_path("", "ch1.xhtml", &mut buf), Some("ch1.xhtml"));
    let mut buf = [0u8; 10];
    assert_eq!(resolve_path("a/x", "ch1.xhtml", &mut buf), None);
    let mut buf = [0u8; 11];
    assert_eq!(resolve_path("a/x", "ch1.xhtml", &mut buf), Some("a/ch1.xhtml"));
}

const OPF: &[u8] = br#"<?xml version="1.0" encoding="UTF-8"?>
<package xmlns="http://www.idpf.org/2007/opf" version="3.0">
  <metadata xmlns:dc="http://purl.org/dc/elements/1.1/">
    <dc:title>  A  Title  </dc:title>
    <dc:creator>Some Author</dc:creator>
    <meta name="cover" content="cover-img"/>
  </metadata>
  <manifest>
    <item id="nav" href="nav.xhtml" properties="nav" media-type="application/xhtml+xml"/>
    <item id="ncx" href="toc.ncx" media-type="application/x-dtbncx+xml"/>
    <item id="cover-img" href="images/cover.png" media-type="image/png"/>
    <item id="c1" href="text/ch1.xhtml" media-type="application/xhtml+xml"/>
    <item id="c2" href="text/ch2.xhtml" media-type="application/xhtml+xml"/>
  </manifest>
  <spine toc="ncx">
    <itemref idref="c1"/>
    <itemref idref="missing"/>
    <itemref idref="c2"/>
  </spine>
</package>"#;

#[test]
fn package_is_parsed() {
    let p = parse_package(OPF, "OEBPS/content.opf", false).unwrap();
    assert_eq!(p.title, "A  Title");
    assert_eq!(p.author, "Some Author");
    assert_eq!(p.toc.as_deref(), Some("OEBPS/nav.xhtml"));
    assert_eq!(p.cover.as_deref(), Some("OEBPS/images/cover.png"));
    let items = p.spine.unwrap().items;
    assert_eq!(items.len(), 2);
    assert_eq!(items[0].idref, "c1");
    assert_eq!(items[0].href, "OEBPS/text/ch1.xhtml");
    assert_eq!(items[1].idref, "c2");
    assert_eq!(items[1].href, "OEBPS/text/ch2.xhtml");
}

#[test]
fn package_copies_keep_every_field() {
    let p = parse_package(OPF, "OEBPS/content.opf", false).unwrap();
    let q = p.clone();
    assert_eq!(q.title, p.title);
    assert_eq!(q.author, p.author);
    assert_eq!(q.toc, p.toc);
    assert_eq!(q.cover, p.cover);
    let (a, b) = (p.spine.unwrap(), q.spine.unwrap());
    assert_eq!(a.items.len(), b.items.len());
    for (x, y) in a.items.iter().zip(b.items.iter()) {
        assert_eq!(x.idref, y.idref);
        assert_eq!(x.href, y.href);
    }
}

#[test]
fn package_metadata_only() {
    let p = parse_package(OPF, "OEBPS/content.opf", true).unwrap();
    assert_eq!(p.title, "A  Title");
    assert!(p.spine.is_none());
    assert_eq!(p.toc.as_deref(), Some("OEBPS/nav.xhtml"));
}

#[test]
fn ncx_is_the_toc_without_a_nav_item() {
    let opf = br#"<package><metadata><title>T</title></metadata><manifest>
        <item id="ncx" href="toc.ncx" media-type="application/x-dtbncx+xml"/>
        <item id="a" href="a.xhtml"/>
        <item id="b" href="b.xhtml" properties="cover-image"/></manifest>
        <spine><itemref idref="a"/></spine></package>"#;
    let p = parse_package(opf, "content.opf", false).unwrap();
    assert_eq!(p.toc.as_deref(), Some("toc.ncx"));
    assert_eq!(p.cover.as_deref(), Some("b.xhtml"));
    assert_eq!(p.spine.unwrap().items.len(), 1);
}

#[test]
fn package_without_title_or_spine_is_refused() {
    assert!(parse_package(b"<package><metadata/></package>", "c.opf", false).is_none());
    assert!(parse_package(b"<package><metadata><title>x</title></metadata></package>", "c.opf", false).is_some());
    // a spine alone is enough when the spine is read, not when only metadata is
    let spine_only = b"<package><spine><itemref idref='a'/></spine></package>";
    assert!(parse_package(spine_only, "c.opf", false).is_some());
    assert!(parse_package(spine_only, "c.opf", true).is_none());
}

#[test]
fn malformed_package_is_refused() {
    assert!(parse_package(b"<package><metadata><title>x</title></wrong></package>", "c.opf", false).is_none());
    assert!(parse_package(b"<package><metadata><title>x</title></metadata><manifest><item id=\"&bad;\" href=\"a\"/></manifest></package>", "c.opf", false).is_none());
}

#[test]
fn spine_index_ignores_fragments() {
    let items = spine(&["OEBPS/text/ch1.xhtml", "OEBPS/text/ch2.xhtml"]);
    assert_eq!(find_spine_index("text/ch2.xhtml#sec", &items), 1);
    assert_eq!(find_spine_index("ch1.xhtml", &items), 0);
    assert_eq!(find_spine_index("other.xhtml", &items), 0);
    assert_eq!(find_spine_index("", &items), 0);
}

fn titles(items: &[NavItem]) -> Vec<String> {
    items.iter().map(|i| i.title.clone()).collect()
}

#[test]
fn ncx_toc_nests() {
    let ncx = br#"<ncx><navMap>
      <navPoint id="p1"><navLabel><text> One </text></navLabel><content src="text/ch1.xhtml"/>
        <navPoint id="p1a"><navLabel><text>One A</text></navLabel><content src="text/ch2.xhtml#a"/></navPoint>
      </navPoint>
      <navPoint id="p2"><navLabel><text>Two</text></navLabel><content src="text/ch2.xhtml"/></navPoint>
    </navMap></ncx>"#;
    let items = spine(&["OEBPS/text/ch1.xhtml", "OEBPS/text/ch2.xhtml"]);
    let toc = parse_toc_ncx(ncx, &items);
    assert_eq!(titles(&toc), vec!["One", "Two"]);
    assert_eq!(toc[0].href, "text/ch1.xhtml");
    assert_eq!(toc[0].spine_index, 0);
    assert_eq!(toc[1].spine_index, 1);
    assert_eq!(titles(&toc[0].children), vec!["One A"]);
    assert_eq!(toc[0].children[0].spine_index, 1);
    assert_eq!(toc[0].children[0].href, "text/ch2.xhtml#a");
}

#[test]
fn nav_toc_nests() {
    let nav = br#"<html><body><nav epub:type="toc"><ol>
        <li><a href="text/ch1.xhtml">One</a>
          <ol><li><a href="text/ch2.xhtml#x">One A</a></li></ol>
        </li>
        <li><a href="text/ch2.xhtml">Two</a></li>
      </ol></nav></body></html>"#;
    let items = spine(&["OEBPS/text/ch1.xhtml", "OEBPS/text/ch2.xhtml"]);
    let toc = parse_nav_xhtml(nav, &items);
    assert_eq!(titles(&toc), vec!["One", "Two"]);
    assert_eq!(toc[1].spine_index, 1);
    assert_eq!(titles(&toc[0].children), vec!["One A"]);
    assert_eq!(toc[0].children[0].href, "text/ch2.xhtml#x");
}

#[test]
fn nav_without_lists_keeps_the_outer_level() {
    let toc = parse_nav_xhtml(b"<nav><a href='a.xhtml'>A</a><a href='b.xhtml'>B</a></nav>", &[]);
    assert_eq!(titles(&toc), vec!["A", "B"]);
    assert_eq!(toc[0].spine_index, 0);
}

#[test]
fn nav_items_clone_deeply() {
    let items = spine(&["a.xhtml"]);
    let toc = parse_toc_ncx(
        b"<ncx><navPoint><text>A</text><content src='a.xhtml'/><navPoint><text>B</text></navPoint></navPoint></ncx>",
        &items,
    );
    let copy = toc[0].clone();
    assert_eq!(copy.title, "A");
    assert_eq!(copy.href, "a.xhtml");
    assert_eq!(copy.children.len(), 1);
    assert_eq!(copy.children[0].title, "B");
}

#[test]
fn package_from_given_events() {
    let tag = |name: &str, attrs: Vec<(&str, &str)>| {
        let pairs: Vec<(Vec<u8>, Vec<u8>)> =
            attrs.iter().map(|(k, v)| (k.as_bytes().to_vec(), v.as_bytes().to_vec())).collect();
        XmlTag(name.as_bytes().to_vec(), pairs.clone(), pairs)
    };
    let events = vec![
        XmlEvent::Start(tag("metadata", vec![])),
        XmlEvent::Start(tag("dc:title", vec![])),
        XmlEvent::Text(b" Given ".to_vec()),
        XmlEvent::End(b"dc:title".to_vec()),
        XmlEvent::End(b"metadata".to_vec()),
        XmlEvent::Start(tag("manifest", vec![])),
        XmlEvent::Empty(tag("item", vec![("id", "x"), ("href", "x.xhtml")])),
        XmlEvent::End(b"manifest".to_vec()),
        XmlEvent::Start(tag("spine", vec![])),
        XmlEvent::Empty(tag("itemref", vec![("idref", "x")])),
        XmlEvent::End(b"spine".to_vec()),
        XmlEvent::Eof,
    ];
    let p = package_from_events(&events, "dir/p.opf", false).unwrap();
    assert_eq!(p.title, "Given");
    let items = p.spine.unwrap().items;
    assert_eq!(items.len(), 1);
    assert_eq!(items[0].href, "dir/x.xhtml");
    let with_error = vec![XmlEvent::Error, XmlEvent::Eof];
    assert!(package_from_events(&with_error, "p.opf", false).is_none());
}

#[test]
fn resolved_paths_are_clean_and_stable() {
    let cases = [
        ("OEBPS/content.opf", "./text/../text//ch1.xhtml"),
        ("/a/b/c.opf", "../../x/./y/"),
        ("content.opf", "a/b/../../c"),
    ];
    for (base, rel) in cases {
        let mut buf = [0u8; 256];
        let out = resolve_path(base, rel, &mut buf).unwrap().to_string();
        assert!(!out.starts_with('/') && !out.ends_with('/') && !out.contains("//"));
        assert!(out.split('/').all(|s| s != "." && s != ".."));
        let mut again = [0u8; 256];
        assert_eq!(resolve_path("content.opf", &out, &mut again), Some(out.as_str()));
        let mut again = [0u8; 256];
        assert_eq!(resolve_path("", &out, &mut again), Some(out.as_str()));
    }
}

#[test]
fn resolved_path_is_the_start_of_the_buffer() {
    let mut buf = [0xEEu8; 256];
    let out = resolve_path("OEBPS/Text/ch1.xhtml", "../Images/a.png", &mut buf).map(|s| s.to_string());
    assert_eq!(out.as_deref(), Some("OEBPS/Images/a.png"));
    assert_eq!(&buf[..18], b"OEBPS/Images/a.png");
    let mut empty: [u8; 0] = [];
    assert_eq!(resolve_path("a/b", "c", &mut empty), None);
}

#[test]
fn only_the_directory_of_the_base_matters() {
    let cases = [
        ("OEBPS/Text/ch1.xhtml", "../Images/a.png", "OEBPS/Text/../Images/a.png"),
        ("content.opf", "./a//b", "./a//b"),
        ("/x.opf", "y", "/y"),
    ];
    for (base, rel, joined) in cases {
        let mut a = [0u8; 64];
        let mut b = [0u8; 64];
        let one = resolve_path(base, rel, &mut a).map(|s| s.to_string());
        let two = resolve_path("root", joined, &mut b).map(|s| s.to_string());
        assert_eq!(one, two);
    }
}

#[test]
fn resolving_again_in_a_tight_buffer_is_stable() {
    let mut buf = [0u8; 256];
    let out = resolve_path("OEBPS/Text/ch1.xhtml", "../Images/./a.png", &mut buf).unwrap().to_string();
    let mut tight = vec![0u8; out.len()];
    assert_eq!(resolve_path("", &out, &mut tight), Some(out.as_str()));
}

#[test]
fn toc_entries_point_into_the_spine() {
    let items = spine(&["x/a.xhtml", "x/b.xhtml"]);
    let toc = parse_toc_ncx(
        b"<ncx><navPoint><text>A</text><content src='zzz.xhtml'/><navPoint><text>B</text><content src='b.xhtml'/></navPoint></navPoint></ncx>",
        &items,
    );
    fn check(items: &[NavItem], len: usize) {
        for i in items {
            assert!(i.spine_index == 0 || i.spine_index < len);
            check(&i.children, len);
        }
    }
    check(&toc, 2);
    assert_eq!(toc[0].spine_index, 0);
    assert_eq!(toc[0].children[0].spine_index, 1);
    let nav = parse_nav_xhtml(b"<nav><ol><li><a href='b.xhtml#q'>B</a></li></ol></nav>", &items);
    check(&nav, 2);
    assert_eq!(nav[0].spine_index, 1);
}
