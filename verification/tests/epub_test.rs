use epubtr::epub::{
    find_package, is_html_path, join_epub_internal_path, order_of_events, read_events,
    reading_order, rootfile_path, XmlEvent, XmlKind,
};

#[test]
fn events_of_a_document() {
    let events = read_events("<?xml version='1.0'?><a x='1' y=\"&amp;\">t<b:c/></a>");
    let tags: Vec<(XmlKind, &[u8])> = events.iter().map(|e| (e.kind, e.name.as_slice())).collect();
    assert_eq!(
        tags,
        vec![
            (XmlKind::Other, &b""[..]),
            (XmlKind::Opening, &b"a"[..]),
            (XmlKind::Other, &b""[..]),
            (XmlKind::Opening, &b"b:c"[..]),
            (XmlKind::Closing, &b"a"[..]),
        ]
    );
    assert_eq!(
        events[1].attributes,
        vec![Some((b"x".to_vec(), b"1".to_vec())), Some((b"y".to_vec(), b"&amp;".to_vec()))]
    );
}

#[test]
fn malformed_documents_end_early() {
    let events = read_events("<a><b/></c><d/>");
    assert_eq!(events.len(), 2);
    let events = read_events("<a x=1 y='2'/>");
    assert!(events[0].attributes.contains(&None));
}

const CONTAINER: &str = "<container><rootfiles>\
    <rootfile full-path=\"OEBPS/content.opf\" media-type=\"x\"/></rootfiles></container>";

#[test]
fn the_container_names_the_package() {
    assert_eq!(find_package(CONTAINER).unwrap(), "OEBPS/content.opf");
    assert_eq!(find_package("<container/>").unwrap_err(), "No se encontro <rootfile>");
    assert_eq!(
        find_package("<r><rootfile full-path='a'/><rootfile x='y'/><rootfile full-path='b'></rootfile></r>").unwrap(),
        "b"
    );
    assert!(find_package("<r><o:rootfile full-path='a'/></r>").is_err());
}

#[test]
fn invalid_paths_are_no_paths() {
    let event = |value: &[u8]| XmlEvent {
        kind: XmlKind::Opening,
        name: b"rootfile".to_vec(),
        attributes: vec![None, Some((b"full-path".to_vec(), value.to_vec()))],
    };
    assert_eq!(rootfile_path(&vec![event(b"a")]), Some("a".to_string()));
    assert_eq!(rootfile_path(&vec![event(b"a"), event(b"\xff")]), None);
    assert_eq!(rootfile_path(&vec![]), None);
}

const PACKAGE: &str = "<package><manifest>\
    <item id='c1' href='text/c1.xhtml'/>\
    <opf:item id='c2' href='../c2.html'></opf:item>\
    <item id='x' href='x.css'/><item id='c1' href='text/uno.xhtml'/><item id='y'/>\
    </manifest><itemref idref='x'/>\
    <opf:spine toc='ncx'><itemref idref='c2'/><opf:itemref idref='c1'/><itemref idref='nada'/></opf:spine>\
    <itemref idref='x'/></package>";

#[test]
fn the_package_gives_the_reading_order() {
    let order = |path: &str| reading_order(PACKAGE, path).unwrap();
    assert_eq!(order("OEBPS/content.opf"), vec!["c2.html", "OEBPS/text/uno.xhtml"]);
    assert_eq!(order("content.opf"), vec!["c2.html", "text/uno.xhtml"]);
    assert_eq!(
        order_of_events(&read_events(PACKAGE), "a/b/c.opf").unwrap(),
        vec!["a/c2.html", "a/b/text/uno.xhtml"]
    );
}

#[test]
fn a_package_without_a_spine_gives_no_order() {
    let message = "El OPF no declara un orden de lectura";
    assert_eq!(reading_order("", "a").unwrap_err(), message);
    let package = "<package><manifest><item id='a' href='a.xhtml'/></manifest></package>";
    assert_eq!(reading_order(package, "a.opf").unwrap_err(), message);
    assert_eq!(reading_order("<p><spine></spine><itemref idref='a'/></p>", "a").unwrap_err(), message);
    assert_eq!(reading_order("<p><spine><itemref idref='x'/></spine></p>", "a"), Ok(vec![]));
}

#[test]
fn references_are_resolved() {
    assert_eq!(join_epub_internal_path("OEBPS/", "a.html"), "OEBPS/a.html");
    assert_eq!(join_epub_internal_path("OEBPS/", "/x//a.html"), "x/a.html");
    assert_eq!(join_epub_internal_path("a/b/", "../../../c/./d"), "c/d");
    assert_eq!(join_epub_internal_path("", ""), "");
    assert_eq!(join_epub_internal_path("a/", "b/../.."), "");
    assert_eq!(join_epub_internal_path("a/", "...//b"), "a/.../b");
}

#[test]
fn pages_are_told_by_their_names() {
    for path in ["a.html", "A.XHTML", "b.Htm", ".htm"] {
        assert!(is_html_path(path), "{}", path);
    }
    for path in ["a.html.txt", "ahtml", "", "a.xml"] {
        assert!(!is_html_path(path), "{}", path);
    }
}

#[test]
fn only_ascii_letters_become_the_letters_of_page_names() {
    for code in 0x80..=0x10FFFFu32 {
        if let Some(c) = char::from_u32(code) {
            for lower in c.to_lowercase() {
                assert!(!".xhtmlepub".contains(lower), "{:x}", code);
            }
        }
    }
}

#[test]
fn joined_paths_stay_as_they_are() {
    for (base, href) in [
        ("OEBPS/", "a.html"),
        ("a/b/", "../../../c/./d"),
        ("x/", "//y//z/"),
        ("a/", "b/../.."),
        ("", ".../..b"),
    ] {
        let path = join_epub_internal_path(base, href);
        assert_eq!(join_epub_internal_path("", &path), path);
    }
}
