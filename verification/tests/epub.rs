//! Package documents, tables of contents and whole archives.

use omalibre::epub::{parse_nav, parse_ncx, parse_package};
use omalibre::paths::normalize;

#[test]
fn normalizes_relative_hrefs() {
    assert_eq!(
        normalize("OEBPS", "ch01.xhtml"),
        "OEBPS/ch01.xhtml"
    );
    assert_eq!(
        normalize("OEBPS/text", "../ch01.xhtml"),
        "OEBPS/ch01.xhtml"
    );
    assert_eq!(normalize("", "ch01.xhtml"), "ch01.xhtml");
}

#[test]
fn strips_fragments_and_decodes_escapes() {
    assert_eq!(normalize("", "ch01.xhtml#part2"), "ch01.xhtml");
    assert_eq!(normalize("", "a%20b.xhtml"), "a b.xhtml");
}

#[test]
fn reads_metadata_and_reading_order() {
    let opf = r#"<package xmlns="http://www.idpf.org/2007/opf" version="3.0">
      <metadata xmlns:dc="http://purl.org/dc/elements/1.1/">
        <dc:title>A Book</dc:title>
        <dc:creator>An Author</dc:creator>
        <dc:language>en</dc:language>
        <dc:identifier>urn:uuid:1234</dc:identifier>
      </metadata>
      <manifest>
        <item id="c1" href="ch01.xhtml" media-type="application/xhtml+xml"/>
        <item id="c2" href="ch02.xhtml" media-type="application/xhtml+xml"/>
        <item id="cover" href="cover.xhtml" media-type="application/xhtml+xml"/>
        <item id="nav" href="nav.xhtml" properties="nav" media-type="application/xhtml+xml"/>
      </manifest>
      <spine>
        <itemref idref="c1"/>
        <itemref idref="cover" linear="no"/>
        <itemref idref="c2"/>
      </spine>
    </package>"#;
    let package = parse_package(opf).unwrap();
    assert_eq!(package.metadata.title.as_deref(), Some("A Book"));
    assert_eq!(package.metadata.authors, vec!["An Author"]);
    assert_eq!(
        package.metadata.identifier.as_deref(),
        Some("urn:uuid:1234")
    );
    assert_eq!(package.spine, vec!["c1", "c2"]);
    assert_eq!(package.nav_href.as_deref(), Some("nav.xhtml"));
}

#[test]
fn reads_titles_from_nav_document() {
    let nav = r#"<html xmlns:epub="http://www.idpf.org/2007/ops">
      <body><nav epub:type="toc"><ol>
        <li><a href="ch01.xhtml">First</a></li>
        <li><a href="ch02.xhtml#top">Second</a></li>
      </ol></nav></body></html>"#;
    let titles = parse_nav(nav, "OEBPS/nav.xhtml").unwrap();
    assert_eq!(
        titles.get("OEBPS/ch01.xhtml").map(String::as_str),
        Some("First")
    );
    assert_eq!(
        titles.get("OEBPS/ch02.xhtml").map(String::as_str),
        Some("Second")
    );
}

#[test]
fn reads_titles_from_ncx() {
    let ncx = r#"<ncx xmlns="http://www.daisy.org/z3986/2005/ncx/"><navMap>
      <navPoint><navLabel><text>Chapter One</text></navLabel>
        <content src="ch01.xhtml"/></navPoint>
    </navMap></ncx>"#;
    let titles = parse_ncx(ncx, "OEBPS/toc.ncx").unwrap();
    assert_eq!(
        titles.get("OEBPS/ch01.xhtml").map(String::as_str),
        Some("Chapter One")
    );
}

#[test]
fn a_package_needs_no_metadata() {
    let package = parse_package("<package><manifest/><spine/></package>").unwrap();
    assert_eq!(package.metadata.title, None);
    assert!(package.metadata.authors.is_empty());
    assert!(package.spine.is_empty());
}

#[test]
fn broken_documents_are_refused() {
    assert!(parse_package("<package>").is_err());
    assert!(parse_nav("not xml", "nav.xhtml").is_err());
    assert!(parse_ncx("not xml", "toc.ncx").is_err());
}
