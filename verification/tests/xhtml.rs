//! Chapter documents read into blocks.

use omalibre::doc::BlockKind;
use omalibre::epub::xhtml::{parse, parse_in};

#[test]
fn extracts_headings_and_paragraphs() {
    let blocks =
        parse(r#"<html><body><h1>Title</h1><p>First <em>word</em>.</p></body></html>"#)
            .unwrap();
    assert_eq!(blocks.len(), 2);
    assert_eq!(blocks[0].kind, BlockKind::Heading(1));
    assert_eq!(blocks[0].plain_text(), "Title");
    assert_eq!(blocks[1].plain_text(), "First word.");
    assert!(blocks[1].runs.iter().any(|r| r.style.italic));
}

#[test]
fn numbers_ordered_list_items() {
    let blocks = parse(r#"<html><body><ol><li>a</li><li>b</li></ol></body></html>"#).unwrap();
    assert_eq!(
        blocks[0].kind,
        BlockKind::ListItem {
            depth: 0,
            ordinal: Some(1)
        }
    );
    assert_eq!(
        blocks[1].kind,
        BlockKind::ListItem {
            depth: 0,
            ordinal: Some(2)
        }
    );
}

#[test]
fn keeps_the_outer_item_when_a_list_nests() {
    let blocks = parse(
        r#"<html><body><ol>
             <li>outer one<ol><li>inner</li></ol></li>
             <li>outer two</li>
           </ol></body></html>"#,
    )
    .unwrap();
    let texts: Vec<String> = blocks.iter().map(|b| b.plain_text()).collect();
    assert_eq!(texts, vec!["outer one", "inner", "outer two"]);
    assert_eq!(
        blocks[0].kind,
        BlockKind::ListItem {
            depth: 0,
            ordinal: Some(1)
        }
    );
    assert_eq!(
        blocks[1].kind,
        BlockKind::ListItem {
            depth: 1,
            ordinal: Some(1)
        }
    );
    // The outer list keeps counting after the nested one.
    assert_eq!(
        blocks[2].kind,
        BlockKind::ListItem {
            depth: 0,
            ordinal: Some(2)
        }
    );
}

#[test]
fn collapses_whitespace_across_lines() {
    let blocks = parse("<html><body><p>one\n  two\t three</p></body></html>").unwrap();
    assert_eq!(blocks[0].plain_text(), "one two three");
}

#[test]
fn resolves_undeclared_entities() {
    let blocks = parse("<html><body><p>a&nbsp;b &mdash; c</p></body></html>").unwrap();
    assert_eq!(blocks[0].plain_text(), "a\u{00a0}b \u{2014} c");
}

#[test]
fn keeps_line_breaks_in_preformatted_text() {
    let blocks = parse("<html><body><pre>one\ntwo</pre></body></html>").unwrap();
    assert_eq!(blocks.len(), 2);
    assert_eq!(blocks[0].kind, BlockKind::Code);
    assert_eq!(blocks[1].plain_text(), "two");
}

#[test]
fn skips_style_and_script() {
    let blocks = parse(
        "<html><head><style>p{color:red}</style></head><body><script>x=1</script><p>text</p></body></html>",
    )
    .unwrap();
    assert_eq!(blocks.len(), 1);
    assert_eq!(blocks[0].plain_text(), "text");
}

#[test]
fn gives_a_displayed_formula_a_block_of_its_own() {
    let blocks = parse(
        r#"<html><body><p>before</p><div class="disp-formulau">
           <math xmlns="http://www.w3.org/1998/Math/MathML" display="block">
             <msub><mi>R</mi><mi>s</mi></msub><mo>=</mo><msub><mi>R</mi><mn>1</mn></msub>
           </math></div><p>after</p></body></html>"#,
    )
    .unwrap();
    let text: Vec<String> = blocks.iter().map(|b| b.plain_text()).collect();
    assert_eq!(text, vec!["before", "Rₛ = R₁", "after"]);
}

#[test]
fn keeps_an_inline_formula_in_the_running_text() {
    let blocks = parse(
        r#"<html><body><p>a <math xmlns="http://www.w3.org/1998/Math/MathML" display="inline"><mfrac><mn>5</mn><mn>16</mn></mfrac></math> bolt</p></body></html>"#,
    )
    .unwrap();
    assert_eq!(blocks.len(), 1);
    assert_eq!(blocks[0].plain_text(), "a 5/16 bolt");
}

#[test]
fn sets_an_index_from_prose_as_one() {
    let blocks =
        parse("<html><body><p>R<sub>s</sub> and x<sup>2</sup></p></body></html>").unwrap();
    assert_eq!(blocks[0].plain_text(), "Rₛ and x²");
}

#[test]
fn leaves_a_footnote_marker_a_link() {
    let parsed = parse_in(
        r#"<html><body><p>text<sup><a href="notes.xhtml#n1">1</a></sup></p></body></html>"#,
        "",
    )
    .unwrap();
    assert_eq!(parsed.blocks[0].plain_text(), "text1");
    assert_eq!(parsed.links.len(), 1);
    assert_eq!(parsed.links[0].target, "notes.xhtml#n1");
}

#[test]
fn an_element_with_an_id_is_an_anchor() {
    let parsed = parse_in(
        r#"<html><body><p>one</p><p id="here">two <span id="there">three</span></p></body></html>"#,
        "",
    )
    .unwrap();
    assert_eq!(parsed.anchors.get("here"), Some(&(1, 0)));
    assert_eq!(parsed.anchors.get("there"), Some(&(1, 4)));
}

#[test]
fn a_picture_is_resolved_against_its_chapter() {
    let parsed = parse_in(
        r#"<html><body><img src="../images/a.png" alt="A figure"/></body></html>"#,
        "OEBPS/text",
    )
    .unwrap();
    assert_eq!(
        parsed.blocks[0].kind,
        BlockKind::Image { src: Some("OEBPS/images/a.png".to_string()) }
    );
    assert_eq!(parsed.blocks[0].plain_text(), "A figure");
}

#[test]
fn what_is_no_xml_is_refused() {
    assert!(parse("<html><body>").is_err());
}

#[test]
fn a_link_covers_the_text_that_is_kept() {
    let parsed =
        parse_in("<html><body><p> <a href='n.xhtml'>y</a></p></body></html>", "").unwrap();
    assert_eq!(parsed.blocks[0].plain_text(), "y");
    assert_eq!(parsed.links.len(), 1);
    assert_eq!((parsed.links[0].block, parsed.links[0].start, parsed.links[0].end), (0, 0, 1));
}

#[test]
fn a_link_loses_the_space_at_the_edges() {
    let parsed =
        parse_in("<html><body><p> a <a href='n.xhtml'>b c </a> </p></body></html>", "").unwrap();
    assert_eq!(parsed.blocks[0].plain_text(), "a b c");
    assert_eq!((parsed.links[0].start, parsed.links[0].end), (2, 5));
}

#[test]
fn a_link_over_nothing_is_dropped() {
    let parsed =
        parse_in("<html><body><p>a <a href='n.xhtml'> </a></p></body></html>", "").unwrap();
    assert_eq!(parsed.blocks[0].plain_text(), "a");
    assert_eq!(parsed.links.len(), 0);
}

#[test]
fn a_link_starts_with_the_block_that_begins_inside_it() {
    let parsed = parse_in(
        "<html><body><div> <a href='n.xhtml'><ul></ul>text</a> on</div></body></html>",
        "",
    )
    .unwrap();
    assert_eq!(parsed.blocks[0].plain_text(), "text on");
    assert_eq!((parsed.links[0].start, parsed.links[0].end), (0, 4));
}

#[test]
fn an_anchor_points_at_where_its_content_begins() {
    let parsed = parse_in(
        r#"<html><body><div>before<p id="block">x</p> <p> <b id="word">y</b></p>
        <p id="empty"> </p></div></body></html>"#,
        "",
    )
    .unwrap();
    assert_eq!(parsed.blocks.len(), 3);
    assert_eq!(parsed.anchors.get("block"), Some(&(1, 0)));
    assert_eq!(parsed.anchors.get("word"), Some(&(2, 0)));
    assert_eq!(parsed.anchors.get("empty"), Some(&(3, 0)));
}

#[test]
fn preformatted_lines_keep_their_indentation() {
    let blocks = parse("<html><body><pre>if x:\n    y\n\nz</pre></body></html>").unwrap();
    let lines: Vec<String> = blocks.iter().map(|b| b.plain_text()).collect();
    assert_eq!(lines, vec!["if x:", "    y", "", "z"]);
    assert!(blocks.iter().all(|b| b.kind == BlockKind::Code));
}

#[test]
fn space_around_styled_text_is_trimmed() {
    let blocks = parse("<html><body><p> <b> x</b> <i> </i></p></body></html>").unwrap();
    assert_eq!(blocks[0].plain_text(), "x");
    assert_eq!(blocks[0].runs.len(), 1);
    assert!(blocks[0].runs[0].style.bold);
}

#[test]
fn links_come_in_reading_order() {
    let parsed = parse_in(
        r#"<html><body><p>a <a href="1">b</a> <i><a href="2"> c</a></i></p>
        <p><a href="3">d</a></p></body></html>"#,
        "",
    )
    .unwrap();
    let targets: Vec<&str> = parsed.links.iter().map(|l| l.target.as_str()).collect();
    assert_eq!(targets, vec!["1", "2", "3"]);
    let ends: Vec<(usize, usize)> = parsed.links.iter().map(|l| (l.block, l.end)).collect();
    assert!(ends.windows(2).all(|pair| pair[0] < pair[1]), "{ends:?}");
}
