//! Formulas set on one line.

use omalibre::epub::mathml::{render, script_text};
use omalibre::xml::Document;

/// Renders a `<math>` element given as a string. The samples are taken from
/// real books, with the presentational attributes removed.
fn math(xml: &str) -> String {
    let doc = Document::parse(xml).unwrap();
    render(&doc, doc.root_element())
}

/// The index an HTML `<sub>` or `<sup>` element stands for, if it is one.
fn script(xml: &str, sub: bool) -> Option<String> {
    let doc = Document::parse(xml).unwrap();
    let root = doc.root_element();
    script_text(&doc, root, doc.end_of(root, doc.nodes.len()), sub).map(|r| r.into_iter().collect())
}

#[test]
fn sets_indices_as_unicode_where_every_character_has_one() {
    assert_eq!(math("<math><msub><mi>R</mi><mi>s</mi></msub></math>"), "Rₛ");
    assert_eq!(
        math(
            "<math><msup><mrow><mo>(</mo><mn>0.99</mn><mo>)</mo></mrow><mn>25</mn></msup></math>"
        ),
        "(0.99)²⁵"
    );
}

#[test]
fn falls_back_to_plain_notation_for_an_index_without_a_unicode_form() {
    // Lambda has no superscript, so the whole exponent is written out.
    assert_eq!(
        math("<math><msup><mi>e</mi><mrow><mo>−</mo><mi>λ</mi><mi>t</mi></mrow></msup></math>"),
        "e^(−λt)"
    );
    assert_eq!(
        math("<math><msub><mi>Q</mi><mi>P</mi></msub></math>"),
        "Q_P"
    );
}

#[test]
fn keeps_the_limits_of_a_product_apart() {
    // From the series reliability model in Andersen, Design for
    // Manufacturability. The book writes the lower limit with a capital I,
    // which has no subscript, so both limits fall back together.
    let xml = "<math><munderover><mi>Π</mi><mrow><mi>I</mi><mo>=</mo><mn>1</mn></mrow>\
               <mi>n</mi></munderover><msub><mi>R</mi><mi>i</mi></msub></math>";
    assert_eq!(math(xml), "Π_(I=1)^(n)Rᵢ");
}

#[test]
fn spaces_a_relation_but_not_a_sign() {
    let xml = "<math><mi>a</mi><mo>=</mo><mo>−</mo><mi>b</mi></math>";
    assert_eq!(math(xml), "a = −b");
}

#[test]
fn keeps_a_decimal_point_and_a_fence_tight() {
    let xml = "<math><mo>(</mo><mn>0</mn><mo>.</mo><mn>9</mn><mn>9</mn><mo>)</mo></math>";
    assert_eq!(math(xml), "(0.99)");
}

#[test]
fn writes_a_fraction_on_one_line() {
    let simple =
        "<math><mfrac bevelled=\"true\"><mn>5</mn><mrow><mn>16</mn></mrow></mfrac></math>";
    assert_eq!(math(simple), "5/16");
    let compound = "<math><mfrac><mtext>Uptime</mtext>\
                    <mrow><mtext>Uptime</mtext><mo>+</mo><mtext>Downtime</mtext></mrow></mfrac></math>";
    assert_eq!(math(compound), "Uptime/(Uptime + Downtime)");
}

#[test]
fn writes_a_root_with_its_radicand_grouped() {
    assert_eq!(math("<math><msqrt><mn>2</mn></msqrt></math>"), "√2");
    let sum = "<math><msqrt><mi>a</mi><mo>+</mo><mi>b</mi></msqrt></math>";
    assert_eq!(math(sum), "√(a + b)");
    let cube = "<math><mroot><mi>x</mi><mn>3</mn></mroot></math>";
    assert_eq!(math(cube), "³√x");
}

#[test]
fn attaches_an_exponent_that_has_no_base_of_its_own() {
    // Books write `Q_a1^n1` as a subscripted symbol followed by an
    // exponent whose base is an empty row.
    let xml = "<math><msub><mi>Q</mi><mrow><mi>a</mi><mn>1</mn></mrow></msub>\
               <msup><mrow/><mrow><mi>n</mi><mn>1</mn></mrow></msup></math>";
    assert_eq!(math(xml), "Qₐ₁ⁿ¹");
}

#[test]
fn drops_the_semantic_annotation_of_a_formula() {
    let xml = "<math><semantics><mrow><mi>x</mi></mrow>\
               <annotation encoding=\"application/x-tex\">x</annotation></semantics></math>";
    assert_eq!(math(xml), "x");
}

#[test]
fn drops_characters_that_mark_structure_without_showing_it() {
    // U+2062 is invisible times.
    let xml = "<math><mi>a</mi><mo>\u{2062}</mo><mi>b</mi></math>";
    assert_eq!(math(xml), "ab");
}

#[test]
fn separates_the_rows_of_a_table() {
    let xml = "<math><mtable><mtr><mtd><mi>a</mi></mtd><mtd><mn>1</mn></mtd></mtr>\
               <mtr><mtd><mi>b</mi></mtd><mtd><mn>2</mn></mtd></mtr></mtable></math>";
    assert_eq!(math(xml), "a 1; b 2");
}

#[test]
fn refuses_an_html_index_that_carries_markup() {
    // A footnote marker. Converting it would drop the link.
    let xml = "<sup><a href=\"note.xhtml\">1</a></sup>";
    assert_eq!(script(xml, false), None);
}

#[test]
fn converts_a_plain_html_index() {
    assert_eq!(script("<sub>2</sub>", true).as_deref(), Some("₂"));
    assert_eq!(script("<sup>3</sup>", false).as_deref(), Some("³"));
    assert_eq!(script("<sub>max</sub>", true).as_deref(),
        Some("ₘₐₓ")
    );
}

#[test]
fn ignores_the_indentation_between_elements() {
    // O'Reilly titles set every element on its own line. Taking that as
    // content would spell the logarithm `l o g`.
    let xml = "<math>\n  <mi>l</mi>\n  <mi>o</mi>\n  <mi>g</mi>\n  <mn>2</mn>\n</math>";
    assert_eq!(math(xml), "log2");
}

#[test]
fn keeps_a_space_that_the_markup_asks_for() {
    let xml =
        "<math><mtext>Coffee</mtext><mspace width=\"4.pt\"/><mtext>Drinker</mtext></math>";
    assert_eq!(math(xml), "Coffee Drinker");
}

#[test]
fn leaves_a_raised_symbol_as_it_stands() {
    // A registered sign is set high by the font already.
    assert_eq!(script("<sup>®</sup>", false).as_deref(), Some("®"));
    // A footnote marker that continues an earlier one keeps its comma.
    assert_eq!(script("<sup>,11</sup>", false).as_deref(),
        Some(",¹¹")
    );
}

#[test]
fn binds_a_comma_to_what_stands_before_it() {
    let xml = "<math><msub><mi>P</mi><mn>1</mn></msub><mo>,</mo>\
               <mo>⋯</mo><mo>,</mo><msub><mi>P</mi><mi>m</mi></msub></math>";
    assert_eq!(math(xml), "P₁, ⋯, Pₘ");
}

#[test]
fn an_index_holds_no_space() {
    assert_eq!(
        math(
            "<math><msub><mi>Q</mi><mfrac><mrow><mi>a</mi><mo>+</mo><mi>b</mi></mrow>\
             <mi>c</mi></mfrac></msub></math>"
        ),
        "Q_((a+b)/c)"
    );
    assert_eq!(
        math(
            "<math><msup><mi>e</mi><msqrt><mi>λ</mi><mo>=</mo><mi>t</mi></msqrt></msup></math>"
        ),
        "e^(√(λ=t))"
    );
    assert_eq!(
        math(
            "<math><msub><mi>M</mi><mtable><mtr><mtd><mi>A</mi></mtd><mtd><mi>B</mi></mtd></mtr>\
             <mtr><mtd><mi>C</mi></mtd><mtd><mi>D</mi></mtd></mtr></mtable></msub></math>"
        ),
        "M_(AB;CD)"
    );
    assert_eq!(
        math("<math><msub><mi>T</mi><mtext>Max Flow</mtext></msub></math>"),
        "T_(MaxFlow)"
    );
}
