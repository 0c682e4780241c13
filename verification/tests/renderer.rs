use japanese_ruby_filter::renderer::HtmlRenderer;
use japanese_ruby_filter::Ruby;

fn render_ruby(input: &Ruby) -> String {
    let mut output = String::new();
    HtmlRenderer::new().render(input, &mut output);

    output
}

#[test]
fn simple_ruby_to_html() {
    let input = Ruby::from_str_vecs(vec!["漢", "字"], vec!["かん", "じ"]);
    let expected = "<ruby>漢<rp>（</rp><rt>かん</rt><rp>）</rp>字<rp>（</rp><rt>じ</rt><rp>）</rp></ruby>";
    assert_eq!(render_ruby(&input).as_str(), expected);
}

#[test]
fn one_group_ruby_to_html() {
    let input = Ruby::from_str_vecs(vec!["境界"], vec!["フロンティア"]);
    let expected = "<ruby>境界<rp>（</rp><rt>フロンティア</rt><rp>）</rp></ruby>";
    assert_eq!(render_ruby(&input).as_str(), expected);
}

#[test]
fn ruby_without_groups_to_html() {
    let input = Ruby::from_str_vecs(vec![], vec![]);
    assert_eq!(render_ruby(&input).as_str(), "<ruby></ruby>");
}

#[test]
fn render_appends_to_the_buffer() {
    let input = Ruby::from_str_vecs(vec!["字"], vec!["じ"]);
    let mut output = String::from("漢");
    HtmlRenderer::new().render(&input, &mut output);
    assert_eq!(output.as_str(), "漢<ruby>字<rp>（</rp><rt>じ</rt><rp>）</rp></ruby>");
}

#[test]
fn render_with_other_parentheses() {
    let input = Ruby::from_str_vecs(vec!["漢", "字"], vec!["かん", "じ"]);
    let mut output = String::new();
    HtmlRenderer::with_parens("(", ")").render(&input, &mut output);
    assert_eq!(
        output.as_str(),
        "<ruby>漢<rp>(</rp><rt>かん</rt><rp>)</rp>字<rp>(</rp><rt>じ</rt><rp>)</rp></ruby>"
    );
    let mut output = String::new();
    HtmlRenderer::with_parens("", "").render(&input, &mut output);
    assert_eq!(
        output.as_str(),
        "<ruby>漢<rp></rp><rt>かん</rt><rp></rp>字<rp></rp><rt>じ</rt><rp></rp></ruby>"
    );
}
