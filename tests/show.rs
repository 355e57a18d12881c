use plainoffice::calc::Printer;
use plainoffice::html::HtmlPrinter;
use plainoffice::show::{Document, Presentation};

fn render(input: &str) -> String {
    Document::new(input).html()
}

#[test]
fn can_render_document() {
    let render = HtmlPrinter::new(false, None);
    render.print(Document::new("")).unwrap();
}

#[test]
fn can_render_slides() {
    let render = HtmlPrinter::new(false, None);
    render.print(Presentation::new("")).unwrap();
}

#[test]
fn emits_html() {
    assert_eq!("<h1>hi</h1>\n", &render("# hi"));
}

#[test]
fn supports_utf8() {
    assert_eq!("<p>😊</p>\n", &render("😊"));
}

#[test]
fn renders_single_slide() {
    let pres = Presentation::new("test");
    assert_eq!(1, pres.slides().unwrap().len())
}

#[test]
fn splits_slides() {
    let pres = Presentation::new("a<!--slide-->b");
    assert_eq!(2, pres.slides().unwrap().len());
    assert_eq!("a", pres.slides().unwrap()[0].md());
    assert_eq!("b", pres.slides().unwrap()[1].md())
}

#[test]
fn skips_empty_first_slide() {
    let pres = Presentation::new("<!--slide-->b");
    assert_eq!(1, pres.slides().unwrap().len())
}

#[test]
fn loads_layout_from_slide() {
    let pres = Presentation::new("a<!--slide[test]-->b");
    assert_eq!(Some("test"), pres.slides().unwrap()[1].layout())
}

#[test]
fn ignores_empty_layout() {
    let pres = Presentation::new("<!--slide[]-->b");
    assert_eq!(None, pres.slides().unwrap()[0].layout())
}

#[test]
fn slide_markers_with_spaces_and_layouts() {
    let pres = Presentation::new("one<!-- slide[two-col] -->two<!--slide-->three");
    let slides = pres.slides().unwrap();
    assert_eq!(3, slides.len());
    assert_eq!("one", slides[0].md());
    assert_eq!(None, slides[0].layout());
    assert_eq!("two", slides[1].md());
    assert_eq!(Some("two-col"), slides[1].layout());
    assert_eq!("three", slides[2].md());
    assert_eq!(None, slides[2].layout());
}

#[test]
fn slide_html_is_markdown() {
    let pres = Presentation::new("# a<!--slide-->*b*");
    let slides = pres.slides().unwrap();
    assert_eq!("<h1>a</h1>\n", slides[0].html());
    assert_eq!("<p><em>b</em></p>\n", slides[1].html());
}

#[test]
fn deck_page_has_one_section_per_slide() {
    let page = HtmlPrinter::new(false, None).print(Presentation::new("a<!--slide-->b")).unwrap();
    let page = String::from_utf8(page).unwrap();
    assert_eq!(2, page.matches("<section>").count());
    assert!(page.contains("<p>a</p>"));
}

#[test]
fn document_page_holds_html_and_theme() {
    let page = HtmlPrinter::new(false, Some("h1{color:red}".to_string())).print(Document::new("# t")).unwrap();
    let page = String::from_utf8(page).unwrap();
    assert!(page.contains("<h1>t</h1>"));
    assert!(page.contains("h1{color:red}"));
    assert!(!page.contains("EventSource"));
}
