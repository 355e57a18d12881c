//! HTML pages for computed sheets.
use vstd::prelude::*;
use vstd::utf8::decode_utf8;
use crate::calc::{PrintError, Printer, CsvPrinter, Table};
use crate::cell::{serialized_cells, text_bytes, utf8_to_string};
use crate::show::{markdown_html, slides_of, Document, Presentation, Slide};

verus! {

/// The page that shows a sheet: the sheet's text, an optional theme and an optional
/// script that reloads the page when its source changes.
pub const SHEET: &'static str = "<!DOCTYPE html>\n<html>\n<head>\n<meta charset=\"utf-8\">\n<style>{{{theme}}}</style>\n</head>\n<body>\n<pre class=\"sheet\">{{table}}</pre>\n<script>{{{watcher}}}</script>\n</body>\n</html>\n";

/// The page that shows a markdown document.
pub const DOCUMENT: &'static str = "<!DOCTYPE html>\n<html>\n<head>\n<meta charset=\"utf-8\">\n<style>{{{theme}}}</style>\n</head>\n<body>\n{{{document}}}\n<script>{{{watcher}}}</script>\n</body>\n</html>\n";

/// The page that shows a slide deck, one section per slide.
pub const SLIDES: &'static str = "<!DOCTYPE html>\n<html>\n<head>\n<meta charset=\"utf-8\">\n<style>{{{theme}}}</style>\n</head>\n<body>\n<div class=\"reveal\"><div class=\"slides\">\n{{{slides}}}</div></div>\n<script>{{{watcher}}}</script>\n</body>\n</html>\n";

/// One slide of a deck.
pub const SLIDE: &'static str = "<section>{{{ slide }}}</section>";

/// The script that reloads a watched page when its source changes.
pub const WATCHER: &'static str = "new EventSource('/watch').addEventListener('reload', () => window.location.reload());";

/// What a template gives with the named fields filled in.
pub uninterp spec fn rendered(template: Seq<char>, fields: Seq<(Seq<char>, Seq<char>)>) -> Seq<char>;

/// The fields of a page as text.
pub open spec fn fields_view(fields: Seq<(String, String)>) -> Seq<(Seq<char>, Seq<char>)> {
    fields.map_values(|f: (String, String)| (f.0@, f.1@))
}

/// Relies on handlebars' `Handlebars::render_template`: it renders the template with
/// the named fields, and the text depends on the template and the fields alone.
#[verifier::external_body]
fn render_page(template: &str, fields: &Vec<(String, String)>) -> (r: Option<String>)
    ensures
        r matches Some(s) ==> s@ == rendered(template@, fields_view(fields@)),
{
    let data: std::collections::HashMap<&str, &str> = fields.iter().map(|f| (f.0.as_str(), f.1.as_str())).collect();
    handlebars::Handlebars::new().render_template(template, &data).ok()
}

/// Writes pages of HTML.
pub struct HtmlPrinter {
    watch: bool,
    theme: Option<String>,
}

impl HtmlPrinter {
    /// A printer whose pages reload when `watch` is set and carry the CSS text `theme`;
    /// the caller reads a theme file.
    pub fn new(watch: bool, theme: Option<String>) -> (r: Self)
        ensures
            r.watch() == watch,
            r.theme() == theme,
    {
        HtmlPrinter { watch, theme }
    }

    pub closed spec fn watch(&self) -> bool {
        self.watch
    }

    pub closed spec fn theme(&self) -> Option<String> {
        self.theme
    }

    /// The fields of a page whose body `body` goes under `key`: the body, then the
    /// reload script when watching, then the theme when there is one.
    pub fn page_fields(&self, key: &str, body: String) -> (r: Vec<(String, String)>)
        ensures
            fields_view(r@) == page_fields_spec(key@, self.watch(), self.theme(), body@),
    {
        let mut fields: Vec<(String, String)> = Vec::new();
        fields.push((String::from_str(key), body));
        if self.watch {
            fields.push((String::from_str("watcher"), String::from_str(WATCHER)));
        }
        match &self.theme {
            Some(t) => fields.push((String::from_str("theme"), t.clone())),
            None => {},
        }
        proof {
            reveal_strlit("watcher");
            reveal_strlit("theme");
        }
        assert(fields_view(fields@) =~= page_fields_spec(key@, self.watch(), self.theme(), body@));
        fields
    }

    /// The page that shows a sheet.
    pub fn print_table(&self, table: &Table) -> (r: Result<Vec<u8>, PrintError>)
        ensures
            r matches Ok(bytes) ==> bytes@ == text_bytes(
                rendered(SHEET@, page_fields_spec("table"@, self.watch(), self.theme(), decode_utf8(serialized_cells(table@)))),
            ),
    {
        let bytes = CsvPrinter::new().print_table(table);
        match utf8_to_string(bytes) {
            None => Err(PrintError::Render),
            Some(text) => {
                let fields = self.page_fields("table", text);
                match render_page(SHEET, &fields) {
                    None => Err(PrintError::Render),
                    Some(page) => {
                        let out = vstd::slice::slice_to_vec(page.as_str().as_bytes());
                        Ok(out)
                    },
                }
            },
        }
    }
}

/// The fields of a sheet's page; see `HtmlPrinter::page_fields`.
pub open spec fn page_fields_spec(key: Seq<char>, watch: bool, theme: Option<String>, body: Seq<char>) -> Seq<(Seq<char>, Seq<char>)> {
    let base = seq![(key, body)];
    let watched = if watch {
        base.push(("watcher"@, WATCHER@))
    } else {
        base
    };
    match theme {
        Some(t) => watched.push(("theme"@, t@)),
        None => watched,
    }
}

/// The section that shows a slide.
pub open spec fn section_of(s: Slide) -> Seq<char> {
    rendered(SLIDE@, seq![("slide"@, markdown_html(s.md_spec()@))])
}

/// Slide sections written one after another, each followed by a newline.
pub open spec fn joined_sections(sections: Seq<Seq<char>>) -> Seq<char>
    decreases sections.len(),
{
    if sections.len() == 0 {
        Seq::empty()
    } else {
        joined_sections(sections.drop_last()) + sections.last() + seq!['\n']
    }
}

/// Renders a page template with the given fields.
fn render_fields(template: &str, fields: &Vec<(String, String)>) -> (r: Result<Vec<u8>, PrintError>)
    ensures
        r matches Ok(bytes) ==> bytes@ == text_bytes(rendered(template@, fields_view(fields@))),
{
    match render_page(template, fields) {
        None => Err(PrintError::Render),
        Some(page) => Ok(vstd::slice::slice_to_vec(page.as_str().as_bytes())),
    }
}

impl HtmlPrinter {
    /// The page that shows a document whose HTML is `body`.
    pub fn document_page(&self, body: String) -> (r: Result<Vec<u8>, PrintError>)
        ensures
            r matches Ok(bytes) ==> bytes@ == text_bytes(
                rendered(DOCUMENT@, page_fields_spec("document"@, self.watch(), self.theme(), body@)),
            ),
    {
        let fields = self.page_fields("document", body);
        render_fields(DOCUMENT, &fields)
    }

    /// The page that shows a markdown document.
    pub fn print_document(&self, document: &Document) -> (r: Result<Vec<u8>, PrintError>)
        ensures
            r matches Ok(bytes) ==> bytes@ == text_bytes(
                rendered(DOCUMENT@, page_fields_spec("document"@, self.watch(), self.theme(), markdown_html(document.source()@))),
            ),
    {
        self.document_page(document.html())
    }

    /// The section of a slide whose HTML is `html`.
    pub fn slide_section(html: String) -> (r: Result<String, PrintError>)
        ensures
            r matches Ok(s) ==> s@ == rendered(SLIDE@, seq![("slide"@, html@)]),
    {
        let mut fields: Vec<(String, String)> = Vec::new();
        fields.push((String::from_str("slide"), html));
        assert(fields_view(fields@) =~= seq![("slide"@, fields@[0].1@)]);
        match render_page(SLIDE, &fields) {
            None => Err(PrintError::Render),
            Some(s) => Ok(s),
        }
    }

    /// The page that shows a deck whose slide sections are `sections`.
    pub fn slides_page(&self, sections: &Vec<String>) -> (r: Result<Vec<u8>, PrintError>)
        ensures
            r matches Ok(bytes) ==> bytes@ == text_bytes(
                rendered(
                    SLIDES@,
                    page_fields_spec(
                        "slides"@,
                        self.watch(),
                        self.theme(),
                        joined_sections(sections@.map_values(|s: String| s@)),
                    ),
                ),
            ),
    {
        let mut all = String::new();
        let mut i: usize = 0;
        while i < sections.len()
            invariant
                i <= sections.len(),
                all@ == joined_sections(sections@.subrange(0, i as int).map_values(|s: String| s@)),
            decreases sections.len() - i,
        {
            all.append(sections[i].as_str());
            all.append("\n");
            proof {
                reveal_strlit("\n");
                let prev = sections@.subrange(0, i as int).map_values(|s: String| s@);
                let next = sections@.subrange(0, i + 1).map_values(|s: String| s@);
                assert(next.drop_last() =~= prev);
                assert(all@ =~= joined_sections(next));
            }
            i = i + 1;
        }
        assert(sections@.subrange(0, i as int) =~= sections@);
        let fields = self.page_fields("slides", all);
        render_fields(SLIDES, &fields)
    }

    /// The page that shows a slide deck; each slide's markdown becomes one section.
    pub fn print_presentation(&self, presentation: &Presentation) -> (r: Result<Vec<u8>, PrintError>)
        ensures
            r matches Ok(bytes) ==> exists|slides: Seq<Slide>|
                slides_of(presentation.source(), slides) && bytes@ == text_bytes(
                    rendered(
                        SLIDES@,
                        page_fields_spec(
                            "slides"@,
                            self.watch(),
                            self.theme(),
                            joined_sections(slides.map_values(|s: Slide| section_of(s))),
                        ),
                    ),
                ),
    {
        let slides = match presentation.slides() {
            Ok(s) => s,
            Err(_) => {
                return Err(PrintError::Render);
            },
        };
        let mut sections: Vec<String> = Vec::new();
        let mut i: usize = 0;
        while i < slides.len()
            invariant
                i <= slides.len(),
                sections.len() == i,
                forall|k: int| 0 <= k < i ==> (#[trigger] sections@[k])@ == section_of(slides@[k]),
                slides_of(presentation.source(), slides@),
            decreases slides.len() - i,
        {
            let section = HtmlPrinter::slide_section(slides[i].html())?;
            sections.push(section);
            i = i + 1;
        }
        let r = self.slides_page(&sections);
        assert(sections@.map_values(|s: String| s@) =~= slides@.map_values(|s: Slide| section_of(s)));
        assert(slides_of(presentation.source(), slides@));
        r
    }
}

impl Printer<Document> for HtmlPrinter {
    open spec fn printed(&self, document: Document, r: Result<Vec<u8>, PrintError>) -> bool {
        r matches Ok(bytes) ==> bytes@ == text_bytes(
            rendered(DOCUMENT@, page_fields_spec("document"@, self.watch(), self.theme(), markdown_html(document.source()@))),
        )
    }

    fn print(&self, value: Document) -> (r: Result<Vec<u8>, PrintError>) {
        self.print_document(&value)
    }

    fn extension() -> &'static str {
        "html"
    }
}

impl Printer<Presentation> for HtmlPrinter {
    open spec fn printed(&self, presentation: Presentation, r: Result<Vec<u8>, PrintError>) -> bool {
        r matches Ok(bytes) ==> exists|slides: Seq<Slide>|
            slides_of(presentation.source(), slides) && bytes@ == text_bytes(
                rendered(
                    SLIDES@,
                    page_fields_spec(
                        "slides"@,
                        self.watch(),
                        self.theme(),
                        joined_sections(slides.map_values(|s: Slide| section_of(s))),
                    ),
                ),
            )
    }

    fn print(&self, value: Presentation) -> (r: Result<Vec<u8>, PrintError>) {
        self.print_presentation(&value)
    }

    fn extension() -> &'static str {
        "html"
    }
}

impl Printer<Table> for HtmlPrinter {
    open spec fn printed(&self, table: Table, r: Result<Vec<u8>, PrintError>) -> bool {
        r matches Ok(bytes) ==> bytes@ == text_bytes(
            rendered(SHEET@, page_fields_spec("table"@, self.watch(), self.theme(), decode_utf8(serialized_cells(table@)))),
        )
    }

    fn print(&self, value: Table) -> (r: Result<Vec<u8>, PrintError>) {
        self.print_table(&value)
    }

    fn extension() -> &'static str {
        "html"
    }
}

} // verus!
