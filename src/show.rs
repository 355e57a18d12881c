//! Markdown documents, and slide decks split out of one markdown text.
use vstd::prelude::*;
use vstd::utf8::valid_utf8;
use crate::cell::{text_bytes, utf8_to_string};

verus! {

/// The HTML that a CommonMark text renders to.
pub uninterp spec fn markdown_html(md: Seq<char>) -> Seq<char>;

/// Relies on pulldown_cmark's `Parser::new` and `html::push_html`: the HTML of a
/// CommonMark text, which depends on the text alone.
#[verifier::external_body]
pub(crate) fn render_markdown(md: &str) -> (r: String)
    ensures
        r@ == markdown_html(md@),
{
    let mut out = String::new();
    pulldown_cmark::html::push_html(&mut out, pulldown_cmark::Parser::new(md));
    out
}

/// A markdown document.
pub struct Document {
    source: String,
}

impl Document {
    pub fn new(source: &str) -> (r: Self)
        ensures
            r.source()@ == source@,
    {
        Document { source: String::from_str(source) }
    }

    pub closed spec fn source(&self) -> String {
        self.source
    }

    /// The document's HTML.
    pub fn html(&self) -> (r: String)
        ensures
            r@ == markdown_html(self.source()@),
    {
        render_markdown(self.source.as_str())
    }
}

/// The slide markers `<!--slide-->` or `<!--slide[layout]-->` in a text: the byte
/// span of each, and the layout it names.
pub uninterp spec fn slide_markers(source: Seq<char>) -> Seq<(int, int, Option<Seq<char>>)>;

/// The markers as their models.
pub open spec fn markers_view(ms: Seq<(usize, usize, Option<String>)>) -> Seq<(int, int, Option<Seq<char>>)> {
    ms.map_values(|m: (usize, usize, Option<String>)| (m.0 as int, m.1 as int, layout_view(m.2)))
}

pub open spec fn layout_view(l: Option<String>) -> Option<Seq<char>> {
    match l {
        Some(s) => Some(s@),
        None => None,
    }
}

/// Relies on regex's `Regex::new` and `Regex::captures_iter`: the matches of the slide
/// marker pattern, in order and without overlap and within the text, each with the
/// text of its first group.
#[verifier::external_body]
fn find_slide_markers(source: &str) -> (r: Vec<(usize, usize, Option<String>)>)
    ensures
        markers_view(r@) == slide_markers(source@),
        forall|k: int| 0 <= k < r.len() ==> (#[trigger] r@[k]).0 <= r@[k].1 <= text_bytes(source@).len(),
        forall|k: int| 0 < k < r.len() ==> r@[k - 1].1 <= (#[trigger] r@[k]).0,
{
    match regex::Regex::new(r"<!--\s*slide(?:\[([-\w]+)?\])?\s*-->") {
        Ok(pattern) => pattern.captures_iter(source).map(|c| {
            let m = c.get(0).unwrap();
            (m.start(), m.end(), c.get(1).map(|l| l.as_str().to_string()))
        }).collect(),
        Err(_) => Vec::new(),
    }
}

/// The slides of a text of `n` bytes with the markers `ms` from the `k`-th on, where the
/// current slide starts at byte `last` with the layout `layout`. A marker ends the
/// current slide unless that slide would be empty, and names the next slide's layout.
pub open spec fn slide_spans(
    n: int,
    ms: Seq<(int, int, Option<Seq<char>>)>,
    k: int,
    last: int,
    layout: Option<Seq<char>>,
) -> Seq<(int, int, Option<Seq<char>>)>
    decreases ms.len() - k,
{
    if k < 0 || k >= ms.len() {
        if last < n {
            seq![(last, n, layout)]
        } else {
            Seq::empty()
        }
    } else {
        let m = ms[k];
        if last != m.0 {
            seq![(last, m.0, layout)] + slide_spans(n, ms, k + 1, m.1, m.2)
        } else {
            slide_spans(n, ms, k + 1, last, m.2)
        }
    }
}

/// One slide: its markdown and the layout its marker named.
pub struct Slide {
    md: String,
    layout: Option<String>,
}

impl Slide {
    pub closed spec fn md_spec(&self) -> String {
        self.md
    }

    pub closed spec fn layout_spec(&self) -> Option<String> {
        self.layout
    }

    pub fn layout(&self) -> (r: Option<&str>)
        ensures
            r matches Some(l) ==> self.layout_spec() matches Some(s) && l@ == s@,
            r is None <==> self.layout_spec() is None,
    {
        match &self.layout {
            Some(l) => Some(l.as_str()),
            None => None,
        }
    }

    pub fn md(&self) -> (r: &str)
        ensures
            r@ == self.md_spec()@,
    {
        self.md.as_str()
    }

    /// The slide's HTML.
    pub fn html(&self) -> (r: String)
        ensures
            r@ == markdown_html(self.md_spec()@),
    {
        render_markdown(self.md.as_str())
    }
}

/// Markdown slides in one text, split at slide markers.
pub struct Presentation {
    source: String,
}

/// The slides of a text: what `Presentation::slides` gives where it succeeds.
pub open spec fn slides_of(source: String, slides: Seq<Slide>) -> bool {
    let bytes = text_bytes(source@);
    slides_match(bytes, slide_spans(bytes.len() as int, slide_markers(source@), 0, 0, None), slides)
}

/// `slides` are the slides of `source`, cut at the spans `spans`.
pub open spec fn slides_match(source: Seq<u8>, spans: Seq<(int, int, Option<Seq<char>>)>, slides: Seq<Slide>) -> bool {
    &&& slides.len() == spans.len()
    &&& forall|i: int|
        0 <= i < slides.len() ==> {
            &&& text_bytes((#[trigger] slides[i]).md_spec()@) == source.subrange(spans[i].0, spans[i].1)
            &&& layout_view(slides[i].layout_spec()) == spans[i].2
        }
}

impl Presentation {
    pub fn new(source: &str) -> (r: Self)
        ensures
            r.source()@ == source@,
    {
        Presentation { source: String::from_str(source) }
    }

    pub closed spec fn source(&self) -> String {
        self.source
    }

    /// The slides, in order; fails only where a slide's bytes are not valid UTF-8.
    pub fn slides(&self) -> (r: Result<Vec<Slide>, ()>)
        ensures
            ({
                let bytes = text_bytes(self.source()@);
                let spans = slide_spans(bytes.len() as int, slide_markers(self.source()@), 0, 0, None);
                &&& r is Ok <==> forall|i: int|
                    0 <= i < spans.len() ==> valid_utf8(bytes.subrange(#[trigger] spans[i].0, spans[i].1))
                &&& r matches Ok(slides) ==> slides_match(bytes, spans, slides@)
            }),
    {
        let text = self.source.as_str();
        let bytes = text.as_bytes();
        let markers = find_slide_markers(text);
        let ghost n = bytes@.len() as int;
        let ghost ms = markers_view(markers@);
        let ghost spans = slide_spans(n, ms, 0, 0, None);
        assert(text@ == self.source@);
        assert(bytes@ == text_bytes(self.source@));
        assert(spans == slide_spans(text_bytes(self.source()@).len() as int, slide_markers(self.source()@), 0, 0, None));
        let mut slides: Vec<Slide> = Vec::new();
        let ghost mut done: Seq<(int, int, Option<Seq<char>>)> = Seq::empty();
        let mut last: usize = 0;
        let mut layout: Option<String> = None;
        let mut k: usize = 0;
        assert(spans =~= done + slide_spans(n, ms, 0, 0, None));
        while k < markers.len()
            invariant
                k <= markers.len(),
                n == bytes@.len(),
                bytes@ == text_bytes(self.source@),
                ms == markers_view(markers@),
                ms.len() == markers.len(),
                spans == slide_spans(n, ms, 0, 0, None),
                spans == slide_spans(text_bytes(self.source()@).len() as int, slide_markers(self.source()@), 0, 0, None),
                forall|j: int| 0 <= j < markers.len() ==> (#[trigger] markers@[j]).0 <= markers@[j].1 <= n,
                forall|j: int| 0 < j < markers.len() ==> markers@[j - 1].1 <= (#[trigger] markers@[j]).0,
                last <= n,
                k < markers.len() ==> last <= markers@[k as int].0,
                spans == done + slide_spans(n, ms, k as int, last as int, layout_view(layout)),
                slides_match(bytes@, done, slides@),
                forall|i: int| 0 <= i < done.len() ==> valid_utf8(bytes@.subrange(#[trigger] done[i].0, done[i].1)),
            decreases markers.len() - k,
        {
            let m = &markers[k];
            assert(ms[k as int] == (m.0 as int, m.1 as int, layout_view(m.2)));
            let ghost rest = slide_spans(n, ms, k + 1, m.1 as int, layout_view(m.2));
            if last != m.0 {
                let ghost piece_span = (last as int, m.0 as int, layout_view(layout));
                assert(slide_spans(n, ms, k as int, last as int, layout_view(layout)) == seq![piece_span] + rest);
                let piece = vstd::slice::slice_to_vec(vstd::slice::slice_subrange(bytes, last, m.0));
                match utf8_to_string(piece) {
                    Some(md) => {
                        proof {
                            vstd::utf8::decode_utf8_encode_utf8(bytes@.subrange(last as int, m.0 as int));
                        }
                        slides.push(Slide { md, layout });
                        proof {
                            let old_done = done;
                            done = done.push(piece_span);
                            assert(spans =~= done + rest);
                            assert forall|i: int| 0 <= i < done.len() implies valid_utf8(bytes@.subrange(#[trigger] done[i].0, done[i].1)) by {
                                if i < old_done.len() {
                                    assert(done[i] == old_done[i]);
                                }
                            }
                            assert forall|i: int| 0 <= i < slides.len() implies {
                                &&& text_bytes((#[trigger] slides@[i]).md_spec()@) == bytes@.subrange(done[i].0, done[i].1)
                                &&& layout_view(slides@[i].layout_spec()) == done[i].2
                            } by {
                                if i < old_done.len() {
                                    assert(done[i] == old_done[i]);
                                }
                            }
                        }
                    },
                    None => {
                        proof {
                            let i = done.len() as int;
                            assert(spans == done + (seq![piece_span] + rest));
                            assert(spans.len() > i);
                            assert(spans[i] == piece_span);
                            assert(!valid_utf8(bytes@.subrange(spans[i].0, spans[i].1)));
                            assert(!(forall|j: int| 0 <= j < spans.len() ==> valid_utf8(bytes@.subrange(#[trigger] spans[j].0, spans[j].1))));
                        }
                        return Err(());
                    },
                }
                last = m.1;
            } else {
                assert(slide_spans(n, ms, k as int, last as int, layout_view(layout)) == slide_spans(
                    n,
                    ms,
                    k + 1,
                    last as int,
                    layout_view(m.2),
                ));
            }
            layout = copy_layout(&m.2);
            k = k + 1;
        }
        let ghost tail = slide_spans(n, ms, k as int, last as int, layout_view(layout));
        if last < bytes.len() {
            let ghost piece_span = (last as int, n, layout_view(layout));
            assert(tail == seq![piece_span]);
            let piece = vstd::slice::slice_to_vec(vstd::slice::slice_subrange(bytes, last, bytes.len()));
            match utf8_to_string(piece) {
                Some(md) => {
                    proof {
                        vstd::utf8::decode_utf8_encode_utf8(bytes@.subrange(last as int, n));
                    }
                    slides.push(Slide { md, layout });
                    proof {
                        let old_done = done;
                        done = done.push(piece_span);
                        assert(spans =~= done);
                        assert forall|i: int| 0 <= i < slides.len() implies {
                            &&& text_bytes((#[trigger] slides@[i]).md_spec()@) == bytes@.subrange(done[i].0, done[i].1)
                            &&& layout_view(slides@[i].layout_spec()) == done[i].2
                        } by {
                            if i < old_done.len() {
                                assert(done[i] == old_done[i]);
                            }
                        }
                        assert forall|i: int| 0 <= i < done.len() implies valid_utf8(bytes@.subrange(#[trigger] done[i].0, done[i].1)) by {
                            if i < old_done.len() {
                                assert(done[i] == old_done[i]);
                            }
                        }
                    }
                },
                None => {
                    proof {
                        let i = done.len() as int;
                        assert(spans == done + seq![piece_span]);
                        assert(spans.len() > i);
                        assert(spans[i] == piece_span);
                        assert(!valid_utf8(bytes@.subrange(spans[i].0, spans[i].1)));
                        assert(!(forall|j: int| 0 <= j < spans.len() ==> valid_utf8(bytes@.subrange(#[trigger] spans[j].0, spans[j].1))));
                    }
                    return Err(());
                },
            }
        } else {
            assert(tail =~= Seq::<(int, int, Option<Seq<char>>)>::empty());
            assert(spans =~= done);
        }
        Ok(slides)
    }
}

fn copy_layout(l: &Option<String>) -> (r: Option<String>)
    ensures
        layout_view(r) == layout_view(*l),
{
    match l {
        Some(s) => Some(s.clone()),
        None => None,
    }
}

} // verus!
