//! Extraction of links, text, titles and descriptions from fetched pages.
use vstd::prelude::*;
use crate::shard::{get_shard_index, shard_of};
use crate::snippet::{lowercase_spec, to_lowercase};
use crate::text::{
    chars_of, join, join_strings, same_chars, string_from_chars, trim, trim_chars,
};
use crate::urls::{join_url, parse_url, url_join_spec, url_parse_spec, UrlView};
use quick_xml::events::Event as E;

verus! {

/// What the crawler reads of an HTML document.
pub struct ScrapedHtml {
    /// The `href` attribute of each `a[href]` element, in document order.
    pub hrefs: Vec<Option<String>>,
    /// The text nodes of the document, in order.
    pub text_nodes: Vec<String>,
    /// The inner HTML of each `title` element, in document order.
    pub titles: Vec<String>,
    /// The `content` attribute of each `meta[name="description"]` element, in document order.
    pub descriptions: Vec<Option<String>>,
}

pub struct ScrapedView {
    pub hrefs: Seq<Option<Seq<char>>>,
    pub text_nodes: Seq<Seq<char>>,
    pub titles: Seq<Seq<char>>,
    pub descriptions: Seq<Option<Seq<char>>>,
}

impl View for ScrapedHtml {
    type V = ScrapedView;

    open spec fn view(&self) -> ScrapedView {
        ScrapedView {
            hrefs: self.hrefs@.map_values(|h: Option<String>| crate::urls::opt_view(h)),
            text_nodes: self.text_nodes.deep_view(),
            titles: self.titles.deep_view(),
            descriptions: self.descriptions@.map_values(|d: Option<String>| crate::urls::opt_view(d)),
        }
    }
}

/// What `scraper` reads of the document `html` (see `ScrapedHtml`).
pub uninterp spec fn scrape_spec(html: Seq<char>) -> ScrapedView;

/// Parses `html` with `scraper::Html::parse_document` and reads, with
/// `scraper::Selector`s, the `href` of every anchor, the text nodes under the
/// root, the inner HTML of every `title` and the `content` of every
/// description `meta`. The contract claims only that the result is a
/// function of `html`.
#[verifier::external_body]
fn scrape_html(html: &str) -> (r: ScrapedHtml)
    ensures
        r@ == scrape_spec(html@),
{
    let doc = scraper::Html::parse_document(html);
    let a = scraper::Selector::parse("a[href]").unwrap();
    let t = scraper::Selector::parse("title").unwrap();
    let m = scraper::Selector::parse("meta[name=\"description\"]").unwrap();
    ScrapedHtml {
        hrefs: doc.select(&a).map(|e| e.value().attr("href").map(String::from)).collect(),
        text_nodes: doc.root_element().text().map(String::from).collect(),
        titles: doc.select(&t).map(|e| e.inner_html()).collect(),
        descriptions: doc.select(&m).map(|e| e.value().attr("content").map(String::from)).collect(),
    }
}

/// The `href`s that are present, in order.
pub open spec fn present(hs: Seq<Option<Seq<char>>>) -> Seq<Seq<char>>
    decreases hs.len(),
{
    if hs.len() == 0 {
        Seq::empty()
    } else {
        match hs.last() {
            Some(h) => present(hs.drop_last()).push(h),
            None => present(hs.drop_last()),
        }
    }
}

/// The first entry of `s`, if any.
pub open spec fn first_of<A>(s: Seq<A>) -> Option<A> {
    if s.len() > 0 { Some(s[0]) } else { None }
}

fn present_hrefs(hs: &Vec<Option<String>>) -> (r: Vec<String>)
    ensures
        r.deep_view() == present(hs@.map_values(|h: Option<String>| crate::urls::opt_view(h))),
{
    let ghost hv = hs@.map_values(|h: Option<String>| crate::urls::opt_view(h));
    let mut out: Vec<String> = Vec::new();
    let mut i: usize = 0;
    assert(out.deep_view() =~= present(hv.take(0)));
    while i < hs.len()
        invariant
            i <= hs@.len(),
            hv == hs@.map_values(|h: Option<String>| crate::urls::opt_view(h)),
            out.deep_view() == present(hv.take(i as int)),
        decreases hs@.len() - i,
    {
        assert(hv.take(i + 1).drop_last() =~= hv.take(i as int));
        assert(hv[i as int] == crate::urls::opt_view(hs@[i as int]));
        match &hs[i] {
            Some(h) => {
                let ghost prev = out.deep_view();
                out.push(h.clone());
                assert(out.deep_view() =~= prev.push(h@));
            },
            None => {},
        }
        i = i + 1;
    }
    assert(hv.take(hs@.len() as int) =~= hv);
    out
}

/// The first title, if any.
fn first_title(ts: &Vec<String>) -> (r: Option<String>)
    ensures
        crate::urls::opt_view(r) == first_of(ts.deep_view()),
{
    if ts.len() > 0 {
        assert(ts.deep_view()[0] == ts@[0]@);
        Some(ts[0].clone())
    } else {
        None
    }
}

/// The `content` of the first description element, if there is one and it has the attribute.
fn first_description(ds: &Vec<Option<String>>) -> (r: Option<String>)
    ensures
        crate::urls::opt_view(r) == match first_of(ds@.map_values(|d: Option<String>| crate::urls::opt_view(d))) {
            Some(d) => d,
            None => None,
        },
{
    if ds.len() > 0 {
        match &ds[0] {
            Some(d) => Some(d.clone()),
            None => None,
        }
    } else {
        None
    }
}

/// The crawlable link that `href` on a page at `base` points to: the joined
/// URL without fragment, when its scheme is `http` or `https`.
pub open spec fn link_of(base: Seq<char>, href: Seq<char>) -> Option<UrlView> {
    match url_join_spec(base, href) {
        Some(u) => if u.scheme == "http"@ || u.scheme == "https"@ { Some(u) } else { None },
        None => None,
    }
}

/// The crawlable links among `hrefs`, in order (none when `base` does not parse).
pub open spec fn links_of(base: Seq<char>, hrefs: Seq<Seq<char>>) -> Seq<UrlView>
    decreases hrefs.len(),
{
    if hrefs.len() == 0 || url_parse_spec(base) is None {
        Seq::empty()
    } else {
        let rest = links_of(base, hrefs.drop_last());
        match link_of(base, hrefs.last()) {
            Some(u) => rest.push(u),
            None => rest,
        }
    }
}

/// The serialisations of `links`.
pub open spec fn link_strings(links: Seq<UrlView>) -> Seq<Seq<char>> {
    links.map_values(|u: UrlView| u.without_fragment)
}

/// A trimmed value, or nothing when it is blank.
pub open spec fn non_blank(s: Option<Seq<char>>) -> Option<Seq<char>> {
    match s {
        Some(v) => if trim(v).len() > 0 { Some(trim(v)) } else { None },
        None => None,
    }
}

fn non_blank_exec(s: Option<String>) -> (r: Option<String>)
    ensures
        crate::urls::opt_view(r) == non_blank(crate::urls::opt_view(s)),
{
    match s {
        Some(v) => {
            let cs = chars_of(v.as_str());
            let t = trim_chars(cs.as_slice());
            if t.len() > 0 {
                Some(string_from_chars(t.as_slice()))
            } else {
                None
            }
        },
        None => None,
    }
}

fn is_web_scheme(s: &String) -> (r: bool)
    ensures
        r == (s@ == "http"@ || s@ == "https"@),
{
    let c = chars_of(s.as_str());
    same_chars(c.as_slice(), chars_of("http").as_slice()) || same_chars(c.as_slice(), chars_of("https").as_slice())
}

fn crawlable_links(base_url_str: &str, hrefs: &Vec<String>) -> (r: Vec<crate::urls::UrlParts>)
    ensures
        r@.map_values(|u: crate::urls::UrlParts| u@) == links_of(base_url_str@, hrefs.deep_view()),
{
    let ghost hv = hrefs.deep_view();
    let mut out: Vec<crate::urls::UrlParts> = Vec::new();
    if parse_url(base_url_str).is_none() {
        assert(out@.map_values(|u: crate::urls::UrlParts| u@) =~= links_of(base_url_str@, hv));
        return out;
    }
    let mut i: usize = 0;
    assert(out@.map_values(|u: crate::urls::UrlParts| u@) =~= links_of(base_url_str@, hv.take(0)));
    while i < hrefs.len()
        invariant
            i <= hv.len(),
            hv == hrefs.deep_view(),
            url_parse_spec(base_url_str@) is Some,
            out@.map_values(|u: crate::urls::UrlParts| u@) == links_of(base_url_str@, hv.take(i as int)),
        decreases hv.len() - i,
    {
        assert(hv.take(i + 1).drop_last() =~= hv.take(i as int));
        assert(hv[i as int] == hrefs@[i as int]@);
        let ghost prev = out@.map_values(|u: crate::urls::UrlParts| u@);
        match join_url(base_url_str, hrefs[i].as_str()) {
            Some(u) => {
                if is_web_scheme(&u.scheme) {
                    let ghost uv = u@;
                    out.push(u);
                    assert(out@.map_values(|u: crate::urls::UrlParts| u@) =~= prev.push(uv));
                }
            },
            None => {},
        }
        i = i + 1;
    }
    assert(hv.take(hv.len() as int) =~= hv);
    out
}

/// What `extract_content` returns: links, text, title, description.
pub struct PageContent {
    pub links: Seq<Seq<char>>,
    pub text: Seq<char>,
    pub title: Option<Seq<char>>,
    pub description: Option<Seq<char>>,
}

pub open spec fn page_content(html: Seq<char>, base: Seq<char>) -> PageContent {
    let sc = scrape_spec(html);
    PageContent {
        links: link_strings(links_of(base, present(sc.hrefs))),
        text: join(sc.text_nodes, " "@),
        title: non_blank(first_of(sc.titles)),
        description: non_blank(match first_of(sc.descriptions) {
            Some(d) => d,
            None => None,
        }),
    }
}

/// Reads a page at `base_url_str`: its crawlable links (joined, without
/// fragment, `http`/`https` only), its text nodes joined by spaces, and its
/// trimmed title and description when they are not blank.
pub fn extract_content(html: &str, base_url_str: &str) -> (r: (Vec<String>, String, Option<String>, Option<String>))
    ensures
        r.0.deep_view() == page_content(html@, base_url_str@).links,
        r.1@ == page_content(html@, base_url_str@).text,
        crate::urls::opt_view(r.2) == page_content(html@, base_url_str@).title,
        crate::urls::opt_view(r.3) == page_content(html@, base_url_str@).description,
{
    let sc = scrape_html(html);
    let hrefs = present_hrefs(&sc.hrefs);
    let parts = crawlable_links(base_url_str, &hrefs);
    let ghost pv = parts@.map_values(|u: crate::urls::UrlParts| u@);
    let mut links: Vec<String> = Vec::new();
    let mut i: usize = 0;
    while i < parts.len()
        invariant
            i <= parts@.len(),
            pv == parts@.map_values(|u: crate::urls::UrlParts| u@),
            links.deep_view() == link_strings(pv.take(i as int)),
        decreases parts@.len() - i,
    {
        let ghost prev = links.deep_view();
        let w = parts[i].without_fragment.clone();
        assert(w@ == pv[i as int].without_fragment);
        links.push(w);
        assert(links.deep_view() =~= prev.push(pv[i as int].without_fragment));
        assert(pv.take(i + 1) =~= pv.take(i as int).push(pv[i as int]));
        assert(link_strings(pv.take(i + 1)) =~= link_strings(pv.take(i as int)).push(pv[i as int].without_fragment));
        i = i + 1;
    }
    assert(pv.take(parts@.len() as int) =~= pv);
    let text = join_strings(&sc.text_nodes, " ");
    (links, text, non_blank_exec(first_title(&sc.titles)), non_blank_exec(first_description(&sc.descriptions)))
}

/// The host that a link is routed by (`unknown` when it has none).
pub open spec fn link_host(u: UrlView) -> Seq<char> {
    match u.host {
        Some(h) => h,
        None => "unknown"@,
    }
}

/// The links of `links` whose host belongs to shard `k`, in order.
pub open spec fn links_for_shard(links: Seq<UrlView>, num_shards: nat, k: int) -> Seq<Seq<char>> {
    link_strings(links.filter(|u: UrlView| shard_of(link_host(u), num_shards) == k))
}

/// Reads a page's crawlable links grouped by the shard of their host (one
/// list per shard) and its text nodes joined by spaces.
pub fn extract_links_and_text(html: &str, base_url_str: &str, num_shards: usize) -> (r: (Vec<Vec<String>>, String))
    requires
        num_shards > 0,
    ensures
        r.0@.len() == num_shards,
        forall|k: int| 0 <= k < num_shards ==> #[trigger] r.0@[k].deep_view()
            == links_for_shard(links_of(base_url_str@, present(scrape_spec(html@).hrefs)), num_shards as nat, k),
        r.1@ == join(scrape_spec(html@).text_nodes, " "@),
{
    let sc = scrape_html(html);
    let hrefs = present_hrefs(&sc.hrefs);
    let parts = crawlable_links(base_url_str, &hrefs);
    let ghost pv = parts@.map_values(|u: crate::urls::UrlParts| u@);
    let mut routed: Vec<Vec<String>> = Vec::new();
    let mut k: usize = 0;
    while k < num_shards
        invariant
            k <= num_shards,
            routed@.len() == k,
            forall|m: int| 0 <= m < k ==> #[trigger] routed@[m].deep_view() == Seq::<Seq<char>>::empty(),
        decreases num_shards - k,
    {
        let ghost prev = routed@;
        routed.push(Vec::new());
        assert(routed@[k as int].deep_view() =~= Seq::<Seq<char>>::empty());
        assert forall|m: int| 0 <= m < k + 1 implies #[trigger] routed@[m].deep_view() == Seq::<Seq<char>>::empty() by {
            if m < k {
                assert(routed@[m] == prev[m]);
            }
        }
        k = k + 1;
    }
    let mut i: usize = 0;
    while i < parts.len()
        invariant
            i <= parts@.len(),
            num_shards > 0,
            pv == parts@.map_values(|u: crate::urls::UrlParts| u@),
            routed@.len() == num_shards,
            forall|m: int| 0 <= m < num_shards ==> #[trigger] routed@[m].deep_view() == links_for_shard(pv.take(i as int), num_shards as nat, m),
        decreases parts@.len() - i,
    {
        let ghost prev = routed@;
        let ghost uv = pv[i as int];
        assert(pv.take(i + 1).drop_last() =~= pv.take(i as int));
        let host = match &parts[i].host {
            Some(h) => h.clone(),
            None => String::from_str("unknown"),
        };
        assert(host@ == link_host(uv));
        let s = get_shard_index(host.as_str(), num_shards);
        let mut b = routed.remove(s);
        let ghost bprev = b.deep_view();
        b.push(parts[i].without_fragment.clone());
        assert(b.deep_view() =~= bprev.push(uv.without_fragment));
        routed.insert(s, b);
        assert forall|m: int| 0 <= m < num_shards implies #[trigger] routed@[m].deep_view() == links_for_shard(pv.take(i + 1), num_shards as nat, m) by {
            reveal_with_fuel(Seq::filter, 1);
            let f = |u: UrlView| shard_of(link_host(u), num_shards as nat) == m;
            assert(pv.take(i + 1).filter(f) == if f(uv) { pv.take(i as int).filter(f).push(uv) } else { pv.take(i as int).filter(f) });
            if m != s {
                assert(routed@[m] == prev[m]);
            } else {
                assert(link_strings(pv.take(i as int).filter(f).push(uv)) =~= link_strings(pv.take(i as int).filter(f)).push(uv.without_fragment));
            }
        }
        i = i + 1;
    }
    assert(pv.take(parts@.len() as int) =~= pv);
    (routed, join_strings(&sc.text_nodes, " "))
}

} // verus!

verus! {

/// The events of an XML document that the crawler reads.
pub enum XmlToken {
    /// A start tag, by name.
    Start(String),
    Text(String),
    CData(String),
    End,
    Other,
}

pub enum XmlTokenView {
    Start(Seq<char>),
    Text(Seq<char>),
    CData(Seq<char>),
    End,
    Other,
}

impl View for XmlToken {
    type V = XmlTokenView;

    open spec fn view(&self) -> XmlTokenView {
        match self {
            XmlToken::Start(s) => XmlTokenView::Start(s@),
            XmlToken::Text(s) => XmlTokenView::Text(s@),
            XmlToken::CData(s) => XmlTokenView::CData(s@),
            XmlToken::End => XmlTokenView::End,
            XmlToken::Other => XmlTokenView::Other,
        }
    }
}

#[verifier::external_type_specification]
#[verifier::external_body]
#[verifier::reject_recursive_types(R)]
pub struct ExXmlReader<R>(quick_xml::Reader<R>);

/// The events `quick_xml` reads from `xml`, text trimmed, up to the end of the
/// document or the first error.
pub uninterp spec fn xml_tokens_spec(xml: Seq<char>) -> Seq<XmlTokenView>;

/// The events that a `quick_xml` reader over a string will still yield, up to
/// the end of the document or the first error.
pub uninterp spec fn xml_pending(reader: quick_xml::Reader<&[u8]>) -> Seq<XmlTokenView>;

/// Calls `quick_xml::Reader::from_str` on `xml` and sets `trim_text(true)`;
/// the events the reader will yield are the events of `xml`.
#[verifier::external_body]
fn xml_reader(xml: &str) -> (r: quick_xml::Reader<&[u8]>)
    ensures
        xml_pending(r) == xml_tokens_spec(xml@),
{
    let mut reader = quick_xml::Reader::from_str(xml);
    reader.config_mut().trim_text(true);
    reader
}

/// Calls `quick_xml::Reader::read_event` and converts the event, with the tag
/// name or text as the reader gives it; the end of the document and an error
/// both give `None`. The event is the next one the reader had to yield.
#[verifier::external_body]
fn next_xml_token(reader: &mut quick_xml::Reader<&[u8]>) -> (r: Option<XmlToken>)
    ensures
        match r {
            None => xml_pending(*old(reader)).len() == 0,
            Some(t) => xml_pending(*old(reader)).len() > 0 && t@ == xml_pending(*old(reader))[0]
                && xml_pending(*final(reader)) == xml_pending(*old(reader)).drop_first(),
        },
{
    match reader.read_event() {
        Ok(E::Start(e)) => Some(XmlToken::Start(e.name().0.to_string())),
        Ok(E::Text(e)) => Some(XmlToken::Text((*e).to_string())),
        Ok(E::CData(e)) => Some(XmlToken::CData((*e).to_string())),
        Ok(E::End(_)) => Some(XmlToken::End),
        Ok(E::Eof) | Err(_) => None,
        Ok(_) => Some(XmlToken::Other),
    }
}

/// Reading state over XML events: texts, title, description, current tag.
pub struct XmlScan {
    pub texts: Seq<Seq<char>>,
    pub title: Option<Seq<char>>,
    pub description: Option<Seq<char>>,
    pub tag: Seq<char>,
}

pub open spec fn xml_text(st: XmlScan, raw: Seq<char>) -> XmlScan {
    let t = trim(raw);
    if t.len() == 0 {
        st
    } else if st.tag == "title"@ && st.title is None {
        XmlScan { texts: st.texts.push(t), title: Some(t), ..st }
    } else if (st.tag == "description"@ || st.tag == "summary"@) && st.description is None {
        XmlScan { texts: st.texts.push(t), description: Some(t), ..st }
    } else {
        XmlScan { texts: st.texts.push(t), ..st }
    }
}

pub open spec fn xml_step(st: XmlScan, tok: XmlTokenView) -> XmlScan {
    match tok {
        XmlTokenView::Start(n) => XmlScan { tag: lowercase_spec(n), ..st },
        XmlTokenView::Text(t) => xml_text(st, t),
        XmlTokenView::CData(t) => xml_text(st, t),
        XmlTokenView::End => XmlScan { tag: Seq::empty(), ..st },
        XmlTokenView::Other => st,
    }
}

pub open spec fn xml_scan(toks: Seq<XmlTokenView>) -> XmlScan
    decreases toks.len(),
{
    if toks.len() == 0 {
        XmlScan { texts: Seq::empty(), title: None, description: None, tag: Seq::empty() }
    } else {
        xml_step(xml_scan(toks.drop_last()), toks.last())
    }
}

struct XmlReaderState {
    texts: Vec<String>,
    title: Option<String>,
    description: Option<String>,
    tag: Vec<char>,
}

impl View for XmlReaderState {
    type V = XmlScan;

    closed spec fn view(&self) -> XmlScan {
        XmlScan {
            texts: self.texts.deep_view(),
            title: crate::urls::opt_view(self.title),
            description: crate::urls::opt_view(self.description),
            tag: self.tag@,
        }
    }
}

impl XmlReaderState {
    fn text(&mut self, raw: &String)
        ensures
            final(self)@ == xml_text(old(self)@, raw@),
    {
        let cs = chars_of(raw.as_str());
        let t = trim_chars(cs.as_slice());
        if t.len() == 0 {
            return;
        }
        let ts = string_from_chars(t.as_slice());
        let ghost prev = self.texts.deep_view();
        self.texts.push(ts.clone());
        assert(self.texts.deep_view() =~= prev.push(t@));
        if same_chars(self.tag.as_slice(), chars_of("title").as_slice()) && self.title.is_none() {
            self.title = Some(ts);
        } else if (same_chars(self.tag.as_slice(), chars_of("description").as_slice()) || same_chars(
            self.tag.as_slice(),
            chars_of("summary").as_slice(),
        )) && self.description.is_none() {
            self.description = Some(ts);
        }
    }
}

/// Reads an XML document: every non-blank text or CDATA section (trimmed),
/// joined by spaces; the first such text inside a `title` element as title;
/// the first inside `description` or `summary` as description. Tag names are
/// compared in lower case.
pub fn extract_xml(xml: &str) -> (r: (String, Option<String>, Option<String>))
    ensures
        ({
            let st = xml_scan(xml_tokens_spec(xml@));
            &&& r.0@ == join(st.texts, " "@)
            &&& crate::urls::opt_view(r.1) == st.title
            &&& crate::urls::opt_view(r.2) == st.description
        }),
{
    let mut reader = xml_reader(xml);
    let ghost all = xml_tokens_spec(xml@);
    let ghost mut done: Seq<XmlTokenView> = Seq::empty();
    let mut st = XmlReaderState { texts: Vec::new(), title: None, description: None, tag: Vec::new() };
    assert(st.texts.deep_view() =~= Seq::<Seq<char>>::empty());
    assert(st.tag@ =~= Seq::<char>::empty());
    assert(done + xml_pending(reader) =~= all);
    loop
        invariant_except_break
            done + xml_pending(reader) == all,
        invariant
            st@ == xml_scan(done),
        ensures
            st@ == xml_scan(all),
        decreases xml_pending(reader).len(),
    {
        let ghost before = xml_pending(reader);
        let tok = match next_xml_token(&mut reader) {
            Some(t) => t,
            None => {
                assert(done =~= all);
                break;
            },
        };
        match &tok {
            XmlToken::Start(n) => {
                let low = to_lowercase(n.as_str());
                st.tag = chars_of(low.as_str());
            },
            XmlToken::Text(t) => {
                st.text(t);
            },
            XmlToken::CData(t) => {
                st.text(t);
            },
            XmlToken::End => {
                st.tag = Vec::new();
                assert(st.tag@ =~= Seq::<char>::empty());
            },
            XmlToken::Other => {},
        }
        proof {
            let prev = done;
            done = done.push(tok@);
            assert(done.drop_last() =~= prev);
            assert(done + xml_pending(reader) =~= prev + before);
        }
    }
    (join_strings(&st.texts, " "), st.title, st.description)
}

} // verus!

verus! {

/// What std's `String::from_utf8_lossy` decodes from `bytes`.
pub uninterp spec fn utf8_lossy_spec(bytes: Seq<u8>) -> Seq<char>;

/// Calls std's `String::from_utf8_lossy`; the contract claims only that the
/// text is a function of `bytes`.
#[verifier::external_body]
fn utf8_lossy(bytes: &[u8]) -> (r: String)
    ensures
        r@ == utf8_lossy_spec(bytes@),
{
    String::from_utf8_lossy(bytes).into_owned()
}

/// A decoded metadata string, trimmed, or nothing when it is absent or blank.
pub open spec fn pdf_field(raw: Option<Seq<u8>>) -> Option<Seq<char>> {
    match raw {
        Some(b) => non_blank(Some(utf8_lossy_spec(b))),
        None => None,
    }
}

/// `-` and `_` read as spaces.
pub open spec fn dashes_to_spaces(s: Seq<char>) -> Seq<char> {
    s.map_values(|c: char| if c == '-' || c == '_' { ' ' } else { c })
}

/// A title made from the last path segment of `url` (for an absolute path):
/// `.pdf` removed and `-`, `_` read as spaces, when that leaves something.
pub open spec fn title_from_url(url: Seq<char>) -> Option<Seq<char>> {
    match url_parse_spec(url) {
        Some(u) => if u.path.len() > 0 && u.path[0] == '/' {
            let t = dashes_to_spaces(crate::text::replace_all(crate::text::after_last(u.path, '/'), ".pdf"@, Seq::empty()));
            if trim(t).len() > 0 { Some(t) } else { None }
        } else {
            None
        },
        None => None,
    }
}

fn field_of(raw: Option<Vec<u8>>) -> (r: Option<String>)
    ensures
        crate::urls::opt_view(r) == pdf_field(match raw { Some(v) => Some(v@), None => None }),
{
    match raw {
        Some(b) => non_blank_exec(Some(utf8_lossy(b.as_slice()))),
        None => None,
    }
}

fn fallback_title(url_str: &str) -> (r: Option<String>)
    ensures
        crate::urls::opt_view(r) == title_from_url(url_str@),
{
    let u = match parse_url(url_str) {
        Some(u) => u,
        None => return None,
    };
    let p = chars_of(u.path.as_str());
    if p.len() == 0 || p[0] != '/' {
        return None;
    }
    let last = crate::text::suffix_after_last(p.as_slice(), '/');
    let ext = chars_of(".pdf");
    proof {
        reveal_strlit(".pdf");
    }
    let empty: Vec<char> = Vec::new();
    let stem = crate::text::replace_text(last.as_slice(), ext.as_slice(), empty.as_slice());
    assert(empty@ =~= Seq::<char>::empty());
    let mut t: Vec<char> = Vec::new();
    let mut i: usize = 0;
    while i < stem.len()
        invariant
            i <= stem@.len(),
            t@ == dashes_to_spaces(stem@.take(i as int)),
        decreases stem@.len() - i,
    {
        let c = stem[i];
        t.push(if c == '-' || c == '_' { ' ' } else { c });
        assert(dashes_to_spaces(stem@.take(i + 1)) =~= dashes_to_spaces(stem@.take(i as int)).push(if c == '-' || c == '_' { ' ' } else { c }));
        i = i + 1;
    }
    assert(stem@.take(stem@.len() as int) =~= stem@);
    let tt = trim_chars(t.as_slice());
    if tt.len() > 0 {
        Some(string_from_chars(t.as_slice()))
    } else {
        None
    }
}

pub open spec fn opt_bytes(v: Option<Vec<u8>>) -> Option<Seq<u8>> {
    match v {
        Some(b) => Some(b@),
        None => None,
    }
}

/// Title and description of a PDF document fetched from `url_str`, given the
/// `Title` and `Subject` strings (as bytes) of the document's `Info`
/// dictionary, where it has them: those decoded and trimmed, when not blank,
/// and for a missing title one made from the file name in the URL.
pub fn extract_pdf_metadata(title: Option<Vec<u8>>, subject: Option<Vec<u8>>, url_str: &str) -> (r: (Option<String>, Option<String>))
    ensures
        crate::urls::opt_view(r.0) == match pdf_field(opt_bytes(title)) {
            Some(t) => Some(t),
            None => title_from_url(url_str@),
        },
        crate::urls::opt_view(r.1) == pdf_field(opt_bytes(subject)),
{
    let (t, s) = (title, subject);
    let title = field_of(t);
    let description = field_of(s);
    let title = match title {
        Some(x) => Some(x),
        None => fallback_title(url_str),
    };
    (title, description)
}

} // verus!

verus! {

/// The URL joined from `href` on a page at `base` is a web (`http` or `https`) URL.
pub open spec fn web_join(base: Seq<char>, href: Seq<char>, u: UrlView) -> bool {
    url_join_spec(base, href) == Some(u) && (u.scheme == "http"@ || u.scheme == "https"@)
}

proof fn lemma_present_contains(hs: Seq<Option<Seq<char>>>, i: int, h: Seq<char>)
    requires
        0 <= i < hs.len(),
        hs[i] == Some(h),
    ensures
        present(hs).contains(h),
    decreases hs.len(),
{
    if i == hs.len() - 1 {
        assert(present(hs) == present(hs.drop_last()).push(h));
        assert(present(hs)[present(hs).len() - 1] == h);
    } else {
        lemma_present_contains(hs.drop_last(), i, h);
        let p = present(hs.drop_last());
        let k = choose|k: int| 0 <= k < p.len() && p[k] == h;
        match hs.last() {
            Some(x) => assert(present(hs)[k] == h),
            None => {},
        }
    }
}

proof fn lemma_links_complete(base: Seq<char>, hrefs: Seq<Seq<char>>, h: Seq<char>, u: UrlView)
    requires
        url_parse_spec(base) is Some,
        hrefs.contains(h),
        web_join(base, h, u),
    ensures
        links_of(base, hrefs).contains(u),
    decreases hrefs.len(),
{
    let rest = links_of(base, hrefs.drop_last());
    if hrefs.last() == h {
        assert(link_of(base, h) == Some(u));
        assert(links_of(base, hrefs) == rest.push(u));
        assert(links_of(base, hrefs)[rest.len() as int] == u);
    } else {
        let k = choose|k: int| 0 <= k < hrefs.len() && hrefs[k] == h;
        assert(hrefs.drop_last()[k] == h);
        lemma_links_complete(base, hrefs.drop_last(), h, u);
        let j = choose|j: int| 0 <= j < rest.len() && rest[j] == u;
        match link_of(base, hrefs.last()) {
            Some(v) => assert(links_of(base, hrefs)[j] == u),
            None => assert(links_of(base, hrefs)[j] == u),
        }
    }
}

proof fn lemma_links_sound(base: Seq<char>, hrefs: Seq<Seq<char>>, k: int)
    requires
        0 <= k < links_of(base, hrefs).len(),
    ensures
        exists|j: int| 0 <= j < hrefs.len() && web_join(base, hrefs[j], #[trigger] links_of(base, hrefs)[k]),
    decreases hrefs.len(),
{
    let rest = links_of(base, hrefs.drop_last());
    let l = links_of(base, hrefs);
    if k < rest.len() {
        lemma_links_sound(base, hrefs.drop_last(), k);
        let j = choose|j: int| 0 <= j < hrefs.drop_last().len() && web_join(base, hrefs.drop_last()[j], rest[k]);
        assert(l[k] == rest[k]);
        assert(hrefs[j] == hrefs.drop_last()[j]);
    } else {
        let j = hrefs.len() - 1;
        assert(l[k] == link_of(base, hrefs.last())->0);
        assert(web_join(base, hrefs[j], l[k]));
    }
}

/// The links a page yields are exactly its web links: every present `href`
/// whose join with the page's URL is an `http` or `https` URL appears, without
/// fragment, and every link is such a join of some `href`.
pub proof fn law_links_are_the_web_joins(base: Seq<char>, hs: Seq<Option<Seq<char>>>)
    requires
        url_parse_spec(base) is Some,
    ensures
        forall|i: int, h: Seq<char>, u: UrlView|
            0 <= i < hs.len() && #[trigger] hs[i] == Some(h) && #[trigger] web_join(base, h, u) ==> link_strings(
                links_of(base, present(hs)),
            ).contains(u.without_fragment),
        forall|k: int|
            0 <= k < links_of(base, present(hs)).len() ==> exists|j: int|
                0 <= j < present(hs).len() && web_join(base, present(hs)[j], #[trigger] links_of(base, present(hs))[k]),
{
    let ls = links_of(base, present(hs));
    assert forall|i: int, h: Seq<char>, u: UrlView|
        0 <= i < hs.len() && #[trigger] hs[i] == Some(h) && #[trigger] web_join(base, h, u) implies link_strings(
            ls,
        ).contains(u.without_fragment) by {
        lemma_present_contains(hs, i, h);
        lemma_links_complete(base, present(hs), h, u);
        let j = choose|j: int| 0 <= j < ls.len() && ls[j] == u;
        assert(link_strings(ls)[j] == u.without_fragment);
    }
    assert forall|k: int| 0 <= k < ls.len() implies exists|j: int|
        0 <= j < present(hs).len() && web_join(base, present(hs)[j], #[trigger] ls[k]) by {
        lemma_links_sound(base, present(hs), k);
    }
}

} // verus!
