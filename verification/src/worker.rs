//! Decisions of the crawler workers about what they fetched.
use vstd::prelude::*;
use crate::content::{extract_pdf_metadata, opt_bytes, pdf_field, title_from_url};
use crate::manager::ManagerMessage;
use crate::snippet::{lowercase_spec, to_lowercase};
use crate::text::{chars_of, contains, has_infix};

verus! {

/// The plain HTTP crawler worker.
pub struct WorkerActor;

/// The crawler worker that renders pages in a headless browser.
pub struct DynamicWorkerActor;

/// How a fetched body is read.
#[derive(PartialEq, Eq, Debug, Clone, Copy)]
pub enum ContentKind {
    Pdf,
    Xml,
    Html,
}

/// How a fetch ended.
#[derive(PartialEq, Eq, Debug, Clone, Copy)]
pub enum FetchOutcome {
    /// A 2xx answer.
    Success,
    /// A 429 answer.
    RateLimited,
    Failed,
}

/// The kind of a body whose `Content-Type` header is `content_type` (HTML when absent).
pub open spec fn kind_of(content_type: Option<Seq<char>>) -> ContentKind {
    let ct = lowercase_spec(match content_type { Some(c) => c, None => "text/html"@ });
    if contains(ct, "application/pdf"@) {
        ContentKind::Pdf
    } else if contains(ct, "xml"@) {
        ContentKind::Xml
    } else {
        ContentKind::Html
    }
}

impl WorkerActor {
    /// How to read a body by its `Content-Type` (lower-cased): PDF, then any
    /// XML type, and HTML otherwise.
    pub fn classify_content_type(content_type: Option<&str>) -> (r: ContentKind)
        ensures
            r == kind_of(match content_type { Some(c) => Some(c@), None => None }),
    {
        let ct = match content_type {
            Some(c) => to_lowercase(c),
            None => to_lowercase("text/html"),
        };
        let cs = chars_of(ct.as_str());
        if has_infix(cs.as_slice(), chars_of("application/pdf").as_slice()) {
            ContentKind::Pdf
        } else if has_infix(cs.as_slice(), chars_of("xml").as_slice()) {
            ContentKind::Xml
        } else {
            ContentKind::Html
        }
    }

    /// How a fetch with HTTP status `status` ended.
    pub fn fetch_outcome(status: u16) -> (r: FetchOutcome)
        ensures
            r == if 200 <= status <= 299 {
                FetchOutcome::Success
            } else if status == 429 {
                FetchOutcome::RateLimited
            } else {
                FetchOutcome::Failed
            },
    {
        if 200 <= status && status <= 299 {
            FetchOutcome::Success
        } else if status == 429 {
            FetchOutcome::RateLimited
        } else {
            FetchOutcome::Failed
        }
    }

    /// What a worker tells its manager after fetching `url` of `domain` with
    /// HTTP status `status`: that it succeeded, that the domain answered 429,
    /// or nothing.
    pub fn fetch_report(domain: String, url: String, status: u16) -> (r: Option<ManagerMessage>)
        ensures
            200 <= status <= 299 ==> (r matches Some(ManagerMessage::CrawlSuccess(d, u)) && d@ == domain@ && u@ == url@),
            status == 429 ==> (r matches Some(ManagerMessage::DomainRateLimited(d, u)) && d@ == domain@ && u@ == url@),
            !(200 <= status <= 299) && status != 429 ==> r is None,
    {
        match Self::fetch_outcome(status) {
            FetchOutcome::Success => Some(ManagerMessage::CrawlSuccess(domain, url)),
            FetchOutcome::RateLimited => Some(ManagerMessage::DomainRateLimited(domain, url)),
            FetchOutcome::Failed => None,
        }
    }

    /// Text, title and description of a PDF fetched from `url`, given the text
    /// extracted from it (`None` when that failed) and the `Title` and
    /// `Subject` strings of its `Info` dictionary: nothing when there is no
    /// text, else the text with the metadata of `extract_pdf_metadata`.
    pub fn pdf_document(text: Option<String>, title: Option<Vec<u8>>, subject: Option<Vec<u8>>, url: &str) -> (r: Option<(String, Option<String>, Option<String>)>)
        ensures
            match text {
                None => r is None,
                Some(t) => r matches Some((text, tl, description)) && text@ == t@
                    && crate::urls::opt_view(tl) == match pdf_field(opt_bytes(title)) {
                        Some(x) => Some(x),
                        None => title_from_url(url@),
                    }
                    && crate::urls::opt_view(description) == pdf_field(opt_bytes(subject)),
            },
    {
        match text {
            Some(text) => {
                let (tl, description) = extract_pdf_metadata(title, subject, url);
                Some((text, tl, description))
            },
            None => None,
        }
    }
}

} // verus!
