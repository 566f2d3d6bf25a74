use vstd::prelude::*;

verus! {

/// Why a crawl, or the reading of its configuration, was given up.
#[derive(Debug, PartialEq, Eq)]
pub enum CrawlError {
    /// The configuration lacks the named key, or what it holds there has the wrong
    /// shape.
    Config(String),
    /// The named field has a type that the index cannot hold.
    UnsupportedFieldType(String),
    /// The content store or the index engine reported a failure, with this text; or
    /// its reply lacks what the crawl needs of it; or a reply came when none was
    /// waited for.
    HostCall(String),
    /// Metadata or a reply does not have the shape that was expected at the named place.
    MalformedMetadata(String),
}

/// The mathematical value of a [`CrawlError`].
pub enum CrawlErrorView {
    Config(Seq<char>),
    UnsupportedFieldType(Seq<char>),
    HostCall(Seq<char>),
    MalformedMetadata(Seq<char>),
}

impl View for CrawlError {
    type V = CrawlErrorView;

    open spec fn view(&self) -> CrawlErrorView {
        match self {
            CrawlError::Config(key) => CrawlErrorView::Config(key@),
            CrawlError::UnsupportedFieldType(name) => CrawlErrorView::UnsupportedFieldType(name@),
            CrawlError::HostCall(text) => CrawlErrorView::HostCall(text@),
            CrawlError::MalformedMetadata(place) => CrawlErrorView::MalformedMetadata(place@),
        }
    }
}

impl CrawlError {
    /// A line of text for the error, for a caller that reports it.
    pub fn message(&self) -> (res: String)
        ensures
            res@ == error_message(self@),
    {
        match self {
            CrawlError::Config(key) => {
                let mut out = String::from_str("configuration key missing or malformed: ");
                out.append(key.as_str());
                out
            },
            CrawlError::UnsupportedFieldType(name) => {
                let mut out = String::from_str("unsupported type for field: ");
                out.append(name.as_str());
                out
            },
            CrawlError::HostCall(text) => {
                let mut out = String::from_str("host call failed: ");
                out.append(text.as_str());
                out
            },
            CrawlError::MalformedMetadata(place) => {
                let mut out = String::from_str("malformed metadata: ");
                out.append(place.as_str());
                out
            },
        }
    }
}

/// The text of [`CrawlError::message`].
pub open spec fn error_message(e: CrawlErrorView) -> Seq<char> {
    match e {
        CrawlErrorView::Config(key) => "configuration key missing or malformed: "@ + key,
        CrawlErrorView::UnsupportedFieldType(name) => "unsupported type for field: "@ + name,
        CrawlErrorView::HostCall(text) => "host call failed: "@ + text,
        CrawlErrorView::MalformedMetadata(place) => "malformed metadata: "@ + place,
    }
}

} // verus!
