//! The parts of a web address that ranking reads.

use vstd::prelude::*;

use crate::text::{pieces, texts, Separator};

verus! {

/// The host and the path of a web address.
#[derive(Debug, Eq, PartialEq)]
pub struct UrlParts {
    /// The host, for an address that has one.
    pub host: Option<String>,
    /// The segments of the path, for an address whose path starts with a slash.
    pub segments: Option<Vec<String>>,
}

/// The text of the parts of a web address.
pub struct UrlPartsView {
    pub host: Option<Seq<char>>,
    pub segments: Option<Seq<Seq<char>>>,
}

impl View for UrlParts {
    type V = UrlPartsView;

    open spec fn view(&self) -> UrlPartsView {
        UrlPartsView {
            host: match self.host {
                Some(host) => Some(host@),
                None => None,
            },
            segments: match self.segments {
                Some(segments) => Some(texts(segments@)),
                None => None,
            },
        }
    }
}

impl UrlPartsView {
    /// The host, where an absent one counts as empty.
    pub open spec fn host_or_empty(self) -> Seq<char> {
        match self.host {
            Some(host) => host,
            None => Seq::empty(),
        }
    }

    /// The path segments, where an absent path counts as one without segments.
    pub open spec fn segments_or_empty(self) -> Seq<Seq<char>> {
        match self.segments {
            Some(segments) => segments,
            None => Seq::empty(),
        }
    }
}

/// The text of optional parts.
pub open spec fn parts_text(parts: Option<UrlParts>) -> Option<UrlPartsView> {
    match parts {
        Some(parts) => Some(parts@),
        None => None,
    }
}

/// What `url::Url::parse` makes of a text: the host of the address, as
/// `url::Url::host_str` gives it, and its path, as `url::Url::path` gives it, or
/// nothing for a text that is no absolute address.
pub uninterp spec fn parsed_url(raw: Seq<char>) -> Option<(Option<Seq<char>>, Seq<char>)>;

/// The segments of a path: what stands between its slashes, after the one that
/// it starts with.
pub open spec fn path_segments_of(path: Seq<char>) -> Option<Seq<Seq<char>>> {
    if path.len() > 0 && path[0] == '/' {
        Some(pieces(path.drop_first(), Separator::Char('/')))
    } else {
        None
    }
}

/// The parts of an address with the given host and path.
pub open spec fn parts_of(parsed: Option<(Option<Seq<char>>, Seq<char>)>) -> Option<UrlPartsView> {
    match parsed {
        Some((host, path)) => Some(UrlPartsView { host, segments: path_segments_of(path) }),
        None => None,
    }
}

/// The parts of the address that a text writes.
pub open spec fn url_parts_of(raw: Seq<char>) -> Option<UrlPartsView> {
    parts_of(parsed_url(raw))
}

/// Reads a web address by `url::Url::parse`, `url::Url::host_str` and
/// `url::Url::path_segments`.
///
/// Whether the text parses, and which host and path it has, is what
/// [`parsed_url`] names: a function of the text alone.  The segments are the
/// pieces between the slashes of that path, after its first slash, and absent
/// where it does not start with one.
#[verifier::external_body]
pub(crate) fn parse_url(raw: &str) -> (res: Option<UrlParts>)
    ensures
        parts_text(res) == parts_of(parsed_url(raw@)),
{
    match url::Url::parse(raw) {
        Ok(parsed) => Some(
            UrlParts {
                host: parsed.host_str().map(str::to_owned),
                segments: parsed.path_segments().map(|all| all.map(str::to_owned).collect()),
            },
        ),
        Err(_) => None,
    }
}

}
