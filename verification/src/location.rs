//! URLs: what the library knows of the `url` crate.

use crate::path::texts;
use vstd::prelude::*;

verus! {

/// A URL taken apart.
#[derive(Debug, Eq, PartialEq)]
pub struct UrlParts {
    /// The URL as it is written after normalisation.
    pub text: String,
    pub scheme: String,
    pub path: String,
    pub host: Option<String>,
    /// The port, or the usual port of the scheme.
    pub port: Option<u16>,
    /// The decoded pairs of the query.
    pub pairs: Vec<(String, String)>,
}

/// A URL taken apart, by its values.
pub struct UrlModel {
    pub text: Seq<char>,
    pub scheme: Seq<char>,
    pub path: Seq<char>,
    pub host: Option<Seq<char>>,
    pub port: Option<u16>,
    pub pairs: Seq<(Seq<char>, Seq<char>)>,
}

pub open spec fn pairs_view(pairs: Seq<(String, String)>) -> Seq<(Seq<char>, Seq<char>)> {
    Seq::new(pairs.len(), |i: int| (pairs[i].0@, pairs[i].1@))
}

impl UrlParts {
    pub open spec fn view(&self) -> UrlModel {
        UrlModel {
            text: self.text@,
            scheme: self.scheme@,
            path: self.path@,
            host: match self.host {
                Some(host) => Some(host@),
                None => None,
            },
            port: self.port,
            pairs: pairs_view(self.pairs@),
        }
    }
}

/// What `url::Url::parse` reads from a text: the parts of the URL, or the text
/// of the error.
pub uninterp spec fn url_of(text: Seq<char>) -> Result<UrlModel, Seq<char>>;

/// `url::Url::parse`, its result handed out part by part. What it reads is a
/// function of the text alone.
#[verifier::external_body]
pub(crate) fn parse_url(text: &str) -> (result: Result<UrlParts, String>)
    ensures
        match result {
            Ok(parts) => url_of(text@) == Ok::<UrlModel, Seq<char>>(parts@),
            Err(error) => url_of(text@) == Err::<UrlModel, Seq<char>>(error@),
        },
{
    let url = url::Url::parse(text).map_err(|error| error.to_string())?;
    Ok(
        UrlParts {
            text: url.as_str().to_owned(),
            scheme: url.scheme().to_owned(),
            path: url.path().to_owned(),
            host: url.host_str().map(str::to_owned),
            port: url.port_or_known_default(),
            pairs: url.query_pairs().map(|(k, v)| (k.into_owned(), v.into_owned())).collect(),
        },
    )
}

/// How many characters texts have together.
pub open spec fn texts_size(texts: Seq<Seq<char>>) -> int
    decreases texts.len(),
{
    if texts.len() == 0 {
        0
    } else {
        texts_size(texts.drop_last()) + texts.last().len()
    }
}

/// What `url::PathSegmentsMut` makes of a URL when its last segment, if it is
/// empty, gives way to further ones. A URL without a hierarchical path has no
/// segments to extend.
pub uninterp spec fn extended_url_of(
    base: Seq<char>,
    components: Seq<Seq<char>>,
) -> Option<Seq<char>>;

/// `url::Url::path_segments_mut` with `pop_if_empty` and `extend`. It panics
/// where the result would not fit in 32 bits; every character takes at most
/// twelve bytes of the result.
#[verifier::external_body]
pub(crate) fn extend_url(base: &str, components: &Vec<String>) -> (result: Option<String>)
    requires
        base@.len() + texts_size(texts(components@)) + components@.len() <= 0x0800_0000,
    ensures
        match result {
            Some(text) => extended_url_of(base@, texts(components@)) == Some(text@),
            None => extended_url_of(base@, texts(components@)) is None,
        },
{
    let mut url = url::Url::parse(base).ok()?;
    url.path_segments_mut().ok()?.pop_if_empty().extend(components);
    Some(url.into())
}

} // verus!
