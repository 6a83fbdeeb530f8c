//! Web addresses.
use vstd::prelude::*;

verus! {

/// `url::ParseError`, carried through as it is.
#[verifier::external_type_specification]
#[verifier::external_body]
pub struct ExParseError(url::ParseError);

/// The normal form that `url::Url::parse` gives a text, if it is a URL.
pub uninterp spec fn url_text(text: Seq<char>) -> Option<Seq<char>>;

/// `url::Url::parse`, and the serialization of the result. It depends on the text alone. Which
/// texts are URLs, what their normal forms are and what the error holds is not stated.
#[verifier::external_body]
fn parse_url(text: &str) -> (r: Result<String, url::ParseError>)
    ensures
        match r {
            Ok(s) => url_text(text@) == Some(s@),
            Err(_) => url_text(text@) is None,
        },
{
    match url::Url::parse(text) {
        Ok(parsed) => Ok(String::from(parsed)),
        Err(e) => Err(e),
    }
}

/// A URL, held as the text of its normal form.
#[derive(Debug, PartialEq, Eq)]
pub struct Url {
    text: String,
}

impl View for Url {
    type V = Seq<char>;

    closed spec fn view(&self) -> Seq<char> {
        self.text@
    }
}

impl Clone for Url {
    fn clone(&self) -> (r: Self)
        ensures
            r@ == self@,
    {
        Url { text: self.text.clone() }
    }
}

impl Url {
    /// Parses a URL.
    ///
    /// # Errors
    ///
    /// The error of the URL parser if `text` is not an absolute URL.
    pub fn parse(text: &str) -> (r: Result<Url, url::ParseError>)
        ensures
            match r {
                Ok(u) => url_text(text@) == Some(u@),
                Err(_) => url_text(text@) is None,
            },
    {
        match parse_url(text) {
            Ok(text) => Ok(Url { text }),
            Err(e) => Err(e),
        }
    }

    /// The text of this URL.
    pub fn as_str(&self) -> (r: &str)
        ensures
            r@ == self@,
    {
        self.text.as_str()
    }
}

} // verus!
