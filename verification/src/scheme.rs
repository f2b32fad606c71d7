//! The two schemes of HTTP.

use crate::text::str_eq;
use vstd::prelude::*;

verus! {

/// Schemes for HTTP requests.
#[derive(Copy, Clone, PartialEq, Eq, Structural, Debug, Hash)]
pub enum HttpScheme {
    /// Plaintext http.
    Http,
    /// Secure http.
    Https,
}

/// The spelling of a scheme.
pub open spec fn scheme_token(scheme: HttpScheme) -> Seq<char> {
    match scheme {
        HttpScheme::Http => seq!['h', 't', 't', 'p'],
        HttpScheme::Https => seq!['h', 't', 't', 'p', 's'],
    }
}

/// The scheme that a token spells, if any. The match is exact and case-sensitive.
pub open spec fn parse_scheme(token: Seq<char>) -> Option<HttpScheme> {
    if token == scheme_token(HttpScheme::Http) {
        Some(HttpScheme::Http)
    } else if token == scheme_token(HttpScheme::Https) {
        Some(HttpScheme::Https)
    } else {
        None
    }
}

impl HttpScheme {
    /// Reads a scheme from its spelling. Anything but `"http"` and `"https"`,
    /// letter for letter, is refused.
    pub fn parse(token: &str) -> (r: Result<HttpScheme, ()>)
        ensures
            r == match parse_scheme(token@) {
                Some(scheme) => Ok::<HttpScheme, ()>(scheme),
                None => Err::<HttpScheme, ()>(()),
            },
    {
        proof {
            reveal_strlit("http");
            reveal_strlit("https");
            assert("http"@ =~= scheme_token(HttpScheme::Http));
            assert("https"@ =~= scheme_token(HttpScheme::Https));
        }
        if str_eq(token, "http") {
            Ok(HttpScheme::Http)
        } else if str_eq(token, "https") {
            Ok(HttpScheme::Https)
        } else {
            Err(())
        }
    }

    /// The spelling of the scheme: `"http"` or `"https"`.
    pub fn as_str(&self) -> (token: &'static str)
        ensures
            token@ == scheme_token(*self),
    {
        proof {
            reveal_strlit("http");
            reveal_strlit("https");
        }
        match self {
            HttpScheme::Http => {
                "http"
            },
            HttpScheme::Https => {
                "https"
            },
        }
    }
}

impl std::str::FromStr for HttpScheme {
    type Err = ();

    /// Reads a scheme as [`HttpScheme::parse`] does.
    fn from_str(s: &str) -> (r: Result<HttpScheme, ()>)
        ensures
            r == match parse_scheme(s@) {
                Some(scheme) => Ok::<HttpScheme, ()>(scheme),
                None => Err::<HttpScheme, ()>(()),
            },
    {
        HttpScheme::parse(s)
    }
}

/// Reading the spelling of a scheme gives the scheme back.
pub proof fn lemma_scheme_parse_token(scheme: HttpScheme)
    ensures
        parse_scheme(scheme_token(scheme)) == Some(scheme),
{
    assert(scheme_token(HttpScheme::Http).len() != scheme_token(HttpScheme::Https).len());
}

/// A token is read as a scheme exactly if it is that scheme's spelling: so no
/// two tokens are read as the same scheme, and only the two spellings are read
/// at all.
pub proof fn lemma_scheme_token_parse(token: Seq<char>, scheme: HttpScheme)
    ensures
        parse_scheme(token) == Some(scheme) <==> token == scheme_token(scheme),
{
    lemma_scheme_parse_token(scheme);
}

} // verus!
