//! A whole URI: scheme, authority and resource.

use crate::resource::{
    lemma_find_char, lemma_find_no_char, lemma_free_before, lemma_occurs_char,
    lemma_parse_resource_wf, lemma_resource_round_trip, parse_resource, render_resource,
    root_path, HttpResource, ResourceModel,
};
use crate::scheme::{lemma_scheme_parse_token, parse_scheme, scheme_token, HttpScheme};
use crate::text::{cut, find, find_ascii, lemma_find_first, lemma_find_some, occurs_at};
use vstd::prelude::*;
use vstd::string::*;

verus! {

/// Components in an HTTP request line URI.
#[derive(Copy, Clone, PartialEq, Eq, Debug, Hash)]
pub struct HttpUri<'a> {
    /// HTTP scheme of the request.
    pub scheme: HttpScheme,
    /// Authority for the URI's target resource.
    ///
    /// This is typically a domain name or an IP address, and may also hold a
    /// user name and a port. A parsed authority is never empty.
    pub authority: &'a str,
    /// Path and parameters for the requested target resource.
    pub resource: HttpResource<'a>,
}

/// What an [`HttpUri`] holds, as sequences of characters.
pub struct UriModel {
    pub scheme: HttpScheme,
    pub authority: Seq<char>,
    pub resource: ResourceModel,
}

/// The delimiter that closes the scheme.
pub open spec fn scheme_mark() -> Seq<char> {
    seq![':', '/', '/']
}

/// Where the authority ends in what follows the scheme delimiter: at the
/// first `/`, or at the end.
pub open spec fn authority_len(rest: Seq<char>) -> int {
    match find(rest, root_path()) {
        Some(j) => j,
        None => rest.len() as int,
    }
}

/// The URI that `s` is read as, where it is one.
pub open spec fn parse_uri(s: Seq<char>) -> Option<UriModel> {
    match find(s, scheme_mark()) {
        None => None,
        Some(i) => match parse_scheme(s.subrange(0, i)) {
            None => None,
            Some(scheme) => {
                let rest = s.subrange(i + 3, s.len() as int);
                let authority = rest.subrange(0, authority_len(rest));
                if authority.len() == 0 {
                    None
                } else {
                    Some(
                        UriModel {
                            scheme,
                            authority,
                            resource: parse_resource(
                                rest.subrange(authority_len(rest), rest.len() as int),
                            ),
                        },
                    )
                }
            },
        },
    }
}

/// The string that a URI is written as.
pub open spec fn render_uri(u: UriModel) -> Seq<char> {
    scheme_token(u.scheme) + scheme_mark() + u.authority + render_resource(u.resource)
}

impl UriModel {
    /// What holds of every parsed URI: the authority is not empty and holds
    /// no `/`; the resource is well-formed and its path begins with `/`.
    pub open spec fn wf(self) -> bool {
        &&& self.authority.len() > 0
        &&& !self.authority.contains('/')
        &&& self.resource.wf()
        &&& self.resource.path[0] == '/'
    }
}

impl<'a> View for HttpUri<'a> {
    type V = UriModel;

    open spec fn view(&self) -> UriModel {
        UriModel { scheme: self.scheme, authority: self.authority@, resource: self.resource@ }
    }
}

/// Every parsed URI is well-formed.
pub proof fn lemma_parse_uri_wf(s: Seq<char>)
    requires
        parse_uri(s) is Some,
    ensures
        parse_uri(s)->0.wf(),
{
    let i: int = find(s, scheme_mark())->0;
    lemma_find_some(s, scheme_mark());
    let rest = s.subrange(i + 3, s.len() as int);
    if find(rest, root_path()) is Some {
        lemma_find_some(rest, root_path());
    }
    let a: int = authority_len(rest);
    let tail = rest.subrange(a, rest.len() as int);
    lemma_free_before(rest, '/', 0, a);
    lemma_parse_resource_wf(tail);
    if find(rest, root_path()) is Some {
        lemma_occurs_char(rest, '/', a);
        let q = find(tail, seq!['?']);
        let f = find(tail, seq!['#']);
        if q is Some {
            lemma_find_some(tail, seq!['?']);
            lemma_occurs_char(tail, '?', q->0);
        }
        if f is Some {
            lemma_find_some(tail, seq!['#']);
            lemma_occurs_char(tail, '#', f->0);
        }
    }
}

/// In a string that begins with a scheme's spelling and the scheme
/// delimiter, the delimiter is first found right behind the spelling.
pub proof fn lemma_find_scheme_mark(scheme: HttpScheme, rest: Seq<char>)
    ensures
        find(scheme_token(scheme) + scheme_mark() + rest, scheme_mark()) == Some(
            scheme_token(scheme).len() as int,
        ),
{
    let token = scheme_token(scheme);
    let s = token + scheme_mark() + rest;
    let t: int = token.len() as int;
    assert forall|j: int| 0 <= j < t implies !occurs_at(s, scheme_mark(), j) by {
        if j + 3 <= s.len() {
            assert(s.subrange(j, j + 3)[0] == token[j]);
        }
    }
    lemma_find_first(s, scheme_mark(), t);
}

/// An authority without `/` ends where a tail that is empty or begins with
/// `/` starts.
pub proof fn lemma_authority_len(authority: Seq<char>, tail: Seq<char>)
    requires
        !authority.contains('/'),
        tail.len() == 0 || tail[0] == '/',
    ensures
        authority_len(authority + tail) == authority.len(),
{
    let rest = authority + tail;
    if tail.len() == 0 {
        lemma_find_no_char(rest, '/');
    } else {
        lemma_find_char(rest, '/', authority.len() as int);
    }
}

/// A scheme, `://` and an authority that is not empty and holds none of `/`,
/// `?` and `#` parse as that scheme and authority, with the path `/`, no
/// query and no fragment.
pub proof fn lemma_parse_bare_uri(scheme: HttpScheme, authority: Seq<char>)
    requires
        authority.len() > 0,
        !authority.contains('/'),
        !authority.contains('?'),
        !authority.contains('#'),
    ensures
        parse_uri(scheme_token(scheme) + scheme_mark() + authority) == Some(
            UriModel {
                scheme,
                authority,
                resource: ResourceModel { path: root_path(), query: None, fragment: None },
            },
        ),
{
    let token = scheme_token(scheme);
    let s = token + scheme_mark() + authority;
    let t: int = token.len() as int;
    let tail = Seq::<char>::empty();
    lemma_find_scheme_mark(scheme, authority);
    lemma_scheme_parse_token(scheme);
    assert(s.subrange(0, t) =~= token);
    let rest = s.subrange(t + 3, s.len() as int);
    assert(rest =~= authority + tail);
    lemma_authority_len(authority, tail);
    assert(rest.subrange(0, authority.len() as int) =~= authority);
    assert(rest.subrange(authority.len() as int, rest.len() as int) =~= tail);
    lemma_find_no_char(tail, '?');
    lemma_find_no_char(tail, '#');
}

/// Writing a well-formed URI and parsing what was written gives the URI back.
pub proof fn lemma_uri_round_trip(u: UriModel)
    requires
        u.wf(),
    ensures
        parse_uri(render_uri(u)) == Some(u),
{
    let token = scheme_token(u.scheme);
    let tail = render_resource(u.resource);
    let s = render_uri(u);
    let t: int = token.len() as int;
    let a: int = u.authority.len() as int;
    assert(s =~= token + scheme_mark() + (u.authority + tail));
    lemma_find_scheme_mark(u.scheme, u.authority + tail);
    lemma_scheme_parse_token(u.scheme);
    assert(s.subrange(0, t) =~= token);
    let rest = s.subrange(t + 3, s.len() as int);
    assert(rest =~= u.authority + tail);
    lemma_authority_len(u.authority, tail);
    assert(rest.subrange(0, a) =~= u.authority);
    assert(rest.subrange(a, rest.len() as int) =~= tail);
    lemma_resource_round_trip(u.resource);
}

/// Writing a parsed URI and parsing what was written gives the same URI.
pub proof fn lemma_parse_render_parse(s: Seq<char>)
    requires
        parse_uri(s) is Some,
    ensures
        parse_uri(render_uri(parse_uri(s)->0)) == parse_uri(s),
{
    lemma_parse_uri_wf(s);
    lemma_uri_round_trip(parse_uri(s)->0);
}

impl<'a> HttpUri<'a> {
    /// Tries to parse the given string into `HttpUri` components.
    ///
    /// The scheme ends at the first `://` and must be `http` or `https`. The
    /// authority follows, up to the first `/` or to the end, and must not be
    /// empty. What is left, from that `/` on, is the resource.
    ///
    /// The string should hold no whitespace; this is not checked.
    pub fn new(s: &'a str) -> (r: Result<Self, ()>)
        ensures
            match r {
                Ok(uri) => parse_uri(s@) == Some(uri@) && uri@.wf(),
                Err(_) => parse_uri(s@) is None,
            },
    {
        proof {
            reveal_strlit("://");
            reveal_strlit("/");
            reveal_strlit("");
            assert("://"@ =~= scheme_mark());
            assert("/"@ =~= root_path());
        }
        let (scheme, rest) = match find_ascii(s, "://") {
            Some(idx) => cut(s, idx, 3),
            None => {
                return Err(());
            },
        };
        let scheme = match HttpScheme::parse(scheme) {
            Ok(scheme) => scheme,
            Err(_) => {
                return Err(());
            },
        };
        let (authority, rest) = match find_ascii(rest, "/") {
            Some(idx) => cut(rest, idx, 0),
            None => {
                assert(rest@.subrange(0, rest@.len() as int) =~= rest@);
                (rest, "")
            },
        };
        if authority.is_empty() {
            return Err(());
        }
        let resource = HttpResource::new(rest);
        proof {
            lemma_parse_uri_wf(s@);
        }
        Ok(HttpUri { scheme, authority, resource })
    }

    /// Writes the URI: the scheme, `://`, the authority, then the resource.
    pub fn to_string(&self) -> (out: String)
        ensures
            out@ == render_uri(self@),
    {
        proof {
            reveal_strlit("://");
        }
        let mut out = String::new();
        out.append(self.scheme.as_str());
        out.append("://");
        out.append(self.authority);
        let resource = self.resource.to_string();
        out.append(resource.as_str());
        out
    }
}

} // verus!
