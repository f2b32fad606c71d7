//! The resource of a URI: its path, query and fragment.

use crate::text::{
    char_offset, cut, find, find_ascii, lemma_find_first, lemma_find_some, lemma_offset_monotone,
    occurs_at,
};
use vstd::prelude::*;
use vstd::string::*;
use vstd::utf8::*;

verus! {

/// Components in an HTTP URI resource.
#[derive(Copy, Clone, PartialEq, Eq, Debug, Hash)]
pub struct HttpResource<'a> {
    /// Path to the resource.
    ///
    /// A parsed path is never empty: it holds at least `"/"`.
    pub path: &'a str,
    /// Parameters used to further identify the resource, without the leading `?`.
    pub query: Option<&'a str>,
    /// Identifier and parameters for a subresource, without the leading `#`.
    pub fragment: Option<&'a str>,
}

/// What an [`HttpResource`] holds, as sequences of characters.
pub struct ResourceModel {
    pub path: Seq<char>,
    pub query: Option<Seq<char>>,
    pub fragment: Option<Seq<char>>,
}

/// The delimiter that opens the query.
pub open spec fn query_mark() -> Seq<char> {
    seq!['?']
}

/// The delimiter that opens the fragment.
pub open spec fn fragment_mark() -> Seq<char> {
    seq!['#']
}

/// The path that an empty path is read as.
pub open spec fn root_path() -> Seq<char> {
    seq!['/']
}

/// Path, query and fragment of `s`, given the index of its query delimiter
/// and that of its fragment delimiter. A query delimiter that does not
/// precede the fragment delimiter is part of the fragment.
pub open spec fn split_parts(s: Seq<char>, q: Option<int>, f: Option<int>) -> (
    Seq<char>,
    Seq<char>,
    Seq<char>,
) {
    match (q, f) {
        (Some(q), Some(f)) if q < f => (
            s.subrange(0, q),
            s.subrange(q + 1, f),
            s.subrange(f + 1, s.len() as int),
        ),
        (_, Some(f)) => (s.subrange(0, f), Seq::empty(), s.subrange(f + 1, s.len() as int)),
        (Some(q), None) => (s.subrange(0, q), s.subrange(q + 1, s.len() as int), Seq::empty()),
        (None, None) => (s, Seq::empty(), Seq::empty()),
    }
}

/// An empty component counts as absent.
pub open spec fn present(part: Seq<char>) -> Option<Seq<char>> {
    if part.len() == 0 {
        None
    } else {
        Some(part)
    }
}

/// The resource that `s` is read as.
pub open spec fn parse_resource(s: Seq<char>) -> ResourceModel {
    let parts = split_parts(s, find(s, query_mark()), find(s, fragment_mark()));
    ResourceModel {
        path: if parts.0.len() == 0 {
            root_path()
        } else {
            parts.0
        },
        query: present(parts.1),
        fragment: present(parts.2),
    }
}

/// The string that a resource is written as.
pub open spec fn render_resource(r: ResourceModel) -> Seq<char> {
    r.path + (match r.query {
        Some(q) => query_mark() + q,
        None => Seq::empty(),
    }) + (match r.fragment {
        Some(f) => fragment_mark() + f,
        None => Seq::empty(),
    })
}

impl ResourceModel {
    /// What holds of every parsed resource: the path is not empty and holds
    /// no delimiter; a query is not empty and holds no fragment delimiter; a
    /// fragment is not empty.
    pub open spec fn wf(self) -> bool {
        &&& self.path.len() > 0
        &&& !self.path.contains('?')
        &&& !self.path.contains('#')
        &&& self.query matches Some(q) ==> q.len() > 0 && !q.contains('#')
        &&& self.fragment matches Some(f) ==> f.len() > 0
    }
}

/// The view of an optional string slice.
pub open spec fn opt_view(part: Option<&str>) -> Option<Seq<char>> {
    match part {
        Some(p) => Some(p@),
        None => None,
    }
}

impl<'a> View for HttpResource<'a> {
    type V = ResourceModel;

    open spec fn view(&self) -> ResourceModel {
        ResourceModel {
            path: self.path@,
            query: opt_view(self.query),
            fragment: opt_view(self.fragment),
        }
    }
}

/// `idx`, if any, is the byte index of an ASCII character of `s`.
pub open spec fn ascii_index(s: &str, idx: Option<usize>) -> bool {
    idx matches Some(i) ==> {
        &&& i < s.spec_bytes().len()
        &&& s.spec_bytes()[i as int] < 0x80
    }
}

/// The query delimiter that counts: none where it does not precede the
/// fragment delimiter.
pub open spec fn leading_query(qidx: Option<usize>, fidx: Option<usize>) -> Option<usize> {
    match (qidx, fidx) {
        (Some(q), Some(f)) if q >= f => None,
        _ => qidx,
    }
}

/// The character index that stands for a byte index.
pub open spec fn char_index(s: &str, idx: Option<usize>) -> Option<int> {
    match idx {
        Some(i) => Some(char_offset(s@, i as int)),
        None => None,
    }
}

/// Splits `s` into path, query and fragment, given the byte index of its
/// query delimiter and that of its fragment delimiter. Each delimiter is left
/// out of the parts. A query delimiter that does not precede the fragment
/// delimiter is not looked at.
pub fn parts<'a>(s: &'a str, qidx: Option<usize>, fidx: Option<usize>) -> (r: (
    &'a str,
    &'a str,
    &'a str,
))
    requires
        ascii_index(s, leading_query(qidx, fidx)),
        ascii_index(s, fidx),
    ensures
        (r.0@, r.1@, r.2@) == split_parts(
            s@,
            char_index(s, leading_query(qidx, fidx)),
            char_index(s, fidx),
        ),
    decreases qidx is Some as int,
{
    proof {
        reveal_strlit("");
        encode_utf8_valid_utf8(s@);
        if let Some(q) = leading_query(qidx, fidx) {
            is_char_boundary_iff_not_is_continuation_byte(s.spec_bytes(), q as int);
        }
        if let Some(f) = fidx {
            is_char_boundary_iff_not_is_continuation_byte(s.spec_bytes(), f as int);
        }
    }
    match (qidx, fidx) {
        (Some(q), Some(f)) => if q < f {
            let (head, frag) = cut(s, f, 1);
            proof {
                encode_utf8_valid_utf8(head@);
                is_char_boundary_iff_not_is_continuation_byte(head.spec_bytes(), q as int);
                assert(head.spec_bytes().subrange(0, q as int) =~= s.spec_bytes().subrange(
                    0,
                    q as int,
                ));
            }
            let (path, query) = cut(head, q, 1);
            (path, query, frag)
        } else {
            parts(s, None, Some(f))
        },
        (Some(q), None) => {
            let (path, query) = cut(s, q, 1);
            (path, query, "")
        },
        (None, Some(f)) => {
            let (path, frag) = cut(s, f, 1);
            (path, "", frag)
        },
        (None, None) => (s, "", ""),
    }
}

/// A one-character pattern stands where that character stands.
pub proof fn lemma_occurs_char(s: Seq<char>, c: char, i: int)
    ensures
        occurs_at(s, seq![c], i) <==> 0 <= i < s.len() && s[i] == c,
{
    if 0 <= i < s.len() {
        assert(s.subrange(i, i + 1)[0] == s[i]);
        if s[i] == c {
            assert(s.subrange(i, i + 1) =~= seq![c]);
        }
    }
}

/// Nothing before the first occurrence of a character holds it; where it
/// occurs nowhere, nothing holds it.
pub proof fn lemma_free_before(s: Seq<char>, c: char, from: int, to: int)
    requires
        0 <= from <= to <= s.len(),
        match find(s, seq![c]) {
            Some(k) => to <= k,
            None => true,
        },
    ensures
        !s.subrange(from, to).contains(c),
{
    if find(s, seq![c]) is Some {
        lemma_find_some(s, seq![c]);
    }
    assert forall|i: int| 0 <= i < to - from implies s.subrange(from, to)[i] != c by {
        lemma_occurs_char(s, c, from + i);
    }
}

/// Every parsed resource is well-formed.
pub proof fn lemma_parse_resource_wf(s: Seq<char>)
    ensures
        parse_resource(s).wf(),
{
    let q = find(s, query_mark());
    let f = find(s, fragment_mark());
    let n: int = s.len() as int;
    if q is Some {
        lemma_find_some(s, query_mark());
    }
    if f is Some {
        lemma_find_some(s, fragment_mark());
    }
    match (q, f) {
        (Some(q), Some(f)) => {
            if q < f {
                lemma_free_before(s, '?', 0, q);
                lemma_free_before(s, '#', 0, q);
                lemma_free_before(s, '#', q + 1, f);
            } else {
                lemma_occurs_char(s, '?', q);
                lemma_occurs_char(s, '#', f);
                lemma_free_before(s, '?', 0, f);
                lemma_free_before(s, '#', 0, f);
            }
        },
        (Some(q), None) => {
            lemma_free_before(s, '?', 0, q);
            lemma_free_before(s, '#', 0, q);
            lemma_free_before(s, '#', q + 1, n);
        },
        (None, Some(f)) => {
            lemma_free_before(s, '?', 0, f);
            lemma_free_before(s, '#', 0, f);
        },
        (None, None) => {
            lemma_free_before(s, '?', 0, n);
            lemma_free_before(s, '#', 0, n);
            assert(s.subrange(0, n) =~= s);
        },
    }
}

/// A character that stands at `k` and nowhere before is found at `k`.
pub proof fn lemma_find_char(s: Seq<char>, c: char, k: int)
    requires
        0 <= k < s.len(),
        s[k] == c,
        forall|j: int| 0 <= j < k ==> s[j] != c,
    ensures
        find(s, seq![c]) == Some(k),
{
    lemma_occurs_char(s, c, k);
    assert forall|j: int| 0 <= j < k implies !occurs_at(s, seq![c], j) by {
        lemma_occurs_char(s, c, j);
    }
    lemma_find_first(s, seq![c], k);
}

/// A character that stands nowhere is not found.
pub proof fn lemma_find_no_char(s: Seq<char>, c: char)
    requires
        !s.contains(c),
    ensures
        find(s, seq![c]) is None,
{
    assert forall|j: int| !occurs_at(s, seq![c], j) by {
        lemma_occurs_char(s, c, j);
    }
}

/// Writing a well-formed resource and parsing what was written gives the
/// resource back.
pub proof fn lemma_resource_round_trip(r: ResourceModel)
    requires
        r.wf(),
    ensures
        parse_resource(render_resource(r)) == r,
{
    let s = render_resource(r);
    let p: int = r.path.len() as int;
    match (r.query, r.fragment) {
        (Some(q), Some(_)) => {
            lemma_find_char(s, '?', p);
            lemma_find_char(s, '#', p + 1 + q.len());
        },
        (Some(_), None) => {
            lemma_find_char(s, '?', p);
            lemma_find_no_char(s, '#');
        },
        (None, Some(_)) => {
            lemma_find_char(s, '#', p);
            if find(s, query_mark()) is Some {
                lemma_find_some(s, query_mark());
                lemma_occurs_char(s, '?', find(s, query_mark())->0);
            }
        },
        (None, None) => {
            lemma_find_no_char(s, '?');
            lemma_find_no_char(s, '#');
        },
    }
    let back = parse_resource(s);
    assert(back.path == r.path);
    assert(back.query == r.query);
    assert(back.fragment == r.fragment);
}

/// Writing a parsed resource and parsing what was written gives the same
/// resource.
pub proof fn lemma_resource_parse_render_parse(s: Seq<char>)
    ensures
        parse_resource(render_resource(parse_resource(s))) == parse_resource(s),
{
    lemma_parse_resource_wf(s);
    lemma_resource_round_trip(parse_resource(s));
}

impl<'a> HttpResource<'a> {
    /// Parses the given string into a new `HttpResource`.
    ///
    /// The path ends before the first `?` or `#`. The query stands between
    /// the first `?` and the first `#` behind it; a `?` behind the first `#`
    /// belongs to the fragment. An empty path is read as `"/"`, an empty
    /// query or fragment as absent.
    pub fn new(s: &'a str) -> (r: Self)
        ensures
            r@ == parse_resource(s@),
            r@.wf(),
    {
        proof {
            reveal_strlit("?");
            reveal_strlit("#");
            reveal_strlit("/");
            assert("?"@ =~= query_mark());
            assert("#"@ =~= fragment_mark());
            assert("/"@ =~= root_path());
            lemma_parse_resource_wf(s@);
        }
        let qidx = find_ascii(s, "?");
        let fidx = find_ascii(s, "#");
        proof {
            if let (Some(q), Some(f)) = (qidx, fidx) {
                if q >= f {
                    lemma_offset_monotone(s@, f as int, q as int);
                }
            }
        }
        let (path, query, fragment) = parts(s, qidx, fidx);
        HttpResource {
            path: if path.is_empty() {
                "/"
            } else {
                path
            },
            query: if query.is_empty() {
                None
            } else {
                Some(query)
            },
            fragment: if fragment.is_empty() {
                None
            } else {
                Some(fragment)
            },
        }
    }

    /// Writes the resource: the path, then `?` and the query if there is
    /// one, then `#` and the fragment if there is one.
    pub fn to_string(&self) -> (out: String)
        ensures
            out@ == render_resource(self@),
    {
        proof {
            reveal_strlit("?");
            reveal_strlit("#");
        }
        let mut out = String::new();
        out.append(self.path);
        if let Some(q) = self.query {
            out.append("?");
            out.append(q);
        }
        if let Some(f) = self.fragment {
            out.append("#");
            out.append(f);
        }
        out
    }
}

} // verus!