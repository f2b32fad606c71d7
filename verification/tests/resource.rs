use uhttp_uri::HttpResource;

fn resource<'a>(
    path: &'a str,
    query: Option<&'a str>,
    fragment: Option<&'a str>,
) -> HttpResource<'a> {
    HttpResource { path, query, fragment }
}

#[test]
fn test_http_resource() {
    assert_eq!(
        HttpResource::new("/a/b/c"),
        HttpResource { path: "/a/b/c", query: None, fragment: None }
    );

    assert_eq!(
        HttpResource::new("/a/b/c?key=val"),
        HttpResource { path: "/a/b/c", query: Some("key=val"), fragment: None }
    );

    assert_eq!(
        HttpResource::new("/a/b/c#frag"),
        HttpResource { path: "/a/b/c", query: None, fragment: Some("frag") }
    );

    assert_eq!(
        HttpResource::new("/a/b/c#frag?frag-param"),
        HttpResource { path: "/a/b/c", query: None, fragment: Some("frag?frag-param") }
    );

    assert_eq!(
        HttpResource::new("/a/b/c?key=val&param#frag"),
        HttpResource { path: "/a/b/c", query: Some("key=val&param"), fragment: Some("frag") }
    );

    assert_eq!(
        HttpResource::new("/a/b/c/?key=val&param#frag"),
        HttpResource { path: "/a/b/c/", query: Some("key=val&param"), fragment: Some("frag") }
    );

    assert_eq!(
        HttpResource::new("/a/b/c?key=d/e#frag/ment?param"),
        HttpResource { path: "/a/b/c", query: Some("key=d/e"), fragment: Some("frag/ment?param") }
    );

    assert_eq!(
        HttpResource::new("/a/b/c#frag?param&key=val"),
        HttpResource { path: "/a/b/c", query: None, fragment: Some("frag?param&key=val") }
    );

    assert_eq!(
        HttpResource::new("/%02/%03/%04#frag"),
        HttpResource { path: "/%02/%03/%04", query: None, fragment: Some("frag") }
    );

    assert_eq!(HttpResource::new("/"), HttpResource { path: "/", query: None, fragment: None });

    assert_eq!(HttpResource::new(""), HttpResource { path: "/", query: None, fragment: None });

    assert_eq!(HttpResource::new("?#"), HttpResource { path: "/", query: None, fragment: None });

    assert_eq!(
        HttpResource::new("?key=val#"),
        HttpResource { path: "/", query: Some("key=val"), fragment: None }
    );

    assert_eq!(
        HttpResource::new("?#frag"),
        HttpResource { path: "/", query: None, fragment: Some("frag") }
    );
}

#[test]
fn empty_tail_and_root_give_the_same_resource() {
    assert_eq!(HttpResource::new(""), HttpResource::new("/"));
    assert_eq!(HttpResource::new("/"), resource("/", None, None));
}

#[test]
fn question_mark_behind_hash_belongs_to_the_fragment() {
    assert_eq!(HttpResource::new("/a#y?z"), resource("/a", None, Some("y?z")));
    assert_eq!(HttpResource::new("/a?x#y?z"), resource("/a", Some("x"), Some("y?z")));
    assert_eq!(
        HttpResource::new("/a/b/c#frag?param&key=val"),
        resource("/a/b/c", None, Some("frag?param&key=val"))
    );
    assert_eq!(
        HttpResource::new("/a/b/c?key=val&param#frag"),
        resource("/a/b/c", Some("key=val&param"), Some("frag"))
    );
}

#[test]
fn only_the_first_delimiters_split() {
    assert_eq!(HttpResource::new("/a?x?y#z#w"), resource("/a", Some("x?y"), Some("z#w")));
    assert_eq!(HttpResource::new("/a##"), resource("/a", None, Some("#")));
    assert_eq!(HttpResource::new("/a??"), resource("/a", Some("?"), None));
}

#[test]
fn empty_components_are_absent() {
    assert_eq!(HttpResource::new("?#"), resource("/", None, None));
    assert_eq!(HttpResource::new("?key=val#"), resource("/", Some("key=val"), None));
    assert_eq!(HttpResource::new("?#frag"), resource("/", None, Some("frag")));
    assert_eq!(HttpResource::new("/p?"), resource("/p", None, None));
    assert_eq!(HttpResource::new("/p#"), resource("/p", None, None));
    assert_eq!(HttpResource::new("#"), resource("/", None, None));
    assert_eq!(HttpResource::new("#?"), resource("/", None, Some("?")));
}

#[test]
fn parsed_resource_is_well_formed() {
    for tail in ["", "/", "?#", "/a?b#c", "#?", "/x#y?z", "a/b", "??##"] {
        let r = HttpResource::new(tail);
        assert!(!r.path.is_empty());
        assert!(!r.path.contains('?') && !r.path.contains('#'));
        if let Some(q) = r.query {
            assert!(!q.is_empty() && !q.contains('#'));
        }
        if let Some(f) = r.fragment {
            assert!(!f.is_empty());
        }
    }
}

#[test]
fn components_beyond_ascii_are_kept_whole() {
    assert_eq!(
        HttpResource::new("/caf\u{e9}?na\u{ef}ve=\u{2603}#\u{1f600}?x"),
        resource("/caf\u{e9}", Some("na\u{ef}ve=\u{2603}"), Some("\u{1f600}?x"))
    );
    assert_eq!(HttpResource::new("\u{e9}"), resource("\u{e9}", None, None));
    assert_eq!(HttpResource::new("\u{1f600}#\u{e9}"), resource("\u{1f600}", None, Some("\u{e9}")));
}

#[test]
fn resource_is_written_with_its_delimiters() {
    assert_eq!(resource("/a/b", None, None).to_string(), "/a/b");
    assert_eq!(resource("/a/b", Some("k=v"), None).to_string(), "/a/b?k=v");
    assert_eq!(resource("/a/b", None, Some("top")).to_string(), "/a/b#top");
    assert_eq!(resource("/a/b", Some("k=v"), Some("top")).to_string(), "/a/b?k=v#top");
    assert_eq!(HttpResource::new("").to_string(), "/");
    assert_eq!(HttpResource::new("?#").to_string(), "/");
    assert_eq!(HttpResource::new("?key=val#").to_string(), "/?key=val");
}

#[test]
fn written_resource_parses_back() {
    for tail in ["/", "/a/b/c", "/a?x", "/a#y", "/a?x#y?z", "/a?x?y#z#w", "/caf\u{e9}?q#f"] {
        let r = HttpResource::new(tail);
        let written = r.to_string();
        assert_eq!(written, tail);
        assert_eq!(HttpResource::new(&written), r);
    }
    let normalized = HttpResource::new("?#frag").to_string();
    assert_eq!(normalized, "/#frag");
    assert_eq!(HttpResource::new(&normalized), HttpResource::new("?#frag"));
}
