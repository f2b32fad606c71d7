use std::str::FromStr;
use uhttp_uri::{HttpResource, HttpScheme, HttpUri};

#[test]
fn test_http_uri() {
    assert_eq!(
        HttpUri::new("http://example.com").unwrap(),
        HttpUri {
            scheme: HttpScheme::Http,
            authority: "example.com",
            resource: HttpResource { path: "/", query: None, fragment: None }
        }
    );

    assert_eq!(
        HttpUri::new("http://127.0.0.1:61761/chunks").unwrap(),
        HttpUri {
            scheme: HttpScheme::Http,
            authority: "127.0.0.1:61761",
            resource: HttpResource { path: "/chunks", query: None, fragment: None }
        }
    );

    assert_eq!(
        HttpUri::new("https://127.0.0.1:61761").unwrap(),
        HttpUri {
            scheme: HttpScheme::Https,
            authority: "127.0.0.1:61761",
            resource: HttpResource { path: "/", query: None, fragment: None }
        }
    );

    assert!(HttpUri::new("http://").is_err());
    assert!(HttpUri::new("http:///").is_err());
    assert!(HttpUri::new("://example.com").is_err());
    assert!(HttpUri::new("ftp://example.com").is_err());
    assert!(HttpUri::new("file:example").is_err());
    assert!(HttpUri::new("htt:p//host").is_err());
    assert!(HttpUri::new("hyper.rs/").is_err());
    assert!(HttpUri::new("hyper.rs?key=val").is_err());

    assert_eq!(
        HttpUri::new("http://test.com/nazghul?test=3").unwrap(),
        HttpUri {
            scheme: HttpScheme::Http,
            authority: "test.com",
            resource: HttpResource { path: "/nazghul", query: Some("test=3"), fragment: None }
        }
    );
}

#[test]
fn scheme_is_read_from_its_exact_spelling() {
    assert_eq!(HttpScheme::parse("http"), Ok(HttpScheme::Http));
    assert_eq!(HttpScheme::parse("https"), Ok(HttpScheme::Https));
    for token in ["", "h", "htt", "httpss", "HTTP", "Https", "http ", " http", "ftp", "httq"] {
        assert_eq!(HttpScheme::parse(token), Err(()));
    }
}

#[test]
fn scheme_spelling_round_trips() {
    assert_eq!(HttpScheme::Http.as_str(), "http");
    assert_eq!(HttpScheme::Https.as_str(), "https");
    for scheme in [HttpScheme::Http, HttpScheme::Https] {
        assert_eq!(HttpScheme::parse(scheme.as_str()), Ok(scheme));
    }
    assert_ne!(HttpScheme::parse("http"), HttpScheme::parse("https"));
}

#[test]
fn scheme_from_str_agrees_with_parse() {
    assert_eq!(HttpScheme::from_str("http"), Ok(HttpScheme::Http));
    assert_eq!("https".parse::<HttpScheme>(), Ok(HttpScheme::Https));
    assert_eq!("gopher".parse::<HttpScheme>(), Err(()));
}

#[test]
fn full_uri_is_split_into_all_components() {
    let uri = HttpUri::new("https://example.com:443/r/rarepuppers?k=v&v=k#top").unwrap();
    assert_eq!(uri.scheme, HttpScheme::Https);
    assert_eq!(uri.authority, "example.com:443");
    assert_eq!(uri.resource.path, "/r/rarepuppers");
    assert_eq!(uri.resource.query, Some("k=v&v=k"));
    assert_eq!(uri.resource.fragment, Some("top"));
}

#[test]
fn uri_without_fragment() {
    let uri = HttpUri::new("http://test.com/nazghul?test=3").unwrap();
    assert_eq!(uri.scheme, HttpScheme::Http);
    assert_eq!(uri.authority, "test.com");
    assert_eq!(uri.resource.path, "/nazghul");
    assert_eq!(uri.resource.query, Some("test=3"));
    assert_eq!(uri.resource.fragment, None);
}

#[test]
fn bare_authority_gets_the_root_path() {
    for (input, scheme, authority) in [
        ("http://example.com", HttpScheme::Http, "example.com"),
        ("https://user@host:8080", HttpScheme::Https, "user@host:8080"),
        ("http://x", HttpScheme::Http, "x"),
        ("https://b\u{fc}cher.example", HttpScheme::Https, "b\u{fc}cher.example"),
    ] {
        let uri = HttpUri::new(input).unwrap();
        assert_eq!(uri.scheme, scheme);
        assert_eq!(uri.authority, authority);
        assert_eq!(uri.resource, HttpResource { path: "/", query: None, fragment: None });
    }
}

#[test]
fn malformed_uris_are_refused() {
    for input in [
        "",
        "http",
        "http:",
        "http:/",
        "http://",
        "http:///",
        "http:///path",
        "://example.com",
        "ftp://example.com",
        "file:example",
        "htt:p//host",
        "hyper.rs/",
        "hyper.rs?key=val",
        "HTTP://example.com",
        "https//example.com",
        " http://example.com",
        "\u{e9}://example.com",
    ] {
        assert_eq!(HttpUri::new(input), Err(()));
    }
}

#[test]
fn scheme_ends_at_the_first_delimiter() {
    let uri = HttpUri::new("http://a://b").unwrap();
    assert_eq!(uri.scheme, HttpScheme::Http);
    assert_eq!(uri.authority, "a:");
    assert_eq!(uri.resource.path, "//b");
    assert!(HttpUri::new("x://http://host").is_err());
}

#[test]
fn authority_ends_at_the_first_slash_only() {
    let uri = HttpUri::new("http://a?b#c/d?e#f").unwrap();
    assert_eq!(uri.authority, "a?b#c");
    assert_eq!(uri.resource, HttpResource { path: "/d", query: Some("e"), fragment: Some("f") });

    let uri = HttpUri::new("http://host?x").unwrap();
    assert_eq!(uri.authority, "host?x");
    assert_eq!(uri.resource, HttpResource { path: "/", query: None, fragment: None });
}

#[test]
fn uri_is_written_from_its_components() {
    let uri = HttpUri {
        scheme: HttpScheme::Https,
        authority: "example.com:443",
        resource: HttpResource { path: "/r", query: Some("k=v"), fragment: Some("top") },
    };
    assert_eq!(uri.to_string(), "https://example.com:443/r?k=v#top");
    assert_eq!(HttpUri::new("http://example.com").unwrap().to_string(), "http://example.com/");
}

#[test]
fn written_uri_parses_back() {
    for input in [
        "http://example.com",
        "http://example.com/",
        "https://example.com:443/r/rarepuppers?k=v&v=k#top",
        "http://127.0.0.1:61761/chunks",
        "http://a?b#c/d?e#f",
        "https://h/#x?y",
        "http://h/?#",
        "https://b\u{fc}cher.example/caf\u{e9}?\u{2603}#\u{1f600}",
    ] {
        let uri = HttpUri::new(input).unwrap();
        let written = uri.to_string();
        assert_eq!(HttpUri::new(&written), Ok(uri));
    }
    let written = HttpUri::new("http://example.com/a?b#c").unwrap().to_string();
    assert_eq!(written, "http://example.com/a?b#c");
}

#[test]
fn parsed_uri_is_well_formed() {
    for input in ["http://a", "https://a/b", "http://a?b", "http://a/?#", "https://a//b#?"] {
        let uri = HttpUri::new(input).unwrap();
        assert!(!uri.authority.is_empty());
        assert!(!uri.authority.contains('/'));
        assert!(uri.resource.path.starts_with('/'));
    }
}
