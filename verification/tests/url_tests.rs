use urltools::join::join_url;
use urltools::link::get_protocol;
use urltools::link::is_external;
use urltools::link::is_internal;
use urltools::link::is_secure;
use urltools::link::normalize_url;
use urltools::url::get_path_segments;
use urltools::url::get_url_domain;
use urltools::url::get_url_fragment;
use urltools::url::get_url_path;
use urltools::url::get_url_port;
use urltools::url::get_url_query;
use urltools::url::get_url_scheme;
use urltools::url::origin_of;
use urltools::url::parse;
use urltools::url::same_origin;
use urltools::url::validate_url;
use urltools::url::JoinError;

#[test]
fn external_and_internal_are_complements() {
    for h in ["http://a.com", "https://a.com", "ftp://a.com", "/rel", "", "httpx://y"] {
        assert_eq!(is_external(h), !is_internal(h));
    }
    assert!(is_external("https://a.com"));
    assert!(is_external("http://a.com"));
    assert!(!is_external("ftp://a.com"));
    assert!(is_internal("/relative/path"));
}

#[test]
fn secure_means_https_prefix() {
    assert!(is_secure("https://a.com"));
    assert!(!is_secure("http://a.com"));
    assert!(!is_secure("HTTPS://a.com"));
}

#[test]
fn normalize_strips_fragment_then_one_slash() {
    assert_eq!(normalize_url("https://a.com/path/#frag"), "https://a.com/path");
    assert_eq!(normalize_url("https://a.com/path"), "https://a.com/path");
    assert_eq!(normalize_url("https://a.com//"), "https://a.com/");
    assert_eq!(normalize_url("#only"), "");
}

#[test]
fn protocol_extraction() {
    assert_eq!(get_protocol("https://a.com/x").as_deref(), Some("https"));
    assert_eq!(get_protocol("weird+x://y").as_deref(), Some("weird+x"));
    assert_eq!(get_protocol("mailto:user@a.com"), None);
    assert_eq!(get_protocol("no scheme here"), None);
}

#[test]
fn parse_decomposes_an_absolute_url() {
    let u = parse("HTTPS://user.a.com:8443/p/q?x=1#frag").unwrap();
    assert_eq!(u.scheme, "https");
    assert_eq!(u.host.as_deref(), Some("user.a.com"));
    assert_eq!(u.port, Some(8443));
    assert_eq!(u.path, "/p/q");
    assert_eq!(u.query.as_deref(), Some("x=1"));
    assert_eq!(u.fragment.as_deref(), Some("frag"));
}

#[test]
fn parse_defaults_and_errors() {
    let u = parse("https://a.com").unwrap();
    assert_eq!(u.path, "/");
    assert_eq!(u.port, None);
    let m = parse("mailto:user@a.com").unwrap();
    assert_eq!(m.host, None);
    assert_eq!(m.path, "user@a.com");
    assert!(parse("no-colon-anywhere").is_err());
    assert!(parse("1http://a.com").is_err());
    assert!(parse("https://a.com:70000/").is_err());
    assert!(parse("https://a.com:7x/").is_err());
}

#[test]
fn parse_serialize_round_trip() {
    for s in [
        "https://a.com/x/y?q=1#f",
        "http://a.com:8080/",
        "mailto:user@a.com",
        "https://a.com:443/x",
        "ftp://files.example.org/pub/",
        "data:text/plain,hi",
    ] {
        let u = parse(s).unwrap();
        let t = u.serialize();
        let v = parse(&t).unwrap();
        assert_eq!(u.scheme, v.scheme);
        assert_eq!(u.host, v.host);
        assert_eq!(u.port, v.port);
        assert_eq!(u.path, v.path);
        assert_eq!(u.query, v.query);
        assert_eq!(u.fragment, v.fragment);
    }
}

#[test]
fn default_ports_are_normalized_away() {
    assert_eq!(get_url_port("https://a.com:443/x"), None);
    assert_eq!(get_url_port("http://a.com:80/x"), None);
    assert_eq!(get_url_port("https://a.com:8443/x"), Some(8443));
    assert_eq!(get_url_port("https://a.com/x"), None);
}

#[test]
fn getters_project_the_parts() {
    assert!(validate_url("https://a.com/x"));
    assert!(!validate_url("notaurl"));
    assert_eq!(get_url_domain("https://a.com/x").as_deref(), Some("a.com"));
    assert_eq!(get_url_domain("mailto:u@a.com"), None);
    assert_eq!(get_url_path("https://a.com/x/y").as_deref(), Some("/x/y"));
    assert_eq!(get_url_query("https://a.com/x?k=v").as_deref(), Some("k=v"));
    assert_eq!(get_url_query("https://a.com/x"), None);
    assert_eq!(get_url_fragment("https://a.com/x#top").as_deref(), Some("top"));
    assert_eq!(get_url_scheme("HTTP://a.com").as_deref(), Some("http"));
}

#[test]
fn path_segments_discard_empty_segments() {
    let segs = get_path_segments("https://a.com/a//b/").unwrap();
    assert_eq!(segs, vec!["a".to_string(), "b".to_string()]);
    let root = get_path_segments("https://a.com/").unwrap();
    assert!(root.is_empty());
    assert!(get_path_segments("nope").is_err());
}

#[test]
fn origin_carries_scheme_host_and_effective_port() {
    let o = origin_of("https://a.com/x").unwrap();
    assert_eq!(o.scheme, "https");
    assert_eq!(o.host.as_deref(), Some("a.com"));
    assert_eq!(o.port, Some(443));
    let w = origin_of("ws://a.com/x").unwrap();
    assert_eq!(w.port, Some(80));
    assert!(origin_of("bad").is_err());
}

#[test]
fn same_origin_uses_effective_ports() {
    assert_eq!(same_origin("https://a.com:443/x", "https://a.com/y"), Ok(true));
    assert_eq!(same_origin("http://a.com/x", "https://a.com/x"), Ok(false));
    assert_eq!(same_origin("https://a.com/x", "https://b.com/x"), Ok(false));
    assert_eq!(same_origin("https://a.com:8443/x", "https://a.com/x"), Ok(false));
    assert!(same_origin("bad", "https://a.com").is_err());
}

#[test]
fn join_resolves_relative_references() {
    assert_eq!(join_url("https://a.com/x/y", "../z").unwrap(), "https://a.com/z");
    assert_eq!(join_url("https://a.com/x", "https://b.com/y").unwrap(), "https://b.com/y");
    assert_eq!(join_url("https://a.com/a/b/c", "./d").unwrap(), "https://a.com/a/b/d");
    assert_eq!(join_url("https://a.com/x/y", "/z").unwrap(), "https://a.com/z");
    assert_eq!(join_url("https://a.com/x", "//b.com/y").unwrap(), "https://b.com/y");
    assert_eq!(join_url("https://a.com/x/y", "z").unwrap(), "https://a.com/x/z");
    assert_eq!(join_url("https://a.com/x?q=1#f", "").unwrap(), "https://a.com/x?q=1");
    assert_eq!(join_url("https://a.com/x/y", "?k=2").unwrap(), "https://a.com/x/y?k=2");
    assert_eq!(join_url("https://a.com/x/y", "#z").unwrap(), "https://a.com/x/y#z");
    assert_eq!(join_url("https://a.com/x/..", "").unwrap(), "https://a.com/x/..");
    assert_eq!(join_url("https://a.com/a/b/", "../../c").unwrap(), "https://a.com/c");
}

#[test]
fn join_collapses_dots_in_absolute_references_too() {
    assert_eq!(join_url("http://a.com/x", "http://b.com/./y").unwrap(), "http://b.com/y");
    assert_eq!(join_url("https://a.com/x", "https://b.com/a/../c").unwrap(), "https://b.com/c");
    assert_eq!(join_url("https://a.com/x", "//b.com/p/./q").unwrap(), "https://b.com/p/q");
    assert_eq!(join_url("https://a.com/x", "mailto:u@b.com"), Ok("mailto:u@b.com".to_string()));
}

#[test]
fn join_rejects_bad_inputs() {
    assert_eq!(join_url("notaurl", "x"), Err(JoinError::InvalidBase));
    assert_eq!(join_url("https://a.com/x", "https://b.com:bad/"), Err(JoinError::InvalidRelative));
    assert_eq!(join_url("mailto:u@a.com", "x"), Err(JoinError::InvalidRelative));
    assert_eq!(join_url("mailto:u@a.com", "#f").unwrap(), "mailto:u@a.com#f");
}
