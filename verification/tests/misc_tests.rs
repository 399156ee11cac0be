use urltools::digest::decode_base64;
use urltools::digest::encode_base64;
use urltools::digest::generate_checksum;
use urltools::digest::generate_uuid;
use urltools::digest::is_valid_uuid;
use urltools::digest::sha256_hash;
use urltools::digest::simple_hash;
use urltools::digest::verify_checksum;
use urltools::digest::DecodeBase64Error;
use urltools::query::build_url_with_params;
use urltools::query::parse_query_params;
use urltools::text::count_graphemes;
use urltools::text::extract_email_addresses;
use urltools::text::extract_urls;
use urltools::text::is_ascii_only;
use urltools::text::matches_pattern;
use urltools::text::to_slug;
use urltools::text::truncate_text;

#[test]
fn query_params_preserve_order_and_duplicates() {
    let ps = parse_query_params("https://a.com?x=1&x=2").unwrap();
    assert_eq!(ps, vec![("x".to_string(), "1".to_string()), ("x".to_string(), "2".to_string())]);
}

#[test]
fn query_params_decode_and_tolerate_odd_pieces() {
    let ps = parse_query_params("https://a.com/p?a=1+2&b=%C3%A9&flag&&c=%zz&d=%FF").unwrap();
    assert_eq!(
        ps,
        vec![
            ("a".to_string(), "1 2".to_string()),
            ("b".to_string(), "\u{e9}".to_string()),
            ("flag".to_string(), "".to_string()),
            ("c".to_string(), "%zz".to_string()),
            ("d".to_string(), "%FF".to_string()),
        ]
    );
    assert!(parse_query_params("https://a.com/p").unwrap().is_empty());
    assert!(parse_query_params("nope").is_err());
}

#[test]
fn with_query_round_trips_the_pairs() {
    let pairs = vec![
        ("a".to_string(), "1 2".to_string()),
        ("k".to_string(), "v&w=x".to_string()),
        ("a".to_string(), "caf\u{e9}".to_string()),
    ];
    let url = build_url_with_params("https://a.com/p#frag", &pairs).unwrap();
    let back = parse_query_params(&url).unwrap();
    assert_eq!(back, pairs);
}

#[test]
fn with_query_replaces_and_keeps_the_rest() {
    let pairs = vec![("a".to_string(), "1 2".to_string())];
    let url = build_url_with_params("https://a.com/p?old=1#f", &pairs).unwrap();
    assert_eq!(url, "https://a.com/p?a=1+2#f");
    assert!(build_url_with_params("bad", &pairs).is_err());
}

#[test]
fn sha256_has_known_digests() {
    assert_eq!(
        sha256_hash(""),
        "e3b0c44298fc1c149afbf4c8996fb92427ae41e4649b934ca495991b7852b855"
    );
    assert_eq!(
        sha256_hash("abc"),
        "ba7816bf8f01cfea414140de5dae2223b00361a396177a9cb410ff61f20015ad"
    );
}

#[test]
fn checksums_are_the_digest_prefix() {
    assert_eq!(generate_checksum(""), "e3b0c442");
    assert!(verify_checksum("abc", "ba7816bf"));
    assert!(!verify_checksum("abc", "deadbeef"));
}

#[test]
fn base64_encodes_and_decodes() {
    assert_eq!(encode_base64("hello"), "aGVsbG8=");
    assert_eq!(encode_base64(""), "");
    assert_eq!(decode_base64("aGVsbG8=").unwrap(), "hello");
    assert_eq!(decode_base64(&encode_base64("caf\u{e9} & more")).unwrap(), "caf\u{e9} & more");
    assert_eq!(decode_base64("!!bad!!"), Err(DecodeBase64Error::InvalidBase64));
    assert_eq!(decode_base64("/w=="), Err(DecodeBase64Error::InvalidUtf8));
}

#[test]
fn simple_hash_folds_bytes_with_31() {
    assert_eq!(simple_hash(""), 0);
    assert_eq!(simple_hash("a"), 97);
    assert_eq!(simple_hash("abc"), 96354);
}

#[test]
fn uuids_look_like_uuids() {
    let u = generate_uuid();
    assert_eq!(u.len(), 36);
    assert!(is_valid_uuid(&u));
    assert!(is_valid_uuid("550e8400-e29b-41d4-a716-446655440000"));
    assert!(!is_valid_uuid("not-a-uuid"));
}

#[test]
fn graphemes_count_clusters_not_chars() {
    assert_eq!(count_graphemes("hello"), 5);
    assert_eq!(count_graphemes("ae\u{301}"), 2);
    assert_eq!(count_graphemes(""), 0);
}

#[test]
fn truncation_cuts_at_grapheme_boundaries() {
    assert_eq!(truncate_text("hello world", 5), "hello...");
    assert_eq!(truncate_text("hi", 5), "hi");
    assert_eq!(truncate_text("ae\u{301}x", 2), "ae\u{301}...");
}

#[test]
fn ascii_detection() {
    assert!(is_ascii_only("plain text 123"));
    assert!(!is_ascii_only("caf\u{e9}"));
}

#[test]
fn slugs_lowercase_and_hyphenate() {
    assert_eq!(to_slug("Hello World!"), "hello-world");
    assert_eq!(to_slug("  A  B "), "-a-b-");
    assert_eq!(to_slug("Rust 2024: a tour"), "rust-2024-a-tour");
}

#[test]
fn pattern_matching_reports_bad_patterns() {
    assert_eq!(matches_pattern("hello", "^h.*o$").unwrap(), true);
    assert_eq!(matches_pattern("hello", "^x").unwrap(), false);
    let e = matches_pattern("x", "[").unwrap_err();
    assert!(!e.message.is_empty());
}

#[test]
fn extraction_finds_all_matches_in_order() {
    assert_eq!(
        extract_email_addresses("write a@b.com or c@d.org today"),
        vec!["a@b.com".to_string(), "c@d.org".to_string()]
    );
    assert!(extract_email_addresses("nothing here").is_empty());
    assert_eq!(
        extract_urls("see https://a.com/x and http://b.org, ok?"),
        vec!["https://a.com/x".to_string(), "http://b.org,".to_string()]
    );
    assert!(extract_urls("no links").is_empty());
}
