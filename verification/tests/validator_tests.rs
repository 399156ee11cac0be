use urltools::validators::validate_credit_card;
use urltools::validators::validate_email;
use urltools::validators::validate_hex_color;
use urltools::validators::validate_ipv4;
use urltools::validators::validate_ipv6;
use urltools::validators::validate_mac_address;
use urltools::validators::validate_password_strength;
use urltools::validators::validate_phone;
use urltools::validators::validate_postal_code;
use urltools::validators::validate_ssn;

#[test]
fn luhn_accepts_valid_and_rejects_corrupted_numbers() {
    assert!(validate_credit_card("4532015112830366"));
    assert!(!validate_credit_card("4532015112830367"));
    assert!(validate_credit_card("4532 0151 1283 0366"));
    assert!(!validate_credit_card("123"));
    assert!(!validate_credit_card("45320151128303664532015112830366"));
}

#[test]
fn ipv4_requires_four_clean_octets() {
    assert!(validate_ipv4("0.0.0.0"));
    assert!(validate_ipv4("192.168.1.1"));
    assert!(validate_ipv4("255.255.255.255"));
    assert!(!validate_ipv4("192.168.01.1"));
    assert!(!validate_ipv4("256.1.1.1"));
    assert!(!validate_ipv4("1.2.3"));
    assert!(!validate_ipv4("1.2.3.4.5"));
    assert!(!validate_ipv4("1..2.3"));
    assert!(!validate_ipv4("a.b.c.d"));
}

#[test]
fn ipv6_accepts_expanded_form_and_two_literals() {
    assert!(validate_ipv6("2001:0db8:85a3:0000:0000:8a2e:0370:7334"));
    assert!(validate_ipv6("::1"));
    assert!(validate_ipv6("::"));
    assert!(!validate_ipv6("2001:db8::1"));
    assert!(!validate_ipv6("::2"));
    assert!(!validate_ipv6("1:2:3:4:5:6:7"));
    assert!(!validate_ipv6("1:2:3:4:5:6:7:8:9"));
    assert!(!validate_ipv6("g001:0db8:85a3:0000:0000:8a2e:0370:7334"));
}

#[test]
fn mac_addresses_take_colon_or_dash_separators() {
    assert!(validate_mac_address("00:1A:2b:3C:4d:5E"));
    assert!(validate_mac_address("00-1A-2b-3C-4d-5E"));
    assert!(validate_mac_address("00-1A:2b-3C:4d-5E"));
    assert!(!validate_mac_address("001A2b3C4d5E"));
    assert!(!validate_mac_address("00:1A:2b:3C:4d"));
    assert!(!validate_mac_address("00:1A:2b:3C:4d:5G"));
}

#[test]
fn password_score_counts_criteria_and_clamps() {
    assert_eq!(validate_password_strength("abc"), 1);
    assert_eq!(validate_password_strength("Abc123!@"), 4);
    assert_eq!(validate_password_strength(""), 0);
    assert_eq!(validate_password_strength("abcdefgh"), 2);
    assert_eq!(validate_password_strength("Abcdefgh"), 3);
    assert_eq!(validate_password_strength("Abcdefg1"), 4);
}

#[test]
fn hex_colors_are_three_or_six_digits() {
    assert!(validate_hex_color("#fff"));
    assert!(validate_hex_color("#FFFFFF"));
    assert!(validate_hex_color("#1a2B3c"));
    assert!(!validate_hex_color("fff"));
    assert!(!validate_hex_color("#ffff"));
    assert!(!validate_hex_color("#ggg"));
}

#[test]
fn ssn_is_three_two_four() {
    assert!(validate_ssn("123-45-6789"));
    assert!(!validate_ssn("123456789"));
    assert!(!validate_ssn("123-45-678"));
    assert!(!validate_ssn("12a-45-6789"));
}

#[test]
fn emails_need_local_domain_and_tld() {
    assert!(validate_email("user@example.com"));
    assert!(validate_email("a.b+c_d%e@sub.example.co"));
    assert!(!validate_email("user@com"));
    assert!(!validate_email("@example.com"));
    assert!(!validate_email("user@example.c"));
    assert!(!validate_email("user@exam ple.com"));
    assert!(!validate_email("user example.com"));
}

#[test]
fn phones_match_the_international_shape_after_cleaning() {
    assert!(validate_phone("+14155552671"));
    assert!(validate_phone("415-555-2671"));
    assert!(validate_phone("(415) 555 2671"));
    assert!(!validate_phone("0123456"));
    assert!(!validate_phone("+1"));
    assert!(!validate_phone("12345678901234567890"));
    // only a leading `+` survives cleaning; later ones are dropped
    assert!(validate_phone("1+2"));
    assert!(validate_phone("5+5"));
    assert!(validate_phone("++12"));
    assert!(!validate_phone("+"));
    assert!(!validate_phone("words only"));
}

#[test]
fn postal_codes_dispatch_on_country() {
    assert!(validate_postal_code("90210", "US"));
    assert!(validate_postal_code("90210-1234", "us"));
    assert!(!validate_postal_code("9021", "US"));
    assert!(validate_postal_code("K1A 0B1", "CA"));
    assert!(!validate_postal_code("K1A0B1", "CA"));
    assert!(validate_postal_code("SW1A 1AA", "UK"));
    assert!(validate_postal_code("M1 1AE", "GB"));
    assert!(!validate_postal_code("sw1a 1aa", "UK"));
    assert!(validate_postal_code("90210", "ZZ"));
    assert!(!validate_postal_code("ab", "ZZ"));
    assert!(validate_postal_code("123 45", "SE"));
}
