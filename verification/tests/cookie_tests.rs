use cookie_codec::cookies::{expired, persistent, session};
use cookie_codec::parse;

#[test]
fn parse_success() {
    struct Test {
        name: &'static str,
        cookie: &'static str,
        expected: Vec<(&'static str, &'static str)>,
    }

    let test_cases = [
        Test { name: "empty cookie", cookie: "", expected: vec![] },
        Test { name: "a single value", cookie: "key1=val1", expected: vec![("key1", "val1")] },
        Test {
            name: "two values",
            cookie: "key1=val1; key2=val2",
            expected: vec![("key1", "val1"), ("key2", "val2")],
        },
    ];

    for test_case in test_cases.iter() {
        let res = parse(test_case.cookie);

        assert_eq!(res.len(), test_case.expected.len(), "Test with '{}' failed", test_case.name);
        for (key, value) in test_case.expected.iter() {
            assert_eq!(
                res.get(key),
                Some(value.to_string()),
                "Test with '{}' failed",
                test_case.name
            );
        }
    }
}

#[test]
fn parse_drops_segment_without_equals() {
    let res = parse("key1=val1; garbage; key2=val2");
    assert_eq!(res.len(), 2);
    assert_eq!(res.get("key1"), Some("val1".to_string()));
    assert_eq!(res.get("key2"), Some("val2".to_string()));
    assert_eq!(res.get("garbage"), None);
}

#[test]
fn parse_strips_secure_prefix() {
    let res = parse("__Secure-session=tok123");
    assert_eq!(res.len(), 1);
    assert_eq!(res.get("session"), Some("tok123".to_string()));
    assert_eq!(res.get("__Secure-session"), None);
}

#[test]
fn parse_trims_whitespace() {
    let res = parse(" key = val ");
    assert_eq!(res.len(), 1);
    assert_eq!(res.get("key"), Some("val".to_string()));
}

#[test]
fn parse_later_pair_wins() {
    let res = parse("a=1; a=2");
    assert_eq!(res.len(), 1);
    assert_eq!(res.get("a"), Some("2".to_string()));
}

#[test]
fn parse_empty_value_and_embedded_equals() {
    let res = parse("k=; q=a=b");
    assert_eq!(res.len(), 2);
    assert_eq!(res.get("k"), Some(String::new()));
    assert_eq!(res.get("q"), Some("a=b".to_string()));
}

#[test]
fn persistent_formats_header() {
    assert_eq!(
        persistent("id", "abc", 3600),
        "__Secure-id=abc; Max-Age=3600; Path=/; SameSite=Lax; Secure; HttpOnly"
    );
}

#[test]
fn persistent_renders_zero_and_large_max_age() {
    assert_eq!(
        persistent("id", "abc", 0),
        "__Secure-id=abc; Max-Age=0; Path=/; SameSite=Lax; Secure; HttpOnly"
    );
    assert_eq!(
        persistent("id", "abc", u32::MAX),
        "__Secure-id=abc; Max-Age=4294967295; Path=/; SameSite=Lax; Secure; HttpOnly"
    );
}

#[test]
fn expired_formats_header() {
    assert_eq!(
        expired("id"),
        "__Secure-id=expired; Max-Age=0; Path=/; SameSite=Lax; Secure; HttpOnly"
    );
}

#[test]
fn session_formats_header() {
    assert_eq!(session("id", "abc"), "__Secure-id=abc; Path=/; SameSite=Lax; Secure; HttpOnly");
}

#[test]
fn session_round_trips_through_parse() {
    let header = session("sid", "token42");
    let res = parse(&header);
    assert_eq!(res.get("sid"), Some("token42".to_string()));
}

#[test]
fn well_formed_header_decodes_to_trimmed_pairs() {
    let res = parse("alpha=one; beta= two ; gamma=three");
    assert_eq!(res.len(), 3);
    assert_eq!(res.get("alpha"), Some("one".to_string()));
    assert_eq!(res.get("beta"), Some("two".to_string()));
    assert_eq!(res.get("gamma"), Some("three".to_string()));
}
