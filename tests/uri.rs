use uri::{Authority, Error, Uri};

fn s(x: &str) -> Option<String> {
    Some(String::from(x))
}

fn auth(userinfo: Option<&str>, host: Option<&str>, port: Option<u16>) -> Option<Authority> {
    Some(Authority {
        userinfo: userinfo.map(String::from),
        host: host.map(String::from),
        port,
    })
}

fn uri(
    scheme: Option<String>,
    authority: Option<Authority>,
    path: &str,
    query: Option<String>,
    fragment: Option<String>,
) -> Uri {
    Uri { scheme, authority, path: String::from(path), query, fragment }
}

#[test]
fn uri_parse_ok() {
    let cases = [
        ("http:", uri(s("http"), None, "", None, None)),
        ("http://example.com", uri(s("http"), auth(None, Some("example.com"), None), "", None, None)),
        (
            "http://user@example.com",
            uri(s("http"), auth(Some("user"), Some("example.com"), None), "", None, None),
        ),
        (
            "http://user@example.com:8080",
            uri(s("http"), auth(Some("user"), Some("example.com"), Some(8080)), "", None, None),
        ),
        (
            "http://user@example.com:8080?name=bob",
            uri(
                s("http"),
                auth(Some("user"), Some("example.com"), Some(8080)),
                "",
                s("name=bob"),
                None,
            ),
        ),
        (
            "http://user@example.com:8080/this/is/a/path?name=bob",
            uri(
                s("http"),
                auth(Some("user"), Some("example.com"), Some(8080)),
                "/this/is/a/path",
                s("name=bob"),
                None,
            ),
        ),
        (
            "http://user@example.com:8080?name=bob#page3",
            uri(
                s("http"),
                auth(Some("user"), Some("example.com"), Some(8080)),
                "",
                s("name=bob"),
                s("page3"),
            ),
        ),
        (
            "urn:oasis:names:specification:docbook:dtd:xml:4.1.2",
            uri(s("urn"), None, "oasis:names:specification:docbook:dtd:xml:4.1.2", None, None),
        ),
        (
            "mailto:John.Doe@example.com",
            uri(s("mailto"), None, "John.Doe@example.com", None, None),
        ),
        (
            "telnet://192.0.2.16:80/",
            uri(s("telnet"), auth(None, Some("192.0.2.16"), Some(80)), "/", None, None),
        ),
        (
            "http://user@[2001:db8:3333::5555:6666:7777:8888]:8080",
            uri(
                s("http"),
                auth(Some("user"), Some("[2001:db8:3333::5555:6666:7777:8888]"), Some(8080)),
                "",
                None,
                None,
            ),
        ),
    ];
    for (case, expected) in cases {
        assert_eq!(Uri::parse(&String::from(case)).unwrap(), expected);
    }
}

#[test]
fn uri_parse_err() {
    for case in [":", "://example.com", ":/api/v2/test"] {
        assert_eq!(Uri::parse(&String::from(case)).err().unwrap(), Error::EmptyScheme);
    }
}

#[test]
fn uri_parse_scheme_ok() {
    let cases = [
        ("http:", s("http")),
        ("http+:", s("http+")),
        ("http.:", s("http.")),
        ("HttP:", s("http")),
        ("http://example.com", s("http")),
        ("http:/this/is/a/path", s("http")),
        ("//example.com", None),
        ("/this/is/a/path", None),
        ("abc/xyz", None),
    ];
    for (case, expected) in cases {
        assert_eq!(Uri::parse(case).unwrap().scheme().map(|x| x.to_owned()), expected);
    }
}

#[test]
fn uri_parse_scheme_err() {
    let cases = [
        (":", Error::EmptyScheme),
        ("://example.com", Error::EmptyScheme),
        ("1ttp://example.com", Error::SchemeIllegalFirstCharacter),
        ("http%70://example.com", Error::SchemeIllegalCharacter),
        ("http%70://example.com", Error::SchemeIllegalCharacter),
        ("http%70://example.com", Error::SchemeIllegalCharacter),
        ("http#://example.com", Error::SchemeIllegalCharacter),
    ];
    for (case, expected) in cases {
        assert_eq!(Uri::parse(case).unwrap_err(), expected);
    }
}

#[test]
fn uri_parse_path_ok() {
    let cases = [
        ("http:", ""),
        ("http://example.com", ""),
        ("http://example.com/", "/"),
        ("http://example.com/this/is/a/path", "/this/is/a/path"),
        ("http://example.com/this/is/a/path/", "/this/is/a/path/"),
        ("http://example.com/this/is//path", "/this/is//path"),
        ("http:/this/is/a/path", "/this/is/a/path"),
        ("//user@:/this/is/a/path", "/this/is/a/path"),
        ("http:/this/is/a/(path)", "/this/is/a/(path)"),
        ("http:/this/is%20a/(path)", "/this/is a/(path)"),
        ("//example.com/this/is/a/path", "/this/is/a/path"),
        ("/this/is/a/relativ/path", "/this/is/a/relativ/path"),
        ("/", "/"),
        ("", ""),
        ("//example.com/", "/"),
        ("./this:that", "./this:that"),
    ];
    for (case, expected) in cases {
        assert_eq!(Uri::parse(case).unwrap().path().to_owned(), String::from(expected));
    }
}

#[test]
fn uri_parse_path_err() {
    let cases = [
        ("http://example.com//test", Error::PathIllegalStart),
        ("//example.com/[test/12", Error::PathIllegalCharacter),
        ("//example.com/test]/34", Error::PathIllegalCharacter),
        ("//example.com/[test]/56", Error::PathIllegalCharacter),
    ];
    for (case, expected) in cases {
        assert_eq!(Uri::parse(case).unwrap_err(), expected);
    }
}

#[test]
fn uri_parse_query_ok() {
    let cases = [
        ("http:", None),
        ("http://example.com", None),
        ("http://example.com?", s("")),
        ("http://example.com?name", s("name")),
        ("http://example.com?name=", s("name=")),
        ("http://example.com?name=bob", s("name=bob")),
        ("http://example.com?name=bob&age=21", s("name=bob&age=21")),
        ("http://example.com?name=bob&age=21#page1", s("name=bob&age=21")),
        ("http://example.com?#page1", s("")),
        ("http://example.com?:/abc", s(":/abc")),
        ("http://example.com?(xyz)/", s("(xyz)/")),
    ];
    for (case, expected) in cases {
        assert_eq!(Uri::parse(case).unwrap().query().map(|x| x.to_owned()), expected);
    }
}

#[test]
fn uri_stringify_ok() {
    let cases = [
        ("http://example.com:8080", "http://example.com:8080"),
        ("http://example.com:8080/", "http://example.com:8080/"),
        ("http://user@example.com:8080", "http://user@example.com:8080"),
        ("http://user@example.com:8080/this/is/a/path", "http://user@example.com:8080/this/is/a/path"),
        (
            "http://user@example.com:8080/this/is/a/path?name=tom",
            "http://user@example.com:8080/this/is/a/path?name=tom",
        ),
        (
            "http://user@example.com:8080/this/is/a/path?name=tom#page3",
            "http://user@example.com:8080/this/is/a/path?name=tom#page3",
        ),
        (
            "http://user@example.com:8080/this/is%20a/path?name=tom#page3",
            "http://user@example.com:8080/this/is%20a/path?name=tom#page3",
        ),
        (
            "http://[2001:0db8:85a3:0000:0000:8a2e:0370:7334]:8080/this/is%20a/path?name=tom#page3",
            "http://[2001:0db8:85a3:0000:0000:8a2e:0370:7334]:8080/this/is%20a/path?name=tom#page3",
        ),
        (
            "//[2001:0db8:85a3:0000:0000:8a2e:0370:7334]:8080/this/is%20a/path?name=tom#page3",
            "//[2001:0db8:85a3:0000:0000:8a2e:0370:7334]:8080/this/is%20a/path?name=tom#page3",
        ),
        ("//:8080/this/is%20a/path?name=tom#page3", "//:8080/this/is%20a/path?name=tom#page3"),
        ("//:/this/is%20a/path?name=tom#page3", "/this/is%20a/path?name=tom#page3"),
        ("//:/this/is%20a/path?name=tom#", "/this/is%20a/path?name=tom#"),
        ("/this/is%20a/path?", "/this/is%20a/path?"),
        ("/this/is%20a/path", "/this/is%20a/path"),
    ];
    for (case, expected) in cases {
        assert_eq!(Uri::parse(case).unwrap().stringify().unwrap(), String::from(expected));
    }
}

#[test]
fn uri_full_scenario() {
    let u = Uri::parse("http://user@example.com:8080/this/is/a/path?name=bob#page3").unwrap();
    assert_eq!(u.scheme(), Some("http"));
    assert_eq!(u.userinfo(), Some("user"));
    assert_eq!(u.host(), Some("example.com"));
    assert_eq!(u.port(), Some(8080));
    assert_eq!(u.path(), "/this/is/a/path");
    assert_eq!(u.query(), Some("name=bob"));
    assert_eq!(u.fragment, s("page3"));
}

#[test]
fn uri_double_slash_path_is_rejected() {
    assert_eq!(Uri::parse("http://example.com//test").unwrap_err(), Error::PathIllegalStart);
}

#[test]
fn uri_ip_literal_errors() {
    assert_eq!(Uri::parse("//[vX.::]").unwrap_err(), Error::IllegalIPvFuture);
    assert_eq!(
        Uri::parse("//[2001:db8:3333:4444:5555:6666:7777::8888]").unwrap_err(),
        Error::IllegalIPv6
    );
}

#[test]
fn uri_percent_encoded_userinfo() {
    let u = Uri::parse("//u%73er@example.com").unwrap();
    assert_eq!(u.userinfo(), Some("user"));
    assert_eq!(u.host(), Some("example.com"));
    let a = Authority::parse("u%73er@example.com").unwrap().unwrap();
    assert_eq!(a.userinfo(), Some("user"));
}

#[test]
fn uri_empty_is_relative_reference() {
    assert_eq!(Uri::parse("").unwrap(), uri(None, None, "", None, None));
    assert_eq!(Uri::parse("").unwrap().stringify().unwrap(), String::from(""));
}

#[test]
fn uri_empty_authority() {
    assert_eq!(Uri::parse("//").unwrap_err(), Error::EmptyAuthority);
    assert_eq!(Uri::parse("http:///path").unwrap_err(), Error::EmptyAuthority);
}

#[test]
fn uri_component_errors() {
    assert_eq!(Uri::parse("a:b?x y").unwrap_err(), Error::QueryIllegalCharacter);
    assert_eq!(Uri::parse("a:b#x y").unwrap_err(), Error::FragmentIllegalCharacter);
    assert_eq!(Uri::parse("a:b c").unwrap_err(), Error::PathIllegalCharacter);
    assert_eq!(Uri::parse("a:b%G0").unwrap_err(), Error::IllegalPercentEncoding);
    assert_eq!(Uri::parse("//h:x").unwrap_err(), Error::ParsePortError);
    assert_eq!(Uri::parse("//h h").unwrap_err(), Error::HostIllegalCharacter);
    assert_eq!(Uri::parse("//[::1").unwrap_err(), Error::IllegalHostDefinition);
    assert_eq!(Uri::parse("//u^@h").unwrap_err(), Error::UserinfoIllegalCharacter);
}

#[test]
fn uri_fragment_split_at_last_hash() {
    assert_eq!(Uri::parse("a:b#c#d").unwrap_err(), Error::PathIllegalCharacter);
    assert_eq!(Uri::parse("a:b?c#d").unwrap().fragment, s("d"));
}

#[test]
fn uri_round_trip_lowercases_scheme() {
    let text = "HTTP://user@example.com:8080/a/b?x=1#frag";
    assert_eq!(
        Uri::parse(text).unwrap().stringify().unwrap(),
        String::from("http://user@example.com:8080/a/b?x=1#frag")
    );
    for text in ["mailto:a@b.c", "//h/p", "/p?q#f", "s:", "urn:x:y", "http://[v1.a]:9/x"] {
        assert_eq!(Uri::parse(text).unwrap().stringify().unwrap(), String::from(text));
    }
}

#[test]
fn uri_stringify_rejects_non_ascii() {
    let u = uri(None, None, "/\u{e9}", None, None);
    assert_eq!(u.stringify(), Err(Error::IllegalCharacter));
    let v = uri(s("h\u{e9}"), None, "", None, None);
    assert_eq!(v.stringify(), Err(Error::IllegalCharacter));
}

#[test]
fn uri_stringify_encodes_components() {
    let u = uri(s("http"), None, "/a b", s("x y"), s("f g"));
    assert_eq!(u.stringify().unwrap(), String::from("http:/a%20b?x%20y#f%20g"));
}

#[test]
fn uri_round_trip_with_escapes() {
    for text in [
        "http://us%20er@ex%20ample.com:80/a%20b/c?d%23e#f%25",
        "//[::1]:65535/%5B%5D",
        "s:?#",
    ] {
        assert_eq!(Uri::parse(text).unwrap().stringify().unwrap(), String::from(text));
    }
}

#[test]
fn uri_stringify_drops_empty_parts() {
    assert_eq!(Uri::parse("//@host").unwrap().stringify().unwrap(), String::from("//host"));
    assert_eq!(Uri::parse("//host:").unwrap().stringify().unwrap(), String::from("//host"));
    assert_eq!(Uri::parse("//h:080").unwrap().stringify().unwrap(), String::from("//h:80"));
    assert_eq!(Uri::parse("/%2f").unwrap().stringify().unwrap(), String::from("//"));
    assert_eq!(Uri::parse("/%73").unwrap().stringify().unwrap(), String::from("/s"));
}

#[test]
fn uri_path_may_hold_question_mark_once_decoded() {
    let u = Uri::parse("/a%3Fb").unwrap();
    assert_eq!(u.path(), "/a?b");
}

#[test]
fn uri_round_trip_registered_name_starting_with_bracket() {
    assert_eq!(Uri::parse("//%5Bab").unwrap().stringify().unwrap(), String::from("//%5Bab"));
    assert_eq!(Uri::parse("//%5Bab/p?q").unwrap().stringify().unwrap(), String::from("//%5Bab/p?q"));
}
