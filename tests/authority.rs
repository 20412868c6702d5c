use uri::{Authority, Error};

fn auth(userinfo: Option<&str>, host: Option<&str>, port: Option<u16>) -> Option<Authority> {
    Some(Authority {
        userinfo: userinfo.map(String::from),
        host: host.map(String::from),
        port,
    })
}

#[test]
fn parse_ok() {
    let cases = [
        ("example.com", auth(None, Some("example.com"), None)),
        ("user@example.com", auth(Some("user"), Some("example.com"), None)),
        ("user@example.com:8080", auth(Some("user"), Some("example.com"), Some(8080))),
        ("example.com:8080", auth(None, Some("example.com"), Some(8080))),
        ("@example.com:8080", auth(None, Some("example.com"), Some(8080))),
        ("example.com:", auth(None, Some("example.com"), None)),
        ("user@:8080", auth(Some("user"), None, Some(8080))),
    ];
    for (case, expected) in cases {
        assert_eq!(Authority::parse(case).unwrap(), expected);
    }
}

#[test]
fn parse_special_characters_ok() {
    let cases = [
        (
            "[2001:db8:3333:4444:5555:6666:7777:8888]",
            auth(None, Some("[2001:db8:3333:4444:5555:6666:7777:8888]"), None),
        ),
        (
            "user@[2001:db8:3333::5555:6666:7777:8888]:8080",
            auth(Some("user"), Some("[2001:db8:3333::5555:6666:7777:8888]"), Some(8080)),
        ),
        ("127.0.0.1", auth(None, Some("127.0.0.1"), None)),
        ("127.0.0.1:8080", auth(None, Some("127.0.0.1"), Some(8080))),
        ("[v7.aaaa:bbbb:cccc::]", auth(None, Some("[v7.aaaa:bbbb:cccc::]"), None)),
        ("[v7.aaaa:bbbb:cccc::]:8080", auth(None, Some("[v7.aaaa:bbbb:cccc::]"), Some(8080))),
        ("user+@example.com+:8080", auth(Some("user+"), Some("example.com+"), Some(8080))),
        ("www.example().com:", auth(None, Some("www.example().com"), None)),
        ("user=@:8080", auth(Some("user="), None, Some(8080))),
    ];
    for (case, expected) in cases {
        assert_eq!(Authority::parse(case).unwrap(), expected);
    }
}

#[test]
fn parse_pe_characters_ok() {
    let cases = [
        (
            "u%73er@[2001:db8:3333:4444:5555:6666:7777:8888]",
            auth(Some("user"), Some("[2001:db8:3333:4444:5555:6666:7777:8888]"), None),
        ),
        ("user%23@example.com%3F:8080", auth(Some("user#"), Some("example.com?"), Some(8080))),
    ];
    for (case, expected) in cases {
        assert_eq!(Authority::parse(case).unwrap(), expected);
    }
}

#[test]
fn parse_err() {
    let cases = [
        ("user:@[2001:db8:3333:4444:5555:6666:7777:8888]", Error::UserinfoIllegalCharacter),
        ("user#@example.com:8080", Error::UserinfoIllegalCharacter),
        ("user@example.com?:8080", Error::HostIllegalCharacter),
        ("user@example.com:80%50", Error::ParsePortError),
        ("[2001:db8:3333:4444:5555:6666:7777::8888]", Error::IllegalIPv6),
        ("[2001:db8:3333:4444:5555:6666:7777]", Error::IllegalIPv6),
        ("[vX.::]", Error::IllegalIPvFuture),
    ];
    for (case, expected) in cases {
        assert_eq!(Authority::parse(case).err().unwrap(), expected);
    }
}

#[test]
fn parse_empty_and_bare_delimiters_give_none() {
    assert_eq!(Authority::parse("").unwrap(), None);
    assert_eq!(Authority::parse("@").unwrap(), None);
    assert_eq!(Authority::parse(":").unwrap(), None);
    assert_eq!(Authority::parse("@:").unwrap(), None);
}

#[test]
fn parse_user_with_port_only() {
    let a = Authority::parse("user@:8080").unwrap().unwrap();
    assert_eq!(a.userinfo(), Some("user"));
    assert_eq!(a.host(), None);
    assert_eq!(a.port(), Some(8080));
}

#[test]
fn parse_splits_at_last_at_sign() {
    assert_eq!(Authority::parse("a@b@host").err().unwrap(), Error::UserinfoIllegalCharacter);
    assert_eq!(
        Authority::parse("a%40b@host").unwrap(),
        auth(Some("a@b"), Some("host"), None)
    );
}

#[test]
fn parse_port_limits() {
    assert_eq!(Authority::parse("h:0").unwrap(), auth(None, Some("h"), Some(0)));
    assert_eq!(Authority::parse("h:65535").unwrap(), auth(None, Some("h"), Some(65535)));
    assert_eq!(Authority::parse("h:65536").err().unwrap(), Error::ParsePortError);
    assert_eq!(Authority::parse("h:+80").err().unwrap(), Error::ParsePortError);
    assert_eq!(Authority::parse("h:8a").err().unwrap(), Error::ParsePortError);
    assert_eq!(Authority::parse("h:0080").unwrap(), auth(None, Some("h"), Some(80)));
}

#[test]
fn parse_bracket_errors() {
    assert_eq!(Authority::parse("[::1").err().unwrap(), Error::IllegalHostDefinition);
    assert_eq!(Authority::parse("[::1]x:80").err().unwrap(), Error::IllegalHostDefinition);
    assert_eq!(Authority::parse("[:]").err().unwrap(), Error::IllegalHostDefinition);
    assert_eq!(Authority::parse("[::]").unwrap(), auth(None, Some("[::]"), None));
    assert_eq!(Authority::parse("[V1.x]:1").unwrap(), auth(None, Some("[V1.x]"), Some(1)));
}

#[test]
fn stringify_parts() {
    let a = Authority {
        userinfo: Some(String::from("us er")),
        host: Some(String::from("exa mple.com")),
        port: Some(8080),
    };
    assert_eq!(a.stringify().unwrap(), Some(String::from("us%20er@exa%20mple.com:8080")));
    let literal = Authority { userinfo: None, host: Some(String::from("[::1]")), port: Some(7) };
    assert_eq!(literal.stringify().unwrap(), Some(String::from("[::1]:7")));
    let empty = Authority { userinfo: None, host: None, port: None };
    assert_eq!(empty.stringify().unwrap(), None);
    let port_only = Authority { userinfo: None, host: None, port: Some(0) };
    assert_eq!(port_only.stringify().unwrap(), Some(String::from(":0")));
}

#[test]
fn stringify_rejects_non_ascii() {
    let a = Authority { userinfo: Some(String::from("\u{e9}")), host: None, port: None };
    assert_eq!(a.stringify(), Err(Error::IllegalCharacter));
    let b = Authority { userinfo: None, host: Some(String::from("h\u{e9}")), port: None };
    assert_eq!(b.stringify(), Err(Error::IllegalCharacter));
}

#[test]
fn stringify_escapes_registered_name_starting_with_bracket() {
    let a = Authority::parse("%5Bab").unwrap().unwrap();
    assert_eq!(a.host(), Some("[ab"));
    let text = a.stringify().unwrap().unwrap();
    assert_eq!(text, String::from("%5Bab"));
    assert_eq!(Authority::parse(&text).unwrap(), Some(a));
}

#[test]
fn stringify_then_parse_gives_same_authority() {
    for t in ["u%73er@h:080", "%5Bv7.x%5D", "[v7.x]:1", "a%40b@[::1]", "u@", ":0", "h%3A"] {
        let a = Authority::parse(t).unwrap().unwrap();
        let text = a.stringify().unwrap().unwrap();
        assert_eq!(Authority::parse(&text).unwrap(), Some(a));
    }
}
