use uri::{CharClass, Decoder, Encoder, Error};

fn encode(s: &str, class: CharClass) -> Result<String, Error> {
    Encoder::new(s.chars().collect(), class).encode()
}

fn decode(s: &str, class: CharClass) -> Result<String, Error> {
    Decoder::new(s.chars().collect(), class).decode()
}

#[test]
fn encoder_decode_ok() {
    let cases = [
        ("A", CharClass::Alpha, "A"),
        ("Hello World!", CharClass::Alpha, "Hello%20World%21"),
        (" ", CharClass::Alpha, "%20"),
        ("-", CharClass::Alpha, "%2D"),
        ("%", CharClass::Alpha, "%25"),
        ("ABCDEF", CharClass::Digit, "%41%42%43%44%45%46"),
        ("12345", CharClass::Alpha, "%31%32%33%34%35"),
        ("\u{7F}", CharClass::Alpha, "%7F"),
    ];
    for (case, class, expected) in cases {
        assert_eq!(encode(case, class), Ok(String::from(expected)));
    }
}

#[test]
fn encoder_decode_err() {
    assert_eq!(encode("\u{81}", CharClass::Alpha), Err(Error::IllegalCharacter));
}

#[test]
fn decoder_decode_ok() {
    let cases = [
        (
            "abcdefghijklmnopqrstuvwxyzABCDEFGHIJKLMNOPQRSTUVWXYZ",
            CharClass::Alpha,
            "abcdefghijklmnopqrstuvwxyzABCDEFGHIJKLMNOPQRSTUVWXYZ",
        ),
        ("1234567890", CharClass::Digit, "1234567890"),
        (":/?#[]@", CharClass::GenDelims, ":/?#[]@"),
        ("!$&'()*+,;='", CharClass::SubDelims, "!$&'()*+,;='"),
        ("%20", CharClass::Alpha, " "),
        ("%2B%2D", CharClass::Digit, "+-"),
        ("%0A", CharClass::GenDelims, "\n"),
        ("Hello%20World", CharClass::Alpha, "Hello World"),
        ("Hello%20World%21", CharClass::Alpha, "Hello World!"),
        ("Hello%0AWorld%21", CharClass::Alpha, "Hello\nWorld!"),
        ("%00", CharClass::GenDelims, "\u{0}"),
        ("%7F", CharClass::GenDelims, "\u{7f}"),
    ];
    for (case, class, expected) in cases {
        assert_eq!(decode(case, class).unwrap(), String::from(expected));
    }
}

#[test]
fn decoder_decode_err() {
    let cases = [
        (
            "abcdefghijklmnopqrstuvwxyzABCDEFGHIJKLMNOPQRSTUVWXYZ!",
            CharClass::Alpha,
            Error::IllegalCharacter,
        ),
        ("1234567890!", CharClass::Digit, Error::IllegalCharacter),
        (":/?#[]@!", CharClass::GenDelims, Error::IllegalCharacter),
        ("!$&'()*+,;='A", CharClass::SubDelims, Error::IllegalCharacter),
        ("%8F", CharClass::Alpha, Error::IllegalPercentEncoding),
        ("%A", CharClass::Alpha, Error::IllegalPercentEncoding),
        ("%8%20", CharClass::Alpha, Error::IllegalPercentEncoding),
        ("%", CharClass::Alpha, Error::IllegalPercentEncoding),
        ("Hello%2", CharClass::Alpha, Error::IllegalPercentEncoding),
        ("Hello%20World!", CharClass::Alpha, Error::IllegalCharacter),
        ("Hello%AWorld%21", CharClass::Alpha, Error::IllegalPercentEncoding),
    ];
    for (case, class, expected) in cases {
        assert_eq!(decode(case, class).err().unwrap(), expected);
    }
}

#[test]
fn encode_pads_with_zero() {
    assert_eq!(encode("\r", CharClass::Alpha), Ok(String::from("%0D")));
    assert_eq!(encode("\u{0}", CharClass::Alpha), Ok(String::from("%00")));
    assert_eq!(encode("", CharClass::Alpha), Ok(String::from("")));
}

#[test]
fn decode_lower_case_hex_digits() {
    assert_eq!(decode("%2f%7e", CharClass::Alpha), Ok(String::from("/~")));
}

#[test]
fn decode_then_encode_round_trip() {
    let text = "a b/c?d#e%f\u{7f}\t";
    for class in [CharClass::Alpha, CharClass::Path, CharClass::Query, CharClass::RegName] {
        let e = encode(text, class).unwrap();
        assert_eq!(decode(&e, class), Ok(String::from(text)));
    }
}

#[test]
fn decode_twice_gives_same_result() {
    let mut d = Decoder::new("a%20b".chars().collect(), CharClass::Alpha);
    let first = d.decode();
    assert_eq!(first, Ok(String::from("a b")));
    assert_eq!(d.decode(), first);
    let mut bad = Decoder::new("a!".chars().collect(), CharClass::Alpha);
    let first = bad.decode();
    assert_eq!(first, Err(Error::IllegalCharacter));
    assert_eq!(bad.decode(), first);
}

#[test]
fn encode_twice_gives_same_result() {
    let mut e = Encoder::new("a b".chars().collect(), CharClass::Alpha);
    let first = e.encode();
    assert_eq!(first, Ok(String::from("a%20b")));
    assert_eq!(e.encode(), first);
}

#[test]
fn error_messages() {
    assert_eq!(Error::EmptyScheme.message(), "Empty Scheme not allowed.");
    assert_eq!(Error::PathIllegalStart.message(), "Path can't start with '//'.");
}
