use vstd::prelude::*;

verus! {

/// `A`-`Z` and `a`-`z`.
pub open spec fn is_alpha(c: char) -> bool {
    ('a' <= c && c <= 'z') || ('A' <= c && c <= 'Z')
}

/// `0`-`9`.
pub open spec fn is_digit(c: char) -> bool {
    '0' <= c && c <= '9'
}

/// `0`-`9`, `a`-`f` and `A`-`F`.
pub open spec fn is_hexdig(c: char) -> bool {
    is_digit(c) || ('a' <= c && c <= 'f') || ('A' <= c && c <= 'F')
}

pub open spec fn is_gen_delim(c: char) -> bool {
    c == ':' || c == '/' || c == '?' || c == '#' || c == '[' || c == ']' || c == '@'
}

pub open spec fn is_sub_delim(c: char) -> bool {
    c == '!' || c == '$' || c == '&' || c == '\'' || c == '(' || c == ')' || c == '*' || c == '+'
        || c == ',' || c == ';' || c == '='
}

pub open spec fn is_unreserved(c: char) -> bool {
    is_alpha(c) || is_digit(c) || c == '-' || c == '.' || c == '_' || c == '~'
}

/// The named character sets of the URI grammar.
#[derive(Debug, Clone, Copy, PartialEq, Eq, Structural)]
pub enum CharClass {
    Alpha,
    Digit,
    HexDig,
    GenDelims,
    SubDelims,
    Reserved,
    Unreserved,
    Scheme,
    UserInfo,
    IpFuture,
    Ip6,
    RegName,
    Path,
    Query,
    Fragment,
}

/// Whether `c` may stand unescaped where the class `k` is asked for.
pub open spec fn in_class(k: CharClass, c: char) -> bool {
    match k {
        CharClass::Alpha => is_alpha(c),
        CharClass::Digit => is_digit(c),
        CharClass::HexDig => is_hexdig(c),
        CharClass::GenDelims => is_gen_delim(c),
        CharClass::SubDelims => is_sub_delim(c),
        CharClass::Reserved => is_gen_delim(c) || is_sub_delim(c),
        CharClass::Unreserved => is_unreserved(c),
        CharClass::Scheme => is_alpha(c) || is_digit(c) || c == '+' || c == '-' || c == '.',
        CharClass::UserInfo => is_unreserved(c) || is_sub_delim(c),
        CharClass::IpFuture => is_unreserved(c) || is_sub_delim(c) || c == ':',
        CharClass::Ip6 => is_hexdig(c) || c == ':',
        CharClass::RegName => is_unreserved(c) || is_sub_delim(c),
        CharClass::Path | CharClass::Query | CharClass::Fragment => is_unreserved(c) || is_sub_delim(c)
            || c == ':' || c == '@' || c == '/' || c == '?',
    }
}

pub fn alpha(c: char) -> (r: bool)
    ensures
        r == is_alpha(c),
{
    ('a' <= c && c <= 'z') || ('A' <= c && c <= 'Z')
}

pub fn digit(c: char) -> (r: bool)
    ensures
        r == is_digit(c),
{
    '0' <= c && c <= '9'
}

pub fn hexdig(c: char) -> (r: bool)
    ensures
        r == is_hexdig(c),
{
    digit(c) || ('a' <= c && c <= 'f') || ('A' <= c && c <= 'F')
}

fn gen_delim(c: char) -> (r: bool)
    ensures
        r == is_gen_delim(c),
{
    c == ':' || c == '/' || c == '?' || c == '#' || c == '[' || c == ']' || c == '@'
}

fn sub_delim(c: char) -> (r: bool)
    ensures
        r == is_sub_delim(c),
{
    c == '!' || c == '$' || c == '&' || c == '\'' || c == '(' || c == ')' || c == '*' || c == '+'
        || c == ',' || c == ';' || c == '='
}

fn unreserved(c: char) -> (r: bool)
    ensures
        r == is_unreserved(c),
{
    alpha(c) || digit(c) || c == '-' || c == '.' || c == '_' || c == '~'
}

/// The value of a hexadecimal digit.
pub open spec fn hex_value(c: char) -> nat {
    if is_digit(c) {
        (c as u32 - '0' as u32) as nat
    } else if 'a' <= c && c <= 'f' {
        (c as u32 - 'a' as u32 + 10) as nat
    } else {
        (c as u32 - 'A' as u32 + 10) as nat
    }
}

/// The upper-case hexadecimal digit of a value below sixteen.
pub open spec fn hex_digit(n: nat) -> char {
    if n < 10 {
        (n + '0' as u32) as char
    } else {
        (n - 10 + 'A' as u32) as char
    }
}

pub fn hex_value_of(c: char) -> (r: u8)
    requires
        is_hexdig(c),
    ensures
        r as nat == hex_value(c),
        r < 16,
{
    if '0' <= c && c <= '9' {
        (c as u32 - '0' as u32) as u8
    } else if 'a' <= c && c <= 'f' {
        (c as u32 - 'a' as u32 + 10) as u8
    } else {
        (c as u32 - 'A' as u32 + 10) as u8
    }
}

pub fn hex_digit_of(n: u8) -> (r: char)
    requires
        n < 16,
    ensures
        r == hex_digit(n as nat),
        is_hexdig(r),
        hex_value(r) == n as nat,
{
    if n < 10 {
        (n + 48) as char
    } else {
        (n - 10 + 65) as char
    }
}

impl CharClass {
    /// Whether `c` belongs to this class.
    pub fn contains(&self, c: char) -> (r: bool)
        ensures
            r == in_class(*self, c),
    {
        match self {
            CharClass::Alpha => alpha(c),
            CharClass::Digit => digit(c),
            CharClass::HexDig => hexdig(c),
            CharClass::GenDelims => gen_delim(c),
            CharClass::SubDelims => sub_delim(c),
            CharClass::Reserved => gen_delim(c) || sub_delim(c),
            CharClass::Unreserved => unreserved(c),
            CharClass::Scheme => alpha(c) || digit(c) || c == '+' || c == '-' || c == '.',
            CharClass::UserInfo => unreserved(c) || sub_delim(c),
            CharClass::IpFuture => unreserved(c) || sub_delim(c) || c == ':',
            CharClass::Ip6 => hexdig(c) || c == ':',
            CharClass::RegName => unreserved(c) || sub_delim(c),
            CharClass::Path | CharClass::Query | CharClass::Fragment => unreserved(c) || sub_delim(c)
                || c == ':' || c == '@' || c == '/' || c == '?',
        }
    }
}

} // verus!
