use vstd::prelude::*;

verus! {

/// Every way in which parsing or serialising a URI can fail.
#[derive(Debug, Clone, Copy, PartialEq, Eq, Structural)]
pub enum Error {
    EmptyScheme,
    EmptyAuthority,
    ParsePortError,
    SchemeIllegalFirstCharacter,
    SchemeIllegalCharacter,
    UserinfoIllegalCharacter,
    IllegalHostDefinition,
    IllegalIPvFuture,
    IllegalIPv6,
    HostIllegalCharacter,
    PathIllegalStart,
    PathIllegalCharacter,
    QueryIllegalCharacter,
    FragmentIllegalCharacter,
    IllegalCharacter,
    IllegalPercentEncoding,
    QueryKeyAlreadyExists,
}

/// A sentence that describes the error.
pub open spec fn error_message(e: Error) -> Seq<char> {
    match e {
        Error::EmptyScheme => "Empty Scheme not allowed."@,
        Error::SchemeIllegalFirstCharacter => "Illegal first charater in Scheme."@,
        Error::SchemeIllegalCharacter => "Illegal charater in Scheme."@,
        Error::EmptyAuthority => "Authority is empty while indicating its existing."@,
        Error::ParsePortError => "Port is not a integer 'u16'."@,
        Error::IllegalCharacter => "Found a invalid character."@,
        Error::IllegalPercentEncoding => "Illegal character after '%'."@,
        Error::UserinfoIllegalCharacter => "Illegal character in userinfo."@,
        Error::IllegalHostDefinition => "Host syntax is invalid."@,
        Error::IllegalIPvFuture => "IPvFuture syntax is invalid."@,
        Error::IllegalIPv6 => "IPv6 syntax is invalid."@,
        Error::HostIllegalCharacter => "Illegal character in Host."@,
        Error::PathIllegalStart => "Path can't start with '//'."@,
        Error::PathIllegalCharacter => "Illegal character in Path."@,
        Error::QueryIllegalCharacter => "Illegal character in Query."@,
        Error::FragmentIllegalCharacter => "Illegal character in Fragment."@,
        Error::QueryKeyAlreadyExists => "Query key already exists."@,
    }
}

impl Error {
    /// A sentence that describes this error.
    pub fn message(&self) -> (r: &'static str)
        ensures
            r@ == error_message(*self),
    {
        match self {
            Error::EmptyScheme => "Empty Scheme not allowed.",
            Error::SchemeIllegalFirstCharacter => "Illegal first charater in Scheme.",
            Error::SchemeIllegalCharacter => "Illegal charater in Scheme.",
            Error::EmptyAuthority => "Authority is empty while indicating its existing.",
            Error::ParsePortError => "Port is not a integer 'u16'.",
            Error::IllegalCharacter => "Found a invalid character.",
            Error::IllegalPercentEncoding => "Illegal character after '%'.",
            Error::UserinfoIllegalCharacter => "Illegal character in userinfo.",
            Error::IllegalHostDefinition => "Host syntax is invalid.",
            Error::IllegalIPvFuture => "IPvFuture syntax is invalid.",
            Error::IllegalIPv6 => "IPv6 syntax is invalid.",
            Error::HostIllegalCharacter => "Illegal character in Host.",
            Error::PathIllegalStart => "Path can't start with '//'.",
            Error::PathIllegalCharacter => "Illegal character in Path.",
            Error::QueryIllegalCharacter => "Illegal character in Query.",
            Error::FragmentIllegalCharacter => "Illegal character in Fragment.",
            Error::QueryKeyAlreadyExists => "Query key already exists.",
        }
    }
}

} // verus!
