use vstd::prelude::*;

use crate::classes::{digit, hex_digit, hex_digit_of, in_class, is_digit, CharClass};
use crate::coder::{
    decode_as, decoded, encode_str, encoded, escape_all, escapes_canonical, lemma_decode_encode,
    lemma_decoded_ascii, lemma_encode_decoded, lemma_escape_all_chars, remapped, result_view,
};
use crate::text::{first_at, last_at, lemma_first_at, lemma_last_at};
use crate::err::Error;
use crate::ip::{is_ipv6, is_ipvfuture, is_valid_ip_v6, is_valid_ip_v_future, lemma_ipv6_chars};
use crate::text::{find_char, find_first, find_last, rfind_char};

verus! {

/// What an authority holds: userinfo and host as decoded text, and the port.
pub ghost struct AuthorityView {
    pub userinfo: Option<Seq<char>>,
    pub host: Option<Seq<char>>,
    pub port: Option<u16>,
}

/// `[userinfo@]host[:port]`.
#[derive(Debug)]
pub struct Authority {
    pub userinfo: Option<String>,
    pub host: Option<String>,
    pub port: Option<u16>,
}

pub open spec fn opt_view<T: View<V = Seq<char>>>(o: Option<T>) -> Option<Seq<char>> {
    match o {
        Some(x) => Some(x@),
        None => None,
    }
}

impl View for Authority {
    type V = AuthorityView;

    open spec fn view(&self) -> AuthorityView {
        AuthorityView { userinfo: opt_view(self.userinfo), host: opt_view(self.host), port: self.port }
    }
}

pub open spec fn authority_result_view(r: Result<Option<Authority>, Error>) -> Result<Option<AuthorityView>, Error> {
    match r {
        Ok(Some(a)) => Ok(Some(a@)),
        Ok(None) => Ok(None),
        Err(e) => Err(e),
    }
}

/// `s`, or nothing where it is empty.
pub open spec fn non_empty(s: Seq<char>) -> Option<Seq<char>> {
    if s.len() == 0 {
        None
    } else {
        Some(s)
    }
}

/// Userinfo and the rest, split at the last `@`.
pub open spec fn userinfo_split(a: Seq<char>) -> (Option<Seq<char>>, Option<Seq<char>>) {
    match find_last(a, '@') {
        None => (None, Some(a)),
        Some(k) => (non_empty(a.subrange(0, k)), non_empty(a.subrange(k + 1, a.len() as int))),
    }
}

pub open spec fn starts_with_bracket(s: Seq<char>) -> bool {
    s.len() > 0 && s[0] == '['
}

/// Where the search for the port's `:` starts: after the `]` of an IP literal.
pub open spec fn port_search_start(hp: Seq<char>) -> int {
    if starts_with_bracket(hp) {
        find_first(hp, ']')->0 + 1
    } else {
        0
    }
}

/// Host and port, split at the first `:` that follows an IP literal's `]`.
pub open spec fn host_split(hp: Seq<char>) -> Result<(Option<Seq<char>>, Option<Seq<char>>), Error> {
    if starts_with_bracket(hp) && find_first(hp, ']') is None {
        Err(Error::IllegalHostDefinition)
    } else {
        let d = port_search_start(hp);
        match find_first(hp.subrange(d, hp.len() as int), ':') {
            None => Ok((Some(hp), None)),
            Some(j) => Ok(
                (non_empty(hp.subrange(0, d + j)), non_empty(hp.subrange(d + j + 1, hp.len() as int))),
            ),
        }
    }
}

pub open spec fn userinfo_parsed(u: Seq<char>) -> Result<Seq<char>, Error> {
    remapped(decoded(u, CharClass::UserInfo), Error::UserinfoIllegalCharacter)
}

/// A host: an IP literal in brackets is kept as it is once it is valid; any other host is
/// decoded against the registered-name class.
pub open spec fn host_parsed(h: Seq<char>) -> Result<Seq<char>, Error> {
    if starts_with_bracket(h) {
        if h.last() != ']' || h.len() < 4 {
            Err(Error::IllegalHostDefinition)
        } else {
            let inner = h.subrange(1, h.len() - 1);
            if inner[0] == 'v' || inner[0] == 'V' {
                if is_ipvfuture(inner) {
                    Ok(h)
                } else {
                    Err(Error::IllegalIPvFuture)
                }
            } else if is_ipv6(inner) {
                Ok(h)
            } else {
                Err(Error::IllegalIPv6)
            }
        }
    } else {
        remapped(decoded(h, CharClass::RegName), Error::HostIllegalCharacter)
    }
}

pub open spec fn all_digits(s: Seq<char>) -> bool {
    forall|i: int| 0 <= i < s.len() ==> is_digit(#[trigger] s[i])
}

/// The number that the decimal digits `s` write.
pub open spec fn digits_value(s: Seq<char>) -> nat
    decreases s.len(),
{
    if s.len() == 0 {
        0
    } else {
        digits_value(s.drop_last()) * 10 + (s.last() as u32 - '0' as u32) as nat
    }
}

/// A port: one or more decimal digits, at most 65535.
pub open spec fn port_parsed(p: Seq<char>) -> Result<u16, Error> {
    if p.len() > 0 && all_digits(p) && digits_value(p) <= 65535 {
        Ok(digits_value(p) as u16)
    } else {
        Err(Error::ParsePortError)
    }
}

/// The decimal digits of `n`, without leading zeros.
pub open spec fn decimal(n: nat) -> Seq<char>
    decreases n,
{
    if n < 10 {
        seq![hex_digit(n)]
    } else {
        decimal(n / 10).push(hex_digit(n % 10))
    }
}

/// What parsing `o` gives, where `r` is the outcome of parsing its content.
pub open spec fn lifted<T>(o: Option<Seq<char>>, r: Result<T, Error>) -> Result<Option<T>, Error> {
    match o {
        None => Ok(None),
        Some(_) => match r {
            Ok(v) => Ok(Some(v)),
            Err(e) => Err(e),
        },
    }
}

/// The authority that `a` writes; none where `a` is empty or names no part.
pub open spec fn authority_from(a: Seq<char>) -> Result<Option<AuthorityView>, Error> {
    if a.len() == 0 {
        Ok(None)
    } else {
        let (ui, rest) = userinfo_split(a);
        let hp = match rest {
            None => Ok((None, None)),
            Some(r) => host_split(r),
        };
        match hp {
            Err(e) => Err(e),
            Ok((h, p)) => match (
                lifted(ui, userinfo_parsed(ui->0)),
                lifted(h, host_parsed(h->0)),
                lifted(p, port_parsed(p->0)),
            ) {
                (Err(e), _, _) => Err(e),
                (Ok(_), Err(e), _) => Err(e),
                (Ok(_), Ok(_), Err(e)) => Err(e),
                (Ok(u), Ok(h), Ok(p)) => if u is None && h is None && p is None {
                    Ok(None)
                } else {
                    Ok(Some(AuthorityView { userinfo: u, host: h, port: p }))
                },
            },
        }
    }
}

pub open spec fn userinfo_written(o: Option<Seq<char>>) -> Result<Seq<char>, Error> {
    match o {
        None => Ok(Seq::empty()),
        Some(u) => match encoded(u, CharClass::UserInfo) {
            Ok(e) => Ok(e.push('@')),
            Err(e) => Err(e),
        },
    }
}

/// A valid IP literal in brackets, which a host keeps as it is.
pub open spec fn is_ip_literal(h: Seq<char>) -> bool {
    starts_with_bracket(h) && host_parsed(h) is Ok
}

/// A host as written: an IP literal as it is, any other host encoded as a registered name.
pub open spec fn host_written(o: Option<Seq<char>>) -> Result<Seq<char>, Error> {
    match o {
        None => Ok(Seq::empty()),
        Some(h) => if is_ip_literal(h) {
            Ok(h)
        } else {
            encoded(h, CharClass::RegName)
        },
    }
}

pub open spec fn port_written(o: Option<u16>) -> Seq<char> {
    match o {
        None => Seq::empty(),
        Some(p) => seq![':'] + decimal(p as nat),
    }
}

/// The text of an authority: encoded userinfo and `@`, the host (an IP literal as it is, a
/// registered name encoded), `:` and the port; none where no part is present.
pub open spec fn authority_text(a: AuthorityView) -> Result<Option<Seq<char>>, Error> {
    if a.userinfo is None && a.host is None && a.port is None {
        Ok(None)
    } else {
        match (userinfo_written(a.userinfo), host_written(a.host)) {
            (Err(e), _) => Err(e),
            (Ok(_), Err(e)) => Err(e),
            (Ok(u), Ok(h)) => Ok(Some(u + h + port_written(a.port))),
        }
    }
}

/// An authority text that writing the parsed authority gives back: an `@` comes after
/// userinfo, a `:` before a port written without leading zeros, a registered name does not
/// decode to a valid IP literal (the parsed value cannot tell the two apart), and escapes are
/// written as encoding writes them.
pub open spec fn authority_canonical(a: Seq<char>) -> bool {
    let (ui, rest) = userinfo_split(a);
    &&& (find_last(a, '@') is Some ==> find_last(a, '@')->0 > 0)
    &&& (ui is Some ==> escapes_canonical(ui->0, CharClass::UserInfo))
    &&& match rest {
        None => true,
        Some(r) => match host_split(r) {
            Err(_) => true,
            Ok((h, p)) => {
                &&& (p is None ==> h == Some(r))
                &&& (p is Some ==> decimal(digits_value(p->0)) == p->0)
                &&& (h is Some && !starts_with_bracket(h->0)) ==> {
                    &&& escapes_canonical(h->0, CharClass::RegName)
                    &&& !(decoded(h->0, CharClass::RegName) is Ok && is_ip_literal(
                        decoded(h->0, CharClass::RegName)->Ok_0,
                    ))
                }
            },
        },
    }
}

proof fn lemma_host_port_round_trip(r: Seq<char>)
    requires
        host_split(r) is Ok,
        r.len() > 0,
        ({
            let (h, p) = host_split(r)->Ok_0;
            &&& (p is None ==> h == Some(r))
            &&& (p is Some ==> decimal(digits_value(p->0)) == p->0)
            &&& (h is Some && !starts_with_bracket(h->0)) ==> {
                &&& escapes_canonical(h->0, CharClass::RegName)
                &&& !(decoded(h->0, CharClass::RegName) is Ok && is_ip_literal(
                    decoded(h->0, CharClass::RegName)->Ok_0,
                ))
            }
            &&& lifted(h, host_parsed(h->0)) is Ok
            &&& lifted(p, port_parsed(p->0)) is Ok
        }),
    ensures
        ({
            let (h, p) = host_split(r)->Ok_0;
            let hv = lifted(h, host_parsed(h->0))->Ok_0;
            let pv = lifted(p, port_parsed(p->0))->Ok_0;
            &&& host_written(hv) is Ok
            &&& host_written(hv)->Ok_0 + port_written(pv) == r
            &&& (hv is Some || pv is Some)
        }),
{
    let (h, p) = host_split(r)->Ok_0;
    let hv = lifted(h, host_parsed(h->0))->Ok_0;
    let pv = lifted(p, port_parsed(p->0))->Ok_0;
    if let Some(x) = h {
        if starts_with_bracket(x) {
            assert(hv == Some(x));
        } else {
            lemma_encode_decoded(x, CharClass::RegName);
        }
        assert(host_written(hv) == Ok::<Seq<char>, Error>(x));
    }
    if let Some(y) = p {
        let n = digits_value(y);
        assert(n <= 65535);
        assert((n as u16) as nat == n);
        assert(port_written(pv) == seq![':'] + y);
    }
    let d = port_search_start(r);
    match find_first(r.subrange(d, r.len() as int), ':') {
        None => {
            assert(r + Seq::<char>::empty() =~= r);
        },
        Some(j) => {
            assert(r.subrange(d, r.len() as int)[j] == ':');
            assert(r[d + j] == ':');
            if h is None {
                assert(r =~= seq![':'] + p->0);
            } else {
                assert(r =~= h->0 + (seq![':'] + p->0));
            }
        },
    }
}

/// The host-and-port part of an authority text, split.
pub open spec fn host_port_of(rest: Option<Seq<char>>) -> Result<(Option<Seq<char>>, Option<Seq<char>>), Error> {
    match rest {
        None => Ok((None, None)),
        Some(r) => host_split(r),
    }
}

proof fn lemma_authority_parts(a: Seq<char>)
    requires
        a.len() > 0,
        authority_from(a) is Ok,
    ensures
        ({
            let (ui, rest) = userinfo_split(a);
            let (h, p) = host_port_of(rest)->Ok_0;
            let uv = lifted(ui, userinfo_parsed(ui->0));
            let hv = lifted(h, host_parsed(h->0));
            let pv = lifted(p, port_parsed(p->0));
            &&& host_port_of(rest) is Ok
            &&& uv is Ok && hv is Ok && pv is Ok
            &&& authority_from(a) == if uv->Ok_0 is None && hv->Ok_0 is None && pv->Ok_0 is None {
                Ok::<Option<AuthorityView>, Error>(None)
            } else {
                Ok(Some(AuthorityView { userinfo: uv->Ok_0, host: hv->Ok_0, port: pv->Ok_0 }))
            }
        }),
{
}

/// Parsing an authority and writing it again gives back its text, where the text is written
/// as writing writes it.
pub proof fn lemma_authority_round_trip(a: Seq<char>)
    requires
        a.len() > 0,
        authority_from(a) is Ok,
        authority_canonical(a),
    ensures
        authority_from(a) matches Ok(Some(v)) && authority_text(v) == Ok::<_, Error>(Some(a)),
{
    lemma_authority_parts(a);
    let (ui, rest) = userinfo_split(a);
    let (h, p) = host_port_of(rest)->Ok_0;
    let uv = lifted(ui, userinfo_parsed(ui->0))->Ok_0;
    let hv = lifted(h, host_parsed(h->0))->Ok_0;
    let pv = lifted(p, port_parsed(p->0))->Ok_0;
    let v = AuthorityView { userinfo: uv, host: hv, port: pv };
    if let Some(u) = ui {
        lemma_encode_decoded(u, CharClass::UserInfo);
        assert(userinfo_written(uv) == Ok::<Seq<char>, Error>(u.push('@')));
    } else {
        assert(userinfo_written(uv) == Ok::<Seq<char>, Error>(Seq::empty()));
    }
    match rest {
        Some(r) => {
            lemma_host_port_round_trip(r);
        },
        None => {
            assert(host_written(hv) == Ok::<Seq<char>, Error>(Seq::empty()));
            assert(port_written(pv) == Seq::<char>::empty());
        },
    }
    let uw = userinfo_written(uv)->Ok_0;
    let hw = host_written(hv)->Ok_0;
    let pw = port_written(pv);
    match find_last(a, '@') {
        None => {
            assert(uv is None && rest == Some(a));
            assert(uw + hw + pw =~= a);
        },
        Some(k) => {
            assert(a[k] == '@');
            let u = a.subrange(0, k);
            let t = a.subrange(k + 1, a.len() as int);
            assert(uv is Some);
            assert(uw == u.push('@'));
            if t.len() == 0 {
                assert(rest is None);
                assert(hw == Seq::<char>::empty() && pw == Seq::<char>::empty());
                assert(a =~= u.push('@'));
                assert(uw + hw + pw =~= a);
            } else {
                assert(rest == Some(t));
                assert(hw + pw == t);
                assert(a =~= u.push('@') + t);
                assert(uw + hw + pw =~= uw + (hw + pw));
                assert(uw + hw + pw =~= a);
            }
        },
    }
    assert(authority_from(a) == Ok::<Option<AuthorityView>, Error>(Some(v)));
    assert(authority_text(v) == Ok::<_, Error>(Some(uw + hw + pw)));
}

proof fn lemma_decimal(n: nat)
    ensures
        decimal(n).len() > 0,
        all_digits(decimal(n)),
        digits_value(decimal(n)) == n,
    decreases n,
{
    if n >= 10 {
        lemma_decimal(n / 10);
        let d = decimal(n);
        assert(d.drop_last() =~= decimal(n / 10));
        assert(all_digits(d)) by {
            assert forall|i: int| 0 <= i < d.len() implies is_digit(#[trigger] d[i]) by {
                if i < d.len() - 1 {
                    assert(d[i] == decimal(n / 10)[i]);
                }
            }
        }
        assert((n / 10) * 10 + n % 10 == n) by (nonlinear_arith);
        assert(d.last() == hex_digit(n % 10));
        assert((d.last() as u32 - '0' as u32) as nat == n % 10);
        assert(digits_value(d) == digits_value(d.drop_last()) * 10 + (d.last() as u32 - '0' as u32) as nat);
        assert(digits_value(d.drop_last()) == n / 10);
    } else {
        let d = decimal(n);
        assert(d.drop_last() =~= Seq::<char>::empty());
        assert((d.last() as u32 - '0' as u32) as nat == n);
        assert(digits_value(d) == digits_value(d.drop_last()) * 10 + (d.last() as u32 - '0' as u32) as nat);
        assert(digits_value(d.drop_last()) == 0);
    }
}

/// The inside of a valid IP literal holds no `@`, `[` or `]`.
proof fn lemma_ip_literal_chars(h: Seq<char>)
    requires
        is_ip_literal(h),
    ensures
        h.len() >= 4,
        h[0] == '[',
        h[h.len() - 1] == ']',
        forall|i: int| 1 <= i < h.len() - 1 ==> #[trigger] h[i] != '@' && h[i] != ']' && h[i] != '[',
{
    let inner = h.subrange(1, h.len() - 1);
    if !(inner[0] == 'v' || inner[0] == 'V') {
        lemma_ipv6_chars(inner);
    }
    assert forall|i: int| 1 <= i < h.len() - 1 implies #[trigger] h[i] != '@' && h[i] != ']' && h[i] != '[' by {
        assert(h[i] == inner[i - 1]);
        if inner[0] == 'v' || inner[0] == 'V' {
            if i - 1 >= 3 {
                assert(in_class(CharClass::IpFuture, inner[i - 1]));
            }
        }
    }
}

pub open spec fn seven_bit(s: Seq<char>) -> bool {
    forall|i: int| 0 <= i < s.len() ==> #[trigger] s[i] as u32 <= 0x7f
}

/// An authority that parsing can give: some part present, userinfo non-empty and seven-bit,
/// the host non-empty and a valid IP literal or seven-bit.
pub open spec fn writable(a: AuthorityView) -> bool {
    &&& !(a.userinfo is None && a.host is None && a.port is None)
    &&& a.userinfo is Some ==> a.userinfo->0.len() > 0 && seven_bit(a.userinfo->0)
    &&& a.host is Some ==> a.host->0.len() > 0 && (is_ip_literal(a.host->0) || seven_bit(a.host->0))
}

/// The host as writing emits it.
pub open spec fn host_text(o: Option<Seq<char>>) -> Seq<char> {
    match o {
        None => Seq::empty(),
        Some(h) => if is_ip_literal(h) {
            h
        } else {
            escape_all(h, CharClass::RegName)
        },
    }
}

proof fn lemma_parsed_writable(t: Seq<char>)
    requires
        authority_from(t) matches Ok(Some(_)),
    ensures
        writable(authority_from(t)->Ok_0->0),
{
    lemma_authority_parts(t);
    let (ui, rest) = userinfo_split(t);
    let (h, p) = host_port_of(rest)->Ok_0;
    if let Some(u) = ui {
        lemma_decoded_ascii(u, CharClass::UserInfo);
    }
    if let Some(x) = h {
        if !starts_with_bracket(x) {
            lemma_decoded_ascii(x, CharClass::RegName);
        }
    }
}

/// No `@` in the host-and-port text that writing emits.
proof fn lemma_host_port_text_chars(a: AuthorityView)
    requires
        writable(a),
    ensures
        ({
            let r = host_text(a.host) + port_written(a.port);
            forall|i: int| 0 <= i < r.len() ==> #[trigger] r[i] != '@'
        }),
{
    let hw = host_text(a.host);
    let pw = port_written(a.port);
    if let Some(h) = a.host {
        if is_ip_literal(h) {
            lemma_ip_literal_chars(h);
        } else {
            lemma_escape_all_chars(h, CharClass::RegName);
        }
    }
    if let Some(n) = a.port {
        lemma_decimal(n as nat);
    }
    assert forall|i: int| 0 <= i < (hw + pw).len() implies #[trigger] (hw + pw)[i] != '@' by {
        if i < hw.len() {
            assert((hw + pw)[i] == hw[i]);
        } else {
            assert((hw + pw)[i] == pw[i - hw.len()]);
            if i > hw.len() {
                assert(pw[i - hw.len()] == decimal(a.port->0 as nat)[i - hw.len() - 1]);
            }
        }
    }
}

/// How parsing splits the host-and-port text that writing emits.
proof fn lemma_host_port_text_split(a: AuthorityView)
    requires
        writable(a),
        a.host is Some || a.port is Some,
    ensures
        host_split(host_text(a.host) + port_written(a.port)) == Ok::<_, Error>(
            (
                match a.host {
                    Some(_) => Some(host_text(a.host)),
                    None => None,
                },
                match a.port {
                    Some(n) => Some(decimal(n as nat)),
                    None => None,
                },
            ),
        ),
{
    let hw = host_text(a.host);
    let pw = port_written(a.port);
    let r = hw + pw;
    if let Some(n) = a.port {
        lemma_decimal(n as nat);
        assert(pw[0] == ':');
        assert(pw.subrange(1, pw.len() as int) =~= decimal(n as nat));
    } else {
        assert(pw =~= Seq::<char>::empty());
        assert(r =~= hw);
    }
    match a.host {
        Some(h) => {
            if is_ip_literal(h) {
                lemma_ip_literal_chars(h);
                assert(r[0] == '[');
                assert(first_at(r, ']', h.len() - 1)) by {
                    assert forall|j: int| 0 <= j < h.len() - 1 implies r[j] != ']' by {
                        assert(r[j] == h[j]);
                    }
                }
                lemma_first_at(r, ']', h.len() - 1);
                assert(port_search_start(r) == h.len());
                assert(r.subrange(h.len() as int, r.len() as int) =~= pw);
                if a.port is Some {
                    lemma_first_at(pw, ':', 0);
                    assert(r.subrange(0, h.len() as int) =~= h);
                    assert(r.subrange(h.len() as int + 1, r.len() as int) =~= pw.subrange(1, pw.len() as int));
                } else {
                    assert(find_first(pw, ':') is None);
                }
            } else {
                lemma_escape_all_chars(h, CharClass::RegName);
                assert(hw.len() > 0 && hw[0] != '[');
                assert(r[0] == hw[0]);
                assert(port_search_start(r) == 0);
                assert(r.subrange(0, r.len() as int) =~= r);
                assert forall|j: int| 0 <= j < hw.len() implies r[j] != ':' by {
                    assert(r[j] == hw[j]);
                }
                if a.port is Some {
                    assert(r[hw.len() as int] == ':');
                    assert(first_at(r, ':', hw.len() as int));
                    lemma_first_at(r, ':', hw.len() as int);
                    assert(r.subrange(0, hw.len() as int) =~= hw);
                    assert(r.subrange(hw.len() as int + 1, r.len() as int) =~= pw.subrange(1, pw.len() as int));
                } else {
                    assert(!(exists|i: int| first_at(r, ':', i)));
                }
            }
        },
        None => {
            assert(hw =~= Seq::<char>::empty());
            assert(r =~= pw);
            assert(r[0] == ':');
            assert(port_search_start(r) == 0);
            assert(r.subrange(0, r.len() as int) =~= r);
            lemma_first_at(r, ':', 0);
            assert(r.subrange(0, 0) =~= Seq::<char>::empty());
            assert(r.subrange(1, r.len() as int) =~= pw.subrange(1, pw.len() as int));
        },
    }
}

/// The userinfo as writing emits it, with its `@`.
pub open spec fn userinfo_text(o: Option<Seq<char>>) -> Seq<char> {
    match o {
        None => Seq::empty(),
        Some(u) => escape_all(u, CharClass::UserInfo).push('@'),
    }
}

proof fn lemma_written_text(a: AuthorityView)
    requires
        writable(a),
    ensures
        authority_text(a) == Ok::<_, Error>(
            Some(userinfo_text(a.userinfo) + (host_text(a.host) + port_written(a.port))),
        ),
{
    if let Some(u) = a.userinfo {
        lemma_decode_encode(u, CharClass::UserInfo);
    }
    if let Some(h) = a.host {
        if !is_ip_literal(h) {
            lemma_decode_encode(h, CharClass::RegName);
        }
    }
    let uw = userinfo_text(a.userinfo);
    let hw = host_text(a.host);
    let pw = port_written(a.port);
    assert(userinfo_written(a.userinfo) == Ok::<_, Error>(uw));
    assert(host_written(a.host) == Ok::<_, Error>(hw));
    assert(uw + hw + pw =~= uw + (hw + pw));
}

proof fn lemma_userinfo_text_split(a: AuthorityView)
    requires
        writable(a),
    ensures
        ({
            let r = host_text(a.host) + port_written(a.port);
            userinfo_split(userinfo_text(a.userinfo) + r) == (
                match a.userinfo {
                    Some(u) => Some(escape_all(u, CharClass::UserInfo)),
                    None => None,
                },
                match a.userinfo {
                    Some(_) => non_empty(r),
                    None => Some(r),
                },
            )
        }),
{
    let r = host_text(a.host) + port_written(a.port);
    let s = userinfo_text(a.userinfo) + r;
    lemma_host_port_text_chars(a);
    match a.userinfo {
        Some(u) => {
            lemma_escape_all_chars(u, CharClass::UserInfo);
            let eu = escape_all(u, CharClass::UserInfo);
            let k = eu.len() as int;
            assert(s[k] == '@');
            assert(last_at(s, '@', k)) by {
                assert forall|j: int| k < j < s.len() implies s[j] != '@' by {
                    assert(s[j] == r[j - k - 1]);
                }
            }
            lemma_last_at(s, '@', k);
            assert(s.subrange(0, k) =~= eu);
            assert(s.subrange(k + 1, s.len() as int) =~= r);
        },
        None => {
            assert(s =~= r);
            assert(find_last(s, '@') is None) by {
                if exists|i: int| last_at(s, '@', i) {
                    let i = choose|i: int| last_at(s, '@', i);
                    assert(r[i] != '@');
                }
            }
        },
    }
}

proof fn lemma_written_parts_parse(a: AuthorityView)
    requires
        writable(a),
    ensures
        a.userinfo is Some ==> userinfo_parsed(escape_all(a.userinfo->0, CharClass::UserInfo))
            == Ok::<_, Error>(a.userinfo->0),
        a.host is Some ==> host_parsed(host_text(a.host)) == Ok::<_, Error>(a.host->0),
        a.port is Some ==> port_parsed(decimal(a.port->0 as nat)) == Ok::<_, Error>(a.port->0),
        a.host is Some ==> host_text(a.host).len() > 0,
{
    if let Some(u) = a.userinfo {
        lemma_decode_encode(u, CharClass::UserInfo);
    }
    if let Some(h) = a.host {
        if is_ip_literal(h) {
            lemma_ip_literal_chars(h);
        } else {
            lemma_decode_encode(h, CharClass::RegName);
            lemma_escape_all_chars(h, CharClass::RegName);
            assert(!starts_with_bracket(host_text(a.host)));
        }
    }
    if let Some(n) = a.port {
        lemma_decimal(n as nat);
        assert((n as nat) as u16 == n);
    }
}

proof fn lemma_written_reparses(a: AuthorityView)
    requires
        writable(a),
    ensures
        authority_text(a) matches Ok(Some(s)) && authority_from(s) == Ok::<_, Error>(Some(a)),
{
    let r = host_text(a.host) + port_written(a.port);
    let s = userinfo_text(a.userinfo) + r;
    lemma_written_text(a);
    lemma_userinfo_text_split(a);
    lemma_written_parts_parse(a);
    if a.host is Some || a.port is Some {
        lemma_host_port_text_split(a);
        assert(r.len() > 0) by {
            if a.host is None {
                assert(r[0] == ':');
            }
        }
    } else {
        assert(r =~= Seq::<char>::empty());
    }
    assert(s.len() > 0) by {
        if a.userinfo is Some {
            assert(s[s.len() - r.len() - 1] == '@');
        }
    }
}

/// Writing an authority that parsing gave and parsing the text again gives the same authority.
pub proof fn lemma_authority_text_reparses(t: Seq<char>)
    requires
        authority_from(t) matches Ok(Some(_)),
    ensures
        authority_text(authority_from(t)->Ok_0->0) matches Ok(Some(s)) && authority_from(s)
            == authority_from(t),
{
    lemma_parsed_writable(t);
    lemma_written_reparses(authority_from(t)->Ok_0->0);
}

proof fn lemma_digits_prefix(s: Seq<char>, i: int, j: int)
    requires
        0 <= i <= j <= s.len(),
    ensures
        digits_value(s.subrange(0, i)) <= digits_value(s.subrange(0, j)),
    decreases j - i,
{
    if i < j {
        lemma_digits_prefix(s, i, j - 1);
        assert(s.subrange(0, j).drop_last() =~= s.subrange(0, j - 1));
    }
}

fn push_decimal(out: &mut String, n: u16)
    ensures
        final(out)@ == old(out)@ + decimal(n as nat),
    decreases n,
{
    if n >= 10 {
        push_decimal(out, n / 10);
    }
    out.push(hex_digit_of((n % 10) as u8));
    proof {
        if n >= 10 {
            assert(final(out)@ =~= old(out)@ + decimal(n as nat));
        } else {
            assert(final(out)@ =~= old(out)@ + decimal(n as nat));
        }
    }
}

impl Authority {
    /// Parses `[userinfo@]host[:port]`; the empty text, and one that names no part, give none.
    pub fn parse(auth_string: &str) -> (r: Result<Option<Self>, Error>)
        ensures
            authority_result_view(r) == authority_from(auth_string@),
    {
        if auth_string.unicode_len() == 0 {
            return Ok(None);
        }
        let (userinfo, rest) = Self::split_userinfo(auth_string);
        let (host, port) = match rest {
            None => (None, None),
            Some(r) => match Self::split_host(r) {
                Ok(hp) => hp,
                Err(e) => return Err(e),
            },
        };
        let parsed_userinfo = match userinfo {
            None => None,
            Some(u) => match Self::parse_userinfo(u) {
                Ok(x) => Some(x),
                Err(e) => return Err(e),
            },
        };
        let parsed_host = match host {
            None => None,
            Some(h) => match Self::parse_host(h) {
                Ok(x) => Some(x),
                Err(e) => return Err(e),
            },
        };
        let parsed_port = match port {
            None => None,
            Some(p) => match Self::parse_port(p) {
                Ok(x) => Some(x),
                Err(e) => return Err(e),
            },
        };
        if parsed_userinfo.is_none() && parsed_host.is_none() && parsed_port.is_none() {
            return Ok(None);
        }
        Ok(Some(Authority { userinfo: parsed_userinfo, host: parsed_host, port: parsed_port }))
    }

    fn split_userinfo(auth_string: &str) -> (r: (Option<&str>, Option<&str>))
        ensures
            (opt_view(r.0), opt_view(r.1)) == userinfo_split(auth_string@),
    {
        match rfind_char(auth_string, '@') {
            None => (None, Some(auth_string)),
            Some(k) => {
                let n = auth_string.unicode_len();
                let useri = auth_string.substring_char(0, k);
                let rest = auth_string.substring_char(k + 1, n);
                (
                    if k == 0 {
                        None
                    } else {
                        Some(useri)
                    },
                    if k + 1 == n {
                        None
                    } else {
                        Some(rest)
                    },
                )
            },
        }
    }

    fn split_host(host_port: &str) -> (r: Result<(Option<&str>, Option<&str>), Error>)
        ensures
            match r {
                Ok((h, p)) => host_split(host_port@) == Ok::<_, Error>((opt_view(h), opt_view(p))),
                Err(e) => host_split(host_port@) == Err::<(Option<Seq<char>>, Option<Seq<char>>), _>(e),
            },
    {
        let n = host_port.unicode_len();
        let delim: usize = if n > 0 && host_port.get_char(0) == '[' {
            match find_char(host_port, ']') {
                None => return Err(Error::IllegalHostDefinition),
                Some(i) => i + 1,
            }
        } else {
            0
        };
        let after = host_port.substring_char(delim, n);
        match find_char(after, ':') {
            None => Ok((Some(host_port), None)),
            Some(colon) => {
                let h = host_port.substring_char(0, delim + colon);
                let p = host_port.substring_char(delim + colon + 1, n);
                Ok(
                    (
                        if delim + colon == 0 {
                            None
                        } else {
                            Some(h)
                        },
                        if delim + colon + 1 == n {
                            None
                        } else {
                            Some(p)
                        },
                    ),
                )
            },
        }
    }

    fn parse_userinfo(user_info: &str) -> (r: Result<String, Error>)
        ensures
            result_view(r) == userinfo_parsed(user_info@),
    {
        decode_as(user_info, CharClass::UserInfo, Error::UserinfoIllegalCharacter)
    }

    fn parse_host(host: &str) -> (r: Result<String, Error>)
        ensures
            result_view(r) == host_parsed(host@),
    {
        let n = host.unicode_len();
        if n > 0 && host.get_char(0) == '[' {
            if host.get_char(n - 1) != ']' || n < 4 {
                return Err(Error::IllegalHostDefinition);
            }
            let host_stripped = host.substring_char(1, n - 1);
            let first = host_stripped.get_char(0);
            if first == 'v' || first == 'V' {
                if is_valid_ip_v_future(host_stripped) {
                    return Ok(String::from_str(host));
                }
                return Err(Error::IllegalIPvFuture);
            }
            if is_valid_ip_v6(host_stripped) {
                return Ok(String::from_str(host));
            }
            return Err(Error::IllegalIPv6);
        }
        decode_as(host, CharClass::RegName, Error::HostIllegalCharacter)
    }

    /// Whether `host` is a valid IP literal in brackets.
    fn ip_literal(host: &str) -> (r: bool)
        ensures
            r == is_ip_literal(host@),
    {
        if host.unicode_len() == 0 || host.get_char(0) != '[' {
            return false;
        }
        match Self::parse_host(host) {
            Ok(_) => true,
            Err(_) => false,
        }
    }

    fn parse_port(port_str: &str) -> (r: Result<u16, Error>)
        ensures
            r == port_parsed(port_str@),
    {
        let n = port_str.unicode_len();
        if n == 0 {
            return Err(Error::ParsePortError);
        }
        let ghost s = port_str@;
        let mut value: u32 = 0;
        let mut i: usize = 0;
        while i < n
            invariant
                s == port_str@,
                n == s.len(),
                i <= n,
                value as nat == digits_value(s.subrange(0, i as int)),
                value <= 65535,
                all_digits(s.subrange(0, i as int)),
            decreases n - i,
        {
            let c = port_str.get_char(i);
            if !digit(c) {
                assert(!all_digits(s)) by {
                    assert(s[i as int] == c);
                }
                return Err(Error::ParsePortError);
            }
            proof {
                assert(s.subrange(0, i + 1).drop_last() =~= s.subrange(0, i as int));
                assert(s.subrange(0, i + 1).last() == c);
            }
            value = value * 10 + (c as u32 - '0' as u32);
            i = i + 1;
            assert(all_digits(s.subrange(0, i as int))) by {
                assert forall|j: int| 0 <= j < i implies is_digit(#[trigger] s.subrange(0, i as int)[j]) by {
                    if j < i - 1 {
                        assert(s.subrange(0, i as int)[j] == s.subrange(0, i - 1)[j]);
                    }
                }
            }
            if value > 65535 {
                proof {
                    lemma_digits_prefix(s, i as int, n as int);
                    assert(s.subrange(0, n as int) =~= s);
                }
                return Err(Error::ParsePortError);
            }
        }
        assert(s.subrange(0, n as int) =~= s);
        Ok(value as u16)
    }

    /// The text of this authority; none where no part is present.
    pub fn stringify(&self) -> (r: Result<Option<String>, Error>)
        ensures
            match r {
                Ok(Some(s)) => authority_text(self@) == Ok::<_, Error>(Some(s@)),
                Ok(None) => authority_text(self@) == Ok::<Option<Seq<char>>, Error>(None),
                Err(e) => authority_text(self@) == Err::<Option<Seq<char>>, _>(e),
            },
    {
        if self.port.is_none() && self.host.is_none() && self.userinfo.is_none() {
            return Ok(None);
        }
        let mut output = String::new();
        if let Some(ui) = &self.userinfo {
            match encode_str(ui.as_str(), CharClass::UserInfo) {
                Ok(e) => {
                    output.append(e.as_str());
                    output.push('@');
                },
                Err(e) => return Err(e),
            }
        }
        assert(userinfo_written(self@.userinfo) == Ok::<_, Error>(output@));
        let ghost u = output@;
        if let Some(ho) = &self.host {
            let h = ho.as_str();
            if Self::ip_literal(h) {
                output.append(h);
            } else {
                match encode_str(h, CharClass::RegName) {
                    Ok(e) => output.append(e.as_str()),
                    Err(e) => return Err(e),
                }
            }
        } else {
            assert(output@ =~= u + Seq::<char>::empty());
        }
        let ghost uh = output@;
        if let Some(po) = self.port {
            output.push(':');
            push_decimal(&mut output, po);
            assert(output@ =~= uh + port_written(self.port));
        } else {
            assert(output@ =~= uh + port_written(self.port));
        }
        Ok(Some(output))
    }

    pub fn userinfo(&self) -> (r: Option<&str>)
        ensures
            opt_view(r) == self@.userinfo,
    {
        match &self.userinfo {
            Some(u) => Some(u.as_str()),
            None => None,
        }
    }

    pub fn host(&self) -> (r: Option<&str>)
        ensures
            opt_view(r) == self@.host,
    {
        match &self.host {
            Some(h) => Some(h.as_str()),
            None => None,
        }
    }

    pub fn port(&self) -> (r: Option<u16>)
        ensures
            r == self@.port,
    {
        self.port
    }
}

pub(crate) fn opt_string_eq(a: &Option<String>, b: &Option<String>) -> (r: bool)
    ensures
        r == (opt_view(*a) == opt_view(*b)),
{
    match (a, b) {
        (Some(x), Some(y)) => x.eq(y),
        (None, None) => true,
        _ => false,
    }
}

pub(crate) fn authority_eq(a: &Authority, b: &Authority) -> (r: bool)
    ensures
        r == (a@ == b@),
{
    let same_port = match (a.port, b.port) {
        (Some(x), Some(y)) => x == y,
        (None, None) => true,
        _ => false,
    };
    opt_string_eq(&a.userinfo, &b.userinfo) && opt_string_eq(&a.host, &b.host) && same_port
}

impl PartialEq for Authority {
    fn eq(&self, other: &Self) -> (r: bool) {
        authority_eq(self, other)
    }
}

impl vstd::std_specs::cmp::PartialEqSpecImpl for Authority {
    open spec fn obeys_eq_spec() -> bool {
        true
    }

    open spec fn eq_spec(&self, other: &Self) -> bool {
        self@ == other@
    }
}

} // verus!
