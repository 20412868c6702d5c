use vstd::prelude::*;

use crate::authority::{
    authority_canonical, authority_eq, authority_from, lemma_authority_round_trip, opt_string_eq, authority_result_view, authority_text, lifted, opt_view, Authority, AuthorityView};
use crate::classes::{alpha, in_class, is_alpha, CharClass};
use crate::coder::{
    decode_as, decoded, encode_str, encoded, escape_all, escapes_canonical, lemma_encode_decoded,
    remapped, result_view,
};
use crate::err::Error;
use crate::text::{find_char, find_first, find_last, lemma_first_exists, rfind_char};

verus! {

/// What a URI holds: the scheme in lower case, the authority, and path, query and fragment as
/// decoded text.
pub ghost struct UriView {
    pub scheme: Option<Seq<char>>,
    pub authority: Option<AuthorityView>,
    pub path: Seq<char>,
    pub query: Option<Seq<char>>,
    pub fragment: Option<Seq<char>>,
}

/// A URI reference, split into its components.
#[derive(Debug)]
pub struct Uri {
    pub scheme: Option<String>,
    pub authority: Option<Authority>,
    pub path: String,
    pub query: Option<String>,
    pub fragment: Option<String>,
}

pub open spec fn opt_authority_view(a: Option<Authority>) -> Option<AuthorityView> {
    match a {
        Some(x) => Some(x@),
        None => None,
    }
}

impl View for Uri {
    type V = UriView;

    open spec fn view(&self) -> UriView {
        UriView {
            scheme: opt_view(self.scheme),
            authority: opt_authority_view(self.authority),
            path: self.path@,
            query: opt_view(self.query),
            fragment: opt_view(self.fragment),
        }
    }
}

pub open spec fn uri_result_view(r: Result<Uri, Error>) -> Result<UriView, Error> {
    match r {
        Ok(u) => Ok(u@),
        Err(e) => Err(e),
    }
}

/// Scheme and the rest, split at a `:` that comes before any `/`.
pub open spec fn scheme_split(s: Seq<char>) -> Result<(Option<Seq<char>>, Seq<char>), Error> {
    let window = match find_first(s, '/') {
        Some(i) => s.subrange(0, i),
        None => s,
    };
    match find_first(window, ':') {
        None => Ok((None, s)),
        Some(k) => if k == 0 {
            Err(Error::EmptyScheme)
        } else {
            Ok((Some(s.subrange(0, k)), s.subrange(k + 1, s.len() as int)))
        },
    }
}

/// Fragment and the rest, split at the last `#`.
pub open spec fn fragment_split(s: Seq<char>) -> (Option<Seq<char>>, Seq<char>) {
    match find_last(s, '#') {
        Some(k) => (Some(s.subrange(k + 1, s.len() as int)), s.subrange(0, k)),
        None => (None, s),
    }
}

/// Query and the rest, split at the first `?`.
pub open spec fn query_split(s: Seq<char>) -> (Option<Seq<char>>, Seq<char>) {
    match find_first(s, '?') {
        Some(k) => (Some(s.subrange(k + 1, s.len() as int)), s.subrange(0, k)),
        None => (None, s),
    }
}

pub open spec fn starts_with_double_slash(s: Seq<char>) -> bool {
    s.len() >= 2 && s[0] == '/' && s[1] == '/'
}

/// After `//`, the authority runs up to the next `/`, which starts the path.
pub open spec fn authority_path_split(s: Seq<char>) -> Result<(Option<Seq<char>>, Seq<char>), Error> {
    if starts_with_double_slash(s) {
        let t = s.subrange(2, s.len() as int);
        match find_first(t, '/') {
            Some(e) => if e == 0 {
                Err(Error::EmptyAuthority)
            } else {
                Ok((Some(t.subrange(0, e)), t.subrange(e, t.len() as int)))
            },
            None => if t.len() == 0 {
                Err(Error::EmptyAuthority)
            } else {
                Ok((Some(t), Seq::empty()))
            },
        }
    } else {
        Ok((None, s))
    }
}

pub open spec fn ascii_lower(c: char) -> char {
    if 'A' <= c && c <= 'Z' {
        ((c as u32) + 32) as char
    } else {
        c
    }
}

/// A scheme: no `%`, a letter first, then letters, digits, `+`, `-` and `.`; kept in lower case.
pub open spec fn scheme_parsed(s: Seq<char>) -> Result<Seq<char>, Error> {
    if s.contains('%') {
        Err(Error::SchemeIllegalCharacter)
    } else if s.len() == 0 {
        Err(Error::EmptyScheme)
    } else if !is_alpha(s[0]) {
        Err(Error::SchemeIllegalFirstCharacter)
    } else if forall|i: int| 0 <= i < s.len() ==> in_class(CharClass::Scheme, #[trigger] s[i]) {
        Ok(s.map_values(|c: char| ascii_lower(c)))
    } else {
        Err(Error::SchemeIllegalCharacter)
    }
}

pub open spec fn path_parsed(p: Seq<char>) -> Result<Seq<char>, Error> {
    if starts_with_double_slash(p) {
        Err(Error::PathIllegalStart)
    } else {
        remapped(decoded(p, CharClass::Path), Error::PathIllegalCharacter)
    }
}

pub open spec fn query_parsed(q: Seq<char>) -> Result<Seq<char>, Error> {
    remapped(decoded(q, CharClass::Query), Error::QueryIllegalCharacter)
}

pub open spec fn fragment_parsed(f: Seq<char>) -> Result<Seq<char>, Error> {
    remapped(decoded(f, CharClass::Fragment), Error::FragmentIllegalCharacter)
}

pub open spec fn authority_parsed(o: Option<Seq<char>>) -> Result<Option<AuthorityView>, Error> {
    match o {
        None => Ok(None),
        Some(a) => authority_from(a),
    }
}

/// The URI that `s` writes. The pieces are cut in the order scheme, fragment, query,
/// authority and path, then checked in the order scheme, fragment, query, path, authority;
/// the first failure is reported.
#[verifier::opaque]
pub open spec fn uri_from(s: Seq<char>) -> Result<UriView, Error> {
    if s.len() == 0 {
        Ok(UriView { scheme: None, authority: None, path: Seq::empty(), query: None, fragment: None })
    } else {
        match scheme_split(s) {
            Err(e) => Err(e),
            Ok((sch, rest)) => {
                let (frag, apq) = fragment_split(rest);
                let (q, ap) = query_split(apq);
                match authority_path_split(ap) {
                    Err(e) => Err(e),
                    Ok((auth, path)) => match (
                        lifted(sch, scheme_parsed(sch->0)),
                        lifted(frag, fragment_parsed(frag->0)),
                        lifted(q, query_parsed(q->0)),
                        path_parsed(path),
                        authority_parsed(auth),
                    ) {
                        (Err(e), _, _, _, _) => Err(e),
                        (Ok(_), Err(e), _, _, _) => Err(e),
                        (Ok(_), Ok(_), Err(e), _, _) => Err(e),
                        (Ok(_), Ok(_), Ok(_), Err(e), _) => Err(e),
                        (Ok(_), Ok(_), Ok(_), Ok(_), Err(e)) => Err(e),
                        (Ok(sc), Ok(fr), Ok(qu), Ok(pa), Ok(au)) => Ok(
                            UriView { scheme: sc, authority: au, path: pa, query: qu, fragment: fr },
                        ),
                    },
                }
            },
        }
    }
}

/// `a` followed by `b`; the first failure wins.
pub open spec fn then(a: Result<Seq<char>, Error>, b: Result<Seq<char>, Error>) -> Result<Seq<char>, Error> {
    match a {
        Err(e) => Err(e),
        Ok(x) => match b {
            Err(e) => Err(e),
            Ok(y) => Ok(x + y),
        },
    }
}

/// An optional component, encoded against `k`, between `before` and `after`.
pub open spec fn component_written(o: Option<Seq<char>>, k: CharClass, before: Seq<char>, after: Seq<char>) -> Result<Seq<char>, Error> {
    match o {
        None => Ok(Seq::empty()),
        Some(x) => match encoded(x, k) {
            Ok(e) => Ok(before + e + after),
            Err(e) => Err(e),
        },
    }
}

pub open spec fn authority_written(o: Option<AuthorityView>) -> Result<Seq<char>, Error> {
    match o {
        None => Ok(Seq::empty()),
        Some(a) => match authority_text(a) {
            Ok(Some(t)) => Ok(seq!['/', '/'] + t),
            Ok(None) => Ok(Seq::empty()),
            Err(e) => Err(e),
        },
    }
}

/// The text of a URI: `scheme:`, `//authority`, the path, `?query` and `#fragment`, each
/// encoded against its class.
pub open spec fn uri_text(u: UriView) -> Result<Seq<char>, Error> {
    then(
        then(
            then(
                then(
                    component_written(u.scheme, CharClass::Scheme, Seq::empty(), seq![':']),
                    authority_written(u.authority),
                ),
                encoded(u.path, CharClass::Path),
            ),
            component_written(u.query, CharClass::Query, seq!['?'], Seq::empty()),
        ),
        component_written(u.fragment, CharClass::Fragment, seq!['#'], Seq::empty()),
    )
}

/// Every component of `s` is written as writing the parsed URI writes it: escapes stand for
/// characters outside the component's class and use upper-case digits, and the authority is
/// written as writing its parsed form writes it.
#[verifier::opaque]
pub open spec fn written_canonically(s: Seq<char>) -> bool {
    match scheme_split(s) {
        Err(_) => true,
        Ok((_, rest)) => {
            let (frag, apq) = fragment_split(rest);
            let (q, ap) = query_split(apq);
            match authority_path_split(ap) {
                Err(_) => true,
                Ok((auth, path)) => {
                    &&& (frag is Some ==> escapes_canonical(frag->0, CharClass::Fragment))
                    &&& (q is Some ==> escapes_canonical(q->0, CharClass::Query))
                    &&& escapes_canonical(path, CharClass::Path)
                    &&& (auth is Some ==> authority_canonical(auth->0))
                },
            }
        },
    }
}

/// `s` with its scheme, if it has one, in lower case.
pub open spec fn with_scheme_lowered(s: Seq<char>) -> Seq<char> {
    match scheme_split(s) {
        Ok((Some(sch), rest)) => sch.map_values(|c: char| ascii_lower(c)) + seq![':'] + rest,
        _ => s,
    }
}

proof fn lemma_escape_all_in_class(x: Seq<char>, k: CharClass)
    requires
        forall|i: int| 0 <= i < x.len() ==> in_class(k, #[trigger] x[i]),
    ensures
        encoded(x, k) == Ok::<Seq<char>, Error>(x),
    decreases x.len(),
{
    if x.len() == 0 {
        assert(escape_all(x, k) =~= x);
    } else {
        let t = x.drop_first();
        assert forall|i: int| 0 <= i < t.len() implies in_class(k, #[trigger] t[i]) by {
            assert(t[i] == x[i + 1]);
        }
        lemma_escape_all_in_class(t, k);
        assert(escape_all(x, k) =~= x);
    }
}

proof fn lemma_uri_parts(s: Seq<char>)
    requires
        s.len() > 0,
        uri_from(s) is Ok,
    ensures
        ({
            let (sch, rest) = scheme_split(s)->Ok_0;
            let (frag, apq) = fragment_split(rest);
            let (q, ap) = query_split(apq);
            let (auth, path) = authority_path_split(ap)->Ok_0;
            let sc = lifted(sch, scheme_parsed(sch->0));
            let fr = lifted(frag, fragment_parsed(frag->0));
            let qu = lifted(q, query_parsed(q->0));
            let pa = path_parsed(path);
            let au = authority_parsed(auth);
            &&& scheme_split(s) is Ok
            &&& authority_path_split(ap) is Ok
            &&& sc is Ok && fr is Ok && qu is Ok && pa is Ok && au is Ok
            &&& uri_from(s) == Ok::<UriView, Error>(
                UriView {
                    scheme: sc->Ok_0,
                    authority: au->Ok_0,
                    path: pa->Ok_0,
                    query: qu->Ok_0,
                    fragment: fr->Ok_0,
                },
            )
        }),
{
    reveal(uri_from);
}

proof fn lemma_canonical_parts(s: Seq<char>)
    requires
        written_canonically(s),
        scheme_split(s) is Ok,
        authority_path_split(query_split(fragment_split(scheme_split(s)->Ok_0.1).1).1) is Ok,
    ensures
        ({
            let (sch, rest) = scheme_split(s)->Ok_0;
            let (frag, apq) = fragment_split(rest);
            let (q, ap) = query_split(apq);
            let (auth, path) = authority_path_split(ap)->Ok_0;
            &&& (frag is Some ==> escapes_canonical(frag->0, CharClass::Fragment))
            &&& (q is Some ==> escapes_canonical(q->0, CharClass::Query))
            &&& escapes_canonical(path, CharClass::Path)
            &&& (auth is Some ==> authority_canonical(auth->0))
        }),
{
    reveal(written_canonically);
}

proof fn lemma_scheme_round_trip(sch: Option<Seq<char>>)
    requires
        lifted(sch, scheme_parsed(sch->0)) is Ok,
    ensures
        component_written(lifted(sch, scheme_parsed(sch->0))->Ok_0, CharClass::Scheme, Seq::empty(), seq![':'])
            == Ok::<Seq<char>, Error>(
            match sch {
                Some(x) => x.map_values(|c: char| ascii_lower(c)) + seq![':'],
                None => Seq::empty(),
            },
        ),
{
    if let Some(x) = sch {
        let lower = x.map_values(|c: char| ascii_lower(c));
        assert forall|i: int| 0 <= i < lower.len() implies in_class(CharClass::Scheme, #[trigger] lower[i]) by {
            assert(in_class(CharClass::Scheme, x[i]));
        }
        lemma_escape_all_in_class(lower, CharClass::Scheme);
        assert(Seq::<char>::empty() + lower + seq![':'] =~= lower + seq![':']);
    }
}

proof fn lemma_component_round_trip(o: Option<Seq<char>>, k: CharClass, e: Error, before: Seq<char>)
    requires
        lifted(o, remapped(decoded(o->0, k), e)) is Ok,
        o is Some ==> escapes_canonical(o->0, k),
    ensures
        component_written(lifted(o, remapped(decoded(o->0, k), e))->Ok_0, k, before, Seq::empty())
            == Ok::<Seq<char>, Error>(
            match o {
                Some(x) => before + x,
                None => Seq::empty(),
            },
        ),
{
    if let Some(x) = o {
        lemma_encode_decoded(x, k);
        assert(before + x + Seq::<char>::empty() =~= before + x);
    }
}

proof fn lemma_authority_part_round_trip(auth: Option<Seq<char>>)
    requires
        authority_parsed(auth) is Ok,
        auth is Some ==> auth->0.len() > 0 && authority_canonical(auth->0),
    ensures
        authority_written(authority_parsed(auth)->Ok_0) == Ok::<Seq<char>, Error>(
            match auth {
                Some(x) => seq!['/', '/'] + x,
                None => Seq::empty(),
            },
        ),
{
    if let Some(x) = auth {
        lemma_authority_round_trip(x);
    }
}

/// The text after the scheme is the authority with its `//`, the path, the query with its
/// `?` and the fragment with its `#`.
proof fn lemma_rest_pieces(rest: Seq<char>)
    requires
        authority_path_split(query_split(fragment_split(rest).1).1) is Ok,
    ensures
        ({
            let (frag, apq) = fragment_split(rest);
            let (q, ap) = query_split(apq);
            let (auth, path) = authority_path_split(ap)->Ok_0;
            &&& auth is Some ==> auth->0.len() > 0
            &&& rest == match auth {
                Some(x) => seq!['/', '/'] + x,
                None => Seq::<char>::empty(),
            } + path + match q {
                Some(x) => seq!['?'] + x,
                None => Seq::<char>::empty(),
            } + match frag {
                Some(x) => seq!['#'] + x,
                None => Seq::<char>::empty(),
            }
        }),
{
    let (frag, apq) = fragment_split(rest);
    let (q, ap) = query_split(apq);
    let (auth, path) = authority_path_split(ap)->Ok_0;
    let aw = match auth {
        Some(x) => seq!['/', '/'] + x,
        None => Seq::<char>::empty(),
    };
    let qw = match q {
        Some(x) => seq!['?'] + x,
        None => Seq::<char>::empty(),
    };
    let fw = match frag {
        Some(x) => seq!['#'] + x,
        None => Seq::<char>::empty(),
    };
    if auth is Some {
        assert(ap =~= aw + path);
    } else {
        assert(ap =~= aw + path);
    }
    if let Some(k) = find_first(apq, '?') {
        assert(apq[k] == '?');
    }
    assert(apq =~= ap + qw);
    if let Some(k) = find_last(rest, '#') {
        assert(rest[k] == '#');
    }
    assert(rest =~= apq + fw);
    assert(rest =~= aw + path + qw + fw);
}

proof fn lemma_scheme_piece(s: Seq<char>)
    requires
        scheme_split(s) is Ok,
    ensures
        ({
            let (sch, rest) = scheme_split(s)->Ok_0;
            with_scheme_lowered(s) == match sch {
                Some(x) => x.map_values(|c: char| ascii_lower(c)) + seq![':'],
                None => Seq::<char>::empty(),
            } + rest
        }),
{
    let (sch, rest) = scheme_split(s)->Ok_0;
    if let Some(x) = sch {
        let window = match find_first(s, '/') {
            Some(i) => s.subrange(0, i),
            None => s,
        };
        let k = find_first(window, ':')->0;
        assert(window[k] == ':');
    } else {
        assert(Seq::<char>::empty() + rest =~= rest);
    }
}

proof fn lemma_text_parts(u: UriView, sw: Seq<char>, aw: Seq<char>, pw: Seq<char>, qw: Seq<char>, fw: Seq<char>)
    requires
        component_written(u.scheme, CharClass::Scheme, Seq::empty(), seq![':']) == Ok::<Seq<char>, Error>(sw),
        authority_written(u.authority) == Ok::<Seq<char>, Error>(aw),
        encoded(u.path, CharClass::Path) == Ok::<Seq<char>, Error>(pw),
        component_written(u.query, CharClass::Query, seq!['?'], Seq::empty()) == Ok::<Seq<char>, Error>(qw),
        component_written(u.fragment, CharClass::Fragment, seq!['#'], Seq::empty()) == Ok::<Seq<char>, Error>(fw),
    ensures
        uri_text(u) == Ok::<Seq<char>, Error>(sw + (aw + pw + qw + fw)),
{
    assert(sw + aw + pw + qw + fw =~= sw + (aw + pw + qw + fw));
}

/// Parsing a URI and writing it again gives back its text, with the scheme in lower case,
/// where the text is written as writing writes it.
pub proof fn lemma_uri_round_trip(s: Seq<char>)
    requires
        uri_from(s) is Ok,
        written_canonically(s),
    ensures
        uri_text(uri_from(s)->Ok_0) == Ok::<Seq<char>, Error>(with_scheme_lowered(s)),
{
    if s.len() == 0 {
        reveal(uri_from);
        let e = Seq::<char>::empty();
        assert(escape_all(e, CharClass::Path) =~= e);
        assert(s =~= e);
        lemma_text_parts(uri_from(s)->Ok_0, e, e, e, e, e);
        assert(e + (e + e + e + e) =~= e);
        assert(find_first(s, ':') is None);
        return;
    }
    lemma_uri_parts(s);
    lemma_canonical_parts(s);
    let (sch, rest) = scheme_split(s)->Ok_0;
    let (frag, apq) = fragment_split(rest);
    let (q, ap) = query_split(apq);
    let (auth, path) = authority_path_split(ap)->Ok_0;
    let u = uri_from(s)->Ok_0;
    lemma_rest_pieces(rest);
    lemma_scheme_piece(s);
    lemma_scheme_round_trip(sch);
    lemma_component_round_trip(frag, CharClass::Fragment, Error::FragmentIllegalCharacter, seq!['#']);
    lemma_component_round_trip(q, CharClass::Query, Error::QueryIllegalCharacter, seq!['?']);
    lemma_encode_decoded(path, CharClass::Path);
    lemma_authority_part_round_trip(auth);
    let sw = match sch {
        Some(x) => x.map_values(|c: char| ascii_lower(c)) + seq![':'],
        None => Seq::<char>::empty(),
    };
    let aw = match auth {
        Some(x) => seq!['/', '/'] + x,
        None => Seq::<char>::empty(),
    };
    let qw = match q {
        Some(x) => seq!['?'] + x,
        None => Seq::<char>::empty(),
    };
    let fw = match frag {
        Some(x) => seq!['#'] + x,
        None => Seq::<char>::empty(),
    };
    lemma_text_parts(u, sw, aw, path, qw, fw);
}

/// Appends `o` encoded against `k` between `before` and `after`.
fn write_component(out: &mut String, o: &Option<String>, k: CharClass, before: &str, after: &str) -> (r: Result<(), Error>)
    ensures
        match r {
            Ok(()) => then(Ok(old(out)@), component_written(opt_view(*o), k, before@, after@))
                == Ok::<Seq<char>, Error>(final(out)@),
            Err(e) => component_written(opt_view(*o), k, before@, after@) == Err::<Seq<char>, Error>(e),
        },
{
    match o {
        None => {
            assert(old(out)@ + Seq::<char>::empty() =~= old(out)@);
            Ok(())
        },
        Some(x) => match encode_str(x.as_str(), k) {
            Ok(e) => {
                out.append(before);
                out.append(e.as_str());
                out.append(after);
                assert(final(out)@ =~= old(out)@ + (before@ + e@ + after@));
                Ok(())
            },
            Err(e) => Err(e),
        },
    }
}

impl Uri {
    /// Parses a URI reference; the empty text is a reference with an empty path.
    pub fn parse(uri_string: &str) -> (r: Result<Uri, Error>)
        ensures
            uri_result_view(r) == uri_from(uri_string@),
    {
        reveal(uri_from);
        if uri_string.unicode_len() == 0 {
            return Ok(
                Uri { scheme: None, authority: None, path: String::new(), query: None, fragment: None },
            );
        }
        let (scheme, without_scheme) = match Self::split_scheme(uri_string) {
            Ok(x) => x,
            Err(e) => return Err(e),
        };
        let (fragment, authority_path_query) = Self::split_fragment(without_scheme);
        let (query, authority_path) = Self::split_query(authority_path_query);
        let (authority, path) = match Self::split_authority_and_path(authority_path) {
            Ok(x) => x,
            Err(e) => return Err(e),
        };
        let parsed_scheme = match scheme {
            None => None,
            Some(s) => match Self::parse_scheme(s) {
                Ok(x) => Some(x),
                Err(e) => return Err(e),
            },
        };
        let parsed_fragment = match fragment {
            None => None,
            Some(f) => match Self::parse_fragment(f) {
                Ok(x) => Some(x),
                Err(e) => return Err(e),
            },
        };
        let parsed_query = match query {
            None => None,
            Some(q) => match Self::parse_query(q) {
                Ok(x) => Some(x),
                Err(e) => return Err(e),
            },
        };
        let parsed_path = match Self::parse_path(path) {
            Ok(x) => x,
            Err(e) => return Err(e),
        };
        let parsed_authority = match authority {
            None => None,
            Some(a) => match Authority::parse(a) {
                Ok(x) => x,
                Err(e) => return Err(e),
            },
        };
        Ok(
            Uri {
                scheme: parsed_scheme,
                authority: parsed_authority,
                path: parsed_path,
                query: parsed_query,
                fragment: parsed_fragment,
            },
        )
    }

    pub fn scheme(&self) -> (r: Option<&str>)
        ensures
            opt_view(r) == self@.scheme,
    {
        match &self.scheme {
            Some(s) => Some(s.as_str()),
            None => None,
        }
    }

    pub fn userinfo(&self) -> (r: Option<&str>)
        ensures
            opt_view(r) == match self@.authority {
                Some(a) => a.userinfo,
                None => None,
            },
    {
        match &self.authority {
            Some(a) => a.userinfo(),
            None => None,
        }
    }

    pub fn host(&self) -> (r: Option<&str>)
        ensures
            opt_view(r) == match self@.authority {
                Some(a) => a.host,
                None => None,
            },
    {
        match &self.authority {
            Some(a) => a.host(),
            None => None,
        }
    }

    pub fn port(&self) -> (r: Option<u16>)
        ensures
            r == match self@.authority {
                Some(a) => a.port,
                None => None,
            },
    {
        match &self.authority {
            Some(a) => a.port(),
            None => None,
        }
    }

    pub fn path(&self) -> (r: &str)
        ensures
            r@ == self@.path,
    {
        self.path.as_str()
    }

    pub fn query(&self) -> (r: Option<&str>)
        ensures
            opt_view(r) == self@.query,
    {
        match &self.query {
            Some(q) => Some(q.as_str()),
            None => None,
        }
    }

    /// The text of this URI, each component encoded against its class.
    pub fn stringify(&self) -> (r: Result<String, Error>)
        ensures
            result_view(r) == uri_text(self@),
    {
        let ghost u = self@;
        let ghost a = component_written(u.scheme, CharClass::Scheme, Seq::empty(), seq![':']);
        let ghost b = authority_written(u.authority);
        let ghost c = encoded(u.path, CharClass::Path);
        let ghost d = component_written(u.query, CharClass::Query, seq!['?'], Seq::empty());
        let ghost f = component_written(u.fragment, CharClass::Fragment, seq!['#'], Seq::empty());
        proof {
            reveal_strlit("");
            reveal_strlit(":");
            reveal_strlit("?");
            reveal_strlit("#");
            reveal_strlit("//");
            assert(""@ =~= Seq::<char>::empty());
            assert(":"@ =~= seq![':']);
            assert("?"@ =~= seq!['?']);
            assert("#"@ =~= seq!['#']);
            assert("//"@ =~= seq!['/', '/']);
        }
        let mut output = String::new();
        match write_component(&mut output, &self.scheme, CharClass::Scheme, "", ":") {
            Ok(()) => {},
            Err(e) => return Err(e),
        }
        proof {
            if let Ok(x) = a {
                assert(Seq::<char>::empty() + x =~= x);
            }
        }
        assert(a == Ok::<Seq<char>, Error>(output@));
        let ghost s1 = output@;
        if let Some(au) = &self.authority {
            match au.stringify() {
                Ok(Some(t)) => {
                    output.append("//");
                    output.append(t.as_str());
                    assert(output@ =~= s1 + (seq!['/', '/'] + t@));
                },
                Ok(None) => {
                    assert(output@ =~= s1 + Seq::<char>::empty());
                },
                Err(e) => return Err(e),
            }
        } else {
            assert(output@ =~= s1 + Seq::<char>::empty());
        }
        assert(then(a, b) == Ok::<Seq<char>, Error>(output@));
        match encode_str(self.path.as_str(), CharClass::Path) {
            Ok(p) => output.append(p.as_str()),
            Err(e) => return Err(e),
        }
        assert(then(then(a, b), c) == Ok::<Seq<char>, Error>(output@));
        match write_component(&mut output, &self.query, CharClass::Query, "?", "") {
            Ok(()) => {},
            Err(e) => return Err(e),
        }
        assert(then(then(then(a, b), c), d) == Ok::<Seq<char>, Error>(output@));
        match write_component(&mut output, &self.fragment, CharClass::Fragment, "#", "") {
            Ok(()) => {},
            Err(e) => return Err(e),
        }
        Ok(output)
    }

    fn split_scheme(uri_string: &str) -> (r: Result<(Option<&str>, &str), Error>)
        ensures
            match r {
                Ok((s, rest)) => scheme_split(uri_string@) == Ok::<_, Error>((opt_view(s), rest@)),
                Err(e) => scheme_split(uri_string@) == Err::<(Option<Seq<char>>, Seq<char>), _>(e),
            },
    {
        let n = uri_string.unicode_len();
        let delim = match find_char(uri_string, '/') {
            Some(i) => i,
            None => n,
        };
        let window = uri_string.substring_char(0, delim);
        proof {
            if find_first(uri_string@, '/') is None {
                assert(window@ =~= uri_string@);
            }
        }
        match find_char(window, ':') {
            None => Ok((None, uri_string)),
            Some(scheme_end) => {
                if scheme_end == 0 {
                    Err(Error::EmptyScheme)
                } else {
                    proof {
                        assert(uri_string@.subrange(0, scheme_end as int) =~= window@.subrange(
                            0,
                            scheme_end as int,
                        ));
                    }
                    Ok(
                        (
                            Some(uri_string.substring_char(0, scheme_end)),
                            uri_string.substring_char(scheme_end + 1, n),
                        ),
                    )
                }
            },
        }
    }

    fn split_fragment(without_scheme: &str) -> (r: (Option<&str>, &str))
        ensures
            (opt_view(r.0), r.1@) == fragment_split(without_scheme@),
    {
        match rfind_char(without_scheme, '#') {
            Some(k) => {
                let n = without_scheme.unicode_len();
                (Some(without_scheme.substring_char(k + 1, n)), without_scheme.substring_char(0, k))
            },
            None => (None, without_scheme),
        }
    }

    fn split_query(authority_path_query: &str) -> (r: (Option<&str>, &str))
        ensures
            (opt_view(r.0), r.1@) == query_split(authority_path_query@),
    {
        match find_char(authority_path_query, '?') {
            Some(k) => {
                let n = authority_path_query.unicode_len();
                (
                    Some(authority_path_query.substring_char(k + 1, n)),
                    authority_path_query.substring_char(0, k),
                )
            },
            None => (None, authority_path_query),
        }
    }

    fn split_authority_and_path(authority_path: &str) -> (r: Result<(Option<&str>, &str), Error>)
        ensures
            match r {
                Ok((a, p)) => authority_path_split(authority_path@) == Ok::<_, Error>((opt_view(a), p@)),
                Err(e) => authority_path_split(authority_path@) == Err::<(Option<Seq<char>>, Seq<char>), _>(e),
            },
    {
        let n = authority_path.unicode_len();
        if n >= 2 && authority_path.get_char(0) == '/' && authority_path.get_char(1) == '/' {
            let stripped = authority_path.substring_char(2, n);
            match find_char(stripped, '/') {
                Some(auth_end) => {
                    if auth_end == 0 {
                        return Err(Error::EmptyAuthority);
                    }
                    let m = stripped.unicode_len();
                    Ok((Some(stripped.substring_char(0, auth_end)), stripped.substring_char(auth_end, m)))
                },
                None => {
                    if n == 2 {
                        return Err(Error::EmptyAuthority);
                    }
                    proof {
                        reveal_strlit("");
                    }
                    assert(""@ =~= Seq::<char>::empty());
                    Ok((Some(stripped), ""))
                },
            }
        } else {
            Ok((None, authority_path))
        }
    }

    fn parse_scheme(scheme_string: &str) -> (r: Result<String, Error>)
        ensures
            result_view(r) == scheme_parsed(scheme_string@),
    {
        let ghost s = scheme_string@;
        if find_char(scheme_string, '%').is_some() {
            assert(s.contains('%')) by {
                let i = find_first(s, '%')->0;
                assert(s[i] == '%');
            }
            return Err(Error::SchemeIllegalCharacter);
        }
        assert(!s.contains('%')) by {
            if s.contains('%') {
                let i = choose|i: int| 0 <= i < s.len() && s[i] == '%';
                lemma_first_exists(s, '%', i);
            }
        }
        let n = scheme_string.unicode_len();
        if n == 0 {
            return Err(Error::EmptyScheme);
        }
        if !alpha(scheme_string.get_char(0)) {
            return Err(Error::SchemeIllegalFirstCharacter);
        }
        let mut out = String::new();
        let mut i: usize = 0;
        while i < n
            invariant
                s == scheme_string@,
                n == s.len(),
                n > 0,
                !s.contains('%'),
                is_alpha(s[0]),
                i <= n,
                forall|j: int| 0 <= j < i ==> in_class(CharClass::Scheme, #[trigger] s[j]),
                out@ == s.subrange(0, i as int).map_values(|c: char| ascii_lower(c)),
            decreases n - i,
        {
            let c = scheme_string.get_char(i);
            if !CharClass::Scheme.contains(c) {
                assert(s[i as int] == c);
                return Err(Error::SchemeIllegalCharacter);
            }
            let lower = if 'A' <= c && c <= 'Z' {
                ((c as u32) + 32) as u8 as char
            } else {
                c
            };
            assert(lower == ascii_lower(c));
            out.push(lower);
            assert(s.subrange(0, i + 1).map_values(|c: char| ascii_lower(c)) =~= s.subrange(
                0,
                i as int,
            ).map_values(|c: char| ascii_lower(c)).push(lower));
            i = i + 1;
        }
        assert(s.subrange(0, n as int) =~= s);
        Ok(out)
    }

    fn parse_path(path_string: &str) -> (r: Result<String, Error>)
        ensures
            result_view(r) == path_parsed(path_string@),
    {
        let n = path_string.unicode_len();
        if n >= 2 && path_string.get_char(0) == '/' && path_string.get_char(1) == '/' {
            return Err(Error::PathIllegalStart);
        }
        decode_as(path_string, CharClass::Path, Error::PathIllegalCharacter)
    }

    fn parse_query(query_string: &str) -> (r: Result<String, Error>)
        ensures
            result_view(r) == query_parsed(query_string@),
    {
        decode_as(query_string, CharClass::Query, Error::QueryIllegalCharacter)
    }

    fn parse_fragment(fragment_string: &str) -> (r: Result<String, Error>)
        ensures
            result_view(r) == fragment_parsed(fragment_string@),
    {
        decode_as(fragment_string, CharClass::Fragment, Error::FragmentIllegalCharacter)
    }
}

impl PartialEq for Uri {
    fn eq(&self, other: &Self) -> (r: bool) {
        let same_authority = match (&self.authority, &other.authority) {
            (Some(x), Some(y)) => authority_eq(x, y),
            (None, None) => true,
            _ => false,
        };
        opt_string_eq(&self.scheme, &other.scheme) && same_authority && self.path == other.path
            && opt_string_eq(&self.query, &other.query) && opt_string_eq(&self.fragment, &other.fragment)
    }
}

impl vstd::std_specs::cmp::PartialEqSpecImpl for Uri {
    open spec fn obeys_eq_spec() -> bool {
        true
    }

    open spec fn eq_spec(&self, other: &Self) -> bool {
        self@ == other@
    }
}

} // verus!
