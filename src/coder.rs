use vstd::prelude::*;

use crate::classes::{hex_digit, hex_digit_of, hex_value, hex_value_of, hexdig, in_class, is_hexdig, CharClass};
use crate::err::Error;
use crate::text::chars_of;

verus! {

/// The character that the escape `%hl` stands for.
pub open spec fn escaped_char(h: char, l: char) -> char {
    ((hex_value(h) * 16 + hex_value(l)) as u32) as char
}

/// Percent-decoding of `s`: `%` and two hexadecimal digits give one character below 0x80,
/// any other character must belong to `k`.
pub open spec fn decoded(s: Seq<char>, k: CharClass) -> Result<Seq<char>, Error>
    decreases s.len(),
{
    if s.len() == 0 {
        Ok(Seq::empty())
    } else if s[0] == '%' {
        if s.len() < 3 || !is_hexdig(s[1]) || !is_hexdig(s[2]) || hex_value(s[1]) > 7 {
            Err(Error::IllegalPercentEncoding)
        } else {
            prefixed(seq![escaped_char(s[1], s[2])], decoded(s.subrange(3, s.len() as int), k))
        }
    } else if in_class(k, s[0]) {
        prefixed(seq![s[0]], decoded(s.drop_first(), k))
    } else {
        Err(Error::IllegalCharacter)
    }
}

/// `r` with `p` put in front of its success value.
pub open spec fn prefixed(p: Seq<char>, r: Result<Seq<char>, Error>) -> Result<Seq<char>, Error> {
    match r {
        Ok(t) => Ok(p + t),
        Err(e) => Err(e),
    }
}

/// How one character is written: as it is when it belongs to `k`, else as `%` and two
/// upper-case hexadecimal digits.
pub open spec fn escape(c: char, k: CharClass) -> Seq<char> {
    if in_class(k, c) {
        seq![c]
    } else {
        seq!['%', hex_digit((c as u32 / 16) as nat), hex_digit((c as u32 % 16) as nat)]
    }
}

pub open spec fn escape_all(s: Seq<char>, k: CharClass) -> Seq<char>
    decreases s.len(),
{
    if s.len() == 0 {
        Seq::empty()
    } else {
        escape(s[0], k) + escape_all(s.drop_first(), k)
    }
}

/// Each character either belongs to `k` or is seven-bit.
pub open spec fn encodable(s: Seq<char>, k: CharClass) -> bool {
    forall|i: int| 0 <= i < s.len() ==> in_class(k, #[trigger] s[i]) || s[i] as u32 <= 0x7f
}

/// Percent-encoding of `s` against `k`.
pub open spec fn encoded(s: Seq<char>, k: CharClass) -> Result<Seq<char>, Error> {
    if encodable(s, k) {
        Ok(escape_all(s, k))
    } else {
        Err(Error::IllegalCharacter)
    }
}

/// The outcome of a string operation, with the string seen as its characters.
pub open spec fn result_view(r: Result<String, Error>) -> Result<Seq<char>, Error> {
    match r {
        Ok(s) => Ok(s@),
        Err(e) => Err(e),
    }
}

/// `r` with the generic illegal-character error replaced by `e`.
pub open spec fn remapped(r: Result<Seq<char>, Error>, e: Error) -> Result<Seq<char>, Error> {
    match r {
        Err(Error::IllegalCharacter) => Err(e),
        _ => r,
    }
}

/// Decodes `s` against `k`, reporting an illegal character as `e`.
pub fn decode_as(s: &str, k: CharClass, e: Error) -> (r: Result<String, Error>)
    ensures
        result_view(r) == remapped(decoded(s@, k), e),
{
    let v = chars_of(s);
    let r = decode_range(&v, 0, v.len(), k);
    assert(v@.subrange(0, v@.len() as int) =~= s@);
    match r {
        Err(Error::IllegalCharacter) => Err(e),
        _ => r,
    }
}

/// Encodes `s` against `k`.
pub fn encode_str(s: &str, k: CharClass) -> (r: Result<String, Error>)
    ensures
        result_view(r) == encoded(s@, k),
{
    let v = chars_of(s);
    assert(v@.subrange(0, v@.len() as int) =~= s@);
    encode_range(&v, 0, v.len(), k)
}

proof fn lemma_prefixed_assoc(a: Seq<char>, b: Seq<char>, r: Result<Seq<char>, Error>)
    ensures
        prefixed(a, prefixed(b, r)) == prefixed(a + b, r),
{
    if let Ok(t) = r {
        assert(a + (b + t) =~= (a + b) + t);
    }
}

proof fn lemma_escape_all_push(s: Seq<char>, c: char, k: CharClass)
    ensures
        escape_all(s.push(c), k) == escape_all(s, k) + escape(c, k),
    decreases s.len(),
{
    if s.len() == 0 {
        assert(s.push(c).drop_first() =~= s);
        assert(s.push(c)[0] == c);
        assert(escape_all(s, k) =~= Seq::<char>::empty());
        assert(escape_all(s.push(c), k) =~= escape_all(s, k) + escape(c, k));
    } else {
        assert(s.push(c).drop_first() =~= s.drop_first().push(c));
        lemma_escape_all_push(s.drop_first(), c, k);
        assert(escape_all(s.push(c), k) =~= escape_all(s, k) + escape(c, k));
    }
}

/// Decodes `v[lo..hi]` against `k`.
pub fn decode_range(v: &Vec<char>, lo: usize, hi: usize, k: CharClass) -> (r: Result<String, Error>)
    requires
        lo <= hi <= v@.len(),
    ensures
        result_view(r) == decoded(v@.subrange(lo as int, hi as int), k),
{
    let mut out = String::new();
    let mut i: usize = lo;
    assert(out@ + v@.subrange(lo as int, hi as int) =~= v@.subrange(lo as int, hi as int));
    while i < hi
        invariant
            lo <= i <= hi <= v@.len(),
            decoded(v@.subrange(lo as int, hi as int), k) == prefixed(
                out@,
                decoded(v@.subrange(i as int, hi as int), k),
            ),
        decreases hi - i,
    {
        let ghost rest = v@.subrange(i as int, hi as int);
        let c = v[i];
        let ghost out0 = out@;
        assert(rest[0] == c);
        if c == '%' {
            if hi - i < 3 {
                return Err(Error::IllegalPercentEncoding);
            }
            let h = v[i + 1];
            let l = v[i + 2];
            assert(rest[1] == h && rest[2] == l);
            if !hexdig(h) || !hexdig(l) {
                return Err(Error::IllegalPercentEncoding);
            }
            let hv = hex_value_of(h);
            let lv = hex_value_of(l);
            if hv > 7 {
                return Err(Error::IllegalPercentEncoding);
            }
            let d = (hv * 16 + lv) as char;
            assert(d == escaped_char(h, l));
            out.push(d);
            assert(rest.subrange(3, rest.len() as int) =~= v@.subrange(i + 3, hi as int));
            proof {
                lemma_prefixed_assoc(out0, seq![d], decoded(v@.subrange(i + 3, hi as int), k));
                assert(out0 + seq![d] =~= out@);
            }
            i = i + 3;
        } else if k.contains(c) {
            out.push(c);
            assert(rest.drop_first() =~= v@.subrange(i + 1, hi as int));
            proof {
                lemma_prefixed_assoc(out0, seq![c], decoded(v@.subrange(i + 1, hi as int), k));
                assert(out0 + seq![c] =~= out@);
            }
            i = i + 1;
        } else {
            return Err(Error::IllegalCharacter);
        }
    }
    assert(out@ + Seq::<char>::empty() =~= out@);
    Ok(out)
}

/// Encodes `v[lo..hi]` against `k`.
pub fn encode_range(v: &Vec<char>, lo: usize, hi: usize, k: CharClass) -> (r: Result<String, Error>)
    requires
        lo <= hi <= v@.len(),
    ensures
        result_view(r) == encoded(v@.subrange(lo as int, hi as int), k),
{
    let mut out = String::new();
    let mut i: usize = lo;
    while i < hi
        invariant
            lo <= i <= hi <= v@.len(),
            out@ == escape_all(v@.subrange(lo as int, i as int), k),
            encodable(v@.subrange(lo as int, i as int), k),
        decreases hi - i,
    {
        let c = v[i];
        proof {
            assert(v@.subrange(lo as int, i + 1) =~= v@.subrange(lo as int, i as int).push(c));
            lemma_escape_all_push(v@.subrange(lo as int, i as int), c, k);
        }
        if k.contains(c) {
            out.push(c);
        } else {
            let cv: u32 = c as u32;
            if cv > 0x7f {
                assert(!encodable(v@.subrange(lo as int, hi as int), k)) by {
                    assert(v@.subrange(lo as int, hi as int)[i - lo] == c);
                }
                return Err(Error::IllegalCharacter);
            }
            out.push('%');
            out.push(hex_digit_of((cv / 16) as u8));
            out.push(hex_digit_of((cv % 16) as u8));
            assert(out@ =~= escape_all(v@.subrange(lo as int, i as int), k) + escape(c, k));
        }
        i = i + 1;
        assert(encodable(v@.subrange(lo as int, i as int), k)) by {
            assert forall|j: int| 0 <= j < i - lo implies in_class(k, #[trigger] v@.subrange(lo as int, i as int)[j])
                || v@.subrange(lo as int, i as int)[j] as u32 <= 0x7f by {
                if j < i - 1 - lo {
                    assert(v@.subrange(lo as int, i as int)[j] == v@.subrange(lo as int, i - 1)[j]);
                }
            }
        }
    }
    Ok(out)
}

pub proof fn lemma_hex_digit(n: nat)
    requires
        n < 16,
    ensures
        is_hexdig(hex_digit(n)),
        hex_value(hex_digit(n)) == n,
{
}

proof fn lemma_decode_escape(c: char, rest: Seq<char>, k: CharClass)
    requires
        c as u32 <= 0x7f,
    ensures
        decoded(escape(c, k) + rest, k) == prefixed(seq![c], decoded(rest, k)),
{
    let s = escape(c, k) + rest;
    lemma_percent_in_no_class(k);
    if in_class(k, c) {
        assert(s.drop_first() =~= rest);
    } else {
        let h = hex_digit((c as u32 / 16) as nat);
        let l = hex_digit((c as u32 % 16) as nat);
        lemma_hex_digit((c as u32 / 16) as nat);
        lemma_hex_digit((c as u32 % 16) as nat);
        assert(s[1] == h && s[2] == l);
        assert(s.subrange(3, s.len() as int) =~= rest);
        assert(hex_value(h) * 16 + hex_value(l) == c as u32);
        assert(escaped_char(h, l) == c);
    }
}

/// Decoding what was encoded against the same class gives back the seven-bit input.
pub proof fn lemma_decode_encode(s: Seq<char>, k: CharClass)
    requires
        forall|i: int| 0 <= i < s.len() ==> #[trigger] s[i] as u32 <= 0x7f,
    ensures
        encoded(s, k) == Ok::<Seq<char>, Error>(escape_all(s, k)),
        decoded(escape_all(s, k), k) == Ok::<Seq<char>, Error>(s),
    decreases s.len(),
{
    if s.len() > 0 {
        let t = s.drop_first();
        assert forall|i: int| 0 <= i < t.len() implies #[trigger] t[i] as u32 <= 0x7f by {
            assert(t[i] == s[i + 1]);
        }
        lemma_decode_encode(t, k);
        assert(s[0] as u32 <= 0x7f);
        lemma_decode_escape(s[0], escape_all(t, k), k);
        assert(escape_all(s, k) == escape(s[0], k) + escape_all(t, k));
        assert(decoded(escape_all(t, k), k) == Ok::<Seq<char>, Error>(t));
        assert(seq![s[0]] + t =~= s);
        assert(prefixed(seq![s[0]], decoded(escape_all(t, k), k)) == Ok::<Seq<char>, Error>(s));
    } else {
        assert(escape_all(s, k) =~= Seq::<char>::empty());
        assert(s =~= Seq::<char>::empty());
    }
}

/// `%` belongs to no class: it always stands for an escape.
proof fn lemma_percent_in_no_class(k: CharClass)
    ensures
        !in_class(k, '%'),
{
}

/// Every escape in `p` stands for a character outside `k` and is written with upper-case
/// digits, as encoding writes it.
pub open spec fn escapes_canonical(p: Seq<char>, k: CharClass) -> bool
    decreases p.len(),
{
    if p.len() == 0 {
        true
    } else if p[0] == '%' {
        &&& p.len() >= 3
        &&& !in_class(k, escaped_char(p[1], p[2]))
        &&& p[1] == hex_digit(hex_value(p[1]))
        &&& p[2] == hex_digit(hex_value(p[2]))
        &&& escapes_canonical(p.subrange(3, p.len() as int), k)
    } else {
        escapes_canonical(p.drop_first(), k)
    }
}

/// Encoding what was decoded gives back text whose escapes are written as encoding writes them.
pub proof fn lemma_encode_decoded(p: Seq<char>, k: CharClass)
    requires
        decoded(p, k) is Ok,
        escapes_canonical(p, k),
    ensures
        encoded(decoded(p, k)->Ok_0, k) == Ok::<Seq<char>, Error>(p),
    decreases p.len(),
{
    let d = decoded(p, k)->Ok_0;
    if p.len() == 0 {
        assert(d =~= Seq::<char>::empty());
        assert(escape_all(d, k) =~= Seq::<char>::empty());
        assert(p =~= Seq::<char>::empty());
    } else {
        let (c, t) = if p[0] == '%' {
            (escaped_char(p[1], p[2]), p.subrange(3, p.len() as int))
        } else {
            (p[0], p.drop_first())
        };
        lemma_encode_decoded(t, k);
        let dt = decoded(t, k)->Ok_0;
        assert(d == seq![c] + dt);
        assert(d.drop_first() =~= dt);
        assert(d[0] == c);
        if p[0] == '%' {
            let hv = hex_value(p[1]);
            let lv = hex_value(p[2]);
            assert(hv < 8 && lv < 16);
            assert((hv * 16 + lv) / 16 == hv && (hv * 16 + lv) % 16 == lv && hv * 16 + lv <= 127)
                by (nonlinear_arith)
                requires
                    lv < 16,
                    hv < 8,
            ;
            assert(c as u32 == hv * 16 + lv);
            assert(escape(c, k) =~= p.subrange(0, 3));
            assert(p =~= p.subrange(0, 3) + t);
        } else {
            assert(in_class(k, c));
            assert(p =~= seq![c] + t);
        }
        assert(escape_all(d, k) == escape(c, k) + escape_all(dt, k));
        assert(encodable(d, k)) by {
            assert forall|i: int| 0 <= i < d.len() implies in_class(k, #[trigger] d[i]) || d[i] as u32 <= 0x7f by {
                if i > 0 {
                    assert(d[i] == dt[i - 1]);
                }
            }
        }
        assert(escape_all(d, k) =~= p);
        assert(encoded(d, k) == Ok::<Seq<char>, Error>(escape_all(d, k)));
    }
}

/// Every class holds seven-bit characters only.
pub proof fn lemma_in_class_ascii(k: CharClass, c: char)
    requires
        in_class(k, c),
    ensures
        c as u32 <= 0x7f,
{
}

/// Decoding yields seven-bit characters, and at least one where there was input.
pub proof fn lemma_decoded_ascii(s: Seq<char>, k: CharClass)
    requires
        decoded(s, k) is Ok,
    ensures
        forall|i: int| 0 <= i < decoded(s, k)->Ok_0.len() ==> #[trigger] decoded(s, k)->Ok_0[i] as u32 <= 0x7f,
        s.len() > 0 ==> decoded(s, k)->Ok_0.len() > 0,
    decreases s.len(),
{
    if s.len() > 0 {
        let d = decoded(s, k)->Ok_0;
        let (c, t) = if s[0] == '%' {
            (escaped_char(s[1], s[2]), s.subrange(3, s.len() as int))
        } else {
            (s[0], s.drop_first())
        };
        lemma_decoded_ascii(t, k);
        let dt = decoded(t, k)->Ok_0;
        assert(d == seq![c] + dt);
        if s[0] == '%' {
            let hv = hex_value(s[1]);
            let lv = hex_value(s[2]);
            assert(hv * 16 + lv <= 127) by (nonlinear_arith)
                requires
                    lv < 16,
                    hv < 8,
            ;
        } else {
            lemma_in_class_ascii(k, c);
        }
        assert forall|i: int| 0 <= i < d.len() implies #[trigger] d[i] as u32 <= 0x7f by {
            if i > 0 {
                assert(d[i] == dt[i - 1]);
            }
        }
    }
}

/// What encoding seven-bit text writes: characters of the class, `%`, and hexadecimal
/// digits; and it starts with `%` or a character of the class.
pub proof fn lemma_escape_all_chars(x: Seq<char>, k: CharClass)
    requires
        forall|i: int| 0 <= i < x.len() ==> #[trigger] x[i] as u32 <= 0x7f,
    ensures
        forall|i: int| 0 <= i < escape_all(x, k).len() ==> {
            let c = #[trigger] escape_all(x, k)[i];
            in_class(k, c) || c == '%' || is_hexdig(c)
        },
        x.len() > 0 ==> escape_all(x, k).len() > 0 && (escape_all(x, k)[0] == '%' || in_class(
            k,
            escape_all(x, k)[0],
        )),
    decreases x.len(),
{
    if x.len() > 0 {
        let t = x.drop_first();
        assert forall|i: int| 0 <= i < t.len() implies #[trigger] t[i] as u32 <= 0x7f by {
            assert(t[i] == x[i + 1]);
        }
        lemma_escape_all_chars(t, k);
        assert(x[0] as u32 <= 0x7f);
        let e = escape(x[0], k);
        let et = escape_all(t, k);
        if !in_class(k, x[0]) {
            lemma_hex_digit((x[0] as u32 / 16) as nat);
            lemma_hex_digit((x[0] as u32 % 16) as nat);
        }
        assert forall|i: int| 0 <= i < escape_all(x, k).len() implies {
            let c = #[trigger] escape_all(x, k)[i];
            in_class(k, c) || c == '%' || is_hexdig(c)
        } by {
            if i >= e.len() {
                assert(escape_all(x, k)[i] == et[i - e.len()]);
            } else {
                assert(escape_all(x, k)[i] == e[i]);
            }
        }
        assert(escape_all(x, k)[0] == e[0]);
    } else {
        assert(escape_all(x, k) =~= Seq::<char>::empty());
    }
}

enum Progress {
    Pending,
    Done(Result<String, Error>),
}

/// One-shot percent-decoder of a character sequence against a class; the outcome is kept,
/// so that further calls hand back the same result.
pub struct Decoder {
    input: Vec<char>,
    class: CharClass,
    progress: Progress,
}

impl Decoder {
    pub closed spec fn input(&self) -> Seq<char> {
        self.input@
    }

    pub closed spec fn class(&self) -> CharClass {
        self.class
    }

    /// The outcome of the first call to `decode`, once there was one.
    pub closed spec fn outcome(&self) -> Option<Result<Seq<char>, Error>> {
        match self.progress {
            Progress::Pending => None,
            Progress::Done(r) => Some(result_view(r)),
        }
    }

    pub open spec fn wf(&self) -> bool {
        self.outcome() is Some ==> self.outcome() == Some(decoded(self.input(), self.class()))
    }

    pub fn new(input: Vec<char>, class: CharClass) -> (r: Self)
        ensures
            r.input() == input@,
            r.class() == class,
            r.outcome() is None,
            r.wf(),
    {
        Decoder { input, class, progress: Progress::Pending }
    }

    /// Decodes the input; a second call returns what the first returned.
    pub fn decode(&mut self) -> (r: Result<String, Error>)
        requires
            old(self).wf(),
        ensures
            result_view(r) == decoded(old(self).input(), old(self).class()),
            old(self).outcome() is Some ==> old(self).outcome() == Some(result_view(r)),
            final(self).outcome() == Some(result_view(r)),
            final(self).input() == old(self).input(),
            final(self).class() == old(self).class(),
            final(self).wf(),
    {
        match &self.progress {
            Progress::Done(r) => {
                return match r {
                    Ok(s) => Ok(s.clone()),
                    Err(e) => Err(*e),
                };
            },
            Progress::Pending => {},
        }
        let r = decode_range(&self.input, 0, self.input.len(), self.class);
        proof {
            assert(self.input@.subrange(0, self.input@.len() as int) =~= self.input@);
        }
        let kept = match &r {
            Ok(s) => Ok(s.clone()),
            Err(e) => Err(*e),
        };
        self.progress = Progress::Done(kept);
        r
    }
}

/// One-shot percent-encoder of a character sequence against a class; the outcome is kept,
/// so that further calls hand back the same result.
pub struct Encoder {
    input: Vec<char>,
    class: CharClass,
    progress: Progress,
}

impl Encoder {
    pub closed spec fn input(&self) -> Seq<char> {
        self.input@
    }

    pub closed spec fn class(&self) -> CharClass {
        self.class
    }

    /// The outcome of the first call to `encode`, once there was one.
    pub closed spec fn outcome(&self) -> Option<Result<Seq<char>, Error>> {
        match self.progress {
            Progress::Pending => None,
            Progress::Done(r) => Some(result_view(r)),
        }
    }

    pub open spec fn wf(&self) -> bool {
        self.outcome() is Some ==> self.outcome() == Some(encoded(self.input(), self.class()))
    }

    pub fn new(input: Vec<char>, class: CharClass) -> (r: Self)
        ensures
            r.input() == input@,
            r.class() == class,
            r.outcome() is None,
            r.wf(),
    {
        Encoder { input, class, progress: Progress::Pending }
    }

    /// Encodes the input; a second call returns what the first returned.
    pub fn encode(&mut self) -> (r: Result<String, Error>)
        requires
            old(self).wf(),
        ensures
            result_view(r) == encoded(old(self).input(), old(self).class()),
            old(self).outcome() is Some ==> old(self).outcome() == Some(result_view(r)),
            final(self).outcome() == Some(result_view(r)),
            final(self).input() == old(self).input(),
            final(self).class() == old(self).class(),
            final(self).wf(),
    {
        match &self.progress {
            Progress::Done(r) => {
                return match r {
                    Ok(s) => Ok(s.clone()),
                    Err(e) => Err(*e),
                };
            },
            Progress::Pending => {},
        }
        let r = encode_range(&self.input, 0, self.input.len(), self.class);
        proof {
            assert(self.input@.subrange(0, self.input@.len() as int) =~= self.input@);
        }
        let kept = match &r {
            Ok(s) => Ok(s.clone()),
            Err(e) => Err(*e),
        };
        self.progress = Progress::Done(kept);
        r
    }
}

} // verus!
