use vstd::prelude::*;

use crate::classes::{hexdig, in_class, is_hexdig, CharClass};
use crate::text::chars_of;

verus! {

/// What the IPv6 scan knows after a prefix of the literal.
pub ghost struct Ip6Scan {
    /// Colons seen so far.
    pub colons: nat,
    /// Whether a `::` was seen.
    pub double: bool,
    /// Hexadecimal digits since the last colon.
    pub group: nat,
    /// Whether the last character was a colon.
    pub after_colon: bool,
}

pub open spec fn ip6_start() -> Ip6Scan {
    Ip6Scan { colons: 0, double: false, group: 0, after_colon: false }
}

/// One character of the scan; `None` rejects the literal.
pub open spec fn ip6_step(st: Ip6Scan, c: char) -> Option<Ip6Scan> {
    if c == ':' {
        if st.colons >= 7 {
            None
        } else if st.after_colon {
            if st.double {
                None
            } else {
                Some(Ip6Scan { colons: st.colons + 1, double: true, group: 0, after_colon: true })
            }
        } else {
            Some(Ip6Scan { colons: st.colons + 1, double: st.double, group: 0, after_colon: true })
        }
    } else if st.group >= 4 || !is_hexdig(c) {
        None
    } else {
        Some(Ip6Scan { colons: st.colons, double: st.double, group: st.group + 1, after_colon: false })
    }
}

/// The scan over the first `n` characters of `s`.
pub open spec fn ip6_scan(s: Seq<char>, n: int) -> Option<Ip6Scan>
    decreases n,
{
    if n <= 0 {
        Some(ip6_start())
    } else {
        match ip6_scan(s, n - 1) {
            None => None,
            Some(st) => ip6_step(st, s[n - 1]),
        }
    }
}

/// A bracket-stripped IPv6 literal: non-empty, at most seven colons, at most one `::`, groups
/// of at most four hexadecimal digits, and either seven colons or a `::`.
pub open spec fn is_ipv6(s: Seq<char>) -> bool {
    s.len() > 0 && match ip6_scan(s, s.len() as int) {
        Some(st) => st.colons == 7 || st.double,
        None => false,
    }
}

/// A bracket-stripped IPvFuture literal: `v` or `V`, a hexadecimal digit, `.`, no `%`, and
/// then only unreserved characters, sub-delimiters and `:`.
pub open spec fn is_ipvfuture(s: Seq<char>) -> bool {
    &&& s.len() >= 3
    &&& s[0] == 'v' || s[0] == 'V'
    &&& is_hexdig(s[1])
    &&& s[2] == '.'
    &&& !s.contains('%')
    &&& forall|i: int| 3 <= i < s.len() ==> in_class(CharClass::IpFuture, #[trigger] s[i])
}

/// The number of colons among the first `n` characters of `s`.
pub open spec fn colon_count(s: Seq<char>, n: int) -> nat
    decreases n,
{
    if n <= 0 {
        0
    } else {
        colon_count(s, n - 1) + if s[n - 1] == ':' { 1nat } else { 0nat }
    }
}

/// Whether `s` holds `::` at `i`.
pub open spec fn double_colon_at(s: Seq<char>, i: int) -> bool {
    0 <= i && i + 1 < s.len() && s[i] == ':' && s[i + 1] == ':'
}

/// Whether `s` holds five hexadecimal digits in a row from `i`.
pub open spec fn five_hex_at(s: Seq<char>, i: int) -> bool {
    0 <= i && i + 5 <= s.len() && forall|j: int| i <= j < i + 5 ==> is_hexdig(#[trigger] s[j])
}

proof fn lemma_scan_rejected_stays(s: Seq<char>, k: int, m: int)
    requires
        0 <= k <= m,
        ip6_scan(s, k) is None,
    ensures
        ip6_scan(s, m) is None,
    decreases m - k,
{
    if k < m {
        lemma_scan_rejected_stays(s, k, m - 1);
    }
}

proof fn lemma_scan_facts(s: Seq<char>, k: int)
    requires
        0 <= k <= s.len(),
        ip6_scan(s, k) is Some,
    ensures
        ({
            let st = ip6_scan(s, k)->0;
            &&& st.colons == colon_count(s, k)
            &&& st.colons <= 7
            &&& st.group <= 4
            &&& st.group <= k
            &&& st.after_colon == (k > 0 && s[k - 1] == ':')
            &&& st.double == (exists|i: int| i + 1 < k && #[trigger] double_colon_at(s, i))
            &&& (k - st.group == 0 || s[k - st.group - 1] == ':')
            &&& forall|j: int| k - st.group <= j < k ==> #[trigger] s[j] != ':'
        }),
    decreases k,
{
    if k > 0 {
        lemma_scan_facts(s, k - 1);
        let st = ip6_scan(s, k - 1)->0;
        let nx = ip6_scan(s, k)->0;
        if s[k - 1] == ':' && st.after_colon && !st.double {
            assert(double_colon_at(s, k - 2));
        }
        if nx.double && !st.double {
            assert(double_colon_at(s, k - 2));
        }
        if st.double {
            assert(nx.double);
        }
        if !nx.double {
            assert forall|i: int| i + 1 < k implies !#[trigger] double_colon_at(s, i) by {
                if i + 1 < k - 1 {
                } else {
                    assert(i == k - 2);
                }
            }
        }
    }
}

proof fn lemma_scan_chars(s: Seq<char>, k: int)
    requires
        0 <= k <= s.len(),
        ip6_scan(s, k) is Some,
    ensures
        forall|j: int| 0 <= j < k ==> #[trigger] s[j] == ':' || is_hexdig(s[j]),
    decreases k,
{
    if k > 0 {
        lemma_scan_chars(s, k - 1);
    }
}

/// An IPv6 literal holds colons and hexadecimal digits only.
pub proof fn lemma_ipv6_chars(s: Seq<char>)
    requires
        is_ipv6(s),
    ensures
        forall|j: int| 0 <= j < s.len() ==> #[trigger] s[j] == ':' || is_hexdig(s[j]),
{
    lemma_scan_chars(s, s.len() as int);
}

/// The IPv6 check rejects a literal with more than seven colons, with two occurrences of
/// `::`, or with a group of more than four hexadecimal digits.
pub proof fn lemma_ipv6_rejects(s: Seq<char>)
    ensures
        colon_count(s, s.len() as int) > 7 ==> !is_ipv6(s),
        (exists|i: int, j: int| #![trigger double_colon_at(s, i), double_colon_at(s, j)] i < j && double_colon_at(s, i) && double_colon_at(s, j))
            ==> !is_ipv6(s),
        (exists|i: int| #[trigger] five_hex_at(s, i)) ==> !is_ipv6(s),
{
    let n = s.len() as int;
    if ip6_scan(s, n) is Some {
        lemma_scan_facts(s, n);
    }
    if exists|i: int, j: int| #![trigger double_colon_at(s, i), double_colon_at(s, j)] i < j && double_colon_at(s, i) && double_colon_at(s, j) {
        let (i, j) = choose|i: int, j: int| #![trigger double_colon_at(s, i), double_colon_at(s, j)] i < j && double_colon_at(s, i) && double_colon_at(s, j);
        if ip6_scan(s, j + 1) is Some {
            lemma_scan_facts(s, j + 1);
            assert(ip6_scan(s, j + 1)->0.double);
            assert(ip6_scan(s, j + 2) is None);
        } else {
            lemma_scan_rejected_stays(s, j + 1, j + 2);
        }
        lemma_scan_rejected_stays(s, j + 2, n);
    }
    if exists|i: int| #[trigger] five_hex_at(s, i) {
        let i = choose|i: int| #[trigger] five_hex_at(s, i);
        if ip6_scan(s, i + 5) is Some {
            lemma_scan_facts(s, i + 5);
            let st = ip6_scan(s, i + 5)->0;
            assert(is_hexdig(s[i + 5 - st.group - 1]));
            assert(false);
        }
        lemma_scan_rejected_stays(s, i + 5, n);
    }
}

/// The state of the IPv6 scan over a literal.
struct IPv6Parser {
    had_double_colon: bool,
    input: Vec<char>,
    position: usize,
    colon_counter: u8,
    char_counter: u8,
    max_colons: u8,
}

impl IPv6Parser {
    fn new(input: &str) -> (r: Self)
        ensures
            r.input@ == input@,
            r.position == 0,
            !r.had_double_colon,
            r.colon_counter == 0,
            r.char_counter == 0,
            r.max_colons == 7,
    {
        IPv6Parser {
            had_double_colon: false,
            input: chars_of(input),
            position: 0,
            colon_counter: 0,
            char_counter: 0,
            max_colons: 7,
        }
    }

    fn is_valid(&mut self) -> (r: bool)
        requires
            old(self).position == 0,
            !old(self).had_double_colon,
            old(self).colon_counter == 0,
            old(self).char_counter == 0,
            old(self).max_colons == 7,
        ensures
            r == is_ipv6(old(self).input@),
    {
        let ghost s = self.input@;
        let n = self.input.len();
        if n == 0 {
            return false;
        }
        let mut colon = false;
        while self.position < n
            invariant
                self.input@ == s,
                old(self).input@ == s,
                n == s.len(),
                self.max_colons == 7,
                self.position <= n,
                ip6_scan(s, self.position as int) == Some(
                    Ip6Scan {
                        colons: self.colon_counter as nat,
                        double: self.had_double_colon,
                        group: self.char_counter as nat,
                        after_colon: colon,
                    },
                ),
                self.colon_counter <= 7,
                self.char_counter <= 4,
            decreases n - self.position,
        {
            let c = self.input[self.position];
            self.position = self.position + 1;
            assert(c == s[self.position - 1]);
            if c == ':' {
                if self.colon_counter >= self.max_colons {
                    proof {
                        assert(ip6_scan(s, self.position as int) is None);
                        lemma_scan_rejected_stays(s, self.position as int, n as int);
                    }
                    return false;
                }
                if colon {
                    if self.had_double_colon {
                        proof {
                            lemma_scan_rejected_stays(s, self.position as int, n as int);
                        }
                        return false;
                    }
                    self.had_double_colon = true;
                    self.colon_counter = self.colon_counter + 1;
                    self.char_counter = 0;
                } else {
                    colon = true;
                    self.colon_counter = self.colon_counter + 1;
                    self.char_counter = 0;
                }
            } else {
                if self.char_counter >= 4 || !hexdig(c) {
                    proof {
                        assert(ip6_scan(s, self.position as int) is None);
                        lemma_scan_rejected_stays(s, self.position as int, n as int);
                    }
                    return false;
                }
                colon = false;
                self.char_counter = self.char_counter + 1;
            }
        }
        self.max_colons <= self.colon_counter || self.had_double_colon
    }
}

/// Whether `input`, without its brackets, is an IPvFuture literal.
pub fn is_valid_ip_v_future(input: &str) -> (r: bool)
    ensures
        r == is_ipvfuture(input@),
{
    let s = chars_of(input);
    let n = s.len();
    if n < 3 || (s[0] != 'v' && s[0] != 'V') || !hexdig(s[1]) || s[2] != '.' {
        return false;
    }
    let mut i: usize = 0;
    while i < n
        invariant
            s@ == input@,
            n == s@.len(),
            i <= n,
            forall|j: int| 0 <= j < i ==> s@[j] != '%',
        decreases n - i,
    {
        if s[i] == '%' {
            assert(s@.contains('%')) by {
                assert(s@[i as int] == '%');
            }
            return false;
        }
        i = i + 1;
    }
    let mut i: usize = 3;
    while i < n
        invariant
            s@ == input@,
            n == s@.len(),
            3 <= i <= n,
            forall|j: int| 3 <= j < i ==> in_class(CharClass::IpFuture, #[trigger] s@[j]),
        decreases n - i,
    {
        if !CharClass::IpFuture.contains(s[i]) {
            return false;
        }
        i = i + 1;
    }
    true
}

/// Whether `input`, without its brackets, is an IPv6 literal.
pub fn is_valid_ip_v6(input: &str) -> (r: bool)
    ensures
        r == is_ipv6(input@),
{
    let mut parser = IPv6Parser::new(input);
    parser.is_valid()
}

} // verus!
