//! Absolute `http` and `https` URLs in normal form: lower-cased scheme and
//! host, explicit port, dot-free path, query kept, fragment dropped. Two URLs
//! denote the same page exactly when their views are equal.

use crate::text::{
    append, ascii, copy, copy_range, find, find_last, index_of, last_index_of, lemma_index_of,
    lemma_last_index_of, literal, lower_range, lower_seq, same, starts_with, trim, trim_range,
    COLON, DELETE, DIGIT_NINE, DIGIT_ZERO, DOT, HASH, QUESTION, SLASH, SPACE,
};
use vstd::prelude::*;
use vstd::slice::slice_subrange;

verus! {

/// The byte `+`.
pub const PLUS: u8 = 43;
/// The byte `-`.
pub const MINUS: u8 = 45;
/// The byte `_`.
pub const UNDERSCORE: u8 = 95;

/// The schemes that a crawl follows.
#[derive(Clone, Copy, Debug, PartialEq, Eq, Structural)]
pub enum Scheme {
    Http,
    Https,
}

/// Why a text writes no URL.
#[derive(Clone, Copy, Debug, PartialEq, Eq, Structural)]
pub enum UrlError {
    /// A byte outside printable ASCII, or a space.
    InvalidCharacter,
    /// No `:` ends a scheme name.
    MissingScheme,
    /// The scheme is neither `http` nor `https`.
    UnsupportedScheme,
    /// The scheme is not followed by `//`.
    MissingAuthority,
    /// Nothing stands where the host should.
    EmptyHost,
    /// The host holds a byte that no host name has.
    InvalidHost,
    /// The port is not a decimal number from 1 to 65535.
    InvalidPort,
}

/// What a URL is: the value that contracts speak of.
pub struct UrlView {
    pub scheme: Scheme,
    pub host: Seq<u8>,
    pub port: u16,
    pub path: Seq<u8>,
    pub query: Seq<u8>,
}

/// Scheme, host and port: the unit that a robots policy and a crawl delay apply to.
pub struct OriginView {
    pub scheme: Scheme,
    pub host: Seq<u8>,
    pub port: u16,
}

/// An absolute URL in normal form.
pub struct Url {
    scheme: Scheme,
    host: Vec<u8>,
    port: u16,
    path: Vec<u8>,
    query: Vec<u8>,
}

/// The origin of a URL.
pub struct Origin {
    scheme: Scheme,
    host: Vec<u8>,
    port: u16,
}

impl Scheme {
    /// The scheme's name in lower case.
    pub open spec fn name(self) -> Seq<u8> {
        match self {
            Scheme::Http => ascii("http"@),
            Scheme::Https => ascii("https"@),
        }
    }

    /// The port that a URL of this scheme has when it names none.
    pub open spec fn default_port(self) -> u16 {
        match self {
            Scheme::Http => 80,
            Scheme::Https => 443,
        }
    }

    /// The port that a URL of this scheme has when it names none.
    pub fn port(self) -> (p: u16)
        ensures
            p == self.default_port(),
    {
        match self {
            Scheme::Http => 80,
            Scheme::Https => 443,
        }
    }

    /// The scheme's name in lower case.
    pub fn label(self) -> (b: &'static [u8])
        ensures
            b@ == self.name(),
    {
        proof {
            reveal_strlit("http");
            reveal_strlit("https");
        }
        match self {
            Scheme::Http => literal("http"),
            Scheme::Https => literal("https"),
        }
    }
}

/// Printable ASCII other than the space.
pub open spec fn is_url_byte(b: u8) -> bool {
    SPACE < b && b < DELETE
}

/// Every byte may stand in a URL.
pub open spec fn all_url_bytes(s: Seq<u8>) -> bool {
    forall|i: int| 0 <= i < s.len() ==> is_url_byte(#[trigger] s[i])
}

/// A decimal digit.
pub open spec fn is_digit(b: u8) -> bool {
    DIGIT_ZERO <= b && b <= DIGIT_NINE
}

/// An ASCII letter.
pub open spec fn is_alpha(b: u8) -> bool {
    (65 <= b && b <= 90) || (97 <= b && b <= 122)
}

/// A byte of a lower-cased host name.
pub open spec fn is_host_byte(b: u8) -> bool {
    (97 <= b && b <= 122) || is_digit(b) || b == MINUS || b == DOT || b == UNDERSCORE
}

/// Every byte may stand in a lower-cased host name.
pub open spec fn all_host_bytes(s: Seq<u8>) -> bool {
    forall|i: int| 0 <= i < s.len() ==> is_host_byte(#[trigger] s[i])
}

/// Every byte is a decimal digit.
pub open spec fn all_digits(s: Seq<u8>) -> bool {
    forall|i: int| 0 <= i < s.len() ==> is_digit(#[trigger] s[i])
}

/// The number that the decimal digits `s` write.
pub open spec fn decimal_value(s: Seq<u8>) -> nat
    decreases s.len(),
{
    if s.len() == 0 {
        0
    } else {
        (decimal_value(s.drop_last()) * 10 + (s.last() - DIGIT_ZERO)) as nat
    }
}

/// The decimal digits of `n`, without leading zeros.
pub open spec fn decimal(n: nat) -> Seq<u8>
    decreases n,
{
    if n < 10 {
        seq![(DIGIT_ZERO + n) as u8]
    } else {
        decimal(n / 10).push((DIGIT_ZERO + n % 10) as u8)
    }
}

/// `s` up to, and without, its first `#`.
pub open spec fn without_fragment(s: Seq<u8>) -> Seq<u8> {
    s.subrange(0, index_of(s, HASH))
}

/// The scheme that goes by the lower-cased name `name`.
pub open spec fn scheme_named(name: Seq<u8>) -> Option<Scheme> {
    if name == Scheme::Http.name() {
        Some(Scheme::Http)
    } else if name == Scheme::Https.name() {
        Some(Scheme::Https)
    } else {
        None
    }
}

/// A port is written as decimal digits and lies between 1 and 65535.
pub open spec fn parse_port(s: Seq<u8>) -> Option<u16> {
    if s.len() > 0 && all_digits(s) && 1 <= decimal_value(s) <= 65535 {
        Some(decimal_value(s) as u16)
    } else {
        None
    }
}

/// Host and port of the authority `auth`, which is `host`, `host:` or `host:port`.
pub open spec fn parse_authority(auth: Seq<u8>, scheme: Scheme) -> Result<(Seq<u8>, u16), UrlError> {
    let c = index_of(auth, COLON);
    let host = lower_seq(auth.subrange(0, c));
    if host.len() == 0 {
        Err(UrlError::EmptyHost)
    } else if !all_host_bytes(host) {
        Err(UrlError::InvalidHost)
    } else if c + 1 >= auth.len() {
        Ok((host, scheme.default_port()))
    } else {
        match parse_port(auth.subrange(c + 1, auth.len() as int)) {
            Some(p) => Ok((host, p)),
            None => Err(UrlError::InvalidPort),
        }
    }
}

/// `out` without its last segment and the slash before it.
pub open spec fn parent(out: Seq<u8>) -> Seq<u8> {
    let k = last_index_of(out, SLASH);
    if k < 0 {
        Seq::empty()
    } else {
        out.subrange(0, k)
    }
}

/// One pass over the segments of `input`, each with the slash before it:
/// `.` is dropped, `..` also takes back the segment before it, anything
/// else moves to `out`. A dot segment at the very end leaves a slash.
pub open spec fn dots_step(input: Seq<u8>, out: Seq<u8>) -> Seq<u8>
    decreases input.len(),
{
    if input.len() == 0 {
        out
    } else {
        proof {
            lemma_index_of(input.subrange(1, input.len() as int), SLASH);
        }
        let n = 1 + index_of(input.subrange(1, input.len() as int), SLASH);
        let name = input.subrange(1, n);
        let rest = input.subrange(n, input.len() as int);
        if name == seq![DOT] {
            if rest.len() == 0 {
                out.push(SLASH)
            } else {
                dots_step(rest, out)
            }
        } else if name == seq![DOT, DOT] {
            if rest.len() == 0 {
                parent(out).push(SLASH)
            } else {
                dots_step(rest, parent(out))
            }
        } else {
            dots_step(rest, out + input.subrange(0, n))
        }
    }
}

/// The path `raw` with its `.` and `..` segments resolved; the empty path is `/`.
pub open spec fn normalize_path(raw: Seq<u8>) -> Seq<u8> {
    if raw.len() == 0 {
        seq![SLASH]
    } else {
        dots_step(raw, Seq::empty())
    }
}

/// The URL with the given origin whose path and query `target` writes.
pub open spec fn locate(scheme: Scheme, host: Seq<u8>, port: u16, target: Seq<u8>) -> UrlView {
    let q = index_of(target, QUESTION);
    UrlView {
        scheme,
        host,
        port,
        path: normalize_path(target.subrange(0, q)),
        query: target.subrange(q, target.len() as int),
    }
}

/// What follows `scheme://`: an authority, then path and query.
pub open spec fn parse_hierarchy(rest: Seq<u8>, scheme: Scheme) -> Result<UrlView, UrlError> {
    let a = authority_len(rest);
    match parse_authority(rest.subrange(0, a), scheme) {
        Err(e) => Err(e),
        Ok((host, port)) => Ok(locate(scheme, host, port, rest.subrange(a, rest.len() as int))),
    }
}

/// The URL that the text `s` writes, or why it writes none.
pub open spec fn parse_url(s: Seq<u8>) -> Result<UrlView, UrlError> {
    let t = without_fragment(s);
    let c = index_of(t, COLON);
    if !all_url_bytes(t) {
        Err(UrlError::InvalidCharacter)
    } else if c >= t.len() {
        Err(UrlError::MissingScheme)
    } else {
        match scheme_named(lower_seq(t.subrange(0, c))) {
            None => Err(UrlError::UnsupportedScheme),
            Some(scheme) => {
                let after = t.subrange(c + 1, t.len() as int);
                if !starts_with(after, seq![SLASH, SLASH]) {
                    Err(UrlError::MissingAuthority)
                } else {
                    parse_hierarchy(after.subrange(2, after.len() as int), scheme)
                }
            },
        }
    }
}

/// Length of the authority at the start of `rest`: it runs to the first `/` or `?`.
pub open spec fn authority_len(rest: Seq<u8>) -> int {
    let s = index_of(rest, SLASH);
    let q = index_of(rest, QUESTION);
    if s <= q {
        s
    } else {
        q
    }
}

impl UrlView {
    /// What every `Url` satisfies.
    pub open spec fn wf(self) -> bool {
        &&& self.host.len() > 0
        &&& all_host_bytes(self.host)
        &&& self.port >= 1
        &&& self.path.len() > 0
        &&& self.path[0] == SLASH
        &&& self.query.len() > 0 ==> self.query[0] == QUESTION
    }

    /// Scheme, host and port.
    pub open spec fn origin(self) -> OriginView {
        OriginView { scheme: self.scheme, host: self.host, port: self.port }
    }

    /// Where the robots.txt of this URL's origin is found.
    pub open spec fn robots_url(self) -> UrlView {
        UrlView {
            scheme: self.scheme,
            host: self.host,
            port: self.port,
            path: ascii("/robots.txt"@),
            query: Seq::empty(),
        }
    }

    /// `:` and the port, unless the port is the scheme's own.
    pub open spec fn port_text(self) -> Seq<u8> {
        if self.port == self.scheme.default_port() {
            Seq::empty()
        } else {
            seq![COLON] + decimal(self.port as nat)
        }
    }

    /// The URL written out.
    pub open spec fn text(self) -> Seq<u8> {
        self.scheme.name() + seq![COLON, SLASH, SLASH] + self.host + self.port_text() + self.path
            + self.query
    }
}

impl View for Url {
    type V = UrlView;

    closed spec fn view(&self) -> UrlView {
        UrlView {
            scheme: self.scheme,
            host: self.host@,
            port: self.port,
            path: self.path@,
            query: self.query@,
        }
    }
}

impl View for Origin {
    type V = OriginView;

    closed spec fn view(&self) -> OriginView {
        OriginView { scheme: self.scheme, host: self.host@, port: self.port }
    }
}

/// More digits never write a smaller number.
pub proof fn lemma_decimal_value_grows(s: Seq<u8>, k: int)
    requires
        all_digits(s),
        0 <= k <= s.len(),
    ensures
        decimal_value(s.subrange(0, k)) <= decimal_value(s),
    decreases s.len() - k,
{
    if k < s.len() {
        lemma_decimal_value_grows(s, k + 1);
        let t = s.subrange(0, k + 1);
        assert(t.drop_last() == s.subrange(0, k));
        assert(is_digit(s[k]));
        assert(t.last() == s[k]);
    } else {
        assert(s.subrange(0, k) == s);
    }
}

fn url_bytes_only(s: &[u8]) -> (r: bool)
    ensures
        r == all_url_bytes(s@),
{
    let mut i: usize = 0;
    while i < s.len()
        invariant
            i <= s@.len(),
            forall|k: int| 0 <= k < i ==> is_url_byte(#[trigger] s@[k]),
        decreases s@.len() - i,
    {
        if !(s[i] > SPACE && s[i] < DELETE) {
            return false;
        }
        i += 1;
    }
    true
}

fn host_bytes_only(s: &Vec<u8>) -> (r: bool)
    ensures
        r == all_host_bytes(s@),
{
    let mut i: usize = 0;
    while i < s.len()
        invariant
            i <= s@.len(),
            forall|k: int| 0 <= k < i ==> is_host_byte(#[trigger] s@[k]),
        decreases s@.len() - i,
    {
        let b = s[i];
        let ok = (b >= 97 && b <= 122) || (b >= DIGIT_ZERO && b <= DIGIT_NINE) || b == MINUS || b
            == DOT || b == UNDERSCORE;
        if !ok {
            return false;
        }
        i += 1;
    }
    true
}

fn read_port(s: &[u8]) -> (r: Option<u16>)
    ensures
        r == parse_port(s@),
{
    if s.len() == 0 {
        return None;
    }
    let mut value: u32 = 0;
    let mut i: usize = 0;
    while i < s.len()
        invariant
            i <= s@.len(),
            forall|k: int| 0 <= k < i ==> is_digit(#[trigger] s@[k]),
            value == decimal_value(s@.subrange(0, i as int)),
            value <= 65535,
        decreases s@.len() - i,
    {
        let b = s[i];
        if !(b >= DIGIT_ZERO && b <= DIGIT_NINE) {
            return None;
        }
        let ghost before = s@.subrange(0, i as int);
        let ghost now = s@.subrange(0, i + 1);
        assert(now.drop_last() == before);
        assert(now.last() == b);
        value = value * 10 + (b - DIGIT_ZERO) as u32;
        i += 1;
        if value > 65535 {
            proof {
                if all_digits(s@) {
                    lemma_decimal_value_grows(s@, i as int);
                }
            }
            return None;
        }
    }
    assert(s@.subrange(0, s@.len() as int) == s@);
    if value == 0 {
        None
    } else {
        Some(value as u16)
    }
}

fn read_authority(auth: &[u8], scheme: Scheme) -> (r: Result<(Vec<u8>, u16), UrlError>)
    ensures
        match r {
            Ok(pair) => parse_authority(auth@, scheme) == Ok::<(Seq<u8>, u16), UrlError>(
                (pair.0@, pair.1),
            ),
            Err(e) => parse_authority(auth@, scheme) == Err::<(Seq<u8>, u16), UrlError>(e),
        },
{
    let c = find(auth, 0, auth.len(), COLON);
    assert(auth@.subrange(0, auth@.len() as int) == auth@);
    let host = lower_range(auth, 0, c);
    if host.len() == 0 {
        return Err(UrlError::EmptyHost);
    }
    if !host_bytes_only(&host) {
        return Err(UrlError::InvalidHost);
    }
    if c >= auth.len() || c + 1 >= auth.len() {
        return Ok((host, scheme.port()));
    }
    match read_port(slice_subrange(auth, c + 1, auth.len())) {
        Some(p) => Ok((host, p)),
        None => Err(UrlError::InvalidPort),
    }
}


/// A path made by `dots_step` from rooted parts is rooted.
pub proof fn lemma_dots_step_rooted(input: Seq<u8>, out: Seq<u8>)
    requires
        input.len() > 0 ==> input[0] == SLASH,
        out.len() > 0 ==> out[0] == SLASH,
        input.len() > 0 || out.len() > 0,
    ensures
        dots_step(input, out).len() > 0,
        dots_step(input, out)[0] == SLASH,
    decreases input.len(),
{
    if input.len() > 0 {
        let after = input.subrange(1, input.len() as int);
        lemma_index_of(after, SLASH);
        lemma_last_index_of(out, SLASH);
        let n = 1 + index_of(after, SLASH);
        let name = input.subrange(1, n);
        let rest = input.subrange(n, input.len() as int);
        if rest.len() > 0 {
            assert(rest[0] == after[n - 1]);
        }
        if name == seq![DOT] {
            if rest.len() > 0 {
                lemma_dots_step_rooted(rest, out);
            }
        } else if name == seq![DOT, DOT] {
            if rest.len() > 0 {
                lemma_dots_step_rooted(rest, parent(out));
            }
        } else {
            lemma_dots_step_rooted(rest, out + input.subrange(0, n));
        }
    }
}

fn normalized(raw: &[u8]) -> (out: Vec<u8>)
    ensures
        out@ == normalize_path(raw@),
{
    let mut out: Vec<u8> = Vec::new();
    if raw.len() == 0 {
        out.push(SLASH);
        return out;
    }
    let len: usize = raw.len();
    let mut i: usize = 0;
    assert(raw@.subrange(0, len as int) == raw@);
    while i < len
        invariant
            i <= len,
            len == raw@.len(),
            dots_step(raw@.subrange(i as int, len as int), out@) == dots_step(raw@, Seq::empty()),
        decreases len - i,
    {
        let ghost input = raw@.subrange(i as int, len as int);
        let ghost before = out@;
        let n = find(raw, i + 1, len, SLASH);
        let name = slice_subrange(raw, i + 1, n);
        proof {
            assert(input.subrange(1, input.len() as int) == raw@.subrange(i + 1, len as int));
            assert(input.subrange(1, n - i) == name@);
            assert(input.subrange(n - i, input.len() as int) == raw@.subrange(
                n as int,
                len as int,
            ));
            assert(input.subrange(0, n - i) == raw@.subrange(i as int, n as int));
        }
        if name.len() == 1 && name[0] == DOT {
            assert(name@ == seq![DOT]);
            if n == len {
                out.push(SLASH);
            }
        } else if name.len() == 2 && name[0] == DOT && name[1] == DOT {
            assert(name@ == seq![DOT, DOT]);
            assert(seq![DOT, DOT] != seq![DOT]) by {
                assert(seq![DOT, DOT].len() == 2);
                assert(seq![DOT].len() == 1);
            }
            proof {
                lemma_last_index_of(out@, SLASH);
            }
            match find_last(out.as_slice(), SLASH) {
                Some(k) => out.truncate(k),
                None => out.clear(),
            }
            assert(out@ == parent(before));
            if n == len {
                out.push(SLASH);
            }
        } else {
            proof {
                if name@ == seq![DOT] {
                    assert(seq![DOT].len() == 1);
                    assert(seq![DOT][0] == DOT);
                }
                if name@ == seq![DOT, DOT] {
                    assert(seq![DOT, DOT].len() == 2);
                    assert(seq![DOT, DOT][0] == DOT);
                    assert(seq![DOT, DOT][1] == DOT);
                }
            }
            append(&mut out, slice_subrange(raw, i, n));
        }
        i = n;
    }
    out
}

/// Appends the decimal digits of `n`.
fn push_decimal(out: &mut Vec<u8>, n: u16)
    ensures
        final(out)@ == old(out)@ + decimal(n as nat),
    decreases n,
{
    if n >= 10 {
        push_decimal(out, n / 10);
    }
    out.push(DIGIT_ZERO + (n % 10) as u8);
}

/// The reference begins with a scheme name and its `:`.
pub open spec fn has_scheme(r: Seq<u8>) -> bool {
    let c = index_of(r, COLON);
    &&& 0 < c < r.len()
    &&& is_alpha(r[0])
    &&& forall|i: int| 0 < i < c ==> is_scheme_byte(#[trigger] r[i])
}

/// A byte of a scheme name behind its first.
pub open spec fn is_scheme_byte(b: u8) -> bool {
    is_alpha(b) || is_digit(b) || b == PLUS || b == MINUS || b == DOT
}

/// `path` up to and with its last slash.
pub open spec fn directory(path: Seq<u8>) -> Seq<u8> {
    path.subrange(0, last_index_of(path, SLASH) + 1)
}

/// The URL that `reference`, found in the page `base`, points to. Blanks
/// around the reference and its fragment do not count. An empty reference
/// is the page itself; one with a scheme stands alone; `//host/..` takes the
/// base's scheme; `/path` its origin; `?query` its path too; anything else
/// is a path relative to the base's directory.
pub open spec fn resolve(base: UrlView, reference: Seq<u8>) -> Result<UrlView, UrlError> {
    let r = without_fragment(trim(reference));
    if r.len() == 0 {
        Ok(base)
    } else if has_scheme(r) {
        parse_url(r)
    } else if starts_with(r, seq![SLASH, SLASH]) {
        parse_url(base.scheme.name() + seq![COLON] + r)
    } else if !all_url_bytes(r) {
        Err(UrlError::InvalidCharacter)
    } else {
        let target = if r[0] == SLASH {
            r
        } else if r[0] == QUESTION {
            base.path + r
        } else {
            directory(base.path) + r
        };
        Ok(locate(base.scheme, base.host, base.port, target))
    }
}

fn scheme_leads(r: &[u8]) -> (b: bool)
    ensures
        b == has_scheme(r@),
{
    let c = find(r, 0, r.len(), COLON);
    assert(r@.subrange(0, r@.len() as int) == r@);
    if c == 0 || c >= r.len() {
        return false;
    }
    let first = r[0];
    if !((first >= 65 && first <= 90) || (first >= 97 && first <= 122)) {
        return false;
    }
    let mut i: usize = 1;
    while i < c
        invariant
            1 <= i <= c < r@.len(),
            c == index_of(r@, COLON),
            is_alpha(r@[0]),
            forall|k: int| 0 < k < i ==> is_scheme_byte(#[trigger] r@[k]),
        decreases c - i,
    {
        let b = r[i];
        let ok = (b >= 65 && b <= 90) || (b >= 97 && b <= 122) || (b >= DIGIT_ZERO && b
            <= DIGIT_NINE) || b == PLUS || b == MINUS || b == DOT;
        if !ok {
            assert(!is_scheme_byte(r@[i as int]));
            return false;
        }
        i += 1;
    }
    true
}

impl Url {
    #[verifier::type_invariant]
    spec fn well_formed(self) -> bool {
        self@.wf()
    }

    /// Reads an absolute URL.
    pub fn parse(input: &[u8]) -> (r: Result<Url, UrlError>)
        ensures
            match r {
                Ok(u) => parse_url(input@) == Ok::<UrlView, UrlError>(u@) && u@.wf(),
                Err(e) => parse_url(input@) == Err::<UrlView, UrlError>(e),
            },
    {
        let end = find(input, 0, input.len(), HASH);
        assert(input@.subrange(0, input@.len() as int) == input@);
        let t = slice_subrange(input, 0, end);
        if !url_bytes_only(t) {
            return Err(UrlError::InvalidCharacter);
        }
        let c = find(t, 0, t.len(), COLON);
        assert(t@.subrange(0, t@.len() as int) == t@);
        if c >= t.len() {
            return Err(UrlError::MissingScheme);
        }
        let name = lower_range(t, 0, c);
        let scheme = if same(name.as_slice(), Scheme::Http.label()) {
            Scheme::Http
        } else if same(name.as_slice(), Scheme::Https.label()) {
            Scheme::Https
        } else {
            return Err(UrlError::UnsupportedScheme);
        };
        let after = slice_subrange(t, c + 1, t.len());
        if !(after.len() >= 2 && after[0] == SLASH && after[1] == SLASH) {
            proof {
                if starts_with(after@, seq![SLASH, SLASH]) {
                    let p = after@.subrange(0, 2);
                    assert(p[0] == SLASH && p[1] == SLASH);
                }
            }
            return Err(UrlError::MissingAuthority);
        }
        assert(after@.subrange(0, 2) == seq![SLASH, SLASH]);
        Url::read_hierarchy(slice_subrange(after, 2, after.len()), scheme)
    }

    fn read_hierarchy(rest: &[u8], scheme: Scheme) -> (r: Result<Url, UrlError>)
        ensures
            match r {
                Ok(u) => parse_hierarchy(rest@, scheme) == Ok::<UrlView, UrlError>(u@) && u@.wf(),
                Err(e) => parse_hierarchy(rest@, scheme) == Err::<UrlView, UrlError>(e),
            },
    {
        assert(rest@.subrange(0, rest@.len() as int) == rest@);
        let s = find(rest, 0, rest.len(), SLASH);
        let q = find(rest, 0, rest.len(), QUESTION);
        let a = if s <= q {
            s
        } else {
            q
        };
        match read_authority(slice_subrange(rest, 0, a), scheme) {
            Err(e) => Err(e),
            Ok((host, port)) => {
                proof {
                    lemma_index_of(rest@, SLASH);
                    lemma_index_of(rest@, QUESTION);
                }
                Ok(Url::located(scheme, host, port, slice_subrange(rest, a, rest.len())))
            },
        }
    }

    fn located(scheme: Scheme, host: Vec<u8>, port: u16, target: &[u8]) -> (u: Url)
        requires
            host@.len() > 0,
            all_host_bytes(host@),
            port >= 1,
            target@.len() > 0 ==> target@[0] == SLASH || target@[0] == QUESTION,
        ensures
            u@ == locate(scheme, host@, port, target@),
            u@.wf(),
    {
        assert(target@.subrange(0, target@.len() as int) == target@);
        let q = find(target, 0, target.len(), QUESTION);
        let raw = slice_subrange(target, 0, q);
        let path = normalized(raw);
        let query = copy_range(target, q, target.len());
        proof {
            lemma_index_of(target@, QUESTION);
            if raw@.len() > 0 {
                assert(raw@[0] == target@[0]);
                lemma_dots_step_rooted(raw@, Seq::empty());
            }
            if query@.len() > 0 {
                assert(query@[0] == target@[q as int]);
            }
        }
        Url { scheme, host, port, path, query }
    }

    /// The URL that `reference` points to when it is found in this page.
    pub fn join(&self, reference: &[u8]) -> (r: Result<Url, UrlError>)
        ensures
            match r {
                Ok(u) => resolve(self@, reference@) == Ok::<UrlView, UrlError>(u@) && u@.wf(),
                Err(e) => resolve(self@, reference@) == Err::<UrlView, UrlError>(e),
            },
    {
        proof {
            use_type_invariant(self);
        }
        let (from, to) = trim_range(reference, 0, reference.len());
        assert(reference@.subrange(0, reference@.len() as int) == reference@);
        let trimmed = slice_subrange(reference, from, to);
        let end = find(trimmed, 0, trimmed.len(), HASH);
        assert(trimmed@.subrange(0, trimmed@.len() as int) == trimmed@);
        let r = slice_subrange(trimmed, 0, end);
        proof {
            lemma_index_of(r@, HASH);
            lemma_index_of(trimmed@, HASH);
            assert forall|i: int| 0 <= i < r@.len() implies r@[i] != HASH by {
                assert(r@[i] == trimmed@[i]);
            }
            crate::text::lemma_index_of_unique(r@, HASH, r@.len() as int);
            assert(without_fragment(r@) == r@);
        }
        if r.len() == 0 {
            return Ok(self.clone());
        }
        if scheme_leads(r) {
            return Url::parse(r);
        }
        if r.len() >= 2 && r[0] == SLASH && r[1] == SLASH {
            assert(r@.subrange(0, 2) == seq![SLASH, SLASH]);
            let mut whole = copy(self.scheme.label());
            whole.push(COLON);
            append(&mut whole, r);
            assert(whole@ == self@.scheme.name() + seq![COLON] + r@);
            return Url::parse(whole.as_slice());
        }
        proof {
            if starts_with(r@, seq![SLASH, SLASH]) {
                let p = r@.subrange(0, 2);
                assert(p[0] == SLASH && p[1] == SLASH);
            }
        }
        if !url_bytes_only(r) {
            return Err(UrlError::InvalidCharacter);
        }
        let mut target: Vec<u8> = Vec::new();
        if r[0] == SLASH {
        } else if r[0] == QUESTION {
            append(&mut target, self.path.as_slice());
        } else {
            proof {
                lemma_last_index_of(self.path@, SLASH);
            }
            let len: usize = self.path.len();
            let keep: usize = match find_last(self.path.as_slice(), SLASH) {
                Some(k) => {
                    assert(k < len);
                    k + 1
                },
                None => 0,
            };
            append(&mut target, slice_subrange(self.path.as_slice(), 0, keep));
        }
        append(&mut target, r);
        proof {
            lemma_last_index_of(self.path@, SLASH);
            assert(target@[0] == SLASH || target@[0] == QUESTION);
        }
        Ok(Url::located(self.scheme, copy(self.host.as_slice()), self.port, target.as_slice()))
    }

    /// The decimal digits of a port.
    pub fn port_digits(port: u16) -> (digits: Vec<u8>)
        ensures
            digits@ == decimal(port as nat),
    {
        let mut digits: Vec<u8> = Vec::new();
        push_decimal(&mut digits, port);
        assert(digits@ == Seq::<u8>::empty() + decimal(port as nat));
        digits
    }

    /// The scheme.
    pub fn scheme(&self) -> (s: Scheme)
        ensures
            s == self@.scheme,
    {
        self.scheme
    }

    /// The host, in lower case.
    pub fn host(&self) -> (h: &[u8])
        ensures
            h@ == self@.host,
    {
        self.host.as_slice()
    }

    /// The port.
    pub fn port(&self) -> (p: u16)
        ensures
            p == self@.port,
    {
        self.port
    }

    /// The path; it begins with `/`.
    pub fn path(&self) -> (p: &[u8])
        ensures
            p@ == self@.path,
    {
        self.path.as_slice()
    }

    /// The query with its `?`, or nothing.
    pub fn query(&self) -> (q: &[u8])
        ensures
            q@ == self@.query,
    {
        self.query.as_slice()
    }

    /// Path and query together: what a request for this URL asks its origin for.
    pub fn target(&self) -> (t: Vec<u8>)
        ensures
            t@ == self@.path + self@.query,
    {
        let mut t = copy(self.path.as_slice());
        append(&mut t, self.query.as_slice());
        t
    }

    /// Scheme, host and port.
    pub fn origin(&self) -> (o: Origin)
        ensures
            o@ == self@.origin(),
    {
        Origin { scheme: self.scheme, host: copy(self.host.as_slice()), port: self.port }
    }

    /// Where the robots.txt of this URL's origin is found.
    pub fn robots_url(&self) -> (u: Url)
        ensures
            u@ == self@.robots_url(),
            u@.wf(),
    {
        proof {
            use_type_invariant(self);
            reveal_strlit("/robots.txt");
        }
        let path = copy(literal("/robots.txt"));
        assert(path@[0] == SLASH);
        Url {
            scheme: self.scheme,
            host: copy(self.host.as_slice()),
            port: self.port,
            path,
            query: Vec::new(),
        }
    }

    /// The URL written out, without the port where it is the scheme's own.
    pub fn to_bytes(&self) -> (t: Vec<u8>)
        ensures
            t@ == self@.text(),
    {
        let mut t = copy(self.scheme.label());
        t.push(COLON);
        t.push(SLASH);
        t.push(SLASH);
        assert(t@ == self@.scheme.name() + seq![COLON, SLASH, SLASH]);
        append(&mut t, self.host.as_slice());
        if self.port != self.scheme.port() {
            t.push(COLON);
            push_decimal(&mut t, self.port);
            assert(t@ == self@.scheme.name() + seq![COLON, SLASH, SLASH] + self@.host + (seq![
                COLON,
            ] + decimal(self.port as nat)));
        }
        append(&mut t, self.path.as_slice());
        append(&mut t, self.query.as_slice());
        t
    }

    /// Whether both denote the same page.
    pub fn same(&self, other: &Url) -> (r: bool)
        ensures
            r == (self@ == other@),
    {
        self.scheme == other.scheme && self.port == other.port && same(
            self.host.as_slice(),
            other.host.as_slice(),
        ) && same(self.path.as_slice(), other.path.as_slice()) && same(
            self.query.as_slice(),
            other.query.as_slice(),
        )
    }
}

impl Clone for Url {
    fn clone(&self) -> (r: Self)
        ensures
            r@ == self@,
    {
        proof {
            use_type_invariant(self);
        }
        Url {
            scheme: self.scheme,
            host: copy(self.host.as_slice()),
            port: self.port,
            path: copy(self.path.as_slice()),
            query: copy(self.query.as_slice()),
        }
    }
}

impl Origin {
    /// The origin with the given scheme, host and port.
    pub fn new(scheme: Scheme, host: &[u8], port: u16) -> (o: Origin)
        ensures
            o@ == (OriginView { scheme, host: host@, port }),
    {
        Origin { scheme, host: copy(host), port }
    }

    /// The scheme.
    pub fn scheme(&self) -> (s: Scheme)
        ensures
            s == self@.scheme,
    {
        self.scheme
    }

    /// The host.
    pub fn host(&self) -> (h: &[u8])
        ensures
            h@ == self@.host,
    {
        self.host.as_slice()
    }

    /// The port.
    pub fn port(&self) -> (p: u16)
        ensures
            p == self@.port,
    {
        self.port
    }

    /// Whether both are the same origin.
    pub fn same(&self, other: &Origin) -> (r: bool)
        ensures
            r == (self@ == other@),
    {
        self.scheme == other.scheme && self.port == other.port && same(
            self.host.as_slice(),
            other.host.as_slice(),
        )
    }
}

impl Clone for Origin {
    fn clone(&self) -> (r: Self)
        ensures
            r@ == self@,
    {
        Origin { scheme: self.scheme, host: copy(self.host.as_slice()), port: self.port }
    }
}

} // verus!
