//! Byte-string primitives shared by the parsers: case folding, prefix tests,
//! searching and copying, each with its meaning as a function on `Seq<u8>`.

use vstd::prelude::*;
use vstd::string::is_ascii;

verus! {

/// The tab.
pub const TAB: u8 = 9;
/// The line feed.
pub const LINE_FEED: u8 = 10;
/// The carriage return.
pub const CARRIAGE_RETURN: u8 = 13;
/// The space.
pub const SPACE: u8 = 32;
/// The byte `#`.
pub const HASH: u8 = 35;
/// The byte `.`.
pub const DOT: u8 = 46;
/// The byte `/`.
pub const SLASH: u8 = 47;
/// The digit `0`.
pub const DIGIT_ZERO: u8 = 48;
/// The digit `9`.
pub const DIGIT_NINE: u8 = 57;
/// The byte `:`.
pub const COLON: u8 = 58;
/// The byte `?`.
pub const QUESTION: u8 = 63;
/// The delete character, the last of ASCII.
pub const DELETE: u8 = 127;

/// The bytes of a sequence of ASCII characters.
pub open spec fn ascii(s: Seq<char>) -> Seq<u8> {
    Seq::new(s.len(), |i: int| s[i] as u8)
}

/// ASCII lower-casing of one byte; every other byte is left alone.
pub open spec fn lower(b: u8) -> u8 {
    if 65 <= b && b <= 90 {
        (b + 32) as u8
    } else {
        b
    }
}

/// ASCII lower-casing of every byte of `s`.
pub open spec fn lower_seq(s: Seq<u8>) -> Seq<u8> {
    Seq::new(s.len(), |i: int| lower(s[i]))
}

/// `p` is a prefix of `s`.
pub open spec fn starts_with(s: Seq<u8>, p: Seq<u8>) -> bool {
    p.len() <= s.len() && s.subrange(0, p.len() as int) == p
}

/// `p` is a suffix of `s`.
pub open spec fn ends_with(s: Seq<u8>, p: Seq<u8>) -> bool {
    p.len() <= s.len() && s.subrange(s.len() - p.len(), s.len() as int) == p
}

/// Index of the first `b` in `s`, or `s.len()` when `s` holds none.
pub open spec fn index_of(s: Seq<u8>, b: u8) -> int
    decreases s.len(),
{
    if s.len() == 0 {
        0
    } else if s[0] == b {
        0
    } else {
        1 + index_of(s.subrange(1, s.len() as int), b)
    }
}

/// Index of the last `b` in `s`, or `-1` when `s` holds none.
pub open spec fn last_index_of(s: Seq<u8>, b: u8) -> int
    decreases s.len(),
{
    if s.len() == 0 {
        -1
    } else if s[s.len() - 1] == b {
        s.len() - 1
    } else {
        last_index_of(s.subrange(0, s.len() - 1), b)
    }
}

/// ASCII blank: space, tab, carriage return or line feed.
pub open spec fn is_blank(b: u8) -> bool {
    b == SPACE || b == TAB || b == CARRIAGE_RETURN || b == LINE_FEED
}

/// Number of blank bytes at the start of `s`.
pub open spec fn leading_blanks(s: Seq<u8>) -> int
    decreases s.len(),
{
    if s.len() == 0 || !is_blank(s[0]) {
        0
    } else {
        1 + leading_blanks(s.subrange(1, s.len() as int))
    }
}

/// Number of blank bytes at the end of `s`.
pub open spec fn trailing_blanks(s: Seq<u8>) -> int
    decreases s.len(),
{
    if s.len() == 0 || !is_blank(s[s.len() - 1]) {
        0
    } else {
        1 + trailing_blanks(s.subrange(0, s.len() - 1))
    }
}

/// `s` without its leading and trailing blanks.
pub open spec fn trim(s: Seq<u8>) -> Seq<u8> {
    let rest = s.subrange(leading_blanks(s), s.len() as int);
    rest.subrange(0, rest.len() - trailing_blanks(rest))
}

/// `index_of` lies within `s`, at a `b` if there is one, with no `b` before it.
pub proof fn lemma_index_of(s: Seq<u8>, b: u8)
    ensures
        0 <= index_of(s, b) <= s.len(),
        index_of(s, b) < s.len() ==> s[index_of(s, b)] == b,
        forall|i: int| 0 <= i < index_of(s, b) ==> s[i] != b,
    decreases s.len(),
{
    if s.len() > 0 && s[0] != b {
        let t = s.subrange(1, s.len() as int);
        lemma_index_of(t, b);
        assert forall|i: int| 0 <= i < index_of(s, b) implies s[i] != b by {
            if i > 0 {
                assert(s[i] == t[i - 1]);
            }
        }
    }
}

/// `index_of` is the only position that holds `b` with no `b` before it.
pub proof fn lemma_index_of_unique(s: Seq<u8>, b: u8, k: int)
    requires
        0 <= k <= s.len(),
        k < s.len() ==> s[k] == b,
        forall|i: int| 0 <= i < k ==> s[i] != b,
    ensures
        index_of(s, b) == k,
{
    lemma_index_of(s, b);
    let j = index_of(s, b);
    if j < k {
        assert(s[j] != b);
    }
}

/// `last_index_of` lies within `s`, at a `b` if there is one, with no `b` behind it.
pub proof fn lemma_last_index_of(s: Seq<u8>, b: u8)
    ensures
        -1 <= last_index_of(s, b) < s.len(),
        last_index_of(s, b) >= 0 ==> s[last_index_of(s, b)] == b,
        forall|i: int| last_index_of(s, b) < i < s.len() ==> s[i] != b,
    decreases s.len(),
{
    if s.len() > 0 && s[s.len() - 1] != b {
        let t = s.subrange(0, s.len() - 1);
        lemma_last_index_of(t, b);
        assert forall|i: int| last_index_of(s, b) < i < s.len() implies s[i] != b by {
            if i < s.len() - 1 {
                assert(s[i] == t[i]);
            }
        }
    }
}

/// `last_index_of` is the only position that holds `b` with no `b` behind it.
pub proof fn lemma_last_index_of_unique(s: Seq<u8>, b: u8, k: int)
    requires
        -1 <= k < s.len(),
        k >= 0 ==> s[k] == b,
        forall|i: int| k < i < s.len() ==> s[i] != b,
    ensures
        last_index_of(s, b) == k,
{
    lemma_last_index_of(s, b);
    let j = last_index_of(s, b);
    if j > k {
        assert(s[j] != b);
    }
}

/// The leading blanks are blank, and what follows them is not.
pub proof fn lemma_leading_blanks(s: Seq<u8>)
    ensures
        0 <= leading_blanks(s) <= s.len(),
        leading_blanks(s) < s.len() ==> !is_blank(s[leading_blanks(s)]),
        forall|i: int| 0 <= i < leading_blanks(s) ==> is_blank(s[i]),
    decreases s.len(),
{
    if s.len() > 0 && is_blank(s[0]) {
        let t = s.subrange(1, s.len() as int);
        lemma_leading_blanks(t);
        assert forall|i: int| 0 <= i < leading_blanks(s) implies is_blank(s[i]) by {
            if i > 0 {
                assert(s[i] == t[i - 1]);
            }
        }
    }
}

/// The leading blanks are the only stretch of blanks from the start up to a byte that is none.
pub proof fn lemma_leading_blanks_unique(s: Seq<u8>, k: int)
    requires
        0 <= k <= s.len(),
        k < s.len() ==> !is_blank(s[k]),
        forall|i: int| 0 <= i < k ==> is_blank(s[i]),
    ensures
        leading_blanks(s) == k,
{
    lemma_leading_blanks(s);
    let j = leading_blanks(s);
    if j < k {
        assert(is_blank(s[j]));
    } else if k < j {
        assert(is_blank(s[k]));
    }
}

/// The trailing blanks are blank, and what stands before them is not.
pub proof fn lemma_trailing_blanks(s: Seq<u8>)
    ensures
        0 <= trailing_blanks(s) <= s.len(),
        trailing_blanks(s) < s.len() ==> !is_blank(s[s.len() - 1 - trailing_blanks(s)]),
        forall|i: int| s.len() - trailing_blanks(s) <= i < s.len() ==> is_blank(s[i]),
    decreases s.len(),
{
    if s.len() > 0 && is_blank(s[s.len() - 1]) {
        let t = s.subrange(0, s.len() - 1);
        lemma_trailing_blanks(t);
        assert forall|i: int| s.len() - trailing_blanks(s) <= i < s.len() implies is_blank(
            s[i],
        ) by {
            if i < s.len() - 1 {
                assert(s[i] == t[i]);
            }
        }
    }
}

/// The trailing blanks are the only stretch of blanks from a byte that is none to the end.
pub proof fn lemma_trailing_blanks_unique(s: Seq<u8>, k: int)
    requires
        0 <= k <= s.len(),
        k < s.len() ==> !is_blank(s[s.len() - 1 - k]),
        forall|i: int| s.len() - k <= i < s.len() ==> is_blank(s[i]),
    ensures
        trailing_blanks(s) == k,
{
    lemma_trailing_blanks(s);
    let j = trailing_blanks(s);
    if j < k {
        assert(is_blank(s[s.len() - 1 - j]));
    } else if k < j {
        assert(is_blank(s[s.len() - 1 - k]));
    }
}

/// The bytes of an ASCII string literal.
pub(crate) fn literal(s: &'static str) -> (b: &'static [u8])
    requires
        is_ascii(s),
    ensures
        b@ == ascii(s@),
{
    proof {
        vstd::string::is_ascii_spec_bytes(s);
    }
    s.as_bytes()
}

/// A byte in lower case.
pub fn to_lower(b: u8) -> (r: u8)
    ensures
        r == lower(b),
{
    if b >= 65 && b <= 90 {
        b + 32
    } else {
        b
    }
}

/// A copy of `s[from..to]`.
pub(crate) fn copy_range(s: &[u8], from: usize, to: usize) -> (r: Vec<u8>)
    requires
        from <= to <= s@.len(),
    ensures
        r@ == s@.subrange(from as int, to as int),
{
    let mut r: Vec<u8> = Vec::new();
    let mut i: usize = from;
    while i < to
        invariant
            from <= i <= to <= s@.len(),
            r@ == s@.subrange(from as int, i as int),
        decreases to - i,
    {
        r.push(s[i]);
        i += 1;
    }
    r
}

/// A copy of `s`.
pub fn copy(s: &[u8]) -> (r: Vec<u8>)
    ensures
        r@ == s@,
{
    let r = copy_range(s, 0, s.len());
    assert(s@.subrange(0, s@.len() as int) == s@);
    r
}

/// A lower-cased copy of `s[from..to]`.
pub(crate) fn lower_range(s: &[u8], from: usize, to: usize) -> (r: Vec<u8>)
    requires
        from <= to <= s@.len(),
    ensures
        r@ == lower_seq(s@.subrange(from as int, to as int)),
{
    let mut r: Vec<u8> = Vec::new();
    let mut i: usize = from;
    while i < to
        invariant
            from <= i <= to <= s@.len(),
            r@ == lower_seq(s@.subrange(from as int, i as int)),
        decreases to - i,
    {
        r.push(to_lower(s[i]));
        i += 1;
    }
    r
}

/// Appends `tail` to `out`.
pub(crate) fn append(out: &mut Vec<u8>, tail: &[u8])
    ensures
        final(out)@ == old(out)@ + tail@,
{
    let mut i: usize = 0;
    while i < tail.len()
        invariant
            i <= tail@.len(),
            out@ == old(out)@ + tail@.subrange(0, i as int),
        decreases tail@.len() - i,
    {
        out.push(tail[i]);
        i += 1;
    }
    assert(tail@.subrange(0, tail@.len() as int) == tail@);
}

/// Whether the two byte strings are equal.
pub fn same(a: &[u8], b: &[u8]) -> (r: bool)
    ensures
        r == (a@ == b@),
{
    if a.len() != b.len() {
        return false;
    }
    let mut i: usize = 0;
    while i < a.len()
        invariant
            i <= a@.len(),
            a@.len() == b@.len(),
            a@.subrange(0, i as int) == b@.subrange(0, i as int),
        decreases a@.len() - i,
    {
        if a[i] != b[i] {
            return false;
        }
        assert(a@.subrange(0, i + 1) == a@.subrange(0, i as int).push(a@[i as int]));
        assert(b@.subrange(0, i + 1) == b@.subrange(0, i as int).push(b@[i as int]));
        i += 1;
    }
    assert(a@.subrange(0, a@.len() as int) == a@);
    assert(b@.subrange(0, b@.len() as int) == b@);
    true
}

/// Whether `s[from..]` starts with `p`.
pub(crate) fn starts_with_at(s: &[u8], from: usize, p: &[u8]) -> (r: bool)
    requires
        from <= s@.len(),
    ensures
        r == starts_with(s@.subrange(from as int, s@.len() as int), p@),
{
    let ghost rest = s@.subrange(from as int, s@.len() as int);
    let n: usize = s.len();
    if p.len() > n - from {
        return false;
    }
    let mut i: usize = 0;
    while i < p.len()
        invariant
            i <= p@.len(),
            n == s@.len(),
            from <= s@.len(),
            p@.len() <= s@.len() - from,
            rest == s@.subrange(from as int, s@.len() as int),
            rest.subrange(0, i as int) == p@.subrange(0, i as int),
        decreases p@.len() - i,
    {
        if s[from + i] != p[i] {
            assert(rest.subrange(0, p@.len() as int)[i as int] != p@[i as int]);
            return false;
        }
        assert(rest.subrange(0, i + 1) == rest.subrange(0, i as int).push(rest[i as int]));
        assert(p@.subrange(0, i + 1) == p@.subrange(0, i as int).push(p@[i as int]));
        i += 1;
    }
    assert(p@.subrange(0, p@.len() as int) == p@);
    true
}

/// Whether `s` starts with `p`.
pub fn has_prefix(s: &[u8], p: &[u8]) -> (r: bool)
    ensures
        r == starts_with(s@, p@),
{
    assert(s@.subrange(0, s@.len() as int) == s@);
    starts_with_at(s, 0, p)
}

/// Whether `s` ends with `p`.
pub fn has_suffix(s: &[u8], p: &[u8]) -> (r: bool)
    ensures
        r == ends_with(s@, p@),
{
    if p.len() > s.len() {
        return false;
    }
    let from: usize = s.len() - p.len();
    let r = starts_with_at(s, from, p);
    proof {
        let rest = s@.subrange(from as int, s@.len() as int);
        assert(rest.subrange(0, p@.len() as int) == rest);
    }
    r
}

/// Position of the first `b` in `s[from..to]`, or `to` when there is none.
pub(crate) fn find(s: &[u8], from: usize, to: usize, b: u8) -> (r: usize)
    requires
        from <= to <= s@.len(),
    ensures
        r == from + index_of(s@.subrange(from as int, to as int), b),
        from <= r <= to,
{
    let mut i: usize = from;
    while i < to && s[i] != b
        invariant
            from <= i <= to <= s@.len(),
            forall|k: int| from <= k < i ==> s@[k] != b,
        decreases to - i,
    {
        i += 1;
    }
    proof {
        lemma_index_of_unique(s@.subrange(from as int, to as int), b, i - from);
    }
    i
}

/// Position of the last `b` in `s`, if any.
pub(crate) fn find_last(s: &[u8], b: u8) -> (r: Option<usize>)
    ensures
        match r {
            Some(i) => i == last_index_of(s@, b),
            None => last_index_of(s@, b) == -1,
        },
{
    let mut i: usize = s.len();
    while i > 0 && s[i - 1] != b
        invariant
            i <= s@.len(),
            forall|k: int| i <= k < s@.len() ==> s@[k] != b,
        decreases i,
    {
        i -= 1;
    }
    proof {
        lemma_last_index_of_unique(s@, b, i - 1);
    }
    if i == 0 {
        None
    } else {
        Some(i - 1)
    }
}

/// Whether a byte is a blank.
pub fn blank(b: u8) -> (r: bool)
    ensures
        r == is_blank(b),
{
    b == SPACE || b == TAB || b == CARRIAGE_RETURN || b == LINE_FEED
}

/// The bounds of `s[from..to]` without its leading and trailing blanks.
pub(crate) fn trim_range(s: &[u8], from: usize, to: usize) -> (r: (usize, usize))
    requires
        from <= to <= s@.len(),
    ensures
        from <= r.0 <= r.1 <= to,
        s@.subrange(r.0 as int, r.1 as int) == trim(s@.subrange(from as int, to as int)),
{
    let ghost whole = s@.subrange(from as int, to as int);
    let mut a: usize = from;
    while a < to && blank(s[a])
        invariant
            from <= a <= to <= s@.len(),
            forall|k: int| from <= k < a ==> is_blank(s@[k]),
        decreases to - a,
    {
        a += 1;
    }
    let ghost rest = s@.subrange(a as int, to as int);
    let mut b: usize = to;
    while b > a && blank(s[b - 1])
        invariant
            a <= b <= to <= s@.len(),
            forall|k: int| b <= k < to ==> is_blank(s@[k]),
        decreases b,
    {
        b -= 1;
    }
    proof {
        lemma_leading_blanks_unique(whole, a - from);
        assert(whole.subrange(a - from, whole.len() as int) == rest);
        lemma_trailing_blanks_unique(rest, to - b);
        assert(rest.subrange(0, rest.len() - (to - b)) == s@.subrange(a as int, b as int));
    }
    (a, b)
}

} // verus!
