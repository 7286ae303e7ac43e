//! Link extraction: the `href` values of the anchor tags of a page, in the
//! order in which they stand.
//!
//! An anchor tag opens with `<a` (in either case) and a blank and runs to
//! the next `>`. What lies between is read as attributes: a name, which
//! runs to a blank or `=`, and after an `=` a value, which is quoted with
//! `"` or `'` and runs to the same quote, or is unquoted and runs to the
//! next blank. The first attribute named `href` (in any case) that has a
//! value gives the tag's link. Values are handed out as they stand.

use crate::text::{
    ascii, copy_range, find, index_of, is_blank, lemma_index_of, literal, lower, lower_range,
    lower_seq, same, to_lower,
};
use vstd::prelude::*;
use vstd::slice::slice_subrange;

verus! {

/// The byte `"`.
pub const QUOTE: u8 = 34;
/// The byte `'`.
pub const APOSTROPHE: u8 = 39;
/// The byte `<`.
pub const LESS: u8 = 60;
/// The byte `=`.
pub const EQUALS: u8 = 61;
/// The byte `>`.
pub const GREATER: u8 = 62;
/// The byte `a`.
pub const SMALL_A: u8 = 97;

/// How many bytes at the start of `s` satisfy `keep`.
pub open spec fn run(s: Seq<u8>, keep: spec_fn(u8) -> bool) -> int
    decreases s.len(),
{
    if s.len() == 0 || !keep(s[0]) {
        0
    } else {
        1 + run(s.subrange(1, s.len() as int), keep)
    }
}

/// A blank byte.
pub open spec fn blank_byte() -> spec_fn(u8) -> bool {
    |b: u8| is_blank(b)
}

/// A byte of an attribute's name: neither a blank nor `=`.
pub open spec fn name_byte() -> spec_fn(u8) -> bool {
    |b: u8| !is_blank(b) && b != EQUALS
}

/// A byte of an unquoted value: no blank.
pub open spec fn value_byte() -> spec_fn(u8) -> bool {
    |b: u8| !is_blank(b)
}

/// A run ends within the bytes, at the first byte that does not satisfy `keep`.
pub proof fn lemma_run(s: Seq<u8>, keep: spec_fn(u8) -> bool)
    ensures
        0 <= run(s, keep) <= s.len(),
        run(s, keep) < s.len() ==> !keep(s[run(s, keep)]),
        forall|i: int| 0 <= i < run(s, keep) ==> keep(#[trigger] s[i]),
    decreases s.len(),
{
    if s.len() > 0 && keep(s[0]) {
        let t = s.subrange(1, s.len() as int);
        lemma_run(t, keep);
        assert forall|i: int| 0 <= i < run(s, keep) implies keep(#[trigger] s[i]) by {
            if i > 0 {
                assert(s[i] == t[i - 1]);
            }
        }
    }
}

/// The run is the only stretch of bytes that satisfy `keep` up to one that does not.
pub proof fn lemma_run_unique(s: Seq<u8>, keep: spec_fn(u8) -> bool, k: int)
    requires
        0 <= k <= s.len(),
        k < s.len() ==> !keep(s[k]),
        forall|i: int| 0 <= i < k ==> keep(#[trigger] s[i]),
    ensures
        run(s, keep) == k,
{
    lemma_run(s, keep);
    let j = run(s, keep);
    if j < k {
        assert(keep(s[j]));
    } else if k < j {
        assert(keep(s[k]));
    }
}

/// Where the value that starts at `d` lies, and where reading goes on after it.
pub struct ValueSpan {
    pub start: int,
    pub end: int,
    pub next: int,
}

/// The value at `d` in `tag`: quoted, it runs from behind the quote to the
/// same quote; unquoted, to the next blank.
pub open spec fn value_at(tag: Seq<u8>, d: int) -> ValueSpan {
    if d < tag.len() && (tag[d] == QUOTE || tag[d] == APOSTROPHE) {
        let end = d + 1 + index_of(tag.subrange(d + 1, tag.len() as int), tag[d]);
        ValueSpan {
            start: d + 1,
            end,
            next: if end < tag.len() {
                end + 1
            } else {
                end
            },
        }
    } else {
        let end = d + run(tag.subrange(d, tag.len() as int), value_byte());
        ValueSpan { start: d, end, next: end }
    }
}

/// The value of the first `href` attribute among the attributes of `tag` from `i` on.
pub open spec fn href_from(tag: Seq<u8>, i: int) -> Option<Seq<u8>>
    decreases tag.len() - i,
{
    if i < 0 || i >= tag.len() {
        None
    } else {
        proof {
            lemma_attribute_bounds(tag, i);
        }
        let a = i + run(tag.subrange(i, tag.len() as int), blank_byte());
        let b = a + run(tag.subrange(a, tag.len() as int), name_byte());
        let c = b + run(tag.subrange(b, tag.len() as int), blank_byte());
        if a >= tag.len() {
            None
        } else if c < tag.len() && tag[c] == EQUALS {
            let d = c + 1 + run(tag.subrange(c + 1, tag.len() as int), blank_byte());
            let value = value_at(tag, d);
            if lower_seq(tag.subrange(a, b)) == ascii("href"@) {
                Some(tag.subrange(value.start, value.end))
            } else {
                href_from(tag, value.next)
            }
        } else {
            href_from(tag, b)
        }
    }
}

/// The link of an anchor tag whose attributes are `tag`.
pub open spec fn href_of(tag: Seq<u8>) -> Option<Seq<u8>> {
    href_from(tag, 0)
}

/// Reading an attribute at `i` ends behind `i`, and within the tag.
pub proof fn lemma_attribute_bounds(tag: Seq<u8>, i: int)
    requires
        0 <= i < tag.len(),
    ensures
        ({
            let a = i + run(tag.subrange(i, tag.len() as int), blank_byte());
            let b = a + run(tag.subrange(a, tag.len() as int), name_byte());
            let c = b + run(tag.subrange(b, tag.len() as int), blank_byte());
            let d = c + 1 + run(tag.subrange(c + 1, tag.len() as int), blank_byte());
            let value = value_at(tag, d);
            &&& i <= a <= b <= c <= tag.len()
            &&& a < tag.len() ==> !is_blank(tag[a])
            &&& a < tag.len() && !(c < tag.len() && tag[c] == EQUALS) ==> i < b
            &&& c < tag.len() ==> c < d <= tag.len() && d <= value.start <= value.end <= value.next
                <= tag.len() && i < value.next
            &&& c < tag.len() && d < tag.len() ==> d < value.next
        }),
{
    let len = tag.len() as int;
    let a = i + run(tag.subrange(i, len), blank_byte());
    lemma_run(tag.subrange(i, len), blank_byte());
    let b = a + run(tag.subrange(a, len), name_byte());
    lemma_run(tag.subrange(a, len), name_byte());
    let c = b + run(tag.subrange(b, len), blank_byte());
    lemma_run(tag.subrange(b, len), blank_byte());
    if a < len {
        assert(tag.subrange(i, len)[a - i] == tag[a]);
        if b == a {
            assert(tag.subrange(a, len)[0] == tag[a]);
            assert(tag[a] == EQUALS);
            if c > b {
                assert(blank_byte()(tag.subrange(b, len)[0]));
            }
        }
    }
    if c < len {
        let d = c + 1 + run(tag.subrange(c + 1, len), blank_byte());
        lemma_run(tag.subrange(c + 1, len), blank_byte());
        if d < len {
            assert(tag.subrange(c + 1, len)[d - c - 1] == tag[d]);
            if tag[d] == QUOTE || tag[d] == APOSTROPHE {
                lemma_index_of(tag.subrange(d + 1, len), tag[d]);
            } else {
                lemma_run(tag.subrange(d, len), value_byte());
                assert(tag.subrange(d, len)[0] == tag[d]);
                if run(tag.subrange(d, len), value_byte()) == 0 {
                    assert(!value_byte()(tag[d]));
                }
            }
        } else {
            lemma_run(tag.subrange(d, len), value_byte());
        }
    }
}

/// An anchor tag opens at `i`.
pub open spec fn opens_anchor(body: Seq<u8>, i: int) -> bool {
    &&& 0 <= i
    &&& i + 2 < body.len()
    &&& body[i] == LESS
    &&& lower(body[i + 1]) == SMALL_A
    &&& is_blank(body[i + 2])
}

/// Where the tag that opens at `i` ends: at its `>`, or with the body.
pub open spec fn tag_end(body: Seq<u8>, i: int) -> int {
    i + index_of(body.subrange(i, body.len() as int), GREATER)
}

/// An anchor tag ends behind its opening and within the body.
pub proof fn lemma_tag_end(body: Seq<u8>, i: int)
    requires
        opens_anchor(body, i),
    ensures
        i + 3 <= tag_end(body, i) <= body.len(),
{
    let rest = body.subrange(i, body.len() as int);
    lemma_index_of(rest, GREATER);
    let k = index_of(rest, GREATER);
    if k < 3 {
        assert(rest[k] == body[i + k]);
    }
}

/// `found`, and after it the links of the anchor tags that open in `body` from `i` on.
pub open spec fn links_from(body: Seq<u8>, i: int, found: Seq<Seq<u8>>) -> Seq<Seq<u8>>
    decreases body.len() - i,
{
    if i < 0 || i >= body.len() {
        found
    } else if opens_anchor(body, i) {
        proof {
            lemma_tag_end(body, i);
        }
        let end = tag_end(body, i);
        match href_of(body.subrange(i + 2, end)) {
            Some(link) => links_from(body, end, found.push(link)),
            None => links_from(body, end, found),
        }
    } else {
        links_from(body, i + 1, found)
    }
}

/// The links of a page.
pub open spec fn links(body: Seq<u8>) -> Seq<Seq<u8>> {
    links_from(body, 0, Seq::empty())
}

fn skip_blanks(s: &[u8], from: usize) -> (r: usize)
    requires
        from <= s@.len(),
    ensures
        r == from + run(s@.subrange(from as int, s@.len() as int), blank_byte()),
        from <= r <= s@.len(),
{
    let mut i: usize = from;
    while i < s.len() && crate::text::blank(s[i])
        invariant
            from <= i <= s@.len(),
            forall|k: int| from <= k < i ==> is_blank(s@[k]),
        decreases s@.len() - i,
    {
        i += 1;
    }
    proof {
        lemma_run_unique(s@.subrange(from as int, s@.len() as int), blank_byte(), i - from);
    }
    i
}

fn skip_name(s: &[u8], from: usize) -> (r: usize)
    requires
        from <= s@.len(),
    ensures
        r == from + run(s@.subrange(from as int, s@.len() as int), name_byte()),
        from <= r <= s@.len(),
{
    let mut i: usize = from;
    while i < s.len() && !crate::text::blank(s[i]) && s[i] != EQUALS
        invariant
            from <= i <= s@.len(),
            forall|k: int| from <= k < i ==> !is_blank(s@[k]) && s@[k] != EQUALS,
        decreases s@.len() - i,
    {
        i += 1;
    }
    proof {
        lemma_run_unique(s@.subrange(from as int, s@.len() as int), name_byte(), i - from);
    }
    i
}

fn skip_value(s: &[u8], from: usize) -> (r: usize)
    requires
        from <= s@.len(),
    ensures
        r == from + run(s@.subrange(from as int, s@.len() as int), value_byte()),
        from <= r <= s@.len(),
{
    let mut i: usize = from;
    while i < s.len() && !crate::text::blank(s[i])
        invariant
            from <= i <= s@.len(),
            forall|k: int| from <= k < i ==> !is_blank(s@[k]),
        decreases s@.len() - i,
    {
        i += 1;
    }
    proof {
        lemma_run_unique(s@.subrange(from as int, s@.len() as int), value_byte(), i - from);
    }
    i
}

/// The bounds of the value at `d`, and where reading goes on.
fn read_value(tag: &[u8], d: usize) -> (r: (usize, usize, usize))
    requires
        d <= tag@.len(),
    ensures
        r.0 == value_at(tag@, d as int).start,
        r.1 == value_at(tag@, d as int).end,
        r.2 == value_at(tag@, d as int).next,
        d <= r.0 <= r.1 <= r.2 <= tag@.len(),
{
    let len: usize = tag.len();
    if d < len && (tag[d] == QUOTE || tag[d] == APOSTROPHE) {
        let end = find(tag, d + 1, len, tag[d]);
        let next: usize = if end < len {
            end + 1
        } else {
            end
        };
        (d + 1, end, next)
    } else {
        let end = skip_value(tag, d);
        (d, end, end)
    }
}

/// The link of an anchor tag whose attributes are `tag`.
pub fn href(tag: &[u8]) -> (r: Option<Vec<u8>>)
    ensures
        match r {
            Some(v) => href_of(tag@) == Some(v@),
            None => href_of(tag@) is None,
        },
{
    let len: usize = tag.len();
    let mut i: usize = 0;
    while i < len
        invariant
            i <= len,
            len == tag@.len(),
            href_from(tag@, i as int) == href_of(tag@),
        decreases len - i,
    {
        proof {
            reveal_strlit("href");
            lemma_attribute_bounds(tag@, i as int);
        }
        let a = skip_blanks(tag, i);
        if a >= len {
            return None;
        }
        let b = skip_name(tag, a);
        let c = skip_blanks(tag, b);
        if c < len && tag[c] == EQUALS {
            let d = skip_blanks(tag, c + 1);
            let (start, end, next) = read_value(tag, d);
            let name = lower_range(tag, a, b);
            if same(name.as_slice(), literal("href")) {
                return Some(copy_range(tag, start, end));
            }
            i = next;
        } else {
            i = b;
        }
    }
    None
}

/// The links of a page: the `href` of each anchor tag, in the order of the tags.
pub fn extract_links(body: &[u8]) -> (found: Vec<Vec<u8>>)
    ensures
        found@.map_values(|l: Vec<u8>| l@) == links(body@),
{
    let len: usize = body.len();
    let mut found: Vec<Vec<u8>> = Vec::new();
    let mut i: usize = 0;
    assert(found@.map_values(|l: Vec<u8>| l@) =~= Seq::empty());
    while i < len
        invariant
            i <= len,
            len == body@.len(),
            links_from(body@, i as int, found@.map_values(|l: Vec<u8>| l@)) == links(body@),
        decreases len - i,
    {
        if len - i > 2 && body[i] == LESS && to_lower(body[i + 1]) == SMALL_A
            && crate::text::blank(body[i + 2]) {
            proof {
                lemma_tag_end(body@, i as int);
            }
            let end = find(body, i, len, GREATER);
            let ghost before = found@.map_values(|l: Vec<u8>| l@);
            match href(slice_subrange(body, i + 2, end)) {
                Some(link) => {
                    found.push(link);
                    assert(found@.map_values(|l: Vec<u8>| l@) =~= before.push(link@));
                },
                None => {},
            }
            i = end;
        } else {
            i += 1;
        }
    }
    found
}

} // verus!
