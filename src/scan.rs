//! Scanning a name: where its tag segment lies, where a new one would go,
//! and which tags a segment holds.
use vstd::prelude::*;
use crate::order::strictly_sorted;
use crate::tagset::{insert_sorted, tags_view};

verus! {

pub const OPEN_BRACKET: u8 = 0x5b;

pub const CLOSE_BRACKET: u8 = 0x5d;

pub const PERIOD: u8 = 0x2e;

pub const SPACE: u8 = 0x20;

pub const COMMA: u8 = 0x2c;

/// ASCII whitespace: space, tab, line feed, form feed, carriage return.
pub open spec fn is_ascii_space(b: u8) -> bool {
    b == SPACE || b == 0x09u8 || b == 0x0au8 || b == 0x0cu8 || b == 0x0du8
}

/// A byte that ends a tag. Brackets count too, so that the brackets of a
/// nested segment are dropped and what they hold is read as tags.
pub open spec fn is_separator(b: u8) -> bool {
    is_ascii_space(b) || b == COMMA || b == OPEN_BRACKET || b == CLOSE_BRACKET
}

fn separator(b: u8) -> (r: bool)
    ensures
        r == is_separator(b),
{
    b == SPACE || b == 0x09u8 || b == 0x0au8 || b == 0x0cu8 || b == 0x0du8 || b == COMMA
        || b == OPEN_BRACKET || b == CLOSE_BRACKET
}

/// The index of the first `b` in `s` at or after `i`, or the length of `s`.
pub open spec fn first_from(s: Seq<u8>, b: u8, i: int) -> int
    decreases s.len() - i,
{
    if i < 0 || i >= s.len() {
        s.len() as int
    } else if s[i] == b {
        i
    } else {
        first_from(s, b, i + 1)
    }
}

/// Where a tag segment goes in a name that has none: before the first
/// period, or at the end.
pub open spec fn ext_bound(s: Seq<u8>) -> int {
    first_from(s, PERIOD, 0)
}

proof fn lemma_first_from_bounds(s: Seq<u8>, b: u8, i: int)
    requires
        0 <= i <= s.len(),
    ensures
        i <= first_from(s, b, i) <= s.len(),
    decreases s.len() - i,
{
    if i < s.len() {
        lemma_first_from_bounds(s, b, i + 1);
    }
}

/// The place for a new segment lies within the name.
pub proof fn lemma_ext_bound_in_range(s: Seq<u8>)
    ensures
        0 <= ext_bound(s) <= s.len(),
{
    lemma_first_from_bounds(s, PERIOD, 0);
}

/// Where `s[a]` is the first `b` from `i` on, `first_from` finds it.
pub proof fn lemma_first_from_finds(s: Seq<u8>, b: u8, i: int, a: int)
    requires
        0 <= i <= a < s.len(),
        s[a] == b,
        forall|k: int| i <= k < a ==> s[k] != b,
    ensures
        first_from(s, b, i) == a,
    decreases a - i,
{
    if i < a {
        lemma_first_from_finds(s, b, i + 1, a);
    }
}

/// Bracket nesting of `s[lo..hi]`: one up for each `[`, one down for each `]`.
pub open spec fn depth(s: Seq<u8>, lo: int, hi: int) -> int
    decreases hi - lo,
{
    if hi <= lo {
        0
    } else {
        depth(s, lo, hi - 1) + (if s[hi - 1] == OPEN_BRACKET {
            1int
        } else if s[hi - 1] == CLOSE_BRACKET {
            -1int
        } else {
            0int
        })
    }
}

/// `s[u..l]` is the tag segment: it opens at the first `[` of `s` and ends
/// just after the `]` that first brings the nesting back to zero.
pub open spec fn is_tag_span(s: Seq<u8>, u: int, l: int) -> bool {
    &&& 0 <= u < l <= s.len()
    &&& s[u] == OPEN_BRACKET
    &&& forall|k: int| 0 <= k < u ==> s[k] != OPEN_BRACKET
    &&& depth(s, u, l) == 0
    &&& forall|k: int| u < k < l ==> depth(s, u, k) > 0
}

pub open spec fn has_tag_span(s: Seq<u8>) -> bool {
    exists|u: int, l: int| is_tag_span(s, u, l)
}

/// The tag segment of `s`, as the range of its first and one past its last
/// byte, if `s` has one.
pub open spec fn tag_span(s: Seq<u8>) -> Option<(int, int)> {
    if has_tag_span(s) {
        Some(choose|p: (int, int)| is_tag_span(s, p.0, p.1))
    } else {
        None
    }
}

/// `s[a..b]` is a tag: a non-empty run of bytes that are not separators,
/// with a separator or an end on either side.
pub open spec fn is_token(s: Seq<u8>, a: int, b: int) -> bool {
    &&& 0 <= a < b <= s.len()
    &&& forall|k: int| a <= k < b ==> !is_separator(#[trigger] s[k])
    &&& a == 0 || is_separator(s[a - 1])
    &&& b == s.len() || is_separator(s[b])
}

/// The tags that a segment holds.
pub open spec fn tags_in(s: Seq<u8>) -> Set<Seq<u8>> {
    Set::new(|t: Seq<u8>| exists|a: int, b: int| is_token(s, a, b) && s.subrange(a, b) == t)
}

proof fn lemma_span_unique(s: Seq<u8>, u1: int, l1: int, u2: int, l2: int)
    requires
        is_tag_span(s, u1, l1),
        is_tag_span(s, u2, l2),
    ensures
        u1 == u2 && l1 == l2,
{
    if u1 < u2 {
        assert(s[u1] != OPEN_BRACKET);
    } else if u2 < u1 {
        assert(s[u2] != OPEN_BRACKET);
    }
    if l1 < l2 {
        assert(depth(s, u2, l1) > 0);
    } else if l2 < l1 {
        assert(depth(s, u1, l2) > 0);
    }
}

proof fn lemma_tag_span_is(s: Seq<u8>, u: int, l: int)
    requires
        is_tag_span(s, u, l),
    ensures
        tag_span(s) == Some((u, l)),
{
    assert(is_tag_span(s, (u, l).0, (u, l).1));
    let p = choose|p: (int, int)| is_tag_span(s, p.0, p.1);
    lemma_span_unique(s, u, l, p.0, p.1);
}

/// Copies `data[lo..hi]` into a new vector.
pub fn copy_range(data: &[u8], lo: usize, hi: usize) -> (r: Vec<u8>)
    requires
        lo <= hi <= data@.len(),
    ensures
        r@ == data@.subrange(lo as int, hi as int),
{
    let mut r: Vec<u8> = Vec::new();
    let mut i: usize = lo;
    while i < hi
        invariant
            lo <= i <= hi <= data@.len(),
            r@ == data@.subrange(lo as int, i as int),
        decreases hi - i,
    {
        r.push(data[i]);
        assert(data@.subrange(lo as int, i + 1) =~= data@.subrange(lo as int, i as int).push(data@[i as int]));
        i = i + 1;
    }
    r
}

/// The bounds of the tag segment of `data`, if it has one.
pub fn get_tag_bounds(data: &[u8]) -> (r: Option<(usize, usize)>)
    ensures
        match r {
            Some((u, l)) => {
                &&& tag_span(data@) == Some((u as int, l as int))
                &&& is_tag_span(data@, u as int, l as int)
                &&& u + 2 <= l
            },
            None => tag_span(data@) is None,
        },
{
    let mut u: usize = 0;
    while u < data.len() && data[u] != OPEN_BRACKET
        invariant
            0 <= u <= data@.len(),
            forall|k: int| 0 <= k < u ==> data@[k] != OPEN_BRACKET,
        decreases data@.len() - u,
    {
        u = u + 1;
    }
    if u == data.len() {
        assert forall|a: int, b: int| !is_tag_span(data@, a, b) by {
            if 0 <= a < data@.len() {
                assert(data@[a] != OPEN_BRACKET);
            }
        }
        return None;
    }
    let mut d: usize = 1;
    let mut i: usize = u + 1;
    assert(depth(data@, u as int, u as int) == 0);
    while i < data.len()
        invariant
            u < i <= data@.len(),
            data@[u as int] == OPEN_BRACKET,
            forall|k: int| 0 <= k < u ==> data@[k] != OPEN_BRACKET,
            d as int == depth(data@, u as int, i as int),
            0 < d <= i - u,
            forall|k: int| u < k <= i ==> depth(data@, u as int, k) > 0,
        decreases data@.len() - i,
    {
        if data[i] == OPEN_BRACKET {
            d = d + 1;
        } else if data[i] == CLOSE_BRACKET {
            d = d - 1;
            if d == 0 {
                proof {
                    assert(is_tag_span(data@, u as int, i + 1));
                    lemma_tag_span_is(data@, u as int, i + 1);
                }
                return Some((u, i + 1));
            }
        }
        i = i + 1;
    }
    assert forall|a: int, b: int| !is_tag_span(data@, a, b) by {
        if is_tag_span(data@, a, b) {
            if a < u {
                assert(data@[a] != OPEN_BRACKET);
            } else if a > u {
                assert(data@[u as int] != OPEN_BRACKET);
            }
            assert(depth(data@, u as int, b) > 0);
        }
    }
    None
}

/// Where a tag segment goes in a name that has none.
pub fn get_ext_bound(data: &[u8]) -> (r: usize)
    ensures
        r as int == ext_bound(data@),
{
    let mut i: usize = 0;
    while i < data.len()
        invariant
            0 <= i <= data@.len(),
            first_from(data@, PERIOD, 0) == first_from(data@, PERIOD, i as int),
        decreases data@.len() - i,
    {
        if data[i] == PERIOD {
            return i;
        }
        i = i + 1;
    }
    i
}

proof fn lemma_token_start(s: Seq<u8>, st: int, i: int, a: int)
    requires
        0 <= st <= i <= s.len(),
        is_token(s, a, i),
        forall|k: int| st <= k < i ==> !is_separator(#[trigger] s[k]),
        st == 0 || is_separator(s[st - 1]),
    ensures
        a == st,
{
    if a < st {
        assert(!is_separator(s[st - 1]));
    } else if a > st {
        assert(!is_separator(s[a - 1]));
    }
}

/// The tags in `data`, sorted and without repeats.
pub fn parse_tags(data: &[u8]) -> (r: Vec<Vec<u8>>)
    ensures
        strictly_sorted(tags_view(r@)),
        tags_view(r@).to_set() == tags_in(data@),
{
    let ghost s = data@;
    let mut tags: Vec<Vec<u8>> = Vec::new();
    let mut st: usize = 0;
    let mut i: usize = 0;
    assert(tags_view(tags@).to_set() =~= Set::empty());
    while i < data.len()
        invariant
            s == data@,
            0 <= st <= i <= s.len(),
            forall|k: int| st <= k < i ==> !is_separator(#[trigger] s[k]),
            st == 0 || is_separator(s[st - 1]),
            strictly_sorted(tags_view(tags@)),
            forall|t: Seq<u8>|
                tags_view(tags@).to_set().contains(t) <==> exists|a: int, b: int|
                    is_token(s, a, b) && b < i && s.subrange(a, b) == t,
        decreases s.len() - i,
    {
        let ghost before = tags_view(tags@).to_set();
        if separator(data[i]) {
            if st < i {
                let tok = copy_range(data, st, i);
                insert_sorted(&mut tags, tok);
                assert(is_token(s, st as int, i as int));
            }
            assert forall|t: Seq<u8>|
                tags_view(tags@).to_set().contains(t) <==> exists|a: int, b: int|
                    is_token(s, a, b) && b < i + 1 && s.subrange(a, b) == t by {
                if exists|a: int, b: int| is_token(s, a, b) && b < i + 1 && s.subrange(a, b) == t {
                    let (a, b) = choose|a: int, b: int| is_token(s, a, b) && b < i + 1 && s.subrange(a, b) == t;
                    if b == i {
                        lemma_token_start(s, st as int, i as int, a);
                    }
                }
                if st < i && t == s.subrange(st as int, i as int) {
                    assert(is_token(s, st as int, i as int) && i < i + 1);
                }
            }
            st = i + 1;
        } else {
            assert forall|t: Seq<u8>|
                tags_view(tags@).to_set().contains(t) <==> exists|a: int, b: int|
                    is_token(s, a, b) && b < i + 1 && s.subrange(a, b) == t by {
                if exists|a: int, b: int| is_token(s, a, b) && b < i + 1 && s.subrange(a, b) == t {
                    let (a, b) = choose|a: int, b: int| is_token(s, a, b) && b < i + 1 && s.subrange(a, b) == t;
                    assert(b != i);
                }
            }
        }
        i = i + 1;
    }
    if st < i {
        let tok = copy_range(data, st, i);
        insert_sorted(&mut tags, tok);
        assert(is_token(s, st as int, i as int));
    }
    assert forall|t: Seq<u8>| tags_view(tags@).to_set().contains(t) <==> tags_in(s).contains(t) by {
        if exists|a: int, b: int| is_token(s, a, b) && s.subrange(a, b) == t {
            let (a, b) = choose|a: int, b: int| is_token(s, a, b) && s.subrange(a, b) == t;
            if b == i {
                lemma_token_start(s, st as int, i as int, a);
            }
        }
        if st < i && t == s.subrange(st as int, i as int) {
            assert(is_token(s, st as int, i as int));
        }
    }
    assert(tags_view(tags@).to_set() =~= tags_in(s));
    tags
}

} // verus!
