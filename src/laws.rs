//! What holds of reading, editing and writing back names.
use vstd::prelude::*;
use crate::name_tag::{join_tags, with_tag, NameTag};
use crate::order::strictly_sorted;
use crate::scan::{
    depth, ext_bound, first_from, has_tag_span, is_tag_span, lemma_ext_bound_in_range,
    lemma_first_from_finds, tag_span, CLOSE_BRACKET, OPEN_BRACKET,
};
use crate::tagset::lemma_sorted_unique;

verus! {

proof fn lemma_empty_set_empty_seq(n: NameTag)
    requires
        n.tag_set() == Set::<Seq<u8>>::empty(),
    ensures
        n.tag_seq().len() == 0,
{
    if n.tag_seq().len() > 0 {
        assert(n.tag_set().contains(n.tag_seq()[0]));
    }
}

/// A name without a tag segment is written back exactly as it was read.
pub proof fn lemma_round_trip_untagged(s: Seq<u8>, n: NameTag)
    requires
        n.wf(),
        n.parsed_from(s),
        !has_tag_span(s),
    ensures
        n.serialized() == s,
{
    assert(tag_span(s) is None);
    lemma_empty_set_empty_seq(n);
    lemma_ext_bound_in_range(s);
    assert(s.subrange(0, ext_bound(s)) + s.subrange(ext_bound(s), s.len() as int) =~= s);
}

/// A name whose first `[` is never closed has no tag segment, and is
/// written back exactly as it was read.
pub proof fn lemma_unclosed_bracket_kept(s: Seq<u8>, n: NameTag)
    requires
        n.wf(),
        n.parsed_from(s),
        first_from(s, OPEN_BRACKET, 0) < s.len(),
        forall|k: int|
            first_from(s, OPEN_BRACKET, 0) < k <= s.len() ==> depth(
                s,
                first_from(s, OPEN_BRACKET, 0),
                k,
            ) > 0,
    ensures
        !has_tag_span(s),
        n.serialized() == s,
{
    assert forall|a: int, b: int| !is_tag_span(s, a, b) by {
        if is_tag_span(s, a, b) {
            lemma_first_from_finds(s, OPEN_BRACKET, 0, a);
        }
    }
    lemma_round_trip_untagged(s, n);
}

/// With no tags, nothing is written between the two parts: no brackets,
/// even where the name was read with an empty pair.
pub proof fn lemma_empty_collapse(n: NameTag)
    requires
        n.tag_set() == Set::<Seq<u8>>::empty(),
    ensures
        n.serialized() == n.prefix_bytes() + n.suffix_bytes(),
{
    lemma_empty_set_empty_seq(n);
}

/// Names with the same tags list them in the same order: the order in
/// which tags were added does not show.
pub proof fn lemma_tag_order_canonical(a: NameTag, b: NameTag)
    requires
        a.wf(),
        b.wf(),
        a.tag_set() == b.tag_set(),
    ensures
        a.tag_seq() == b.tag_seq(),
        strictly_sorted(a.tag_seq()),
{
    lemma_sorted_unique(a.tag_seq(), b.tag_seq());
}

/// Adding two tags in either order gives the same set.
pub proof fn lemma_add_commutes(tags: Set<Seq<u8>>, x: Seq<u8>, y: Seq<u8>)
    ensures
        with_tag(with_tag(tags, x), y) == with_tag(with_tag(tags, y), x),
{
    assert(with_tag(with_tag(tags, x), y) =~= with_tag(with_tag(tags, y), x));
}

/// Adding a tag a second time changes nothing.
pub proof fn lemma_add_idempotent(a: NameTag, b: NameTag, c: NameTag, t: Seq<u8>)
    requires
        a.wf(),
        b.wf(),
        c.wf(),
        b.prefix_bytes() == a.prefix_bytes(),
        b.suffix_bytes() == a.suffix_bytes(),
        b.tag_set() == with_tag(a.tag_set(), t),
        c.prefix_bytes() == b.prefix_bytes(),
        c.suffix_bytes() == b.suffix_bytes(),
        c.tag_set() == with_tag(b.tag_set(), t),
    ensures
        c.tag_set() == b.tag_set(),
        c.tag_seq() == b.tag_seq(),
        c.serialized() == b.serialized(),
{
    assert(c.tag_set() =~= b.tag_set());
    lemma_sorted_unique(c.tag_seq(), b.tag_seq());
}

/// Taking out a tag that is absent changes nothing.
pub proof fn lemma_remove_absent(a: NameTag, b: NameTag, t: Seq<u8>)
    requires
        a.wf(),
        b.wf(),
        !a.tag_set().contains(t),
        b.prefix_bytes() == a.prefix_bytes(),
        b.suffix_bytes() == a.suffix_bytes(),
        b.tag_set() == a.tag_set().remove(t),
    ensures
        b.tag_set() == a.tag_set(),
        b.tag_seq() == a.tag_seq(),
        b.serialized() == a.serialized(),
{
    assert(b.tag_set() =~= a.tag_set());
    lemma_sorted_unique(b.tag_seq(), a.tag_seq());
}

/// A tag added to a name without a tag segment is written in brackets
/// just before the first period, or at the end where there is none.
pub proof fn lemma_insertion_point(s: Seq<u8>, a: NameTag, b: NameTag, t: Seq<u8>)
    requires
        a.wf(),
        a.parsed_from(s),
        !has_tag_span(s),
        t.len() > 0,
        b.wf(),
        b.prefix_bytes() == a.prefix_bytes(),
        b.suffix_bytes() == a.suffix_bytes(),
        b.tag_set() == with_tag(a.tag_set(), t),
    ensures
        b.serialized() == s.subrange(0, ext_bound(s)) + seq![OPEN_BRACKET] + t + seq![CLOSE_BRACKET]
            + s.subrange(ext_bound(s), s.len() as int),
{
    assert(tag_span(s) is None);
    let one = seq![t];
    assert(one.to_set() =~= b.tag_set()) by {
        assert(one[0] == t);
    }
    lemma_sorted_unique(one, b.tag_seq());
    assert(join_tags(one) == t);
}

} // verus!
