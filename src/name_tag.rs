//! A file name split into the bytes around its tag segment and its set of
//! tags.
use vstd::prelude::*;
use vstd::pervasive::arbitrary;
use vstd::string::StringSliceAdditionalSpecFns;
use vstd::utf8::{decode_utf8, valid_utf8};
use crate::order::strictly_sorted;
use crate::scan::{
    copy_range, ext_bound, lemma_ext_bound_in_range, get_ext_bound, get_tag_bounds, parse_tags, tag_span, tags_in,
    CLOSE_BRACKET, OPEN_BRACKET, SPACE,
};
use crate::tagset::{insert_sorted, remove_sorted, tags_view};

verus! {

/// What can go wrong when a name is written back.
#[derive(Debug, Clone, Copy, PartialEq, Eq, Structural)]
pub enum NameTagError {
    /// The name's bytes are not valid UTF-8, so it has no text form.
    InvalidEncoding,
}

/// A name such as `file[tag1 tag2].txt`, read once: the bytes before the
/// tag segment, its tags, and the bytes after it. Where the name had no tag
/// segment, the two parts meet where one would go.
#[derive(Debug)]
pub struct NameTag {
    prefix: Vec<u8>,
    suffix: Vec<u8>,
    tags: Vec<Vec<u8>>,
}

/// The tags, each followed by a space but the last.
pub open spec fn join_tags(tags: Seq<Seq<u8>>) -> Seq<u8>
    decreases tags.len(),
{
    if tags.len() == 0 {
        Seq::empty()
    } else if tags.len() == 1 {
        tags[0]
    } else {
        join_tags(tags.drop_last()) + seq![SPACE] + tags.last()
    }
}

/// The written form of a name: `prefix[tag1 tag2]suffix`, or `prefix suffix`
/// joined where there are no tags.
pub open spec fn serialize(prefix: Seq<u8>, tags: Seq<Seq<u8>>, suffix: Seq<u8>) -> Seq<u8> {
    if tags.len() == 0 {
        prefix + suffix
    } else {
        prefix + seq![OPEN_BRACKET] + join_tags(tags) + seq![CLOSE_BRACKET] + suffix
    }
}

/// The set after adding `t`; an empty tag is never held.
pub open spec fn with_tag(tags: Set<Seq<u8>>, t: Seq<u8>) -> Set<Seq<u8>> {
    if t.len() == 0 {
        tags
    } else {
        tags.insert(t)
    }
}

impl NameTag {
    /// The bytes before the tag segment.
    pub closed spec fn prefix_bytes(&self) -> Seq<u8> {
        self.prefix@
    }

    /// The bytes after the tag segment.
    pub closed spec fn suffix_bytes(&self) -> Seq<u8> {
        self.suffix@
    }

    /// The tags, in the order in which they are written.
    pub closed spec fn tag_seq(&self) -> Seq<Seq<u8>> {
        tags_view(self.tags@)
    }

    pub open spec fn tag_set(&self) -> Set<Seq<u8>> {
        self.tag_seq().to_set()
    }

    /// Tags are sorted, without repeats, and none is empty.
    pub open spec fn wf(&self) -> bool {
        &&& strictly_sorted(self.tag_seq())
        &&& forall|i: int| 0 <= i < self.tag_seq().len() ==> #[trigger] self.tag_seq()[i].len() > 0
    }

    /// `self` is what reading the name `s` gives.
    pub open spec fn parsed_from(&self, s: Seq<u8>) -> bool {
        match tag_span(s) {
            Some((u, l)) => {
                &&& self.prefix_bytes() == s.subrange(0, u)
                &&& self.suffix_bytes() == s.subrange(l, s.len() as int)
                &&& self.tag_set() == tags_in(s.subrange(u + 1, l - 1))
            },
            None => {
                &&& self.prefix_bytes() == s.subrange(0, ext_bound(s))
                &&& self.suffix_bytes() == s.subrange(ext_bound(s), s.len() as int)
                &&& self.tag_set() == Set::<Seq<u8>>::empty()
            },
        }
    }

    pub open spec fn serialized(&self) -> Seq<u8> {
        serialize(self.prefix_bytes(), self.tag_seq(), self.suffix_bytes())
    }

    /// Reads a name.
    pub fn new(name: &[u8]) -> (r: Self)
        ensures
            r.wf(),
            r.parsed_from(name@),
    {
        match get_tag_bounds(name) {
            Some((upper, lower)) => {
                let prefix = copy_range(name, 0, upper);
                let suffix = copy_range(name, lower, name.len());
                let inner = copy_range(name, upper + 1, lower - 1);
                let tags = parse_tags(inner.as_slice());
                let r = NameTag { prefix, suffix, tags };
                proof {
                    assert forall|i: int| 0 <= i < r.tag_seq().len() implies #[trigger] r.tag_seq()[i].len() > 0 by {
                        assert(r.tag_set().contains(r.tag_seq()[i]));
                    }
                }
                r
            },
            None => {
                let split = get_ext_bound(name);
                proof {
                    lemma_ext_bound_in_range(name@);
                }
                let prefix = copy_range(name, 0, split);
                let suffix = copy_range(name, split, name.len());
                let r = NameTag { prefix, suffix, tags: Vec::new() };
                assert(r.tag_set() =~= Set::<Seq<u8>>::empty());
                r
            },
        }
    }

    /// Adds a tag; adding one that is there already, or an empty one,
    /// changes nothing.
    pub fn add_tag(&mut self, tag: &[u8])
        requires
            old(self).wf(),
        ensures
            final(self).wf(),
            final(self).prefix_bytes() == old(self).prefix_bytes(),
            final(self).suffix_bytes() == old(self).suffix_bytes(),
            final(self).tag_set() == with_tag(old(self).tag_set(), tag@),
    {
        if tag.len() > 0 {
            let t = copy_range(tag, 0, tag.len());
            assert(t@ =~= tag@);
            insert_sorted(&mut self.tags, t);
            proof {
                let s = self.tag_seq();
                assert forall|i: int| 0 <= i < s.len() implies #[trigger] s[i].len() > 0 by {
                    assert(s.to_set().contains(s[i]));
                    if s[i] != tag@ {
                        assert(old(self).tag_set().contains(s[i]));
                        let j = choose|j: int| 0 <= j < old(self).tag_seq().len() && old(self).tag_seq()[j] == s[i];
                    }
                }
            }
        }
    }

    /// Takes a tag out; taking out one that is absent changes nothing.
    pub fn remove_tag(&mut self, tag: &[u8])
        requires
            old(self).wf(),
        ensures
            final(self).wf(),
            final(self).prefix_bytes() == old(self).prefix_bytes(),
            final(self).suffix_bytes() == old(self).suffix_bytes(),
            final(self).tag_set() == old(self).tag_set().remove(tag@),
    {
        remove_sorted(&mut self.tags, tag);
        proof {
            let s = self.tag_seq();
            assert forall|i: int| 0 <= i < s.len() implies #[trigger] s[i].len() > 0 by {
                assert(s.to_set().contains(s[i]));
                assert(old(self).tag_set().contains(s[i]));
                let j = choose|j: int| 0 <= j < old(self).tag_seq().len() && old(self).tag_seq()[j] == s[i];
            }
        }
    }

    /// The tags, in strictly ascending byte order.
    pub fn get_tags(&self) -> (r: Vec<Vec<u8>>)
        requires
            self.wf(),
        ensures
            tags_view(r@) == self.tag_seq(),
            strictly_sorted(tags_view(r@)),
    {
        let mut r: Vec<Vec<u8>> = Vec::new();
        let mut i: usize = 0;
        while i < self.tags.len()
            invariant
                0 <= i <= self.tags@.len(),
                tags_view(r@) == self.tag_seq().take(i as int),
            decreases self.tags@.len() - i,
        {
            let t = &self.tags[i];
            let c = copy_range(t.as_slice(), 0, t.len());
            assert(c@ =~= t@);
            let ghost rv = tags_view(r@);
            r.push(c);
            assert(tags_view(r@) =~= rv.push(c@));
            assert(self.tag_seq()[i as int] == self.tags@[i as int]@);
            assert(self.tag_seq().take(i + 1) =~= self.tag_seq().take(i as int).push(self.tag_seq()[i as int]));
            i = i + 1;
        }
        assert(self.tag_seq().take(i as int) =~= self.tag_seq());
        r
    }

    /// Removes every tag; the bytes around the segment stay as they are.
    pub fn clear_tags(&mut self)
        requires
            old(self).wf(),
        ensures
            final(self).wf(),
            final(self).prefix_bytes() == old(self).prefix_bytes(),
            final(self).suffix_bytes() == old(self).suffix_bytes(),
            final(self).tag_set() == Set::<Seq<u8>>::empty(),
    {
        self.tags.clear();
        assert(self.tag_seq() =~= Seq::<Seq<u8>>::empty());
        assert(self.tag_set() =~= Set::<Seq<u8>>::empty());
    }

    /// The name written back, with its tags in canonical form.
    pub fn into_bytes(&self) -> (r: Vec<u8>)
        ensures
            r@ == self.serialized(),
    {
        let mut out: Vec<u8> = Vec::new();
        push_all(&mut out, self.prefix.as_slice());
        if self.tags.len() > 0 {
            out.push(OPEN_BRACKET);
            let ghost head = out@;
            let mut i: usize = 0;
            while i < self.tags.len()
                invariant
                    0 <= i <= self.tags@.len(),
                    out@ == head + join_tags(self.tag_seq().take(i as int)),
                decreases self.tags@.len() - i,
            {
                let ghost ts = self.tag_seq();
                assert(ts.take(i + 1).drop_last() =~= ts.take(i as int));
                if i > 0 {
                    out.push(SPACE);
                }
                push_all(&mut out, self.tags[i].as_slice());
                proof {
                    if i == 0 {
                        assert(ts.take(1)[0] == ts[0]);
                        assert(join_tags(ts.take(0)) =~= Seq::<u8>::empty());
                    }
                }
                assert(out@ =~= head + join_tags(ts.take(i + 1)));
                i = i + 1;
            }
            assert(self.tag_seq().take(i as int) =~= self.tag_seq());
            out.push(CLOSE_BRACKET);
        }
        push_all(&mut out, self.suffix.as_slice());
        proof {
            if self.tag_seq().len() == 0 {
            }
        }
        assert(out@ =~= self.serialized());
        out
    }

    /// The name written back, as text.
    pub fn try_into_string(&self) -> (r: Result<String, NameTagError>)
        ensures
            match r {
                Ok(s) => valid_utf8(self.serialized()) && s@ == decode_utf8(self.serialized()),
                Err(e) => !valid_utf8(self.serialized()) && e == NameTagError::InvalidEncoding,
            },
    {
        match string_from_utf8(self.into_bytes()) {
            Some(s) => Ok(s),
            None => Err(NameTagError::InvalidEncoding),
        }
    }
}

impl core::str::FromStr for NameTag {
    type Err = NameTagError;

    /// Reads a name given as text; this never fails.
    fn from_str(name: &str) -> (r: Result<NameTag, NameTagError>)
        ensures
            r matches Ok(t) && t.wf() && t.parsed_from(name.spec_bytes()),
    {
        Ok(NameTag::new(name.as_bytes()))
    }
}

impl From<NameTag> for Vec<u8> {
    fn from(name: NameTag) -> (r: Vec<u8>)
        ensures
            r@ == name.serialized(),
    {
        name.into_bytes()
    }
}

/// The result is not a spec value (a `Vec` is built in exec code only); the
/// `ensures` of `from` says what it holds.
impl vstd::std_specs::convert::FromSpecImpl<NameTag> for Vec<u8> {
    open spec fn obeys_from_spec() -> bool {
        false
    }

    open spec fn from_spec(v: NameTag) -> Vec<u8> {
        arbitrary()
    }
}

impl TryFrom<NameTag> for String {
    type Error = NameTagError;

    fn try_from(name: NameTag) -> (r: Result<String, NameTagError>)
        ensures
            match r {
                Ok(s) => valid_utf8(name.serialized()) && s@ == decode_utf8(name.serialized()),
                Err(e) => !valid_utf8(name.serialized()) && e == NameTagError::InvalidEncoding,
            },
    {
        name.try_into_string()
    }
}

/// The result is not a spec value (a `String` is built in exec code only);
/// the `ensures` of `try_from` says what it holds.
impl vstd::std_specs::convert::TryFromSpecImpl<NameTag> for String {
    open spec fn obeys_try_from_spec() -> bool {
        false
    }

    open spec fn try_from_spec(v: NameTag) -> Result<String, NameTagError> {
        arbitrary()
    }
}

/// Relies on `String::from_utf8`: it succeeds exactly when the bytes are
/// valid UTF-8, and the string then holds the characters they encode.
#[verifier::external_body]
fn string_from_utf8(bytes: Vec<u8>) -> (r: Option<String>)
    ensures
        r is Some <==> valid_utf8(bytes@),
        r is Some ==> r->Some_0@ == decode_utf8(bytes@),
{
    String::from_utf8(bytes).ok()
}

fn push_all(out: &mut Vec<u8>, src: &[u8])
    ensures
        final(out)@ == old(out)@ + src@,
{
    let mut i: usize = 0;
    while i < src.len()
        invariant
            0 <= i <= src@.len(),
            out@ == old(out)@ + src@.take(i as int),
        decreases src@.len() - i,
    {
        out.push(src[i]);
        assert(src@.take(i + 1) =~= src@.take(i as int).push(src@[i as int]));
        i = i + 1;
    }
    assert(src@.take(i as int) =~= src@);
}

} // verus!
