//! Per-word tags: whether each 8-byte word of a segment holds a handle or
//! plain data, kept under one of three storage strategies.

use vstd::prelude::*;

verus! {

/// What the last write to a memory word stored there.
#[derive(Clone, Copy, Debug, PartialEq, Eq, Structural)]
pub enum Tag {
    Data,
    Handle,
}

impl Tag {
    /// Whether a word carrying this tag may be decoded as a handle.
    pub fn can_be_handle(&self) -> (r: bool)
        ensures
            r == (*self == Tag::Handle),
    {
        *self == Tag::Handle
    }
}

/// How a segment keeps its tags.
#[derive(Clone, Copy, Debug, PartialEq, Eq, Structural)]
pub enum TagStrategy {
    /// One tag value per word.
    PerWord,
    /// One bit per word, set for a handle.
    Packed,
    /// No tags at all: every word reads as a handle. This switches the
    /// capability check off, to measure what it costs; it gives no safety.
    Disabled,
}

/// The tags of the words of one segment.
pub enum Tags {
    PerWord { tags: Vec<Tag> },
    Packed { bits: Vec<u64>, len: usize },
    Disabled { len: usize },
}

/// Whether bit `b` of `w` is set.
pub open spec fn bit_is_set(w: u64, b: u64) -> bool {
    w & (1u64 << b) != 0
}

proof fn lemma_bit_update(w: u64, b: u64, j: u64)
    requires
        b < 64,
        j < 64,
    ensures
        bit_is_set(w | (1u64 << b), j) == (j == b || bit_is_set(w, j)),
        bit_is_set(w & !(1u64 << b), j) == (j != b && bit_is_set(w, j)),
{
    assert(((w | (1u64 << b)) & (1u64 << j) != 0) == (j == b || w & (1u64 << j) != 0)) by (bit_vector)
        requires
            b < 64,
            j < 64,
    ;
    assert(((w & !(1u64 << b)) & (1u64 << j) != 0) == (j != b && w & (1u64 << j) != 0)) by (bit_vector)
        requires
            b < 64,
            j < 64,
    ;
}

proof fn lemma_zero_has_no_bits(j: u64)
    requires
        j < 64,
    ensures
        !bit_is_set(0, j),
{
    assert(0u64 & (1u64 << j) == 0) by (bit_vector);
}

impl View for Tags {
    type V = Seq<Tag>;

    /// The tag of each word, in order.
    open spec fn view(&self) -> Seq<Tag> {
        match self {
            Tags::PerWord { tags } => tags@,
            Tags::Packed { bits, len } => Seq::new(
                *len as nat,
                |i: int|
                    if bit_is_set(bits@[i / 64], (i % 64) as u64) {
                        Tag::Handle
                    } else {
                        Tag::Data
                    },
            ),
            Tags::Disabled { len } => Seq::new(*len as nat, |i: int| Tag::Handle),
        }
    }
}

impl Tags {
    pub open spec fn strategy(&self) -> TagStrategy {
        match self {
            Tags::PerWord { .. } => TagStrategy::PerWord,
            Tags::Packed { .. } => TagStrategy::Packed,
            Tags::Disabled { .. } => TagStrategy::Disabled,
        }
    }

    /// A packed table has exactly the 64-bit words its length needs.
    pub open spec fn wf(&self) -> bool {
        match self {
            Tags::Packed { bits, len } => bits@.len() == (*len + 63) / 64,
            _ => true,
        }
    }

    /// A table of `tags_size` words, all plain data (all handles where tags
    /// are disabled).
    pub fn new(strategy: TagStrategy, tags_size: usize) -> (r: Tags)
        ensures
            r.wf(),
            r.strategy() == strategy,
            r@.len() == tags_size,
            forall|i: int|
                0 <= i < tags_size ==> #[trigger] r@[i] == if strategy == TagStrategy::Disabled {
                    Tag::Handle
                } else {
                    Tag::Data
                },
    {
        match strategy {
            TagStrategy::PerWord => {
                let mut tags: Vec<Tag> = Vec::with_capacity(tags_size);
                let mut i: usize = 0;
                while i < tags_size
                    invariant
                        i <= tags_size,
                        tags@.len() == i,
                        forall|j: int| 0 <= j < i ==> tags@[j] == Tag::Data,
                    decreases tags_size - i,
                {
                    tags.push(Tag::Data);
                    i = i + 1;
                }
                Tags::PerWord { tags }
            },
            TagStrategy::Packed => {
                let words: usize = tags_size / 64 + if tags_size % 64 == 0 {
                    0
                } else {
                    1
                };
                let mut bits: Vec<u64> = Vec::with_capacity(words);
                let mut i: usize = 0;
                while i < words
                    invariant
                        i <= words,
                        bits@.len() == i,
                        forall|j: int| 0 <= j < i ==> bits@[j] == 0,
                    decreases words - i,
                {
                    bits.push(0);
                    i = i + 1;
                }
                let r = Tags::Packed { bits, len: tags_size };
                assert forall|i: int| 0 <= i < tags_size implies #[trigger] r@[i] == Tag::Data by {
                    lemma_zero_has_no_bits((i % 64) as u64);
                }
                r
            },
            TagStrategy::Disabled => Tags::Disabled { len: tags_size },
        }
    }

    /// Sets the tag of word `tag_offset`; `None` where there is no such
    /// word. A disabled table accepts the call and stays as it is.
    pub fn update(&mut self, tag_offset: usize, tag: Tag) -> (r: Option<()>)
        requires
            old(self).wf(),
        ensures
            final(self).wf(),
            final(self).strategy() == old(self).strategy(),
            r is Some <==> tag_offset < old(self)@.len(),
            final(self)@ == if r is Some && old(self).strategy() != TagStrategy::Disabled {
                old(self)@.update(tag_offset as int, tag)
            } else {
                old(self)@
            },
    {
        match self {
            Tags::PerWord { tags } => {
                if tag_offset >= tags.len() {
                    return None;
                }
                tags.set(tag_offset, tag);
                Some(())
            },
            Tags::Packed { bits, len } => {
                if tag_offset >= *len {
                    return None;
                }
                let ghost before = *bits;
                let k = tag_offset / 64;
                let b = (tag_offset % 64) as u64;
                let w = bits[k];
                if tag.can_be_handle() {
                    bits.set(k, w | (1u64 << b));
                } else {
                    bits.set(k, w & !(1u64 << b));
                }
                proof {
                    let n = *len as int;
                    let old_view = Seq::new(
                        n as nat,
                        |i: int|
                            if bit_is_set(before@[i / 64], (i % 64) as u64) {
                                Tag::Handle
                            } else {
                                Tag::Data
                            },
                    );
                    let new_view = Seq::new(
                        n as nat,
                        |i: int|
                            if bit_is_set(bits@[i / 64], (i % 64) as u64) {
                                Tag::Handle
                            } else {
                                Tag::Data
                            },
                    );
                    assert forall|i: int| 0 <= i < n implies #[trigger] new_view[i] == old_view.update(
                        tag_offset as int,
                        tag,
                    )[i] by {
                        lemma_bit_update(w, b, (i % 64) as u64);
                        if i / 64 == k && i != tag_offset {
                            assert(i % 64 != tag_offset % 64);
                        }
                    }
                    assert(new_view =~= old_view.update(tag_offset as int, tag));
                }
                Some(())
            },
            Tags::Disabled { len } => {
                if tag_offset >= *len {
                    return None;
                }
                Some(())
            },
        }
    }

    /// The tag of word `tag_offset`; `None` where there is no such word.
    pub fn get(&self, tag_offset: usize) -> (r: Option<Tag>)
        requires
            self.wf(),
        ensures
            r == if tag_offset < self@.len() {
                Some(self@[tag_offset as int])
            } else {
                None
            },
    {
        match self {
            Tags::PerWord { tags } => {
                if tag_offset >= tags.len() {
                    None
                } else {
                    Some(tags[tag_offset])
                }
            },
            Tags::Packed { bits, len } => {
                if tag_offset >= *len {
                    return None;
                }
                if bits[tag_offset / 64] & (1u64 << ((tag_offset % 64) as u64)) != 0 {
                    Some(Tag::Handle)
                } else {
                    Some(Tag::Data)
                }
            },
            Tags::Disabled { len } => {
                if tag_offset >= *len {
                    None
                } else {
                    Some(Tag::Handle)
                }
            },
        }
    }
}

} // verus!
