//! Handles: the capability values through which all memory is addressed.

use vstd::prelude::*;
use crate::codec::{byte_weight, le_bytes, le_value, lemma_le_value_bound, lemma_le_value_of_bytes, read_le};
use crate::tags::Tag;

verus! {

/// The all-ones word that stands for "no segment" in the wire encoding.
pub const NULL_SENTINEL: u32 = 0xffff_ffff;

/// A capability naming a byte in a segment, the null value, or an untrusted
/// bit pattern loaded from a word that held plain data.
#[allow(inconsistent_fields)]
#[derive(Clone, Copy, Debug)]
pub enum Handle {
    Valid { base_segment_id: u32, offset: u32 },
    Corrupted { bytes: [u8; 8] },
    Null { offset: i32 },
}

/// `x` reduced into the 32-bit offset space.
pub open spec fn wrap_offset(x: int) -> u32 {
    (x % 0x1_0000_0000) as u32
}

/// The four bytes of `x`, least significant first.
pub open spec fn word_bytes(x: u32) -> Seq<u8> {
    le_bytes(x as nat, 4)
}

proof fn lemma_small_weights()
    ensures
        byte_weight(0) == 1,
        byte_weight(1) == 256,
        byte_weight(2) == 65536,
        byte_weight(3) == 16777216,
        byte_weight(4) == 0x1_0000_0000,
{
    reveal_with_fuel(byte_weight, 5);
}

/// The four bytes of `x`, least significant first.
fn u32_to_le(x: u32) -> (r: [u8; 4])
    ensures
        r@ == word_bytes(x),
{
    proof {
        lemma_small_weights();
    }
    let r = [(x % 256) as u8, (x / 256 % 256) as u8, (x / 65536 % 256) as u8, (x / 16777216) as u8];
    assert(x as nat / 1 == x);
    assert(x as nat / 16777216 % 256 == x / 16777216);
    assert(r@ =~= word_bytes(x));
    r
}

/// A word spelled by `word_bytes(a) + word_bytes(b)` reads back as `a`
/// and `b`.
proof fn lemma_words_read_back(a: u32, b: u32)
    ensures
        le_value((word_bytes(a) + word_bytes(b)).subrange(0, 4)) == a,
        le_value((word_bytes(a) + word_bytes(b)).subrange(4, 8)) == b,
{
    lemma_small_weights();
    lemma_le_value_of_bytes(a as nat, 4);
    lemma_le_value_of_bytes(b as nat, 4);
    assert((word_bytes(a) + word_bytes(b)).subrange(0, 4) =~= word_bytes(a));
    assert((word_bytes(a) + word_bytes(b)).subrange(4, 8) =~= word_bytes(b));
}

/// Decoding the bytes and tag that represent an encodable handle succeeds
/// and gives that handle back; in particular a corrupted pattern decoded as
/// data is itself.
pub proof fn lemma_encoding_round_trip(h: Handle, g: Handle)
    requires
        h.is_well_formed(),
        h.is_encodable(),
    ensures
        Handle::decodable(h.encoding(), h.encoding_tag()),
        Handle::decodes_to(h.encoding(), h.encoding_tag(), g) ==> g == h,
{
    match h {
        Handle::Valid { base_segment_id, offset } => {
            lemma_words_read_back(base_segment_id, offset);
        },
        Handle::Null { .. } => {
            lemma_words_read_back(NULL_SENTINEL, NULL_SENTINEL);
        },
        Handle::Corrupted { bytes: b } => {
            if Handle::decodes_to(h.encoding(), h.encoding_tag(), g) {
                if let Handle::Corrupted { bytes: c } = g {
                    assert(c =~= b);
                }
            }
        },
    }
}

/// A word decodes to at most one handle.
pub proof fn lemma_decoding_unique(bytes: Seq<u8>, tag: Tag, g: Handle, h: Handle)
    requires
        Handle::decodes_to(bytes, tag, g),
        Handle::decodes_to(bytes, tag, h),
    ensures
        g == h,
{
    if tag != Tag::Handle {
        if let (Handle::Corrupted { bytes: a }, Handle::Corrupted { bytes: b }) = (g, h) {
            assert(a =~= b);
        }
    }
}

impl Handle {
    /// The handle moved by `delta` bytes: offsets of valid handles wrap
    /// around the 32-bit space, null offsets must stay within `i32`, and a
    /// corrupted pattern cannot be moved.
    pub open spec fn displaced(self, delta: int) -> Option<Handle> {
        match self {
            Handle::Valid { base_segment_id, offset } => Some(
                Handle::Valid { base_segment_id, offset: wrap_offset(offset + delta) },
            ),
            Handle::Corrupted { .. } => None,
            Handle::Null { offset } => if i32::MIN <= offset + delta <= i32::MAX {
                Some(Handle::Null { offset: (offset + delta) as i32 })
            } else {
                None
            },
        }
    }

    /// A valid handle never names the sentinel segment, whose encoding is
    /// that of null.
    pub open spec fn is_well_formed(self) -> bool {
        match self {
            Handle::Valid { base_segment_id, .. } => base_segment_id != NULL_SENTINEL,
            _ => true,
        }
    }

    /// Whether the handle has a wire encoding: all but null handles moved
    /// away from zero.
    pub open spec fn is_encodable(self) -> bool {
        match self {
            Handle::Null { offset } => offset == 0,
            _ => true,
        }
    }

    /// The eight bytes that represent the handle in memory.
    pub open spec fn encoding(self) -> Seq<u8> {
        match self {
            Handle::Valid { base_segment_id, offset } => word_bytes(base_segment_id) + word_bytes(offset),
            Handle::Corrupted { bytes } => bytes@,
            Handle::Null { .. } => word_bytes(NULL_SENTINEL) + word_bytes(NULL_SENTINEL),
        }
    }

    /// The tag stored beside the encoding: only untrusted patterns are data.
    pub open spec fn encoding_tag(self) -> Tag {
        match self {
            Handle::Corrupted { .. } => Tag::Data,
            _ => Tag::Handle,
        }
    }

    /// Whether a word with `bytes` and `tag` decodes at all: it does unless
    /// the tag claims a handle, the segment word is the sentinel and the
    /// offset word is not.
    pub open spec fn decodable(bytes: Seq<u8>, tag: Tag) -> bool {
        tag != Tag::Handle || le_value(bytes.subrange(0, 4)) != NULL_SENTINEL || le_value(
            bytes.subrange(4, 8),
        ) == NULL_SENTINEL
    }

    /// Whether a word with `bytes` and `tag` decodes to `h`: data-tagged
    /// bytes are always the corrupted pattern of those bytes, and a handle
    /// tag gives null for the sentinel and a valid handle otherwise.
    pub open spec fn decodes_to(bytes: Seq<u8>, tag: Tag, h: Handle) -> bool {
        if tag != Tag::Handle {
            match h {
                Handle::Corrupted { bytes: b } => b@ == bytes,
                _ => false,
            }
        } else {
            let id = le_value(bytes.subrange(0, 4));
            let offset = le_value(bytes.subrange(4, 8));
            if id == NULL_SENTINEL {
                offset == NULL_SENTINEL && h == (Handle::Null { offset: 0 })
            } else {
                h == (Handle::Valid { base_segment_id: id as u32, offset: offset as u32 })
            }
        }
    }

    /// Same variant and same contents.
    pub open spec fn same_as(self, other: Handle) -> bool {
        match (self, other) {
            (Handle::Null { offset: o1 }, Handle::Null { offset: o2 }) => o1 == o2,
            (Handle::Corrupted { bytes: b1 }, Handle::Corrupted { bytes: b2 }) => b1@ == b2@,
            (
                Handle::Valid { base_segment_id: i1, offset: o1 },
                Handle::Valid { base_segment_id: i2, offset: o2 },
            ) => i1 == i2 && o1 == o2,
            _ => false,
        }
    }

    /// The order on null and valid handles; `None` where a corrupted
    /// pattern takes part.
    pub open spec fn less_than(self, other: Handle) -> Option<bool> {
        match (self, other) {
            (Handle::Corrupted { .. }, _) => None,
            (_, Handle::Corrupted { .. }) => None,
            (Handle::Null { offset: o1 }, Handle::Null { offset: o2 }) => Some(o1 < o2),
            (Handle::Null { .. }, _) => Some(true),
            (_, Handle::Null { .. }) => Some(false),
            (
                Handle::Valid { base_segment_id: i1, offset: o1 },
                Handle::Valid { base_segment_id: i2, offset: o2 },
            ) => Some(i1 < i2 || (i1 == i2 && o1 < o2)),
        }
    }

    /// Moves the handle `amt` bytes forward.
    pub fn add(self, amt: i32) -> (r: Option<Handle>)
        ensures
            r == self.displaced(amt as int),
    {
        match self {
            Handle::Null { offset } => match offset.checked_add(amt) {
                Some(o) => Some(Handle::Null { offset: o }),
                None => None,
            },
            Handle::Corrupted { .. } => None,
            Handle::Valid { base_segment_id, offset } => Some(
                Handle::Valid { base_segment_id, offset: offset.wrapping_add_signed(amt) },
            ),
        }
    }

    /// Moves the handle `amt` bytes back.
    pub fn sub(self, amt: i32) -> (r: Option<Handle>)
        ensures
            r == self.displaced(-amt),
    {
        match self {
            Handle::Null { offset } => match offset.checked_sub(amt) {
                Some(o) => Some(Handle::Null { offset: o }),
                None => None,
            },
            Handle::Corrupted { .. } => None,
            Handle::Valid { base_segment_id, offset } => {
                let moved: i64 = offset as i64 - amt as i64;
                let wrapped: i64 = if moved < 0 {
                    moved + 0x1_0000_0000
                } else if moved > 0xffff_ffff {
                    moved - 0x1_0000_0000
                } else {
                    moved
                };
                Some(Handle::Valid { base_segment_id, offset: wrapped as u32 })
            },
        }
    }

    /// The identifier of the segment that a valid handle names.
    pub fn segment_index(self) -> (r: Option<usize>)
        ensures
            r == match self {
                Handle::Valid { base_segment_id, .. } => Some(base_segment_id as usize),
                _ => None,
            },
    {
        match self {
            Handle::Valid { base_segment_id, .. } => Some(base_segment_id as usize),
            _ => None,
        }
    }

    /// The offset of a valid or null handle, as an address-sized integer.
    pub fn segment_offset(self) -> (r: Option<usize>)
        ensures
            r == match self {
                Handle::Valid { offset, .. } => Some(offset as usize),
                Handle::Null { offset } => Some(offset as usize),
                Handle::Corrupted { .. } => None,
            },
    {
        match self {
            Handle::Valid { offset, .. } => Some(offset as usize),
            Handle::Null { offset } => Some(offset as usize),
            Handle::Corrupted { .. } => None,
        }
    }

    /// The eight bytes and the tag that represent the handle in memory.
    pub fn to_bytes(self) -> (r: ([u8; 8], Tag))
        requires
            self.is_encodable(),
        ensures
            r.0@ == self.encoding(),
            r.1 == self.encoding_tag(),
    {
        match self {
            Handle::Corrupted { bytes } => (bytes, Tag::Data),
            Handle::Valid { base_segment_id, offset } => {
                let a = u32_to_le(base_segment_id);
                let b = u32_to_le(offset);
                let res = [a[0], a[1], a[2], a[3], b[0], b[1], b[2], b[3]];
                assert(res@ =~= self.encoding());
                (res, Tag::Handle)
            },
            Handle::Null { .. } => {
                let a = u32_to_le(NULL_SENTINEL);
                let res = [a[0], a[1], a[2], a[3], a[0], a[1], a[2], a[3]];
                assert(res@ =~= self.encoding());
                (res, Tag::Handle)
            },
        }
    }

    /// Decodes a memory word: data-tagged bytes never become a capability.
    pub fn from_bytes(bytes: [u8; 8], tag: Tag) -> (r: Handle)
        requires
            Handle::decodable(bytes@, tag),
        ensures
            Handle::decodes_to(bytes@, tag, r),
    {
        if !tag.can_be_handle() {
            Handle::Corrupted { bytes }
        } else {
            proof {
                lemma_small_weights();
                lemma_le_value_bound(bytes@.subrange(0, 4));
                lemma_le_value_bound(bytes@.subrange(4, 8));
            }
            let slice = bytes.as_slice();
            assert(slice@ == bytes@);
            let id = read_le(slice, 0, 4).unwrap() as u32;
            let offset = read_le(slice, 4, 4).unwrap() as u32;
            if id == NULL_SENTINEL {
                Handle::Null { offset: 0 }
            } else {
                Handle::Valid { base_segment_id: id, offset }
            }
        }
    }

    /// Whether the handle has a wire encoding.
    pub fn has_encoding(&self) -> (r: bool)
        ensures
            r == self.is_encodable(),
    {
        match self {
            Handle::Null { offset } => *offset == 0,
            _ => true,
        }
    }

    /// Whether the handle is well formed: a valid handle must not name the
    /// sentinel segment.
    pub fn names_a_segment_id(&self) -> (r: bool)
        ensures
            r == self.is_well_formed(),
    {
        match self {
            Handle::Valid { base_segment_id, .. } => *base_segment_id != NULL_SENTINEL,
            _ => true,
        }
    }

    /// Whether the word `bytes` with `tag` decodes.
    pub fn is_decodable(bytes: &[u8; 8], tag: Tag) -> (r: bool)
        ensures
            r == Handle::decodable(bytes@, tag),
    {
        if !tag.can_be_handle() {
            return true;
        }
        let slice = bytes.as_slice();
        assert(slice@ == bytes@);
        proof {
            lemma_small_weights();
            lemma_le_value_bound(bytes@.subrange(0, 4));
            lemma_le_value_bound(bytes@.subrange(4, 8));
        }
        let id = read_le(slice, 0, 4).unwrap();
        let offset = read_le(slice, 4, 4).unwrap();
        id != NULL_SENTINEL as u64 || offset == NULL_SENTINEL as u64
    }

    /// Whether both handles are of the same variant with the same contents.
    pub fn is_eq(self, other: Handle) -> (r: bool)
        ensures
            r == self.same_as(other),
    {
        match (self, other) {
            (Handle::Null { offset: o1 }, Handle::Null { offset: o2 }) => o1 == o2,
            (Handle::Corrupted { bytes: b1 }, Handle::Corrupted { bytes: b2 }) => {
                let mut i: usize = 0;
                while i < 8
                    invariant
                        i <= 8,
                        self == (Handle::Corrupted { bytes: b1 }),
                        other == (Handle::Corrupted { bytes: b2 }),
                        forall|j: int| 0 <= j < i ==> b1@[j] == b2@[j],
                    decreases 8 - i,
                {
                    if b1[i] != b2[i] {
                        assert(b1@[i as int] != b2@[i as int]);
                        return false;
                    }
                    i = i + 1;
                }
                assert(b1@ =~= b2@);
                true
            },
            (
                Handle::Valid { base_segment_id: i1, offset: o1 },
                Handle::Valid { base_segment_id: i2, offset: o2 },
            ) => i1 == i2 && o1 == o2,
            _ => false,
        }
    }

    /// Whether `self` orders before `other`; `None` where either is a
    /// corrupted pattern.
    pub fn is_lt(self, other: Handle) -> (r: Option<bool>)
        ensures
            r == self.less_than(other),
    {
        match (self, other) {
            (Handle::Corrupted { .. }, _) => None,
            (_, Handle::Corrupted { .. }) => None,
            (Handle::Null { offset: o1 }, Handle::Null { offset: o2 }) => Some(o1 < o2),
            (Handle::Null { .. }, _) => Some(true),
            (_, Handle::Null { .. }) => Some(false),
            (
                Handle::Valid { base_segment_id: i1, offset: o1 },
                Handle::Valid { base_segment_id: i2, offset: o2 },
            ) => Some(i1 < i2 || (i1 == i2 && o1 < o2)),
        }
    }
}

} // verus!
