//! Segments: independently allocated byte buffers with their tags.

use vstd::prelude::*;
use crate::codec::{byte_weight, le_bytes, write_le};
use crate::handle::{Handle, lemma_encoding_round_trip};
use crate::tags::{Tag, TagStrategy, Tags};

verus! {

/// Whether word `w` (bytes `8w .. 8w + 8`) overlaps the `len` bytes at
/// `offset`.
pub open spec fn touches(offset: int, len: int, w: int) -> bool {
    len > 0 && offset < 8 * w + 8 && 8 * w < offset + len
}

/// Whether some byte of word `w` differs between `a` and `b`.
pub open spec fn word_changed(a: Seq<u8>, b: Seq<u8>, w: int) -> bool {
    exists|i: int| 0 <= i < a.len() && 8 * w <= i < 8 * w + 8 && #[trigger] a[i] != b[i]
}

/// Whether some byte of word `w` below `k` differs between `a` and `b`.
spec fn word_changed_below(a: Seq<u8>, b: Seq<u8>, w: int, k: int) -> bool {
    exists|i: int| 0 <= i < k && 8 * w <= i < 8 * w + 8 && #[trigger] a[i] != b[i]
}

/// The number of 8-byte words that cover `size` bytes.
pub open spec fn word_count(size: int) -> int {
    (size + 7) / 8
}

/// A segment as values: freed, or live with its bytes, the tag of each
/// word, and whether those tags are kept at all.
pub enum SegmentView {
    Freed,
    Live { bytes: Seq<u8>, tags: Seq<Tag>, tagged: bool },
}

impl SegmentView {
    /// A live segment has one tag per 8-byte word, and where tags are
    /// kept, every word tagged as a handle is a whole word whose bytes
    /// decode.
    pub open spec fn wf(self) -> bool {
        &&& self.is_live() ==> self.tags().len() == word_count(self.bytes().len() as int)
        &&& self.tagged() ==> forall|w: int|
            0 <= w < self.tags().len() && #[trigger] self.tags()[w] == Tag::Handle ==> 8 * w + 8
                <= self.bytes().len() && Handle::decodable(self.word_at(8 * w), Tag::Handle)
    }

    pub open spec fn is_live(self) -> bool {
        self is Live
    }

    pub open spec fn bytes(self) -> Seq<u8> {
        match self {
            SegmentView::Live { bytes, .. } => bytes,
            SegmentView::Freed => Seq::empty(),
        }
    }

    pub open spec fn tags(self) -> Seq<Tag> {
        match self {
            SegmentView::Live { tags, .. } => tags,
            SegmentView::Freed => Seq::empty(),
        }
    }

    pub open spec fn tagged(self) -> bool {
        match self {
            SegmentView::Live { tagged, .. } => tagged,
            SegmentView::Freed => false,
        }
    }

    /// Whether the `len` bytes at `offset` lie inside a live segment.
    pub open spec fn in_bounds(self, offset: int, len: int) -> bool {
        self.is_live() && 0 <= offset && 0 <= len && offset + len <= self.bytes().len()
    }

    /// Whether `offset` can hold a handle: a whole aligned word inside a
    /// live segment.
    pub open spec fn is_handle_slot(self, offset: int) -> bool {
        self.in_bounds(offset, 8) && offset % 8 == 0
    }

    /// The segment after `data` is written as plain bytes at `offset`: every
    /// word the write touches is demoted to data, where tags are kept.
    pub open spec fn plain_written(self, offset: int, data: Seq<u8>) -> SegmentView {
        let bytes = self.bytes();
        let tags = self.tags();
        SegmentView::Live {
            bytes: bytes.subrange(0, offset) + data + bytes.subrange(offset + data.len(), bytes.len() as int),
            tags: if self.tagged() {
                Seq::new(tags.len(), |w: int| if touches(offset, data.len() as int, w) { Tag::Data } else { tags[w] })
            } else {
                tags
            },
            tagged: self.tagged(),
        }
    }

    /// The segment after `h` is stored at the handle slot `offset`: its
    /// encoding and, where tags are kept, its tag.
    pub open spec fn handle_stored(self, offset: int, h: Handle) -> SegmentView {
        let bytes = self.bytes();
        let tags = self.tags();
        SegmentView::Live {
            bytes: bytes.subrange(0, offset) + h.encoding() + bytes.subrange(offset + 8, bytes.len() as int),
            tags: if self.tagged() {
                tags.update(offset / 8, h.encoding_tag())
            } else {
                tags
            },
            tagged: self.tagged(),
        }
    }

    /// The segment after an outside writer has replaced its bytes with
    /// `data` of the same length: every word with a changed byte is
    /// demoted, where tags are kept.
    pub open spec fn host_written(self, data: Seq<u8>) -> SegmentView {
        let bytes = self.bytes();
        let tags = self.tags();
        SegmentView::Live {
            bytes: data,
            tags: if self.tagged() {
                Seq::new(tags.len(), |w: int| if word_changed(bytes, data, w) { Tag::Data } else { tags[w] })
            } else {
                tags
            },
            tagged: self.tagged(),
        }
    }

    /// The eight bytes of the word at `offset`.
    pub open spec fn word_at(self, offset: int) -> Seq<u8> {
        self.bytes().subrange(offset, offset + 8)
    }

    /// The tag of the word holding byte `offset`.
    pub open spec fn tag_at(self, offset: int) -> Tag {
        self.tags()[offset / 8]
    }

    /// Whether the handle slot `offset` holds something that decodes.
    pub open spec fn handle_readable(self, offset: int) -> bool {
        self.is_handle_slot(offset) && Handle::decodable(self.word_at(offset), self.tag_at(offset))
    }
}

/// A plain write leaves the word of every handle slot it touches tagged as
/// data, so that whatever bytes it wrote, the slot reads back only as a
/// corrupted pattern.
pub proof fn lemma_plain_write_demotes(seg: SegmentView, offset: int, data: Seq<u8>, slot: int, g: Handle)
    requires
        seg.wf(),
        seg.tagged(),
        seg.in_bounds(offset, data.len() as int),
        seg.is_handle_slot(slot),
        touches(offset, data.len() as int, slot / 8),
    ensures
        seg.plain_written(offset, data).tag_at(slot) == Tag::Data,
        seg.plain_written(offset, data).handle_readable(slot),
        Handle::decodes_to(seg.plain_written(offset, data).word_at(slot), Tag::Data, g) ==> g is Corrupted,
{
    let after = seg.plain_written(offset, data);
    assert(after.bytes().len() == seg.bytes().len());
    assert(0 <= slot / 8 < seg.tags().len());
}

/// Only a handle store makes a word a handle: neither a plain write nor an
/// outside writer's changes ever do, and a handle store does so only for
/// its own slot and a handle that is not a corrupted pattern.
pub proof fn lemma_only_handle_stores_promote(
    seg: SegmentView,
    offset: int,
    data: Seq<u8>,
    slot: int,
    h: Handle,
    w: int,
)
    requires
        seg.wf(),
        seg.is_live(),
        0 <= w < seg.tags().len(),
        seg.is_handle_slot(slot),
    ensures
        seg.plain_written(offset, data).tags()[w] == Tag::Handle ==> seg.tags()[w] == Tag::Handle,
        seg.host_written(data).tags()[w] == Tag::Handle ==> seg.tags()[w] == Tag::Handle,
        seg.handle_stored(slot, h).tags()[w] == Tag::Handle ==> seg.tags()[w] == Tag::Handle || (w == slot
            / 8 && !(h is Corrupted)),
{
}

/// A plain write keeps a segment well formed: it demotes every word whose
/// bytes it changes.
proof fn lemma_plain_written_wf(seg: SegmentView, offset: int, data: Seq<u8>)
    requires
        seg.wf(),
        seg.in_bounds(offset, data.len() as int),
    ensures
        seg.plain_written(offset, data).wf(),
{
    let after = seg.plain_written(offset, data);
    if seg.tagged() {
        assert forall|w: int| 0 <= w < after.tags().len() && #[trigger] after.tags()[w] == Tag::Handle implies 8 * w
            + 8 <= after.bytes().len() && Handle::decodable(after.word_at(8 * w), Tag::Handle) by {
            assert(seg.tags()[w] == Tag::Handle);
            assert(after.word_at(8 * w) =~= seg.word_at(8 * w));
        }
    }
}

/// Storing a well-formed handle keeps a segment well formed.
proof fn lemma_handle_stored_wf(seg: SegmentView, offset: int, h: Handle)
    requires
        seg.wf(),
        seg.is_handle_slot(offset),
        h.is_encodable(),
        h.is_well_formed(),
    ensures
        seg.handle_stored(offset, h).wf(),
{
    let after = seg.handle_stored(offset, h);
    if seg.tagged() {
        assert forall|w: int| 0 <= w < after.tags().len() && #[trigger] after.tags()[w] == Tag::Handle implies 8 * w
            + 8 <= after.bytes().len() && Handle::decodable(after.word_at(8 * w), Tag::Handle) by {
            if w == offset / 8 {
                assert(after.word_at(8 * w) =~= h.encoding());
                lemma_encoding_round_trip(h, h);
            } else {
                assert(seg.tags()[w] == Tag::Handle);
                assert(after.word_at(8 * w) =~= seg.word_at(8 * w));
            }
        }
    }
}

/// A segment: freed, or allocated with its bytes and their tags.
pub enum Segment {
    Freed,
    Allocated { data: Vec<u8>, tags: Tags },
}

impl View for Segment {
    type V = SegmentView;

    open spec fn view(&self) -> SegmentView {
        match self {
            Segment::Freed => SegmentView::Freed,
            Segment::Allocated { data, tags } => SegmentView::Live {
                bytes: data@,
                tags: tags@,
                tagged: tags.strategy() != TagStrategy::Disabled,
            },
        }
    }
}

/// Demotes to data, where tags are kept, every word that the `len` bytes at
/// `offset` touch.
fn demote(tags: &mut Tags, offset: usize, len: usize)
    requires
        old(tags).wf(),
        offset + len <= 8 * old(tags)@.len(),
        offset + len <= usize::MAX,
    ensures
        final(tags).wf(),
        final(tags).strategy() == old(tags).strategy(),
        final(tags)@ == if old(tags).strategy() != TagStrategy::Disabled {
            Seq::new(
                old(tags)@.len(),
                |w: int| if touches(offset as int, len as int, w) { Tag::Data } else { old(tags)@[w] },
            )
        } else {
            old(tags)@
        },
{
    let ghost start = tags@;
    if len == 0 {
        assert(tags@ =~= Seq::new(start.len(), |w: int| if touches(offset as int, len as int, w) { Tag::Data } else { start[w] }));
        return;
    }
    let last = (offset + len - 1) / 8;
    let mut w: usize = offset / 8;
    while w <= last
        invariant
            tags.wf(),
            tags.strategy() == old(tags).strategy(),
            tags@.len() == start.len(),
            offset / 8 <= w <= last + 1,
            last == (offset + len - 1) / 8,
            last < start.len(),
            len > 0,
            forall|v: int|
                0 <= v < start.len() ==> #[trigger] tags@[v] == if old(tags).strategy() != TagStrategy::Disabled
                    && touches(offset as int, len as int, v) && v < w {
                    Tag::Data
                } else {
                    start[v]
                },
        decreases last + 1 - w,
    {
        let r = tags.update(w, Tag::Data);
        w = w + 1;
    }
    proof {
        if old(tags).strategy() != TagStrategy::Disabled {
            assert(tags@ =~= Seq::new(start.len(), |v: int| if touches(offset as int, len as int, v) { Tag::Data } else { start[v] }));
        } else {
            assert(tags@ =~= start);
        }
    }
}

impl Segment {
    /// The bytes and the tags agree in size, and the tags are well formed.
    pub open spec fn wf(&self) -> bool {
        match self {
            Segment::Freed => true,
            Segment::Allocated { data, tags } => tags.wf() && self@.wf(),
        }
    }

    /// Gives the segment up: its bytes and tags are dropped.
    pub fn free(&mut self)
        ensures
            final(self).wf(),
            final(self)@ == SegmentView::Freed,
    {
        *self = Segment::Freed;
    }

    /// A live segment of `size` zero bytes whose words are all plain data
    /// (all handles where tags are disabled).
    pub fn allocate(strategy: TagStrategy, size: u32) -> (r: Segment)
        ensures
            r.wf(),
            r@ == (SegmentView::Live {
                bytes: Seq::new(size as nat, |i: int| 0u8),
                tags: Seq::new(
                    word_count(size as int) as nat,
                    |w: int| if strategy == TagStrategy::Disabled { Tag::Handle } else { Tag::Data },
                ),
                tagged: strategy != TagStrategy::Disabled,
            }),
    {
        let size = size as usize;
        let mut data: Vec<u8> = Vec::with_capacity(size);
        let mut i: usize = 0;
        while i < size
            invariant
                i <= size,
                data@.len() == i,
                forall|j: int| 0 <= j < i ==> data@[j] == 0u8,
            decreases size - i,
        {
            data.push(0u8);
            i = i + 1;
        }
        let tags = Tags::new(strategy, size / 8 + if size % 8 == 0 { 0 } else { 1 });
        let r = Segment::Allocated { data, tags };
        assert(r@.bytes() =~= Seq::new(size as nat, |i: int| 0u8));
        assert(r@.tags() =~= Seq::new(
            word_count(size as int) as nat,
            |w: int| if strategy == TagStrategy::Disabled { Tag::Handle } else { Tag::Data },
        ));
        r
    }

    /// The bytes of a live segment.
    pub fn get_data(&self) -> (r: Option<&[u8]>)
        ensures
            r is Some <==> self@.is_live(),
            r is Some ==> r.unwrap()@ == self@.bytes(),
    {
        match self {
            Segment::Freed => None,
            Segment::Allocated { data, .. } => Some(data.as_slice()),
        }
    }

    /// The size of a live segment in bytes.
    pub fn len(&self) -> (r: Option<usize>)
        ensures
            r is Some <==> self@.is_live(),
            r is Some ==> r.unwrap() == self@.bytes().len(),
    {
        match self {
            Segment::Freed => None,
            Segment::Allocated { data, .. } => Some(data.len()),
        }
    }

    /// Writes the `width` low bytes of `value` at `update_offset`, least
    /// significant first, as plain data: every word the write touches is
    /// demoted. `None`, with nothing changed, where the segment is freed or
    /// the bytes do not fit.
    pub fn get_mut_data(&mut self, update_offset: usize, width: usize, value: u64) -> (r: Option<()>)
        requires
            old(self).wf(),
            width <= 8,
        ensures
            final(self).wf(),
            r is Some <==> old(self)@.in_bounds(update_offset as int, width as int),
            r is Some ==> final(self)@ == old(self)@.plain_written(
                update_offset as int,
                le_bytes(value as nat, width as nat),
            ),
            r is None ==> final(self)@ == old(self)@,
    {
        proof {
            if old(self)@.in_bounds(update_offset as int, width as int) {
                lemma_plain_written_wf(old(self)@, update_offset as int, le_bytes(value as nat, width as nat));
            }
        }
        match self {
            Segment::Freed => None,
            Segment::Allocated { data, tags } => {
                if update_offset > data.len() || width > data.len() - update_offset {
                    return None;
                }
                let ghost before = data@;
                let _ = write_le(data, update_offset, width, value);
                demote(tags, update_offset, width);
                assert(data@ =~= before.subrange(0, update_offset as int) + le_bytes(value as nat, width as nat)
                    + before.subrange(update_offset + le_bytes(value as nat, width as nat).len(), before.len() as int));
                Some(())
            },
        }
    }

    /// Writes `bytes` at `start` as plain data: every word the write touches
    /// is demoted. `None`, with nothing changed, where the segment is freed
    /// or the bytes do not fit.
    pub fn get_mut_data_slice(&mut self, start: usize, bytes: &[u8]) -> (r: Option<()>)
        requires
            old(self).wf(),
        ensures
            final(self).wf(),
            r is Some <==> old(self)@.in_bounds(start as int, bytes@.len() as int),
            r is Some ==> final(self)@ == old(self)@.plain_written(start as int, bytes@),
            r is None ==> final(self)@ == old(self)@,
    {
        proof {
            if old(self)@.in_bounds(start as int, bytes@.len() as int) {
                lemma_plain_written_wf(old(self)@, start as int, bytes@);
            }
        }
        match self {
            Segment::Freed => None,
            Segment::Allocated { data, tags } => {
                if start > data.len() || bytes.len() > data.len() - start {
                    return None;
                }
                let ghost before = data@;
                let mut i: usize = 0;
                while i < bytes.len()
                    invariant
                        i <= bytes@.len(),
                        start + bytes@.len() <= before.len(),
                        data.len() == before.len(),
                        forall|j: int| 0 <= j < start || start + i <= j < before.len() ==> data@[j] == before[j],
                        forall|j: int| 0 <= j < i ==> #[trigger] data@[start + j] == bytes@[j],
                    decreases bytes@.len() - i,
                {
                    data.set(start + i, bytes[i]);
                    i = i + 1;
                }
                demote(tags, start, bytes.len());
                let ghost expected = before.subrange(0, start as int) + bytes@ + before.subrange(
                    start + bytes@.len(),
                    before.len() as int,
                );
                assert forall|j: int| 0 <= j < before.len() implies data@[j] == #[trigger] expected[j] by {
                    if start <= j < start + bytes@.len() {
                        assert(data@[start + (j - start)] == bytes@[j - start]);
                    }
                }
                assert(data@ =~= expected);
                Some(())
            },
        }
    }

    /// Takes over `bytes`, of the segment's own length, as its new
    /// contents, as an outside writer left them: each byte that differs is
    /// written as plain data, so that every word with a changed byte is
    /// demoted. `None`, with nothing changed, where the segment is freed or
    /// the length differs.
    pub fn absorb(&mut self, bytes: &[u8]) -> (r: Option<()>)
        requires
            old(self).wf(),
        ensures
            final(self).wf(),
            r is Some <==> old(self)@.is_live() && bytes@.len() == old(self)@.bytes().len(),
            r is Some ==> final(self)@ == old(self)@.host_written(bytes@),
            r is None ==> final(self)@ == old(self)@,
    {
        let n = match self.len() {
            Some(n) => n,
            None => return None,
        };
        if bytes.len() != n {
            return None;
        }
        let ghost start = self@;
        let mut k: usize = 0;
        while k < n
            invariant
                k <= n,
                n == bytes@.len(),
                n == start.bytes().len(),
                start.is_live(),
                start.wf(),
                self.wf(),
                self@.is_live(),
                self@.tagged() == start.tagged(),
                self@.bytes() == bytes@.subrange(0, k as int) + start.bytes().subrange(k as int, n as int),
                self@.tags().len() == start.tags().len(),
                forall|w: int|
                    0 <= w < start.tags().len() ==> #[trigger] self@.tags()[w] == if start.tagged()
                        && word_changed_below(start.bytes(), bytes@, w, k as int) {
                        Tag::Data
                    } else {
                        start.tags()[w]
                    },
            decreases n - k,
        {
            let ghost before = self@;
            let current = match self.get_data() {
                Some(d) => d[k],
                None => return None,
            };
            if current != bytes[k] {
                let _ = self.get_mut_data(k, 1, bytes[k] as u64);
                proof {
                    assert(byte_weight(0) == 1);
                    assert(bytes@[k as int] as nat / byte_weight(0) % 256 == bytes@[k as int]);
                    assert(le_bytes(bytes@[k as int] as nat, 1) =~= seq![bytes@[k as int]]);
                    assert forall|w: int| 0 <= w < start.tags().len() implies #[trigger] self@.tags()[w]
                        == if start.tagged() && word_changed_below(start.bytes(), bytes@, w, k + 1) {
                        Tag::Data
                    } else {
                        start.tags()[w]
                    } by {
                        if touches(k as int, 1, w) {
                            assert(start.bytes()[k as int] != bytes@[k as int]);
                        } else if word_changed_below(start.bytes(), bytes@, w, k + 1) {
                            let i = choose|i: int|
                                0 <= i < k + 1 && 8 * w <= i < 8 * w + 8 && #[trigger] start.bytes()[i]
                                    != bytes@[i];
                            assert(word_changed_below(start.bytes(), bytes@, w, k as int));
                        }
                    }
                }
            } else {
                proof {
                    assert forall|w: int| 0 <= w < start.tags().len() implies #[trigger] self@.tags()[w]
                        == if start.tagged() && word_changed_below(start.bytes(), bytes@, w, k + 1) {
                        Tag::Data
                    } else {
                        start.tags()[w]
                    } by {
                        if word_changed_below(start.bytes(), bytes@, w, k + 1) {
                            let i = choose|i: int|
                                0 <= i < k + 1 && 8 * w <= i < 8 * w + 8 && #[trigger] start.bytes()[i]
                                    != bytes@[i];
                            assert(word_changed_below(start.bytes(), bytes@, w, k as int));
                        }
                    }
                }
            }
            k = k + 1;
            assert(self@.bytes() =~= bytes@.subrange(0, k as int) + start.bytes().subrange(k as int, n as int));
        }
        proof {
            assert(self@.bytes() =~= bytes@);
            assert forall|w: int| 0 <= w < start.tags().len() implies word_changed_below(start.bytes(), bytes@, w, n as int)
                == word_changed(start.bytes(), bytes@, w) by {
                if word_changed(start.bytes(), bytes@, w) {
                    let i = choose|i: int|
                        0 <= i < start.bytes().len() && 8 * w <= i < 8 * w + 8 && #[trigger] start.bytes()[i] != bytes@[i];
                    assert(word_changed_below(start.bytes(), bytes@, w, n as int));
                }
            }
            assert(self@.tags() =~= start.host_written(bytes@).tags());
        }
        Some(())
    }

    /// Reads the handle in the slot at `offset`; `None` where the segment
    /// is freed, the slot is misaligned or out of bounds, or the word does
    /// not decode.
    pub fn get_handle(&self, offset: usize) -> (r: Option<Handle>)
        requires
            self.wf(),
        ensures
            r is Some <==> self@.handle_readable(offset as int),
            r is Some ==> Handle::decodes_to(self@.word_at(offset as int), self@.tag_at(offset as int), r.unwrap()),
    {
        match self {
            Segment::Freed => None,
            Segment::Allocated { data, tags } => {
                if offset % 8 != 0 || offset > data.len() || 8 > data.len() - offset {
                    return None;
                }
                let tag = match tags.get(offset / 8) {
                    Some(t) => t,
                    None => return None,
                };
                let bytes = [
                    data[offset],
                    data[offset + 1],
                    data[offset + 2],
                    data[offset + 3],
                    data[offset + 4],
                    data[offset + 5],
                    data[offset + 6],
                    data[offset + 7],
                ];
                assert(bytes@ =~= self@.word_at(offset as int));
                if !Handle::is_decodable(&bytes, tag) {
                    return None;
                }
                Some(Handle::from_bytes(bytes, tag))
            },
        }
    }

    /// Stores `handle` in the slot at `offset`: its encoding and its tag in
    /// one step. `None`, with nothing changed, where the segment is freed,
    /// the slot is misaligned or out of bounds, or the handle has no
    /// encoding or names the sentinel segment.
    pub fn store_handle(&mut self, offset: usize, handle: Handle) -> (r: Option<()>)
        requires
            old(self).wf(),
        ensures
            final(self).wf(),
            r is Some <==> old(self)@.is_handle_slot(offset as int) && handle.is_encodable()
                && handle.is_well_formed(),
            r is Some ==> final(self)@ == old(self)@.handle_stored(offset as int, handle),
            r is None ==> final(self)@ == old(self)@,
    {
        proof {
            if old(self)@.is_handle_slot(offset as int) && handle.is_encodable() && handle.is_well_formed() {
                lemma_handle_stored_wf(old(self)@, offset as int, handle);
            }
        }
        match self {
            Segment::Freed => None,
            Segment::Allocated { data, tags } => {
                if offset % 8 != 0 || offset > data.len() || 8 > data.len() - offset {
                    return None;
                }
                if !handle.has_encoding() || !handle.names_a_segment_id() {
                    return None;
                }
                let (bytes, tag) = handle.to_bytes();
                let ghost before = data@;
                let mut i: usize = 0;
                while i < 8
                    invariant
                        i <= 8,
                        offset + 8 <= before.len(),
                        data.len() == before.len(),
                        forall|j: int| 0 <= j < offset || offset + i <= j < before.len() ==> data@[j] == before[j],
                        forall|j: int| 0 <= j < i ==> #[trigger] data@[offset + j] == bytes@[j],
                    decreases 8 - i,
                {
                    data.set(offset + i, bytes[i]);
                    i = i + 1;
                }
                let _ = tags.update(offset / 8, tag);
                let ghost expected = before.subrange(0, offset as int) + handle.encoding() + before.subrange(
                    offset + 8,
                    before.len() as int,
                );
                assert forall|j: int| 0 <= j < before.len() implies data@[j] == #[trigger] expected[j] by {
                    if offset <= j < offset + 8 {
                        assert(data@[offset + (j - offset)] == bytes@[j - offset]);
                    }
                }
                assert(data@ =~= expected);
                Some(())
            },
        }
    }
}

} // verus!
