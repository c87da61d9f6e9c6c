//! The runtime context: the segment store and the memory access protocol
//! that reads and writes through handles.

use vstd::prelude::*;
use crate::codec::{le_bytes, le_value, read_le};
use crate::handle::{Handle, NULL_SENTINEL, lemma_encoding_round_trip};
use crate::segment::{Segment, SegmentView, lemma_plain_write_demotes, touches, word_count};
use crate::tags::{Tag, TagStrategy};
use crate::value::TaggedVal;

verus! {

/// The segment that `h` names in `segs`; `Freed` for a handle that names
/// none.
pub open spec fn resolve(segs: Seq<SegmentView>, h: Handle) -> SegmentView {
    match h {
        Handle::Valid { base_segment_id, .. } => if base_segment_id < segs.len() {
            segs[base_segment_id as int]
        } else {
            SegmentView::Freed
        },
        _ => SegmentView::Freed,
    }
}

/// The byte offset that a valid handle names.
pub open spec fn offset_of(h: Handle) -> int {
    match h {
        Handle::Valid { offset, .. } => offset as int,
        _ => 0,
    }
}

/// The identifier of the segment that a valid handle names.
pub open spec fn id_of(h: Handle) -> int {
    match h {
        Handle::Valid { base_segment_id, .. } => base_segment_id as int,
        _ => 0,
    }
}

/// A new live segment of `size` zero bytes.
pub open spec fn fresh_segment(size: nat, tagged: bool) -> SegmentView {
    SegmentView::Live {
        bytes: Seq::new(size, |i: int| 0u8),
        tags: Seq::new(word_count(size as int) as nat, |w: int| if tagged { Tag::Data } else { Tag::Handle }),
        tagged,
    }
}

/// Whether a plain access of `len` bytes through `h` is in bounds of a
/// live segment.
pub open spec fn accessible(segs: Seq<SegmentView>, h: Handle, len: int) -> bool {
    resolve(segs, h).in_bounds(offset_of(h), len)
}

/// The `width`-byte little-endian number that a plain read through `h`
/// sees.
pub open spec fn value_at(segs: Seq<SegmentView>, h: Handle, width: int) -> nat {
    le_value(resolve(segs, h).bytes().subrange(offset_of(h), offset_of(h) + width))
}

/// The segments after `data` is written as plain bytes through `h`.
pub open spec fn after_plain_write(segs: Seq<SegmentView>, h: Handle, data: Seq<u8>) -> Seq<SegmentView> {
    segs.update(id_of(h), resolve(segs, h).plain_written(offset_of(h), data))
}

/// Whether the handle slot that `h` names holds a decodable word.
pub open spec fn handle_readable(segs: Seq<SegmentView>, h: Handle) -> bool {
    resolve(segs, h).handle_readable(offset_of(h))
}

/// Whether a handle read through `h` gives `g`.
pub open spec fn reads_handle(segs: Seq<SegmentView>, h: Handle, g: Handle) -> bool {
    let seg = resolve(segs, h);
    Handle::decodes_to(seg.word_at(offset_of(h)), seg.tag_at(offset_of(h)), g)
}

/// Whether `g` can be stored through `h`: an aligned slot inside a live
/// segment, and a handle with an encoding that names no sentinel segment.
pub open spec fn handle_storable(segs: Seq<SegmentView>, h: Handle, g: Handle) -> bool {
    resolve(segs, h).is_handle_slot(offset_of(h)) && g.is_encodable() && g.is_well_formed()
}

/// The segments after `g` is stored through `h`.
pub open spec fn after_handle_store(segs: Seq<SegmentView>, h: Handle, g: Handle) -> Seq<SegmentView> {
    segs.update(id_of(h), resolve(segs, h).handle_stored(offset_of(h), g))
}

/// Whether `h` may be freed: a valid handle at offset zero of a segment
/// of the store.
pub open spec fn freeable(segs: Seq<SegmentView>, h: Handle) -> bool {
    match h {
        Handle::Valid { base_segment_id, offset } => offset == 0 && base_segment_id < segs.len(),
        _ => false,
    }
}

/// Capability integrity: once a plain write has touched the word of a
/// handle slot, a handle read of that slot gives nothing but a corrupted
/// pattern, whatever bytes were written.
pub proof fn lemma_plain_write_never_forges(
    segs: Seq<SegmentView>,
    h: Handle,
    data: Seq<u8>,
    g: Handle,
    x: Handle,
)
    requires
        resolve(segs, h).wf(),
        resolve(segs, h).tagged(),
        accessible(segs, h, data.len() as int),
        g is Valid,
        id_of(g) == id_of(h),
        resolve(segs, g).is_handle_slot(offset_of(g)),
        touches(offset_of(h), data.len() as int, offset_of(g) / 8),
    ensures
        handle_readable(after_plain_write(segs, h, data), g),
        reads_handle(after_plain_write(segs, h, data), g, x) ==> x is Corrupted,
{
    lemma_plain_write_demotes(resolve(segs, h), offset_of(h), data, offset_of(g), x);
    assert(resolve(after_plain_write(segs, h, data), g) == resolve(segs, h).plain_written(offset_of(h), data));
}

/// A handle stored through `h` reads back through `h` as itself.
pub proof fn lemma_stored_handle_reads_back(segs: Seq<SegmentView>, h: Handle, g: Handle, x: Handle)
    requires
        resolve(segs, h).wf(),
        resolve(segs, h).tagged(),
        handle_storable(segs, h, g),
    ensures
        handle_readable(after_handle_store(segs, h, g), h),
        reads_handle(after_handle_store(segs, h, g), h, x) ==> x == g,
{
    let seg = resolve(segs, h);
    let after = seg.handle_stored(offset_of(h), g);
    assert(resolve(after_handle_store(segs, h, g), h) == after);
    assert(after.word_at(offset_of(h)) =~= g.encoding());
    assert(after.tag_at(offset_of(h)) == g.encoding_tag());
    lemma_encoding_round_trip(g, x);
}

/// Where tags are kept, every handle slot of a live segment can be read: a
/// word tagged as a handle always holds an encoding that decodes.
pub proof fn lemma_handle_slots_readable(segs: Seq<SegmentView>, h: Handle)
    requires
        resolve(segs, h).wf(),
        resolve(segs, h).tagged(),
        resolve(segs, h).is_handle_slot(offset_of(h)),
    ensures
        handle_readable(segs, h),
{
    let seg = resolve(segs, h);
    let w = offset_of(h) / 8;
    assert(8 * w == offset_of(h));
    assert(0 <= w < seg.tags().len());
    if seg.tags()[w] == Tag::Handle {
        assert(Handle::decodable(seg.word_at(8 * w), Tag::Handle));
    }
}

/// Temporal safety: once a segment is freed through its base, no handle
/// with its identifier reaches it again, also after any segments allocated
/// later: plain reads and writes, handle reads and handle stores through
/// it all fail.
pub proof fn lemma_freed_segment_unreachable(
    segs: Seq<SegmentView>,
    base: Handle,
    later: Seq<SegmentView>,
    g: Handle,
    x: Handle,
    len: int,
)
    requires
        freeable(segs, base),
        id_of(g) == id_of(base),
    ensures
        !accessible(segs.update(id_of(base), SegmentView::Freed) + later, g, len),
        !handle_readable(segs.update(id_of(base), SegmentView::Freed) + later, g),
        !handle_storable(segs.update(id_of(base), SegmentView::Freed) + later, g, x),
{
    let after = segs.update(id_of(base), SegmentView::Freed) + later;
    if g is Valid {
        assert(after[id_of(g)] == SegmentView::Freed);
    }
}

/// The runtime state of one program: its segments, under one tag strategy.
pub struct WasmModule {
    segments: Vec<Segment>,
    strategy: TagStrategy,
    globals: Vec<TaggedVal>,
}

impl WasmModule {
    /// The segments as values; index `0` is never a live segment.
    pub closed spec fn segments(&self) -> Seq<SegmentView> {
        Seq::new(self.segments@.len(), |i: int| self.segments@[i]@)
    }

    pub closed spec fn strategy(&self) -> TagStrategy {
        self.strategy
    }

    /// The program's global variables.
    pub closed spec fn globals(&self) -> Seq<TaggedVal> {
        self.globals@
    }

    /// Whether the tags of this runtime are kept.
    pub open spec fn tagged(&self) -> bool {
        self.strategy() != TagStrategy::Disabled
    }

    /// Every segment is well formed under the runtime's strategy, segment
    /// `0` is reserved, and identifiers stay below the null sentinel.
    pub closed spec fn wf(&self) -> bool {
        &&& self.segments@.len() >= 1
        &&& self.segments@.len() <= NULL_SENTINEL
        &&& self.segments@[0]@ == SegmentView::Freed
        &&& forall|i: int| 0 <= i < self.segments@.len() ==> self.holds(#[trigger] self.segments@[i])
    }

    /// A segment is well formed and keeps tags as the runtime does.
    closed spec fn holds(&self, seg: Segment) -> bool {
        &&& seg.wf()
        &&& seg@.is_live() ==> seg@.tagged() == (self.strategy != TagStrategy::Disabled)
    }

    /// What well-formedness says of the segments as values.
    pub proof fn lemma_segment_views(&self)
        requires
            self.wf(),
        ensures
            self.segments().len() >= 1,
            self.segments()[0] == SegmentView::Freed,
            forall|i: int|
                0 <= i < self.segments().len() ==> (#[trigger] self.segments()[i]).wf() && (
                self.segments()[i].is_live() ==> self.segments()[i].tagged() == self.tagged()),
    {
        assert forall|i: int| 0 <= i < self.segments().len() implies (#[trigger] self.segments()[i]).wf() && (
        self.segments()[i].is_live() ==> self.segments()[i].tagged() == self.tagged()) by {
            assert(self.holds(self.segments@[i]));
        }
    }

    /// A runtime with no segments, keeping tags by `strategy`, with
    /// `global_count` globals, all undefined.
    pub fn new(strategy: TagStrategy, global_count: usize) -> (r: WasmModule)
        ensures
            r.wf(),
            r.strategy() == strategy,
            r.segments() == seq![SegmentView::Freed],
            r.globals() == Seq::new(global_count as nat, |i: int| TaggedVal::Undefined),
    {
        let mut segments: Vec<Segment> = Vec::new();
        segments.push(Segment::Freed);
        let mut globals: Vec<TaggedVal> = Vec::with_capacity(global_count);
        let mut i: usize = 0;
        while i < global_count
            invariant
                i <= global_count,
                globals@ == Seq::new(i as nat, |k: int| TaggedVal::Undefined),
            decreases global_count - i,
        {
            globals.push(TaggedVal::Undefined);
            i = i + 1;
            assert(globals@ =~= Seq::new(i as nat, |k: int| TaggedVal::Undefined));
        }
        let r = WasmModule { segments, strategy, globals };
        assert(r.segments() =~= seq![SegmentView::Freed]);
        r
    }

    /// Global `i`; `None` where there is no such global.
    pub fn global(&self, i: usize) -> (r: Option<TaggedVal>)
        ensures
            r == if i < self.globals().len() {
                Some(self.globals()[i as int])
            } else {
                None
            },
    {
        if i < self.globals.len() {
            Some(self.globals[i])
        } else {
            None
        }
    }

    /// Sets global `i` to `v`; `None`, with nothing changed, where there is
    /// no such global. Segments are untouched.
    pub fn set_global(&mut self, i: usize, v: TaggedVal) -> (r: Option<()>)
        requires
            old(self).wf(),
        ensures
            final(self).wf(),
            final(self).strategy() == old(self).strategy(),
            final(self).segments() == old(self).segments(),
            r is Some <==> i < old(self).globals().len(),
            final(self).globals() == if r is Some {
                old(self).globals().update(i as int, v)
            } else {
                old(self).globals()
            },
    {
        if i >= self.globals.len() {
            return None;
        }
        self.globals.set(i, v);
        Some(())
    }

    /// The tag strategy of this runtime.
    pub fn tag_strategy(&self) -> (r: TagStrategy)
        ensures
            r == self.strategy(),
    {
        self.strategy
    }

    /// Allocates a segment of `size` zero bytes and returns the handle to
    /// its base; `None`, with nothing changed, once the identifier space is
    /// used up.
    pub fn new_segment(&mut self, size: u32) -> (r: Option<Handle>)
        requires
            old(self).wf(),
            size > 0,
        ensures
            final(self).wf(),
            final(self).strategy() == old(self).strategy(),
            final(self).globals() == old(self).globals(),
            r is Some <==> old(self).segments().len() < NULL_SENTINEL,
            r is Some ==> r == Some(
                Handle::Valid { base_segment_id: old(self).segments().len() as u32, offset: 0 },
            ),
            r is Some ==> final(self).segments() == old(self).segments().push(
                fresh_segment(size as nat, old(self).tagged()),
            ),
            r is None ==> final(self).segments() == old(self).segments(),
    {
        let id = self.segments.len();
        if id >= NULL_SENTINEL as usize {
            return None;
        }
        let seg = Segment::allocate(self.strategy, size);
        let ghost before = self.segments();
        self.segments.push(seg);
        assert(self.holds(self.segments@[id as int]));
        assert(self.segments() =~= before.push(fresh_segment(size as nat, self.tagged())));
        Some(Handle::Valid { base_segment_id: id as u32, offset: 0 })
    }

    /// Frees the segment whose base `h` is; `None`, with nothing changed,
    /// for any other handle.
    pub fn free_segment(&mut self, h: Handle) -> (r: Option<()>)
        requires
            old(self).wf(),
        ensures
            final(self).wf(),
            final(self).strategy() == old(self).strategy(),
            final(self).globals() == old(self).globals(),
            r is Some <==> freeable(old(self).segments(), h),
            r is Some ==> final(self).segments() == old(self).segments().update(id_of(h), SegmentView::Freed),
            r is None ==> final(self).segments() == old(self).segments(),
    {
        match h {
            Handle::Valid { base_segment_id, offset } => {
                if offset != 0 || base_segment_id as usize >= self.segments.len() {
                    return None;
                }
                let ghost before = self.segments();
                self.segments[base_segment_id as usize].free();
                assert(self.holds(self.segments@[base_segment_id as int]));
                assert(self.segments() =~= before.update(id_of(h), SegmentView::Freed));
                Some(())
            },
            _ => None,
        }
    }

    /// Reads the `width`-byte little-endian number at `h`; `None` unless
    /// `h` is valid, its segment live and the bytes inside it. Tags are
    /// neither read nor changed.
    pub fn read_mem(&self, h: Handle, width: usize) -> (r: Option<u64>)
        requires
            self.wf(),
            width <= 8,
        ensures
            r is Some <==> accessible(self.segments(), h, width as int),
            r is Some ==> r.unwrap() as nat == value_at(self.segments(), h, width as int),
    {
        match h {
            Handle::Valid { base_segment_id, offset } => {
                if base_segment_id as usize >= self.segments.len() {
                    return None;
                }
                match self.segments[base_segment_id as usize].get_data() {
                    Some(data) => read_le(data, offset as usize, width),
                    None => None,
                }
            },
            _ => None,
        }
    }

    /// Writes the `width` low bytes of `value` at `h` as plain data,
    /// demoting every word the write touches; `None`, with nothing changed,
    /// unless `h` is valid, its segment live and the bytes inside it.
    pub fn write_mem(&mut self, h: Handle, width: usize, value: u64) -> (r: Option<()>)
        requires
            old(self).wf(),
            width <= 8,
        ensures
            final(self).wf(),
            final(self).strategy() == old(self).strategy(),
            final(self).globals() == old(self).globals(),
            r is Some <==> accessible(old(self).segments(), h, width as int),
            r is Some ==> final(self).segments() == after_plain_write(
                old(self).segments(),
                h,
                le_bytes(value as nat, width as nat),
            ),
            r is None ==> final(self).segments() == old(self).segments(),
    {
        match h {
            Handle::Valid { base_segment_id, offset } => {
                if base_segment_id as usize >= self.segments.len() {
                    return None;
                }
                let ghost before = self.segments();
                let r = self.segments[base_segment_id as usize].get_mut_data(offset as usize, width, value);
                assert(self.holds(self.segments@[base_segment_id as int]));
                if r.is_some() {
                    assert(self.segments() =~= after_plain_write(before, h, le_bytes(value as nat, width as nat)));
                } else {
                    assert(self.segments() =~= before);
                }
                r
            },
            _ => None,
        }
    }

    /// Copies the `len` bytes at `h`, without regard to their tags; `None`
    /// unless `h` is valid, its segment live and the bytes inside it.
    pub fn read_bytes(&self, h: Handle, len: usize) -> (r: Option<Vec<u8>>)
        requires
            self.wf(),
        ensures
            r is Some <==> accessible(self.segments(), h, len as int),
            r is Some ==> r.unwrap()@ == resolve(self.segments(), h).bytes().subrange(
                offset_of(h),
                offset_of(h) + len,
            ),
    {
        match h {
            Handle::Valid { base_segment_id, offset } => {
                if base_segment_id as usize >= self.segments.len() {
                    return None;
                }
                let data = match self.segments[base_segment_id as usize].get_data() {
                    Some(d) => d,
                    None => return None,
                };
                let start = offset as usize;
                if start > data.len() || len > data.len() - start {
                    return None;
                }
                let mut out: Vec<u8> = Vec::with_capacity(len);
                let mut i: usize = 0;
                while i < len
                    invariant
                        i <= len,
                        start + len <= data.len(),
                        out@ == data@.subrange(start as int, start + i),
                    decreases len - i,
                {
                    out.push(data[start + i]);
                    i = i + 1;
                    assert(out@ =~= data@.subrange(start as int, start + i));
                }
                Some(out)
            },
            _ => None,
        }
    }

    /// Writes `bytes` at `h` as plain data, demoting every word the write
    /// touches; `None`, with nothing changed, unless `h` is valid, its
    /// segment live and the bytes inside it.
    pub fn write_bytes(&mut self, h: Handle, bytes: &[u8]) -> (r: Option<()>)
        requires
            old(self).wf(),
        ensures
            final(self).wf(),
            final(self).strategy() == old(self).strategy(),
            final(self).globals() == old(self).globals(),
            r is Some <==> accessible(old(self).segments(), h, bytes@.len() as int),
            r is Some ==> final(self).segments() == after_plain_write(old(self).segments(), h, bytes@),
            r is None ==> final(self).segments() == old(self).segments(),
    {
        match h {
            Handle::Valid { base_segment_id, offset } => {
                if base_segment_id as usize >= self.segments.len() {
                    return None;
                }
                let ghost before = self.segments();
                let r = self.segments[base_segment_id as usize].get_mut_data_slice(offset as usize, bytes);
                assert(self.holds(self.segments@[base_segment_id as int]));
                if r.is_some() {
                    assert(self.segments() =~= after_plain_write(before, h, bytes@));
                } else {
                    assert(self.segments() =~= before);
                }
                r
            },
            _ => None,
        }
    }

    /// Reads the handle stored at `h`; `None` unless `h` is valid, its
    /// segment live, the slot aligned and inside it, and the word decodes.
    /// A word last written as plain data reads as a corrupted pattern.
    pub fn get_handle(&self, h: Handle) -> (r: Option<Handle>)
        requires
            self.wf(),
        ensures
            r is Some <==> handle_readable(self.segments(), h),
            r is Some ==> reads_handle(self.segments(), h, r.unwrap()),
    {
        match h {
            Handle::Valid { base_segment_id, offset } => {
                if base_segment_id as usize >= self.segments.len() {
                    return None;
                }
                self.segments[base_segment_id as usize].get_handle(offset as usize)
            },
            _ => None,
        }
    }

    /// Stores `g` at `h`, its encoding and its tag in one step; `None`, with
    /// nothing changed, unless `h` is valid, its segment live, the slot
    /// aligned and inside it, and `g` has an encoding and names no sentinel
    /// segment.
    pub fn store_handle(&mut self, h: Handle, g: Handle) -> (r: Option<()>)
        requires
            old(self).wf(),
        ensures
            final(self).wf(),
            final(self).strategy() == old(self).strategy(),
            final(self).globals() == old(self).globals(),
            r is Some <==> handle_storable(old(self).segments(), h, g),
            r is Some ==> final(self).segments() == after_handle_store(old(self).segments(), h, g),
            r is None ==> final(self).segments() == old(self).segments(),
    {
        match h {
            Handle::Valid { base_segment_id, offset } => {
                if base_segment_id as usize >= self.segments.len() {
                    return None;
                }
                let ghost before = self.segments();
                let r = self.segments[base_segment_id as usize].store_handle(offset as usize, g);
                assert(self.holds(self.segments@[base_segment_id as int]));
                if r.is_some() {
                    assert(self.segments() =~= after_handle_store(before, h, g));
                } else {
                    assert(self.segments() =~= before);
                }
                r
            },
            _ => None,
        }
    }

    /// A copy of the whole segment that `h` names, with `h`'s offset, for
    /// an outside reader or writer that works on flat memory; `None` unless
    /// the segment is live and the offset fits an `i32`.
    pub fn collect_memory(&self, h: Handle) -> (r: Option<(Vec<u8>, i32)>)
        requires
            self.wf(),
        ensures
            r is Some <==> resolve(self.segments(), h).is_live() && offset_of(h) <= i32::MAX,
            r is Some ==> r.unwrap().0@ == resolve(self.segments(), h).bytes() && r.unwrap().1 == offset_of(h),
    {
        match h {
            Handle::Valid { base_segment_id, offset } => {
                if base_segment_id as usize >= self.segments.len() || offset > i32::MAX as u32 {
                    return None;
                }
                let data = match self.segments[base_segment_id as usize].get_data() {
                    Some(d) => d,
                    None => return None,
                };
                let mut out: Vec<u8> = Vec::with_capacity(data.len());
                let mut i: usize = 0;
                while i < data.len()
                    invariant
                        i <= data@.len(),
                        out@ == data@.subrange(0, i as int),
                    decreases data@.len() - i,
                {
                    out.push(data[i]);
                    i = i + 1;
                    assert(out@ =~= data@.subrange(0, i as int));
                }
                assert(out@ =~= data@);
                Some((out, offset as i32))
            },
            _ => None,
        }
    }

    /// Takes back a copy made by `collect_memory` after an outside writer
    /// changed it: the segment that `h` names gets `bytes` as its contents,
    /// and every word with a changed byte is demoted. `None`, with nothing
    /// changed, unless the segment is live and `bytes` has its length.
    pub fn restore_memory(&mut self, h: Handle, bytes: &[u8]) -> (r: Option<()>)
        requires
            old(self).wf(),
        ensures
            final(self).wf(),
            final(self).strategy() == old(self).strategy(),
            final(self).globals() == old(self).globals(),
            r is Some <==> resolve(old(self).segments(), h).is_live() && bytes@.len() == resolve(
                old(self).segments(),
                h,
            ).bytes().len(),
            r is Some ==> final(self).segments() == old(self).segments().update(
                id_of(h),
                resolve(old(self).segments(), h).host_written(bytes@),
            ),
            r is None ==> final(self).segments() == old(self).segments(),
    {
        match h {
            Handle::Valid { base_segment_id, .. } => {
                if base_segment_id as usize >= self.segments.len() {
                    return None;
                }
                let ghost before = self.segments();
                let r = self.segments[base_segment_id as usize].absorb(bytes);
                assert(self.holds(self.segments@[base_segment_id as int]));
                if r.is_some() {
                    assert(self.segments() =~= before.update(id_of(h), resolve(before, h).host_written(bytes@)));
                } else {
                    assert(self.segments() =~= before);
                }
                r
            },
            _ => None,
        }
    }
}

} // verus!
