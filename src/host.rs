//! Moving data between segments and the flat buffers that host calls read
//! and fill.

use vstd::prelude::*;
use crate::codec::{
    le_bytes, le_value, lemma_byte_weight_four, lemma_le_value_bound, lemma_splice_holds, lemma_splice_keeps,
    read_le, write_le, write_slice,
};
use crate::handle::{Handle, lemma_decoding_unique};
use crate::runtime::{
    WasmModule, accessible, after_handle_store, after_plain_write, handle_readable, handle_storable,
    offset_of, reads_handle, resolve, value_at,
};
use crate::segment::SegmentView;

verus! {

/// Where the argument strings begin in the flat buffer that a host fills
/// for `count` arguments: after `count + 1` little-endian 32-bit pointers.
pub open spec fn args_start(count: int) -> int {
    (count + 1) * 4
}

/// How far into the argument strings argument `i` begins: its host pointer
/// less the start of the strings.
pub open spec fn arg_offset(flat: Seq<u8>, count: int, i: int) -> int {
    le_value(flat.subrange(4 * i, 4 * i + 4)) - args_start(count)
}

/// The segments after the handle to argument `i` is stored at
/// `argv + 8 i`, pointing into `argv_buf` at the argument's offset; `None`
/// where that store cannot be made.
#[verifier::opaque]
pub open spec fn arg_pointer_stored(
    segs: Seq<SegmentView>,
    argv: Handle,
    argv_buf: Handle,
    flat: Seq<u8>,
    count: int,
    i: int,
) -> Option<Seq<SegmentView>> {
    let slot = argv.displaced(8 * i);
    let target = argv_buf.displaced(arg_offset(flat, count, i));
    if 8 * i <= i32::MAX && 4 * i + 4 <= flat.len() && i32::MIN <= arg_offset(flat, count, i) <= i32::MAX
        && slot is Some && target is Some && handle_storable(segs, slot.unwrap(), target.unwrap()) {
        Some(after_handle_store(segs, slot.unwrap(), target.unwrap()))
    } else {
        None
    }
}

/// The segments after the handles to the first `k` arguments are stored,
/// one after the other; `None` where one of the stores cannot be made.
pub open spec fn arg_pointers_stored(
    segs: Seq<SegmentView>,
    argv: Handle,
    argv_buf: Handle,
    flat: Seq<u8>,
    count: int,
    k: nat,
) -> Option<Seq<SegmentView>>
    decreases k,
{
    if k == 0 {
        Some(segs)
    } else {
        match arg_pointers_stored(segs, argv, argv_buf, flat, count, (k - 1) as nat) {
            None => None,
            Some(s) => arg_pointer_stored(s, argv, argv_buf, flat, count, k - 1),
        }
    }
}

/// The segments after the `count` arguments that a host laid out in `flat`
/// are moved into guest memory: the handles to them at `argv`, and their
/// `buf_len` bytes of strings at `argv_buf`. `None` where a step fails.
pub open spec fn args_stored(
    segs: Seq<SegmentView>,
    argv: Handle,
    argv_buf: Handle,
    flat: Seq<u8>,
    count: int,
    buf_len: int,
) -> Option<Seq<SegmentView>> {
    match arg_pointers_stored(segs, argv, argv_buf, flat, count, count as nat) {
        None => None,
        Some(s) => {
            let start = args_start(count);
            if start + buf_len <= flat.len() && accessible(s, argv_buf, buf_len) {
                Some(after_plain_write(s, argv_buf, flat.subrange(start, start + buf_len)))
            } else {
                None
            }
        },
    }
}

/// Once reading the first `k` iovecs fails, reading more fails too.
proof fn lemma_iovecs_fail_on(segs: Seq<SegmentView>, iovs: Handle, k: nat, m: nat)
    requires
        k <= m,
        iovecs(segs, iovs, k) is None,
    ensures
        iovecs(segs, iovs, m) is None,
    decreases m,
{
    if k < m {
        lemma_iovecs_fail_on(segs, iovs, k, (m - 1) as nat);
    }
}

/// Appending a string leaves the totals of the earlier prefixes as they
/// were.
proof fn lemma_iov_total_prefix(v: Seq<Seq<u8>>, b: Seq<u8>, k: int)
    requires
        0 <= k <= v.len(),
    ensures
        iov_total(v.push(b), k) == iov_total(v, k),
    decreases k,
{
    if k > 0 {
        lemma_iov_total_prefix(v, b, k - 1);
    }
}

/// Once storing the first `k` argument handles fails, storing more fails
/// too.
proof fn lemma_arg_pointers_fail_on(
    segs: Seq<SegmentView>,
    argv: Handle,
    argv_buf: Handle,
    flat: Seq<u8>,
    count: int,
    k: nat,
    m: nat,
)
    requires
        k <= m,
        arg_pointers_stored(segs, argv, argv_buf, flat, count, k) is None,
    ensures
        arg_pointers_stored(segs, argv, argv_buf, flat, count, m) is None,
    decreases m,
{
    if k < m {
        lemma_arg_pointers_fail_on(segs, argv, argv_buf, flat, count, k, (m - 1) as nat);
    }
}

/// The bytes that entry `i` of the iovec array at `iovs` names: each entry
/// is 16 bytes, a handle to the bytes and then their 32-bit length. `None`
/// where the entry or the bytes cannot be read.
#[verifier::opaque]
pub open spec fn iovec_entry(segs: Seq<SegmentView>, iovs: Handle, i: int) -> Option<Seq<u8>> {
    let at = iovs.displaced(16 * i);
    let len_at = iovs.displaced(16 * i + 8);
    if 16 * i + 8 <= i32::MAX && at is Some && len_at is Some && handle_readable(segs, at.unwrap())
        && accessible(segs, len_at.unwrap(), 4) {
        let len = value_at(segs, len_at.unwrap(), 4) as int;
        let loc = choose|g: Handle| reads_handle(segs, at.unwrap(), g);
        if len == 0 {
            Some(Seq::empty())
        } else if accessible(segs, loc, len) {
            Some(resolve(segs, loc).bytes().subrange(offset_of(loc), offset_of(loc) + len))
        } else {
            None
        }
    } else {
        None
    }
}

/// The bytes that the first `n` entries of the iovec array at `iovs`
/// name; `None` where one of them cannot be read.
pub open spec fn iovecs(segs: Seq<SegmentView>, iovs: Handle, n: nat) -> Option<Seq<Seq<u8>>>
    decreases n,
{
    if n == 0 {
        Some(Seq::empty())
    } else {
        match iovecs(segs, iovs, (n - 1) as nat) {
            None => None,
            Some(v) => match iovec_entry(segs, iovs, n - 1) {
                None => None,
                Some(b) => Some(v.push(b)),
            },
        }
    }
}

/// The total length of the first `k` byte strings of `v`.
pub open spec fn iov_total(v: Seq<Seq<u8>>, k: int) -> int
    decreases k,
{
    if k <= 0 {
        0
    } else {
        iov_total(v, k - 1) + v[k - 1].len()
    }
}

/// Where the data begins in the flat buffer for `n` iovecs: after `n`
/// 8-byte entries and the 4-byte slot for the count written.
pub open spec fn iov_data_start(n: int) -> int {
    8 * n + 4
}

/// Whether `buf` is the flat buffer that hands the byte strings `v` to a
/// host write: entry `j` holds the 32-bit position and length of string
/// `j`, then come four zero bytes for the count written, the strings one
/// after the other, and four zero bytes.
pub open spec fn is_iovec_buffer(buf: Seq<u8>, v: Seq<Seq<u8>>) -> bool {
    let n = v.len() as int;
    let ds = iov_data_start(n);
    &&& buf.len() == ds + iov_total(v, n) + 4
    &&& forall|j: int|
        0 <= j < n ==> {
            &&& buf.subrange(8 * j, 8 * j + 4) == le_bytes((ds + #[trigger] iov_total(v, j)) as nat, 4)
            &&& buf.subrange(8 * j + 4, 8 * j + 8) == le_bytes(v[j].len(), 4)
            &&& buf.subrange(ds + iov_total(v, j), ds + iov_total(v, j) + v[j].len()) == v[j]
        }
    &&& buf.subrange(8 * n, ds) == Seq::new(4, |k: int| 0u8)
    &&& buf.subrange(ds + iov_total(v, n), buf.len() as int) == Seq::new(4, |k: int| 0u8)
}

proof fn lemma_iov_total_grows(v: Seq<Seq<u8>>, j: int, k: int)
    requires
        0 <= j <= k,
    ensures
        iov_total(v, j) <= iov_total(v, k),
    decreases k,
{
    if j < k {
        lemma_iov_total_grows(v, j, k - 1);
    }
}

/// The contents of each vector of `parts`.
pub open spec fn contents(parts: Seq<Vec<u8>>) -> Seq<Seq<u8>> {
    Seq::new(parts.len(), |k: int| parts[k]@)
}

impl WasmModule {
    /// Reads the bytes that entry `i` of the iovec array at `iovs` names.
    fn read_iovec(&self, iovs: Handle, i: u32) -> (r: Option<Vec<u8>>)
        requires
            self.wf(),
            i <= i32::MAX,
        ensures
            r is Some <==> iovec_entry(self.segments(), iovs, i as int) is Some,
            r is Some ==> Some(r.unwrap()@) == iovec_entry(self.segments(), iovs, i as int),
    {
        proof {
            reveal(iovec_entry);
        }
        if i as u64 * 16 + 8 > i32::MAX as u64 {
            return None;
        }
        let at = match iovs.add((i * 16) as i32) {
            Some(h) => h,
            None => return None,
        };
        let len_at = match iovs.add((i * 16 + 8) as i32) {
            Some(h) => h,
            None => return None,
        };
        let loc = match self.get_handle(at) {
            Some(g) => g,
            None => return None,
        };
        let len = match self.read_mem(len_at, 4) {
            Some(x) => x,
            None => return None,
        };
        proof {
            let chosen = choose|g: Handle| reads_handle(self.segments(), at, g);
            lemma_decoding_unique(
                resolve(self.segments(), at).word_at(offset_of(at)),
                resolve(self.segments(), at).tag_at(offset_of(at)),
                chosen,
                loc,
            );
            lemma_byte_weight_four();
            lemma_le_value_bound(
                resolve(self.segments(), len_at).bytes().subrange(offset_of(len_at), offset_of(len_at) + 4),
            );
        }
        if len == 0 {
            return Some(Vec::new());
        }
        self.read_bytes(loc, len as usize)
    }

    /// The flat buffer that hands the `iovs_len` byte strings of the iovec
    /// array at `iovs` to a host write (see `is_iovec_buffer`); `None`
    /// where an entry or its bytes cannot be read, or the buffer's length
    /// does not fit 32 bits. A negative count reads no entry.
    pub fn gather_iovecs(&self, iovs: Handle, iovs_len: i32) -> (r: Option<Vec<u8>>)
        requires
            self.wf(),
        ensures
            ({
                let n = if iovs_len < 0 { 0nat } else { iovs_len as nat };
                let v = iovecs(self.segments(), iovs, n);
                &&& r is Some <==> v is Some && iov_data_start(n as int) + iov_total(v.unwrap(), n as int) + 4
                    <= u32::MAX
                &&& r is Some ==> is_iovec_buffer(r.unwrap()@, v.unwrap())
            }),
    {
        let n: u32 = if iovs_len < 0 { 0 } else { iovs_len as u32 };
        assert(n as nat == if iovs_len < 0 { 0nat } else { iovs_len as nat });
        let ghost segs = self.segments();
        let mut parts: Vec<Vec<u8>> = Vec::new();
        let mut i: u32 = 0;
        while i < n
            invariant
                self.wf(),
                segs == self.segments(),
                n <= i32::MAX,
                n as nat == if iovs_len < 0 { 0nat } else { iovs_len as nat },
                i <= n,
                parts@.len() == i,
                iovecs(segs, iovs, i as nat) == Some(contents(parts@)),
            decreases n - i,
        {
            let part = match self.read_iovec(iovs, i) {
                Some(p) => p,
                None => {
                    proof {
                        assert(iovecs(segs, iovs, (i + 1) as nat) is None);
                        lemma_iovecs_fail_on(segs, iovs, (i + 1) as nat, n as nat);
                    }
                    return None;
                },
            };
            let ghost before = contents(parts@);
            parts.push(part);
            assert(contents(parts@) =~= before.push(part@));
            i = i + 1;
        }
        iovec_buffer(&parts)
    }

    /// Stores the handle to argument `i` at `argv + 8 i`; `None`, with
    /// nothing changed, where that cannot be done.
    fn store_arg_pointer(&mut self, argv: Handle, argv_buf: Handle, flat: &[u8], argv_count: u32, i: u32) -> (r: Option<
        (),
    >)
        requires
            old(self).wf(),
        ensures
            final(self).wf(),
            final(self).strategy() == old(self).strategy(),
            r is Some <==> arg_pointer_stored(old(self).segments(), argv, argv_buf, flat@, argv_count as int, i as int) is Some,
            r is Some ==> Some(final(self).segments()) == arg_pointer_stored(
                old(self).segments(),
                argv,
                argv_buf,
                flat@,
                argv_count as int,
                i as int,
            ),
            r is None ==> final(self).segments() == old(self).segments(),
    {
        proof {
            reveal(arg_pointer_stored);
        }
        if i as u64 * 8 > i32::MAX as u64 || i as u64 * 4 + 4 > flat.len() as u64 {
            return None;
        }
        let start: u64 = (argv_count as u64 + 1) * 4;
        let slot = argv.add((i * 8) as i32);
        let ptr = read_le(flat, i as usize * 4, 4).unwrap();
        proof {
            lemma_byte_weight_four();
            lemma_le_value_bound(flat@.subrange(4 * i, 4 * i + 4));
        }
        let delta: i64 = ptr as i64 - start as i64;
        let target = if i32::MIN as i64 <= delta && delta <= i32::MAX as i64 {
            argv_buf.add(delta as i32)
        } else {
            None
        };
        match (slot, target) {
            (Some(a), Some(b)) => self.store_handle(a, b),
            _ => None,
        }
    }

    /// Moves the `argv_count` arguments that a host laid out in `flat` into
    /// guest memory: a handle to each argument's string at `argv`,
    /// `argv + 8`, ..., and the `argv_buf_len` bytes of strings at
    /// `argv_buf`. On failure the stores made so far remain.
    pub fn store_args(
        &mut self,
        argv: Handle,
        argv_buf: Handle,
        flat: &[u8],
        argv_count: u32,
        argv_buf_len: u32,
    ) -> (r: Option<()>)
        requires
            old(self).wf(),
        ensures
            final(self).wf(),
            final(self).strategy() == old(self).strategy(),
            r is Some <==> args_stored(
                old(self).segments(),
                argv,
                argv_buf,
                flat@,
                argv_count as int,
                argv_buf_len as int,
            ) is Some,
            r is Some ==> Some(final(self).segments()) == args_stored(
                old(self).segments(),
                argv,
                argv_buf,
                flat@,
                argv_count as int,
                argv_buf_len as int,
            ),
    {
        let ghost segs = self.segments();
        let start: u64 = (argv_count as u64 + 1) * 4;
        let mut i: u32 = 0;
        while i < argv_count
            invariant
                self.wf(),
                self.strategy() == old(self).strategy(),
                segs == old(self).segments(),
                i <= argv_count,
                arg_pointers_stored(segs, argv, argv_buf, flat@, argv_count as int, i as nat) == Some(
                    self.segments(),
                ),
            decreases argv_count - i,
        {
            let ghost s = self.segments();
            match self.store_arg_pointer(argv, argv_buf, flat, argv_count, i) {
                Some(()) => {},
                None => {
                    proof {
                        assert(arg_pointer_stored(s, argv, argv_buf, flat@, argv_count as int, i as int) is None);
                        assert(arg_pointers_stored(segs, argv, argv_buf, flat@, argv_count as int, (i + 1) as nat) is None);
                        lemma_arg_pointers_fail_on(segs, argv, argv_buf, flat@, argv_count as int, (i + 1) as nat, argv_count as nat);
                        assert(arg_pointers_stored(segs, argv, argv_buf, flat@, argv_count as int, argv_count as nat) is None);
                        assert(args_stored(segs, argv, argv_buf, flat@, argv_count as int, argv_buf_len as int) is None);
                    }
                    return None;
                },
            }
            i = i + 1;
        }
        if start + argv_buf_len as u64 > flat.len() as u64 {
            return None;
        }
        let begin = start as usize;
        let end = begin + argv_buf_len as usize;
        let mut strings: Vec<u8> = Vec::with_capacity(argv_buf_len as usize);
        let mut j: usize = begin;
        while j < end
            invariant
                begin <= j <= end <= flat@.len(),
                strings@ == flat@.subrange(begin as int, j as int),
            decreases end - j,
        {
            strings.push(flat[j]);
            j = j + 1;
            assert(strings@ =~= flat@.subrange(begin as int, j as int));
        }
        self.write_bytes(argv_buf, strings.as_slice())
    }
}

/// The flat buffer that hands the byte strings `parts` to a host write
/// (see `is_iovec_buffer`); `None` where its length does not fit 32 bits.
pub fn iovec_buffer(parts: &Vec<Vec<u8>>) -> (r: Option<Vec<u8>>)
    ensures
        r is Some <==> iov_data_start(parts@.len() as int) + iov_total(contents(parts@), parts@.len() as int) + 4
            <= u32::MAX,
        r is Some ==> is_iovec_buffer(r.unwrap()@, contents(parts@)),
{
    let ghost v = contents(parts@);
    let n = parts.len();
    if n > 0x1fff_fffe {
        proof {
            lemma_iov_total_grows(v, 0, n as int);
        }
        return None;
    }
    let mut total: u64 = 0;
    let mut t: usize = 0;
    while t < n
        invariant
            n == parts@.len(),
            n <= 0x1fff_fffe,
            v == contents(parts@),
            t <= n,
            total == iov_total(v, t as int),
            8 * n + 4 + total + 4 <= u32::MAX,
        decreases n - t,
    {
        let len = parts[t].len() as u64;
        if len > 0xffff_ffff - (8 * n as u64 + 4 + total + 4) {
            proof {
                lemma_iov_total_grows(v, t + 1, n as int);
            }
            return None;
        }
        total = total + len;
        t = t + 1;
    }
    proof {
        lemma_iov_total_grows(v, 0, n as int);
    }
    let ds: usize = 8 * n + 4;
    let size: usize = ds + total as usize + 4;
    let mut buf: Vec<u8> = Vec::with_capacity(size);
    let mut z: usize = 0;
    while z < size
        invariant
            z <= size,
            buf@.len() == z,
            forall|p: int| 0 <= p < z ==> buf@[p] == 0u8,
        decreases size - z,
    {
        buf.push(0u8);
        z = z + 1;
    }
    let mut start: usize = ds;
    let mut j: usize = 0;
    proof {
        reveal(entries_written);
    }
    while j < n
        invariant
            n == parts@.len(),
            v == contents(parts@),
            ds == iov_data_start(n as int),
            size == ds + iov_total(v, n as int) + 4,
            size <= 0xffff_ffff,
            buf@.len() == size,
            j <= n,
            start == ds + iov_total(v, j as int),
            start <= ds + iov_total(v, n as int),
            entries_written(buf@, v, ds as int, j as int),
            forall|p: int| 8 * j <= p < ds ==> buf@[p] == 0u8,
            forall|p: int| start <= p < size ==> buf@[p] == 0u8,
        decreases n - j,
    {
        proof {
            lemma_iov_total_grows(v, j + 1, n as int);
            lemma_iov_total_grows(v, 0, j as int);
        }
        let len = parts[j].len();
        assert(len == v[j as int].len());
        let ghost b0 = buf@;
        let _ = write_le(&mut buf, 8 * j, 4, start as u64);
        let ghost b1 = buf@;
        let _ = write_le(&mut buf, 8 * j + 4, 4, len as u64);
        let ghost b2 = buf@;
        let _ = write_slice(&mut buf, start, parts[j].as_slice());
        proof {
            lemma_buffer_step(b0, b1, b2, buf@, v, ds as int, j as int, start as int);
        }
        start = start + len;
        j = j + 1;
    }
    proof {
        lemma_buffer_done(buf@, v, ds as int);
    }
    Some(buf)
}

/// A buffer with every entry and string in place and zeros elsewhere is
/// the flat buffer for those strings.
proof fn lemma_buffer_done(buf: Seq<u8>, v: Seq<Seq<u8>>, ds: int)
    requires
        ds == iov_data_start(v.len() as int),
        buf.len() == ds + iov_total(v, v.len() as int) + 4,
        entries_written(buf, v, ds, v.len() as int),
        forall|p: int| 8 * v.len() <= p < ds ==> buf[p] == 0u8,
        forall|p: int| ds + iov_total(v, v.len() as int) <= p < buf.len() ==> buf[p] == 0u8,
    ensures
        is_iovec_buffer(buf, v),
{
    reveal(entries_written);
    let n = v.len() as int;
    lemma_iov_total_grows(v, 0, n);
    assert(buf.subrange(8 * n, ds) =~= Seq::new(4, |k: int| 0u8));
    assert(buf.subrange(ds + iov_total(v, n), buf.len() as int) =~= Seq::new(4, |k: int| 0u8));
}

/// Whether the first `j` entries of the flat buffer `buf` and their
/// strings are in place.
#[verifier::opaque]
spec fn entries_written(buf: Seq<u8>, v: Seq<Seq<u8>>, ds: int, j: int) -> bool {
    forall|k: int|
        0 <= k < j ==> {
            &&& buf.subrange(8 * k, 8 * k + 4) == le_bytes((ds + #[trigger] iov_total(v, k)) as nat, 4)
            &&& buf.subrange(8 * k + 4, 8 * k + 8) == le_bytes(v[k].len(), 4)
            &&& buf.subrange(ds + iov_total(v, k), ds + iov_total(v, k) + v[k].len()) == v[k]
        }
}

/// Writing entry `j` and string `j` keeps what the earlier ones wrote.
proof fn lemma_buffer_step(
    b0: Seq<u8>,
    b1: Seq<u8>,
    b2: Seq<u8>,
    b3: Seq<u8>,
    v: Seq<Seq<u8>>,
    ds: int,
    j: int,
    start: int,
)
    requires
        0 <= j < v.len(),
        ds == iov_data_start(v.len() as int),
        b0.len() == ds + iov_total(v, v.len() as int) + 4,
        start == ds + iov_total(v, j),
        iov_total(v, j + 1) <= iov_total(v, v.len() as int),
        b1 == b0.subrange(0, 8 * j) + le_bytes(start as nat, 4) + b0.subrange(8 * j + 4, b0.len() as int),
        b2 == b1.subrange(0, 8 * j + 4) + le_bytes(v[j].len(), 4) + b1.subrange(8 * j + 8, b1.len() as int),
        b3 == b2.subrange(0, start) + v[j] + b2.subrange(start + v[j].len(), b2.len() as int),
        entries_written(b0, v, ds, j),
        forall|p: int| 8 * j <= p < ds ==> b0[p] == 0u8,
        forall|p: int| start <= p < b0.len() ==> b0[p] == 0u8,
    ensures
        entries_written(b3, v, ds, j + 1),
        forall|p: int| 8 * (j + 1) <= p < ds ==> b3[p] == 0u8,
        forall|p: int| start + v[j].len() <= p < b3.len() ==> b3[p] == 0u8,
        b3.len() == b0.len(),
{
    reveal(entries_written);
    lemma_iov_total_grows(v, 0, j);
    assert forall|k: int| 0 <= k < j + 1 implies {
        &&& b3.subrange(8 * k, 8 * k + 4) == le_bytes((ds + #[trigger] iov_total(v, k)) as nat, 4)
        &&& b3.subrange(8 * k + 4, 8 * k + 8) == le_bytes(v[k].len(), 4)
        &&& b3.subrange(ds + iov_total(v, k), ds + iov_total(v, k) + v[k].len()) == v[k]
    } by {
        let lo = ds + iov_total(v, k);
        let hi = lo + v[k].len();
        lemma_iov_total_grows(v, 0, k);
        if k < j {
            lemma_iov_total_grows(v, k + 1, j);
            lemma_splice_keeps(b0, 8 * j, le_bytes(start as nat, 4), 8 * k, 8 * k + 4);
            lemma_splice_keeps(b1, 8 * j + 4, le_bytes(v[j].len(), 4), 8 * k, 8 * k + 4);
            lemma_splice_keeps(b2, start, v[j], 8 * k, 8 * k + 4);
            lemma_splice_keeps(b0, 8 * j, le_bytes(start as nat, 4), 8 * k + 4, 8 * k + 8);
            lemma_splice_keeps(b1, 8 * j + 4, le_bytes(v[j].len(), 4), 8 * k + 4, 8 * k + 8);
            lemma_splice_keeps(b2, start, v[j], 8 * k + 4, 8 * k + 8);
            lemma_splice_keeps(b0, 8 * j, le_bytes(start as nat, 4), lo, hi);
            lemma_splice_keeps(b1, 8 * j + 4, le_bytes(v[j].len(), 4), lo, hi);
            lemma_splice_keeps(b2, start, v[j], lo, hi);
        } else {
            lemma_splice_holds(b0, 8 * j, le_bytes(start as nat, 4));
            lemma_splice_keeps(b1, 8 * j + 4, le_bytes(v[j].len(), 4), 8 * j, 8 * j + 4);
            lemma_splice_keeps(b2, start, v[j], 8 * j, 8 * j + 4);
            lemma_splice_holds(b1, 8 * j + 4, le_bytes(v[j].len(), 4));
            lemma_splice_keeps(b2, start, v[j], 8 * j + 4, 8 * j + 8);
            lemma_splice_holds(b2, start, v[j]);
        }
    }
}

} // verus!
