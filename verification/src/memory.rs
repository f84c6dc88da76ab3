//! A growable byte arena on the CPU with bump allocation.
use vstd::prelude::*;

verus! {

/// Minimum alignment of every allocation, in bytes.
pub const MIN_ALIGNMENT: usize = 256;

/// A range of the arena handed out by [`CpuMemory::allocate`].
#[derive(Clone, Copy, Debug, PartialEq, Eq)]
pub struct Allocation {
    pub offset: usize,
    pub size: usize,
}

/// The arena's storage: its bytes, its capacity, and a generation that changes whenever the
/// storage is reallocated.
pub struct CpuMemoryInner {
    buffer: Vec<u8>,
    capacity: usize,
    generation: u64,
}

/// Bump allocator over a [`CpuMemoryInner`].
pub struct CpuMemory {
    inner: CpuMemoryInner,
    bump: usize,
}

/// The smallest multiple of `align` that is at least `value`.
pub open spec fn aligned_up(value: int, align: int) -> int {
    if value % align == 0 {
        value
    } else {
        value + (align - value % align)
    }
}

/// Capacity after growing to hold `min_len` bytes: unchanged when large enough, otherwise the
/// larger of the doubled capacity (saturating) and `min_len`.
pub open spec fn grown_capacity(capacity: int, min_len: int) -> int {
    if min_len <= capacity {
        capacity
    } else {
        let doubled = if capacity * 2 > usize::MAX { usize::MAX as int } else { capacity * 2 };
        if doubled >= min_len { doubled } else { min_len }
    }
}

impl CpuMemory {
    /// The arena's bytes.
    pub closed spec fn bytes(self) -> Seq<u8> {
        self.inner.buffer@
    }

    pub closed spec fn capacity_spec(self) -> nat {
        self.inner.capacity as nat
    }

    pub closed spec fn generation_spec(self) -> u64 {
        self.inner.generation
    }

    /// First byte not handed out yet.
    pub closed spec fn bump_spec(self) -> nat {
        self.bump as nat
    }

    pub open spec fn wf(self) -> bool {
        self.bytes().len() == self.capacity_spec()
    }

    pub fn new() -> (m: CpuMemory)
        ensures
            m.wf(),
            m.capacity_spec() == 0,
            m.generation_spec() == 0,
            m.bump_spec() == 0,
    {
        CpuMemory { inner: CpuMemoryInner { buffer: Vec::new(), capacity: 0, generation: 0 }, bump: 0 }
    }

    /// Rounds `value` up to a multiple of `align`.
    pub fn align_up(value: usize, align: usize) -> (r: usize)
        requires
            align > 0,
            value + align <= usize::MAX,
        ensures
            r == aligned_up(value as int, align as int),
            r % align == 0,
            value <= r < value + align,
    {
        let rem = value % align;
        if rem == 0 {
            value
        } else {
            proof {
                lemma_round_up_is_multiple(value as int, align as int);
            }
            value + (align - rem)
        }
    }

    /// Hands out `size` zeroed bytes aligned to `max(align, 256)`, after the previous
    /// allocation. The alignment padding is zeroed as well.
    pub fn allocate(&mut self, size: usize, align: usize) -> (a: Allocation)
        requires
            old(self).wf(),
            old(self).bump_spec() + (if align > MIN_ALIGNMENT { align } else { MIN_ALIGNMENT })
                + size <= usize::MAX,
        ensures
            final(self).wf(),
            a.size == size,
            a.offset == aligned_up(
                old(self).bump_spec() as int,
                if align > MIN_ALIGNMENT { align as int } else { MIN_ALIGNMENT as int },
            ),
            a.offset % (if align > MIN_ALIGNMENT { align } else { MIN_ALIGNMENT }) == 0,
            old(self).bump_spec() <= a.offset,
            final(self).bump_spec() == a.offset + size,
            final(self).capacity_spec() == grown_capacity(
                old(self).capacity_spec() as int,
                a.offset + size,
            ),
            forall|i: int| old(self).bump_spec() <= i < a.offset + size ==> #[trigger] final(self).bytes()[i] == 0u8,
            forall|i: int|
                0 <= i < old(self).bump_spec() && i < old(self).capacity_spec() ==> #[trigger] final(self).bytes()[i] == old(self).bytes()[i],
    {
        let align = if align > MIN_ALIGNMENT { align } else { MIN_ALIGNMENT };
        let old_bump = self.bump;
        let bump = Self::align_up(old_bump, align);
        let end = bump + size;
        self.ensure_capacity(end);
        let ghost grown = self.inner.buffer@;
        if bump > old_bump {
            self.zero_range(old_bump, bump - old_bump);
        }
        let ghost padded = self.inner.buffer@;
        if size != 0 {
            self.zero_range(bump, size);
        }
        proof {
            assert forall|i: int| old_bump <= i < end implies #[trigger] self.inner.buffer@[i]
                == 0u8 by {
                if i < bump {
                    assert(padded[i] == 0u8);
                }
            }
        }
        self.bump = end;
        Allocation { offset: bump, size }
    }

    /// Writes `len` zero bytes at `offset`.
    fn zero_range(&mut self, offset: usize, len: usize)
        requires
            old(self).wf(),
            offset + len <= old(self).capacity_spec(),
        ensures
            final(self).wf(),
            final(self).capacity_spec() == old(self).capacity_spec(),
            final(self).generation_spec() == old(self).generation_spec(),
            final(self).bump_spec() == old(self).bump_spec(),
            forall|i: int|
                0 <= i < final(self).bytes().len() ==> #[trigger] final(self).bytes()[i] == if offset
                    <= i < offset + len {
                    0u8
                } else {
                    old(self).bytes()[i]
                },
    {
        let total = self.inner.buffer.len();
        let mut k: usize = 0;
        while k < len
            invariant
                k <= len,
                self.inner.buffer@.len() == total,
                offset + len <= self.inner.buffer@.len(),
                self.inner.buffer@.len() == old(self).inner.buffer@.len(),
                self.inner.capacity == old(self).inner.capacity,
                self.inner.generation == old(self).inner.generation,
                self.bump == old(self).bump,
                forall|i: int|
                    0 <= i < self.inner.buffer@.len() ==> #[trigger] self.inner.buffer@[i] == if offset
                        <= i < offset + k {
                        0u8
                    } else {
                        old(self).inner.buffer@[i]
                    },
            decreases len - k,
        {
            self.inner.buffer.set(offset + k, 0u8);
            k = k + 1;
        }
    }

    pub fn capacity(&self) -> (c: usize)
        ensures
            c == self.capacity_spec(),
    {
        self.inner.capacity
    }

    pub fn generation(&self) -> (g: u64)
        ensures
            g == self.generation_spec(),
    {
        self.inner.generation
    }

    /// Grows the storage to hold at least `min_len` bytes, zero-filling the new part and
    /// advancing the generation (wrapping) when it reallocates.
    pub fn ensure_capacity(&mut self, min_len: usize)
        requires
            old(self).wf(),
        ensures
            final(self).wf(),
            final(self).bump_spec() == old(self).bump_spec(),
            final(self).capacity_spec() == grown_capacity(old(self).capacity_spec() as int, min_len as int),
            final(self).capacity_spec() >= min_len,
            final(self).generation_spec() == if min_len <= old(self).capacity_spec() {
                old(self).generation_spec()
            } else if old(self).generation_spec() == u64::MAX {
                0
            } else {
                (old(self).generation_spec() + 1) as u64
            },
            forall|i: int|
                0 <= i < final(self).capacity_spec() ==> #[trigger] final(self).bytes()[i] == if i
                    < old(self).capacity_spec() {
                    old(self).bytes()[i]
                } else {
                    0u8
                },
    {
        if min_len <= self.inner.capacity {
            return;
        }
        // Doubling once (saturating) either reaches `min_len` or is replaced by it.
        let doubled = if self.inner.capacity <= usize::MAX / 2 {
            self.inner.capacity * 2
        } else {
            usize::MAX
        };
        let capacity = if doubled >= min_len {
            doubled
        } else {
            min_len
        };
        self.inner.buffer.resize(capacity, 0u8);
        self.inner.capacity = capacity;
        self.inner.generation = if self.inner.generation == u64::MAX {
            0
        } else {
            self.inner.generation + 1
        };
    }

    /// The arena's bytes.
    pub fn buffer(&self) -> (b: &[u8])
        ensures
            b@ == self.bytes(),
    {
        self.inner.buffer.as_slice()
    }

    /// Copies `data` into the arena at `offset`.
    pub fn write_at(&mut self, offset: usize, data: &[u8])
        requires
            old(self).wf(),
            data@.len() > 0 ==> offset + data@.len() <= old(self).capacity_spec(),
        ensures
            final(self).wf(),
            final(self).capacity_spec() == old(self).capacity_spec(),
            final(self).generation_spec() == old(self).generation_spec(),
            final(self).bump_spec() == old(self).bump_spec(),
            forall|i: int|
                0 <= i < final(self).bytes().len() ==> #[trigger] final(self).bytes()[i] == if offset
                    <= i < offset + data@.len() {
                    data@[i - offset]
                } else {
                    old(self).bytes()[i]
                },
    {
        if data.len() == 0 {
            return;
        }
        let total = self.inner.buffer.len();
        let mut k: usize = 0;
        while k < data.len()
            invariant
                k <= data@.len(),
                self.inner.buffer@.len() == total,
                offset + data@.len() <= self.inner.buffer@.len(),
                self.inner.buffer@.len() == old(self).inner.buffer@.len(),
                self.inner.capacity == old(self).inner.capacity,
                self.inner.generation == old(self).inner.generation,
                self.bump == old(self).bump,
                forall|i: int|
                    0 <= i < self.inner.buffer@.len() ==> #[trigger] self.inner.buffer@[i] == if offset
                        <= i < offset + k {
                        data@[i - offset]
                    } else {
                        old(self).inner.buffer@[i]
                    },
            decreases data@.len() - k,
        {
            self.inner.buffer.set(offset + k, data[k]);
            k = k + 1;
        }
    }

    /// Zeroes every byte of the arena.
    pub fn clear(&mut self)
        requires
            old(self).wf(),
        ensures
            final(self).wf(),
            final(self).capacity_spec() == old(self).capacity_spec(),
            final(self).generation_spec() == old(self).generation_spec(),
            final(self).bump_spec() == old(self).bump_spec(),
            forall|i: int| 0 <= i < final(self).bytes().len() ==> #[trigger] final(self).bytes()[i] == 0u8,
    {
        let n = self.inner.buffer.len();
        self.zero_range(0, n);
    }

    /// A copy of `size` bytes from `offset`.
    pub fn read_range(&self, offset: usize, size: usize) -> (r: Vec<u8>)
        requires
            offset + size <= self.bytes().len(),
        ensures
            r@ == self.bytes().subrange(offset as int, offset + size),
    {
        let mut out: Vec<u8> = Vec::new();
        let total = self.inner.buffer.len();
        let mut k: usize = 0;
        while k < size
            invariant
                k <= size,
                self.inner.buffer@.len() == total,
                offset + size <= self.inner.buffer@.len(),
                out@ == self.inner.buffer@.subrange(offset as int, offset + k),
            decreases size - k,
        {
            out.push(self.inner.buffer[offset + k]);
            k = k + 1;
        }
        out
    }
}

proof fn lemma_round_up_is_multiple(value: int, align: int)
    requires
        align > 0,
        value >= 0,
        value % align != 0,
    ensures
        (value + (align - value % align)) % align == 0,
{
    let q = value / align;
    let r = value % align;
    assert(value == q * align + r) by (nonlinear_arith)
        requires
            align > 0,
            q == value / align,
            r == value % align,
    ;
    assert(value + (align - r) == (q + 1) * align) by (nonlinear_arith)
        requires
            value == q * align + r,
    ;
    assert(((q + 1) * align) % align == 0) by (nonlinear_arith)
        requires
            align > 0,
    ;
}

} // verus!
