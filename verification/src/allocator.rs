//! Bump arena over a fixed memory window.
//!
//! A monotonic offset walks a `[start, start + len)` window; each
//! allocation rounds the current position up to the requested alignment
//! and claims `size` bytes, failing with `OutOfMemory` when the window is
//! exhausted.  Deallocation is a no-op.  What is verified here is the
//! offset arithmetic — alignment, bounds and monotonicity; the running
//! system performs the same steps on an atomic offset with a
//! compare-exchange retry loop, and hands out the addresses as pointers.

use vstd::prelude::*;

verus! {

use crate::QecError;
use vstd::arithmetic::div_mod::{lemma_fundamental_div_mod, lemma_mod_division_less_than_divisor};

/// Bytes needed to advance `cur` to the next multiple of `align`.
pub open spec fn align_padding(cur: int, align: int) -> int
    recommends
        align >= 1,
{
    if cur % align == 0 {
        0
    } else {
        align - cur % align
    }
}

/// Bump allocator over the window `[start, start + len)`.
pub struct BumpAllocator {
    start: usize,
    len: usize,
    offset: usize,
}

impl BumpAllocator {
    /// Base address of the window.
    pub closed spec fn start_spec(&self) -> int {
        self.start as int
    }

    /// Size of the window in bytes.
    pub closed spec fn len_spec(&self) -> int {
        self.len as int
    }

    /// Bytes already claimed.
    pub closed spec fn offset_spec(&self) -> int {
        self.offset as int
    }

    /// Allocator invariant: the window fits the address space and the
    /// claimed prefix fits the window.
    pub closed spec fn wf(&self) -> bool {
        &&& self.start + self.len <= usize::MAX
        &&& self.offset <= self.len
    }

    /// Creates an allocator over the window `[ptr, ptr + len)`.
    pub fn new(ptr: usize, len: usize) -> (r: Self)
        requires
            ptr + len <= usize::MAX,
        ensures
            r.wf(),
            r.start_spec() == ptr,
            r.len_spec() == len,
            r.offset_spec() == 0,
    {
        BumpAllocator { start: ptr, len, offset: 0 }
    }

    /// Claims `size` bytes aligned to `align`, returning the address, or
    /// `OutOfMemory` when the window cannot hold them.  The offset only
    /// ever grows; success is decided exactly by whether the padding and
    /// the size fit in the remaining window.
    pub fn allocate(&mut self, size: usize, align: usize) -> (r: Result<usize, QecError>)
        requires
            old(self).wf(),
            align >= 1,
        ensures
            final(self).wf(),
            final(self).start_spec() == old(self).start_spec(),
            final(self).len_spec() == old(self).len_spec(),
            ({
                let pad = align_padding(old(self).start_spec() + old(self).offset_spec(), align as int);
                match r {
                    Ok(addr) => {
                        &&& old(self).offset_spec() + pad + size <= old(self).len_spec()
                        &&& addr as int % (align as int) == 0
                        &&& addr == old(self).start_spec() + old(self).offset_spec() + pad
                        &&& addr + size <= old(self).start_spec() + old(self).len_spec()
                        &&& final(self).offset_spec() == old(self).offset_spec() + pad + size
                    },
                    Err(e) => {
                        &&& e == QecError::OutOfMemory
                        &&& old(self).offset_spec() + pad + size > old(self).len_spec()
                        &&& final(self).offset_spec() == old(self).offset_spec()
                    },
                }
            }),
    {
        let cur = self.start + self.offset;
        let rem = cur % align;
        proof {
            lemma_mod_division_less_than_divisor(cur as int, align as int);
        }
        let pad = if rem == 0 {
            0
        } else {
            align - rem
        };
        let avail = self.len - self.offset;
        if pad > avail {
            return Err(QecError::OutOfMemory);
        }
        if size > avail - pad {
            return Err(QecError::OutOfMemory);
        }
        let aligned = cur + pad;
        self.offset = self.offset + pad + size;
        proof {
            lemma_fundamental_div_mod(cur as int, align as int);
            if rem != 0 {
                assert(aligned as int == (align as int) * (cur as int / align as int + 1))
                    by (nonlinear_arith)
                    requires
                        cur as int == (align as int) * (cur as int / align as int) + rem,
                        aligned == cur + align - rem,
                ;
                assert((align as int) * (cur as int / align as int + 1) % (align as int) == 0) by {
                    vstd::arithmetic::div_mod::lemma_mod_multiples_basic(
                        cur as int / align as int + 1,
                        align as int,
                    );
                }
            } else {
                assert(aligned as int == (align as int) * (cur as int / align as int));
                vstd::arithmetic::div_mod::lemma_mod_multiples_basic(
                    cur as int / align as int,
                    align as int,
                );
            }
        }
        Ok(aligned)
    }
}

} // verus!
