use vstd::prelude::*;

verus! {

/// A pointer and a length into 32-bit wasm memory.
#[derive(Clone, Copy, Debug)]
pub struct RawWasmVec {
    pub ptr: usize,
    pub len: usize,
}

impl RawWasmVec {
    /// Unpacks a pointer and a length from a `u64`: the pointer in the low 32
    /// bits, the length in the high 32 bits.
    pub fn from_u64(value: u64) -> (r: RawWasmVec)
        ensures
            r.ptr == value % 0x1_0000_0000,
            r.len == value / 0x1_0000_0000,
    {
        let ptr = (value % 0x1_0000_0000u64) as u32;
        let len = (value / 0x1_0000_0000u64) as u32;
        RawWasmVec { ptr: ptr as usize, len: len as usize }
    }

    /// Packs the pointer and the length into a `u64`, the length in the high bits.
    pub fn into_u64(self) -> (r: u64)
        requires
            self.ptr < 0x1_0000_0000,
            self.len < 0x1_0000_0000,
        ensures
            r == self.len * 0x1_0000_0000 + self.ptr,
    {
        assert(self.len * 0x1_0000_0000 + self.ptr <= u64::MAX) by (nonlinear_arith)
            requires self.len < 0x1_0000_0000, self.ptr < 0x1_0000_0000;
        (self.len as u64) * 0x1_0000_0000u64 + (self.ptr as u64)
    }

    /// The byte range `[ptr, ptr + len)`.
    pub fn into_range(&self) -> (r: core::ops::Range<usize>)
        requires
            self.ptr + self.len <= usize::MAX,
        ensures
            r.start == self.ptr,
            r.end == self.ptr + self.len,
    {
        self.ptr..self.ptr + self.len
    }
}

/// Packing a pointer and a length into a `u64` and unpacking it gives them back.
pub proof fn lemma_pack_round_trip(ptr: int, len: int)
    requires
        0 <= ptr < 0x1_0000_0000,
        0 <= len < 0x1_0000_0000,
    ensures
        (len * 0x1_0000_0000 + ptr) % 0x1_0000_0000 == ptr,
        (len * 0x1_0000_0000 + ptr) / 0x1_0000_0000 == len,
{
    assert((len * 0x1_0000_0000 + ptr) % 0x1_0000_0000 == ptr) by (nonlinear_arith)
        requires 0 <= ptr < 0x1_0000_0000, 0 <= len;
    assert((len * 0x1_0000_0000 + ptr) / 0x1_0000_0000 == len) by (nonlinear_arith)
        requires 0 <= ptr < 0x1_0000_0000, 0 <= len;
}

} // verus!
