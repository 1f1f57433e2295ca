//! The buffer through which a rendered image comes back from the GPU.

use vstd::arithmetic::div_mod::{lemma_fundamental_div_mod, lemma_mod_multiples_basic};
use vstd::prelude::*;

verus! {

/// `value` rounded up to a multiple of `align`.
pub open spec fn aligned_up(value: int, align: int) -> int {
    (value + align - 1) / align * align
}

/// The smallest multiple of `align` that is not below `value`.
pub fn align_up(value: u32, align: u32) -> (aligned: u32)
    requires
        align > 0,
        value + align <= u32::MAX,
    ensures
        aligned == aligned_up(value as int, align as int),
        aligned % align == 0,
        value <= aligned < value + align,
{
    let steps: u32 = (value + align - 1) / align;
    proof {
        let sum = value + align - 1;
        let q = steps as int;
        let a = align as int;
        lemma_fundamental_div_mod(sum, a);
        assert(a * q == q * a) by (nonlinear_arith);
        assert(0 <= q * a) by (nonlinear_arith)
            requires
                q >= 0,
                a > 0,
        ;
        lemma_mod_multiples_basic(q, a);
    }
    steps * align
}

/// How an image of four bytes a pixel lies in the buffer: each row is padded at its end to a
/// multiple of an alignment.
#[derive(Clone, Copy, PartialEq, Eq, Structural, Debug)]
pub struct Readback {
    pub width: u32,
    pub height: u32,
    /// The bytes from the beginning of one row to that of the next.
    pub padded_bpr: u32,
}

/// The bytes of the first `rows` rows of an image, without what pads each row: `row_bytes` bytes
/// of every `stride` bytes of `mapped`.
pub open spec fn packed_rows(mapped: Seq<u8>, row_bytes: nat, stride: nat, rows: nat) -> Seq<u8>
    decreases rows,
{
    if rows == 0 {
        seq![]
    } else {
        let start = (rows - 1) * stride;
        packed_rows(mapped, row_bytes, stride, (rows - 1) as nat) + mapped.subrange(
            start,
            start + row_bytes,
        )
    }
}

impl Readback {
    /// A row holds its pixels, and the whole buffer can be measured in 32 bits.
    pub open spec fn wf(self) -> bool {
        &&& self.width * 4 <= self.padded_bpr
        &&& self.padded_bpr * self.height <= u32::MAX
    }

    /// The buffer for an image of this size, with rows padded to a multiple of `align`.
    pub fn new(width: u32, height: u32, align: u32) -> (readback: Readback)
        requires
            align > 0,
            width * 4 + align <= u32::MAX,
            aligned_up(width * 4, align as int) * height <= u32::MAX,
        ensures
            readback.wf(),
            readback.width == width,
            readback.height == height,
            readback.padded_bpr == aligned_up(width * 4, align as int),
            readback.padded_bpr % align == 0,
            width * 4 <= readback.padded_bpr < width * 4 + align,
    {
        let padded_bpr: u32 = align_up(width * 4, align);
        Readback { width, height, padded_bpr }
    }

    /// The size of the buffer in bytes.
    pub fn size(&self) -> (bytes: u64)
        requires
            self.wf(),
        ensures
            bytes == self.padded_bpr * self.height,
    {
        (self.padded_bpr * self.height) as u64
    }

    /// The image's rows, one right behind the other.
    pub fn pixels(&self, mapped: &[u8]) -> (out: Vec<u8>)
        requires
            self.wf(),
            mapped@.len() >= self.padded_bpr * self.height,
        ensures
            out@ == packed_rows(
                mapped@,
                (self.width * 4) as nat,
                self.padded_bpr as nat,
                self.height as nat,
            ),
            out@.len() == self.height * (self.width * 4),
            forall|x: int, y: int|
                0 <= x < self.width * 4 && 0 <= y < self.height ==> out@[y * (self.width * 4) + x]
                    == #[trigger] mapped@[y * self.padded_bpr + x],
    {
        let row_bytes: usize = (self.width * 4) as usize;
        let stride: usize = self.padded_bpr as usize;
        let mut out: Vec<u8> = Vec::new();
        let mut row: usize = 0;
        while row < self.height as usize
            invariant
                row <= self.height,
                row_bytes == self.width * 4,
                row_bytes <= stride,
                stride == self.padded_bpr,
                self.wf(),
                mapped@.len() >= self.padded_bpr * self.height,
                out@ == packed_rows(mapped@, row_bytes as nat, stride as nat, row as nat),
            decreases self.height - row,
        {
            proof {
                let h = self.height as int;
                assert(row * stride + stride <= stride * h) by (nonlinear_arith)
                    requires
                        row < h,
                        stride >= 0,
                ;
            }
            let start: usize = row * stride;
            let mut i: usize = 0;
            let ghost before = out@;
            while i < row_bytes
                invariant
                    i <= row_bytes,
                    start + row_bytes <= mapped.len(),
                    out@ == before + mapped@.subrange(start as int, start + i),
                decreases row_bytes - i,
            {
                out.push(mapped[start + i]);
                assert(out@ =~= before + mapped@.subrange(start as int, start + i + 1));
                i += 1;
            }
            row += 1;
        }
        proof {
            let rows = self.height as nat;
            let wide = row_bytes as nat;
            let apart = stride as nat;
            assert(rows * apart == apart * rows) by (nonlinear_arith);
            lemma_packed_rows_len(mapped@, wide, apart, rows);
            assert forall|x: int, y: int|
                0 <= x < self.width * 4 && 0 <= y < self.height implies out@[y * (self.width * 4)
                + x] == #[trigger] mapped@[y * self.padded_bpr + x] by {
                lemma_packed_rows_keep_bytes(mapped@, wide, apart, rows, x as nat, y as nat);
            }
        }
        out
    }
}

/// A multiple of the alignment stays as it is.
pub proof fn lemma_aligned_up_keeps_multiples(value: int, align: int)
    requires
        align > 0,
        value >= 0,
        value % align == 0,
    ensures
        aligned_up(value, align) == value,
{
    let q = value / align;
    lemma_fundamental_div_mod(value, align);
    assert(value == align * q);
    assert((align * q + (align - 1)) / align == q) by (nonlinear_arith)
        requires
            align > 0,
    ;
    assert(q * align == align * q) by (nonlinear_arith);
}

/// Byte `x` of row `y` of the buffer is byte `x` of row `y` of the image, and the image has no
/// other bytes.
pub proof fn lemma_packed_rows_keep_bytes(
    mapped: Seq<u8>,
    row_bytes: nat,
    stride: nat,
    rows: nat,
    x: nat,
    y: nat,
)
    requires
        row_bytes <= stride,
        rows * stride <= mapped.len(),
        x < row_bytes,
        y < rows,
    ensures
        packed_rows(mapped, row_bytes, stride, rows).len() == rows * row_bytes,
        0 <= y * row_bytes + x < rows * row_bytes,
        packed_rows(mapped, row_bytes, stride, rows)[(y * row_bytes + x) as int] == mapped[(y
            * stride + x) as int],
    decreases rows,
{
    let m = (rows - 1) as nat;
    assert(m * stride + stride == rows * stride) by (nonlinear_arith)
        requires
            m == rows - 1,
    ;
    assert(m * row_bytes + row_bytes == rows * row_bytes) by (nonlinear_arith)
        requires
            m == rows - 1,
    ;
    lemma_packed_rows_len(mapped, row_bytes, stride, rows);
    lemma_packed_rows_len(mapped, row_bytes, stride, m);
    assert(y * row_bytes <= m * row_bytes) by (nonlinear_arith)
        requires
            y <= m,
    ;
    if y < m {
        lemma_packed_rows_keep_bytes(mapped, row_bytes, stride, m, x, y);
    }
}

proof fn lemma_packed_rows_len(mapped: Seq<u8>, row_bytes: nat, stride: nat, rows: nat)
    requires
        row_bytes <= stride,
        rows * stride <= mapped.len(),
    ensures
        packed_rows(mapped, row_bytes, stride, rows).len() == rows * row_bytes,
    decreases rows,
{
    if rows > 0 {
        let m = (rows - 1) as nat;
        assert(m * stride + stride == rows * stride) by (nonlinear_arith)
            requires
                m == rows - 1,
        ;
        assert(m * row_bytes + row_bytes == rows * row_bytes) by (nonlinear_arith)
            requires
                m == rows - 1,
        ;
        assert(0 <= m * stride) by (nonlinear_arith);
        lemma_packed_rows_len(mapped, row_bytes, stride, m);
    } else {
        assert(rows * row_bytes == 0) by (nonlinear_arith)
            requires
                rows == 0,
        ;
    }
}

/// What is rounded up is the smallest multiple of the alignment that is not below it.
pub proof fn lemma_aligned_up_is_smallest(value: int, align: int, other: int)
    requires
        align > 0,
        value >= 0,
        other % align == 0,
        other >= value,
    ensures
        aligned_up(value, align) % align == 0,
        value <= aligned_up(value, align) < value + align,
        aligned_up(value, align) <= other,
{
    let q = (value + align - 1) / align;
    let k = other / align;
    lemma_fundamental_div_mod(value + align - 1, align);
    lemma_fundamental_div_mod(other, align);
    lemma_mod_multiples_basic(q, align);
    assert(align * q == q * align && align * k == k * align) by (nonlinear_arith);
    assert(q <= k) by (nonlinear_arith)
        requires
            align > 0,
            q * align <= value + align - 1,
            k * align >= value,
    ;
    assert(q * align <= k * align) by (nonlinear_arith)
        requires
            q <= k,
            align > 0,
    ;
}

} // verus!
