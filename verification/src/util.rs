//! Rounding of unsigned offsets up to a power-of-two boundary. Every
//! writer in the crate pads with this before emitting a section.

use vstd::arithmetic::div_mod::{
    lemma_fundamental_div_mod, lemma_mod_division_less_than_divisor, lemma_mod_multiples_basic,
};
use vstd::prelude::*;

verus! {

/// The value an offset rounds up to at boundary `b`: the smallest
/// multiple of `b` that is at least `v`.
pub open spec fn spec_align(v: int, b: int) -> int {
    ((v + b - 1) / b) * b
}

/// `spec_align` really is the rounding it claims to be: a multiple of
/// the boundary, at least `v`, and less than one boundary above `v`.
pub proof fn lemma_align_props(v: int, b: int)
    requires
        0 <= v,
        0 < b,
    ensures
        spec_align(v, b) % b == 0,
        v <= spec_align(v, b) < v + b,
{
    let q = (v + b - 1) / b;
    let r = (v + b - 1) % b;
    lemma_fundamental_div_mod(v + b - 1, b);
    lemma_mod_division_less_than_divisor(v + b - 1, b);
    assert(q * b == v + b - 1 - r);
    lemma_mod_multiples_basic(q, b);
}

/// A window of one boundary length holds at most one multiple of the
/// boundary, so the properties of `lemma_align_props` pin the value.
pub proof fn lemma_aligned_unique(x: int, y: int, v: int, b: int)
    requires
        0 < b,
        x % b == 0,
        y % b == 0,
        v <= x < v + b,
        v <= y < v + b,
    ensures
        x == y,
{
    let qx = x / b;
    let qy = y / b;
    lemma_fundamental_div_mod(x, b);
    lemma_fundamental_div_mod(y, b);
    assert(x == b * qx);
    assert(y == b * qy);
    if qx < qy {
        assert(b * qx + b <= b * qy) by (nonlinear_arith)
            requires
                qx < qy,
                0 < b,
        ;
    }
    if qy < qx {
        assert(b * qy + b <= b * qx) by (nonlinear_arith)
            requires
                qy < qx,
                0 < b,
        ;
    }
}

/// A run of `n` zero bytes, as writers emit for padding.
pub open spec fn zeros(n: nat) -> Seq<u8> {
    Seq::new(n, |j: int| 0u8)
}

/// Copies the bytes `data[from..to]` into a fresh buffer.
pub fn copy_range(data: &Vec<u8>, from: usize, to: usize) -> (r: Vec<u8>)
    requires
        from <= to <= data.len(),
    ensures
        r@ == data@.subrange(from as int, to as int),
{
    let mut buf: Vec<u8> = Vec::new();
    let mut k: usize = from;
    while k < to
        invariant
            from <= k <= to <= data.len(),
            buf@ =~= data@.subrange(from as int, k as int),
        decreases to - k,
    {
        buf.push(data[k]);
        k = k + 1;
    }
    proof {
        assert(buf@ =~= data@.subrange(from as int, to as int));
    }
    buf
}

/// Rounds an unsigned value up to a 4-, 8-, 16- or 32-byte boundary.
///
/// Construct the variant for the boundary wanted, then call
/// [`Alignment::unwrap`] to obtain the rounded value.
pub enum Alignment {
    /// Rounds up to a multiple of 4.
    A4(usize),
    /// Rounds up to a multiple of 8.
    A8(usize),
    /// Rounds up to a multiple of 16.
    A16(usize),
    /// Rounds up to a multiple of 32.
    A32(usize),
}

impl Alignment {
    /// The value being rounded.
    pub open spec fn value(self) -> usize {
        match self {
            Alignment::A4(v) => v,
            Alignment::A8(v) => v,
            Alignment::A16(v) => v,
            Alignment::A32(v) => v,
        }
    }

    /// The boundary this variant rounds up to.
    pub open spec fn boundary(self) -> int {
        match self {
            Alignment::A4(_) => 4,
            Alignment::A8(_) => 8,
            Alignment::A16(_) => 16,
            Alignment::A32(_) => 32,
        }
    }

    /// Rounds the held value up to the variant's boundary: the result is
    /// the smallest multiple of the boundary that is at least the value.
    pub fn unwrap(&self) -> (r: usize)
        requires
            self.value() + self.boundary() - 1 <= usize::MAX,
        ensures
            r == spec_align(self.value() as int, self.boundary()),
            r as int % self.boundary() == 0,
            self.value() <= r < self.value() + self.boundary(),
    {
        proof {
            lemma_align_props(self.value() as int, self.boundary());
        }
        match self {
            Alignment::A4(val) => {
                let s: usize = *val + 3;
                let m: usize = s & !3usize;
                assert((s & !3usize) % 4 == 0 && s - 3 <= (s & !3usize) <= s) by (bit_vector);
                proof {
                    lemma_aligned_unique(
                        m as int,
                        spec_align(*val as int, 4),
                        *val as int,
                        4,
                    );
                }
                m
            },
            Alignment::A8(val) => {
                let s: usize = *val + 7;
                let m: usize = s & !7usize;
                assert((s & !7usize) % 8 == 0 && s - 7 <= (s & !7usize) <= s) by (bit_vector);
                proof {
                    lemma_aligned_unique(
                        m as int,
                        spec_align(*val as int, 8),
                        *val as int,
                        8,
                    );
                }
                m
            },
            Alignment::A16(val) => {
                let s: usize = *val + 15;
                let m: usize = s & !15usize;
                assert((s & !15usize) % 16 == 0 && s - 15 <= (s & !15usize) <= s) by (bit_vector);
                proof {
                    lemma_aligned_unique(
                        m as int,
                        spec_align(*val as int, 16),
                        *val as int,
                        16,
                    );
                }
                m
            },
            Alignment::A32(val) => {
                let s: usize = *val + 31;
                let m: usize = s & !31usize;
                assert((s & !31usize) % 32 == 0 && s - 31 <= (s & !31usize) <= s) by (bit_vector);
                proof {
                    lemma_aligned_unique(
                        m as int,
                        spec_align(*val as int, 32),
                        *val as int,
                        32,
                    );
                }
                m
            },
        }
    }
}

} // verus!
