//! What the planes of a model take, laid out for the device.

use std::collections::BTreeSet;
use vstd::arithmetic::div_mod::{lemma_fundamental_div_mod, lemma_mod_multiples_vanish};
use vstd::prelude::*;

verus! {

/// The least multiple of `align` that `bytes` fits in.
pub open spec fn align_up(bytes: int, align: int) -> int {
    (bytes + align - 1) / align * align
}

/// What the first `n` planes take, each aligned, those left out aside.
pub open spec fn laid_out(bytes: Seq<u64>, align: int, left_out: Set<usize>, n: nat) -> int
    decreases n,
{
    if n == 0 {
        0
    } else {
        laid_out(bytes, align, left_out, (n - 1) as nat) + if left_out.contains((n - 1) as usize) {
            0
        } else {
            align_up(bytes[n - 1] as int, align)
        }
    }
}

pub proof fn lemma_align_up(bytes: int, align: int)
    requires
        align > 0,
        bytes >= 0,
    ensures
        bytes <= align_up(bytes, align) < bytes + align,
        align_up(bytes, align) % align == 0,
        bytes % align == 0 ==> align_up(bytes, align) == bytes,
        bytes % align != 0 ==> align_up(bytes, align) == bytes - bytes % align + align,
{
    let q = bytes / align;
    let r = bytes % align;
    lemma_fundamental_div_mod(bytes, align);
    assert(0 <= r < align);
    if r == 0 {
        assert((bytes + align - 1) / align == q) by (nonlinear_arith)
            requires
                bytes == align * q,
                align > 0,
        ;
        assert(q * align == bytes) by (nonlinear_arith)
            requires
                bytes == align * q,
        ;
    } else {
        assert((bytes + align - 1) / align == q + 1) by (nonlinear_arith)
            requires
                bytes == align * q + r,
                0 < r < align,
        ;
        assert((q + 1) * align == bytes - r + align) by (nonlinear_arith)
            requires
                bytes == align * q + r,
        ;
    }
    let k = (bytes + align - 1) / align;
    lemma_mod_multiples_vanish(k, 0, align);
    assert(align * k + 0 == k * align) by (nonlinear_arith);
    assert(0int % align == 0) by (nonlinear_arith)
        requires
            align > 0,
    ;
}

/// Aligning keeps order.
pub proof fn lemma_align_up_mono(a: int, b: int, align: int)
    requires
        align > 0,
        0 <= a <= b,
    ensures
        align_up(a, align) <= align_up(b, align),
{
    assert((a + align - 1) / align * align <= (b + align - 1) / align * align) by (nonlinear_arith)
        requires
            align > 0,
            0 <= a <= b,
    ;
}

pub proof fn lemma_laid_out_mono(bytes: Seq<u64>, align: int, left_out: Set<usize>, n: nat, m: nat)
    requires
        align > 0,
        n <= m <= bytes.len(),
    ensures
        0 <= laid_out(bytes, align, left_out, n) <= laid_out(bytes, align, left_out, m),
    decreases m,
{
    if n < m {
        lemma_laid_out_mono(bytes, align, left_out, n, (m - 1) as nat);
        lemma_align_up(bytes[m - 1] as int, align);
    } else if n > 0 {
        lemma_laid_out_mono(bytes, align, left_out, (n - 1) as nat, (n - 1) as nat);
        lemma_align_up(bytes[n - 1] as int, align);
    }
}

/// To leave more planes out never takes more.
pub proof fn lemma_laid_out_fewer(
    bytes: Seq<u64>,
    align: int,
    fewer: Set<usize>,
    more: Set<usize>,
    n: nat,
)
    requires
        align > 0,
        n <= bytes.len(),
        fewer.subset_of(more),
    ensures
        laid_out(bytes, align, more, n) <= laid_out(bytes, align, fewer, n),
    decreases n,
{
    if n > 0 {
        lemma_laid_out_fewer(bytes, align, fewer, more, (n - 1) as nat);
        lemma_align_up(bytes[n - 1] as int, align);
    }
}

/// The least multiple of `align` that `bytes` fits in.
pub fn next_multiple(bytes: u64, align: u64) -> (aligned: u64)
    requires
        align > 0,
        align_up(bytes as int, align as int) <= u64::MAX,
    ensures
        aligned == align_up(bytes as int, align as int),
{
    proof {
        lemma_align_up(bytes as int, align as int);
    }
    let over: u64 = bytes % align;
    if over == 0 {
        bytes
    } else {
        bytes + (align - over)
    }
}

/// What every plane of a trace takes, and how each is aligned.
#[derive(Debug)]
pub struct Weights {
    pub bytes: Vec<u64>,
    pub align: u64,
}

impl Weights {
    /// What all planes but those left out take.
    pub open spec fn sum(&self, left_out: Set<usize>) -> int {
        laid_out(self.bytes@, self.align as int, left_out, self.bytes@.len())
    }

    /// What all planes but those left out take.
    pub fn total(&self, left_out: &BTreeSet<usize>) -> (total: u64)
        requires
            self.align > 0,
            self.sum(left_out@) <= u64::MAX,
        ensures
            total == self.sum(left_out@),
    {
        let mut total: u64 = 0;
        let mut p: usize = 0;
        while p < self.bytes.len()
            invariant
                self.align > 0,
                self.sum(left_out@) <= u64::MAX,
                p <= self.bytes@.len(),
                total == laid_out(self.bytes@, self.align as int, left_out@, p as nat),
            decreases self.bytes@.len() - p,
        {
            proof {
                lemma_laid_out_mono(
                    self.bytes@,
                    self.align as int,
                    left_out@,
                    (p + 1) as nat,
                    self.bytes@.len(),
                );
            }
            if !left_out.contains(&p) {
                total = total + next_multiple(self.bytes[p], self.align);
            }
            p += 1;
        }
        total
    }
}

/// What is aligned is the least multiple of the alignment that holds it.
pub proof fn aligning_takes_the_least_multiple(bytes: int, align: int)
    requires
        align > 0,
        bytes >= 0,
    ensures
        align_up(bytes, align) % align == 0,
        bytes <= align_up(bytes, align),
        forall|m: int| m >= bytes && #[trigger] (m % align) == 0 ==> align_up(bytes, align) <= m,
{
    lemma_align_up(bytes, align);
    assert forall|m: int| m >= bytes && #[trigger] (m % align) == 0 implies align_up(bytes, align)
        <= m by {
        let a = align_up(bytes, align);
        lemma_fundamental_div_mod(a, align);
        lemma_fundamental_div_mod(m, align);
        let p = a / align;
        let q = m / align;
        if q < p {
            assert(align * q + align <= align * p) by (nonlinear_arith)
                requires
                    q < p,
                    align > 0,
            ;
        }
        assert(align * p <= align * q) by (nonlinear_arith)
            requires
                p <= q,
                align > 0,
        ;
    }
}

/// Leaving out one more plane saves its aligned bytes, and with every plane
/// left out nothing is taken.
pub proof fn a_plane_left_out_saves_its_bytes(weights: Weights, left_out: Set<usize>, p: usize)
    requires
        p < weights.bytes@.len() <= usize::MAX,
        !left_out.contains(p),
    ensures
        weights.sum(left_out) == weights.sum(left_out.insert(p)) + align_up(
            weights.bytes@[p as int] as int,
            weights.align as int,
        ),
        (forall|q: usize| q < weights.bytes@.len() ==> left_out.insert(p).contains(q))
            ==> weights.sum(left_out.insert(p)) == 0,
{
    let n = weights.bytes@.len();
    lemma_left_out(weights.bytes@, weights.align as int, left_out, p, n);
    if forall|q: usize| q < weights.bytes@.len() ==> left_out.insert(p).contains(q) {
        lemma_all_left_out(weights.bytes@, weights.align as int, left_out.insert(p), n);
    }
}

proof fn lemma_left_out(bytes: Seq<u64>, align: int, left_out: Set<usize>, p: usize, n: nat)
    requires
        n <= bytes.len() <= usize::MAX,
        p < bytes.len(),
        !left_out.contains(p),
    ensures
        laid_out(bytes, align, left_out, n) == laid_out(bytes, align, left_out.insert(p), n) + if p < n {
            align_up(bytes[p as int] as int, align)
        } else {
            0
        },
    decreases n,
{
    if n > 0 {
        lemma_left_out(bytes, align, left_out, p, (n - 1) as nat);
        assert(p == n - 1 || left_out.insert(p).contains((n - 1) as usize) == left_out.contains(
            (n - 1) as usize,
        ));
    }
}

proof fn lemma_all_left_out(bytes: Seq<u64>, align: int, left_out: Set<usize>, n: nat)
    requires
        n <= bytes.len() <= usize::MAX,
        forall|q: usize| q < bytes.len() ==> left_out.contains(q),
    ensures
        laid_out(bytes, align, left_out, n) == 0,
    decreases n,
{
    if n > 0 {
        lemma_all_left_out(bytes, align, left_out, (n - 1) as nat);
        assert(left_out.contains((n - 1) as usize));
    }
}

} // verus!
