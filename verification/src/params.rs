//! Parameter derivation: from the five primary inputs to the full,
//! validated protocol configuration.
use vstd::arithmetic::div_mod::lemma_fundamental_div_mod;
use vstd::arithmetic::power::lemma_pow_adds;
use vstd::arithmetic::power::lemma_pow_increases;
use vstd::arithmetic::power::pow;
use vstd::arithmetic::power2::lemma2_to64;
use vstd::arithmetic::power2::lemma2_to64_rest;
use vstd::arithmetic::power2::lemma_pow2_strictly_increases;
use vstd::arithmetic::power2::lemma_pow2_unfold;
use vstd::arithmetic::power2::pow2;
use vstd::prelude::*;

use crate::PirError;

verus! {

/// Largest supported element count.
pub const MAX_ELEMENTS: u32 = 0x1000_0000;

/// Largest supported ring-degree exponent (the degree is a power of two).
pub const MAX_LOG_DEGREE: u32 = 16;

/// Smallest supported plaintext-modulus bit length; one modulus residue
/// must hold a full byte.
pub const MIN_LOG_PLAIN: u32 = 8;

/// Largest supported plaintext-modulus bit length; residue products must
/// stay inside 64-bit intermediates.
pub const MAX_LOG_PLAIN: u32 = 32;

/// Largest supported recursion dimension, a validated configuration bound
/// keeping the multiplicative depth well inside the fresh noise budget.
pub const MAX_DIMENSION: u32 = 32;

/// Ceiling division on mathematical integers.
pub open spec fn div_ceil_spec(a: int, b: int) -> int {
    (a + b - 1) / b
}

/// `m` is the least base whose `d`-th power reaches `np`.
pub open spec fn is_min_root(m: int, np: int, d: nat) -> bool {
    &&& 1 <= m
    &&& np <= pow(m, d)
    &&& pow(m - 1, d) < np
}

/// `n` is a supported ring degree: a power of two, not above
/// `pow2(MAX_LOG_DEGREE)`.
pub open spec fn is_ring_degree(n: int) -> bool {
    exists|l: nat| l <= MAX_LOG_DEGREE && n == pow2(l)
}

/// The five primary inputs admit a derived parameter set.
pub open spec fn inputs_admissible(
    ele_num: u32,
    ele_size: u32,
    degree: u32,
    logt: u32,
    d: u32,
) -> bool {
    let epp = degree as int / ele_size as int;
    let np = div_ceil_spec(ele_num as int, epp);
    &&& 1 <= ele_num <= MAX_ELEMENTS
    &&& 1 <= ele_size <= degree
    &&& is_ring_degree(degree as int)
    &&& MIN_LOG_PLAIN <= logt <= MAX_LOG_PLAIN
    &&& 1 <= d <= MAX_DIMENSION
    &&& exists|m: int|
        is_min_root(m, np, d as nat) && m <= degree && pow(m, d as nat) <= usize::MAX
}

/// The full protocol configuration, derived once from the five primary
/// inputs by [`PirParams::derive`]. Every other component requires
/// [`PirParams::wf`], which ties each derived field to the inputs.
pub struct PirParams {
    /// Number of elements the collection must hold.
    pub ele_num: usize,
    /// Exact byte size of every element.
    pub ele_size: usize,
    /// Ring degree: coefficients per plaintext, a power of two.
    pub n: usize,
    /// Exponent of the ring degree: `n == pow2(logn)`.
    pub logn: u32,
    /// Bit length of the plaintext modulus.
    pub logt: u32,
    /// The plaintext modulus itself: `t == pow2(logt)`.
    pub t: u64,
    /// Recursion dimension: number of hypercube axes.
    pub d: usize,
    /// Elements packed into one plaintext.
    pub epp: usize,
    /// Occupied plaintexts: `ceil(ele_num / epp)`.
    pub num_pt: usize,
    /// Size of every hypercube axis.
    pub m: usize,
    /// Padded hypercube volume: `pow(m, d)`.
    pub md: usize,
    /// Ciphertexts per query: `ceil(d * m / n)`.
    pub q_cts: usize,
}

impl PirParams {
    /// Well-formedness: each derived field agrees with the primary inputs.
    pub open spec fn wf(&self) -> bool {
        &&& 1 <= self.ele_num <= MAX_ELEMENTS
        &&& 1 <= self.ele_size <= self.n
        &&& self.logn <= MAX_LOG_DEGREE
        &&& self.n == pow2(self.logn as nat)
        &&& MIN_LOG_PLAIN <= self.logt <= MAX_LOG_PLAIN
        &&& self.t == pow2(self.logt as nat)
        &&& 1 <= self.d <= MAX_DIMENSION
        &&& self.epp == self.n as int / self.ele_size as int
        &&& self.num_pt == div_ceil_spec(self.ele_num as int, self.epp as int)
        &&& 1 <= self.m <= self.n
        &&& is_min_root(self.m as int, self.num_pt as int, self.d as nat)
        &&& self.md == pow(self.m as int, self.d as nat)
        &&& self.q_cts == div_ceil_spec(self.d as int * self.m as int, self.n as int)
    }

    /// Consequences of well-formedness that the other components lean on.
    pub proof fn lemma_wf_bounds(&self)
        requires
            self.wf(),
        ensures
            1 <= self.epp,
            self.epp * self.ele_size <= self.n,
            1 <= self.num_pt <= self.ele_num,
            self.ele_num <= self.num_pt * self.epp,
            self.num_pt * self.epp <= self.ele_num + self.epp - 1,
            self.num_pt <= self.md,
            self.n <= 0x10000,
            256 <= self.t <= 0x1_0000_0000,
            1 <= self.q_cts <= self.d,
            self.d * self.m <= self.q_cts * self.n,
            self.q_cts * self.n <= 0x30_0000,
    {
        let n = self.n as int;
        let s = self.ele_size as int;
        let e = self.ele_num as int;
        let epp = self.epp as int;
        let np = self.num_pt as int;
        let dm = self.d as int * self.m as int;
        assert(self.n <= 0x10000) by {
            lemma_pow2_strictly_increases(self.logn as nat, 17nat);
            lemma2_to64();
        }
        assert(256 <= self.t <= 0x1_0000_0000) by {
            lemma_pow2_strictly_increases(7nat, self.logt as nat);
            lemma_pow2_strictly_increases(self.logt as nat, 33nat);
            lemma2_to64();
            lemma2_to64_rest();
        }
        assert(1 <= epp) by {
            vstd::arithmetic::div_mod::lemma_div_non_zero(n, s);
        }
        assert(epp * s <= n) by {
            lemma_fundamental_div_mod(n, s);
            vstd::arithmetic::div_mod::lemma_mod_bound(n, s);
        }
        assert(1 <= np) by {
            vstd::arithmetic::div_mod::lemma_div_non_zero(e + epp - 1, epp);
        }
        assert(e <= np * epp && np * epp <= e + epp - 1) by {
            lemma_fundamental_div_mod(e + epp - 1, epp);
            vstd::arithmetic::div_mod::lemma_mod_bound(e + epp - 1, epp);
        }
        assert(np <= e) by {
            assert(e + epp - 1 <= e * epp + (epp - 1)) by (nonlinear_arith)
                requires
                    1 <= e && 1 <= epp,
            ;
            assert((e * epp + (epp - 1)) / epp == e) by {
                vstd::arithmetic::div_mod::lemma_div_multiples_vanish_fancy(e, epp - 1, epp);
            }
            vstd::arithmetic::div_mod::lemma_div_is_ordered(e + epp - 1, e * epp + (epp - 1), epp);
        }
        assert(np <= self.md);
        assert(1 <= dm) by (nonlinear_arith)
            requires
                1 <= self.d && 1 <= self.m,
                dm == self.d as int * self.m as int,
        ;
        assert(1 <= self.q_cts) by {
            vstd::arithmetic::div_mod::lemma_div_non_zero(dm + n - 1, n);
        }
        assert(dm <= self.q_cts * n) by {
            lemma_fundamental_div_mod(dm + n - 1, n);
            vstd::arithmetic::div_mod::lemma_mod_bound(dm + n - 1, n);
        }
        assert(self.q_cts <= self.d) by {
            assert(dm + n - 1 <= self.d as int * n + (n - 1)) by (nonlinear_arith)
                requires
                    self.m <= self.n && 1 <= self.d,
                    dm == self.d as int * self.m as int,
                    n == self.n as int,
            ;
            assert((self.d as int * n + (n - 1)) / n == self.d as int) by {
                vstd::arithmetic::div_mod::lemma_div_multiples_vanish_fancy(
                    self.d as int,
                    n - 1,
                    n,
                );
            }
            vstd::arithmetic::div_mod::lemma_div_is_ordered(
                dm + n - 1,
                self.d as int * n + (n - 1),
                n,
            );
        }
        assert(self.q_cts * n <= 0x30_0000) by (nonlinear_arith)
            requires
                self.q_cts <= self.d,
                self.d <= 32,
                self.n <= 0x10000,
                0 <= self.q_cts,
                n == self.n as int,
        ;
    }
}

/// Base-monotonicity of `pow`: raising a larger base to the same power
/// yields at least as large a result.
pub proof fn lemma_pow_base_le(a: int, b: int, e: nat)
    requires
        0 <= a <= b,
    ensures
        pow(a, e) <= pow(b, e),
    decreases e,
{
    reveal(pow);
    if e > 0 && a < b {
        lemma_pow_base_le(a, b, (e - 1) as nat);
        lemma_pow_nonneg(a, (e - 1) as nat);
        assert(pow(a, e) == a * pow(a, (e - 1) as nat));
        assert(pow(b, e) == b * pow(b, (e - 1) as nat));
        assert(a * pow(a, (e - 1) as nat) <= b * pow(b, (e - 1) as nat)) by (nonlinear_arith)
            requires
                0 <= a <= b,
                0 <= pow(a, (e - 1) as nat) <= pow(b, (e - 1) as nat),
        ;
    }
}

/// A nonnegative base keeps every power nonnegative.
pub proof fn lemma_pow_nonneg(a: int, e: nat)
    requires
        0 <= a,
    ensures
        0 <= pow(a, e),
    decreases e,
{
    reveal(pow);
    if e > 0 {
        lemma_pow_nonneg(a, (e - 1) as nat);
        assert(0 <= a * pow(a, (e - 1) as nat)) by (nonlinear_arith)
            requires
                0 <= a,
                0 <= pow(a, (e - 1) as nat),
        ;
    }
}

/// The least `d`-th root above `np` is unique.
pub proof fn lemma_min_root_unique(m1: int, m2: int, np: int, d: nat)
    requires
        is_min_root(m1, np, d),
        is_min_root(m2, np, d),
    ensures
        m1 == m2,
{
    if m1 < m2 {
        lemma_pow_base_le(m1, m2 - 1, d);
        assert(false);
    }
    if m2 < m1 {
        lemma_pow_base_le(m2, m1 - 1, d);
        assert(false);
    }
}

/// **Derivation is deterministic.** Two well-formed parameter sets that
/// agree on the five primary inputs agree on every derived field too: a
/// client and a server built from one configuration share one parameter
/// set.
pub proof fn lemma_params_deterministic(p1: PirParams, p2: PirParams)
    requires
        p1.wf(),
        p2.wf(),
        p1.ele_num == p2.ele_num,
        p1.ele_size == p2.ele_size,
        p1.n == p2.n,
        p1.logt == p2.logt,
        p1.d == p2.d,
    ensures
        p1 == p2,
{
    assert(p1.epp == p2.epp);
    assert(p1.num_pt == p2.num_pt);
    lemma_min_root_unique(p1.m as int, p2.m as int, p1.num_pt as int, p1.d as nat);
    assert(p1.m == p2.m);
    assert(p1.md == p2.md);
    assert(p1.q_cts == p2.q_cts);
    assert(p1.t == p2.t);
    assert(p1.logn == p2.logn) by {
        if p1.logn < p2.logn {
            lemma_pow2_strictly_increases(p1.logn as nat, p2.logn as nat);
        }
        if p2.logn < p1.logn {
            lemma_pow2_strictly_increases(p2.logn as nat, p1.logn as nat);
        }
    }
}

/// Even the whole slot capacity of one plaintext cannot cover the
/// occupied plaintexts, so no axis size is admissible.
proof fn lemma_no_root_within_capacity(np: int, d: nat, n: int)
    requires
        1 <= n,
        pow(n, d) < np,
    ensures
        !(exists|mx: int| is_min_root(mx, np, d) && mx <= n && pow(mx, d) <= usize::MAX),
{
    assert forall|mx: int| is_min_root(mx, np, d) implies !(mx <= n) by {
        if mx <= n {
            lemma_pow_base_le(mx, n, d);
        }
    }
}

/// The minimal axis size makes the padded hypercube unaddressable, so no
/// axis size is admissible.
proof fn lemma_no_root_fits(m: int, np: int, d: nat, n: int)
    requires
        1 <= m <= n,
        1 <= np,
        pow(m - 1, d) < np,
        pow(m, d) > usize::MAX,
    ensures
        !(exists|mx: int| is_min_root(mx, np, d) && mx <= n && pow(mx, d) <= usize::MAX),
{
    assert forall|mx: int| is_min_root(mx, np, d) implies !(pow(mx, d) <= usize::MAX) by {
        if mx < m {
            lemma_pow_base_le(mx, m - 1, d);
            assert(false);
        } else {
            lemma_pow_base_le(m, mx, d);
        }
    }
}

/// `pow(b, e)` with overflow detection.
fn pow_checked(b: usize, e: usize) -> (r: Option<usize>)
    requires
        1 <= b,
    ensures
        match r {
            Some(v) => v == pow(b as int, e as nat),
            None => pow(b as int, e as nat) > usize::MAX,
        },
{
    let mut acc: usize = 1;
    let mut i: usize = 0;
    proof {
        vstd::arithmetic::power::lemma_pow0(b as int);
    }
    while i < e
        invariant
            i <= e,
            acc == pow(b as int, i as nat),
        decreases e - i,
    {
        proof {
            lemma_pow_adds(b as int, i as nat, 1nat);
            vstd::arithmetic::power::lemma_pow1(b as int);
        }
        match acc.checked_mul(b) {
            Some(v) => {
                acc = v;
            },
            None => {
                proof {
                    lemma_pow_increases(b as nat, (i + 1) as nat, e as nat);
                }
                return None;
            },
        }
        i += 1;
    }
    Some(acc)
}

/// Ceiling division.
fn div_ceil(a: usize, b: usize) -> (r: usize)
    requires
        1 <= b,
        a + b <= usize::MAX,
    ensures
        r == div_ceil_spec(a as int, b as int),
{
    (a + b - 1) / b
}

/// `pow2(e)` for small exponents.
fn pow2_u64(e: u32) -> (r: u64)
    requires
        e <= 32,
    ensures
        r == pow2(e as nat),
{
    let mut acc: u64 = 1;
    let mut i: u32 = 0;
    proof {
        lemma2_to64();
    }
    while i < e
        invariant
            i <= e,
            e <= 32,
            acc == pow2(i as nat),
            acc <= 0x1_0000_0000,
        decreases e - i,
    {
        proof {
            lemma_pow2_unfold((i + 1) as nat);
            if i + 1 < 33 {
                lemma_pow2_strictly_increases((i + 1) as nat, 33nat);
                lemma2_to64_rest();
            }
        }
        acc = acc * 2;
        i = i + 1;
    }
    acc
}

impl PirParams {
    /// Derives the full configuration from the five primary inputs.
    /// Succeeds exactly on admissible inputs; on success every derived
    /// field is pinned by `wf` together with the echoed inputs.
    pub fn derive(ele_num: u32, ele_size: u32, degree: u32, logt: u32, d: u32) -> (r: Result<
        PirParams,
        PirError,
    >)
        ensures
            match r {
                Ok(p) => {
                    &&& p.wf()
                    &&& p.ele_num == ele_num
                    &&& p.ele_size == ele_size
                    &&& p.n == degree
                    &&& p.logt == logt
                    &&& p.d == d
                    &&& inputs_admissible(ele_num, ele_size, degree, logt, d)
                },
                Err(e) => {
                    &&& e == PirError::ParameterError
                    &&& !inputs_admissible(ele_num, ele_size, degree, logt, d)
                },
            },
    {
        if ele_num < 1 || ele_num > MAX_ELEMENTS {
            return Err(PirError::ParameterError);
        }
        if ele_size < 1 || ele_size > degree {
            return Err(PirError::ParameterError);
        }
        if logt < MIN_LOG_PLAIN || logt > MAX_LOG_PLAIN {
            return Err(PirError::ParameterError);
        }
        if d < 1 || d > MAX_DIMENSION {
            return Err(PirError::ParameterError);
        }
        // The degree must be a power of two no larger than the cap.
        let mut p: usize = 1;
        let mut l: u32 = 0;
        proof {
            lemma2_to64();
        }
        while l < MAX_LOG_DEGREE && p < degree as usize
            invariant
                l <= MAX_LOG_DEGREE,
                p == pow2(l as nat),
                p <= 0x10000,
                forall|k: nat| k < l ==> pow2(k) < degree,
            decreases MAX_LOG_DEGREE - l,
        {
            proof {
                lemma_pow2_unfold((l + 1) as nat);
                if l + 1 < 16 {
                    lemma_pow2_strictly_increases((l + 1) as nat, 16nat);
                }
            }
            p = p * 2;
            l = l + 1;
        }
        if p != degree as usize {
            proof {
                assert forall|lx: nat| lx <= MAX_LOG_DEGREE implies degree != pow2(lx) by {
                    if lx < l {
                    } else if lx == l {
                    } else {
                        lemma_pow2_strictly_increases(l as nat, lx);
                    }
                }
            }
            return Err(PirError::ParameterError);
        }
        let n = degree as usize;
        let epp = n / (ele_size as usize);
        proof {
            vstd::arithmetic::div_mod::lemma_div_non_zero(n as int, ele_size as int);
        }
        let num_pt = div_ceil(ele_num as usize, epp);
        proof {
            vstd::arithmetic::div_mod::lemma_div_non_zero(
                ele_num as int + epp as int - 1,
                epp as int,
            );
            vstd::arithmetic::power::lemma0_pow(d as nat);
        }
        // Find the least axis size whose d-th power covers the plaintexts.
        let mut m: usize = 1;
        loop
            invariant
                1 <= m <= n,
                1 <= num_pt,
                pow(m as int - 1, d as nat) < num_pt,
            decreases n - m,
        {
            match pow_checked(m, d as usize) {
                Some(v) => {
                    if v >= num_pt {
                        // `m` is the least admissible axis size.
                        let md = v;
                        proof {
                            assert(d as int * m as int <= 0x20_0000) by (nonlinear_arith)
                                requires
                                    d <= 32 && 1 <= m <= 0x10000,
                            ;
                        }
                        let dm = (d as usize) * m;
                        let q_cts = div_ceil(dm, n);
                        let t_val = pow2_u64(logt);
                        let ret = PirParams {
                            ele_num: ele_num as usize,
                            ele_size: ele_size as usize,
                            n,
                            logn: l,
                            logt,
                            t: t_val,
                            d: d as usize,
                            epp,
                            num_pt,
                            m,
                            md,
                            q_cts,
                        };
                        proof {
                            assert(is_min_root(m as int, num_pt as int, d as nat));
                            assert(ret.wf());
                            assert(m <= degree && pow(m as int, d as nat) <= usize::MAX);
                            assert(l as nat <= MAX_LOG_DEGREE && degree == pow2(l as nat));
                            assert(is_ring_degree(degree as int));
                        }
                        return Ok(ret);
                    } else if m == n {
                        // The least axis size exceeds one plaintext's slots.
                        proof {
                            lemma_no_root_within_capacity(num_pt as int, d as nat, n as int);
                        }
                        return Err(PirError::ParameterError);
                    } else {
                        m = m + 1;
                    }
                },
                None => {
                    // The padded hypercube would not be addressable.
                    proof {
                        lemma_no_root_fits(m as int, num_pt as int, d as nat, n as int);
                    }
                    return Err(PirError::ParameterError);
                },
            }
        }
    }
}

} // verus!
