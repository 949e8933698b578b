//! The homomorphic arithmetic backend: plaintext coefficient vectors and
//! ciphertexts carrying them, with slot-wise modular addition and
//! multiplication, cyclic slot rotation, and a tracked noise budget.
//!
//! Ciphertexts are modelled transparently: a ciphertext records the key it
//! was produced under, the remaining noise budget, and its coefficient
//! vector, and every operation states its slot-wise effect exactly. The
//! protocol engine above is verified against these operations alone, so it
//! carries over to any backend realizing the same algebra.
use vstd::prelude::*;

verus! {

/// Noise budget of a freshly encrypted ciphertext. Each multiplication
/// consumes one level; decryption demands a positive remainder. The
/// validated bound on the recursion dimension keeps every reply well
/// inside this budget.
pub const FRESH_NOISE: u32 = 64;

/// Every entry of `s` lies below the modulus `t`.
pub open spec fn all_lt(s: Seq<u64>, t: u64) -> bool {
    forall|i: int| 0 <= i < s.len() ==> s[i] < t
}

/// Slot-wise sum modulo `t`.
pub open spec fn seq_add_mod(a: Seq<u64>, b: Seq<u64>, t: u64) -> Seq<u64> {
    Seq::new(a.len(), |i: int| ((a[i] + b[i]) % (t as int)) as u64)
}

/// Slot-wise product modulo `t`.
pub open spec fn seq_mul_mod(a: Seq<u64>, b: Seq<u64>, t: u64) -> Seq<u64> {
    Seq::new(a.len(), |i: int| ((a[i] * b[i]) % (t as int)) as u64)
}

/// Cyclic rotation moving slot `r` to slot 0.
pub open spec fn seq_rot(a: Seq<u64>, r: int) -> Seq<u64> {
    Seq::new(a.len(), |i: int| a[(i + r) % (a.len() as int)])
}

/// The sequence of `len` copies of `v`.
pub open spec fn const_seq(len: nat, v: u64) -> Seq<u64> {
    Seq::new(len, |i: int| v)
}

/// One noise level consumed, saturating at zero.
pub open spec fn dec1(x: u32) -> u32 {
    if x > 0 {
        (x - 1) as u32
    } else {
        0
    }
}

/// The smaller of two noise budgets.
pub open spec fn min_u32(a: u32, b: u32) -> u32 {
    if a <= b {
        a
    } else {
        b
    }
}

/// The client-held decryption key.
pub struct SecretKey {
    pub id: u64,
}

/// The matching encryption key; safe to embed in ciphertexts.
pub struct PublicKey {
    pub id: u64,
}

/// The key enabling slot rotation of a client's ciphertexts without
/// decryption; safe to hand to the server.
pub struct RotationKey {
    pub id: u64,
}

/// A ciphertext: the key it was produced under, the remaining noise
/// budget, and one coefficient vector.
pub struct Ciphertext {
    pub key_id: u64,
    pub noise: u32,
    pub coeffs: Vec<u64>,
}

impl Ciphertext {
    /// Shape invariant: `n` slots, every residue below `t`.
    pub open spec fn wf(&self, n: int, t: u64) -> bool {
        &&& self.coeffs@.len() == n
        &&& all_lt(self.coeffs@, t)
    }

    /// The remaining noise budget; decryption demands it be positive.
    pub fn noise_budget(&self) -> (r: u32)
        ensures
            r == self.noise,
    {
        self.noise
    }
}

/// Encrypts a coefficient vector under `pk` with a fresh noise budget.
pub fn encrypt(pk: &PublicKey, coeffs: Vec<u64>) -> (r: Ciphertext)
    ensures
        r.key_id == pk.id,
        r.noise == FRESH_NOISE,
        r.coeffs@ == coeffs@,
{
    Ciphertext { key_id: pk.id, noise: FRESH_NOISE, coeffs }
}

/// Decrypts a ciphertext: yields its coefficient vector exactly when the
/// key matches and the noise budget is not exhausted.
pub fn decrypt(sk: &SecretKey, ct: &Ciphertext) -> (r: Option<Vec<u64>>)
    ensures
        match r {
            Some(v) => sk.id == ct.key_id && ct.noise > 0 && v@ == ct.coeffs@,
            None => sk.id != ct.key_id || ct.noise == 0,
        },
{
    if sk.id == ct.key_id && ct.noise > 0 {
        let mut out: Vec<u64> = Vec::new();
        let mut i: usize = 0;
        while i < ct.coeffs.len()
            invariant
                i <= ct.coeffs@.len(),
                out@ == ct.coeffs@.subrange(0, i as int),
            decreases ct.coeffs@.len() - i,
        {
            out.push(ct.coeffs[i]);
            proof {
                assert(out@ =~= ct.coeffs@.subrange(0, i + 1));
            }
            i += 1;
        }
        proof {
            assert(out@ =~= ct.coeffs@);
        }
        Some(out)
    } else {
        None
    }
}

/// Homomorphic slot-wise addition.
pub fn ct_add(a: &Ciphertext, b: &Ciphertext, n: usize, t: u64) -> (r: Ciphertext)
    requires
        a.wf(n as int, t),
        b.wf(n as int, t),
        1 <= t <= 0x1_0000_0000,
    ensures
        r.wf(n as int, t),
        r.coeffs@ == seq_add_mod(a.coeffs@, b.coeffs@, t),
        r.key_id == a.key_id,
        r.noise == min_u32(a.noise, b.noise),
{
    let mut out: Vec<u64> = Vec::new();
    let mut i: usize = 0;
    while i < n
        invariant
            i <= n,
            out@.len() == i,
            forall|j: int| 0 <= j < i ==> out@[j] == seq_add_mod(a.coeffs@, b.coeffs@, t)[j],
        decreases n - i,
    {
        let v = (a.coeffs[i] + b.coeffs[i]) % t;
        out.push(v);
        i += 1;
    }
    proof {
        assert(out@ =~= seq_add_mod(a.coeffs@, b.coeffs@, t));
    }
    let noise = if a.noise <= b.noise {
        a.noise
    } else {
        b.noise
    };
    Ciphertext { key_id: a.key_id, noise, coeffs: out }
}

/// Homomorphic slot-wise multiplication by a plaintext vector; consumes
/// one noise level.
pub fn ct_mul_plain(a: &Ciphertext, p: &Vec<u64>, n: usize, t: u64) -> (r: Ciphertext)
    requires
        a.wf(n as int, t),
        p@.len() == n,
        all_lt(p@, t),
        1 <= t <= 0x1_0000_0000,
    ensures
        r.wf(n as int, t),
        r.coeffs@ == seq_mul_mod(a.coeffs@, p@, t),
        r.key_id == a.key_id,
        r.noise == dec1(a.noise),
{
    let mut out: Vec<u64> = Vec::new();
    let mut i: usize = 0;
    while i < n
        invariant
            i <= n,
            out@.len() == i,
            forall|j: int| 0 <= j < i ==> out@[j] == seq_mul_mod(a.coeffs@, p@, t)[j],
        decreases n - i,
    {
        proof {
            assert(a.coeffs@[i as int] * p@[i as int] <= u64::MAX) by (nonlinear_arith)
                requires
                    a.coeffs@[i as int] < 0x1_0000_0000,
                    p@[i as int] < 0x1_0000_0000,
            ;
        }
        let v = (a.coeffs[i] * p[i]) % t;
        out.push(v);
        i += 1;
    }
    proof {
        assert(out@ =~= seq_mul_mod(a.coeffs@, p@, t));
    }
    let noise = if a.noise > 0 {
        a.noise - 1
    } else {
        0
    };
    Ciphertext { key_id: a.key_id, noise, coeffs: out }
}

/// Homomorphic slot-wise multiplication of two ciphertexts; consumes one
/// noise level below the smaller budget.
pub fn ct_mul(a: &Ciphertext, b: &Ciphertext, n: usize, t: u64) -> (r: Ciphertext)
    requires
        a.wf(n as int, t),
        b.wf(n as int, t),
        1 <= t <= 0x1_0000_0000,
    ensures
        r.wf(n as int, t),
        r.coeffs@ == seq_mul_mod(a.coeffs@, b.coeffs@, t),
        r.key_id == a.key_id,
        r.noise == dec1(min_u32(a.noise, b.noise)),
{
    let mut out: Vec<u64> = Vec::new();
    let mut i: usize = 0;
    while i < n
        invariant
            i <= n,
            out@.len() == i,
            forall|j: int| 0 <= j < i ==> out@[j] == seq_mul_mod(a.coeffs@, b.coeffs@, t)[j],
        decreases n - i,
    {
        proof {
            assert(a.coeffs@[i as int] * b.coeffs@[i as int] <= u64::MAX) by (nonlinear_arith)
                requires
                    a.coeffs@[i as int] < 0x1_0000_0000,
                    b.coeffs@[i as int] < 0x1_0000_0000,
            ;
        }
        let v = (a.coeffs[i] * b.coeffs[i]) % t;
        out.push(v);
        i += 1;
    }
    proof {
        assert(out@ =~= seq_mul_mod(a.coeffs@, b.coeffs@, t));
    }
    let noise = if a.noise <= b.noise {
        a.noise
    } else {
        b.noise
    };
    let noise = if noise > 0 {
        noise - 1
    } else {
        0
    };
    Ciphertext { key_id: a.key_id, noise, coeffs: out }
}

/// Fused multiply-accumulate against a plaintext vector: one pass
/// computing `acc + b * p` slot-wise modulo `t`; consumes one noise
/// level of `b`.
pub fn ct_mul_plain_add(acc: &Ciphertext, b: &Ciphertext, p: &Vec<u64>, n: usize, t: u64) -> (r:
    Ciphertext)
    requires
        acc.wf(n as int, t),
        b.wf(n as int, t),
        p@.len() == n,
        all_lt(p@, t),
        1 <= t <= 0x1_0000_0000,
    ensures
        r.wf(n as int, t),
        r.coeffs@ == seq_add_mod(acc.coeffs@, seq_mul_mod(b.coeffs@, p@, t), t),
        r.key_id == acc.key_id,
        r.noise == min_u32(acc.noise, dec1(b.noise)),
{
    let mut out: Vec<u64> = Vec::with_capacity(n);
    let mut i: usize = 0;
    while i < n
        invariant
            i <= n,
            out@.len() == i,
            forall|j: int|
                0 <= j < i ==> out@[j] == seq_add_mod(
                    acc.coeffs@,
                    seq_mul_mod(b.coeffs@, p@, t),
                    t,
                )[j],
        decreases n - i,
    {
        proof {
            assert(b.coeffs@[i as int] * p@[i as int] <= u64::MAX) by (nonlinear_arith)
                requires
                    b.coeffs@[i as int] < 0x1_0000_0000,
                    p@[i as int] < 0x1_0000_0000,
            ;
        }
        let v = (acc.coeffs[i] + (b.coeffs[i] * p[i]) % t) % t;
        out.push(v);
        i += 1;
    }
    proof {
        assert(out@ =~= seq_add_mod(acc.coeffs@, seq_mul_mod(b.coeffs@, p@, t), t));
    }
    let noise_b = if b.noise > 0 {
        b.noise - 1
    } else {
        0
    };
    let noise = if acc.noise <= noise_b {
        acc.noise
    } else {
        noise_b
    };
    Ciphertext { key_id: acc.key_id, noise, coeffs: out }
}

/// Fused multiply-accumulate of two ciphertexts: one pass computing
/// `acc + b * c` slot-wise modulo `t`; consumes one noise level below
/// the smaller of `b`'s and `c`'s budgets.
pub fn ct_mul_add(acc: &Ciphertext, b: &Ciphertext, c: &Ciphertext, n: usize, t: u64) -> (r:
    Ciphertext)
    requires
        acc.wf(n as int, t),
        b.wf(n as int, t),
        c.wf(n as int, t),
        1 <= t <= 0x1_0000_0000,
    ensures
        r.wf(n as int, t),
        r.coeffs@ == seq_add_mod(acc.coeffs@, seq_mul_mod(b.coeffs@, c.coeffs@, t), t),
        r.key_id == acc.key_id,
        r.noise == min_u32(acc.noise, dec1(min_u32(b.noise, c.noise))),
{
    let mut out: Vec<u64> = Vec::with_capacity(n);
    let mut i: usize = 0;
    while i < n
        invariant
            i <= n,
            out@.len() == i,
            forall|j: int|
                0 <= j < i ==> out@[j] == seq_add_mod(
                    acc.coeffs@,
                    seq_mul_mod(b.coeffs@, c.coeffs@, t),
                    t,
                )[j],
        decreases n - i,
    {
        proof {
            assert(b.coeffs@[i as int] * c.coeffs@[i as int] <= u64::MAX) by (nonlinear_arith)
                requires
                    b.coeffs@[i as int] < 0x1_0000_0000,
                    c.coeffs@[i as int] < 0x1_0000_0000,
            ;
        }
        let v = (acc.coeffs[i] + (b.coeffs[i] * c.coeffs[i]) % t) % t;
        out.push(v);
        i += 1;
    }
    proof {
        assert(out@ =~= seq_add_mod(acc.coeffs@, seq_mul_mod(b.coeffs@, c.coeffs@, t), t));
    }
    let noise_bc = if b.noise <= c.noise {
        b.noise
    } else {
        c.noise
    };
    let noise_bc = if noise_bc > 0 {
        noise_bc - 1
    } else {
        0
    };
    let noise = if acc.noise <= noise_bc {
        acc.noise
    } else {
        noise_bc
    };
    Ciphertext { key_id: acc.key_id, noise, coeffs: out }
}

/// Cyclic rotation of the slot contents, moving slot `r` to slot 0, by
/// the Galois automorphism that `rk` enables.
pub fn ct_rotate(a: &Ciphertext, r: usize, rk: &RotationKey, n: usize, t: u64) -> (res: Ciphertext)
    requires
        a.wf(n as int, t),
        r < n,
        1 <= n <= 0x10000,
    ensures
        res.wf(n as int, t),
        res.coeffs@ == seq_rot(a.coeffs@, r as int),
        res.key_id == a.key_id,
        res.noise == a.noise,
{
    let _ = rk.id;
    let mut out: Vec<u64> = Vec::new();
    let mut i: usize = 0;
    while i < n
        invariant
            i <= n,
            out@.len() == i,
            forall|j: int| 0 <= j < i ==> out@[j] == seq_rot(a.coeffs@, r as int)[j],
        decreases n - i,
    {
        let src = (i + r) % n;
        out.push(a.coeffs[src]);
        i += 1;
    }
    proof {
        assert(out@ =~= seq_rot(a.coeffs@, r as int));
    }
    Ciphertext { key_id: a.key_id, noise: a.noise, coeffs: out }
}

/// The all-zero plaintext vector.
pub fn pt_zero(n: usize) -> (r: Vec<u64>)
    ensures
        r@ == const_seq(n as nat, 0u64),
{
    let mut out: Vec<u64> = Vec::new();
    let mut i: usize = 0;
    while i < n
        invariant
            i <= n,
            out@.len() == i,
            forall|j: int| 0 <= j < i ==> out@[j] == 0u64,
        decreases n - i,
    {
        out.push(0u64);
        i += 1;
    }
    proof {
        assert(out@ =~= const_seq(n as nat, 0u64));
    }
    out
}

} // verus!
