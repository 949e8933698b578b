//! The mathematical model of the protocol: what a query's slot pattern
//! says, what the server's multiply-and-reduce computes, and what decoding
//! yields — all as spec functions, tied to the executable code by the
//! contracts in the client and server modules.
use vstd::arithmetic::div_mod::lemma_breakdown;
use vstd::arithmetic::div_mod::lemma_div_multiples_vanish_fancy;
use vstd::arithmetic::div_mod::lemma_fundamental_div_mod;
use vstd::arithmetic::div_mod::lemma_mod_bound;
use vstd::arithmetic::div_mod::lemma_small_mod;
use vstd::arithmetic::power::lemma_pow1;
use vstd::arithmetic::power::lemma_pow_adds;
use vstd::arithmetic::power::lemma_pow_positive;
use vstd::arithmetic::power::pow;
use vstd::prelude::*;

use crate::backend::all_lt;
use crate::backend::const_seq;
use crate::backend::seq_add_mod;
use crate::backend::FRESH_NOISE;
use crate::params::PirParams;
use crate::wire::blocks_wf;
use crate::wire::coeff_at;
use crate::wire::ct_size_spec;
use crate::wire::key_at;
use crate::wire::noise_at;
use crate::PirError;

verus! {

/// Digit `k` of `i` written in base `m`.
pub open spec fn digit(i: int, k: int, m: int) -> int {
    (i / pow(m, k as nat)) % m
}

/// The intended value of slot `p` of the concatenated selection vector
/// for target plaintext `pt_idx`: dimension `p / m` selects its digit.
pub open spec fn query_slot_val(prm: PirParams, pt_idx: int, p: int) -> u64 {
    let k = p / prm.m as int;
    let j = p % prm.m as int;
    if k < prm.d && j == digit(pt_idx, k, prm.m as int) {
        1u64
    } else {
        0u64
    }
}

/// Slot `p` of the selection vector as framed in the query bytes.
pub open spec fn q_slot(prm: PirParams, qb: Seq<u8>, p: int) -> u64 {
    coeff_at(qb, (p / prm.n as int) * ct_size_spec(prm.n as int), p % prm.n as int)
}

/// Block `c` of the query carries `key` and a fresh noise budget.
pub open spec fn qblock_head_ok(prm: PirParams, qb: Seq<u8>, c: int, key: u64) -> bool {
    &&& key_at(qb, c * ct_size_spec(prm.n as int)) == key
    &&& noise_at(qb, c * ct_size_spec(prm.n as int)) == FRESH_NOISE
}

/// `qb` with count `num` is a well-formed query of client `key` asking
/// for plaintext `pt_idx`.
pub open spec fn is_query_for(
    prm: PirParams,
    qb: Seq<u8>,
    num: nat,
    key: u64,
    pt_idx: int,
) -> bool {
    &&& num == prm.q_cts
    &&& blocks_wf(qb, num, prm.n as nat, prm.t)
    &&& forall|c: int| 0 <= c < num ==> #[trigger] qblock_head_ok(prm, qb, c, key)
    &&& forall|p: int|
        0 <= p < num * prm.n ==> #[trigger] q_slot(prm, qb, p) == query_slot_val(prm, pt_idx, p)
}

/// `v` times each slot of `row`, modulo `t`.
pub open spec fn scale_mod(v: u64, row: Seq<u64>, t: u64) -> Seq<u64> {
    Seq::new(row.len(), |c: int| ((v * row[c]) % (t as int)) as u64)
}

/// The selection value of dimension `k`, position `j`, as framed in the
/// query bytes.
pub open spec fn sel_val(prm: PirParams, qb: Seq<u8>, k: int, j: int) -> u64 {
    q_slot(prm, qb, k * prm.m as int + j)
}

/// Left fold of the first `jc` scaled rows of one reduction group.
pub open spec fn row_fold(
    prm: PirParams,
    qb: Seq<u8>,
    k: int,
    rows: Seq<Seq<u64>>,
    base: int,
    jc: nat,
) -> Seq<u64>
    decreases jc,
{
    if jc == 0 {
        const_seq(prm.n as nat, 0u64)
    } else {
        seq_add_mod(
            row_fold(prm, qb, k, rows, base, (jc - 1) as nat),
            scale_mod(sel_val(prm, qb, k, jc - 1), rows[base + jc - 1], prm.t),
            prm.t,
        )
    }
}

/// One reduction round over dimension `k`: every group of `m` adjacent
/// rows collapses to its selection-weighted sum.
pub open spec fn pass(prm: PirParams, qb: Seq<u8>, k: int, rows: Seq<Seq<u64>>) -> Seq<Seq<u64>> {
    Seq::new(
        rows.len() / prm.m as nat,
        |r: int| row_fold(prm, qb, k, rows, r * prm.m as int, prm.m as nat),
    )
}

/// The hypercube after the first `k` reduction rounds.
pub open spec fn fold_upto(prm: PirParams, qb: Seq<u8>, rows0: Seq<Seq<u64>>, k: nat) -> Seq<
    Seq<u64>,
>
    decreases k,
{
    if k == 0 {
        rows0
    } else {
        pass(prm, qb, (k - 1) as int, fold_upto(prm, qb, rows0, (k - 1) as nat))
    }
}

/// The coefficients of the reply ciphertext: the hypercube collapsed by
/// all `d` rounds.
pub open spec fn reply_coeffs(prm: PirParams, qb: Seq<u8>, rows0: Seq<Seq<u64>>) -> Seq<u64> {
    fold_upto(prm, qb, rows0, prm.d as nat)[0]
}

/// `rb` with count `num` frames a reply of client `key` carrying exactly
/// the coefficients `coeffs`.
pub open spec fn is_reply_of(
    prm: PirParams,
    rb: Seq<u8>,
    num: nat,
    key: u64,
    coeffs: Seq<u64>,
) -> bool {
    &&& num == 1
    &&& blocks_wf(rb, num, prm.n as nat, prm.t)
    &&& key_at(rb, 0) == key
    &&& noise_at(rb, 0) > 0
    &&& coeffs_at_start(prm, rb) == coeffs
}

/// The slots of the first reply block.
pub open spec fn coeffs_at_start(prm: PirParams, rb: Seq<u8>) -> Seq<u64> {
    crate::wire::coeffs_at(rb, 0, prm.n as nat)
}

/// Block `c` of a reply decrypts under `key`: matching key, noise left.
pub open spec fn rblock_ok(prm: PirParams, rb: Seq<u8>, c: int, key: u64) -> bool {
    &&& key_at(rb, c * ct_size_spec(prm.n as int)) == key
    &&& noise_at(rb, c * ct_size_spec(prm.n as int)) > 0
}

/// Every block of the reply decrypts under `key`.
pub open spec fn blocks_decryptable(prm: PirParams, rb: Seq<u8>, num: nat, key: u64) -> bool {
    forall|c: int| 0 <= c < num ==> #[trigger] rblock_ok(prm, rb, c, key)
}

/// The decrypted reply laid out as one flat slot buffer.
pub open spec fn reply_buf(prm: PirParams, rb: Seq<u8>, num: nat) -> Seq<u64> {
    Seq::new(
        num * prm.n as nat,
        |i: int|
            coeff_at(rb, (i / prm.n as int) * ct_size_spec(prm.n as int), i % prm.n as int),
    )
}

/// What decoding a reply yields for element `idx`: the element's bytes
/// sliced out of the decrypted buffer at its fixed offset, or the exact
/// error the reply deserves.
pub open spec fn decode_spec(prm: PirParams, key: u64, idx: int, rb: Seq<u8>, num: nat) -> Result<
    Seq<u8>,
    PirError,
> {
    if !(0 <= idx < prm.ele_num) {
        Err(PirError::IndexOutOfRange)
    } else if !blocks_wf(rb, num, prm.n as nat, prm.t) {
        Err(PirError::MalformedBytes)
    } else if !blocks_decryptable(prm, rb, num, key) {
        Err(PirError::DecodeError)
    } else {
        let off = (idx % prm.epp as int) * prm.ele_size as int;
        let buf = reply_buf(prm, rb, num);
        if off + prm.ele_size > buf.len() {
            Err(PirError::DecodeError)
        } else if exists|b: int| 0 <= b < prm.ele_size && #[trigger] buf[off + b] >= 256 {
            Err(PirError::DecodeError)
        } else {
            Ok(Seq::new(prm.ele_size as nat, |b: int| buf[off + b] as u8))
        }
    }
}

/// Block `c` of the query carries a fresh noise budget.
pub open spec fn query_noise_fresh(prm: PirParams, qb: Seq<u8>, num: nat) -> bool {
    forall|c: int|
        0 <= c < num ==> #[trigger] noise_at(qb, c * ct_size_spec(prm.n as int)) == FRESH_NOISE
}

/// `v` in the first `w` slots, zero in the rest.
pub open spec fn prefix_seq(n: nat, v: u64, w: int) -> Seq<u64> {
    Seq::new(n, |c: int| if c < w {
        v
    } else {
        0u64
    })
}

/// Multiplying by a constant vector is scaling.
pub proof fn lemma_mul_const_scale(n: nat, v: u64, row: Seq<u64>, t: u64)
    requires
        row.len() == n,
    ensures
        crate::backend::seq_mul_mod(const_seq(n, v), row, t) == scale_mod(v, row, t),
{
    assert(crate::backend::seq_mul_mod(const_seq(n, v), row, t) =~= scale_mod(v, row, t));
}

/// One doubling step of the broadcast: adding the vector to its own
/// rotation doubles the filled prefix.
pub proof fn lemma_broadcast_step(n: nat, v: u64, w: int, t: u64)
    requires
        1 <= w,
        2 * w <= n,
        v < t,
        1 <= t,
    ensures
        seq_add_mod(
            prefix_seq(n, v, w),
            crate::backend::seq_rot(prefix_seq(n, v, w), n - w),
            t,
        ) == prefix_seq(n, v, 2 * w),
{
    let a = prefix_seq(n, v, w);
    let rot = crate::backend::seq_rot(a, n - w);
    let sum = seq_add_mod(a, rot, t);
    assert forall|c: int| 0 <= c < n implies sum[c] == prefix_seq(n, v, 2 * w)[c] by {
        if c < w {
            assert((c + (n - w)) % (n as int) == c + n - w) by {
                lemma_small_mod((c + n - w) as nat, n);
            }
            assert(rot[c] == a[c + n - w]);
            assert(a[c + n - w] == 0u64);
            lemma_small_mod(v as nat, t as nat);
        } else {
            assert((c + (n - w)) % (n as int) == c - w) by {
                vstd::arithmetic::div_mod::lemma_mod_multiples_vanish(1, c - w, n as int);
                lemma_small_mod((c - w) as nat, n);
            }
            assert(rot[c] == a[c - w]);
            if c < 2 * w {
                assert(a[c - w] == v);
                lemma_small_mod(v as nat, t as nat);
            } else {
                assert(a[c - w] == 0u64);
                lemma_small_mod(0nat, t as nat);
            }
        }
    }
    assert(sum =~= prefix_seq(n, v, 2 * w));
}

/// The shrinking shape of the hypercube: `k` rounds leave
/// `pow(m, d - k)` rows.
pub proof fn lemma_fold_upto_len(prm: PirParams, qb: Seq<u8>, rows0: Seq<Seq<u64>>, k: nat)
    requires
        prm.wf(),
        rows0.len() == prm.md,
        k <= prm.d,
    ensures
        fold_upto(prm, qb, rows0, k).len() == pow(prm.m as int, (prm.d - k) as nat),
    decreases k,
{
    let m = prm.m as int;
    let d = prm.d as int;
    if k == 0 {
    } else {
        lemma_fold_upto_len(prm, qb, rows0, (k - 1) as nat);
        let prev = fold_upto(prm, qb, rows0, (k - 1) as nat);
        assert(prev.len() == pow(m, (d - k) as nat) * m) by {
            lemma_pow_adds(m, (d - k) as nat, 1nat);
            lemma_pow1(m);
        }
        assert(fold_upto(prm, qb, rows0, k).len() == prev.len() / prm.m as nat);
        lemma_pow_positive(m, (d - k) as nat);
        vstd::arithmetic::div_mod::lemma_div_by_multiple(pow(m, (d - k) as nat), m);
    }
}

/// Rows with the shape of plaintexts: `n` slots each, residues below `t`.
pub open spec fn rows_wf(prm: PirParams, rows: Seq<Seq<u64>>) -> bool {
    forall|r: int|
        0 <= r < rows.len() ==> (#[trigger] rows[r]).len() == prm.n && all_lt(rows[r], prm.t)
}

/// Scaling by zero gives the zero row.
pub proof fn lemma_scale_zero(prm: PirParams, row: Seq<u64>)
    requires
        prm.wf(),
        row.len() == prm.n,
    ensures
        scale_mod(0u64, row, prm.t) == const_seq(prm.n as nat, 0u64),
{
    prm.lemma_wf_bounds();
    assert forall|c: int| 0 <= c < prm.n implies scale_mod(0u64, row, prm.t)[c] == 0u64 by {
        lemma_small_mod(0nat, prm.t as nat);
    }
    assert(scale_mod(0u64, row, prm.t) =~= const_seq(prm.n as nat, 0u64));
}

/// Scaling by one returns the row itself.
pub proof fn lemma_scale_one(prm: PirParams, row: Seq<u64>)
    requires
        prm.wf(),
        row.len() == prm.n,
        all_lt(row, prm.t),
    ensures
        scale_mod(1u64, row, prm.t) == row,
{
    prm.lemma_wf_bounds();
    assert forall|c: int| 0 <= c < prm.n implies scale_mod(1u64, row, prm.t)[c] == row[c] by {
        lemma_small_mod(row[c] as nat, prm.t as nat);
    }
    assert(scale_mod(1u64, row, prm.t) =~= row);
}

/// Adding the zero row returns the other row.
pub proof fn lemma_add_zero(prm: PirParams, row: Seq<u64>)
    requires
        prm.wf(),
        row.len() == prm.n,
        all_lt(row, prm.t),
    ensures
        seq_add_mod(row, const_seq(prm.n as nat, 0u64), prm.t) == row,
        seq_add_mod(const_seq(prm.n as nat, 0u64), row, prm.t) == row,
{
    prm.lemma_wf_bounds();
    assert forall|c: int| 0 <= c < prm.n implies seq_add_mod(
        row,
        const_seq(prm.n as nat, 0u64),
        prm.t,
    )[c] == row[c] && seq_add_mod(const_seq(prm.n as nat, 0u64), row, prm.t)[c] == row[c] by {
        lemma_small_mod(row[c] as nat, prm.t as nat);
    }
    assert(seq_add_mod(row, const_seq(prm.n as nat, 0u64), prm.t) =~= row);
    assert(seq_add_mod(const_seq(prm.n as nat, 0u64), row, prm.t) =~= row);
}

/// A partial group fold under a one-hot selection: zero until the target
/// row has been taken in, the target row afterwards.
proof fn lemma_row_fold_onehot(
    prm: PirParams,
    qb: Seq<u8>,
    k: int,
    rows: Seq<Seq<u64>>,
    base: int,
    tgt: int,
    jc: nat,
)
    requires
        prm.wf(),
        rows_wf(prm, rows),
        0 <= tgt < prm.m,
        0 <= base,
        base + prm.m <= rows.len(),
        jc <= prm.m,
        forall|j: int| 0 <= j < prm.m ==> #[trigger] sel_val(prm, qb, k, j) == (if j == tgt {
            1u64
        } else {
            0u64
        }),
    ensures
        row_fold(prm, qb, k, rows, base, jc) == (if jc <= tgt {
            const_seq(prm.n as nat, 0u64)
        } else {
            rows[base + tgt]
        }),
    decreases jc,
{
    prm.lemma_wf_bounds();
    if jc > 0 {
        lemma_row_fold_onehot(prm, qb, k, rows, base, tgt, (jc - 1) as nat);
        let prevf = row_fold(prm, qb, k, rows, base, (jc - 1) as nat);
        let j = jc - 1;
        let row = rows[base + j];
        if j == tgt {
            lemma_scale_one(prm, row);
            lemma_add_zero(prm, row);
        } else if j < tgt {
            lemma_scale_zero(prm, row);
            lemma_add_zero(prm, const_seq(prm.n as nat, 0u64));
            assert(all_lt(const_seq(prm.n as nat, 0u64), prm.t));
        } else {
            lemma_scale_zero(prm, row);
            lemma_add_zero(prm, rows[base + tgt]);
        }
    }
}

/// After `k` reduction rounds under a query targeting `pt_idx`, row `r`
/// of the shrunken hypercube is exactly initial row
/// `r * m^k + pt_idx % m^k`.
proof fn lemma_fold_upto_selects(
    prm: PirParams,
    qb: Seq<u8>,
    rows0: Seq<Seq<u64>>,
    pt_idx: int,
    k: nat,
)
    requires
        prm.wf(),
        rows_wf(prm, rows0),
        rows0.len() == prm.md,
        0 <= pt_idx < prm.md,
        forall|p: int|
            0 <= p < prm.q_cts * prm.n ==> #[trigger] q_slot(prm, qb, p) == query_slot_val(
                prm,
                pt_idx,
                p,
            ),
        k <= prm.d,
    ensures
        fold_upto(prm, qb, rows0, k).len() == pow(prm.m as int, (prm.d - k) as nat),
        forall|r: int|
            0 <= r < fold_upto(prm, qb, rows0, k).len() ==> #[trigger] fold_upto(
                prm,
                qb,
                rows0,
                k,
            )[r] == rows0[r * pow(prm.m as int, k) + (pt_idx % pow(prm.m as int, k))],
    decreases k,
{
    prm.lemma_wf_bounds();
    let m = prm.m as int;
    let d = prm.d as int;
    lemma_pow_positive(m, k);
    if k == 0 {
        assert(pow(m, 0nat) == 1) by {
            vstd::arithmetic::power::lemma_pow0(m);
        }
        assert(fold_upto(prm, qb, rows0, 0) == rows0);
        assert forall|r: int| 0 <= r < rows0.len() implies #[trigger] fold_upto(
            prm,
            qb,
            rows0,
            0,
        )[r] == rows0[r * pow(m, 0) + (pt_idx % pow(m, 0))] by {
            lemma_small_mod(0nat, 1nat);
            assert(pt_idx % 1int == 0) by {
                lemma_fundamental_div_mod(pt_idx, 1);
            }
            assert(r * 1 == r) by (nonlinear_arith);
        }
    } else {
        let km = (k - 1) as nat;
        lemma_fold_upto_selects(prm, qb, rows0, pt_idx, km);
        let prev = fold_upto(prm, qb, rows0, km);
        let cur = fold_upto(prm, qb, rows0, k);
        let mk = pow(m, km);
        let mk1 = pow(m, k);
        lemma_pow_positive(m, km);
        assert(mk1 == mk * m) by {
            lemma_pow_adds(m, km, 1nat);
            lemma_pow1(m);
        }
        let tgt = digit(pt_idx, k - 1, m);
        assert(0 <= tgt < m) by {
            lemma_mod_bound(pt_idx / mk, m);
        }
        // The previous layer has the shape of plaintext rows.
        assert(pow(m, (d - k + 1) as nat) * mk == pow(m, d as nat)) by {
            lemma_pow_adds(m, (d - k + 1) as nat, km);
        }
        assert(prev.len() * mk <= rows0.len()) by (nonlinear_arith)
            requires
                prev.len() == pow(m, (d - k + 1) as nat),
                rows0.len() == prm.md,
                prm.md == pow(m, d as nat),
                pow(m, (d - k + 1) as nat) * mk == pow(m, d as nat),
        ;
        assert(rows_wf(prm, prev)) by {
            assert forall|r: int| 0 <= r < prev.len() implies (#[trigger] prev[r]).len() == prm.n
                && all_lt(prev[r], prm.t) by {
                let src = r * mk + (pt_idx % mk);
                lemma_mod_bound(pt_idx, mk);
                assert(0 <= src < rows0.len()) by (nonlinear_arith)
                    requires
                        0 <= r < prev.len(),
                        prev.len() * mk <= rows0.len(),
                        0 <= pt_idx % mk < mk,
                        src == r * mk + (pt_idx % mk),
                        0 < mk,
                ;
            }
        }
        // Selection values of dimension k-1 are one-hot at this digit.
        assert forall|j: int| 0 <= j < m implies #[trigger] sel_val(prm, qb, k - 1, j) == (if j
            == tgt {
            1u64
        } else {
            0u64
        }) by {
            let p = (k - 1) * m + j;
            assert(0 <= p < d * m) by (nonlinear_arith)
                requires
                    0 < k <= d,
                    0 <= j < m,
                    p == (k - 1) * m + j,
            ;
            assert(d * m <= prm.q_cts * prm.n);
            assert(q_slot(prm, qb, p) == query_slot_val(prm, pt_idx, p));
            assert(p / m == k - 1 && p % m == j) by {
                lemma_div_multiples_vanish_fancy(k - 1, j, m);
                lemma_fundamental_div_mod(p, m);
            }
        }
        assert(cur == pass(prm, qb, k - 1, prev));
        assert(cur.len() == prev.len() / m as nat);
        assert(prev.len() == pow(m, (d - k) as nat) * m) by {
            lemma_pow_adds(m, (d - k) as nat, 1nat);
            lemma_pow1(m);
        }
        assert(cur.len() == pow(m, (d - k) as nat)) by {
            lemma_pow_positive(m, (d - k) as nat);
            vstd::arithmetic::div_mod::lemma_div_by_multiple(pow(m, (d - k) as nat), m);
        }
        assert(cur.len() * m == prev.len());
        assert forall|r: int| 0 <= r < cur.len() implies #[trigger] cur[r] == rows0[r * mk1
            + (pt_idx % mk1)] by {
            assert((r + 1) * m <= prev.len()) by (nonlinear_arith)
                requires
                    0 <= r < cur.len(),
                    cur.len() * m == prev.len(),
            ;
            assert(r * m + m == (r + 1) * m) by (nonlinear_arith);
            lemma_row_fold_onehot(prm, qb, k - 1, prev, r * m, tgt, prm.m as nat);
            assert(cur[r] == row_fold(prm, qb, k - 1, prev, r * m, prm.m as nat));
            assert(cur[r] == prev[r * m + tgt]);
            assert(prev[r * m + tgt] == rows0[(r * m + tgt) * mk + (pt_idx % mk)]) by {
                assert(0 <= r * m + tgt < prev.len()) by (nonlinear_arith)
                    requires
                        0 <= r < cur.len(),
                        cur.len() * m == prev.len(),
                        0 <= tgt < m,
                ;
            }
            // Reassemble the flat index.
            assert(pt_idx % mk1 == mk * tgt + (pt_idx % mk)) by {
                lemma_breakdown(pt_idx, mk, m);
            }
            assert((r * m + tgt) * mk + (pt_idx % mk) == r * mk1 + (pt_idx % mk1))
                by (nonlinear_arith)
                requires
                    mk1 == mk * m,
                    pt_idx % mk1 == mk * tgt + (pt_idx % mk),
            ;
        }
    }
}

/// The collapsed hypercube is exactly the targeted plaintext row: the
/// d-round multiply-and-reduce under a one-hot query selects `pt_idx`.
pub proof fn lemma_reply_selects(prm: PirParams, qb: Seq<u8>, rows0: Seq<Seq<u64>>, pt_idx: int)
    requires
        prm.wf(),
        rows_wf(prm, rows0),
        rows0.len() == prm.md,
        0 <= pt_idx < prm.md,
        forall|p: int|
            0 <= p < prm.q_cts * prm.n ==> #[trigger] q_slot(prm, qb, p) == query_slot_val(
                prm,
                pt_idx,
                p,
            ),
    ensures
        reply_coeffs(prm, qb, rows0) == rows0[pt_idx],
{
    let m = prm.m as int;
    let d = prm.d as nat;
    lemma_fold_upto_selects(prm, qb, rows0, pt_idx, d);
    let last = fold_upto(prm, qb, rows0, d);
    assert(pow(m, 0nat) == 1) by {
        vstd::arithmetic::power::lemma_pow0(m);
    }
    assert(last.len() == 1);
    assert(last[0] == rows0[0 * pow(m, d) + (pt_idx % pow(m, d))]);
    lemma_pow_positive(m, d);
    assert(pt_idx % pow(m, d) == pt_idx) by {
        lemma_small_mod(pt_idx as nat, pow(m, d) as nat);
    }
    assert(0 * pow(m, d) == 0) by (nonlinear_arith);
}

} // verus!
