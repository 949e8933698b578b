//! Byte framing of ciphertexts and rotation keys.
//!
//! A serialized ciphertext block is the key id (8 bytes, little endian),
//! the noise budget (4 bytes), and one 4-byte residue per slot. Queries
//! and replies are back-to-back blocks. The accessor spec functions below
//! read a field straight out of a byte string; serialization ensures what
//! the accessors see, so parsing what was serialized needs no separate
//! round-trip argument.
use vstd::bytes::lemma_auto_spec_u32_to_from_le_bytes;
use vstd::bytes::lemma_auto_spec_u64_to_from_le_bytes;
use vstd::bytes::spec_u32_from_le_bytes;
use vstd::bytes::spec_u32_to_le_bytes;
use vstd::bytes::spec_u64_from_le_bytes;
use vstd::bytes::spec_u64_to_le_bytes;
use vstd::bytes::u32_from_le_bytes;
use vstd::bytes::u32_to_le_bytes;
use vstd::bytes::u64_from_le_bytes;
use vstd::bytes::u64_to_le_bytes;
use vstd::prelude::*;
use vstd::slice::slice_subrange;

use crate::backend::Ciphertext;

verus! {

/// Bytes taken by one serialized ciphertext block.
pub open spec fn ct_size_spec(n: int) -> int {
    12 + 4 * n
}

/// The key id of the block starting at `off`.
pub open spec fn key_at(b: Seq<u8>, off: int) -> u64 {
    spec_u64_from_le_bytes(b.subrange(off, off + 8))
}

/// The noise budget of the block starting at `off`.
pub open spec fn noise_at(b: Seq<u8>, off: int) -> u32 {
    spec_u32_from_le_bytes(b.subrange(off + 8, off + 12))
}

/// Slot `j` of the block starting at `off`.
pub open spec fn coeff_at(b: Seq<u8>, off: int, j: int) -> u64 {
    spec_u32_from_le_bytes(b.subrange(off + 12 + 4 * j, off + 16 + 4 * j)) as u64
}

/// All `n` slots of the block starting at `off`.
pub open spec fn coeffs_at(b: Seq<u8>, off: int, n: nat) -> Seq<u64> {
    Seq::new(n, |j: int| coeff_at(b, off, j))
}

/// The block starting at `off` carries exactly the fields of `ct`.
pub open spec fn block_matches(b: Seq<u8>, off: int, ct: Ciphertext, n: nat) -> bool {
    &&& key_at(b, off) == ct.key_id
    &&& noise_at(b, off) == ct.noise
    &&& coeffs_at(b, off, n) == ct.coeffs@
}

/// `b` frames exactly `cnt` blocks of `n` slots each, every slot residue
/// below `t`.
pub open spec fn blocks_wf(b: Seq<u8>, cnt: nat, n: nat, t: u64) -> bool {
    &&& b.len() == cnt * ct_size_spec(n as int)
    &&& forall|k: int, j: int|
        0 <= k < cnt && 0 <= j < n ==> #[trigger] coeff_at(b, k * ct_size_spec(n as int), j) < t
}

/// Extending a byte string does not change what the accessors see in the
/// retained prefix.
pub proof fn lemma_accessors_stable(a: Seq<u8>, b: Seq<u8>, off: int, n: nat)
    requires
        0 <= off,
        off + ct_size_spec(n as int) <= a.len(),
    ensures
        key_at(a + b, off) == key_at(a, off),
        noise_at(a + b, off) == noise_at(a, off),
        coeffs_at(a + b, off, n) == coeffs_at(a, off, n),
{
    assert((a + b).subrange(off, off + 8) =~= a.subrange(off, off + 8));
    assert((a + b).subrange(off + 8, off + 12) =~= a.subrange(off + 8, off + 12));
    assert forall|j: int| 0 <= j < n implies coeff_at(a + b, off, j) == coeff_at(a, off, j) by {
        assert((a + b).subrange(off + 12 + 4 * j, off + 16 + 4 * j) =~= a.subrange(
            off + 12 + 4 * j,
            off + 16 + 4 * j,
        ));
    }
    assert(coeffs_at(a + b, off, n) =~= coeffs_at(a, off, n));
}

/// In a concatenation, the accessors of the appended block read the
/// appended bytes.
pub proof fn lemma_accessors_appended(a: Seq<u8>, b: Seq<u8>, n: nat)
    requires
        ct_size_spec(n as int) <= b.len(),
    ensures
        key_at(a + b, a.len() as int) == key_at(b, 0),
        noise_at(a + b, a.len() as int) == noise_at(b, 0),
        coeffs_at(a + b, a.len() as int, n) == coeffs_at(b, 0, n),
{
    let off = a.len() as int;
    assert((a + b).subrange(off, off + 8) =~= b.subrange(0, 8));
    assert((a + b).subrange(off + 8, off + 12) =~= b.subrange(8, 12));
    assert forall|j: int| 0 <= j < n implies coeff_at(a + b, off, j) == coeff_at(b, 0, j) by {
        assert((a + b).subrange(off + 12 + 4 * j, off + 16 + 4 * j) =~= b.subrange(
            12 + 4 * j,
            16 + 4 * j,
        ));
    }
    assert(coeffs_at(a + b, off, n) =~= coeffs_at(b, 0, n));
}

/// Serializes one ciphertext into a fresh block.
fn ser_ct_block(ct: &Ciphertext, n: usize, t: u64) -> (r: Vec<u8>)
    requires
        ct.wf(n as int, t),
        1 <= n <= 0x10000,
        1 <= t <= 0x1_0000_0000,
    ensures
        r@.len() == ct_size_spec(n as int),
        key_at(r@, 0) == ct.key_id,
        noise_at(r@, 0) == ct.noise,
        coeffs_at(r@, 0, n as nat) == ct.coeffs@,
{
    proof {
        lemma_auto_spec_u64_to_from_le_bytes();
        lemma_auto_spec_u32_to_from_le_bytes();
    }
    let mut out = u64_to_le_bytes(ct.key_id);
    let mut nb = u32_to_le_bytes(ct.noise);
    out.append(&mut nb);
    assert(out@.subrange(0, 8) =~= spec_u64_to_le_bytes(ct.key_id));
    assert(out@.subrange(8, 12) =~= spec_u32_to_le_bytes(ct.noise));
    let mut j: usize = 0;
    while j < n
        invariant
            j <= n,
            out@.len() == 12 + 4 * j,
            out@.subrange(0, 8) == spec_u64_to_le_bytes(ct.key_id),
            out@.subrange(8, 12) == spec_u32_to_le_bytes(ct.noise),
            forall|j2: int|
                0 <= j2 < j ==> #[trigger] out@.subrange(12 + 4 * j2, 16 + 4 * j2)
                    == spec_u32_to_le_bytes(ct.coeffs@[j2] as u32),
        decreases n - j,
    {
        let ghost prev = out@;
        let c32: u32 = ct.coeffs[j] as u32;
        let mut cb = u32_to_le_bytes(c32);
        out.append(&mut cb);
        proof {
            assert(out@ == prev + spec_u32_to_le_bytes(c32));
            assert(out@.subrange(0, 8) =~= prev.subrange(0, 8));
            assert(out@.subrange(8, 12) =~= prev.subrange(8, 12));
            assert forall|j2: int| 0 <= j2 < j + 1 implies #[trigger] out@.subrange(
                12 + 4 * j2,
                16 + 4 * j2,
            ) == spec_u32_to_le_bytes(ct.coeffs@[j2] as u32) by {
                if j2 < j {
                    assert(out@.subrange(12 + 4 * j2, 16 + 4 * j2) =~= prev.subrange(
                        12 + 4 * j2,
                        16 + 4 * j2,
                    ));
                } else {
                    assert(out@.subrange(12 + 4 * j2, 16 + 4 * j2) =~= spec_u32_to_le_bytes(c32));
                }
            }
        }
        j += 1;
    }
    proof {
        assert forall|j2: int| 0 <= j2 < n implies #[trigger] coeffs_at(out@, 0, n as nat)[j2]
            == ct.coeffs@[j2] by {
            assert(out@.subrange(12 + 4 * j2, 16 + 4 * j2) == spec_u32_to_le_bytes(
                ct.coeffs@[j2] as u32,
            ));
            assert(coeff_at(out@, 0, j2) == ct.coeffs@[j2]);
        }
        assert(coeffs_at(out@, 0, n as nat) =~= ct.coeffs@);
        assert(key_at(out@, 0) == ct.key_id);
        assert(noise_at(out@, 0) == ct.noise);
    }
    out
}

/// Serializes a ciphertext sequence into back-to-back blocks.
pub fn ser_cts(cts: &Vec<Ciphertext>, n: usize, t: u64) -> (r: Vec<u8>)
    requires
        forall|k: int| 0 <= k < cts@.len() ==> (#[trigger] cts@[k]).wf(n as int, t),
        1 <= n <= 0x10000,
        1 <= t <= 0x1_0000_0000,
        cts@.len() <= 0x1000,
    ensures
        r@.len() == cts@.len() * ct_size_spec(n as int),
        blocks_wf(r@, cts@.len() as nat, n as nat, t),
        forall|k: int|
            0 <= k < cts@.len() ==> #[trigger] block_matches(
                r@,
                k * ct_size_spec(n as int),
                cts@[k],
                n as nat,
            ),
{
    let cs = 12 + 4 * n;
    let mut out: Vec<u8> = Vec::new();
    let mut k: usize = 0;
    while k < cts.len()
        invariant
            k <= cts@.len(),
            out@.len() == k * ct_size_spec(n as int),
            forall|k2: int|
                0 <= k2 < k ==> #[trigger] block_matches(
                    out@,
                    k2 * ct_size_spec(n as int),
                    cts@[k2],
                    n as nat,
                ),
        decreases cts@.len() - k,
    {
        let ghost prev = out@;
        let mut blk = ser_ct_block(&cts[k], n, t);
        let ghost blkview = blk@;
        out.append(&mut blk);
        proof {
            assert(out@ == prev + blkview);
            assert((k + 1) * ct_size_spec(n as int) == k * ct_size_spec(n as int) + ct_size_spec(
                n as int,
            )) by (nonlinear_arith);
            assert forall|k2: int| 0 <= k2 < k + 1 implies #[trigger] block_matches(
                out@,
                k2 * ct_size_spec(n as int),
                cts@[k2],
                n as nat,
            ) by {
                if k2 < k {
                    assert(block_matches(prev, k2 * ct_size_spec(n as int), cts@[k2], n as nat));
                    assert(0 <= k2 * ct_size_spec(n as int) && k2 * ct_size_spec(n as int)
                        + ct_size_spec(n as int) <= k * ct_size_spec(n as int))
                        by (nonlinear_arith)
                        requires
                            0 <= k2 < k,
                            0 <= ct_size_spec(n as int),
                    ;
                    lemma_accessors_stable(
                        prev,
                        blkview,
                        k2 * ct_size_spec(n as int),
                        n as nat,
                    );
                } else {
                    lemma_accessors_appended(prev, blkview, n as nat);
                }
            }
        }
        k += 1;
    }
    proof {
        assert forall|k2: int, j: int| 0 <= k2 < cts@.len() && 0 <= j < n implies #[trigger]
        coeff_at(out@, k2 * ct_size_spec(n as int), j) < t by {
            assert(block_matches(out@, k2 * ct_size_spec(n as int), cts@[k2], n as nat));
            assert(coeffs_at(out@, k2 * ct_size_spec(n as int), n as nat) == cts@[k2].coeffs@);
            assert(coeff_at(out@, k2 * ct_size_spec(n as int), j) == coeffs_at(
                out@,
                k2 * ct_size_spec(n as int),
                n as nat,
            )[j]);
        }
    }
    out
}

/// Parses `cnt` back-to-back blocks, checking the frame and every residue.
pub fn parse_cts(bytes: &Vec<u8>, cnt: usize, n: usize, t: u64) -> (r: Option<Vec<Ciphertext>>)
    requires
        1 <= n <= 0x10000,
        1 <= t <= 0x1_0000_0000,
        cnt <= 0x1_0000_0000,
    ensures
        match r {
            Some(v) => {
                &&& blocks_wf(bytes@, cnt as nat, n as nat, t)
                &&& v@.len() == cnt
                &&& forall|k: int|
                    0 <= k < cnt ==> {
                        &&& (#[trigger] v@[k]).wf(n as int, t)
                        &&& v@[k].key_id == key_at(bytes@, k * ct_size_spec(n as int))
                        &&& v@[k].noise == noise_at(bytes@, k * ct_size_spec(n as int))
                        &&& v@[k].coeffs@ == coeffs_at(
                            bytes@,
                            k * ct_size_spec(n as int),
                            n as nat,
                        )
                    }
            },
            None => !blocks_wf(bytes@, cnt as nat, n as nat, t),
        },
{
    let cs = 12 + 4 * n;
    proof {
        assert((cnt as int) * (cs as int) <= 0x1_0000_0000 * 0x50000) by (nonlinear_arith)
            requires
                0 <= cnt <= 0x1_0000_0000,
                0 <= cs <= 0x50000,
        ;
    }
    let expect: u64 = (cnt as u64) * (cs as u64);
    if (bytes.len() as u64) != expect {
        return None;
    }
    let s = bytes.as_slice();
    let mut out: Vec<Ciphertext> = Vec::new();
    let mut k: usize = 0;
    while k < cnt
        invariant
            k <= cnt,
            out@.len() == k,
            cs == ct_size_spec(n as int),
            bytes@.len() == cnt * ct_size_spec(n as int),
            s@ == bytes@,
            forall|k2: int|
                0 <= k2 < k ==> {
                    &&& (#[trigger] out@[k2]).wf(n as int, t)
                    &&& out@[k2].key_id == key_at(bytes@, k2 * ct_size_spec(n as int))
                    &&& out@[k2].noise == noise_at(bytes@, k2 * ct_size_spec(n as int))
                    &&& out@[k2].coeffs@ == coeffs_at(
                        bytes@,
                        k2 * ct_size_spec(n as int),
                        n as nat,
                    )
                },
        decreases cnt - k,
    {
        proof {
            assert(k * cs + cs == (k + 1) * cs && (k + 1) * cs <= cnt * cs) by (nonlinear_arith)
                requires
                    0 <= k < cnt,
                    0 <= cs,
            ;
        }
        let off = k * cs;
        let key = u64_from_le_bytes(slice_subrange(s, off, off + 8));
        let noise = u32_from_le_bytes(slice_subrange(s, off + 8, off + 12));
        let mut coeffs: Vec<u64> = Vec::new();
        let mut j: usize = 0;
        while j < n
            invariant
                j <= n,
                coeffs@.len() == j,
                forall|j2: int|
                    0 <= j2 < j ==> #[trigger] coeffs@[j2] == coeff_at(bytes@, off as int, j2)
                        && coeffs@[j2] < t,
            decreases n - j,
        {
            let c = u32_from_le_bytes(slice_subrange(s, off + 12 + 4 * j, off + 16 + 4 * j)) as u64;
            if c >= t {
                proof {
                    assert(coeff_at(bytes@, k as int * ct_size_spec(n as int), j as int) >= t);
                }
                return None;
            }
            coeffs.push(c);
            j += 1;
        }
        proof {
            assert(coeffs@ =~= coeffs_at(bytes@, off as int, n as nat));
        }
        out.push(Ciphertext { key_id: key, noise, coeffs });
        k += 1;
    }
    proof {
        assert forall|k2: int, j: int| 0 <= k2 < cnt && 0 <= j < n implies #[trigger] coeff_at(
            bytes@,
            k2 * ct_size_spec(n as int),
            j,
        ) < t by {
            assert(out@[k2].coeffs@ == coeffs_at(bytes@, k2 * ct_size_spec(n as int), n as nat));
            assert(coeffs_at(bytes@, k2 * ct_size_spec(n as int), n as nat)[j] == coeff_at(
                bytes@,
                k2 * ct_size_spec(n as int),
                j,
            ));
            assert(out@[k2].coeffs@[j] < t);
        }
    }
    Some(out)
}

/// Serializes a rotation key as its id, little endian.
pub fn ser_key_bytes(id: u64) -> (r: Vec<u8>)
    ensures
        r@ == spec_u64_to_le_bytes(id),
        r@.len() == 8,
        spec_u64_from_le_bytes(r@) == id,
{
    proof {
        lemma_auto_spec_u64_to_from_le_bytes();
    }
    u64_to_le_bytes(id)
}

/// Parses a serialized rotation key.
pub fn parse_key_bytes(key: &[u8]) -> (r: Option<u64>)
    ensures
        match r {
            Some(v) => key@.len() == 8 && v == spec_u64_from_le_bytes(key@),
            None => key@.len() != 8,
        },
{
    if key.len() == 8 {
        Some(u64_from_le_bytes(key))
    } else {
        None
    }
}

} // verus!
