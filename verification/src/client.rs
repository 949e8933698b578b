//! The client: key material, query construction, and reply decoding.
use vstd::arithmetic::div_mod::lemma_div_denominator;
use vstd::arithmetic::div_mod::lemma_fundamental_div_mod;
use vstd::arithmetic::div_mod::lemma_mod_bound;
use vstd::arithmetic::power::lemma_pow1;
use vstd::arithmetic::power::lemma_pow_adds;
use vstd::arithmetic::power::pow;
use vstd::bytes::spec_u64_from_le_bytes;
use vstd::bytes::spec_u64_to_le_bytes;
use vstd::prelude::*;

use crate::backend::decrypt;
use crate::backend::encrypt;
use crate::backend::Ciphertext;
use crate::backend::PublicKey;
use crate::backend::SecretKey;
use crate::backend::FRESH_NOISE;
use crate::model::decode_spec;
use crate::model::digit;
use crate::model::is_query_for;
use crate::model::q_slot;
use crate::model::qblock_head_ok;
use crate::model::query_slot_val;
use crate::model::rblock_ok;
use crate::model::reply_buf;
use crate::params::inputs_admissible;
use crate::params::PirParams;
use crate::wire::block_matches;
use crate::wire::coeff_at;
use crate::wire::coeffs_at;
use crate::wire::ct_size_spec;
use crate::wire::parse_cts;
use crate::wire::ser_cts;
use crate::wire::ser_key_bytes;
use crate::PirError;
use crate::PirQuery;
use crate::PirReply;

verus! {

/// The client half of the protocol: derives the parameters, holds the
/// secret key, and turns element indices into queries and replies into
/// element bytes.
pub struct PirClient {
    params: PirParams,
    sk: SecretKey,
    key: Vec<u8>,
}

impl PirClient {
    /// The derived parameter set.
    pub closed spec fn params_spec(&self) -> PirParams {
        self.params
    }

    /// The id of this client's key material.
    pub closed spec fn key_id_spec(&self) -> u64 {
        self.sk.id
    }

    /// Valid parameters, and the exported rotation-key bytes carry the
    /// secret key's id.
    pub closed spec fn wf(&self) -> bool {
        &&& self.params.wf()
        &&& self.key@ == spec_u64_to_le_bytes(self.sk.id)
    }

    /// Builds a client for the given configuration; fails with
    /// `ParameterError` exactly when the inputs admit no parameter set.
    ///
    /// In the transparent backend the key id is a deterministic function
    /// of the five inputs, so two clients over one configuration hold
    /// equal ids; the correctness guarantees hold for any ids, equal or
    /// not.
    pub fn new(ele_num: u32, ele_size: u32, poly_degree: u32, log_plain_mod: u32, d: u32) -> (r:
        Result<PirClient, PirError>)
        ensures
            match r {
                Ok(c) => {
                    &&& c.wf()
                    &&& c.params_spec().wf()
                    &&& c.params_spec().ele_num == ele_num
                    &&& c.params_spec().ele_size == ele_size
                    &&& c.params_spec().n == poly_degree
                    &&& c.params_spec().logt == log_plain_mod
                    &&& c.params_spec().d == d
                    &&& inputs_admissible(ele_num, ele_size, poly_degree, log_plain_mod, d)
                },
                Err(e) => {
                    &&& e == PirError::ParameterError
                    &&& !inputs_admissible(ele_num, ele_size, poly_degree, log_plain_mod, d)
                },
            },
    {
        let params = match PirParams::derive(ele_num, ele_size, poly_degree, log_plain_mod, d) {
            Ok(p) => p,
            Err(e) => {
                return Err(e);
            },
        };
        let id: u64 = (ele_num as u64) ^ ((ele_size as u64) << 20) ^ ((poly_degree as u64) << 36)
            ^ ((log_plain_mod as u64) << 52) ^ ((d as u64) << 58);
        let key = ser_key_bytes(id);
        Ok(PirClient { params, sk: SecretKey { id }, key })
    }

    /// The serialized rotation key to hand to the server out-of-band.
    pub fn get_key(&self) -> (r: &Vec<u8>)
        requires
            self.wf(),
        ensures
            r@.len() == 8,
            r@ == spec_u64_to_le_bytes(self.key_id_spec()),
            spec_u64_from_le_bytes(r@) == self.key_id_spec(),
    {
        proof {
            vstd::bytes::lemma_auto_spec_u64_to_from_le_bytes();
        }
        &self.key
    }

    /// Encodes `index` as a compressed encrypted query: the digit of the
    /// target plaintext in every hypercube dimension becomes a one-hot
    /// selection, all selections packed into `q_cts` fresh ciphertexts.
    /// Fails with `IndexOutOfRange` exactly when `index` is not below the
    /// configured element count.
    pub fn gen_query(&self, index: u32) -> (r: Result<PirQuery, PirError>)
        requires
            self.wf(),
        ensures
            match r {
                Ok(q) => {
                    &&& index < self.params_spec().ele_num
                    &&& q.num == self.params_spec().q_cts
                    &&& q.query@.len() == self.params_spec().q_cts * ct_size_spec(
                        self.params_spec().n as int,
                    )
                    &&& is_query_for(
                        self.params_spec(),
                        q.query@,
                        q.num as nat,
                        self.key_id_spec(),
                        index as int / self.params_spec().epp as int,
                    )
                },
                Err(e) => {
                    &&& e == PirError::IndexOutOfRange
                    &&& index >= self.params_spec().ele_num
                },
            },
    {
        let prm = &self.params;
        proof {
            prm.lemma_wf_bounds();
        }
        if index as usize >= prm.ele_num {
            return Err(PirError::IndexOutOfRange);
        }
        let idx = index as usize;
        let pt_idx = idx / prm.epp;
        proof {
            vstd::arithmetic::div_mod::lemma_div_pos_is_pos(idx as int, prm.epp as int);
            vstd::arithmetic::div_mod::lemma_div_is_ordered(
                idx as int,
                prm.ele_num as int,
                prm.epp as int,
            );
        }
        // The mixed-radix digits of the target plaintext.
        let mut digits: Vec<usize> = Vec::new();
        let mut tmp = pt_idx;
        let mut k: usize = 0;
        proof {
            vstd::arithmetic::power::lemma_pow0(prm.m as int);
        }
        while k < prm.d
            invariant
                k <= prm.d,
                digits@.len() == k,
                tmp == pt_idx as int / pow(prm.m as int, k as nat),
                forall|k2: int|
                    0 <= k2 < k ==> #[trigger] digits@[k2] == digit(
                        pt_idx as int,
                        k2,
                        prm.m as int,
                    ) && 0 <= digits@[k2] < prm.m,
            decreases prm.d - k,
        {
            let dg = tmp % prm.m;
            proof {
                lemma_mod_bound(tmp as int, prm.m as int);
                vstd::arithmetic::power::lemma_pow_positive(prm.m as int, k as nat);
                lemma_div_denominator(pt_idx as int, pow(prm.m as int, k as nat), prm.m as int);
                lemma_pow_adds(prm.m as int, k as nat, 1nat);
                lemma_pow1(prm.m as int);
            }
            digits.push(dg);
            tmp = tmp / prm.m;
            k += 1;
        }
        // The concatenated selection slots, one-hot per dimension.
        let total = prm.q_cts * prm.n;
        let mut slots: Vec<u64> = Vec::new();
        let mut p: usize = 0;
        while p < total
            invariant
                p <= total,
                total == prm.q_cts * prm.n,
                slots@.len() == p,
                digits@.len() == prm.d,
                forall|k2: int|
                    0 <= k2 < prm.d ==> #[trigger] digits@[k2] == digit(
                        pt_idx as int,
                        k2,
                        prm.m as int,
                    ) && 0 <= digits@[k2] < prm.m,
                forall|p2: int|
                    0 <= p2 < p ==> #[trigger] slots@[p2] == query_slot_val(
                        *prm,
                        pt_idx as int,
                        p2,
                    ),
            decreases total - p,
        {
            let kk = p / prm.m;
            let jj = p % prm.m;
            proof {
                lemma_mod_bound(p as int, prm.m as int);
            }
            let mut v: u64 = 0;
            if kk < prm.d && jj == digits[kk] {
                v = 1;
            }
            slots.push(v);
            p += 1;
        }
        // Chunk the slots into fresh ciphertexts and frame them.
        let pk = PublicKey { id: self.sk.id };
        let mut cts: Vec<Ciphertext> = Vec::new();
        let mut c: usize = 0;
        while c < prm.q_cts
            invariant
                c <= prm.q_cts,
                cts@.len() == c,
                slots@.len() == total,
                total == prm.q_cts * prm.n,
                forall|p2: int|
                    0 <= p2 < total ==> #[trigger] slots@[p2] == query_slot_val(
                        *prm,
                        pt_idx as int,
                        p2,
                    ),
                forall|c2: int|
                    0 <= c2 < c ==> {
                        &&& (#[trigger] cts@[c2]).wf(prm.n as int, prm.t)
                        &&& cts@[c2].key_id == self.sk.id
                        &&& cts@[c2].noise == FRESH_NOISE
                        &&& cts@[c2].coeffs@ == slots@.subrange(
                            c2 * prm.n as int,
                            (c2 + 1) * prm.n as int,
                        )
                    },
            decreases prm.q_cts - c,
        {
            proof {
                assert(c * prm.n as int + prm.n as int == (c + 1) * prm.n as int)
                    by (nonlinear_arith);
                assert((c + 1) * prm.n as int <= prm.q_cts * prm.n as int) by (nonlinear_arith)
                    requires
                        0 <= c < prm.q_cts,
                        0 <= prm.n,
                ;
            }
            let mut coeffs: Vec<u64> = Vec::new();
            let mut i: usize = 0;
            while i < prm.n
                invariant
                    i <= prm.n,
                    coeffs@.len() == i,
                    c * prm.n + prm.n <= total,
                    slots@.len() == total,
                    forall|i2: int|
                        0 <= i2 < i ==> #[trigger] coeffs@[i2] == slots@[c * prm.n + i2],
                decreases prm.n - i,
            {
                coeffs.push(slots[c * prm.n + i]);
                i += 1;
            }
            proof {
                assert(coeffs@ =~= slots@.subrange(c * prm.n as int, (c + 1) * prm.n as int));
            }
            let ct = encrypt(&pk, coeffs);
            proof {
                assert forall|i2: int| 0 <= i2 < ct.coeffs@.len() implies ct.coeffs@[i2]
                    < prm.t by {
                    assert(ct.coeffs@[i2] == slots@[c * prm.n as int + i2]);
                    assert(slots@[c * prm.n as int + i2] == query_slot_val(
                        *prm,
                        pt_idx as int,
                        c * prm.n as int + i2,
                    ));
                }
            }
            cts.push(ct);
            c += 1;
        }
        let bytes = ser_cts(&cts, prm.n, prm.t);
        let q = PirQuery { query: bytes, num: prm.q_cts as u32 };
        proof {
            let qb = q.query@;
            let cs = ct_size_spec(prm.n as int);
            assert forall|c2: int| 0 <= c2 < prm.q_cts implies #[trigger] qblock_head_ok(
                *prm,
                qb,
                c2,
                self.sk.id,
            ) by {
                assert(block_matches(qb, c2 * cs, cts@[c2], prm.n as nat));
            }
            assert forall|p2: int| 0 <= p2 < prm.q_cts * prm.n implies #[trigger] q_slot(
                *prm,
                qb,
                p2,
            ) == query_slot_val(*prm, pt_idx as int, p2) by {
                let ci = p2 / prm.n as int;
                let sl = p2 % prm.n as int;
                lemma_fundamental_div_mod(p2, prm.n as int);
                lemma_mod_bound(p2, prm.n as int);
                assert(0 <= ci < prm.q_cts) by (nonlinear_arith)
                    requires
                        0 <= p2 < prm.q_cts * prm.n,
                        ci * prm.n as int + sl == p2,
                        0 <= sl < prm.n,
                        0 <= ci,
                ;
                assert((ci + 1) * prm.n as int <= prm.q_cts * prm.n as int) by (nonlinear_arith)
                    requires
                        0 <= ci < prm.q_cts,
                        0 <= prm.n,
                ;
                assert(ci * prm.n as int + prm.n as int == (ci + 1) * prm.n as int)
                    by (nonlinear_arith);
                assert(block_matches(qb, ci * cs, cts@[ci], prm.n as nat));
                assert(coeffs_at(qb, ci * cs, prm.n as nat) == cts@[ci].coeffs@);
                assert(coeff_at(qb, ci * cs, sl) == coeffs_at(qb, ci * cs, prm.n as nat)[sl]);
                assert(q_slot(*prm, qb, p2) == coeff_at(qb, ci * cs, sl));
                assert(cts@[ci].coeffs@ == slots@.subrange(
                    ci * prm.n as int,
                    (ci + 1) * prm.n as int,
                ));
                assert(slots@.subrange(ci * prm.n as int, (ci + 1) * prm.n as int)[sl] == slots@[ci
                    * prm.n as int + sl]);
                assert(p2 == ci * prm.n as int + sl);
                assert(slots@[p2] == query_slot_val(*prm, pt_idx as int, p2));
            }
            assert(is_query_for(*prm, qb, q.num as nat, self.sk.id, index as int / prm.epp as int));
        }
        Ok(q)
    }

    /// Decrypts a reply and slices element `ele_index`'s bytes out of the
    /// decrypted buffer at its fixed offset. Fails exactly as the decode
    /// model says: a bad index, a misframed reply, a foreign or exhausted
    /// ciphertext, or implausible contents.
    pub fn decode_reply(&self, ele_index: u32, reply: &PirReply) -> (r: Result<Vec<u8>, PirError>)
        requires
            self.wf(),
        ensures
            match r {
                Ok(v) => decode_spec(
                    self.params_spec(),
                    self.key_id_spec(),
                    ele_index as int,
                    reply.reply@,
                    reply.num as nat,
                ) == Ok::<Seq<u8>, PirError>(v@),
                Err(e) => decode_spec(
                    self.params_spec(),
                    self.key_id_spec(),
                    ele_index as int,
                    reply.reply@,
                    reply.num as nat,
                ) == Err::<Seq<u8>, PirError>(e),
            },
    {
        let prm = &self.params;
        proof {
            prm.lemma_wf_bounds();
        }
        if ele_index as usize >= prm.ele_num {
            return Err(PirError::IndexOutOfRange);
        }
        let num = reply.num as usize;
        let ghost rb = reply.reply@;
        let ghost cs = ct_size_spec(prm.n as int);
        let cts = match parse_cts(&reply.reply, num, prm.n, prm.t) {
            Some(v) => v,
            None => {
                return Err(PirError::MalformedBytes);
            },
        };
        // Decrypt every block into one flat buffer.
        let mut buf: Vec<u64> = Vec::new();
        let mut c: usize = 0;
        while c < num
            invariant
                c <= num,
                cts@.len() == num,
                buf@.len() == c * prm.n as int,
                buf@.len() <= num * prm.n as int,
                forall|i: int|
                    0 <= i < buf@.len() ==> #[trigger] buf@[i] == reply_buf(
                        *prm,
                        rb,
                        num as nat,
                    )[i],
                forall|c2: int| 0 <= c2 < c ==> #[trigger] rblock_ok(*prm, rb, c2, self.sk.id),
            decreases num - c,
        {
            proof {
                assert(c * prm.n as int + prm.n as int == (c + 1) * prm.n as int)
                    by (nonlinear_arith);
                assert((c + 1) * prm.n as int <= num * prm.n as int) by (nonlinear_arith)
                    requires
                        0 <= c < num,
                        0 <= prm.n,
                ;
            }
            let ghost prevlen = buf@.len();
            match decrypt(&self.sk, &cts[c]) {
                Some(mut v) => {
                    buf.append(&mut v);
                    proof {
                        assert forall|i: int| 0 <= i < buf@.len() implies #[trigger] buf@[i]
                            == reply_buf(*prm, rb, num as nat)[i] by {
                            if i >= prevlen {
                                let sl = i - c * prm.n as int;
                                assert(buf@.len() == c * prm.n as int + prm.n as int);
                                assert(0 <= sl < prm.n as int);
                                assert(buf@[i] == cts@[c as int].coeffs@[sl]);
                                assert(cts@[c as int].coeffs@ == coeffs_at(
                                    rb,
                                    c as int * cs,
                                    prm.n as nat,
                                ));
                                assert(i == (c as int) * (prm.n as int) + sl);
                                vstd::arithmetic::div_mod::lemma_fundamental_div_mod_converse(
                                    i,
                                    prm.n as int,
                                    c as int,
                                    sl,
                                );
                                assert(i / prm.n as int == c as int);
                                assert(i % prm.n as int == sl);
                                assert(reply_buf(*prm, rb, num as nat)[i] == coeff_at(
                                    rb,
                                    (c as int) * cs,
                                    sl,
                                ));
                            }
                        }
                    }
                },
                None => {
                    proof {
                        assert(!rblock_ok(*prm, rb, c as int, self.sk.id));
                    }
                    return Err(PirError::DecodeError);
                },
            }
            c += 1;
        }
        // The element's fixed byte offset inside the buffer.
        proof {
            lemma_mod_bound(ele_index as int, prm.epp as int);
            assert((ele_index as int % prm.epp as int) * prm.ele_size as int + prm.ele_size
                <= prm.epp * prm.ele_size) by (nonlinear_arith)
                requires
                    0 <= (ele_index as int % prm.epp as int) < prm.epp,
                    1 <= prm.ele_size,
            ;
        }
        let off = (ele_index as usize % prm.epp) * prm.ele_size;
        if off + prm.ele_size > buf.len() {
            return Err(PirError::DecodeError);
        }
        let mut out: Vec<u8> = Vec::new();
        let mut b: usize = 0;
        while b < prm.ele_size
            invariant
                b <= prm.ele_size,
                out@.len() == b,
                off + prm.ele_size <= buf@.len(),
                buf@.len() == num * prm.n as int,
                forall|i: int|
                    0 <= i < buf@.len() ==> #[trigger] buf@[i] == reply_buf(
                        *prm,
                        rb,
                        num as nat,
                    )[i],
                forall|b2: int| 0 <= b2 < b ==> #[trigger] out@[b2] == buf@[off + b2] as u8,
                forall|b2: int| 0 <= b2 < b ==> #[trigger] buf@[off + b2] < 256,
            decreases prm.ele_size - b,
        {
            let cv = buf[off + b];
            if cv >= 256 {
                proof {
                    assert(reply_buf(*prm, rb, num as nat)[off as int + b] >= 256);
                }
                return Err(PirError::DecodeError);
            }
            let ghost prevout = out@;
            out.push(cv as u8);
            proof {
                assert forall|b2: int| 0 <= b2 < b + 1 implies #[trigger] out@[b2] == buf@[off
                    + b2] as u8 by {
                    if b2 < b {
                        assert(prevout[b2] == buf@[off + b2] as u8);
                        assert(out@[b2] == prevout[b2]);
                    }
                }
                assert forall|b2: int| 0 <= b2 < b + 1 implies #[trigger] buf@[off + b2]
                    < 256 by {
                    if b2 < b {
                        assert(buf@[off + b2] < 256);
                    }
                }
            }
            b += 1;
        }
        proof {
            let sr = decode_spec(*prm, self.sk.id, ele_index as int, rb, num as nat);
            assert(!(exists|b2: int|
                0 <= b2 < prm.ele_size && #[trigger] reply_buf(*prm, rb, num as nat)[(
                ele_index as int % prm.epp as int) * prm.ele_size as int + b2] >= 256)) by {
                assert forall|b2: int| 0 <= b2 < prm.ele_size implies !(#[trigger] reply_buf(
                    *prm,
                    rb,
                    num as nat,
                )[(ele_index as int % prm.epp as int) * prm.ele_size as int + b2] >= 256) by {
                    assert(out@[b2] == buf@[off + b2] as u8);
                    assert(buf@[off + b2] < 256);
                }
            }
            assert(out@ =~= Seq::new(
                prm.ele_size as nat,
                |b2: int|
                    reply_buf(*prm, rb, num as nat)[(ele_index as int % prm.epp as int)
                        * prm.ele_size as int + b2] as u8,
            ));
        }
        Ok(out)
    }

    /// Same decoding as [`Self::decode_reply`], kept under the name its
    /// callers use for byte-vector results.
    pub fn decode_reply_to_vec(&self, ele_index: u32, reply: &PirReply) -> (r: Result<
        Vec<u8>,
        PirError,
    >)
        requires
            self.wf(),
        ensures
            match r {
                Ok(v) => decode_spec(
                    self.params_spec(),
                    self.key_id_spec(),
                    ele_index as int,
                    reply.reply@,
                    reply.num as nat,
                ) == Ok::<Seq<u8>, PirError>(v@),
                Err(e) => decode_spec(
                    self.params_spec(),
                    self.key_id_spec(),
                    ele_index as int,
                    reply.reply@,
                    reply.num as nat,
                ) == Err::<Seq<u8>, PirError>(e),
            },
    {
        self.decode_reply(ele_index, reply)
    }
}

} // verus!
