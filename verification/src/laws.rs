//! The protocol's global guarantees, proved once and for all over the
//! model: whatever bytes a well-formed query and its computed reply
//! travel through, decoding returns exactly the requested element.
use vstd::arithmetic::div_mod::lemma_basic_div;
use vstd::arithmetic::power::pow;
use vstd::arithmetic::div_mod::lemma_small_mod;
use vstd::prelude::*;

use crate::encode::db_wf;
use crate::encode::lemma_pt_in_range;
use crate::encode::lemma_pt_slice;
use crate::encode::pt_of;
use crate::encode::pts_of;
use crate::model::blocks_decryptable;
use crate::model::decode_spec;
use crate::model::is_query_for;
use crate::model::is_reply_of;
use crate::model::qblock_head_ok;
use crate::model::query_noise_fresh;
use crate::model::lemma_reply_selects;
use crate::model::rblock_ok;
use crate::model::reply_buf;
use crate::model::reply_coeffs;
use crate::model::rows_wf;
use crate::params::div_ceil_spec;
use crate::params::PirParams;
use crate::wire::coeffs_at;
use crate::wire::ct_size_spec;
use crate::wire::key_at;
use crate::wire::noise_at;
use crate::PirError;

verus! {

/// **Round trip.** For every valid parameter set, every conforming
/// collection and every index below the element count: a query asking
/// for that index's plaintext, answered by the multiply-and-reduce fold
/// over the collection's hypercube encoding, decodes to exactly the
/// element's bytes.
pub proof fn lemma_round_trip(
    prm: PirParams,
    elems: Seq<Seq<u8>>,
    key: u64,
    idx: int,
    qb: Seq<u8>,
    qnum: nat,
    rb: Seq<u8>,
    rnum: nat,
)
    requires
        prm.wf(),
        db_wf(prm, elems),
        0 <= idx < prm.ele_num,
        is_query_for(prm, qb, qnum, key, idx / (prm.epp as int)),
        is_reply_of(prm, rb, rnum, key, reply_coeffs(prm, qb, pts_of(prm, elems))),
    ensures
        decode_spec(prm, key, idx, rb, rnum) == Ok::<Seq<u8>, PirError>(elems[idx]),
{
    prm.lemma_wf_bounds();
    let pts = pts_of(prm, elems);
    let pi = idx / (prm.epp as int);
    let s = prm.ele_size as int;
    let n = prm.n as int;
    let off = (idx % prm.epp as int) * s;
    lemma_pt_slice(prm, elems, idx);
    assert(rows_wf(prm, pts)) by {
        assert forall|r: int| 0 <= r < pts.len() implies (#[trigger] pts[r]).len() == prm.n
            && crate::backend::all_lt(pts[r], prm.t) by {
            lemma_pt_in_range(prm, elems, r);
        }
    }
    lemma_reply_selects(prm, qb, pts, pi);
    assert(reply_coeffs(prm, qb, pts) == pt_of(prm, elems, pi));
    // The reply decrypts: one block, matching key, noise left.
    assert(blocks_decryptable(prm, rb, rnum, key)) by {
        assert forall|c: int| 0 <= c < rnum implies #[trigger] rblock_ok(prm, rb, c, key) by {
            assert(c == 0);
            assert(0 * ct_size_spec(n) == 0) by (nonlinear_arith);
        }
    }
    // The flat buffer is the selected plaintext.
    let buf = reply_buf(prm, rb, rnum);
    assert(buf.len() == n);
    assert forall|i: int| 0 <= i < n implies #[trigger] buf[i] == pt_of(prm, elems, pi)[i] by {
        lemma_basic_div(i, n);
        lemma_small_mod(i as nat, n as nat);
        assert(0 * ct_size_spec(n) == 0) by (nonlinear_arith);
        assert(buf[i] == crate::wire::coeff_at(rb, 0, i));
        assert(coeffs_at(rb, 0, prm.n as nat)[i] == crate::wire::coeff_at(rb, 0, i));
        assert(crate::model::coeffs_at_start(prm, rb)[i] == buf[i]);
    }
    // Slicing at the element's offset returns its bytes.
    assert(off + s <= buf.len());
    assert forall|b: int| 0 <= b < s implies #[trigger] buf[off + b] == elems[idx][b]
        && buf[off + b] < 256 by {
        assert(pt_of(prm, elems, pi)[off + b] == elems[idx][b]);
    }
    assert(!(exists|b: int| 0 <= b < s && #[trigger] buf[off + b] >= 256));
    assert(Seq::new(prm.ele_size as nat, |b: int| buf[off + b] as u8) =~= elems[idx]);
}

/// **Update visibility.** After replacing element `i`, retrieving any
/// index `j` against the re-encoded database returns the new bytes at
/// `i` and the untouched original bytes everywhere else.
pub proof fn lemma_update_visibility(
    prm: PirParams,
    elems: Seq<Seq<u8>>,
    i: int,
    v: Seq<u8>,
    key: u64,
    j: int,
    qb: Seq<u8>,
    qnum: nat,
    rb: Seq<u8>,
    rnum: nat,
)
    requires
        prm.wf(),
        db_wf(prm, elems),
        0 <= i < prm.ele_num,
        v.len() == prm.ele_size,
        0 <= j < prm.ele_num,
        is_query_for(prm, qb, qnum, key, j / (prm.epp as int)),
        is_reply_of(prm, rb, rnum, key, reply_coeffs(prm, qb, pts_of(prm, elems.update(i, v)))),
    ensures
        decode_spec(prm, key, j, rb, rnum) == Ok::<Seq<u8>, PirError>(
            if j == i {
                v
            } else {
                elems[j]
            },
        ),
{
    let e2 = elems.update(i, v);
    assert(db_wf(prm, e2)) by {
        assert forall|g: int| 0 <= g < e2.len() implies (#[trigger] e2[g]).len()
            == prm.ele_size by {
            if g != i {
                assert(e2[g] == elems[g]);
            }
        }
    }
    lemma_round_trip(prm, e2, key, j, qb, qnum, rb, rnum);
}

/// **Independence.** Two clients with their own keys can retrieve their
/// own indices against the same database; each decodes its own element,
/// with no interference.
pub proof fn lemma_client_independence(
    prm: PirParams,
    elems: Seq<Seq<u8>>,
    key_a: u64,
    idx_a: int,
    qa: Seq<u8>,
    qan: nat,
    ra: Seq<u8>,
    ran: nat,
    key_b: u64,
    idx_b: int,
    qb: Seq<u8>,
    qbn: nat,
    rb: Seq<u8>,
    rbn: nat,
)
    requires
        prm.wf(),
        db_wf(prm, elems),
        0 <= idx_a < prm.ele_num,
        0 <= idx_b < prm.ele_num,
        is_query_for(prm, qa, qan, key_a, idx_a / (prm.epp as int)),
        is_reply_of(prm, ra, ran, key_a, reply_coeffs(prm, qa, pts_of(prm, elems))),
        is_query_for(prm, qb, qbn, key_b, idx_b / (prm.epp as int)),
        is_reply_of(prm, rb, rbn, key_b, reply_coeffs(prm, qb, pts_of(prm, elems))),
    ensures
        decode_spec(prm, key_a, idx_a, ra, ran) == Ok::<Seq<u8>, PirError>(elems[idx_a]),
        decode_spec(prm, key_b, idx_b, rb, rbn) == Ok::<Seq<u8>, PirError>(elems[idx_b]),
{
    lemma_round_trip(prm, elems, key_a, idx_a, qa, qan, ra, ran);
    lemma_round_trip(prm, elems, key_b, idx_b, qb, qbn, rb, rbn);
}

/// A well-formed query's blocks all carry the client's key and a fresh
/// noise budget — the facts the server's reply contract asks for, made
/// available to callers composing the pipeline.
pub proof fn lemma_query_heads(prm: PirParams, qb: Seq<u8>, num: nat, key: u64, pt_idx: int)
    requires
        prm.wf(),
        is_query_for(prm, qb, num, key, pt_idx),
    ensures
        query_noise_fresh(prm, qb, num),
        key_at(qb, 0) == key,
{
    prm.lemma_wf_bounds();
    assert forall|c: int| 0 <= c < num implies #[trigger] noise_at(
        qb,
        c * ct_size_spec(prm.n as int),
    ) == crate::backend::FRESH_NOISE by {
        assert(qblock_head_ok(prm, qb, c, key));
    }
    assert(qblock_head_ok(prm, qb, 0, key));
    assert(0 * ct_size_spec(prm.n as int) == 0) by (nonlinear_arith);
}

/// **Sub-linear query size.** The query grows with the hypercube axis,
/// not the element count: whenever `k`'s d-th power covers the occupied
/// plaintexts, the derived axis size is at most `k`, so the query holds
/// at most `ceil(d * k / n)` ciphertexts — on the order of the d-th
/// root of the element count.
pub proof fn lemma_query_size(prm: PirParams, k: int)
    requires
        prm.wf(),
        0 <= k,
        prm.num_pt <= pow(k, prm.d as nat),
    ensures
        prm.m <= k,
        prm.q_cts <= div_ceil_spec(prm.d as int * k, prm.n as int),
{
    prm.lemma_wf_bounds();
    if k < prm.m {
        crate::params::lemma_pow_base_le(k, prm.m as int - 1, prm.d as nat);
        assert(false);
    }
    assert(prm.d as int * prm.m as int <= prm.d as int * k) by (nonlinear_arith)
        requires
            prm.m <= k,
            0 <= prm.d,
    ;
    vstd::arithmetic::div_mod::lemma_div_is_ordered(
        prm.d as int * prm.m as int + prm.n - 1,
        prm.d as int * k + prm.n - 1,
        prm.n as int,
    );
}

} // verus!
