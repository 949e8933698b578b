//! Element encoding: raw element bytes laid out as plaintext coefficient
//! vectors, several elements per plaintext, at fixed byte offsets.
use vstd::arithmetic::div_mod::lemma_div_multiples_vanish_fancy;
use vstd::arithmetic::div_mod::lemma_fundamental_div_mod;
use vstd::arithmetic::div_mod::lemma_mod_bound;
use vstd::prelude::*;

use crate::backend::all_lt;
use crate::params::PirParams;

verus! {

/// The collection has the configured shape: `ele_num` elements of
/// `ele_size` bytes each.
pub open spec fn db_wf(prm: PirParams, elems: Seq<Seq<u8>>) -> bool {
    &&& elems.len() == prm.ele_num
    &&& forall|g: int| 0 <= g < elems.len() ==> (#[trigger] elems[g]).len() == prm.ele_size
}

/// Coefficient `c` of plaintext `i`: byte `c % ele_size` of the element
/// `i * epp + c / ele_size`, or zero outside the collection.
pub open spec fn pt_coeff(prm: PirParams, elems: Seq<Seq<u8>>, i: int, c: int) -> u64 {
    let e = c / prm.ele_size as int;
    let b = c % prm.ele_size as int;
    let g = i * prm.epp as int + e;
    if e < prm.epp && 0 <= g < prm.ele_num {
        elems[g][b] as u64
    } else {
        0u64
    }
}

/// The full coefficient vector of plaintext `i`.
pub open spec fn pt_of(prm: PirParams, elems: Seq<Seq<u8>>, i: int) -> Seq<u64> {
    Seq::new(prm.n as nat, |c: int| pt_coeff(prm, elems, i, c))
}

/// All `md` plaintexts of the padded hypercube.
pub open spec fn pts_of(prm: PirParams, elems: Seq<Seq<u8>>) -> Seq<Seq<u64>> {
    Seq::new(prm.md as nat, |i: int| pt_of(prm, elems, i))
}

/// Every plaintext coefficient is a byte value, hence below the modulus.
pub proof fn lemma_pt_in_range(prm: PirParams, elems: Seq<Seq<u8>>, i: int)
    requires
        prm.wf(),
    ensures
        pt_of(prm, elems, i).len() == prm.n,
        all_lt(pt_of(prm, elems, i), prm.t),
{
    prm.lemma_wf_bounds();
    assert forall|c: int| 0 <= c < prm.n implies pt_of(prm, elems, i)[c] < prm.t by {
        assert(pt_of(prm, elems, i)[c] == pt_coeff(prm, elems, i, c));
        assert(pt_coeff(prm, elems, i, c) < 256 || pt_coeff(prm, elems, i, c) == 0);
    }
}

/// Where element `x` sits: its bytes occupy coefficients
/// `(x % epp) * ele_size ..` of plaintext `x / epp`.
pub proof fn lemma_pt_slice(prm: PirParams, elems: Seq<Seq<u8>>, x: int)
    requires
        prm.wf(),
        db_wf(prm, elems),
        0 <= x < prm.ele_num,
    ensures
        forall|b: int|
            0 <= b < prm.ele_size ==> #[trigger] pt_of(prm, elems, x / prm.epp as int)[(x
                % prm.epp as int) * prm.ele_size as int + b] == elems[x][b],
        0 <= (x % prm.epp as int) * prm.ele_size as int,
        (x % prm.epp as int) * prm.ele_size as int + prm.ele_size <= prm.n,
        0 <= x / (prm.epp as int) && x / (prm.epp as int) < prm.md,
{
    prm.lemma_wf_bounds();
    let epp = prm.epp as int;
    let s = prm.ele_size as int;
    let q = x / epp;
    let rm = x % epp;
    lemma_fundamental_div_mod(x, epp);
    lemma_mod_bound(x, epp);
    assert(0 <= rm * s && rm * s + s <= epp * s) by (nonlinear_arith)
        requires
            0 <= rm < epp && 1 <= s,
    ;
    assert(q < prm.num_pt) by {
        assert(x < prm.num_pt as int * epp);
        assert(q * epp + rm == x);
        assert(q < prm.num_pt as int) by (nonlinear_arith)
            requires
                q * epp + rm == x,
                x < prm.num_pt as int * epp,
                0 <= rm < epp,
                0 <= q,
        ;
    }
    assert forall|b: int| 0 <= b < s implies #[trigger] pt_of(prm, elems, q)[rm * s + b]
        == elems[x][b] by {
        let c = rm * s + b;
        assert(c / s == rm && c % s == b) by {
            lemma_div_multiples_vanish_fancy(rm, b, s);
            lemma_fundamental_div_mod(c, s);
            lemma_mod_bound(c, s);
            assert(c == rm * s + b);
            assert(c / s == rm);
            assert(c % s == c - (c / s) * s);
        }
        assert(q * epp + rm == x);
        assert(pt_coeff(prm, elems, q, c) == elems[x][b]);
    }
}

/// Builds the coefficient vector of plaintext `i` from the collection.
pub fn encode_pt(prm: &PirParams, collection: &Vec<Vec<u8>>, i: usize) -> (r: Vec<u64>)
    requires
        prm.wf(),
        db_wf(*prm, collection.deep_view()),
        i < prm.md,
    ensures
        r@ == pt_of(*prm, collection.deep_view(), i as int),
{
    proof {
        prm.lemma_wf_bounds();
    }
    let ghost elems = collection.deep_view();
    let s = prm.ele_size;
    let mut out: Vec<u64> = Vec::with_capacity(prm.n);
    let mut c: usize = 0;
    // The element index `e` and byte offset `b` of coefficient `c` are
    // carried along instead of divided out at every slot.
    let mut e: usize = 0;
    let mut b: usize = 0;
    proof {
        if i < prm.num_pt {
            assert(i as int * prm.epp as int + prm.epp <= prm.num_pt as int * prm.epp as int)
                by (nonlinear_arith)
                requires
                    0 <= i < prm.num_pt,
                    0 <= prm.epp,
            ;
        } else {
            assert(prm.num_pt as int * prm.epp as int <= i as int * prm.epp as int)
                by (nonlinear_arith)
                requires
                    prm.num_pt <= i,
                    0 <= prm.epp,
            ;
        }
    }
    while c < prm.n
        invariant
            c <= prm.n,
            s == prm.ele_size,
            out@.len() == c,
            c == e * s + b,
            b < s,
            e <= prm.n,
            i < prm.num_pt ==> i as int * prm.epp as int + prm.epp <= prm.num_pt as int
                * prm.epp as int,
            i >= prm.num_pt ==> prm.num_pt as int * prm.epp as int <= i as int * prm.epp as int,
            forall|c2: int| 0 <= c2 < c ==> out@[c2] == pt_coeff(*prm, elems, i as int, c2),
        decreases prm.n - c,
    {
        proof {
            vstd::arithmetic::div_mod::lemma_fundamental_div_mod_converse(
                c as int,
                s as int,
                e as int,
                b as int,
            );
        }
        let mut v: u64 = 0;
        if e < prm.epp && i < prm.num_pt {
            let g = i * prm.epp + e;
            if g < prm.ele_num {
                proof {
                    assert(elems[g as int] == collection@[g as int]@);
                    assert(elems[g as int].len() == prm.ele_size);
                }
                v = collection[g][b] as u64;
                proof {
                    assert(elems[g as int][b as int] == collection@[g as int]@[b as int]);
                }
            }
        }
        out.push(v);
        proof {
            assert(out@[c as int] == pt_coeff(*prm, elems, i as int, c as int));
            assert((e + 1) * s as int == e * s + s) by (nonlinear_arith);
            assert(e + 1 <= (e + 1) * s as int) by (nonlinear_arith)
                requires
                    1 <= s,
                    0 <= e,
            ;
        }
        c += 1;
        b += 1;
        if b == s {
            b = 0;
            e += 1;
        }
    }
    proof {
        assert(out@ =~= pt_of(*prm, elems, i as int));
    }
    out
}

} // verus!
