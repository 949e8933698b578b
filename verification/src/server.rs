//! The server: key registry, the encoded hypercube database, query
//! expansion, and the d-round multiply-and-reduce reply computation.
use vstd::arithmetic::div_mod::lemma_fundamental_div_mod;
use vstd::arithmetic::div_mod::lemma_mod_bound;
use vstd::arithmetic::power::pow;
use vstd::arithmetic::power2::pow2;
use vstd::bytes::spec_u64_from_le_bytes;
use vstd::prelude::*;

use crate::backend::all_lt;
use crate::backend::const_seq;
use crate::backend::ct_add;
use crate::backend::ct_mul_add;
use crate::backend::ct_mul_plain;
use crate::backend::ct_mul_plain_add;
use crate::backend::ct_rotate;
use crate::backend::dec1;
use crate::backend::pt_zero;
use crate::backend::Ciphertext;
use crate::backend::RotationKey;
use crate::backend::FRESH_NOISE;
use crate::encode::db_wf;
use crate::encode::encode_pt;
use crate::encode::pt_of;
use crate::encode::pts_of;
use crate::model::fold_upto;
use crate::model::lemma_broadcast_step;
use crate::model::lemma_fold_upto_len;
use crate::model::pass;
use crate::model::lemma_mul_const_scale;
use crate::model::prefix_seq;
use crate::model::q_slot;
use crate::model::query_noise_fresh;
use crate::model::reply_coeffs;
use crate::model::row_fold;
use crate::model::scale_mod;
use crate::model::sel_val;
use crate::params::inputs_admissible;
use crate::params::PirParams;
use crate::wire::block_matches;
use crate::wire::blocks_wf;
use crate::wire::coeffs_at;
use crate::wire::ct_size_spec;
use crate::wire::key_at;
use crate::wire::noise_at;
use crate::wire::parse_cts;
use crate::wire::parse_key_bytes;
use crate::wire::ser_cts;
use crate::PirError;
use crate::PirQuery;
use crate::PirReply;

verus! {

/// The first registration for `cid`, scanning front to back.
pub open spec fn lookup_key(s: Seq<(u32, u64)>, cid: u32) -> Option<u64>
    decreases s.len(),
{
    if s.len() == 0 {
        None
    } else if s[0].0 == cid {
        Some(s[0].1)
    } else {
        lookup_key(s.drop_first(), cid)
    }
}

/// The coefficient vectors of a ciphertext sequence.
pub open spec fn ct_coeffs_view(s: Seq<Ciphertext>) -> Seq<Seq<u64>> {
    s.map_values(|ct: Ciphertext| ct.coeffs@)
}

/// The server half of the protocol: holds the derived parameters, the
/// per-client rotation keys, and the preprocessed hypercube database.
pub struct PirServer {
    params: PirParams,
    keys: Vec<(u32, u64)>,
    pts: Vec<Vec<u64>>,
    elems: Ghost<Seq<Seq<u8>>>,
    ready: bool,
}

impl PirServer {
    /// The derived parameter set.
    pub closed spec fn params_spec(&self) -> PirParams {
        self.params
    }

    /// The collection currently encoded in the database.
    pub closed spec fn elems_spec(&self) -> Seq<Seq<u8>> {
        self.elems@
    }

    /// Whether `setup` has succeeded.
    pub closed spec fn ready_spec(&self) -> bool {
        self.ready
    }

    /// The rotation key registered for `cid`, if any.
    pub closed spec fn registered_key(&self, cid: u32) -> Option<u64> {
        lookup_key(self.keys@, cid)
    }

    /// Valid parameters; once ready, the stored plaintexts are exactly the
    /// padded hypercube encoding of the collection.
    pub closed spec fn wf(&self) -> bool {
        &&& self.params.wf()
        &&& self.ready ==> {
            &&& db_wf(self.params, self.elems@)
            &&& self.pts.deep_view() == pts_of(self.params, self.elems@)
            &&& self.pts@.len() == self.params.md
        }
    }

    /// Builds a server for the given configuration; fails with
    /// `ParameterError` exactly when the inputs admit no parameter set.
    /// The new server holds no keys and no database.
    pub fn new(ele_num: u32, ele_size: u32, poly_degree: u32, log_plain_mod: u32, d: u32) -> (r:
        Result<PirServer, PirError>)
        ensures
            match r {
                Ok(s) => {
                    &&& s.wf()
                    &&& s.params_spec().wf()
                    &&& !s.ready_spec()
                    &&& s.params_spec().ele_num == ele_num
                    &&& s.params_spec().ele_size == ele_size
                    &&& s.params_spec().n == poly_degree
                    &&& s.params_spec().logt == log_plain_mod
                    &&& s.params_spec().d == d
                    &&& forall|cid: u32| #[trigger] s.registered_key(cid) == None::<u64>
                    &&& inputs_admissible(ele_num, ele_size, poly_degree, log_plain_mod, d)
                },
                Err(e) => {
                    &&& e == PirError::ParameterError
                    &&& !inputs_admissible(ele_num, ele_size, poly_degree, log_plain_mod, d)
                },
            },
    {
        let params = match PirParams::derive(ele_num, ele_size, poly_degree, log_plain_mod, d) {
            Ok(p) => p,
            Err(e) => {
                return Err(e);
            },
        };
        Ok(
            PirServer {
                params,
                keys: Vec::new(),
                pts: Vec::new(),
                elems: Ghost(Seq::empty()),
                ready: false,
            },
        )
    }

    /// Registers (or replaces) the rotation key for `client_id`. Fails
    /// with `MalformedBytes` exactly when `key` is not a serialized
    /// rotation key.
    pub fn set_galois_key(&mut self, key: &[u8], client_id: u32) -> (r: Result<(), PirError>)
        requires
            old(self).wf(),
        ensures
            final(self).wf(),
            final(self).params_spec() == old(self).params_spec(),
            final(self).elems_spec() == old(self).elems_spec(),
            final(self).ready_spec() == old(self).ready_spec(),
            match r {
                Ok(()) => {
                    &&& key@.len() == 8
                    &&& final(self).registered_key(client_id) == Some(spec_u64_from_le_bytes(key@))
                    &&& forall|cid: u32|
                        cid != client_id ==> #[trigger] final(self).registered_key(cid) == old(
                            self,
                        ).registered_key(cid)
                },
                Err(e) => {
                    &&& e == PirError::MalformedBytes
                    &&& key@.len() != 8
                    &&& final(self).registered_key(client_id) == old(self).registered_key(client_id)
                    &&& forall|cid: u32|
                        #[trigger] final(self).registered_key(cid) == old(self).registered_key(cid)
                },
            },
    {
        let id = match parse_key_bytes(key) {
            Some(v) => v,
            None => {
                return Err(PirError::MalformedBytes);
            },
        };
        let ghost prev = self.keys@;
        self.keys.insert(0, (client_id, id));
        proof {
            assert(self.keys@.drop_first() =~= prev);
            assert(lookup_key(self.keys@, client_id) == Some(id));
            assert forall|cid: u32| cid != client_id implies #[trigger] lookup_key(
                self.keys@,
                cid,
            ) == lookup_key(prev, cid) by {
                assert(self.keys@[0].0 != cid);
            }
        }
        Ok(())
    }

    /// Encodes the whole collection into the padded hypercube and
    /// preprocesses it. Fails with `SizeMismatch`, leaving the server
    /// untouched, exactly when the collection's length or an element's
    /// size disagrees with the parameters.
    pub fn setup(&mut self, collection: &Vec<Vec<u8>>) -> (r: Result<(), PirError>)
        requires
            old(self).wf(),
        ensures
            final(self).wf(),
            final(self).params_spec() == old(self).params_spec(),
            forall|cid: u32|
                #[trigger] final(self).registered_key(cid) == old(self).registered_key(cid),
            match r {
                Ok(()) => {
                    &&& db_wf(final(self).params_spec(), collection.deep_view())
                    &&& final(self).ready_spec()
                    &&& final(self).elems_spec() == collection.deep_view()
                },
                Err(e) => {
                    &&& e == PirError::SizeMismatch
                    &&& !db_wf(final(self).params_spec(), collection.deep_view())
                    &&& *final(self) == *old(self)
                },
            },
    {
        let prm = &self.params;
        let ghost elems = collection.deep_view();
        if collection.len() != prm.ele_num {
            return Err(PirError::SizeMismatch);
        }
        let mut g: usize = 0;
        while g < collection.len()
            invariant
                g <= collection@.len(),
                elems == collection.deep_view(),
                forall|g2: int| 0 <= g2 < g ==> (#[trigger] elems[g2]).len() == prm.ele_size,
            decreases collection@.len() - g,
        {
            if collection[g].len() != prm.ele_size {
                proof {
                    assert(elems[g as int].len() != prm.ele_size);
                }
                return Err(PirError::SizeMismatch);
            }
            proof {
                assert(elems[g as int] == collection@[g as int]@);
            }
            g += 1;
        }
        let mut pts: Vec<Vec<u64>> = Vec::new();
        let mut i: usize = 0;
        while i < self.params.md
            invariant
                i <= self.params.md,
                self.params == *prm,
                prm.wf(),
                db_wf(*prm, elems),
                elems == collection.deep_view(),
                pts@.len() == i,
                forall|i2: int|
                    0 <= i2 < i ==> (#[trigger] pts@[i2])@ == pt_of(*prm, elems, i2),
            decreases self.params.md - i,
        {
            let p = encode_pt(&self.params, collection, i);
            pts.push(p);
            i += 1;
        }
        proof {
            assert forall|i2: int| 0 <= i2 < prm.md implies #[trigger] pts.deep_view()[i2]
                == pt_of(*prm, elems, i2) by {
                assert(pts.deep_view()[i2] == pts@[i2].deep_view());
                assert(pts@[i2].deep_view() =~= pts@[i2]@);
            }
            assert(pts.deep_view() =~~= pts_of(*prm, elems));
        }
        self.pts = pts;
        self.elems = Ghost(elems);
        self.ready = true;
        Ok(())
    }

    /// Same setup, from one flat byte buffer of `element_size`-sized
    /// elements.
    pub fn setup_bytes(&mut self, collection: &[u8], element_size: usize) -> (r: Result<
        (),
        PirError,
    >)
        requires
            old(self).wf(),
        ensures
            final(self).wf(),
            final(self).params_spec() == old(self).params_spec(),
            forall|cid: u32|
                #[trigger] final(self).registered_key(cid) == old(self).registered_key(cid),
            match r {
                Ok(()) => {
                    &&& element_size == final(self).params_spec().ele_size
                    &&& collection@.len() == final(self).params_spec().ele_num
                        * final(self).params_spec().ele_size
                    &&& final(self).ready_spec()
                    &&& final(self).elems_spec() == chunks_of(
                        collection@,
                        final(self).params_spec().ele_num as nat,
                        final(self).params_spec().ele_size as nat,
                    )
                },
                Err(e) => {
                    &&& e == PirError::SizeMismatch
                    &&& !(element_size == final(self).params_spec().ele_size && collection@.len()
                        == final(self).params_spec().ele_num * final(self).params_spec().ele_size)
                    &&& *final(self) == *old(self)
                },
            },
    {
        let chunked = match chunk_collection(&self.params, collection, element_size) {
            Some(v) => v,
            None => {
                return Err(PirError::SizeMismatch);
            },
        };
        let r = self.setup(&chunked);
        proof {
            assert(db_wf(self.params_spec(), chunked.deep_view()));
        }
        match r {
            Ok(()) => Ok(()),
            Err(e) => Err(e),
        }
    }

    /// Re-encodes only the plaintext that `index` lives in, taking the
    /// affected elements from `collection`; every other plaintext is left
    /// untouched. Fails — leaving the server untouched — with `NotReady`
    /// before `setup`, with `SizeMismatch` on a collection of the wrong
    /// shape, and with `IndexOutOfRange` on an index past the element
    /// count.
    pub fn update(&mut self, collection: &Vec<Vec<u8>>, index: usize) -> (r: Result<(), PirError>)
        requires
            old(self).wf(),
        ensures
            final(self).wf(),
            final(self).params_spec() == old(self).params_spec(),
            final(self).ready_spec() == old(self).ready_spec(),
            forall|cid: u32|
                #[trigger] final(self).registered_key(cid) == old(self).registered_key(cid),
            match r {
                Ok(()) => {
                    &&& old(self).ready_spec()
                    &&& db_wf(final(self).params_spec(), collection.deep_view())
                    &&& index < final(self).params_spec().ele_num
                    &&& final(self).elems_spec() == merged_view(
                        final(self).params_spec(),
                        old(self).elems_spec(),
                        collection.deep_view(),
                        index as int,
                    )
                },
                Err(e) => {
                    &&& *final(self) == *old(self)
                    &&& (e == PirError::NotReady <==> !old(self).ready_spec())
                    &&& (e == PirError::SizeMismatch <==> old(self).ready_spec() && !db_wf(
                        final(self).params_spec(),
                        collection.deep_view(),
                    ))
                    &&& (e == PirError::IndexOutOfRange <==> old(self).ready_spec() && db_wf(
                        final(self).params_spec(),
                        collection.deep_view(),
                    ) && index >= final(self).params_spec().ele_num)
                    &&& (e == PirError::NotReady || e == PirError::SizeMismatch || e
                        == PirError::IndexOutOfRange)
                },
            },
    {
        let prm = &self.params;
        proof {
            prm.lemma_wf_bounds();
        }
        let ghost newelems = collection.deep_view();
        if !self.ready {
            return Err(PirError::NotReady);
        }
        if collection.len() != prm.ele_num {
            return Err(PirError::SizeMismatch);
        }
        let mut g: usize = 0;
        while g < collection.len()
            invariant
                g <= collection@.len(),
                newelems == collection.deep_view(),
                prm.ele_num == collection@.len(),
                forall|g2: int| 0 <= g2 < g ==> (#[trigger] newelems[g2]).len() == prm.ele_size,
            decreases collection@.len() - g,
        {
            if collection[g].len() != prm.ele_size {
                proof {
                    assert(newelems[g as int].len() != prm.ele_size);
                }
                return Err(PirError::SizeMismatch);
            }
            proof {
                assert(newelems[g as int] == collection@[g as int]@);
            }
            g += 1;
        }
        if index >= prm.ele_num {
            return Err(PirError::IndexOutOfRange);
        }
        let pt_i = index / prm.epp;
        proof {
            vstd::arithmetic::div_mod::lemma_div_pos_is_pos(index as int, prm.epp as int);
            crate::encode::lemma_pt_slice(*prm, newelems, index as int);
        }
        let newpt = encode_pt(&self.params, collection, pt_i);
        let ghost oldelems = self.elems@;
        let ghost merged = merged_view(*prm, oldelems, newelems, index as int);
        let ghost oldpts = self.pts.deep_view();
        self.pts.set(pt_i, newpt);
        self.elems = Ghost(merged);
        proof {
            // The re-encoded plaintext reads only elements of its own
            // group, where the merged collection agrees with the new one.
            assert(pt_of(*prm, newelems, pt_i as int) =~= pt_of(*prm, merged, pt_i as int)) by {
                assert forall|c: int| 0 <= c < prm.n implies crate::encode::pt_coeff(
                    *prm,
                    newelems,
                    pt_i as int,
                    c,
                ) == crate::encode::pt_coeff(*prm, merged, pt_i as int, c) by {
                    let e = c / prm.ele_size as int;
                    let gg = pt_i as int * prm.epp as int + e;
                    if e < prm.epp && 0 <= gg < prm.ele_num {
                        assert(gg / (prm.epp as int) == pt_i as int) by {
                            vstd::arithmetic::div_mod::lemma_div_pos_is_pos(
                                c,
                                prm.ele_size as int,
                            );
                            vstd::arithmetic::div_mod::lemma_div_multiples_vanish_fancy(
                                pt_i as int,
                                e,
                                prm.epp as int,
                            );
                        }
                        assert(merged[gg] == newelems[gg]);
                    }
                }
            }
            // Every other plaintext reads only elements of other groups,
            // which the merge leaves as they were.
            assert forall|i2: int| 0 <= i2 < prm.md && i2 != pt_i implies #[trigger] pt_of(
                *prm,
                oldelems,
                i2,
            ) =~= pt_of(*prm, merged, i2) by {
                assert forall|c: int| 0 <= c < prm.n implies crate::encode::pt_coeff(
                    *prm,
                    oldelems,
                    i2,
                    c,
                ) == crate::encode::pt_coeff(*prm, merged, i2, c) by {
                    let e = c / prm.ele_size as int;
                    let gg = i2 * prm.epp as int + e;
                    if e < prm.epp && 0 <= gg < prm.ele_num {
                        assert(gg / (prm.epp as int) == i2) by {
                            vstd::arithmetic::div_mod::lemma_div_pos_is_pos(
                                c,
                                prm.ele_size as int,
                            );
                            vstd::arithmetic::div_mod::lemma_div_multiples_vanish_fancy(
                                i2,
                                e,
                                prm.epp as int,
                            );
                        }
                        assert(merged[gg] == oldelems[gg]);
                    }
                }
            }
            assert(self.pts.deep_view() =~~= pts_of(*prm, merged)) by {
                assert forall|i2: int| 0 <= i2 < self.pts@.len() implies #[trigger] self.pts.deep_view()[i2] == oldpts.update(
                    pt_i as int,
                    pt_of(*prm, newelems, pt_i as int),
                )[i2] by {
                    assert(self.pts.deep_view()[i2] == self.pts@[i2].deep_view());
                    assert(self.pts@[i2].deep_view() =~= self.pts@[i2]@);
                    if i2 != pt_i {
                        assert(self.pts@[i2] == old(self).pts@[i2]);
                        assert(oldpts[i2] == old(self).pts@[i2].deep_view());
                        assert(old(self).pts@[i2].deep_view() =~= old(self).pts@[i2]@);
                    } else {
                        assert(self.pts@[i2]@ == pt_of(*prm, newelems, pt_i as int));
                    }
                }
                assert(self.pts.deep_view() =~= oldpts.update(
                    pt_i as int,
                    pt_of(*prm, newelems, pt_i as int),
                ));
                assert forall|i2: int| 0 <= i2 < prm.md implies #[trigger] self.pts.deep_view()[i2]
                    == pts_of(*prm, merged)[i2] by {
                    if i2 == pt_i {
                    } else {
                        assert(oldpts[i2] == pt_of(*prm, oldelems, i2));
                    }
                }
            }
            assert(db_wf(*prm, merged));
        }
        Ok(())
    }

    /// Same update, from one flat byte buffer.
    pub fn update_bytes(&mut self, collection: &[u8], element_size: usize, index: usize) -> (r:
        Result<(), PirError>)
        requires
            old(self).wf(),
        ensures
            final(self).wf(),
            final(self).params_spec() == old(self).params_spec(),
            final(self).ready_spec() == old(self).ready_spec(),
            forall|cid: u32|
                #[trigger] final(self).registered_key(cid) == old(self).registered_key(cid),
            match r {
                Ok(()) => {
                    &&& old(self).ready_spec()
                    &&& element_size == final(self).params_spec().ele_size
                    &&& collection@.len() == final(self).params_spec().ele_num
                        * final(self).params_spec().ele_size
                    &&& index < final(self).params_spec().ele_num
                    &&& final(self).elems_spec() == merged_view(
                        final(self).params_spec(),
                        old(self).elems_spec(),
                        chunks_of(
                            collection@,
                            final(self).params_spec().ele_num as nat,
                            final(self).params_spec().ele_size as nat,
                        ),
                        index as int,
                    )
                },
                Err(e) => {
                    &&& *final(self) == *old(self)
                    &&& (e == PirError::NotReady <==> !old(self).ready_spec())
                    &&& (e == PirError::SizeMismatch <==> old(self).ready_spec() && !(element_size
                        == final(self).params_spec().ele_size && collection@.len()
                        == final(self).params_spec().ele_num * final(self).params_spec().ele_size))
                    &&& (e == PirError::IndexOutOfRange <==> old(self).ready_spec() && element_size
                        == final(self).params_spec().ele_size && collection@.len()
                        == final(self).params_spec().ele_num * final(self).params_spec().ele_size
                        && index >= final(self).params_spec().ele_num)
                    &&& (e == PirError::NotReady || e == PirError::SizeMismatch || e
                        == PirError::IndexOutOfRange)
                },
            },
    {
        let chunked = match chunk_collection(&self.params, collection, element_size) {
            Some(v) => v,
            None => {
                if !self.ready {
                    return Err(PirError::NotReady);
                }
                return Err(PirError::SizeMismatch);
            },
        };
        self.update(&chunked, index)
    }
}

/// The collection after an update: the group of elements sharing the
/// updated index's plaintext is taken from the new collection, the rest
/// stays.
pub open spec fn merged_view(
    prm: PirParams,
    olde: Seq<Seq<u8>>,
    newe: Seq<Seq<u8>>,
    index: int,
) -> Seq<Seq<u8>> {
    Seq::new(
        olde.len(),
        |g: int|
            if g / (prm.epp as int) == index / (prm.epp as int) {
                newe[g]
            } else {
                olde[g]
            },
    )
}

/// The flat buffer split into `cnt` pieces of `size` bytes.
pub open spec fn chunks_of(bytes: Seq<u8>, cnt: nat, size: nat) -> Seq<Seq<u8>> {
    Seq::new(cnt, |g: int| bytes.subrange(g * size, (g + 1) * size))
}

/// Splits a flat buffer into elements if its shape fits the parameters.
fn chunk_collection(prm: &PirParams, collection: &[u8], element_size: usize) -> (r: Option<
    Vec<Vec<u8>>,
>)
    requires
        prm.wf(),
    ensures
        match r {
            Some(v) => {
                &&& element_size == prm.ele_size
                &&& collection@.len() == prm.ele_num * prm.ele_size
                &&& v.deep_view() == chunks_of(collection@, prm.ele_num as nat, prm.ele_size as nat)
                &&& v@.len() == prm.ele_num
                &&& db_wf(*prm, v.deep_view())
            },
            None => !(element_size == prm.ele_size && collection@.len() == prm.ele_num
                * prm.ele_size),
        },
{
    proof {
        prm.lemma_wf_bounds();
    }
    if element_size != prm.ele_size {
        return None;
    }
    proof {
        assert(prm.ele_num * prm.ele_size as int <= 0x1000_0000 * 0x10000) by (nonlinear_arith)
            requires
                0 <= prm.ele_num <= 0x1000_0000,
                0 <= prm.ele_size <= 0x10000,
        ;
    }
    let expect: u64 = (prm.ele_num as u64) * (prm.ele_size as u64);
    if (collection.len() as u64) != expect {
        return None;
    }
    let mut out: Vec<Vec<u8>> = Vec::new();
    let mut g: usize = 0;
    while g < prm.ele_num
        invariant
            g <= prm.ele_num,
            out@.len() == g,
            collection@.len() == prm.ele_num * prm.ele_size,
            forall|g2: int|
                0 <= g2 < g ==> (#[trigger] out@[g2])@ == collection@.subrange(
                    g2 * prm.ele_size as int,
                    (g2 + 1) * prm.ele_size as int,
                ),
        decreases prm.ele_num - g,
    {
        proof {
            assert(g * prm.ele_size as int + prm.ele_size as int == (g + 1) * prm.ele_size as int)
                by (nonlinear_arith);
            assert((g + 1) * prm.ele_size as int <= prm.ele_num * prm.ele_size as int)
                by (nonlinear_arith)
                requires
                    0 <= g < prm.ele_num,
                    0 <= prm.ele_size,
            ;
        }
        let start = g * element_size;
        let mut piece: Vec<u8> = Vec::new();
        let mut b: usize = 0;
        while b < element_size
            invariant
                b <= element_size,
                element_size == prm.ele_size,
                piece@.len() == b,
                start == g * prm.ele_size as int,
                start + element_size <= collection@.len(),
                forall|b2: int| 0 <= b2 < b ==> #[trigger] piece@[b2] == collection@[start + b2],
            decreases element_size - b,
        {
            piece.push(collection[start + b]);
            b += 1;
        }
        proof {
            assert(piece@ =~= collection@.subrange(
                g * prm.ele_size as int,
                (g + 1) * prm.ele_size as int,
            ));
        }
        out.push(piece);
        g += 1;
    }
    proof {
        assert forall|g2: int| 0 <= g2 < prm.ele_num implies #[trigger] out.deep_view()[g2]
            == collection@.subrange(
            g2 * prm.ele_size as int,
            (g2 + 1) * prm.ele_size as int,
        ) by {
            assert(out.deep_view()[g2] == out@[g2].deep_view());
            assert(out@[g2].deep_view() =~= out@[g2]@);
        }
        assert(out.deep_view() =~~= chunks_of(collection@, prm.ele_num as nat, prm.ele_size as nat));
        assert forall|g2: int| 0 <= g2 < out.deep_view().len() implies (#[trigger] out.deep_view()[
            g2]).len() == prm.ele_size by {
            assert(out.deep_view()[g2] == collection@.subrange(
                g2 * prm.ele_size as int,
                (g2 + 1) * prm.ele_size as int,
            ));
            assert(g2 * prm.ele_size as int + prm.ele_size as int == (g2 + 1)
                * prm.ele_size as int) by (nonlinear_arith);
            assert((g2 + 1) * prm.ele_size as int <= prm.ele_num * prm.ele_size as int)
                by (nonlinear_arith)
                requires
                    0 <= g2 < prm.ele_num,
                    0 <= prm.ele_size,
            ;
        }
    }
    Some(out)
}

/// Finds the first registration for `cid`.
fn lookup(keys: &Vec<(u32, u64)>, cid: u32) -> (r: Option<u64>)
    ensures
        r == lookup_key(keys@, cid),
{
    let mut i: usize = 0;
    proof {
        assert(keys@.subrange(0, keys@.len() as int) =~= keys@);
    }
    while i < keys.len()
        invariant
            i <= keys@.len(),
            lookup_key(keys@, cid) == lookup_key(keys@.subrange(i as int, keys@.len() as int), cid),
        decreases keys@.len() - i,
    {
        let ghost rest = keys@.subrange(i as int, keys@.len() as int);
        proof {
            assert(rest[0] == keys@[i as int]);
            assert(rest.drop_first() =~= keys@.subrange(i + 1, keys@.len() as int));
        }
        if keys[i].0 == cid {
            return Some(keys[i].1);
        }
        i += 1;
    }
    proof {
        assert(keys@.subrange(keys@.len() as int, keys@.len() as int) =~= Seq::<(
            u32,
            u64,
        )>::empty());
    }
    None
}

impl PirServer {
    /// Computes the reply to a compressed query: expands the per-dimension
    /// selection values with the client's rotation key, then folds the
    /// hypercube with one homomorphic multiply-and-reduce round per
    /// dimension, collapsing it to the single ciphertext framed in the
    /// reply. Fails with `KeyNotRegistered` exactly when no rotation key
    /// is registered for `client_id`, with `NotReady` before `setup`, and
    /// with `MalformedBytes` when the query bytes do not frame `q_cts`
    /// well-formed ciphertexts.
    #[verifier::rlimit(50)]
    pub fn gen_reply(&self, query: &PirQuery, client_id: u32) -> (r: Result<PirReply, PirError>)
        requires
            self.wf(),
        ensures
            match r {
                Ok(rep) => {
                    &&& self.registered_key(client_id) is Some
                    &&& self.ready_spec()
                    &&& query.num == self.params_spec().q_cts
                    &&& blocks_wf(
                        query.query@,
                        query.num as nat,
                        self.params_spec().n as nat,
                        self.params_spec().t,
                    )
                    &&& rep.num == 1
                    &&& rep.reply@.len() == ct_size_spec(self.params_spec().n as int)
                    &&& blocks_wf(rep.reply@, 1nat, self.params_spec().n as nat, self.params_spec().t)
                    &&& key_at(rep.reply@, 0) == key_at(query.query@, 0)
                    &&& coeffs_at(rep.reply@, 0, self.params_spec().n as nat) == reply_coeffs(
                        self.params_spec(),
                        query.query@,
                        pts_of(self.params_spec(), self.elems_spec()),
                    )
                    &&& (query_noise_fresh(self.params_spec(), query.query@, query.num as nat)
                        ==> noise_at(rep.reply@, 0) > 0)
                },
                Err(e) => {
                    &&& (e == PirError::KeyNotRegistered <==> self.registered_key(client_id)
                        is None)
                    &&& (e == PirError::NotReady <==> self.registered_key(client_id) is Some
                        && !self.ready_spec())
                    &&& (e == PirError::MalformedBytes <==> self.registered_key(client_id) is Some
                        && self.ready_spec() && !(query.num == self.params_spec().q_cts
                        && blocks_wf(
                        query.query@,
                        query.num as nat,
                        self.params_spec().n as nat,
                        self.params_spec().t,
                    )))
                    &&& (e == PirError::KeyNotRegistered || e == PirError::NotReady || e
                        == PirError::MalformedBytes)
                },
            },
    {
        let prm = &self.params;
        proof {
            prm.lemma_wf_bounds();
        }
        let rk_val = match lookup(&self.keys, client_id) {
            Some(v) => v,
            None => {
                return Err(PirError::KeyNotRegistered);
            },
        };
        if !self.ready {
            return Err(PirError::NotReady);
        }
        if query.num as usize != prm.q_cts {
            return Err(PirError::MalformedBytes);
        }
        let qcts = match parse_cts(&query.query, prm.q_cts, prm.n, prm.t) {
            Some(v) => v,
            None => {
                return Err(PirError::MalformedBytes);
            },
        };
        let rk = RotationKey { id: rk_val };
        let ghost qb = query.query@;
        let ghost ptsv = self.pts.deep_view();
        let ghost freshq = query_noise_fresh(*prm, qb, prm.q_cts as nat);
        let ghost cs = ct_size_spec(prm.n as int);
        let key0 = qcts[0].key_id;
        proof {
            assert(0 * cs == 0) by (nonlinear_arith);
            assert(key0 == key_at(qb, 0));
            // The stored plaintexts have the row shape.
            assert(ptsv.len() == self.pts@.len());
            assert forall|rr: int| 0 <= rr < ptsv.len() implies (#[trigger] ptsv[rr]).len()
                == prm.n && all_lt(ptsv[rr], prm.t) by {
                assert(ptsv[rr] == pts_of(*prm, self.elems@)[rr]);
                crate::encode::lemma_pt_in_range(*prm, self.elems@, rr);
            }
            assert(crate::model::rows_wf(*prm, ptsv));
            // Each query ciphertext is what the frame shows.
            assert forall|ci: int| 0 <= ci < prm.q_cts implies (#[trigger] qcts@[ci]).coeffs@
                == coeffs_at(qb, ci * cs, prm.n as nat) by {}
        }
        // First reduction round: plaintext rows against dimension 0.
        let rows1 = self.pts.len() / prm.m;
        proof {
            assert(fold_upto(*prm, qb, ptsv, 0nat) == ptsv);
            assert(fold_upto(*prm, qb, ptsv, 1nat) == pass(
                *prm,
                qb,
                0,
                fold_upto(*prm, qb, ptsv, 0nat),
            ));
            assert(pass(*prm, qb, 0, ptsv).len() == ptsv.len() / prm.m as nat);
        }
        let inds0 = expand_dim(prm, &qcts, &rk, 0, Ghost(qb));
        let mut cur: Vec<Ciphertext> = Vec::new();
        let mut r: usize = 0;
        while r < rows1
            invariant
                r <= rows1,
                rows1 == ptsv.len() / prm.m as nat,
                cur@.len() == r,
                forall|r2: int|
                    0 <= r2 < r ==> {
                        &&& (#[trigger] cur@[r2]).wf(prm.n as int, prm.t)
                        &&& cur@[r2].coeffs@ == fold_upto(*prm, qb, ptsv, 1nat)[r2]
                        &&& cur@[r2].key_id == key0
                        &&& (freshq ==> cur@[r2].noise as int >= 62)
                    },
            decreases rows1 - r,
        {
            proof {
                assert(r * prm.m as int + prm.m as int == (r + 1) * prm.m as int)
                    by (nonlinear_arith);
                assert((r + 1) * prm.m as int <= rows1 * prm.m as int) by (nonlinear_arith)
                    requires
                        0 <= r < rows1,
                        0 <= prm.m,
                ;
                assert(rows1 * prm.m as int <= ptsv.len()) by {
                    lemma_fundamental_div_mod(ptsv.len() as int, prm.m as int);
                    lemma_mod_bound(ptsv.len() as int, prm.m as int);
                }
            }
            let mut acc = zero_ct(key0, prm.n);
            let mut j: usize = 0;
            while j < prm.m
                invariant
                    j <= prm.m,
                    r < rows1,
                    rows1 == ptsv.len() / prm.m as nat,
                    r * prm.m as int + prm.m as int <= ptsv.len(),
                    acc.wf(prm.n as int, prm.t),
                    acc.coeffs@ == row_fold(*prm, qb, 0, ptsv, r * prm.m as int, j as nat),
                    acc.key_id == key0,
                    freshq ==> acc.noise as int >= 62,
                decreases prm.m - j,
            {
                let idx = r * prm.m + j;
                proof {
                    assert(ptsv[idx as int] == self.pts@[idx as int].deep_view());
                    assert(self.pts@[idx as int].deep_view() =~= self.pts@[idx as int]@);
                    assert(0 * prm.m as int + j == j as int) by (nonlinear_arith);
                    assert(sel_val(*prm, qb, 0, j as int) == q_slot(*prm, qb, j as int));
                }
                let indj = &inds0[j];
                if indj.coeffs[0] != 0 {
                    let acc2 = ct_mul_plain_add(&acc, indj, &self.pts[idx], prm.n, prm.t);
                    proof {
                        lemma_mul_const_scale(
                            prm.n as nat,
                            q_slot(*prm, qb, j as int),
                            ptsv[idx as int],
                            prm.t,
                        );
                        assert(crate::backend::seq_mul_mod(indj.coeffs@, ptsv[idx as int], prm.t)
                            == scale_mod(sel_val(*prm, qb, 0, j as int), ptsv[idx as int], prm.t));
                        assert(acc2.coeffs@ == row_fold(
                            *prm,
                            qb,
                            0,
                            ptsv,
                            r * prm.m as int,
                            (j + 1) as nat,
                        ));
                        if freshq {
                            assert(indj.noise == 63);
                            assert(acc2.noise as int >= 62);
                        }
                    }
                    acc = acc2;
                } else {
                    // A zero selection contributes the zero row: the
                    // accumulator already is the next partial fold.
                    proof {
                        assert(indj.coeffs@[0] == q_slot(*prm, qb, j as int));
                        assert(sel_val(*prm, qb, 0, j as int) == 0);
                        crate::model::lemma_scale_zero(*prm, ptsv[idx as int]);
                        crate::model::lemma_add_zero(*prm, acc.coeffs@);
                        assert(acc.coeffs@ == row_fold(
                            *prm,
                            qb,
                            0,
                            ptsv,
                            r * prm.m as int,
                            (j + 1) as nat,
                        ));
                    }
                }
                j += 1;
            }
            proof {
                assert(pass(*prm, qb, 0, ptsv)[r as int] == row_fold(
                    *prm,
                    qb,
                    0,
                    ptsv,
                    r as int * prm.m as int,
                    prm.m as nat,
                ));
            }
            cur.push(acc);
            r += 1;
        }
        proof {
            assert(ct_coeffs_view(cur@) =~= fold_upto(*prm, qb, ptsv, 1nat));
        }
        // Later rounds: ciphertext rows against dimensions 1 .. d.
        let mut kk: usize = 1;
        while kk < prm.d
            invariant
                1 <= kk <= prm.d,
                ct_coeffs_view(cur@) == fold_upto(*prm, qb, ptsv, kk as nat),
                forall|r2: int|
                    0 <= r2 < cur@.len() ==> {
                        &&& (#[trigger] cur@[r2]).wf(prm.n as int, prm.t)
                        &&& cur@[r2].key_id == key0
                        &&& (freshq ==> cur@[r2].noise as int >= 63 - kk)
                    },
            decreases prm.d - kk,
        {
            let ghost pv = ct_coeffs_view(cur@);
            let rows = cur.len() / prm.m;
            proof {
                assert(pv.len() == cur@.len());
                assert(fold_upto(*prm, qb, ptsv, (kk + 1) as nat) == pass(*prm, qb, kk as int, pv));
                assert(pass(*prm, qb, kk as int, pv).len() == pv.len() / prm.m as nat);
            }
            let indsk = expand_dim(prm, &qcts, &rk, kk, Ghost(qb));
            let mut nxt: Vec<Ciphertext> = Vec::new();
            let mut r2: usize = 0;
            while r2 < rows
                invariant
                    r2 <= rows,
                    1 <= kk < prm.d,
                    pv == ct_coeffs_view(cur@),
                    pv == fold_upto(*prm, qb, ptsv, kk as nat),
                    rows == pv.len() / prm.m as nat,
                    cur@.len() == pv.len(),
                    nxt@.len() == r2,
                    forall|r3: int|
                        0 <= r3 < cur@.len() ==> {
                            &&& (#[trigger] cur@[r3]).wf(prm.n as int, prm.t)
                            &&& cur@[r3].key_id == key0
                            &&& (freshq ==> cur@[r3].noise as int >= 63 - kk)
                        },
                    forall|r3: int|
                        0 <= r3 < r2 ==> {
                            &&& (#[trigger] nxt@[r3]).wf(prm.n as int, prm.t)
                            &&& nxt@[r3].coeffs@ == pass(*prm, qb, kk as int, pv)[r3]
                            &&& nxt@[r3].key_id == key0
                            &&& (freshq ==> nxt@[r3].noise as int >= 63 - (kk + 1))
                        },
                decreases rows - r2,
            {
                proof {
                    assert(r2 * prm.m as int + prm.m as int == (r2 + 1) * prm.m as int)
                        by (nonlinear_arith);
                    assert((r2 + 1) * prm.m as int <= rows * prm.m as int) by (nonlinear_arith)
                        requires
                            0 <= r2 < rows,
                            0 <= prm.m,
                    ;
                    assert(rows * prm.m as int <= pv.len()) by {
                        lemma_fundamental_div_mod(pv.len() as int, prm.m as int);
                        lemma_mod_bound(pv.len() as int, prm.m as int);
                    }
                }
                let mut acc = zero_ct(key0, prm.n);
                let mut j: usize = 0;
                while j < prm.m
                    invariant
                        j <= prm.m,
                        r2 < rows,
                        1 <= kk < prm.d,
                        pv == ct_coeffs_view(cur@),
                        r2 * prm.m as int + prm.m as int <= cur@.len(),
                        cur@.len() == pv.len(),
                        forall|r3: int|
                            0 <= r3 < cur@.len() ==> {
                                &&& (#[trigger] cur@[r3]).wf(prm.n as int, prm.t)
                                &&& cur@[r3].key_id == key0
                                &&& (freshq ==> cur@[r3].noise as int >= 63 - kk)
                            },
                        acc.wf(prm.n as int, prm.t),
                        acc.coeffs@ == row_fold(*prm, qb, kk as int, pv, r2 * prm.m as int, j as nat),
                        acc.key_id == key0,
                        freshq ==> acc.noise as int >= 63 - (kk + 1),
                    decreases prm.m - j,
                {
                    let idx = r2 * prm.m + j;
                    proof {
                        assert(pv[idx as int] == cur@[idx as int].coeffs@);
                        assert(sel_val(*prm, qb, kk as int, j as int) == q_slot(
                            *prm,
                            qb,
                            kk as int * prm.m as int + j,
                        ));
                    }
                    let indj = &indsk[j];
                    if indj.coeffs[0] != 0 {
                        let acc2 = ct_mul_add(&acc, indj, &cur[idx], prm.n, prm.t);
                        proof {
                            lemma_mul_const_scale(
                                prm.n as nat,
                                q_slot(*prm, qb, kk as int * prm.m as int + j),
                                pv[idx as int],
                                prm.t,
                            );
                            assert(crate::backend::seq_mul_mod(
                                indj.coeffs@,
                                cur@[idx as int].coeffs@,
                                prm.t,
                            ) == scale_mod(
                                sel_val(*prm, qb, kk as int, j as int),
                                pv[idx as int],
                                prm.t,
                            ));
                            assert(acc2.coeffs@ == row_fold(
                                *prm,
                                qb,
                                kk as int,
                                pv,
                                r2 * prm.m as int,
                                (j + 1) as nat,
                            ));
                            if freshq {
                                assert(indj.noise == 63);
                                assert(acc2.noise as int >= 63 - (kk + 1));
                            }
                        }
                        acc = acc2;
                    } else {
                        // A zero selection contributes the zero row: the
                        // accumulator already is the next partial fold.
                        proof {
                            assert(indj.coeffs@[0] == q_slot(
                                *prm,
                                qb,
                                kk as int * prm.m as int + j,
                            ));
                            assert(sel_val(*prm, qb, kk as int, j as int) == 0);
                            crate::model::lemma_scale_zero(*prm, pv[idx as int]);
                            crate::model::lemma_add_zero(*prm, acc.coeffs@);
                            assert(acc.coeffs@ == row_fold(
                                *prm,
                                qb,
                                kk as int,
                                pv,
                                r2 * prm.m as int,
                                (j + 1) as nat,
                            ));
                        }
                    }
                    j += 1;
                }
                proof {
                    assert(pass(*prm, qb, kk as int, pv)[r2 as int] == row_fold(
                        *prm,
                        qb,
                        kk as int,
                        pv,
                        r2 as int * prm.m as int,
                        prm.m as nat,
                    ));
                }
                nxt.push(acc);
                r2 += 1;
            }
            proof {
                assert(ct_coeffs_view(nxt@) =~= pass(*prm, qb, kk as int, pv));
            }
            cur = nxt;
            kk += 1;
        }
        proof {
            lemma_fold_upto_len(*prm, qb, ptsv, prm.d as nat);
            assert(pow(prm.m as int, 0nat) == 1) by {
                vstd::arithmetic::power::lemma_pow0(prm.m as int);
            }
            assert(cur@.len() == 1);
            assert(cur@[0].coeffs@ == reply_coeffs(*prm, qb, ptsv));
        }
        let bytes = ser_cts(&cur, prm.n, prm.t);
        proof {
            assert(block_matches(bytes@, 0 * cs, cur@[0], prm.n as nat));
            assert(0 * cs == 0) by (nonlinear_arith);
            if freshq {
                assert(cur@[0].noise as int >= 63 - prm.d);
            }
        }
        Ok(PirReply { reply: bytes, num: 1 })
    }
}

/// The all-zero ciphertext that a reduction accumulator starts from.
fn zero_ct(key: u64, n: usize) -> (r: Ciphertext)
    ensures
        r.coeffs@ == const_seq(n as nat, 0u64),
        r.key_id == key,
        r.noise == u32::MAX,
{
    Ciphertext { key_id: key, noise: u32::MAX, coeffs: pt_zero(n) }
}

/// The mask plaintext: one in slot 0, zero elsewhere.
fn pt_unit(n: usize, t: u64) -> (r: Vec<u64>)
    requires
        1 <= n,
        2 <= t,
    ensures
        r@.len() == n,
        r@[0] == 1u64,
        forall|c: int| 1 <= c < n ==> #[trigger] r@[c] == 0u64,
        all_lt(r@, t),
{
    let mut out: Vec<u64> = Vec::new();
    out.push(1u64);
    let mut i: usize = 1;
    while i < n
        invariant
            1 <= i <= n,
            out@.len() == i,
            out@[0] == 1u64,
            forall|c: int| 1 <= c < i ==> #[trigger] out@[c] == 0u64,
        decreases n - i,
    {
        out.push(0u64);
        i += 1;
    }
    out
}

/// Expands one whole dimension of the query: the selection value at
/// every position of axis `k`, each broadcast to all slots. Computed
/// once per dimension and reused across every reduction group.
fn expand_dim(
    prm: &PirParams,
    qcts: &Vec<Ciphertext>,
    rk: &RotationKey,
    k: usize,
    Ghost(qb): Ghost<Seq<u8>>,
) -> (r: Vec<Ciphertext>)
    requires
        prm.wf(),
        k < prm.d,
        qcts@.len() == prm.q_cts,
        forall|ci: int| 0 <= ci < qcts@.len() ==> (#[trigger] qcts@[ci]).wf(prm.n as int, prm.t),
        forall|ci: int|
            0 <= ci < qcts@.len() ==> (#[trigger] qcts@[ci]).coeffs@ == coeffs_at(
                qb,
                ci * ct_size_spec(prm.n as int),
                prm.n as nat,
            ),
        forall|ci: int|
            0 <= ci < qcts@.len() ==> (#[trigger] qcts@[ci]).noise == noise_at(
                qb,
                ci * ct_size_spec(prm.n as int),
            ),
    ensures
        r@.len() == prm.m,
        forall|j: int|
            0 <= j < prm.m ==> {
                &&& (#[trigger] r@[j]).wf(prm.n as int, prm.t)
                &&& r@[j].coeffs@ == const_seq(
                    prm.n as nat,
                    q_slot(*prm, qb, k * prm.m as int + j),
                )
                &&& (query_noise_fresh(*prm, qb, prm.q_cts as nat) ==> r@[j].noise == 63)
            },
{
    let ghost freshq = query_noise_fresh(*prm, qb, prm.q_cts as nat);
    let mut out: Vec<Ciphertext> = Vec::with_capacity(prm.m);
    let mut j: usize = 0;
    while j < prm.m
        invariant
            j <= prm.m,
            out@.len() == j,
            forall|j2: int|
                0 <= j2 < j ==> {
                    &&& (#[trigger] out@[j2]).wf(prm.n as int, prm.t)
                    &&& out@[j2].coeffs@ == const_seq(
                        prm.n as nat,
                        q_slot(*prm, qb, k * prm.m as int + j2),
                    )
                    &&& (freshq ==> out@[j2].noise == 63)
                },
        decreases prm.m - j,
    {
        let ind = expand_sel(prm, &qcts, &rk, k, j, Ghost(qb));
        proof {
            if freshq {
                let ci = (k as int * prm.m as int + j) / (prm.n as int);
                assert(0 <= ci < prm.q_cts);
                assert(noise_at(qb, ci * ct_size_spec(prm.n as int)) == FRESH_NOISE);
                assert(qcts@[ci].noise == noise_at(qb, ci * ct_size_spec(prm.n as int)));
                assert(ind.noise == dec1(qcts@[ci].noise));
                assert(ind.noise == 63);
            }
        }
        out.push(ind);
        j += 1;
    }
    out
}

/// Extracts the selection value at dimension `k`, position `j` from the
/// compressed query: rotate its slot to the front, mask everything else
/// off, and broadcast it to every slot by doubling rotations.
#[verifier::rlimit(30)]
fn expand_sel(
    prm: &PirParams,
    qcts: &Vec<Ciphertext>,
    rk: &RotationKey,
    k: usize,
    j: usize,
    Ghost(qb): Ghost<Seq<u8>>,
) -> (r: Ciphertext)
    requires
        prm.wf(),
        k < prm.d,
        j < prm.m,
        qcts@.len() == prm.q_cts,
        forall|ci: int| 0 <= ci < qcts@.len() ==> (#[trigger] qcts@[ci]).wf(prm.n as int, prm.t),
        forall|ci: int|
            0 <= ci < qcts@.len() ==> (#[trigger] qcts@[ci]).coeffs@ == coeffs_at(
                qb,
                ci * ct_size_spec(prm.n as int),
                prm.n as nat,
            ),
    ensures
        r.wf(prm.n as int, prm.t),
        r.coeffs@ == const_seq(prm.n as nat, q_slot(*prm, qb, k * prm.m as int + j)),
        r.key_id == qcts@[(k * prm.m as int + j) / (prm.n as int)].key_id,
        r.noise == dec1(qcts@[(k * prm.m as int + j) / (prm.n as int)].noise),
        0 <= (k * prm.m as int + j) / (prm.n as int) && (k * prm.m as int + j) / (prm.n as int)
            < prm.q_cts,
{
    proof {
        prm.lemma_wf_bounds();
        assert((k * prm.m as int + j) < prm.d * prm.m as int) by (nonlinear_arith)
            requires
                0 <= k < prm.d,
                0 <= j < prm.m,
        ;
    }
    let p = k * prm.m + j;
    let ci = p / prm.n;
    let sl = p % prm.n;
    proof {
        lemma_mod_bound(p as int, prm.n as int);
        vstd::arithmetic::div_mod::lemma_div_pos_is_pos(p as int, prm.n as int);
        assert(ci < prm.q_cts) by {
            lemma_fundamental_div_mod(p as int, prm.n as int);
            assert(p as int == (prm.n as int) * (ci as int) + (sl as int));
            assert((p as int) < (prm.d as int) * (prm.m as int));
            assert((prm.d as int) * (prm.m as int) <= (prm.q_cts as int) * (prm.n as int));
            assert((ci as int * prm.n as int + sl as int) < (prm.q_cts as int) * (prm.n as int))
                by (nonlinear_arith)
                requires
                    p as int == (prm.n as int) * (ci as int) + (sl as int),
                    (p as int) < (prm.d as int) * (prm.m as int),
                    (prm.d as int) * (prm.m as int) <= (prm.q_cts as int) * (prm.n as int),
            ;
            assert((ci as int) < prm.q_cts as int) by (nonlinear_arith)
                requires
                    (ci as int * prm.n as int + sl as int) < (prm.q_cts as int) * (prm.n as int),
                    0 <= sl,
                    0 < prm.n,
                    0 <= ci,
            ;
        }
    }
    let src = &qcts[ci];
    let rot = ct_rotate(src, sl, rk, prm.n, prm.t);
    let ghost v = src.coeffs@[sl as int];
    proof {
        assert(rot.coeffs@[0] == src.coeffs@[(0 + sl as int) % (prm.n as int)]);
        assert((0 + sl as int) % (prm.n as int) == sl as int) by {
            vstd::arithmetic::div_mod::lemma_small_mod(sl as nat, prm.n as nat);
        }
        assert(v < prm.t);
        assert(q_slot(*prm, qb, p as int) == v) by {
            assert(qcts@[ci as int].coeffs@ == coeffs_at(
                qb,
                ci as int * ct_size_spec(prm.n as int),
                prm.n as nat,
            ));
        }
    }
    let unit = pt_unit(prm.n, prm.t);
    let masked = ct_mul_plain(&rot, &unit, prm.n, prm.t);
    proof {
        assert forall|c: int| 0 <= c < prm.n implies masked.coeffs@[c] == prefix_seq(
            prm.n as nat,
            v,
            1,
        )[c] by {
            assert(masked.coeffs@ == crate::backend::seq_mul_mod(rot.coeffs@, unit@, prm.t));
            assert(masked.coeffs@[c] == ((rot.coeffs@[c] * unit@[c]) % (prm.t as int)) as u64);
            if c == 0 {
                assert(unit@[0] == 1u64);
                assert(rot.coeffs@[0] == v);
                assert(v * 1u64 == v) by (nonlinear_arith);
                vstd::arithmetic::div_mod::lemma_small_mod(v as nat, prm.t as nat);
                assert(masked.coeffs@[0] == v);
            } else {
                assert(unit@[c] == 0u64);
                assert(rot.coeffs@[c] * 0u64 == 0) by (nonlinear_arith);
                vstd::arithmetic::div_mod::lemma_small_mod(0nat, prm.t as nat);
                assert(masked.coeffs@[c] == 0u64);
            }
        }
        assert(masked.coeffs@ =~= prefix_seq(prm.n as nat, v, 1));
    }
    let mut ind = masked;
    proof {
        vstd::arithmetic::power2::lemma2_to64();
        assert(1usize == pow2(0nat) && pow2(0nat) <= prm.n) by {
            vstd::arithmetic::power2::lemma_pow2_pos(prm.logn as nat);
            if 0 < prm.logn {
                vstd::arithmetic::power2::lemma_pow2_strictly_increases(0nat, prm.logn as nat);
            }
        }
    }
    let mut w: usize = 1;
    while w < prm.n
        invariant
            prm.wf(),
            1 <= w <= prm.n,
            exists|e: nat| w == pow2(e) && pow2(e) <= prm.n,
            ind.wf(prm.n as int, prm.t),
            ind.coeffs@ == prefix_seq(prm.n as nat, v, w as int),
            ind.key_id == src.key_id,
            ind.noise == dec1(src.noise),
            v < prm.t,
        decreases prm.n - w,
    {
        proof {
            let e = choose|e: nat| w == pow2(e) && pow2(e) <= prm.n;
            assert(pow2(e) < pow2(prm.logn as nat));
            vstd::arithmetic::power2::lemma_pow2(e);
            vstd::arithmetic::power2::lemma_pow2(prm.logn as nat);
            vstd::arithmetic::power::lemma_pow_strictly_increases_converse(
                2nat,
                e,
                prm.logn as nat,
            );
            vstd::arithmetic::power2::lemma_pow2_unfold((e + 1) as nat);
            if e + 1 < prm.logn {
                vstd::arithmetic::power2::lemma_pow2_strictly_increases(
                    (e + 1) as nat,
                    prm.logn as nat,
                );
            }
            assert(2 * w == pow2((e + 1) as nat) && pow2((e + 1) as nat) <= prm.n);
            lemma_broadcast_step(prm.n as nat, v, w as int, prm.t);
        }
        let rot2 = ct_rotate(&ind, prm.n - w, rk, prm.n, prm.t);
        let sum = ct_add(&ind, &rot2, prm.n, prm.t);
        ind = sum;
        w = w * 2;
    }
    proof {
        assert(ind.coeffs@ =~= const_seq(prm.n as nat, v));
    }
    ind
}

} // verus!
