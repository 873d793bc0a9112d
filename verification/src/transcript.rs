//! The in-circuit Fiat-Shamir transcript: an ordered accumulator of circuit
//! variables that derives challenges consistent with the reference native
//! transcript. The sponge permutation itself is an outside collaborator: the
//! derivation protocol takes the sponge's output block and is verified to
//! truncate, ratchet and re-seed exactly as the native transcript does.

use vstd::prelude::*;
use vstd::arithmetic::power2::{pow2, lemma_pow2_strictly_increases, lemma_pow2_pos};
use vstd::arithmetic::div_mod::lemma_mod_bound;
use crate::bytes::le_val;
use crate::field::{
    FieldId, FieldElem, field_modulus, spec_size_in_bits, size_in_bits, lemma_field_facts,
    lemma_canonical_injective,
};
use crate::circuit::{Variable, PlonkCircuit, PlonkError, PointVariable, VerifyingKeyVar,
    ProofEvaluationsVar, FpElemVar, STATE_SIZE};
use crate::conversion::{bytes_to_field_elements, fr_to_fq, fq_to_fr_with_mask, chunk_count,
    chunk_len, field_elems_vals};

verus! {

/// The values a variable list takes under a witness table.
pub open spec fn vals_of(vars: Seq<Variable>, w: Seq<Seq<u8>>) -> Seq<Seq<u8>> {
    vars.map_values(|v: Variable| w[v as int])
}

/// The coordinate variables of a point list, x before y, point by point.
pub open spec fn coords_of(ps: Seq<PointVariable>) -> Seq<Variable> {
    Seq::new(
        2 * ps.len(),
        |i: int|
            if i % 2 == 0 {
                ps[i / 2].x
            } else {
                ps[i / 2].y
            },
    )
}

/// The value the derivation protocol extracts from a sponge output block:
/// output slot 0, truncated to its low 248 bits.
pub open spec fn challenge_val_from_sponge(out0: Seq<u8>) -> nat {
    le_val(out0) % pow2(248)
}

/// The in-circuit transcript: a sponge-wide persistent state plus the buffer
/// of variables appended since the last challenge derivation.
pub struct RescueTranscriptVar {
    transcript_var: Vec<Variable>,
    state_var: Vec<Variable>,
}

impl RescueTranscriptVar {
    /// The persistent sponge-state variables.
    pub closed spec fn state_vars(self) -> Seq<Variable> {
        self.state_var@
    }

    /// The variables appended since the last derivation, in append order.
    pub closed spec fn buffer_vars(self) -> Seq<Variable> {
        self.transcript_var@
    }

    /// The values of the state variables under the circuit.
    pub open spec fn state_vals(self, c: PlonkCircuit) -> Seq<Seq<u8>> {
        vals_of(self.state_vars(), c.vals())
    }

    /// The values of the buffered variables under the circuit.
    pub open spec fn buffer_vals(self, c: PlonkCircuit) -> Seq<Seq<u8>> {
        vals_of(self.buffer_vars(), c.vals())
    }

    /// The state is sponge-wide and every held variable is allocated.
    pub open spec fn wf(self, c: PlonkCircuit) -> bool {
        &&& self.state_vars().len() == STATE_SIZE
        &&& forall|i: int|
            0 <= i < self.state_vars().len() ==> (#[trigger] self.state_vars()[i]) < c.num_vars()
        &&& forall|i: int|
            0 <= i < self.buffer_vars().len() ==> (#[trigger] self.buffer_vars()[i]) < c.num_vars()
    }

    /// A fresh transcript bound to the circuit: every state slot holds the
    /// circuit's canonical zero variable, the buffer is empty.
    pub fn new(circuit: &PlonkCircuit) -> (r: RescueTranscriptVar)
        requires
            circuit.wf(),
        ensures
            r.wf(*circuit),
            r.buffer_vars() == Seq::<Variable>::empty(),
            r.state_vals(*circuit).len() == STATE_SIZE,
            forall|i: int|
                0 <= i < STATE_SIZE ==> le_val(#[trigger] r.state_vals(*circuit)[i]) == 0,
    {
        let z = circuit.zero();
        let mut state_var: Vec<Variable> = Vec::new();
        let mut i: usize = 0;
        while i < STATE_SIZE
            invariant
                z == 0,
                i <= STATE_SIZE,
                state_var@.len() == i,
                forall|j: int| 0 <= j < i ==> state_var@[j] == 0,
            decreases STATE_SIZE - i,
        {
            state_var.push(z);
            i = i + 1;
        }
        let r = RescueTranscriptVar { transcript_var: Vec::new(), state_var };
        proof {
            assert(r.buffer_vars() =~= Seq::<Variable>::empty());
        }
        r
    }

    /// Number of variables appended since the last challenge derivation.
    pub fn buffer_len(&self) -> (r: usize)
        ensures
            r == self.buffer_vars().len(),
    {
        self.transcript_var.len()
    }

    /// Appends one variable to the buffer. The label is accepted and ignored,
    /// as the rescue Fiat-Shamir instantiation does for efficiency.
    pub fn append_variable(&mut self, _label: &'static [u8], var: Variable) -> (r: Result<
        (),
        PlonkError,
    >)
        ensures
            r is Ok,
            final(self).state_vars() == old(self).state_vars(),
            final(self).buffer_vars() == old(self).buffer_vars().push(var),
    {
        self.transcript_var.push(var);
        Ok(())
    }

    /// Appends the message variables in order; the label is ignored.
    pub fn append_message_vars(&mut self, _label: &'static [u8], msg_vars: &[Variable]) -> (r:
        Result<(), PlonkError>)
        ensures
            r is Ok,
            final(self).state_vars() == old(self).state_vars(),
            final(self).buffer_vars() == old(self).buffer_vars() + msg_vars@,
    {
        let mut i: usize = 0;
        while i < msg_vars.len()
            invariant
                i <= msg_vars@.len(),
                self.state_vars() == old(self).state_vars(),
                self.buffer_vars() == old(self).buffer_vars() + msg_vars@.take(i as int),
            decreases msg_vars@.len() - i,
        {
            let _ = self.append_variable(_label, msg_vars[i]);
            proof {
                assert(old(self).buffer_vars() + msg_vars@.take(i + 1) =~= (old(
                    self,
                ).buffer_vars() + msg_vars@.take(i as int)).push(msg_vars@[i as int]));
            }
            i = i + 1;
        }
        proof {
            assert(msg_vars@.take(msg_vars@.len() as int) =~= msg_vars@);
        }
        Ok(())
    }

    /// Appends a commitment: its x then y coordinate variable. The point must
    /// already be in the coordinate system the sponge expects; the label is
    /// ignored.
    pub fn append_commitment_var(&mut self, _label: &'static [u8], poly_comm_var: &PointVariable)
        -> (r: Result<(), PlonkError>)
        ensures
            r is Ok,
            final(self).state_vars() == old(self).state_vars(),
            final(self).buffer_vars() == old(self).buffer_vars().push(poly_comm_var.x).push(
                poly_comm_var.y,
            ),
    {
        self.transcript_var.push(poly_comm_var.get_x());
        self.transcript_var.push(poly_comm_var.get_y());
        Ok(())
    }

    /// Appends a slice of commitments, coordinate pairs in order; the label is
    /// ignored.
    pub fn append_commitments_vars(
        &mut self,
        _label: &'static [u8],
        poly_comm_vars: &[PointVariable],
    ) -> (r: Result<(), PlonkError>)
        ensures
            r is Ok,
            final(self).state_vars() == old(self).state_vars(),
            final(self).buffer_vars() == old(self).buffer_vars() + coords_of(poly_comm_vars@),
    {
        self.push_commitments(poly_comm_vars)
    }

    /// Pushes the coordinate pairs of a point list, in order.
    fn push_commitments(&mut self, poly_comm_vars: &[PointVariable]) -> (r: Result<
        (),
        PlonkError,
    >)
        ensures
            r is Ok,
            final(self).state_vars() == old(self).state_vars(),
            final(self).buffer_vars() == old(self).buffer_vars() + coords_of(poly_comm_vars@),
    {
        let mut i: usize = 0;
        while i < poly_comm_vars.len()
            invariant
                i <= poly_comm_vars@.len(),
                self.state_vars() == old(self).state_vars(),
                self.buffer_vars() == old(self).buffer_vars() + coords_of(
                    poly_comm_vars@.take(i as int),
                ),
            decreases poly_comm_vars@.len() - i,
        {
            self.transcript_var.push(poly_comm_vars[i].get_x());
            self.transcript_var.push(poly_comm_vars[i].get_y());
            proof {
                assert(old(self).buffer_vars() + coords_of(poly_comm_vars@.take(i + 1)) =~= (old(
                    self,
                ).buffer_vars() + coords_of(poly_comm_vars@.take(i as int))).push(
                    poly_comm_vars@[i as int].x,
                ).push(poly_comm_vars@[i as int].y));
            }
            i = i + 1;
        }
        proof {
            assert(poly_comm_vars@.take(poly_comm_vars@.len() as int) =~= poly_comm_vars@);
        }
        Ok(())
    }

    /// Appends a challenge variable back into the buffer; the label is ignored.
    pub fn append_challenge_var(&mut self, _label: &'static [u8], challenge_var: Variable) -> (r:
        Result<(), PlonkError>)
        ensures
            r is Ok,
            final(self).state_vars() == old(self).state_vars(),
            final(self).buffer_vars() == old(self).buffer_vars().push(challenge_var),
    {
        self.append_variable(_label, challenge_var)
    }

    /// The input the sponge collaborator is run over for the next derivation:
    /// the values of the state variables, then of the buffered variables.
    pub fn challenge_hash_input(&self, circuit: &PlonkCircuit) -> (r: Vec<FieldElem>)
        requires
            circuit.wf(),
            self.wf(*circuit),
        ensures
            r@.len() == STATE_SIZE + self.buffer_vars().len(),
            forall|i: int|
                0 <= i < r@.len() ==> (#[trigger] r@[i]).wf() && r@[i].id() == circuit.field_of()
                    && r@[i].enc() == (self.state_vals(*circuit) + self.buffer_vals(*circuit))[i],
    {
        let mut r: Vec<FieldElem> = Vec::new();
        let mut i: usize = 0;
        while i < self.state_var.len()
            invariant
                circuit.wf(),
                self.wf(*circuit),
                i <= self.state_vars().len(),
                r@.len() == i,
                forall|j: int|
                    0 <= j < i ==> (#[trigger] r@[j]).wf() && r@[j].id() == circuit.field_of()
                        && r@[j].enc() == self.state_vals(*circuit)[j],
            decreases self.state_vars().len() - i,
        {
            r.push(circuit.witness(self.state_var[i]));
            i = i + 1;
        }
        let mut k: usize = 0;
        while k < self.transcript_var.len()
            invariant
                circuit.wf(),
                self.wf(*circuit),
                k <= self.buffer_vars().len(),
                r@.len() == self.state_vars().len() + k,
                self.state_vars().len() == STATE_SIZE,
                forall|j: int|
                    0 <= j < r@.len() ==> (#[trigger] r@[j]).wf() && r@[j].id()
                        == circuit.field_of() && r@[j].enc() == (self.state_vals(*circuit)
                        + self.buffer_vals(*circuit))[j],
            decreases self.buffer_vars().len() - k,
        {
            r.push(circuit.witness(self.transcript_var[k]));
            k = k + 1;
        }
        r
    }

    /// Appends one plain variable per two-limb value, each obtained through the
    /// recomposition gadget, in order.
    fn append_fp_elems(&mut self, circuit: &mut PlonkCircuit, fps: &[FpElemVar]) -> (r: Result<
        (),
        PlonkError,
    >)
        requires
            old(circuit).wf(),
            old(self).wf(*old(circuit)),
            forall|i: int| 0 <= i < fps@.len() ==> (#[trigger] fps@[i]).fp_wf(*old(circuit)),
        ensures
            r is Ok,
            final(circuit).wf(),
            final(circuit).field_of() == old(circuit).field_of(),
            final(circuit).lookup_supported() == old(circuit).lookup_supported(),
            old(circuit).num_vars() <= final(circuit).num_vars(),
            forall|j: int|
                0 <= j < old(circuit).num_vars() ==> final(circuit).vals()[j] == old(
                    circuit,
                ).vals()[j],
            final(self).wf(*final(circuit)),
            final(self).state_vars() == old(self).state_vars(),
            final(self).buffer_vars().len() == old(self).buffer_vars().len() + fps@.len(),
            final(self).buffer_vals(*final(circuit)).take(old(self).buffer_vars().len() as int)
                == old(self).buffer_vals(*old(circuit)),
            forall|j: int|
                0 <= j < fps@.len() ==> le_val(
                    #[trigger] final(self).buffer_vals(*final(circuit))[old(
                        self,
                    ).buffer_vars().len() + j],
                ) == fps@[j].fp_val(*old(circuit)),
    {
        let ghost l0 = old(self).buffer_vars().len() as int;
        let mut i: usize = 0;
        while i < fps.len()
            invariant
                i <= fps@.len(),
                l0 == old(self).buffer_vars().len() as int,
                circuit.wf(),
                circuit.field_of() == old(circuit).field_of(),
                circuit.lookup_supported() == old(circuit).lookup_supported(),
                old(circuit).num_vars() <= circuit.num_vars(),
                forall|j: int|
                    0 <= j < old(circuit).num_vars() ==> circuit.vals()[j] == old(
                        circuit,
                    ).vals()[j],
                forall|k: int| 0 <= k < fps@.len() ==> (#[trigger] fps@[k]).fp_wf(*old(circuit)),
                old(self).wf(*old(circuit)),
                self.wf(*circuit),
                self.state_vars() == old(self).state_vars(),
                self.buffer_vars().len() == l0 + i,
                self.buffer_vals(*circuit).take(l0) == old(self).buffer_vals(*old(circuit)),
                forall|j: int|
                    0 <= j < i ==> le_val(#[trigger] self.buffer_vals(*circuit)[l0 + j])
                        == fps@[j].fp_val(*old(circuit)),
            decreases fps@.len() - i,
        {
            let ghost pre_circuit = *circuit;
            let ghost pre_buf_vals = self.buffer_vals(*circuit);
            let fp = fps[i];
            proof {
                lemma_fp_wf_extend(fps@[i as int], *old(circuit), *circuit);
            }
            let v = match fp.convert_to_var(circuit) {
                Ok(v) => v,
                Err(e) => {
                    return Err(e);  // unreachable: the gadget never fails
                },
            };
            self.transcript_var.push(v);
            proof {
                lemma_fp_wf_extend(fps@[i as int], *old(circuit), pre_circuit);
                assert(fps@[i as int].fp_val(pre_circuit) == fps@[i as int].fp_val(
                    *old(circuit),
                ));
                assert forall|k: int|
                    0 <= k < self.buffer_vars().len() - 1 implies self.buffer_vals(*circuit)[k]
                    == pre_buf_vals[k] by {
                    assert(self.buffer_vars()[k] < pre_circuit.num_vars());
                }
                assert(self.buffer_vals(*circuit).take(l0) =~= pre_buf_vals.take(l0));
                assert(le_val(self.buffer_vals(*circuit)[l0 + i]) == fps@[i as int].fp_val(
                    *old(circuit),
                ));
                assert forall|j: int|
                    0 <= j < i + 1 implies le_val(
                    #[trigger] self.buffer_vals(*circuit)[l0 + j]) == fps@[j].fp_val(
                    *old(circuit)) by {
                    if j < i {
                        assert(self.buffer_vals(*circuit)[l0 + j] == pre_buf_vals[l0 + j]);
                    }
                }
            }
            i = i + 1;
        }
        Ok(())
    }

    /// Appends the verifying key and the public input: all selector-commitment
    /// coordinate pairs, then all sigma-commitment coordinate pairs, then one
    /// plain variable per public-input limb. Fields the native transcript
    /// absorbs that are fixed by the circuit topology (field size, domain
    /// size, input count, wire separators) are deliberately omitted.
    pub fn append_vk_and_pub_input_vars(
        &mut self,
        circuit: &mut PlonkCircuit,
        vk_var: &VerifyingKeyVar,
        pub_input: &[FpElemVar],
    ) -> (r: Result<(), PlonkError>)
        requires
            old(circuit).wf(),
            old(self).wf(*old(circuit)),
            vk_var.wf(*old(circuit)),
            forall|i: int|
                0 <= i < pub_input@.len() ==> (#[trigger] pub_input@[i]).fp_wf(*old(circuit)),
        ensures
            r is Ok,
            final(circuit).wf(),
            final(circuit).field_of() == old(circuit).field_of(),
            final(circuit).lookup_supported() == old(circuit).lookup_supported(),
            old(circuit).num_vars() <= final(circuit).num_vars(),
            forall|j: int|
                0 <= j < old(circuit).num_vars() ==> final(circuit).vals()[j] == old(
                    circuit,
                ).vals()[j],
            final(self).wf(*final(circuit)),
            final(self).state_vars() == old(self).state_vars(),
            final(self).buffer_vars().len() == old(self).buffer_vars().len() + 2 * vk_var.selector_comms@.len()
                + 2 * vk_var.sigma_comms@.len() + pub_input@.len(),
            ({
                let prefix = old(self).buffer_vals(*old(circuit)) + vals_of(
                    coords_of(vk_var.selector_comms@),
                    old(circuit).vals(),
                ) + vals_of(coords_of(vk_var.sigma_comms@), old(circuit).vals());
                &&& final(self).buffer_vals(*final(circuit)).take(prefix.len() as int) == prefix
                &&& forall|j: int|
                    0 <= j < pub_input@.len() ==> le_val(
                        #[trigger] final(self).buffer_vals(*final(circuit))[prefix.len() + j],
                    ) == pub_input@[j].fp_val(*old(circuit))
            }),
    {
        let _ = self.push_commitments(vk_var.selector_comms.as_slice());
        let _ = self.push_commitments(vk_var.sigma_comms.as_slice());
        proof {
            assert(self.wf(*circuit));
        }
        let ghost mid_buf_vals = self.buffer_vals(*circuit);
        let ghost prefix = old(self).buffer_vals(*old(circuit)) + vals_of(
            coords_of(vk_var.selector_comms@),
            old(circuit).vals(),
        ) + vals_of(coords_of(vk_var.sigma_comms@), old(circuit).vals());
        proof {
            assert(mid_buf_vals =~= prefix);
        }
        let r = self.append_fp_elems(circuit, pub_input);
        proof {
            assert(self.buffer_vals(*circuit).take(prefix.len() as int) == prefix);
        }
        r
    }

    /// Appends the proof evaluations: the wire evaluations, then the wire
    /// permutation evaluations, then the next-round permutation evaluation,
    /// each as one plain variable.
    pub fn append_proof_evaluations_vars(
        &mut self,
        circuit: &mut PlonkCircuit,
        evals: &ProofEvaluationsVar,
    ) -> (r: Result<(), PlonkError>)
        requires
            old(circuit).wf(),
            old(self).wf(*old(circuit)),
            evals.wf(*old(circuit)),
        ensures
            r is Ok,
            final(circuit).wf(),
            final(circuit).field_of() == old(circuit).field_of(),
            final(circuit).lookup_supported() == old(circuit).lookup_supported(),
            old(circuit).num_vars() <= final(circuit).num_vars(),
            forall|j: int|
                0 <= j < old(circuit).num_vars() ==> final(circuit).vals()[j] == old(
                    circuit,
                ).vals()[j],
            final(self).wf(*final(circuit)),
            final(self).state_vars() == old(self).state_vars(),
            final(self).buffer_vars().len() == old(self).buffer_vars().len()
                + evals.wires_evals@.len() + evals.wire_sigma_evals@.len() + 1,
            final(self).buffer_vals(*final(circuit)).take(old(self).buffer_vars().len() as int)
                == old(self).buffer_vals(*old(circuit)),
            forall|j: int|
                0 <= j < evals.wires_evals@.len() ==> le_val(
                    #[trigger] final(self).buffer_vals(*final(circuit))[old(
                        self,
                    ).buffer_vars().len() + j],
                ) == evals.wires_evals@[j].fp_val(*old(circuit)),
            forall|j: int|
                0 <= j < evals.wire_sigma_evals@.len() ==> le_val(
                    #[trigger] final(self).buffer_vals(*final(circuit))[old(
                        self,
                    ).buffer_vars().len() + evals.wires_evals@.len() + j],
                ) == evals.wire_sigma_evals@[j].fp_val(*old(circuit)),
            le_val(
                final(self).buffer_vals(*final(circuit))[old(self).buffer_vars().len()
                    + evals.wires_evals@.len() + evals.wire_sigma_evals@.len() as int],
            ) == evals.perm_next_eval.fp_val(*old(circuit)),
    {
        let ghost l0 = old(self).buffer_vars().len() as int;
        let _ = self.append_fp_elems(circuit, evals.wires_evals.as_slice());
        let ghost c1 = *circuit;
        let ghost buf1 = self.buffer_vals(*circuit);
        let ghost l1 = l0 + evals.wires_evals@.len();
        proof {
            assert forall|k: int|
                0 <= k < evals.wire_sigma_evals@.len() implies (
            #[trigger] evals.wire_sigma_evals@[k]).fp_wf(c1) by {
                lemma_fp_wf_extend(evals.wire_sigma_evals@[k], *old(circuit), c1);
            }
        }
        let _ = self.append_fp_elems(circuit, evals.wire_sigma_evals.as_slice());
        let ghost c2 = *circuit;
        let ghost buf2 = self.buffer_vals(*circuit);
        proof {
            lemma_fp_wf_extend(evals.perm_next_eval, *old(circuit), c2);
            assert forall|k: int|
                0 <= k < evals.wire_sigma_evals@.len() implies #[trigger] evals.wire_sigma_evals@[
                k].fp_val(c1) == evals.wire_sigma_evals@[k].fp_val(*old(circuit)) by {
                lemma_fp_wf_extend(evals.wire_sigma_evals@[k], *old(circuit), c1);
            }
        }
        let ghost pre_buf_vals = self.buffer_vals(*circuit);
        let v = match evals.perm_next_eval.convert_to_var(circuit) {
            Ok(v) => v,
            Err(e) => {
                return Err(e);  // unreachable: the gadget never fails
            },
        };
        self.transcript_var.push(v);
        proof {
            assert forall|k: int|
                0 <= k < self.buffer_vars().len() - 1 implies self.buffer_vals(*circuit)[k]
                == pre_buf_vals[k] by {
                assert(self.buffer_vars()[k] < c2.num_vars());
            }
            assert(self.buffer_vals(*circuit).take(l0) =~= pre_buf_vals.take(l0));
            assert(pre_buf_vals =~= buf2);
            assert(buf2.take(l0) =~= buf1.take(l0));
            assert forall|j: int|
                0 <= j < evals.wires_evals@.len() implies le_val(
                #[trigger] self.buffer_vals(*circuit)[l0 + j]) == evals.wires_evals@[j].fp_val(
                *old(circuit)) by {
                assert(self.buffer_vals(*circuit)[l0 + j] == buf2[l0 + j]);
                assert(buf2.take(l1)[l0 + j] == buf1[l0 + j]);
                assert(le_val(buf1[l0 + j]) == evals.wires_evals@[j].fp_val(*old(circuit)));
            }
            assert forall|j: int|
                0 <= j < evals.wire_sigma_evals@.len() implies le_val(
                #[trigger] self.buffer_vals(*circuit)[l1 + j]) == evals.wire_sigma_evals@[
            j].fp_val(*old(circuit)) by {
                assert(self.buffer_vals(*circuit)[l1 + j] == buf2[l1 + j]);
                assert(le_val(buf2[l1 + j]) == evals.wire_sigma_evals@[j].fp_val(c1));
            }
            assert(le_val(
                self.buffer_vals(*circuit)[l1 + evals.wire_sigma_evals@.len() as int],
            ) == evals.perm_next_eval.fp_val(*old(circuit)));
        }
        Ok(())
    }

    /// The derivation protocol, given the sponge collaborator's output block
    /// over `challenge_hash_input`: requires the lookup (range) mechanism and
    /// the one supported curve configuration (253-bit scalar over a 377-bit
    /// base field); truncates output slot 0 to 248 bits as the challenge,
    /// replaces the state with the full output block, and re-seeds the buffer
    /// with the challenge alone.
    pub fn get_and_append_challenge_var(
        &mut self,
        _label: &'static [u8],
        scalar: FieldId,
        circuit: &mut PlonkCircuit,
        sponge_output: &Vec<FieldElem>,
    ) -> (r: Result<Variable, PlonkError>)
        requires
            old(circuit).wf(),
            old(self).wf(*old(circuit)),
            sponge_output@.len() == STATE_SIZE,
            forall|i: int|
                0 <= i < sponge_output@.len() ==> (#[trigger] sponge_output@[i]).wf()
                    && sponge_output@[i].id() == old(circuit).field_of(),
        ensures
            r is Ok <==> (old(circuit).lookup_supported() && spec_size_in_bits(scalar) == 253
                && spec_size_in_bits(old(circuit).field_of()) == 377),
            r is Err ==> *final(self) == *old(self) && *final(circuit) == *old(circuit),
            r matches Ok(ch) ==> {
                let out = sponge_output@.map_values(|e: FieldElem| e.enc());
                &&& final(circuit).wf()
                &&& final(circuit).field_of() == old(circuit).field_of()
                &&& final(circuit).lookup_supported() == old(circuit).lookup_supported()
                &&& old(circuit).num_vars() <= final(circuit).num_vars()
                &&& forall|j: int|
                    0 <= j < old(circuit).num_vars() ==> final(circuit).vals()[j] == old(
                        circuit,
                    ).vals()[j]
                &&& final(self).wf(*final(circuit))
                &&& final(self).state_vals(*final(circuit)) == out
                &&& ch < final(circuit).num_vars()
                &&& le_val(final(circuit).vals()[ch as int]) == challenge_val_from_sponge(out[0])
                &&& final(self).buffer_vars() == seq![ch]
            },
    {
        if !circuit.support_lookup() {
            return Err(PlonkError::ParameterError);
        }
        if size_in_bits(scalar) != 253 || size_in_bits(circuit.field_id()) != 377 {
            return Err(PlonkError::ParameterError);
        }
        proof {
            lemma_base_field_of_377_bits(circuit.field_of());
            lemma_field_facts(FieldId::Bls377Fq);
            lemma_pow2_strictly_increases(248, 376);
        }
        let ghost out = sponge_output@.map_values(|e: FieldElem| e.enc());
        // the sponge gadget's output variables enter the circuit
        let o0 = circuit.create_variable(sponge_output[0].duplicate());
        let o1 = circuit.create_variable(sponge_output[1].duplicate());
        let o2 = circuit.create_variable(sponge_output[2].duplicate());
        let o3 = circuit.create_variable(sponge_output[3].duplicate());
        // the challenge: output slot 0 truncated to 248 bits
        let challenge_var = circuit.truncate(o0, 248);
        // ratchet the state and re-seed the buffer with the challenge
        let mut state_var: Vec<Variable> = Vec::new();
        state_var.push(o0);
        state_var.push(o1);
        state_var.push(o2);
        state_var.push(o3);
        self.state_var = state_var;
        self.transcript_var = Vec::new();
        let _ = self.append_challenge_var(_label, challenge_var);
        proof {
            assert(self.state_vals(*circuit) =~= out);
            assert(self.buffer_vars() =~= seq![challenge_var]);
        }
        Ok(challenge_var)
    }

}

/// A two-limb value keeps its well-formedness and its composed value when the
/// circuit only grows.
pub proof fn lemma_fp_wf_extend(f: FpElemVar, c1: PlonkCircuit, c2: PlonkCircuit)
    requires
        f.fp_wf(c1),
        c2.field_of() == c1.field_of(),
        c1.num_vars() <= c2.num_vars(),
        forall|j: int| 0 <= j < c1.num_vars() ==> c2.vals()[j] == c1.vals()[j],
    ensures
        f.fp_wf(c2),
        f.fp_val(c2) == f.fp_val(c1),
{
    assert(c2.vals()[f.components.0 as int] == c1.vals()[f.components.0 as int]);
    assert(c2.vals()[f.components.1 as int] == c1.vals()[f.components.1 as int]);
}


/// Value-level model of the reference native transcript: the same state
/// machine over field values rather than circuit variables. It exists so the
/// equivalence between the two derivations is stated and proved inside the
/// library; labels are accepted and ignored exactly as in the circuit
/// variant.
pub struct RescueTranscript {
    transcript: Vec<FieldElem>,
    state: Vec<FieldElem>,
    field: FieldId,
}

impl RescueTranscript {
    /// The base field the transcript absorbs values in.
    pub closed spec fn field_of(self) -> FieldId {
        self.field
    }

    /// The values of the persistent sponge state.
    pub closed spec fn state_vals(self) -> Seq<Seq<u8>> {
        self.state@.map_values(|e: FieldElem| e.enc())
    }

    /// The values absorbed since the last derivation, in append order.
    pub closed spec fn buffer_vals(self) -> Seq<Seq<u8>> {
        self.transcript@.map_values(|e: FieldElem| e.enc())
    }

    /// The state is sponge-wide and every held element is canonical.
    pub closed spec fn wf(self) -> bool {
        &&& self.state@.len() == STATE_SIZE
        &&& forall|i: int|
            0 <= i < self.state@.len() ==> (#[trigger] self.state@[i]).wf() && self.state@[i].id()
                == self.field
        &&& forall|i: int|
            0 <= i < self.transcript@.len() ==> (#[trigger] self.transcript@[i]).wf()
                && self.transcript@[i].id() == self.field
    }

    /// A fresh native transcript: zero state, empty buffer. The label is
    /// ignored by the rescue instantiation.
    pub fn new(_label: &'static [u8], field: FieldId) -> (r: RescueTranscript)
        ensures
            r.wf(),
            r.field_of() == field,
            r.buffer_vals() == Seq::<Seq<u8>>::empty(),
            r.state_vals().len() == STATE_SIZE,
            forall|i: int| 0 <= i < STATE_SIZE ==> le_val(#[trigger] r.state_vals()[i]) == 0,
    {
        let mut state: Vec<FieldElem> = Vec::new();
        let mut i: usize = 0;
        while i < STATE_SIZE
            invariant
                i <= STATE_SIZE,
                state@.len() == i,
                forall|j: int|
                    0 <= j < i ==> (#[trigger] state@[j]).wf() && state@[j].id() == field
                        && state@[j].val() == 0,
            decreases STATE_SIZE - i,
        {
            state.push(FieldElem::zero(field));
            i = i + 1;
        }
        let r = RescueTranscript { transcript: Vec::new(), state, field };
        proof {
            assert(r.buffer_vals() =~= Seq::<Seq<u8>>::empty());
        }
        r
    }

    /// Absorbs a message: its bytes are split into field elements, which are
    /// appended in input order. The label is ignored.
    pub fn append_message(&mut self, _label: &'static [u8], msg: &[u8]) -> (r: Result<
        (),
        PlonkError,
    >)
        requires
            old(self).wf(),
            msg@.len() + 48 < usize::MAX,
        ensures
            r is Ok,
            final(self).wf(),
            final(self).field_of() == old(self).field_of(),
            final(self).state_vals() == old(self).state_vals(),
            final(self).buffer_vals().len() == old(self).buffer_vals().len() + chunk_count(
                msg@.len(),
                chunk_len(old(self).field_of()),
            ),
            final(self).buffer_vals().take(old(self).buffer_vals().len() as int) == old(
                self,
            ).buffer_vals(),
            forall|j: int|
                0 <= j < chunk_count(msg@.len(), chunk_len(old(self).field_of())) ==> le_val(
                    #[trigger] final(self).buffer_vals()[old(self).buffer_vals().len() + j],
                ) == field_elems_vals(msg@, old(self).field_of())[j],
    {
        let fid = self.field;
        let elems = bytes_to_field_elements(msg, fid);
        let ghost l0 = old(self).transcript@.len() as int;
        let mut i: usize = 0;
        while i < elems.len()
            invariant
                i <= elems@.len(),
                l0 == old(self).transcript@.len() as int,
                self.field == old(self).field,
                self.state@ == old(self).state@,
                old(self).wf(),
                self.wf(),
                elems@.len() == chunk_count(msg@.len(), chunk_len(old(self).field_of())),
                forall|k: int|
                    0 <= k < elems@.len() ==> (#[trigger] elems@[k]).wf() && elems@[k].id()
                        == old(self).field_of() && elems@[k].val() == field_elems_vals(
                        msg@,
                        old(self).field_of(),
                    )[k],
                self.transcript@.len() == l0 + i,
                self.transcript@.take(l0) == old(self).transcript@,
                forall|j: int|
                    0 <= j < i ==> (#[trigger] self.transcript@[l0 + j]).enc() == elems@[j].enc(),
            decreases elems@.len() - i,
        {
            let e = elems[i].duplicate();
            proof {
                assert(elems@[i as int].wf());
            }
            self.transcript.push(e);
            proof {
                assert(self.transcript@.take(l0) =~= old(self).transcript@);
                assert forall|k: int|
                    0 <= k < self.transcript@.len() implies (#[trigger] self.transcript@[k]).wf()
                    && self.transcript@[k].id() == self.field by {}
            }
            i = i + 1;
        }
        proof {
            assert(self.buffer_vals().take(l0) =~= old(self).buffer_vals());
        }
        Ok(())
    }
    /// Absorbs a derived challenge back into the buffer, converted from the
    /// scalar field into the transcript's field without reduction; the label
    /// is ignored.
    pub fn append_challenge(&mut self, _label: &'static [u8], challenge: &FieldElem) -> (r: Result<
        (),
        PlonkError,
    >)
        requires
            old(self).wf(),
            challenge.wf(),
            field_modulus(challenge.id()) <= field_modulus(old(self).field_of()),
        ensures
            r is Ok,
            final(self).wf(),
            final(self).field_of() == old(self).field_of(),
            final(self).state_vals() == old(self).state_vals(),
            final(self).buffer_vals().len() == old(self).buffer_vals().len() + 1,
            final(self).buffer_vals().take(old(self).buffer_vals().len() as int) == old(
                self,
            ).buffer_vals(),
            le_val(final(self).buffer_vals().last()) == challenge.val(),
    {
        let fid = self.field;
        let e = fr_to_fq(challenge, fid);
        let ghost l0 = self.transcript@.len() as int;
        self.transcript.push(e);
        proof {
            assert(self.buffer_vals().take(l0) =~= old(self).buffer_vals());
            assert forall|k: int|
                0 <= k < self.transcript@.len() implies (#[trigger] self.transcript@[k]).wf()
                && self.transcript@[k].id() == self.field by {
                if k < l0 {
                    assert(old(self).transcript@[k].wf());
                }
            }
        }
        Ok(())
    }

    /// Absorbs the verifying key and public input as the circuit transcript
    /// does: the commitments' coordinate values in order, then each public
    /// input converted into the transcript's field. The topology-determined
    /// fields are omitted on this side too, keeping the two variants aligned.
    pub fn append_vk_and_pub_input(
        &mut self,
        comm_coords: &Vec<FieldElem>,
        pub_input: &Vec<FieldElem>,
    ) -> (r: Result<(), PlonkError>)
        requires
            old(self).wf(),
            forall|i: int|
                0 <= i < comm_coords@.len() ==> (#[trigger] comm_coords@[i]).wf()
                    && comm_coords@[i].id() == old(self).field_of(),
            forall|i: int|
                0 <= i < pub_input@.len() ==> (#[trigger] pub_input@[i]).wf() && field_modulus(
                    pub_input@[i].id(),
                ) <= field_modulus(old(self).field_of()),
        ensures
            r is Ok,
            final(self).wf(),
            final(self).field_of() == old(self).field_of(),
            final(self).state_vals() == old(self).state_vals(),
            final(self).buffer_vals().len() == old(self).buffer_vals().len() + comm_coords@.len()
                + pub_input@.len(),
            final(self).buffer_vals().take(old(self).buffer_vals().len() as int) == old(
                self,
            ).buffer_vals(),
            forall|j: int|
                0 <= j < comm_coords@.len() ==> #[trigger] final(self).buffer_vals()[old(
                    self,
                ).buffer_vals().len() + j] == comm_coords@[j].enc(),
            forall|j: int|
                0 <= j < pub_input@.len() ==> le_val(
                    #[trigger] final(self).buffer_vals()[old(self).buffer_vals().len()
                        + comm_coords@.len() + j],
                ) == pub_input@[j].val(),
    {
        let ghost l0 = self.transcript@.len() as int;
        let mut i: usize = 0;
        while i < comm_coords.len()
            invariant
                i <= comm_coords@.len(),
                l0 == old(self).transcript@.len() as int,
                old(self).wf(),
                self.wf(),
                self.field == old(self).field,
                self.state@ == old(self).state@,
                forall|k: int|
                    0 <= k < comm_coords@.len() ==> (#[trigger] comm_coords@[k]).wf()
                        && comm_coords@[k].id() == old(self).field_of(),
                self.transcript@.len() == l0 + i,
                self.transcript@.take(l0) == old(self).transcript@,
                forall|j: int|
                    0 <= j < i ==> (#[trigger] self.transcript@[l0 + j]).enc()
                        == comm_coords@[j].enc(),
            decreases comm_coords@.len() - i,
        {
            let e = comm_coords[i].duplicate();
            self.transcript.push(e);
            proof {
                assert(self.transcript@.take(l0) =~= old(self).transcript@);
                assert forall|k: int|
                    0 <= k < self.transcript@.len() implies (#[trigger] self.transcript@[k]).wf()
                    && self.transcript@[k].id() == self.field by {}
            }
            i = i + 1;
        }
        let ghost l1 = l0 + comm_coords@.len();
        let mut k: usize = 0;
        while k < pub_input.len()
            invariant
                k <= pub_input@.len(),
                l0 == old(self).transcript@.len() as int,
                l1 == l0 + comm_coords@.len(),
                old(self).wf(),
                self.wf(),
                self.field == old(self).field,
                self.state@ == old(self).state@,
                forall|j: int|
                    0 <= j < pub_input@.len() ==> (#[trigger] pub_input@[j]).wf() && field_modulus(
                        pub_input@[j].id(),
                    ) <= field_modulus(old(self).field_of()),
                self.transcript@.len() == l1 + k,
                self.transcript@.take(l0) == old(self).transcript@,
                forall|j: int|
                    0 <= j < comm_coords@.len() ==> (#[trigger] self.transcript@[l0 + j]).enc()
                        == comm_coords@[j].enc(),
                forall|j: int|
                    0 <= j < k ==> le_val((#[trigger] self.transcript@[l1 + j]).enc())
                        == pub_input@[j].val(),
            decreases pub_input@.len() - k,
        {
            let fid = self.field;
            let e = fr_to_fq(&pub_input[k], fid);
            self.transcript.push(e);
            proof {
                assert(self.transcript@.take(l0) =~= old(self).transcript@);
                assert forall|j: int|
                    0 <= j < self.transcript@.len() implies (#[trigger] self.transcript@[j]).wf()
                    && self.transcript@[j].id() == self.field by {}
            }
            k = k + 1;
        }
        proof {
            assert(self.buffer_vals().take(l0) =~= old(self).buffer_vals());
        }
        Ok(())
    }

    /// The native derivation, given the sponge's output block over the state
    /// then the buffer: defined for the one supported configuration (253-bit
    /// scalar over a 377-bit base field); the challenge is output slot 0
    /// masked to 248 bits — matching the circuit's truncation bit for bit —
    /// the state ratchets to the full block, and the buffer re-seeds with the
    /// challenge.
    pub fn get_and_append_challenge(
        &mut self,
        _label: &'static [u8],
        scalar: FieldId,
        sponge_output: &Vec<FieldElem>,
    ) -> (r: Result<FieldElem, PlonkError>)
        requires
            old(self).wf(),
            sponge_output@.len() == STATE_SIZE,
            forall|i: int|
                0 <= i < sponge_output@.len() ==> (#[trigger] sponge_output@[i]).wf()
                    && sponge_output@[i].id() == old(self).field_of(),
        ensures
            r is Ok <==> (spec_size_in_bits(scalar) == 253 && spec_size_in_bits(
                old(self).field_of(),
            ) == 377),
            r is Err ==> *final(self) == *old(self),
            r matches Ok(c) ==> {
                let out = sponge_output@.map_values(|e: FieldElem| e.enc());
                &&& final(self).wf()
                &&& final(self).field_of() == old(self).field_of()
                &&& c.wf()
                &&& c.id() == scalar
                &&& c.val() == challenge_val_from_sponge(out[0])
                &&& final(self).state_vals() == out
                &&& final(self).buffer_vals().len() == 1
                &&& le_val(final(self).buffer_vals()[0]) == c.val()
            },
    {
        if size_in_bits(scalar) != 253 || size_in_bits(self.field) != 377 {
            return Err(PlonkError::ParameterError);
        }
        proof {
            lemma_scalar_field_of_253_bits(scalar);
            lemma_base_field_of_377_bits(self.field_of());
        }
        let o0 = sponge_output[0].duplicate();
        let challenge = fq_to_fr_with_mask(&o0, scalar);
        let mut state: Vec<FieldElem> = Vec::new();
        state.push(sponge_output[0].duplicate());
        state.push(sponge_output[1].duplicate());
        state.push(sponge_output[2].duplicate());
        state.push(sponge_output[3].duplicate());
        self.state = state;
        self.transcript = Vec::new();
        let _ = self.append_challenge(_label, &challenge);
        proof {
            assert(self.state_vals() =~= sponge_output@.map_values(|e: FieldElem| e.enc()));
            assert(self.buffer_vals().len() == 1);
        }
        Ok(challenge)
    }
}


/// For one sponge output block, the in-circuit challenge value and the native
/// challenge carry the same integer, and the safe field switch from the base
/// into the scalar field applies to the circuit value and preserves it: the
/// two derivations agree exactly.
pub proof fn lemma_challenge_equivalence(
    out0: Seq<u8>,
    circuit_challenge_val: nat,
    native_challenge: FieldElem,
)
    requires
        circuit_challenge_val == challenge_val_from_sponge(out0),
        native_challenge.wf(),
        native_challenge.id() == FieldId::Bls377Fr,
        native_challenge.val() == challenge_val_from_sponge(out0),
    ensures
        circuit_challenge_val < field_modulus(FieldId::Bls377Fr),
        circuit_challenge_val == native_challenge.val(),
{
    lemma_field_facts(FieldId::Bls377Fr);
    lemma_pow2_pos(248);
    lemma_mod_bound(le_val(out0) as int, pow2(248) as int);
}

/// Two consecutive derivations with no appends in between: after the first,
/// the state is the sponge output block and the buffer holds exactly the
/// challenge, whose canonical encoding is unique — so the second round's hash
/// input, and with it the second challenge, is a deterministic function of
/// the first round's output, reproducible across independent runs (and across
/// the circuit and native variants).
pub proof fn lemma_consecutive_rounds_deterministic(out: Seq<Seq<u8>>, ca: FieldElem, cb: FieldElem)
    requires
        out.len() > 0,
        ca.wf(),
        cb.wf(),
        ca.id() == cb.id(),
        ca.val() == challenge_val_from_sponge(out[0]),
        cb.val() == challenge_val_from_sponge(out[0]),
    ensures
        ca.enc() == cb.enc(),
        out + seq![ca.enc()] == out + seq![cb.enc()],
{
    lemma_canonical_injective(ca, cb);
}

/// The one field in scope with a 377-bit modulus.
proof fn lemma_base_field_of_377_bits(id: FieldId)
    requires
        spec_size_in_bits(id) == 377,
    ensures
        id == FieldId::Bls377Fq,
{
}

/// The one field in scope with a 253-bit modulus.
proof fn lemma_scalar_field_of_253_bits(id: FieldId)
    requires
        spec_size_in_bits(id) == 253,
    ensures
        id == FieldId::Bls377Fr,
{
}

} // verus!
