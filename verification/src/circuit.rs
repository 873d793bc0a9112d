//! Witness-level model of the constraint-system collaborator: a circuit is a
//! growing table of variables, each holding a field value; gadgets consumed by
//! the transcript (zero variable, variable creation, truncation, two-limb
//! recomposition) are modelled by their effect on the witness table.

use vstd::prelude::*;
use vstd::arithmetic::power2::{pow2, lemma_pow2_pos, lemma_pow2_adds};
use vstd::arithmetic::div_mod::{
    lemma_small_mod, lemma_mod_bound, lemma_fundamental_div_mod, lemma_fundamental_div_mod_converse,
};
use crate::bytes::{le_val, copy_range, resize_le_bytes, lemma_le_val_take_mod, lemma_le_val_concat};
use crate::field::{FieldId, FieldElem, field_modulus, spec_bytes_len, bytes_len, lemma_field_facts};

verus! {

/// A handle into the constraint system; the value lives in the circuit.
pub type Variable = usize;

/// Width of the sponge state.
pub const STATE_SIZE: usize = 4;

/// The recoverable error class: the requested operation is structurally
/// unsupported by the circuit or the curve configuration.
#[derive(Clone, Copy, PartialEq, Eq, Structural, Debug)]
pub enum PlonkError {
    ParameterError,
}

/// The constraint-system model. Variable 0 is the canonical zero variable.
pub struct PlonkCircuit {
    field: FieldId,
    witnesses: Vec<FieldElem>,
    lookup_enabled: bool,
}

impl PlonkCircuit {
    /// The field all witness values live in.
    pub closed spec fn field_of(self) -> FieldId {
        self.field
    }

    /// Whether the circuit supports the lookup (range-constraint) mechanism.
    pub closed spec fn lookup_supported(self) -> bool {
        self.lookup_enabled
    }

    /// The canonical encodings of all witness values, in variable order.
    pub closed spec fn vals(self) -> Seq<Seq<u8>> {
        self.witnesses@.map_values(|e: FieldElem| e.enc())
    }

    /// Number of variables allocated so far.
    pub open spec fn num_vars(self) -> nat {
        self.vals().len()
    }

    /// Every stored witness is a canonical element of the circuit's field.
    pub closed spec fn elems_wf(self) -> bool {
        forall|i: int|
            0 <= i < self.witnesses@.len() ==> (#[trigger] self.witnesses@[i]).wf()
                && self.witnesses@[i].id() == self.field
    }

    /// Every witness is a canonical element of the circuit's field, and the
    /// zero variable holds zero.
    pub open spec fn wf(self) -> bool {
        &&& self.elems_wf()
        &&& self.num_vars() >= 1
        &&& forall|i: int|
            0 <= i < self.vals().len() ==> (#[trigger] self.vals()[i]).len() == spec_bytes_len(
                self.field_of(),
            ) && le_val(self.vals()[i]) < field_modulus(self.field_of())
        &&& le_val(self.vals()[0]) == 0
    }

    /// A fresh circuit over the given field, holding only the zero variable.
    pub fn new(field: FieldId, enable_lookup: bool) -> (r: PlonkCircuit)
        ensures
            r.wf(),
            r.field_of() == field,
            r.lookup_supported() == enable_lookup,
            r.num_vars() == 1,
    {
        let z = FieldElem::zero(field);
        let mut witnesses: Vec<FieldElem> = Vec::new();
        witnesses.push(z);
        let r = PlonkCircuit { field, witnesses, lookup_enabled: enable_lookup };
        proof {
            lemma_field_facts(field);
            assert(r.vals()[0] == r.witnesses@[0].enc());
        }
        r
    }

    /// The canonical zero variable.
    pub fn zero(&self) -> (r: Variable)
        ensures
            r == 0,
    {
        0
    }

    /// Whether the circuit supports the lookup (range-constraint) mechanism.
    pub fn support_lookup(&self) -> (r: bool)
        ensures
            r == self.lookup_supported(),
    {
        self.lookup_enabled
    }

    /// The field all witness values live in.
    pub fn field_id(&self) -> (r: FieldId)
        ensures
            r == self.field_of(),
    {
        self.field
    }

    /// Allocates a new variable holding the given value.
    pub fn create_variable(&mut self, e: FieldElem) -> (r: Variable)
        requires
            old(self).wf(),
            e.wf(),
            e.id() == old(self).field_of(),
        ensures
            final(self).wf(),
            final(self).field_of() == old(self).field_of(),
            final(self).lookup_supported() == old(self).lookup_supported(),
            r == old(self).num_vars(),
            final(self).vals() == old(self).vals().push(e.enc()),
    {
        let r = self.witnesses.len();
        self.witnesses.push(e);
        proof {
            assert(self.vals() =~= old(self).vals().push(e.enc()));
            assert forall|i: int|
                0 <= i < self.witnesses@.len() implies (#[trigger] self.witnesses@[i]).wf()
                && self.witnesses@[i].id() == self.field_of() by {
                if i < old(self).witnesses@.len() {
                    assert(old(self).witnesses@[i].wf());
                }
            }
        }
        r
    }

    /// The value the variable holds.
    pub fn witness(&self, v: Variable) -> (r: FieldElem)
        requires
            self.wf(),
            v < self.num_vars(),
        ensures
            r.wf(),
            r.id() == self.field_of(),
            r.enc() == self.vals()[v as int],
    {
        let e = &self.witnesses[v];
        proof {
            assert(self.vals()[v as int] == self.witnesses@[v as int].enc());
            assert(self.witnesses@[v as int].wf());
        }
        e.duplicate()
    }

    /// The truncation gadget: a new variable constrained to the low `bit_len`
    /// bits of the given one.
    pub fn truncate(&mut self, v: Variable, bit_len: usize) -> (r: Variable)
        requires
            old(self).wf(),
            v < old(self).num_vars(),
            bit_len % 8 == 0,
            pow2(bit_len as nat) <= field_modulus(old(self).field_of()),
        ensures
            final(self).wf(),
            final(self).field_of() == old(self).field_of(),
            final(self).lookup_supported() == old(self).lookup_supported(),
            r == old(self).num_vars(),
            final(self).num_vars() == old(self).num_vars() + 1,
            forall|j: int|
                0 <= j < old(self).num_vars() ==> final(self).vals()[j] == old(self).vals()[j],
            le_val(final(self).vals()[r as int]) == le_val(old(self).vals()[v as int]) % pow2(
                bit_len as nat,
            ),
    {
        let e = self.witness(v);
        let b = e.le_bytes();
        let k = bit_len / 8;
        proof {
            lemma_fundamental_div_mod(bit_len as int, 8);
            assert(8 * (bit_len as nat / 8) == bit_len as nat);
        }
        let masked = resize_le_bytes(b.as_slice(), k);
        proof {
            lemma_field_facts(self.field_of());
            lemma_pow2_pos(bit_len as nat);
            lemma_mod_bound(le_val(b@) as int, pow2(bit_len as nat) as int);
            lemma_small_mod(le_val(masked@), field_modulus(self.field_of()));
        }
        let fid = self.field;
        let elem = FieldElem::from_le_bytes_mod_order(fid, masked.as_slice());
        self.create_variable(elem)
    }
}

/// A field element split over two variables: the composed value is
/// `low + 2^m * high`, as the modular-arithmetic gadget represents it.
#[derive(Clone, Copy)]
pub struct FpElemVar {
    /// The low and high limb variables.
    pub components: (Variable, Variable),
    /// The limb split point, in bits.
    pub param_m: usize,
}

impl FpElemVar {
    /// The composed integer value of the two limbs under the circuit.
    pub open spec fn fp_val(self, c: PlonkCircuit) -> nat {
        le_val(c.vals()[self.components.0 as int]) + pow2(self.param_m as nat) * le_val(
            c.vals()[self.components.1 as int],
        )
    }

    /// The limbs are allocated, the split is byte-aligned, the low limb fits
    /// its width and the composed value fits the field.
    pub open spec fn fp_wf(self, c: PlonkCircuit) -> bool {
        &&& self.components.0 < c.num_vars()
        &&& self.components.1 < c.num_vars()
        &&& self.param_m % 8 == 0
        &&& 0 < self.param_m < 8 * spec_bytes_len(c.field_of())
        &&& le_val(c.vals()[self.components.0 as int]) < pow2(self.param_m as nat)
        &&& self.fp_val(c) < field_modulus(c.field_of())
    }

    /// Splits a field value into two limb variables at bit `m`.
    #[verifier::rlimit(60)]
    #[verifier::spinoff_prover]
    pub fn new(circuit: &mut PlonkCircuit, e: &FieldElem, m: usize) -> (r: FpElemVar)
        requires
            old(circuit).wf(),
            e.wf(),
            e.id() == old(circuit).field_of(),
            m % 8 == 0,
            0 < m < 8 * spec_bytes_len(old(circuit).field_of()),
        ensures
            final(circuit).wf(),
            final(circuit).field_of() == old(circuit).field_of(),
            final(circuit).lookup_supported() == old(circuit).lookup_supported(),
            final(circuit).num_vars() == old(circuit).num_vars() + 2,
            forall|j: int|
                0 <= j < old(circuit).num_vars() ==> final(circuit).vals()[j] == old(
                    circuit,
                ).vals()[j],
            r.fp_wf(*final(circuit)),
            r.param_m == m,
            r.fp_val(*final(circuit)) == e.val(),
    {
        let b = e.le_bytes();
        let k = m / 8;
        proof {
            lemma_fundamental_div_mod(m as int, 8);
            assert(8 * (m as nat / 8) == m as nat);
            lemma_field_facts(e.id());
        }
        let low_bytes = resize_le_bytes(b.as_slice(), k);
        let high_bytes = copy_range(b.as_slice(), k, b.len());
        proof {
            lemma_pow2_pos(m as nat);
            lemma_mod_bound(e.val() as int, pow2(m as nat) as int);
            // the low limb is the value modulo 2^m, hence below the modulus
            assert(le_val(low_bytes@) < field_modulus(e.id())) by {
                if e.val() < pow2(m as nat) {
                    lemma_small_mod(e.val(), pow2(m as nat));
                }
            }
            // the high limb is the value divided by 2^m
            lemma_le_val_take_mod(b@, k as nat);
            assert(high_bytes@ =~= b@.skip(k as int));
            lemma_fundamental_div_mod_converse(
                e.val() as int,
                pow2(m as nat) as int,
                le_val(b@.skip(k as int)) as int,
                le_val(b@.take(k as int)) as int,
            );
            assert(le_val(high_bytes@) <= e.val()) by (nonlinear_arith)
                requires
                    e.val() == le_val(b@.take(k as int)) + pow2(m as nat) * le_val(
                        high_bytes@,
                    ),
                    pow2(m as nat) >= 1,
            ;
            lemma_small_mod(le_val(high_bytes@), field_modulus(e.id()));
        }
        let fid = circuit.field_id();
        let low = FieldElem::from_le_bytes_mod_order(fid, low_bytes.as_slice());
        let high = FieldElem::from_le_bytes_mod_order(fid, high_bytes.as_slice());
        let v_low = circuit.create_variable(low);
        let v_high = circuit.create_variable(high);
        proof {
            assert(circuit.vals()[v_low as int] == low.enc());
            assert(circuit.vals()[v_high as int] == high.enc());
            assert(le_val(low.enc()) == e.val() % pow2(m as nat));
            assert(le_val(high.enc()) == le_val(high_bytes@));
            assert(e.val() % pow2(m as nat) + pow2(m as nat) * le_val(high_bytes@) == e.val());
        }
        FpElemVar { components: (v_low, v_high), param_m: m }
    }

    /// The gadget that recomposes the two limbs into one plain variable
    /// holding `low + 2^m * high`.
    pub fn convert_to_var(&self, circuit: &mut PlonkCircuit) -> (r: Result<Variable, PlonkError>)
        requires
            old(circuit).wf(),
            self.fp_wf(*old(circuit)),
        ensures
            final(circuit).wf(),
            final(circuit).field_of() == old(circuit).field_of(),
            final(circuit).lookup_supported() == old(circuit).lookup_supported(),
            final(circuit).num_vars() == old(circuit).num_vars() + 1,
            forall|j: int|
                0 <= j < old(circuit).num_vars() ==> final(circuit).vals()[j] == old(
                    circuit,
                ).vals()[j],
            r matches Ok(v) && v == old(circuit).num_vars(),
            le_val(final(circuit).vals()[old(circuit).num_vars() as int]) == self.fp_val(
                *old(circuit),
            ),
    {
        let low = circuit.witness(self.components.0);
        let high = circuit.witness(self.components.1);
        let low_b = low.le_bytes();
        let high_b = high.le_bytes();
        let k = self.param_m / 8;
        let len = bytes_len(circuit.field_id());
        proof {
            lemma_fundamental_div_mod(self.param_m as int, 8);
            assert(8 * (self.param_m as nat / 8) == self.param_m as nat);
            lemma_field_facts(old(circuit).field_of());
        }
        let mut combined = copy_range(low_b.as_slice(), 0, k);
        let mut rest = copy_range(high_b.as_slice(), 0, len - k);
        combined.append(&mut rest);
        proof {
            let m = self.param_m as nat;
            let lowv = le_val(low_b@);
            let highv = le_val(high_b@);
            // low limb: bytes beyond k are zero since the value fits 2^m
            lemma_le_val_take_mod(low_b@, k as nat);
            lemma_pow2_pos(m);
            lemma_small_mod(lowv, pow2(m));
            // high limb: it fits in len - k bytes because the composed value
            // fits the field, which fits len bytes
            lemma_le_val_take_mod(high_b@, (len - k) as nat);
            lemma_pow2_adds(m, 8 * (len - k) as nat);
            assert(lowv + pow2(m) * highv == self.fp_val(*old(circuit)));
            assert(highv < pow2(8 * (len - k) as nat)) by (nonlinear_arith)
                requires
                    lowv + pow2(m) * highv < pow2(8 * len as nat),
                    pow2(8 * len as nat) == pow2(m) * pow2(8 * (len - k) as nat),
                    pow2(m) >= 1,
                    lowv >= 0,
            ;
            lemma_small_mod(highv, pow2(8 * (len - k) as nat));
            lemma_le_val_concat(low_b@.take(k as int), high_b@.take((len - k) as int));
            assert(combined@ =~= low_b@.take(k as int) + high_b@.take((len - k) as int));
            assert(le_val(combined@) == self.fp_val(*old(circuit)));
            lemma_small_mod(le_val(combined@), field_modulus(old(circuit).field_of()));
        }
        let fid = circuit.field_id();
        let elem = FieldElem::from_le_bytes_mod_order(fid, combined.as_slice());
        let v = circuit.create_variable(elem);
        Ok(v)
    }
}

/// A point variable: the two coordinate variables of an elliptic-curve point,
/// already expressed in the coordinate system the sponge expects.
#[derive(Clone, Copy)]
pub struct PointVariable {
    /// The x-coordinate variable.
    pub x: Variable,
    /// The y-coordinate variable.
    pub y: Variable,
}

impl PointVariable {
    /// A point variable from its coordinate variables.
    pub fn new(x: Variable, y: Variable) -> (r: PointVariable)
        ensures
            r.x == x,
            r.y == y,
    {
        PointVariable { x, y }
    }

    /// The x-coordinate variable.
    pub fn get_x(&self) -> (r: Variable)
        ensures
            r == self.x,
    {
        self.x
    }

    /// The y-coordinate variable.
    pub fn get_y(&self) -> (r: Variable)
        ensures
            r == self.y,
    {
        self.y
    }
}

/// The verifying-key material the transcript absorbs: ordered selector and
/// permutation (sigma) commitments, as point variables.
pub struct VerifyingKeyVar {
    /// Selector commitments, in order.
    pub selector_comms: Vec<PointVariable>,
    /// Sigma commitments, in order.
    pub sigma_comms: Vec<PointVariable>,
}

impl VerifyingKeyVar {
    /// Every commitment's coordinate variables are allocated in the circuit.
    pub open spec fn wf(self, c: PlonkCircuit) -> bool {
        &&& forall|i: int|
            0 <= i < self.selector_comms@.len() ==> (#[trigger] self.selector_comms@[i]).x
                < c.num_vars() && self.selector_comms@[i].y < c.num_vars()
        &&& forall|i: int|
            0 <= i < self.sigma_comms@.len() ==> (#[trigger] self.sigma_comms@[i]).x
                < c.num_vars() && self.sigma_comms@[i].y < c.num_vars()
    }
}

/// The evaluation record the transcript absorbs: ordered wire evaluations,
/// wire-permutation evaluations, and the next-round permutation evaluation.
pub struct ProofEvaluationsVar {
    /// Wire evaluations, in order.
    pub wires_evals: Vec<FpElemVar>,
    /// Wire-permutation evaluations, in order.
    pub wire_sigma_evals: Vec<FpElemVar>,
    /// The next-round permutation evaluation.
    pub perm_next_eval: FpElemVar,
}

impl ProofEvaluationsVar {
    /// Every evaluation is a well-formed two-limb value in the circuit.
    pub open spec fn wf(self, c: PlonkCircuit) -> bool {
        &&& forall|i: int|
            0 <= i < self.wires_evals@.len() ==> (#[trigger] self.wires_evals@[i]).fp_wf(c)
        &&& forall|i: int|
            0 <= i < self.wire_sigma_evals@.len() ==> (#[trigger] self.wire_sigma_evals@[i]).fp_wf(
                c,
            )
        &&& self.perm_next_eval.fp_wf(c)
    }
}

} // verus!
