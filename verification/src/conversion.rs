//! Conversions between field-element representations and byte strings. Each
//! conversion states whether information can be lost: reinterpretation without
//! reduction, explicit modular reduction, masking, and the checked switch that
//! only accepts values representable on both sides.

use vstd::prelude::*;
use vstd::arithmetic::power2::{pow2, lemma_pow2_pos, lemma_pow2_strictly_increases};
use vstd::arithmetic::div_mod::{lemma_small_mod, lemma_mod_bound, lemma_fundamental_div_mod};
use vstd::arithmetic::mul::lemma_mul_inequality;
use crate::bytes::{
    le_val, copy_range, ranges_equal, resize_le_bytes, lemma_le_val_bound, lemma_le_val_concat,
    lemma_le_val_zeros, lemma_le_val_take_mod, lemma_le_val_agree_on_overlap,
};
use crate::field::{
    FieldId, FieldElem, field_modulus, spec_size_in_bits, spec_bytes_len, size_in_bits,
    lemma_field_facts, lemma_canonical_injective,
};
use sha2::{Digest, Sha512};

verus! {

/// Reinterprets a scalar-field element in a base field whose modulus is at
/// least as large: the canonical bytes are decoded without any reduction
/// taking effect, so the integer value is preserved exactly.
pub fn fr_to_fq(x: &FieldElem, target: FieldId) -> (r: FieldElem)
    requires
        x.wf(),
        field_modulus(x.id()) <= field_modulus(target),
    ensures
        r.wf(),
        r.id() == target,
        r.val() == x.val(),
{
    let b = x.le_bytes();
    let r = FieldElem::from_le_bytes_mod_order(target, b.as_slice());
    proof {
        lemma_field_facts(target);
        lemma_small_mod(x.val(), field_modulus(target));
    }
    r
}

/// Decodes a base-field element's bytes in the scalar field, with modular
/// reduction whenever the value exceeds the target modulus. Lossy by design
/// when the fields are swapped from the expected size ordering.
pub fn fq_to_fr(x: &FieldElem, target: FieldId) -> (r: FieldElem)
    requires
        x.wf(),
    ensures
        r.wf(),
        r.id() == target,
        r.val() == x.val() % field_modulus(target),
{
    let b = x.le_bytes();
    FieldElem::from_le_bytes_mod_order(target, b.as_slice())
}

/// Converts into a strictly smaller field by masking away everything above
/// the low `target bits / 8` bytes before decoding; the retained value is
/// below the target modulus, so no modular reduction occurs.
pub fn fq_to_fr_with_mask(x: &FieldElem, target: FieldId) -> (r: FieldElem)
    requires
        x.wf(),
        spec_size_in_bits(target) < spec_size_in_bits(x.id()),
    ensures
        r.wf(),
        r.id() == target,
        r.val() == x.val() % pow2(8 * (spec_size_in_bits(target) / 8)),
{
    let length = size_in_bits(target) / 8;
    let b = x.le_bytes();
    let masked = resize_le_bytes(b.as_slice(), length);
    proof {
        lemma_field_facts(target);
        lemma_pow2_pos(8 * (spec_size_in_bits(target) / 8));
        lemma_mod_bound(x.val() as int, pow2(8 * (spec_size_in_bits(target) / 8)) as int);
        lemma_small_mod(le_val(masked@), field_modulus(target));
    }
    FieldElem::from_le_bytes_mod_order(target, masked.as_slice())
}

/// Decodes the element in the target field and compares the re-encoded bytes
/// with the source over their overlapping range; `None` signals that the
/// value does not fit the target field. Whenever the value is representable
/// in both fields the switch succeeds and preserves it exactly.
pub fn try_field_switching(x: &FieldElem, target: FieldId) -> (r: Option<FieldElem>)
    requires
        x.wf(),
    ensures
        x.val() < field_modulus(target) ==> r is Some,
        r is None ==> x.val() >= field_modulus(target),
        r matches Some(y) ==> y.wf() && y.id() == target && y.val() == x.val() % field_modulus(
            target,
        ),
        r is Some && spec_bytes_len(x.id()) <= spec_bytes_len(target) ==> x.val() < field_modulus(
            target,
        ),
{
    let b = x.le_bytes();
    let t = FieldElem::from_le_bytes_mod_order(target, b.as_slice());
    let rec = t.le_bytes();
    let l = if rec.len() < b.len() {
        rec.len()
    } else {
        b.len()
    };
    let consistent = ranges_equal(rec.as_slice(), b.as_slice(), l);
    proof {
        lemma_field_facts(target);
        if x.val() < field_modulus(target) {
            lemma_small_mod(x.val(), field_modulus(target));
            lemma_le_val_agree_on_overlap(rec@, b@, l as nat);
        }
        // in the non-shrinking direction a passing check certifies the value:
        // the source bytes are the low part of the re-encoding, whose value
        // stays below the target modulus
        if consistent && x.enc().len() <= rec@.len() {
            assert(b@.take(l as int) =~= b@);
            lemma_le_val_take_mod(rec@, l as nat);
            lemma_mod_bound(x.val() as int, field_modulus(target) as int);
            assert(le_val(rec@) >= le_val(b@));
            assert(x.val() < field_modulus(target));
        }
    }
    if consistent {
        Some(t)
    } else {
        None
    }
}

/// The safe cross-field conversion used whenever both sides must agree
/// exactly: decoding and re-encoding is checked to reproduce the source
/// bytes, which holds for every value representable in the target field.
pub fn field_switching(x: &FieldElem, target: FieldId) -> (r: FieldElem)
    requires
        x.wf(),
        x.val() < field_modulus(target),
    ensures
        r.wf(),
        r.id() == target,
        r.val() == x.val(),
{
    let r = try_field_switching(x, target);
    proof {
        lemma_field_facts(target);
        lemma_small_mod(x.val(), field_modulus(target));
    }
    match r {
        Some(t) => t,
        None => FieldElem::zero(target),  // unreachable: the value fits the target field
    }
}

/// What `sha2::Sha512` returns: the 512-bit digest of the input bytes.
pub uninterp spec fn sha512_spec(b: Seq<u8>) -> Seq<u8>;

/// Relies on `sha2::Sha512`: the digest is 64 bytes and a function of the
/// input bytes alone.
#[verifier::external_body]
fn sha512_digest(b: &[u8]) -> (r: Vec<u8>)
    ensures
        r@.len() == 64,
        r@ == sha512_spec(b@),
{
    let mut hasher = Sha512::default();
    hasher.update(b);
    hasher.finalize().to_vec()
}

/// The prefix length of the digest that `hash_to_field` decodes: sixteen
/// bytes more than the modulus needs, so the bias after reduction is at most
/// 2^-128.
pub open spec fn hash_prefix_len(id: FieldId) -> nat {
    (spec_size_in_bits(id) + 7) / 8 + 16
}

/// Hashes an arbitrary byte string into the field: the first
/// `hash_prefix_len` bytes of the 512-bit digest, decoded with modular
/// reduction (intentional and harmless here).
pub fn hash_to_field(bytes: &[u8], id: FieldId) -> (r: FieldElem)
    requires
        hash_prefix_len(id) <= 64,
    ensures
        r.wf(),
        r.id() == id,
        r.val() == le_val(sha512_spec(bytes@).take(hash_prefix_len(id) as int)) % field_modulus(
            id,
        ),
{
    let rand_byte_len = (size_in_bits(id) + 7) / 8 + 16;
    let digest = sha512_digest(bytes);
    let prefix = copy_range(digest.as_slice(), 0, rand_byte_len);
    proof {
        assert(prefix@ =~= sha512_spec(bytes@).take(hash_prefix_len(id) as int));
    }
    FieldElem::from_le_bytes_mod_order(id, prefix.as_slice())
}

/// The chunk size `bytes_to_field_elements` uses: a whole number of bytes
/// strictly below the field's bit length, so chunks decode without reduction.
pub open spec fn chunk_len(id: FieldId) -> nat {
    spec_size_in_bits(id) / 8
}

/// Number of chunks an input of the given length splits into.
pub open spec fn chunk_count(len: nat, ck: nat) -> nat {
    (((len + ck - 1) as int) / (ck as int)) as nat
}

/// The value of the i-th chunk: the bytes from `i*ck` up to the next chunk
/// boundary or the end of the input, whichever comes first.
pub open spec fn chunk_val(b: Seq<u8>, i: nat, ck: nat) -> nat {
    le_val(
        b.subrange(
            (i * ck) as int,
            if (i + 1) * ck <= b.len() {
                ((i + 1) * ck) as int
            } else {
                b.len() as int
            },
        ),
    )
}

/// The sequence of integer values `bytes_to_field_elements` produces.
pub open spec fn field_elems_vals(b: Seq<u8>, id: FieldId) -> Seq<nat> {
    Seq::new(chunk_count(b.len(), chunk_len(id)), |i: int| chunk_val(b, i as nat, chunk_len(id)))
}

/// Splits a byte string into consecutive field elements, one per chunk of
/// `floor(bits/8)` bytes (the input is implicitly zero-padded on the right to
/// a chunk boundary); every chunk decodes injectively, without reduction.
pub fn bytes_to_field_elements(bytes: &[u8], id: FieldId) -> (r: Vec<FieldElem>)
    requires
        bytes@.len() + 48 < usize::MAX,
    ensures
        r@.len() == chunk_count(bytes@.len(), chunk_len(id)),
        forall|i: int|
            0 <= i < r@.len() ==> (#[trigger] r@[i]).wf() && r@[i].id() == id && r@[i].val()
                == field_elems_vals(bytes@, id)[i],
{
    let ck = size_in_bits(id) / 8;
    proof {
        lemma_field_facts(id);
    }
    let len = bytes.len();
    let n = (len + ck - 1) / ck;
    proof {
        lemma_chunk_count_bounds(len as nat, ck as nat);
    }
    let mut r: Vec<FieldElem> = Vec::new();
    let mut i: usize = 0;
    while i < n
        invariant
            i <= n,
            r@.len() == i,
            ck == chunk_len(id),
            31 <= ck <= 47,
            len == bytes@.len(),
            len + 48 < usize::MAX,
            n == chunk_count(len as nat, ck as nat),
            n * ck <= len + ck - 1,
            forall|j: int|
                0 <= j < i ==> (#[trigger] r@[j]).wf() && r@[j].id() == id && r@[j].val()
                    == chunk_val(bytes@, j as nat, ck as nat),
        decreases n - i,
    {
        proof {
            lemma_field_facts(id);
            lemma_mul_inequality(i as int + 1, n as int, ck as int);
            assert((i + 1) * ck == i * ck + ck) by (nonlinear_arith);
        }
        let lo = i * ck;
        let hi = if len - lo > ck {
            lo + ck
        } else {
            len
        };
        let chunk = copy_range(bytes, lo, hi);
        proof {
            lemma_le_val_bound(chunk@);
            if chunk@.len() < ck {
                lemma_pow2_strictly_increases(8 * chunk@.len(), 8 * ck as nat);
            }
            lemma_small_mod(le_val(chunk@), field_modulus(id));
        }
        let elem = FieldElem::from_le_bytes_mod_order(id, chunk.as_slice());
        r.push(elem);
        i = i + 1;
    }
    r
}

/// Padding with zero bytes up to the next chunk boundary changes neither the
/// number of produced elements nor any of their values.
pub proof fn lemma_zero_pad_preserves_elems(b: Seq<u8>, z: Seq<u8>, id: FieldId)
    requires
        forall|i: int| 0 <= i < z.len() ==> z[i] == 0,
        b.len() + z.len() <= chunk_count(b.len(), chunk_len(id)) * chunk_len(id),
    ensures
        field_elems_vals(b + z, id) == field_elems_vals(b, id),
{
    lemma_field_facts(id);
    let ck = chunk_len(id);
    let n = chunk_count(b.len(), ck);
    lemma_ceil_div_stable(b.len(), ck, b.len() + z.len());
    assert(chunk_count((b + z).len(), ck) == n);
    assert forall|i: int| 0 <= i < n implies #[trigger] chunk_val(b + z, i as nat, ck)
        == chunk_val(b, i as nat, ck) by {
        lemma_chunk_zero_pad(b, z, i as nat, ck);
    }
    assert(field_elems_vals(b + z, id) =~= field_elems_vals(b, id));
}

proof fn lemma_chunk_zero_pad(b: Seq<u8>, z: Seq<u8>, i: nat, ck: nat)
    requires
        forall|j: int| 0 <= j < z.len() ==> z[j] == 0,
        ck > 0,
        i < chunk_count(b.len(), ck),
        b.len() + z.len() <= chunk_count(b.len(), ck) * ck,
    ensures
        chunk_val(b + z, i, ck) == chunk_val(b, i, ck),
{
    let n = chunk_count(b.len(), ck);
    lemma_chunk_count_bounds(b.len(), ck);
    lemma_mul_inequality((i + 1) as int, n as int, ck as int);
    assert(i * ck + ck == (i + 1) * ck) by (nonlinear_arith);
    let lo = (i * ck) as int;
    assert(lo + ck <= n * ck);
    assert(lo < b.len());
    if (i + 1) * ck <= b.len() {
        // the chunk lies wholly inside b, where b + z agrees with b
        assert((b + z).subrange(lo, lo + ck) =~= b.subrange(lo, lo + ck));
    } else {
        // the chunk ends past b: the tail is zero padding, worth nothing
        let whole = (b + z).len() as int;
        let hi = if lo + ck <= whole {
            lo + ck
        } else {
            whole
        };
        let head = b.subrange(lo, b.len() as int);
        let tail = (b + z).subrange(b.len() as int, hi);
        assert((b + z).subrange(lo, hi) =~= head + tail);
        lemma_le_val_concat(head, tail);
        assert forall|j: int| 0 <= j < tail.len() implies tail[j] == 0 by {
            assert(tail[j] == (b + z)[b.len() + j]);
            assert((b + z)[b.len() + j] == z[j]);
        }
        lemma_le_val_zeros(tail);
        assert(pow2(8 * head.len()) * le_val(tail) == 0) by (nonlinear_arith)
            requires
                le_val(tail) == 0,
        ;
        assert(le_val(head + tail) == le_val(head));
        assert(chunk_val(b + z, i, ck) == le_val((b + z).subrange(lo, hi)));
        assert(chunk_val(b + z, i, ck) == le_val(head));
        assert(chunk_val(b, i, ck) == le_val(head));
    }
}

/// The chunk count is the ceiling division: it covers the whole input and
/// wastes less than one chunk.
pub proof fn lemma_chunk_count_bounds(len: nat, ck: nat)
    requires
        ck > 0,
    ensures
        len <= chunk_count(len, ck) * ck,
        chunk_count(len, ck) * ck <= len + ck - 1,
{
    let q = ((len + ck - 1) as int) / (ck as int);
    lemma_fundamental_div_mod((len + ck - 1) as int, ck as int);
    lemma_mod_bound((len + ck - 1) as int, ck as int);
    let r = ((len + ck - 1) as int) % (ck as int);
    assert(q >= 0 && q * ck <= len + ck - 1 && len <= q * ck) by (nonlinear_arith)
        requires
            ck > 0,
            len + ck - 1 == ck * q + r,
            0 <= r < ck,
    ;
    assert(chunk_count(len, ck) == q);
}

/// A length already at or below a ceiling-division boundary keeps the same
/// chunk count when grown up to that boundary.
proof fn lemma_ceil_div_stable(a: nat, d: nat, x: nat)
    requires
        d > 0,
        a <= x,
        x <= chunk_count(a, d) * d,
    ensures
        chunk_count(x, d) == chunk_count(a, d),
{
    lemma_chunk_count_bounds(a, d);
    lemma_chunk_count_bounds(x, d);
    let n = chunk_count(a, d) as int;
    let m = chunk_count(x, d) as int;
    assert(m == n) by (nonlinear_arith)
        requires
            d > 0,
            a <= x <= n * d,
            a <= n * d <= a + d - 1,
            x <= m * d <= x + d - 1,
    ;
}

/// Masking to a whole number of bytes of the target bit length lands strictly
/// below the target modulus, and doing it twice changes nothing.
pub proof fn lemma_truncate_idempotent(v: nat, target: FieldId)
    ensures
        v % pow2(8 * (spec_size_in_bits(target) / 8)) < field_modulus(target),
        (v % pow2(8 * (spec_size_in_bits(target) / 8))) % pow2(
            8 * (spec_size_in_bits(target) / 8),
        ) == v % pow2(8 * (spec_size_in_bits(target) / 8)),
{
    lemma_field_facts(target);
    let m = pow2(8 * (spec_size_in_bits(target) / 8));
    lemma_pow2_pos(8 * (spec_size_in_bits(target) / 8));
    lemma_mod_bound(v as int, m as int);
    lemma_small_mod(v % m, m);
}

/// Round trip of the checked switch: a value representable in both fields
/// comes back as the very same canonical element. Here `y` is what
/// `field_switching(x, target)` returns and `z` what switching `y` back into
/// the source field returns.
pub proof fn lemma_field_switching_round_trip(x: FieldElem, y: FieldElem, z: FieldElem)
    requires
        x.wf(),
        y.wf(),
        z.wf(),
        x.val() < field_modulus(y.id()),
        y.val() == x.val(),
        z.id() == x.id(),
        z.val() == y.val(),
    ensures
        z.enc() == x.enc(),
        z.val() == x.val(),
{
    lemma_canonical_injective(z, x);
}


} // verus!
