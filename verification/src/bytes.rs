//! Little-endian byte strings as integers: the value model that every field
//! encoding in this crate is stated over, with the lemmas that connect
//! splitting, padding and truncation of byte strings to integer arithmetic.

use vstd::prelude::*;
use vstd::arithmetic::power2::{pow2, lemma_pow2_adds, lemma_pow2_pos, lemma2_to64};
use vstd::arithmetic::div_mod::{lemma_small_mod, lemma_fundamental_div_mod_converse};

verus! {

/// The integer value of a little-endian byte string.
pub open spec fn le_val(b: Seq<u8>) -> nat
    decreases b.len(),
{
    if b.len() == 0 {
        0
    } else {
        b[0] as nat + 256 * le_val(b.skip(1))
    }
}

/// A byte string of length n denotes a value below 2^(8n).
pub proof fn lemma_le_val_bound(b: Seq<u8>)
    ensures
        le_val(b) < pow2(8 * b.len()),
    decreases b.len(),
{
    if b.len() == 0 {
        assert(pow2(0) == 1) by {
            lemma2_to64();
        }
    } else {
        lemma_le_val_bound(b.skip(1));
        lemma_pow2_adds(8, 8 * (b.len() - 1) as nat);
        assert(pow2(8) == 256) by {
            lemma2_to64();
        }
        assert(le_val(b) < 256 * pow2(8 * (b.len() - 1) as nat)) by {
            assert(le_val(b.skip(1)) <= pow2(8 * (b.len() - 1) as nat) - 1);
        }
    }
}

/// Concatenation splits the value: the prefix holds the low digits.
pub proof fn lemma_le_val_concat(a: Seq<u8>, b: Seq<u8>)
    ensures
        le_val(a + b) == le_val(a) + pow2(8 * a.len()) * le_val(b),
    decreases a.len(),
{
    if a.len() == 0 {
        assert(a + b =~= b);
        assert(pow2(0) == 1) by {
            lemma2_to64();
        }
    } else {
        assert((a + b).skip(1) =~= a.skip(1) + b);
        lemma_le_val_concat(a.skip(1), b);
        lemma_pow2_adds(8, 8 * (a.len() - 1) as nat);
        assert(pow2(8) == 256) by {
            lemma2_to64();
        }
        assert(256 * (pow2(8 * (a.len() - 1) as nat) * le_val(b))
            == (256 * pow2(8 * (a.len() - 1) as nat)) * le_val(b))
            by (nonlinear_arith);
    }
}

/// The value of the first k bytes is the whole value reduced modulo 2^(8k).
pub proof fn lemma_le_val_take_mod(b: Seq<u8>, k: nat)
    requires
        k <= b.len(),
    ensures
        le_val(b) == le_val(b.take(k as int)) + pow2(8 * k) * le_val(b.skip(k as int)),
        le_val(b.take(k as int)) == le_val(b) % pow2(8 * k),
{
    assert(b =~= b.take(k as int) + b.skip(k as int));
    lemma_le_val_concat(b.take(k as int), b.skip(k as int));
    lemma_le_val_bound(b.take(k as int));
    lemma_pow2_pos(8 * k);
    lemma_fundamental_div_mod_converse(
        le_val(b) as int,
        pow2(8 * k) as int,
        le_val(b.skip(k as int)) as int,
        le_val(b.take(k as int)) as int,
    );
}

/// A string of zero bytes denotes zero.
pub proof fn lemma_le_val_zeros(b: Seq<u8>)
    requires
        forall|i: int| 0 <= i < b.len() ==> b[i] == 0,
    ensures
        le_val(b) == 0,
    decreases b.len(),
{
    if b.len() > 0 {
        lemma_le_val_zeros(b.skip(1));
    }
}

/// Equal-length byte strings with the same value are the same string.
pub proof fn lemma_le_val_injective(a: Seq<u8>, b: Seq<u8>)
    requires
        a.len() == b.len(),
        le_val(a) == le_val(b),
    ensures
        a == b,
    decreases a.len(),
{
    if a.len() == 0 {
        assert(a =~= b);
    } else {
        assert(a[0] == b[0]) by {
            assert(le_val(a) % 256 == a[0] as nat) by {
                lemma_fundamental_div_mod_converse(
                    le_val(a) as int,
                    256,
                    le_val(a.skip(1)) as int,
                    a[0] as int,
                );
            }
            assert(le_val(b) % 256 == b[0] as nat) by {
                lemma_fundamental_div_mod_converse(
                    le_val(b) as int,
                    256,
                    le_val(b.skip(1)) as int,
                    b[0] as int,
                );
            }
        }
        lemma_le_val_injective(a.skip(1), b.skip(1));
        assert forall|i: int| 0 <= i < a.len() implies a[i] == b[i] by {
            if i > 0 {
                assert(a[i] == a.skip(1)[i - 1]);
                assert(b[i] == b.skip(1)[i - 1]);
            }
        }
        assert(a =~= b);
    }
}

/// Byte strings with the same value agree on their overlapping prefix.
pub proof fn lemma_le_val_agree_on_overlap(a: Seq<u8>, b: Seq<u8>, k: nat)
    requires
        le_val(a) == le_val(b),
        k <= a.len(),
        k <= b.len(),
        k == a.len() || k == b.len(),
    ensures
        a.take(k as int) == b.take(k as int),
{
    lemma_le_val_take_mod(a, k);
    lemma_le_val_take_mod(b, k);
    lemma_le_val_injective(a.take(k as int), b.take(k as int));
}

/// Copies `b[from..to]` into a fresh vector.
pub fn copy_range(b: &[u8], from: usize, to: usize) -> (r: Vec<u8>)
    requires
        from <= to <= b@.len(),
    ensures
        r@ == b@.subrange(from as int, to as int),
{
    let mut r: Vec<u8> = Vec::new();
    let mut i: usize = from;
    while i < to
        invariant
            from <= i <= to <= b@.len(),
            r@ == b@.subrange(from as int, i as int),
        decreases to - i,
    {
        r.push(b[i]);
        assert(b@.subrange(from as int, i + 1) =~= b@.subrange(from as int, i as int).push(b@[i as int]));
        i = i + 1;
    }
    r
}

/// A vector of n zero bytes.
pub fn zero_bytes(n: usize) -> (r: Vec<u8>)
    ensures
        r@.len() == n,
        le_val(r@) == 0,
{
    let mut r: Vec<u8> = Vec::new();
    let mut i: usize = 0;
    while i < n
        invariant
            i <= n,
            r@.len() == i,
            forall|j: int| 0 <= j < r@.len() ==> r@[j] == 0,
        decreases n - i,
    {
        r.push(0u8);
        i = i + 1;
    }
    proof {
        lemma_le_val_zeros(r@);
    }
    r
}

/// Re-encodes a little-endian byte string at the given length: the value is
/// reduced modulo 2^(8n) when n is shorter than the string, and preserved
/// (zero-padded on the right) otherwise.
pub fn resize_le_bytes(b: &[u8], n: usize) -> (r: Vec<u8>)
    ensures
        r@.len() == n,
        le_val(r@) == le_val(b@) % pow2(8 * n as nat),
{
    let k = if n < b.len() {
        n
    } else {
        b.len()
    };
    let mut r = copy_range(b, 0, k);
    proof {
        assert(r@ =~= b@.take(k as int));
        lemma_le_val_take_mod(b@, k as nat);
    }
    while r.len() < n
        invariant
            r@.len() <= n,
            k <= r@.len(),
            r@.take(k as int) == b@.take(k as int),
            forall|j: int| k <= j < r@.len() ==> r@[j] == 0,
        decreases n - r@.len(),
    {
        r.push(0u8);
        assert(r@.take(k as int) =~= b@.take(k as int));
    }
    proof {
        assert(r@ =~= r@.take(k as int) + r@.skip(k as int));
        lemma_le_val_concat(r@.take(k as int), r@.skip(k as int));
        lemma_le_val_zeros(r@.skip(k as int));
        assert(le_val(r@) == le_val(b@.take(k as int)));
        if n < b.len() {
            assert(le_val(r@) == le_val(b@) % pow2(8 * n as nat));
        } else {
            assert(b@.take(k as int) =~= b@);
            lemma_le_val_bound(b@);
            lemma_pow2_pos(8 * (n - k) as nat);
            lemma_pow2_adds(8 * k as nat, 8 * (n - k) as nat);
            assert(pow2(8 * k as nat) <= pow2(8 * n as nat)) by {
                assert(pow2(8 * k as nat) * 1 <= pow2(8 * k as nat) * pow2(8 * (n - k) as nat))
                    by (nonlinear_arith)
                    requires pow2(8 * (n - k) as nat) >= 1, pow2(8 * k as nat) >= 0;
            }
            lemma_small_mod(le_val(b@), pow2(8 * n as nat));
        }
    }
    r
}

/// Compares the first n bytes of two strings.
pub fn ranges_equal(a: &[u8], b: &[u8], n: usize) -> (r: bool)
    requires
        n <= a@.len(),
        n <= b@.len(),
    ensures
        r <==> a@.take(n as int) == b@.take(n as int),
{
    let mut i: usize = 0;
    while i < n
        invariant
            i <= n <= a@.len(),
            n <= b@.len(),
            forall|j: int| 0 <= j < i ==> a@[j] == b@[j],
        decreases n - i,
    {
        if a[i] != b[i] {
            assert(a@.take(n as int)[i as int] != b@.take(n as int)[i as int]);
            return false;
        }
        i = i + 1;
    }
    assert(a@.take(n as int) =~= b@.take(n as int));
    true
}

} // verus!
