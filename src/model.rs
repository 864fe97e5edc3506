//! The mathematical model of records: which values a field admits, the
//! integer a record encodes to, the fields an integer decodes to, and the
//! little-endian bytes of an integer.
use crate::arith::{lemma_pow2_128, lemma_pow2_le};
use crate::schema::{
    domain_ok, domain_width, field_width, lemma_count_width, lemma_sum_prefix_step, offset_of,
    sum_widths, Domain, FieldSpec,
};
use vstd::arithmetic::div_mod::*;
use vstd::arithmetic::mul::*;
use vstd::arithmetic::power2::*;
use vstd::prelude::*;

verus! {

/// Why a value does not decode or cannot be stored.
#[derive(Clone, Copy, Debug, PartialEq, Eq, Structural)]
pub enum ValueError {
    /// A value outside the field's domain, or bits above the total width.
    OutOfBounds,
    /// An enumeration field whose bits name no declared variant.
    InvalidBitPattern,
}

/// The field has a getter, and so takes part in encoding.
pub open spec fn readable(f: FieldSpec) -> bool {
    !f.suppress_getter && !f.suppress_both
}

/// The field has a setter, and so takes part in decoding.
pub open spec fn writable(f: FieldSpec) -> bool {
    !f.suppress_setter && !f.suppress_both
}

/// `v` is a legal value of the domain.
pub open spec fn in_domain(d: Domain, v: nat) -> bool {
    match d {
        Domain::UnsignedInt(w) => v < pow2(w as nat),
        Domain::Boolean => v < 2,
        Domain::Enum(n) => v < n,
    }
}

/// The values of a record of these fields: one legal value per field, and
/// zero in each field without a setter.
pub open spec fn valid_values(fields: Seq<FieldSpec>, vals: Seq<u128>) -> bool {
    &&& vals.len() == fields.len()
    &&& forall|i: int|
        0 <= i < fields.len() ==> {
            &&& in_domain(fields[i].domain, #[trigger] vals[i] as nat)
            &&& !writable(fields[i]) ==> vals[i] == 0
        }
}

/// The slot of field `i` in a record: how many fields before it have one
/// (a field with neither getter nor setter is pure padding and has none).
pub open spec fn slot_of(fields: Seq<FieldSpec>, i: int) -> nat
    decreases i,
{
    if i <= 0 {
        0
    } else {
        slot_of(fields, i - 1) + if fields[i - 1].suppress_both {
            0nat
        } else {
            1nat
        }
    }
}

/// The number of slots of a record of these fields.
pub open spec fn slot_count(fields: Seq<FieldSpec>) -> nat {
    slot_of(fields, fields.len() as int)
}

/// The value of every declared field, read from the slots of a record;
/// padding reads as zero.
pub open spec fn full_values(fields: Seq<FieldSpec>, slots: Seq<u128>) -> Seq<u128> {
    Seq::new(
        fields.len(),
        |i: int|
            if fields[i].suppress_both {
                0u128
            } else {
                slots[slot_of(fields, i) as int]
            },
    )
}

/// Slots grow with the field index, strictly past a field that has one.
pub proof fn lemma_slot_mono(fields: Seq<FieldSpec>, i: int, j: int)
    requires
        0 <= i <= j <= fields.len(),
    ensures
        slot_of(fields, i) <= slot_of(fields, j),
        i < j && !fields[i].suppress_both ==> slot_of(fields, i) < slot_of(fields, j),
    decreases j,
{
    if i < j {
        lemma_slot_mono(fields, i, j - 1);
    }
}

/// Each value fits the width of its field.
pub open spec fn values_fit(fields: Seq<FieldSpec>, vals: Seq<u128>) -> bool {
    &&& vals.len() == fields.len()
    &&& forall|i: int| 0 <= i < fields.len() ==> #[trigger] vals[i] < pow2(field_width(fields[i]))
}

/// What field `i` puts into the encoding: its value, or nothing when it has
/// no getter.
pub open spec fn contribution(fields: Seq<FieldSpec>, vals: Seq<u128>, i: int) -> nat {
    if readable(fields[i]) {
        vals[i] as nat
    } else {
        0
    }
}

/// The encoding of the first `k` fields: each field's value placed at its offset.
pub open spec fn encode_prefix(fields: Seq<FieldSpec>, vals: Seq<u128>, k: int) -> nat
    decreases k,
{
    if k <= 0 {
        0
    } else {
        encode_prefix(fields, vals, k - 1) + contribution(fields, vals, k - 1) * pow2(
            offset_of(fields, k - 1),
        )
    }
}

/// The integer a record encodes to.
pub open spec fn encode_value(fields: Seq<FieldSpec>, vals: Seq<u128>) -> nat {
    encode_prefix(fields, vals, fields.len() as int)
}

/// Bits `off .. off + w` of `x`.
pub open spec fn field_bits(x: nat, off: nat, w: nat) -> nat {
    (x / pow2(off)) % pow2(w)
}

/// What field `i` decodes to from `x`: its bits, or zero when it has no setter.
pub open spec fn decoded_field(fields: Seq<FieldSpec>, x: nat, i: int) -> nat {
    if writable(fields[i]) {
        field_bits(x, offset_of(fields, i), field_width(fields[i]))
    } else {
        0
    }
}

pub open spec fn decoded_values(fields: Seq<FieldSpec>, x: nat) -> Seq<u128> {
    Seq::new(fields.len(), |i: int| decoded_field(fields, x, i) as u128)
}

/// The bits of an enumeration field name a declared variant.
pub open spec fn pattern_ok(d: Domain, v: nat) -> bool {
    match d {
        Domain::Enum(n) => v < n,
        _ => true,
    }
}

/// Decoding `x` against fields of total width `total`.
pub open spec fn decode_spec(fields: Seq<FieldSpec>, total: nat, x: nat) -> Result<
    Seq<u128>,
    ValueError,
> {
    if x >= pow2(total) {
        Err(ValueError::OutOfBounds)
    } else if exists|i: int|
        0 <= i < fields.len() && !pattern_ok(fields[i].domain, #[trigger] decoded_field(fields, x, i))
    {
        Err(ValueError::InvalidBitPattern)
    } else {
        Ok(decoded_values(fields, x))
    }
}

/// Byte `k` of `x`, least significant first.
pub open spec fn byte_at(x: nat, k: nat) -> u8 {
    ((x / pow2(8 * k)) % 256) as u8
}

/// The `n` little-endian bytes of `x`.
pub open spec fn le_bytes(x: nat, n: nat) -> Seq<u8> {
    Seq::new(n, |k: int| byte_at(x, k as nat))
}

/// The number whose little-endian bytes are `s`.
pub open spec fn le_value(s: Seq<u8>) -> nat
    decreases s.len(),
{
    if s.len() == 0 {
        0
    } else {
        s[0] as nat + 256 * le_value(s.drop_first())
    }
}

/// A legal value fits the width of its domain.
pub proof fn lemma_in_domain_fits(d: Domain, v: nat)
    requires
        domain_ok(d),
        in_domain(d, v),
    ensures
        v < pow2(domain_width(d)),
{
    match d {
        Domain::Enum(n) => {
            lemma_count_width(n as nat);
        },
        Domain::Boolean => {
            lemma2_to64();
        },
        _ => {},
    }
}

/// The values of a record fit their fields.
pub proof fn lemma_valid_values_fit(fields: Seq<FieldSpec>, vals: Seq<u128>)
    requires
        forall|i: int| 0 <= i < fields.len() ==> domain_ok(#[trigger] fields[i].domain),
        valid_values(fields, vals),
    ensures
        values_fit(fields, vals),
{
    assert forall|i: int| 0 <= i < fields.len() implies #[trigger] vals[i] < pow2(
        field_width(fields[i]),
    ) by {
        lemma_in_domain_fits(fields[i].domain, vals[i] as nat);
    }
}

/// Offsets grow with the index, up to the sum of all widths.
pub proof fn lemma_offset_mono(fields: Seq<FieldSpec>, i: int, k: int)
    requires
        0 <= i <= k <= fields.len(),
    ensures
        offset_of(fields, i) <= offset_of(fields, k),
        offset_of(fields, k) <= sum_widths(fields),
    decreases fields.len() - i,
{
    if i < k {
        lemma_sum_prefix_step(fields, i);
        lemma_offset_mono(fields, i + 1, k);
    } else if k < fields.len() {
        lemma_sum_prefix_step(fields, k);
        lemma_offset_mono(fields, k + 1, k + 1);
    } else {
        assert(fields.subrange(0, k) =~= fields);
    }
}

/// The encoding of the first `k` fields stays below their end offset.
pub proof fn lemma_encode_bound(fields: Seq<FieldSpec>, vals: Seq<u128>, k: int)
    requires
        values_fit(fields, vals),
        0 <= k <= fields.len(),
    ensures
        encode_prefix(fields, vals, k) < pow2(offset_of(fields, k)),
    decreases k,
{
    if k == 0 {
        assert(fields.subrange(0, 0) =~= Seq::<FieldSpec>::empty());
        lemma2_to64();
    } else {
        lemma_encode_bound(fields, vals, k - 1);
        lemma_sum_prefix_step(fields, k - 1);
        let e = encode_prefix(fields, vals, k - 1) as int;
        let c = contribution(fields, vals, k - 1) as int;
        let p = pow2(offset_of(fields, k - 1)) as int;
        let q = pow2(field_width(fields[k - 1])) as int;
        lemma_pow2_adds(offset_of(fields, k - 1), field_width(fields[k - 1]));
        assert(vals[k - 1] < pow2(field_width(fields[k - 1])));
        lemma_mul_inequality(c, q - 1, p);
        assert((q - 1) * p + p == q * p) by (nonlinear_arith);
        lemma_mul_is_commutative(q, p);
        assert(e + c * p < p * q);
    }
}

/// In the encoding of the first `k` fields, the bits of an earlier field
/// hold exactly what that field put in.
pub proof fn lemma_encode_extract(fields: Seq<FieldSpec>, vals: Seq<u128>, i: int, k: int)
    requires
        values_fit(fields, vals),
        0 <= i < k <= fields.len(),
    ensures
        field_bits(encode_prefix(fields, vals, k), offset_of(fields, i), field_width(fields[i]))
            == contribution(fields, vals, i),
    decreases k,
{
    let p = pow2(offset_of(fields, i)) as int;
    let q = pow2(field_width(fields[i])) as int;
    lemma_pow2_pos(offset_of(fields, i));
    lemma_pow2_pos(field_width(fields[i]));
    if k == i + 1 {
        lemma_encode_bound(fields, vals, i);
        let a = encode_prefix(fields, vals, i) as int;
        let c = contribution(fields, vals, i) as int;
        lemma_fundamental_div_mod_converse(a + c * p, p, c, a);
        lemma_small_mod(c as nat, q as nat);
    } else {
        lemma_encode_extract(fields, vals, i, k - 1);
        let e = encode_prefix(fields, vals, k - 1) as int;
        let c = contribution(fields, vals, k - 1) as int;
        let off_i = offset_of(fields, i);
        let off_k = offset_of(fields, k - 1);
        lemma_sum_prefix_step(fields, i);
        lemma_offset_mono(fields, i + 1, k - 1);
        let rest = (off_k - off_i - field_width(fields[i])) as nat;
        let r = pow2(rest) as int;
        lemma_pow2_adds(off_i, field_width(fields[i]));
        lemma_pow2_adds(off_i + field_width(fields[i]), rest);
        assert(pow2(off_k) == p * q * r);
        lemma_fundamental_div_mod(e, p);
        let quo = e / p;
        let rem = e % p;
        assert(e + c * (p * q * r) == (quo + q * (c * r)) * p + rem) by (nonlinear_arith)
            requires
                e == p * quo + rem,
        ;
        lemma_fundamental_div_mod_converse(e + c * (p * q * r), p, quo + q * (c * r), rem);
        lemma_mod_multiples_vanish(c * r, quo, q);
    }
}

/// Decoding an encoding gives back each field's contribution, and the
/// encoding stays below the end of the last field.
pub proof fn lemma_decode_encoding(fields: Seq<FieldSpec>, vals: Seq<u128>, i: int)
    requires
        values_fit(fields, vals),
        0 <= i < fields.len(),
    ensures
        field_bits(encode_value(fields, vals), offset_of(fields, i), field_width(fields[i]))
            == contribution(fields, vals, i),
{
    lemma_encode_extract(fields, vals, i, fields.len() as int);
}

/// The encoding of a record is below `2^total` for any total width that holds
/// all the fields.
pub proof fn lemma_encode_below(fields: Seq<FieldSpec>, vals: Seq<u128>, total: nat)
    requires
        values_fit(fields, vals),
        sum_widths(fields) <= total,
    ensures
        encode_value(fields, vals) < pow2(total),
{
    lemma_encode_bound(fields, vals, fields.len() as int);
    assert(fields.subrange(0, fields.len() as int) =~= fields);
    lemma_pow2_le(sum_widths(fields), total);
}

/// What decodes successfully is a record of the fields.
pub proof fn lemma_decoded_valid(fields: Seq<FieldSpec>, total: nat, x: nat)
    requires
        forall|i: int| 0 <= i < fields.len() ==> domain_ok(#[trigger] fields[i].domain),
        sum_widths(fields) <= total <= 128,
        decode_spec(fields, total, x) is Ok,
    ensures
        valid_values(fields, decoded_values(fields, x)),
        forall|i: int|
            0 <= i < fields.len() ==> #[trigger] decoded_values(fields, x)[i] as nat
                == decoded_field(fields, x, i),
{
    let vals = decoded_values(fields, x);
    assert forall|i: int| 0 <= i < fields.len() implies {
        &&& in_domain(fields[i].domain, #[trigger] vals[i] as nat)
        &&& !writable(fields[i]) ==> vals[i] == 0
        &&& vals[i] as nat == decoded_field(fields, x, i)
    } by {
        let v = decoded_field(fields, x, i);
        let w = field_width(fields[i]);
        lemma_pow2_pos(w);
        lemma_pow2_pos(offset_of(fields, i));
        assert(v < pow2(w)) by {
            if writable(fields[i]) {
                lemma_mod_bound((x / pow2(offset_of(fields, i))) as int, pow2(w) as int);
            }
        }
        lemma_offset_mono(fields, i, i + 1);
        lemma_sum_prefix_step(fields, i);
        lemma_pow2_le(w, 128);
        lemma_pow2_128();
        assert(pattern_ok(fields[i].domain, v));
        match fields[i].domain {
            Domain::Boolean => {
                lemma2_to64();
            },
            _ => {},
        }
    }
}

/// The `n` little-endian bytes of a number below `2^(8n)` give it back.
pub proof fn lemma_le_bytes_value(x: nat, n: nat)
    requires
        x < pow2(8 * n),
    ensures
        le_value(le_bytes(x, n)) == x,
    decreases n,
{
    lemma2_to64();
    if n == 0 {
        assert(x == 0);
    } else {
        let s = le_bytes(x, n);
        let t = le_bytes(x / 256, (n - 1) as nat);
        assert forall|k: int| 0 <= k < n - 1 implies #[trigger] s.drop_first()[k] == t[k] by {
            lemma_pow2_adds(8, 8 * k as nat);
            assert(8 * (k + 1) == 8 + 8 * k);
            lemma_pow2_pos(8 * k as nat);
            lemma_div_denominator(x as int, 256, pow2(8 * k as nat) as int);
        }
        assert(s.drop_first() =~= t);
        lemma_pow2_adds(8, 8 * (n - 1) as nat);
        assert(8 * n == 8 + 8 * (n - 1));
        lemma_pow2_pos(8 * (n - 1) as nat);
        lemma_div_denominator(x as int, 1, 256);
        assert(x / 256 < pow2(8 * (n - 1) as nat)) by {
            lemma_div_is_ordered(x as int, pow2(8 * n) as int - 1, 256);
            lemma_mul_is_commutative(256, pow2(8 * (n - 1) as nat) as int);
            lemma_div_multiples_vanish_fancy(pow2(8 * (n - 1) as nat) as int - 1, 255, 256);
        }
        lemma_le_bytes_value(x / 256, (n - 1) as nat);
        lemma_fundamental_div_mod(x as int, 256);
        assert(s[0] == (x % 256) as u8);
    }
}

/// A little-endian byte sequence stands for a number below `2^(8 * len)`.
pub proof fn lemma_le_value_bound(s: Seq<u8>)
    ensures
        le_value(s) < pow2(8 * s.len()),
    decreases s.len(),
{
    lemma2_to64();
    if s.len() > 0 {
        lemma_le_value_bound(s.drop_first());
        let m = pow2(8 * (s.len() - 1) as nat) as int;
        lemma_pow2_adds(8, 8 * (s.len() - 1) as nat);
        assert(8 * s.len() == 8 + 8 * (s.len() - 1));
        assert(s[0] + 256 * le_value(s.drop_first()) < 256 * m) by (nonlinear_arith)
            requires
                s[0] < 256,
                le_value(s.drop_first()) < m,
        ;
    }
}

} // verus!
