//! Laws that relate encoding, decoding, the accessors and the schema checks.
use crate::arith::lemma_pow2_le;
use crate::model::{
    decoded_field, decoded_values, encode_value, in_domain, le_bytes, le_value,
    lemma_decode_encoding, lemma_encode_below, lemma_le_bytes_value, lemma_valid_values_fit,
    pattern_ok, readable, valid_values, writable, ValueError,
};
use crate::packed::{
    lemma_bits_above, lemma_bits_below, lemma_byte_update_replaces, lemma_replace_parts,
    lemma_replace_reads, packed_field, replace_field,
};
use crate::schema::{domain_ok, offset_of, schema_error, sum_widths, Config, FieldSpec, Layout};
use vstd::arithmetic::div_mod::{lemma_div_of0, lemma_small_mod};
use vstd::arithmetic::power2::*;
use vstd::prelude::*;

verus! {

/// Each field of an encoding decodes to the record's value, given that the
/// fields without a getter (which encoding leaves out) hold zero.
proof fn lemma_fields_of_encoding(layout: Layout, vals: Seq<u128>, i: int)
    requires
        layout.wf(),
        valid_values(layout.fields@, vals),
        forall|j: int| 0 <= j < vals.len() && !readable(layout.fields@[j]) ==> vals[j] == 0,
        0 <= i < vals.len(),
    ensures
        decoded_field(layout.fields@, encode_value(layout.fields@, vals), i) == vals[i] as nat,
        pattern_ok(layout.fields@[i].domain, vals[i] as nat),
{
    lemma_valid_values_fit(layout.fields@, vals);
    lemma_decode_encoding(layout.fields@, vals, i);
    assert(in_domain(layout.fields@[i].domain, vals[i] as nat));
}

/// Decoding the integer of a record gives the record back (the value of every
/// declared field, from which its slots follow), for every record whose fields
/// without a getter hold zero.
pub proof fn lemma_integer_round_trip(layout: Layout, slots: Seq<u128>)
    requires
        layout.wf(),
        layout.valid_record(slots),
        forall|i: int|
            0 <= i < layout.fields@.len() && !readable(layout.fields@[i]) ==> layout.full(
                slots,
            )[i] == 0,
    ensures
        layout.decoded(encode_value(layout.fields@, layout.full(slots))) == Ok::<
            Seq<u128>,
            ValueError,
        >(layout.full(slots)),
{
    let vals = layout.full(slots);
    let fields = layout.fields@;
    let x = encode_value(fields, vals);
    lemma_valid_values_fit(fields, vals);
    lemma_encode_below(fields, vals, layout.total_bits as nat);
    assert forall|i: int| 0 <= i < fields.len() implies pattern_ok(
        fields[i].domain,
        #[trigger] decoded_field(fields, x, i),
    ) && decoded_field(fields, x, i) == vals[i] as nat by {
        lemma_fields_of_encoding(layout, vals, i);
    }
    assert(decoded_values(fields, x) =~= vals);
}

/// Decoding the little-endian bytes of a record gives the record back, for
/// every record whose fields without a getter hold zero.
pub proof fn lemma_bytes_round_trip(layout: Layout, slots: Seq<u128>)
    requires
        layout.wf(),
        layout.valid_record(slots),
        forall|i: int|
            0 <= i < layout.fields@.len() && !readable(layout.fields@[i]) ==> layout.full(
                slots,
            )[i] == 0,
    ensures
        layout.decoded(
            le_value(le_bytes(encode_value(layout.fields@, layout.full(slots)), layout.byte_len())),
        )
            == Ok::<Seq<u128>, ValueError>(layout.full(slots)),
{
    let vals = layout.full(slots);
    let x = encode_value(layout.fields@, vals);
    lemma_valid_values_fit(layout.fields@, vals);
    lemma_encode_below(layout.fields@, vals, layout.total_bits as nat);
    lemma_pow2_le(layout.total_bits as nat, 8 * layout.byte_len());
    lemma_le_bytes_value(x, layout.byte_len());
    lemma_integer_round_trip(layout, slots);
}

/// Setting one field to a legal value leaves what every other field decodes
/// to from the record's integer unchanged.
pub proof fn lemma_field_independence(layout: Layout, slots: Seq<u128>, i: int, v: u128, j: int)
    requires
        layout.wf(),
        layout.valid_record(slots),
        0 <= i < layout.fields@.len(),
        0 <= j < layout.fields@.len(),
        i != j,
        writable(layout.fields@[i]),
        in_domain(layout.fields@[i].domain, v as nat),
    ensures
        decoded_field(
            layout.fields@,
            encode_value(layout.fields@, layout.full(slots).update(i, v)),
            j,
        ) == decoded_field(layout.fields@, encode_value(layout.fields@, layout.full(slots)), j),
{
    let vals = layout.full(slots);
    let fields = layout.fields@;
    let changed = vals.update(i, v);
    assert(valid_values(fields, changed)) by {
        assert forall|k: int| 0 <= k < fields.len() implies {
            &&& in_domain(fields[k].domain, #[trigger] changed[k] as nat)
            &&& !writable(fields[k]) ==> changed[k] == 0
        } by {
            if k != i {
                assert(changed[k] == vals[k]);
            }
        }
    }
    lemma_valid_values_fit(fields, vals);
    lemma_valid_values_fit(fields, changed);
    lemma_decode_encoding(fields, vals, j);
    lemma_decode_encoding(fields, changed, j);
}

/// The all-zero pattern decodes, to a record with every field zero.
pub proof fn lemma_zero_decodes(layout: Layout)
    requires
        layout.wf(),
    ensures
        layout.decoded(0) == Ok::<Seq<u128>, ValueError>(
            Seq::new(layout.fields@.len(), |i: int| 0u128),
        ),
{
    let fields = layout.fields@;
    lemma_pow2_pos(layout.total_bits as nat);
    assert forall|i: int| 0 <= i < fields.len() implies #[trigger] decoded_field(fields, 0, i)
        == 0 && pattern_ok(fields[i].domain, 0) by {
        lemma_pow2_pos(offset_of(fields, i));
        lemma_pow2_pos(crate::schema::field_width(fields[i]));
        assert(domain_ok(fields[i].domain));
        lemma_div_of0(pow2(offset_of(fields, i)) as int);
        lemma_small_mod(0, pow2(crate::schema::field_width(fields[i])));
    }
    assert(decoded_values(fields, 0) =~= Seq::new(fields.len(), |i: int| 0u128));
}

/// Without an explicit width, a filled schema whose widths do not add up to
/// whole bytes is rejected, and so is an unfilled one whose widths do.
pub proof fn lemma_fill_check_symmetry(fields: Seq<FieldSpec>, config: Config)
    requires
        config.bits is None,
    ensures
        config.filled && sum_widths(fields) % 8 != 0 ==> schema_error(fields, config) is Some,
        !config.filled && sum_widths(fields) % 8 == 0 ==> schema_error(fields, config) is Some,
{
}

/// Writing byte `k` of a record's bytes leaves what every field that lies
/// wholly below or wholly above that byte decodes to unchanged, for every
/// record whose fields without a getter hold zero.
pub proof fn lemma_byte_update_isolation(layout: Layout, slots: Seq<u128>, k: nat, b: u8, j: int)
    requires
        layout.wf(),
        layout.valid_record(slots),
        forall|i: int|
            0 <= i < layout.fields@.len() && !readable(layout.fields@[i]) ==> layout.full(
                slots,
            )[i] == 0,
        k < layout.byte_len(),
        0 <= j < layout.fields@.len(),
        offset_of(layout.fields@, j) + crate::schema::field_width(layout.fields@[j]) <= 8 * k
            || offset_of(layout.fields@, j) >= 8 * k + 8,
    ensures
        decoded_field(layout.fields@, le_value(layout.bytes_with(slots, k as int, b)), j)
            == layout.full(slots)[j] as nat,
{
    let vals = layout.full(slots);
    let fields = layout.fields@;
    let n = layout.byte_len();
    let x = encode_value(fields, vals);
    let o = offset_of(fields, j);
    let w = crate::schema::field_width(fields[j]);
    lemma_valid_values_fit(fields, vals);
    lemma_encode_below(fields, vals, layout.total_bits as nat);
    lemma_pow2_le(layout.total_bits as nat, 8 * n);
    lemma_byte_update_replaces(x, n, k, b);
    let y = replace_field(x, 8 * k, 8, b as nat);
    lemma2_to64();
    lemma_replace_parts(x, 8 * k, 8, b as nat, 8 * n);
    lemma_fields_of_encoding(layout, vals, j);
    if writable(fields[j]) {
        if o + w <= 8 * k {
            lemma_bits_below(x, 8 * k, o, w);
            lemma_bits_below(y, 8 * k, o, w);
        } else {
            lemma_bits_above(x, 8 * k + 8, o, w);
            lemma_bits_above(y, 8 * k + 8, o, w);
        }
    }
}

/// Setting field `i` of a packed record to a legal value makes that field
/// read the value and leaves what every other field reads unchanged.
pub proof fn lemma_packed_field_independence(
    layout: Layout,
    s: Seq<u8>,
    i: int,
    v: u128,
    j: int,
)
    requires
        layout.wf(),
        layout.packed_valid(s),
        0 <= i < layout.fields@.len(),
        0 <= j < layout.fields@.len(),
        in_domain(layout.fields@[i].domain, v as nat),
    ensures
        ({
            let t = le_bytes(
                replace_field(
                    le_value(s),
                    offset_of(layout.fields@, i),
                    crate::schema::field_width(layout.fields@[i]),
                    v as nat,
                ),
                layout.byte_len(),
            );
            &&& packed_field(layout.fields@, le_value(t), i) == v
            &&& j != i ==> packed_field(layout.fields@, le_value(t), j) == packed_field(
                layout.fields@,
                le_value(s),
                j,
            )
        }),
{
    let fields = layout.fields@;
    let total = layout.total_bits as nat;
    let y = replace_field(
        le_value(s),
        offset_of(fields, i),
        crate::schema::field_width(fields[i]),
        v as nat,
    );
    assert(fields.subrange(0, fields.len() as int) =~= fields);
    lemma_replace_reads(fields, total, le_value(s), i, v as nat, i);
    lemma_replace_reads(fields, total, le_value(s), i, v as nat, j);
    lemma_pow2_le(total, 8 * layout.byte_len());
    lemma_le_bytes_value(y, layout.byte_len());
}

} // verus!
