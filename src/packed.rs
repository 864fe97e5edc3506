//! The packed representation: a record held only as its little-endian bytes,
//! each field a range of bits within them.
use crate::arith::{lemma_pow2_128, lemma_pow2_le, pow2_u128};
use crate::codec::{extract, join_le_bytes, split_le_bytes};
use crate::model::{
    field_bits, in_domain, le_bytes, le_value, lemma_in_domain_fits, lemma_le_bytes_value,
    lemma_offset_mono, readable, writable, ValueError,
};
use crate::schema::{
    domain_ok, field_width, lemma_offset_mono_step, offset_of, Domain, FieldSpec,
    Layout,
};
use vstd::arithmetic::div_mod::*;
use vstd::arithmetic::mul::*;
use vstd::arithmetic::power2::*;
use vstd::prelude::*;

verus! {

/// A record held as the bytes of the byte mapping, with no slot per field.
pub struct PackedRecord {
    bytes: Vec<u8>,
}

impl View for PackedRecord {
    type V = Seq<u8>;

    closed spec fn view(&self) -> Seq<u8> {
        self.bytes@
    }
}

impl PackedRecord {
    /// The bytes, least significant first.
    pub fn as_bytes(&self) -> (r: &[u8])
        ensures
            r@ == self@,
    {
        self.bytes.as_slice()
    }
}

/// `x` with bits `off .. off + w` replaced by `v`.
pub open spec fn replace_field(x: nat, off: nat, w: nat, v: nat) -> nat {
    (x / pow2(off + w)) * pow2(off + w) + v * pow2(off) + x % pow2(off)
}

/// The bits of field `i` within `x`.
pub open spec fn packed_field(fields: Seq<FieldSpec>, x: nat, i: int) -> nat {
    field_bits(x, offset_of(fields, i), field_width(fields[i]))
}

/// `x` is below `2^total`, each field's bits hold a legal value, and those of a
/// field without a setter are zero.
pub open spec fn packed_ok(fields: Seq<FieldSpec>, total: nat, x: nat) -> bool {
    &&& x < pow2(total)
    &&& forall|i: int|
        0 <= i < fields.len() ==> {
            &&& in_domain(fields[i].domain, #[trigger] packed_field(fields, x, i))
            &&& !writable(fields[i]) ==> packed_field(fields, x, i) == 0
        }
}

/// The bits of a range that ends at or below `o` depend only on `x % 2^o`.
pub proof fn lemma_bits_below(x: nat, o: nat, o2: nat, w2: nat)
    requires
        o2 + w2 <= o,
    ensures
        field_bits(x, o2, w2) == field_bits(x % pow2(o), o2, w2),
{
    let p = pow2(o) as int;
    let p_lo = pow2(o2) as int;
    let q_lo = pow2(w2) as int;
    let d = pow2((o - o2 - w2) as nat) as int;
    lemma_pow2_pos(o);
    lemma_pow2_pos(o2);
    lemma_pow2_pos(w2);
    lemma_pow2_pos((o - o2 - w2) as nat);
    lemma_pow2_adds(o2, w2);
    lemma_pow2_adds(o2 + w2, (o - o2 - w2) as nat);
    assert(p == p_lo * q_lo * d);
    let a = x as int / p;
    let r = x as int % p;
    lemma_fundamental_div_mod(x as int, p);
    lemma_fundamental_div_mod(r, p_lo);
    lemma_mod_pos_bound(x as int, p);
    lemma_mod_pos_bound(r, p_lo);
    lemma_div_pos_is_pos(r, p_lo);
    assert(x as int == (q_lo * (a * d) + r / p_lo) * p_lo + r % p_lo) by (nonlinear_arith)
        requires
            x as int == p * a + r,
            r == p_lo * (r / p_lo) + r % p_lo,
            p == p_lo * q_lo * d,
    ;
    lemma_fundamental_div_mod_converse(x as int, p_lo, q_lo * (a * d) + r / p_lo, r % p_lo);
    lemma_mod_multiples_vanish(a * d, r / p_lo, q_lo);
}

/// The bits of a range that starts at or above `o` depend only on `x / 2^o`.
pub proof fn lemma_bits_above(x: nat, o: nat, o2: nat, w2: nat)
    requires
        o <= o2,
    ensures
        field_bits(x, o2, w2) == ((x / pow2(o)) / pow2((o2 - o) as nat)) % pow2(w2),
{
    lemma_pow2_pos(o);
    lemma_pow2_pos((o2 - o) as nat);
    lemma_pow2_adds(o, (o2 - o) as nat);
    lemma_div_denominator(x as int, pow2(o) as int, pow2((o2 - o) as nat) as int);
}

/// Replacing a field keeps the bits below and above it, puts `v` in it, and
/// stays below any power of two that bounds `x` and the field.
pub proof fn lemma_replace_parts(x: nat, o: nat, w: nat, v: nat, t: nat)
    requires
        v < pow2(w),
        x < pow2(t),
        o + w <= t,
    ensures
        replace_field(x, o, w, v) % pow2(o) == x % pow2(o),
        replace_field(x, o, w, v) / pow2(o + w) == x / pow2(o + w),
        field_bits(replace_field(x, o, w, v), o, w) == v,
        replace_field(x, o, w, v) < pow2(t),
{
    let p = pow2(o) as int;
    let q = pow2(w) as int;
    let pq = pow2(o + w) as int;
    let m = pow2((t - o - w) as nat) as int;
    lemma_pow2_pos(o);
    lemma_pow2_pos(w);
    lemma_pow2_pos(o + w);
    lemma_pow2_pos((t - o - w) as nat);
    lemma_pow2_adds(o, w);
    lemma_pow2_adds(o + w, (t - o - w) as nat);
    let h = x as int / pq;
    let r = x as int % p;
    let y = replace_field(x, o, w, v) as int;
    lemma_mod_pos_bound(x as int, p);
    lemma_div_pos_is_pos(x as int, pq);
    assert(y == (h * q + v) * p + r) by (nonlinear_arith)
        requires
            y == h * pq + v * p + r,
            pq == p * q,
    ;
    lemma_fundamental_div_mod_converse(y, p, h * q + v, r);
    lemma_mod_multiples_vanish(h, v as int, q);
    lemma_small_mod(v, q as nat);
    lemma_mul_is_commutative(q, h);
    assert(v * p + r < pq) by (nonlinear_arith)
        requires
            v < q,
            0 <= r < p,
            pq == p * q,
    ;
    assert(v * p + r >= 0) by (nonlinear_arith)
        requires
            v >= 0,
            r >= 0,
            p > 0,
    ;
    lemma_fundamental_div_mod_converse(y, pq, h, v * p + r);
    assert(h < m) by {
        lemma_div_is_ordered(x as int, pow2(t) as int - 1, pq);
        lemma_div_multiples_vanish_fancy(m - 1, pq - 1, pq);
        assert(pow2(t) as int - 1 == pq * (m - 1) + (pq - 1)) by (nonlinear_arith)
            requires
                pow2(t) as int == pq * m,
        ;
    }
    lemma_mul_inequality(h, m - 1, pq);
    assert((m - 1) * pq + pq == pq * m) by (nonlinear_arith);
}

/// After field `i` of `x` is replaced by a legal `v`, field `i` reads `v` and
/// every other field reads as before.
pub proof fn lemma_replace_reads(fields: Seq<FieldSpec>, total: nat, x: nat, i: int, v: nat, j: int)
    requires
        forall|k: int| 0 <= k < fields.len() ==> domain_ok(#[trigger] fields[k].domain),
        offset_of(fields, fields.len() as int) <= total,
        x < pow2(total),
        0 <= i < fields.len(),
        0 <= j < fields.len(),
        in_domain(fields[i].domain, v),
    ensures
        replace_field(x, offset_of(fields, i), field_width(fields[i]), v) < pow2(total),
        j == i ==> packed_field(
            fields,
            replace_field(x, offset_of(fields, i), field_width(fields[i]), v),
            j,
        ) == v,
        j != i ==> packed_field(
            fields,
            replace_field(x, offset_of(fields, i), field_width(fields[i]), v),
            j,
        ) == packed_field(fields, x, j),
{
    let o = offset_of(fields, i);
    let w = field_width(fields[i]);
    let y = replace_field(x, o, w, v);
    assert(domain_ok(fields[i].domain));
    lemma_in_domain_fits(fields[i].domain, v);
    lemma_offset_mono_step(fields, i);
    lemma_offset_mono(fields, i + 1, fields.len() as int);
    lemma_replace_parts(x, o, w, v, total);
    if j < i {
        lemma_offset_mono_step(fields, j);
        lemma_offset_mono(fields, j + 1, i);
        lemma_bits_below(x, o, offset_of(fields, j), field_width(fields[j]));
        lemma_bits_below(y, o, offset_of(fields, j), field_width(fields[j]));
    } else if j > i {
        lemma_offset_mono(fields, i + 1, j);
        lemma_bits_above(x, o + w, offset_of(fields, j), field_width(fields[j]));
        lemma_bits_above(y, o + w, offset_of(fields, j), field_width(fields[j]));
    }
}

/// Writing byte `k` of the little-endian bytes of `x` replaces bits
/// `8k .. 8k + 8` of the number they stand for.
pub proof fn lemma_byte_update_replaces(x: nat, n: nat, k: nat, b: u8)
    requires
        x < pow2(8 * n),
        k < n,
    ensures
        le_value(le_bytes(x, n).update(k as int, b)) == replace_field(x, 8 * k, 8, b as nat),
    decreases k,
{
    lemma2_to64();
    let s = le_bytes(x, n).update(k as int, b);
    let rest = le_bytes(x / 256, (n - 1) as nat);
    lemma_pow2_adds(8, 8 * (n - 1) as nat);
    assert(8 * n == 8 + 8 * (n - 1));
    lemma_pow2_pos(8 * (n - 1) as nat);
    assert(x / 256 < pow2(8 * (n - 1) as nat)) by {
        lemma_div_is_ordered(x as int, pow2(8 * n) as int - 1, 256);
        lemma_mul_is_commutative(256, pow2(8 * (n - 1) as nat) as int);
        lemma_div_multiples_vanish_fancy(pow2(8 * (n - 1) as nat) as int - 1, 255, 256);
    }
    assert forall|m: int| 0 <= m < n - 1 implies #[trigger] le_bytes(x, n)[m + 1] == rest[m] by {
        lemma_pow2_adds(8, 8 * m as nat);
        assert(8 * (m + 1) == 8 + 8 * m);
        lemma_pow2_pos(8 * m as nat);
        lemma_div_denominator(x as int, 256, pow2(8 * m as nat) as int);
    }
    lemma_fundamental_div_mod(x as int, 256);
    if k == 0 {
        assert(s.drop_first() =~= rest);
        lemma_le_bytes_value(x / 256, (n - 1) as nat);
        lemma_small_mod(x % 1, 1);
        assert(replace_field(x, 0, 8, b as nat) == (x / 256) * 256 + b as nat * 1 + x % 1);
    } else {
        assert(s.drop_first() =~= rest.update(k - 1, b));
        lemma_byte_update_replaces(x / 256, (n - 1) as nat, (k - 1) as nat, b);
        assert(s[0] == (x % 256) as u8) by {
            assert(x / pow2(0) == x);
        }
        let o = (8 * (k - 1)) as nat;
        let inner = replace_field(x / 256, o, 8, b as nat);
        lemma_pow2_pos(o);
        lemma_pow2_pos(o + 8);
        lemma_pow2_adds(8, o);
        lemma_pow2_adds(8, o + 8);
        assert(8 * k == 8 + o);
        lemma_div_denominator(x as int, 256, pow2(o + 8) as int);
        lemma_mod_breakdown(x as int, 256, pow2(o) as int);
        assert(x % 256 + 256 * inner == replace_field(x, 8 * k, 8, b as nat)) by (nonlinear_arith)
            requires
                inner == ((x / 256) / pow2(o + 8)) * pow2(o + 8) + b * pow2(o) + (x / 256) % pow2(o),
                (x / 256) / pow2(o + 8) == x / (256 * pow2(o + 8)),
                pow2(8 + (o + 8)) == 256 * pow2(o + 8),
                pow2(8 + o) == 256 * pow2(o),
                x % (256 * pow2(o)) == 256 * ((x / 256) % pow2(o)) + x % 256,
                replace_field(x, 8 * k, 8, b as nat) == (x / pow2(8 + o + 8)) * pow2(8 + o + 8) + b
                    * pow2(8 + o) + x % pow2(8 + o),
        ;
    }
}

/// `x` with bits `off .. off + w` replaced by `v`.
fn replace_bits(x: u128, off: u32, w: u32, v: u128) -> (r: u128)
    requires
        off + w <= 128,
        v < pow2(w as nat),
    ensures
        r as nat == replace_field(x as nat, off as nat, w as nat, v as nat),
{
    proof {
        lemma_pow2_128();
        lemma_replace_parts(x as nat, off as nat, w as nat, v as nat, 128);
        lemma_pow2_pos(off as nat);
    }
    if w == 0 {
        proof {
            lemma2_to64();
            lemma_fundamental_div_mod(x as int, pow2(off as nat) as int);
            lemma_mul_is_commutative((x as nat / pow2(off as nat)) as int, pow2(off as nat) as int);
        }
        return x;
    }
    let p = pow2_u128(off);
    let low = x % p;
    let high = if off + w < 128 {
        let q = pow2_u128(off + w);
        proof {
            lemma_pow2_pos((off + w) as nat);
            lemma_fundamental_div_mod(x as int, q as int);
            lemma_mul_is_commutative((x / q) as int, q as int);
        }
        (x / q) * q
    } else {
        proof {
            lemma_small_div_converse_at_top(x);
        }
        0
    };
    high + v * p + low
}

proof fn lemma_small_div_converse_at_top(x: u128)
    ensures
        x as nat / pow2(128) == 0,
{
    lemma_pow2_128();
    lemma_basic_div(x as int, pow2(128) as int);
}

impl Layout {
    /// `s` holds a packed record of this layout.
    pub open spec fn packed_valid(&self, s: Seq<u8>) -> bool {
        &&& s.len() == self.byte_len()
        &&& packed_ok(self.fields@, self.total_bits as nat, le_value(s))
    }

    /// The bit at which field `i` starts.
    fn offset(&self, i: usize) -> (r: u32)
        requires
            self.wf(),
            i <= self.fields@.len(),
        ensures
            r as nat == offset_of(self.fields@, i as int),
    {
        let mut off: u32 = 0;
        let mut k: usize = 0;
        proof {
            assert(self.fields@.subrange(0, 0) =~= Seq::<FieldSpec>::empty());
        }
        while k < i
            invariant
                self.wf(),
                k <= i <= self.fields@.len(),
                off as nat == offset_of(self.fields@, k as int),
            decreases i - k,
        {
            proof {
                lemma_offset_mono_step(self.fields@, k as int);
            }
            off = off + self.fields[k].domain.width();
            k = k + 1;
        }
        off
    }

    /// A packed record with every bit zero.
    pub fn new_packed(&self) -> (r: PackedRecord)
        requires
            self.wf(),
        ensures
            r@ == le_bytes(0, self.byte_len()),
            le_value(r@) == 0,
            self.packed_valid(r@),
    {
        let bytes = split_le_bytes(0, (self.total_bits + 7) / 8);
        proof {
            lemma_pow2_pos(8 * self.byte_len());
            lemma_le_bytes_value(0, self.byte_len());
            lemma_pow2_pos(self.total_bits as nat);
            assert forall|i: int| 0 <= i < self.fields@.len() implies {
                &&& in_domain(self.fields@[i].domain, #[trigger] packed_field(self.fields@, 0, i))
                &&& !writable(self.fields@[i]) ==> packed_field(self.fields@, 0, i) == 0
            } by {
                lemma_pow2_pos(offset_of(self.fields@, i));
                lemma_pow2_pos(field_width(self.fields@[i]));
                lemma_div_of0(pow2(offset_of(self.fields@, i)) as int);
                lemma_small_mod(0, pow2(field_width(self.fields@[i])));
                assert(domain_ok(self.fields@[i].domain));
                match self.fields@[i].domain {
                    Domain::UnsignedInt(w) => {},
                    _ => {},
                }
            }
        }
        PackedRecord { bytes }
    }

    /// The value of field `i` of a packed record.
    pub fn packed_get(&self, rec: &PackedRecord, i: usize) -> (r: u128)
        requires
            self.wf(),
            self.packed_valid(rec@),
            i < self.fields@.len(),
            readable(self.fields@[i as int]),
        ensures
            r as nat == packed_field(self.fields@, le_value(rec@), i as int),
    {
        let x = join_le_bytes(rec.as_bytes());
        let off = self.offset(i);
        proof {
            lemma_offset_mono_step(self.fields@, i as int);
        }
        extract(x, off, self.fields[i].domain.width())
    }

    /// Sets field `i` of a packed record to `v` where `v` is legal for it;
    /// otherwise reports `OutOfBounds` and leaves the record as it was.
    pub fn packed_set(&self, rec: &mut PackedRecord, i: usize, v: u128) -> (r: Result<
        (),
        ValueError,
    >)
        requires
            self.wf(),
            self.packed_valid(old(rec)@),
            i < self.fields@.len(),
            writable(self.fields@[i as int]),
        ensures
            self.packed_valid(final(rec)@),
            in_domain(self.fields@[i as int].domain, v as nat) ==> r is Ok && final(rec)@
                == le_bytes(
                replace_field(
                    le_value(old(rec)@),
                    offset_of(self.fields@, i as int),
                    field_width(self.fields@[i as int]),
                    v as nat,
                ),
                self.byte_len(),
            ),
            !in_domain(self.fields@[i as int].domain, v as nat) ==> r == Err::<(), ValueError>(
                ValueError::OutOfBounds,
            ) && final(rec)@ == old(rec)@,
    {
        let d = self.fields[i].domain;
        if !d.admits(v) {
            return Err(ValueError::OutOfBounds);
        }
        let ghost fields = self.fields@;
        let x = join_le_bytes(rec.as_bytes());
        let off = self.offset(i);
        let w = d.width();
        proof {
            lemma_offset_mono_step(fields, i as int);
            lemma_offset_mono(fields, i + 1, fields.len() as int);
            lemma_in_domain_fits(d, v as nat);
        }
        let y = replace_bits(x, off, w, v);
        let bytes = split_le_bytes(y, (self.total_bits + 7) / 8);
        proof {
            let total = self.total_bits as nat;
            lemma_offset_mono(fields, fields.len() as int, fields.len() as int);
            assert(fields.subrange(0, fields.len() as int) =~= fields);
            lemma_replace_reads(fields, total, x as nat, i as int, v as nat, i as int);
            lemma_pow2_le(total, 8 * self.byte_len());
            lemma_le_bytes_value(y as nat, self.byte_len());
            assert forall|j: int| 0 <= j < fields.len() implies {
                &&& in_domain(fields[j].domain, #[trigger] packed_field(fields, y as nat, j))
                &&& !writable(fields[j]) ==> packed_field(fields, y as nat, j) == 0
            } by {
                lemma_replace_reads(fields, total, x as nat, i as int, v as nat, j);
            }
        }
        rec.bytes = bytes;
        Ok(())
    }
}

} // verus!
