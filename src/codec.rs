//! Records of a layout: zero-initialised construction, field accessors, and
//! the integer and little-endian byte mappings.
use crate::arith::{lemma_pow2_128, lemma_pow2_le, pow2_u128};
use crate::model::{
    byte_at, contribution, decode_spec, decoded_field, decoded_values, encode_prefix, encode_value,
    field_bits, full_values, in_domain, le_bytes, le_value, lemma_decoded_valid,
    lemma_encode_below, lemma_encode_bound, lemma_le_value_bound, lemma_slot_mono,
    lemma_valid_values_fit, pattern_ok, readable, slot_count, slot_of, valid_values, values_fit,
    writable, ValueError,
};
use crate::push_pop::{PopBuffer, PushBuffer};
use crate::schema::{
    domain_ok, field_width, lemma_offset_mono_step, offset_of, repr_bits, Domain, Layout,
};
use vstd::arithmetic::div_mod::*;
use vstd::arithmetic::power2::*;
use vstd::prelude::*;

verus! {

/// A record: one slot per field that is not pure padding, in declaration
/// order. Booleans are 0 or 1, enumerations hold their discriminant.
pub struct Record {
    values: Vec<u128>,
}

impl View for Record {
    type V = Seq<u128>;

    closed spec fn view(&self) -> Seq<u128> {
        self.values@
    }
}

impl Record {
    /// The slots, in declaration order.
    pub fn slots(&self) -> (r: &[u128])
        ensures
            r@ == self@,
    {
        self.values.as_slice()
    }
}

impl Domain {
    /// Whether `v` is a legal value of the domain.
    pub fn admits(&self, v: u128) -> (r: bool)
        requires
            domain_ok(*self),
        ensures
            r == in_domain(*self, v as nat),
    {
        match *self {
            Domain::UnsignedInt(w) => {
                if w >= 128 {
                    proof {
                        lemma_pow2_128();
                    }
                    true
                } else {
                    v < pow2_u128(w)
                }
            },
            Domain::Boolean => v < 2,
            Domain::Enum(n) => v < n as u128,
        }
    }
}

/// Bits `off .. off + w` of `x`.
pub(crate) fn extract(x: u128, off: u32, w: u32) -> (r: u128)
    requires
        off + w <= 128,
    ensures
        r as nat == field_bits(x as nat, off as nat, w as nat),
{
    proof {
        lemma_pow2_pos(off as nat);
        lemma_pow2_pos(w as nat);
    }
    if w == 0 {
        proof {
            lemma2_to64();
            assert(field_bits(x as nat, off as nat, 0) == 0);
        }
        0
    } else if w >= 128 {
        proof {
            lemma2_to64();
            lemma_pow2_128();
            lemma_small_mod(x as nat, pow2(128));
            assert(off == 0);
            assert(x as nat / pow2(0) == x as nat);
        }
        x
    } else {
        let p = pow2_u128(off);
        let q = pow2_u128(w);
        (x / p) % q
    }
}

/// The `n` little-endian bytes of `x`, taken eight bits at a time off its low end.
pub(crate) fn split_le_bytes(x: u128, n: u32) -> (r: Vec<u8>)
    requires
        n <= 16,
    ensures
        r@ == le_bytes(x as nat, n as nat),
{
    let mut buf = PopBuffer::from_bytes(x);
    let mut out: Vec<u8> = Vec::new();
    let mut k: u32 = 0;
    proof {
        lemma2_to64();
        assert(pow2(8 * 0) == 1);
        assert(x as nat / 1 == x as nat) by (nonlinear_arith);
        assert(out@ =~= le_bytes(x as nat, 0));
    }
    while k < n
        invariant
            n <= 16,
            k <= n,
            buf@ as nat == x as nat / pow2(8 * k as nat),
            out@ == le_bytes(x as nat, k as nat),
            pow2(8) == 256,
        decreases n - k,
    {
        let b = buf.pop_bits(8);
        proof {
            lemma_pow2_pos(8 * k as nat);
            lemma_div_denominator(x as int, pow2(8 * k as nat) as int, 256);
            lemma_pow2_adds(8 * k as nat, 8);
            assert(8 * k + 8 == 8 * (k + 1));
            assert(b == byte_at(x as nat, k as nat));
        }
        out.push(b);
        proof {
            assert(out@ =~= le_bytes(x as nat, (k + 1) as nat));
        }
        k = k + 1;
    }
    out
}

/// The number whose little-endian bytes are `bytes`, pushed in from the most
/// significant byte down.
pub(crate) fn join_le_bytes(bytes: &[u8]) -> (r: u128)
    requires
        bytes@.len() <= 16,
    ensures
        r as nat == le_value(bytes@),
{
    let n = bytes.len();
    let mut buf: PushBuffer<u128> = PushBuffer::default();
    let mut k: usize = n;
    proof {
        lemma2_to64();
        lemma_pow2_128();
        assert(bytes@.subrange(n as int, n as int) =~= Seq::<u8>::empty());
    }
    while k > 0
        invariant
            n == bytes@.len(),
            n <= 16,
            k <= n,
            buf@ as nat == le_value(bytes@.subrange(k as int, n as int)),
            pow2(8) == 256,
            pow2(128) == u128::MAX as nat + 1,
        decreases k,
    {
        let ghost tail = bytes@.subrange(k as int, n as int);
        proof {
            lemma_le_value_bound(tail);
            lemma_pow2_adds(8 * tail.len(), 8);
            lemma_pow2_le(8 * tail.len() + 8, 128);
            assert(buf@ as nat * 256 < pow2(128)) by (nonlinear_arith)
                requires
                    buf@ as nat == le_value(tail),
                    le_value(tail) < pow2(8 * tail.len()),
                    pow2(8 * tail.len() + 8) == pow2(8 * tail.len()) * 256,
                    pow2(8 * tail.len() + 8) <= pow2(128),
            ;
            lemma_small_mod(buf@ as nat * 256, pow2(128));
            lemma_small_mod(bytes@[k - 1] as nat, 256);
            assert(bytes@.subrange(k - 1, n as int).drop_first() =~= tail);
        }
        buf.push_bits(8, bytes[k - 1]);
        k = k - 1;
    }
    proof {
        assert(bytes@.subrange(0, n as int) =~= bytes@);
    }
    buf.into_bytes()
}

impl Layout {
    /// The value of every declared field of a record with these slots.
    pub open spec fn full(&self, slots: Seq<u128>) -> Seq<u128> {
        full_values(self.fields@, slots)
    }

    /// `slots` hold a record of this layout: one slot per field that is not
    /// padding, in declaration order, each with a legal value, zero where the
    /// field has no setter.
    pub open spec fn valid_record(&self, slots: Seq<u128>) -> bool {
        &&& slots.len() == slot_count(self.fields@)
        &&& valid_values(self.fields@, self.full(slots))
    }

    /// The result of decoding `x`, as the value of every declared field.
    pub open spec fn decoded(&self, x: nat) -> Result<Seq<u128>, ValueError> {
        decode_spec(self.fields@, self.total_bits as nat, x)
    }

    /// The slot of field `i`.
    fn slot(&self, i: usize) -> (r: usize)
        requires
            i <= self.fields@.len(),
        ensures
            r as nat == slot_of(self.fields@, i as int),
    {
        let mut s: usize = 0;
        let mut k: usize = 0;
        while k < i
            invariant
                k <= i <= self.fields@.len(),
                s as nat == slot_of(self.fields@, k as int),
                s <= k,
            decreases i - k,
        {
            if !self.fields[k].suppress_both {
                s = s + 1;
            }
            k = k + 1;
        }
        s
    }

    /// A record with every field zero.
    pub fn new_record(&self) -> (r: Record)
        requires
            self.wf(),
        ensures
            r@ == Seq::new(slot_count(self.fields@), |k: int| 0u128),
            self.full(r@) == Seq::new(self.fields@.len(), |i: int| 0u128),
            self.valid_record(r@),
    {
        let ghost fields = self.fields@;
        let mut values: Vec<u128> = Vec::new();
        let n = self.fields.len();
        let mut i: usize = 0;
        while i < n
            invariant
                self.wf(),
                fields == self.fields@,
                n == fields.len(),
                i <= n,
                values@ == Seq::new(slot_of(fields, i as int), |k: int| 0u128),
            decreases n - i,
        {
            if !self.fields[i].suppress_both {
                values.push(0);
            }
            proof {
                assert(values@ =~= Seq::new(slot_of(fields, i + 1), |k: int| 0u128));
            }
            i = i + 1;
        }
        proof {
            assert forall|j: int| 0 <= j < n implies #[trigger] self.full(values@)[j] == 0u128 by {
                if !fields[j].suppress_both {
                    lemma_slot_mono(fields, j, n as int);
                }
            }
            assert(self.full(values@) =~= Seq::new(n as nat, |i: int| 0u128));
            assert forall|j: int| 0 <= j < n implies in_domain(
                fields[j].domain,
                #[trigger] self.full(values@)[j] as nat,
            ) by {
                assert(domain_ok(fields[j].domain));
                match fields[j].domain {
                    Domain::UnsignedInt(w) => {
                        lemma_pow2_pos(w as nat);
                    },
                    _ => {},
                }
            }
        }
        Record { values }
    }

    /// The value of field `i`.
    pub fn get(&self, rec: &Record, i: usize) -> (r: u128)
        requires
            self.wf(),
            self.valid_record(rec@),
            i < self.fields@.len(),
            readable(self.fields@[i as int]),
        ensures
            r == self.full(rec@)[i as int],
    {
        proof {
            lemma_slot_mono(self.fields@, i as int, self.fields@.len() as int);
        }
        rec.values[self.slot(i)]
    }

    /// The value of boolean field `i`: `true` for 1, `false` for 0.
    pub fn get_bool(&self, rec: &Record, i: usize) -> (r: bool)
        requires
            self.wf(),
            self.valid_record(rec@),
            i < self.fields@.len(),
            readable(self.fields@[i as int]),
            self.fields@[i as int].domain == Domain::Boolean,
        ensures
            r == (self.full(rec@)[i as int] == 1),
            !r ==> self.full(rec@)[i as int] == 0,
    {
        proof {
            assert(in_domain(self.fields@[i as int].domain, self.full(rec@)[i as int] as nat));
        }
        self.get(rec, i) == 1
    }

    /// Sets boolean field `i`: 1 for `true`, 0 for `false`.
    pub fn set_bool(&self, rec: &mut Record, i: usize, b: bool)
        requires
            self.wf(),
            self.valid_record(old(rec)@),
            i < self.fields@.len(),
            writable(self.fields@[i as int]),
            self.fields@[i as int].domain == Domain::Boolean,
        ensures
            self.valid_record(final(rec)@),
            final(rec)@ == old(rec)@.update(
                slot_of(self.fields@, i as int) as int,
                if b {
                    1u128
                } else {
                    0u128
                },
            ),
            self.full(final(rec)@) == self.full(old(rec)@).update(
                i as int,
                if b {
                    1u128
                } else {
                    0u128
                },
            ),
    {
        let v: u128 = if b {
            1
        } else {
            0
        };
        let _ = self.set(rec, i, v);
    }

    /// Sets field `i` to `v` where `v` is legal for it; otherwise reports
    /// `OutOfBounds` and leaves the record as it was.
    pub fn set(&self, rec: &mut Record, i: usize, v: u128) -> (r: Result<(), ValueError>)
        requires
            self.wf(),
            self.valid_record(old(rec)@),
            i < self.fields@.len(),
            writable(self.fields@[i as int]),
        ensures
            self.valid_record(final(rec)@),
            in_domain(self.fields@[i as int].domain, v as nat) ==> {
                &&& r is Ok
                &&& final(rec)@ == old(rec)@.update(slot_of(self.fields@, i as int) as int, v)
                &&& self.full(final(rec)@) == self.full(old(rec)@).update(i as int, v)
            },
            !in_domain(self.fields@[i as int].domain, v as nat) ==> r == Err::<(), ValueError>(
                ValueError::OutOfBounds,
            ) && final(rec)@ == old(rec)@,
    {
        let ghost fields = self.fields@;
        let d = self.fields[i].domain;
        if d.admits(v) {
            let k = self.slot(i);
            proof {
                lemma_slot_mono(fields, i as int, fields.len() as int);
            }
            rec.values.set(k, v);
            proof {
                assert forall|j: int| 0 <= j < fields.len() implies #[trigger] self.full(rec@)[j]
                    == self.full(old(rec)@).update(i as int, v)[j] by {
                    lemma_slot_mono(fields, j, fields.len() as int);
                    if j < i {
                        lemma_slot_mono(fields, j, i as int);
                    } else if j > i {
                        lemma_slot_mono(fields, i as int, j);
                    }
                }
                assert(self.full(rec@) =~= self.full(old(rec)@).update(i as int, v));
                assert forall|j: int| 0 <= j < fields.len() implies {
                    &&& in_domain(fields[j].domain, #[trigger] self.full(rec@)[j] as nat)
                    &&& !writable(fields[j]) ==> self.full(rec@)[j] == 0
                } by {
                    if j != i {
                        assert(self.full(rec@)[j] == self.full(old(rec)@)[j]);
                    }
                }
            }
            Ok(())
        } else {
            Err(ValueError::OutOfBounds)
        }
    }

    /// A copy of `rec` with field `i` set to `v`; `OutOfBounds` where `v` is
    /// not legal for it. `rec` itself is not changed.
    pub fn with(&self, rec: &Record, i: usize, v: u128) -> (r: Result<Record, ValueError>)
        requires
            self.wf(),
            self.valid_record(rec@),
            i < self.fields@.len(),
            writable(self.fields@[i as int]),
        ensures
            match r {
                Ok(out) => {
                    &&& in_domain(self.fields@[i as int].domain, v as nat)
                    &&& out@ == rec@.update(slot_of(self.fields@, i as int) as int, v)
                    &&& self.full(out@) == self.full(rec@).update(i as int, v)
                    &&& self.valid_record(out@)
                },
                Err(e) => !in_domain(self.fields@[i as int].domain, v as nat) && e
                    == ValueError::OutOfBounds,
            },
    {
        let mut copy = Record { values: Vec::new() };
        let mut j: usize = 0;
        while j < rec.values.len()
            invariant
                j <= rec@.len(),
                copy@ == rec@.subrange(0, j as int),
            decreases rec@.len() - j,
        {
            copy.values.push(rec.values[j]);
            proof {
                assert(copy@ =~= rec@.subrange(0, j + 1));
            }
            j = j + 1;
        }
        proof {
            assert(copy@ =~= rec@);
        }
        match self.set(&mut copy, i, v) {
            Ok(()) => Ok(copy),
            Err(e) => Err(e),
        }
    }

    /// The integer a record maps to: each readable field's value placed at
    /// its offset, field 0 at bit 0.
    pub fn encode_integer(&self, rec: &Record) -> (r: u128)
        requires
            self.wf(),
            self.valid_record(rec@),
        ensures
            r as nat == encode_value(self.fields@, self.full(rec@)),
            (r as nat) < pow2(self.total_bits as nat),
            (r as nat) < pow2(repr_bits(self.repr)),
    {
        let ghost fields = self.fields@;
        let ghost vals = self.full(rec@);
        proof {
            lemma_valid_values_fit(fields, vals);
            lemma_encode_below(fields, vals, self.total_bits as nat);
            lemma_pow2_le(self.total_bits as nat, repr_bits(self.repr));
        }
        let n = self.fields.len();
        let mut acc: u128 = 0;
        let mut off: u32 = 0;
        let mut s: usize = 0;
        let mut i: usize = 0;
        while i < n
            invariant
                self.wf(),
                self.valid_record(rec@),
                fields == self.fields@,
                vals == self.full(rec@),
                values_fit(fields, vals),
                n == fields.len(),
                i <= n,
                off as nat == offset_of(fields, i as int),
                s as nat == slot_of(fields, i as int),
                s <= i,
                acc as nat == encode_prefix(fields, vals, i as int),
            decreases n - i,
        {
            let f = self.fields[i];
            let w = f.domain.width();
            proof {
                lemma_slot_mono(fields, i as int, n as int);
            }
            let v = if f.suppress_both {
                0
            } else {
                rec.values[s]
            };
            proof {
                assert(v == vals[i as int]);
                lemma_offset_mono_step(fields, i as int);
                lemma_encode_bound(fields, vals, i + 1);
                lemma_pow2_le(offset_of(fields, i + 1), 128);
                lemma_pow2_128();
                assert(encode_prefix(fields, vals, i + 1) == encode_prefix(fields, vals, i as int)
                    + contribution(fields, vals, i as int) * pow2(offset_of(fields, i as int)));
            }
            if !f.suppress_getter && !f.suppress_both && v != 0 {
                proof {
                    assert(v < pow2(field_width(fields[i as int])));
                    if w == 0 {
                        lemma2_to64();
                    }
                    assert(f == fields[i as int]);
                    assert(contribution(fields, vals, i as int) == v);
                }
                let term = v * pow2_u128(off);
                assert(term as nat == contribution(fields, vals, i as int) * pow2(
                    offset_of(fields, i as int),
                ));
                acc = acc + term;
            } else {
                assert(f == fields[i as int]);
                assert(contribution(fields, vals, i as int) == 0);
                assert(contribution(fields, vals, i as int) * pow2(offset_of(fields, i as int))
                    == 0) by (nonlinear_arith)
                    requires
                        contribution(fields, vals, i as int) == 0,
                ;
            }
            assert(acc as nat == encode_prefix(fields, vals, i + 1));
            if !f.suppress_both {
                s = s + 1;
            }
            off = off + w;
            i = i + 1;
        }
        proof {
            assert(fields.subrange(0, n as int) =~= fields);
        }
        acc
    }

    /// The record that `x` maps to. `OutOfBounds` where `x` has bits at or
    /// above the total width; `InvalidBitPattern` where an enumeration field's
    /// bits name no variant.
    pub fn decode_integer(&self, x: u128) -> (r: Result<Record, ValueError>)
        requires
            self.wf(),
        ensures
            match r {
                Ok(rec) => self.decoded(x as nat) == Ok::<Seq<u128>, ValueError>(self.full(rec@))
                    && self.valid_record(rec@),
                Err(e) => self.decoded(x as nat) == Err::<Seq<u128>, ValueError>(e),
            },
    {
        let ghost fields = self.fields@;
        let ghost xn = x as nat;
        if self.total_bits < 128 {
            if x >= pow2_u128(self.total_bits) {
                return Err(ValueError::OutOfBounds);
            }
        } else {
            proof {
                lemma_pow2_128();
            }
        }
        let n = self.fields.len();
        let mut values: Vec<u128> = Vec::new();
        let mut off: u32 = 0;
        let mut i: usize = 0;
        while i < n
            invariant
                self.wf(),
                fields == self.fields@,
                xn == x as nat,
                xn < pow2(self.total_bits as nat),
                n == fields.len(),
                i <= n,
                off as nat == offset_of(fields, i as int),
                values@.len() == slot_of(fields, i as int),
                forall|j: int|
                    0 <= j < i && !fields[j].suppress_both ==> values@[slot_of(fields, j) as int]
                        as nat == #[trigger] decoded_field(fields, xn, j),
                forall|j: int|
                    0 <= j < i ==> pattern_ok(
                        fields[j].domain,
                        #[trigger] decoded_field(fields, xn, j),
                    ),
            decreases n - i,
        {
            let f = self.fields[i];
            let w = f.domain.width();
            proof {
                lemma_offset_mono_step(fields, i as int);
            }
            let v = if f.suppress_setter || f.suppress_both {
                0
            } else {
                extract(x, off, w)
            };
            match f.domain {
                Domain::Enum(count) => {
                    if v >= count as u128 {
                        proof {
                            assert(!pattern_ok(
                                fields[i as int].domain,
                                decoded_field(fields, xn, i as int),
                            ));
                        }
                        return Err(ValueError::InvalidBitPattern);
                    }
                },
                _ => {},
            }
            let ghost before = values@;
            if !f.suppress_both {
                values.push(v);
            }
            proof {
                assert forall|j: int|
                    0 <= j < i + 1 && !fields[j].suppress_both implies values@[slot_of(
                    fields,
                    j,
                ) as int] as nat == #[trigger] decoded_field(fields, xn, j) by {
                    if j < i {
                        lemma_slot_mono(fields, j, i as int);
                        assert(values@[slot_of(fields, j) as int] == before[slot_of(
                            fields,
                            j,
                        ) as int]);
                    }
                }
            }
            off = off + w;
            i = i + 1;
        }
        proof {
            assert(decode_spec(fields, self.total_bits as nat, xn) is Ok);
            lemma_decoded_valid(fields, self.total_bits as nat, xn);
            assert(self.full(values@) =~= decoded_values(fields, xn));
        }
        Ok(Record { values })
    }

    /// The record's integer as little-endian bytes: byte 0 holds bits 0..8.
    pub fn to_le_bytes(&self, rec: &Record) -> (r: Vec<u8>)
        requires
            self.wf(),
            self.valid_record(rec@),
        ensures
            r@ == le_bytes(encode_value(self.fields@, self.full(rec@)), self.byte_len()),
    {
        let x = self.encode_integer(rec);
        split_le_bytes(x, (self.total_bits + 7) / 8)
    }

    /// The record whose little-endian bytes are `bytes`; the errors are those
    /// of `decode_integer` on the number they stand for. A filled layout has
    /// no bits above its width, so it never reports `OutOfBounds`.
    pub fn from_le_bytes(&self, bytes: &[u8]) -> (r: Result<Record, ValueError>)
        requires
            self.wf(),
            bytes@.len() == self.byte_len(),
        ensures
            match r {
                Ok(rec) => self.decoded(le_value(bytes@)) == Ok::<Seq<u128>, ValueError>(
                    self.full(rec@),
                )
                    && self.valid_record(rec@),
                Err(e) => self.decoded(le_value(bytes@)) == Err::<Seq<u128>, ValueError>(e)
                    && (self.filled ==> e != ValueError::OutOfBounds),
            },
    {
        proof {
            lemma_le_value_bound(bytes@);
        }
        self.decode_integer(join_le_bytes(bytes))
    }

    /// The bytes of the record with slots `slots`, with byte `byte` (counted
    /// from the least significant end) replaced by `value`.
    pub open spec fn bytes_with(&self, slots: Seq<u128>, byte: int, value: u8) -> Seq<u8> {
        le_bytes(encode_value(self.fields@, self.full(slots)), self.byte_len()).update(byte, value)
    }

    /// Replaces byte `byte` of the record's integer, counting from the least
    /// significant byte, and decodes the result. On an error the record is left
    /// as it was.
    pub fn update_byte_le(&self, rec: &mut Record, byte: usize, value: u8) -> (r: Result<
        (),
        ValueError,
    >)
        requires
            self.wf(),
            self.valid_record(old(rec)@),
            byte < self.byte_len(),
        ensures
            self.valid_record(final(rec)@),
            match r {
                Ok(()) => self.decoded(le_value(self.bytes_with(old(rec)@, byte as int, value)))
                    == Ok::<Seq<u128>, ValueError>(self.full(final(rec)@)),
                Err(e) => self.decoded(le_value(self.bytes_with(old(rec)@, byte as int, value)))
                    == Err::<Seq<u128>, ValueError>(e) && final(rec)@ == old(rec)@,
            },
    {
        let mut bytes = self.to_le_bytes(rec);
        bytes.set(byte, value);
        match self.from_le_bytes(bytes.as_slice()) {
            Ok(updated) => {
                *rec = updated;
                Ok(())
            },
            Err(e) => Err(e),
        }
    }

    /// Replaces byte `byte` of the record's integer, counting from the most
    /// significant byte of the byte mapping, and decodes the result. On an
    /// error the record is left as it was.
    pub fn update_byte_be(&self, rec: &mut Record, byte: usize, value: u8) -> (r: Result<
        (),
        ValueError,
    >)
        requires
            self.wf(),
            self.valid_record(old(rec)@),
            byte < self.byte_len(),
        ensures
            self.valid_record(final(rec)@),
            match r {
                Ok(()) => self.decoded(
                    le_value(self.bytes_with(old(rec)@, self.byte_len() - 1 - byte, value)),
                ) == Ok::<Seq<u128>, ValueError>(self.full(final(rec)@)),
                Err(e) => self.decoded(
                    le_value(self.bytes_with(old(rec)@, self.byte_len() - 1 - byte, value)),
                ) == Err::<Seq<u128>, ValueError>(e) && final(rec)@ == old(rec)@,
            },
    {
        let n = ((self.total_bits + 7) / 8) as usize;
        self.update_byte_le(rec, n - 1 - byte, value)
    }
}

} // verus!
