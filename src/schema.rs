//! Field declarations, schema-level settings, and the checks that turn them
//! into a layout.
use vstd::arithmetic::power2::*;
use vstd::prelude::*;

verus! {

/// The values a field can hold, which fixes how many bits it takes.
#[derive(Clone, Copy, Debug, PartialEq, Eq, Structural)]
pub enum Domain {
    /// An unsigned integer of the given number of bits (1 to 128).
    UnsignedInt(u32),
    /// One bit, read as `false` (0) or `true` (1).
    Boolean,
    /// A closed enumeration with the given number of variants (at least one);
    /// the declared discriminants are `0 .. count`.
    Enum(u32),
}

/// One declared field, in declaration order.
#[derive(Clone, Copy, Debug, PartialEq, Eq, Structural)]
pub struct FieldSpec {
    /// The width the declaration states for the field, if it states one; it
    /// must agree with the width of the domain.
    pub bits: Option<u32>,
    pub domain: Domain,
    /// No getter: the field does not take part in encoding.
    pub suppress_getter: bool,
    /// No setter: the field does not take part in decoding and stays zero.
    pub suppress_setter: bool,
    /// Neither: the field is pure padding.
    pub suppress_both: bool,
}

/// The standard unsigned integer widths a record can be mapped to.
#[derive(Clone, Copy, Debug, PartialEq, Eq, Structural)]
pub enum ReprKind {
    U8,
    U16,
    U32,
    U64,
    U128,
}

/// Schema-level settings.
#[derive(Clone, Copy, Debug, PartialEq, Eq, Structural)]
pub struct Config {
    /// An explicit total width; the fields then take the low bits and the
    /// rest is padding at the high end.
    pub bits: Option<u32>,
    /// Whether the fields are meant to fill the total width exactly.
    pub filled: bool,
    /// An explicit backing integer.
    pub repr: Option<ReprKind>,
}

/// A declaration: its fields, in order.
pub struct BitfieldStruct {
    pub fields: Vec<FieldSpec>,
}

/// Why a schema is rejected.
#[derive(Clone, Copy, Debug, PartialEq, Eq, Structural)]
pub enum SchemaError {
    /// A field's domain has no width (an integer of 0 or more than 128 bits,
    /// an enumeration without variants).
    InvalidDomain,
    /// A field states a width that differs from the width of its domain.
    FieldBitsMismatch,
    /// The total width exceeds 128 bits.
    TooWide,
    /// The fields take more bits than the explicit total width.
    TooManyBits,
    /// `filled` was asked for, but the fields do not fill the width (or a
    /// whole number of bytes).
    NotFilled,
    /// `filled` was not asked for, but the fields fill the width (or a whole
    /// number of bytes) exactly.
    UnexpectedlyFilled,
    /// The explicit backing integer is narrower than the total width.
    ReprTooSmall,
}

/// A checked schema: what records are encoded and decoded against.
pub struct Layout {
    pub fields: Vec<FieldSpec>,
    /// The total width: the explicit one, or else the sum of the field widths.
    pub total_bits: u32,
    pub filled: bool,
    /// The backing integer of the integer mapping.
    pub repr: ReprKind,
}

/// The smallest `w` with `2^w >= n`.
pub open spec fn count_width(n: nat) -> nat
    decreases n,
{
    if n <= 1 {
        0
    } else {
        1 + count_width(((n + 1) / 2) as nat)
    }
}

pub open spec fn domain_width(d: Domain) -> nat {
    match d {
        Domain::UnsignedInt(w) => w as nat,
        Domain::Boolean => 1,
        Domain::Enum(n) => count_width(n as nat),
    }
}

pub open spec fn domain_ok(d: Domain) -> bool {
    match d {
        Domain::UnsignedInt(w) => 1 <= w <= 128,
        Domain::Boolean => true,
        Domain::Enum(n) => n >= 1,
    }
}

pub open spec fn field_width(f: FieldSpec) -> nat {
    domain_width(f.domain)
}

/// The field states no width, or the width of its domain.
pub open spec fn field_bits_ok(f: FieldSpec) -> bool {
    match f.bits {
        Some(b) => b as nat == field_width(f),
        None => true,
    }
}

/// The sum of the widths of the fields.
pub open spec fn sum_widths(fields: Seq<FieldSpec>) -> nat
    decreases fields.len(),
{
    if fields.len() == 0 {
        0
    } else {
        sum_widths(fields.drop_last()) + field_width(fields.last())
    }
}

/// The bit at which field `i` starts: the sum of the widths before it.
pub open spec fn offset_of(fields: Seq<FieldSpec>, i: int) -> nat {
    sum_widths(fields.subrange(0, i))
}

pub open spec fn target_bits(fields: Seq<FieldSpec>, config: Config) -> nat {
    match config.bits {
        Some(n) => n as nat,
        None => sum_widths(fields),
    }
}

pub open spec fn repr_bits(r: ReprKind) -> nat {
    match r {
        ReprKind::U8 => 8,
        ReprKind::U16 => 16,
        ReprKind::U32 => 32,
        ReprKind::U64 => 64,
        ReprKind::U128 => 128,
    }
}

/// The narrowest standard width that holds `n` bits (128 bits for anything wider).
pub open spec fn closest_repr(n: nat) -> ReprKind {
    if n <= 8 {
        ReprKind::U8
    } else if n <= 16 {
        ReprKind::U16
    } else if n <= 32 {
        ReprKind::U32
    } else if n <= 64 {
        ReprKind::U64
    } else {
        ReprKind::U128
    }
}

pub open spec fn chosen_repr(fields: Seq<FieldSpec>, config: Config) -> ReprKind {
    match config.repr {
        Some(r) => r,
        None => closest_repr(target_bits(fields, config)),
    }
}

/// The fill check on the natural sum `sum` of the field widths. A filled
/// schema with an explicit width fills it exactly, and that width is a whole
/// number of bytes.
pub open spec fn fill_ok(sum: nat, config: Config) -> bool {
    match config.bits {
        Some(n) => if config.filled {
            sum == n && n % 8 == 0
        } else {
            sum < n
        },
        None => if config.filled {
            sum % 8 == 0
        } else {
            sum % 8 != 0
        },
    }
}

/// The first rule a schema breaks, if any.
pub open spec fn schema_error(fields: Seq<FieldSpec>, config: Config) -> Option<SchemaError> {
    let sum = sum_widths(fields);
    let total = target_bits(fields, config);
    if exists|i: int| 0 <= i < fields.len() && !domain_ok(#[trigger] fields[i].domain) {
        Some(SchemaError::InvalidDomain)
    } else if exists|i: int| 0 <= i < fields.len() && !field_bits_ok(#[trigger] fields[i]) {
        Some(SchemaError::FieldBitsMismatch)
    } else if total > 128 {
        Some(SchemaError::TooWide)
    } else if sum > total {
        Some(SchemaError::TooManyBits)
    } else if !fill_ok(sum, config) {
        if config.filled {
            Some(SchemaError::NotFilled)
        } else {
            Some(SchemaError::UnexpectedlyFilled)
        }
    } else if repr_bits(chosen_repr(fields, config)) < total {
        Some(SchemaError::ReprTooSmall)
    } else {
        None
    }
}

/// `count_width(n)` is the smallest `w` with `2^w >= n`.
pub proof fn lemma_count_width(n: nat)
    ensures
        n <= pow2(count_width(n)),
        count_width(n) > 0 ==> pow2((count_width(n) - 1) as nat) < n,
        n <= 0x1_0000_0000 ==> count_width(n) <= 32,
    decreases n,
{
    if n <= 1 {
        lemma2_to64();
    } else {
        let m = ((n + 1) / 2) as nat;
        lemma_count_width(m);
        lemma_pow2_unfold(count_width(n));
        if count_width(m) > 0 {
            lemma_pow2_unfold(count_width(m));
        } else {
            lemma2_to64();
        }
        if n <= 0x1_0000_0000 {
            assert(m <= 0x8000_0000);
            if count_width(m) == 32 {
                lemma2_to64();
                assert(pow2(31) < m);
            }
        }
    }
}

impl Domain {
    /// The number of bits of the domain: the stated width of an integer, one
    /// for a boolean, and for an enumeration of `n` variants the smallest `w`
    /// with `2^w >= n`.
    pub fn width(&self) -> (r: u32)
        ensures
            r as nat == domain_width(*self),
    {
        match *self {
            Domain::UnsignedInt(w) => w,
            Domain::Boolean => 1,
            Domain::Enum(n) => {
                let mut m: u32 = n;
                let mut w: u32 = 0;
                proof {
                    lemma_count_width(n as nat);
                }
                while m > 1
                    invariant
                        count_width(n as nat) == w + count_width(m as nat),
                        count_width(n as nat) <= 32,
                    decreases m,
                {
                    m = m / 2 + m % 2;
                    w = w + 1;
                }
                w
            },
        }
    }

    /// Whether the domain has a width this library can hold.
    pub fn is_valid(&self) -> (r: bool)
        ensures
            r == domain_ok(*self),
    {
        match *self {
            Domain::UnsignedInt(w) => 1 <= w && w <= 128,
            Domain::Boolean => true,
            Domain::Enum(n) => n >= 1,
        }
    }
}

impl ReprKind {
    /// The width of the integer in bits.
    pub fn bits(&self) -> (r: u32)
        ensures
            r as nat == repr_bits(*self),
    {
        match *self {
            ReprKind::U8 => 8,
            ReprKind::U16 => 16,
            ReprKind::U32 => 32,
            ReprKind::U64 => 64,
            ReprKind::U128 => 128,
        }
    }

    /// The narrowest standard width that holds `bits` bits.
    pub fn from_closest(bits: u32) -> (r: ReprKind)
        ensures
            r == closest_repr(bits as nat),
    {
        if bits <= 8 {
            ReprKind::U8
        } else if bits <= 16 {
            ReprKind::U16
        } else if bits <= 32 {
            ReprKind::U32
        } else if bits <= 64 {
            ReprKind::U64
        } else {
            ReprKind::U128
        }
    }
}

/// Adding field `i` to the prefix before it adds its width.
pub proof fn lemma_sum_prefix_step(fields: Seq<FieldSpec>, i: int)
    requires
        0 <= i < fields.len(),
    ensures
        sum_widths(fields.subrange(0, i + 1)) == sum_widths(fields.subrange(0, i)) + field_width(
            fields[i],
        ),
{
    assert(fields.subrange(0, i + 1).drop_last() =~= fields.subrange(0, i));
}

/// Field `i` ends at the next offset, which is within the fields' total.
pub proof fn lemma_offset_mono_step(fields: Seq<FieldSpec>, i: int)
    requires
        0 <= i < fields.len(),
    ensures
        offset_of(fields, i + 1) == offset_of(fields, i) + field_width(fields[i]),
        offset_of(fields, i + 1) <= sum_widths(fields),
    decreases fields.len() - i,
{
    lemma_sum_prefix_step(fields, i);
    if i + 1 < fields.len() {
        lemma_offset_mono_step(fields, i + 1);
    } else {
        assert(fields.subrange(0, i + 1) =~= fields);
    }
}

impl Layout {
    /// Every field has a width, the fields fit the total width, the total
    /// width fits 128 bits and the backing integer, and a filled layout is a
    /// whole number of bytes.
    pub open spec fn wf(&self) -> bool {
        &&& forall|i: int|
            0 <= i < self.fields@.len() ==> domain_ok(#[trigger] self.fields@[i].domain)
        &&& sum_widths(self.fields@) <= self.total_bits <= 128
        &&& repr_bits(self.repr) >= self.total_bits
        &&& self.filled ==> self.total_bits % 8 == 0
    }

    /// The number of bytes of the byte mapping: the total width rounded up
    /// to whole bytes.
    pub open spec fn byte_len(&self) -> nat {
        ((self.total_bits + 7) / 8) as nat
    }
}

impl BitfieldStruct {
    /// The sum of the field widths, or 129 where that sum exceeds 128.
    fn capped_width_sum(&self) -> (r: u32)
        ensures
            r as nat == if sum_widths(self.fields@) <= 128 {
                sum_widths(self.fields@)
            } else {
                129
            },
    {
        let mut sum: u32 = 0;
        let mut i: usize = 0;
        while i < self.fields.len()
            invariant
                i <= self.fields@.len(),
                sum as nat == if sum_widths(self.fields@.subrange(0, i as int)) <= 128 {
                    sum_widths(self.fields@.subrange(0, i as int))
                } else {
                    129
                },
            decreases self.fields@.len() - i,
        {
            let w = self.fields[i].domain.width();
            proof {
                lemma_sum_prefix_step(self.fields@, i as int);
            }
            if (sum as u64) + (w as u64) > 128 {
                sum = 129;
            } else {
                sum = sum + w;
            }
            i = i + 1;
        }
        proof {
            assert(self.fields@.subrange(0, self.fields@.len() as int) =~= self.fields@);
        }
        sum
    }

    /// The backing integer: the explicit one, or else the narrowest standard
    /// width that holds the total width.
    pub fn get_repr_or_bits(&self, config: &Config) -> (r: ReprKind)
        ensures
            r == chosen_repr(self.fields@, *config),
    {
        match config.repr {
            Some(r) => r,
            None => match config.bits {
                Some(b) => ReprKind::from_closest(b),
                None => ReprKind::from_closest(self.capped_width_sum()),
            },
        }
    }

    /// Checks the declaration against the settings and, where it passes,
    /// returns its layout.
    pub fn expand(&self, config: &Config) -> (r: Result<Layout, SchemaError>)
        ensures
            match r {
                Ok(l) => {
                    &&& schema_error(self.fields@, *config) is None
                    &&& l.wf()
                    &&& l.fields@ == self.fields@
                    &&& l.total_bits as nat == target_bits(self.fields@, *config)
                    &&& l.filled == config.filled
                    &&& l.repr == chosen_repr(self.fields@, *config)
                },
                Err(e) => schema_error(self.fields@, *config) == Some(e),
            },
    {
        let n = self.fields.len();
        let mut i: usize = 0;
        while i < n
            invariant
                n == self.fields@.len(),
                i <= n,
                forall|j: int| 0 <= j < i ==> domain_ok(#[trigger] self.fields@[j].domain),
            decreases n - i,
        {
            if !self.fields[i].domain.is_valid() {
                return Err(SchemaError::InvalidDomain);
            }
            i = i + 1;
        }
        let mut i: usize = 0;
        while i < n
            invariant
                n == self.fields@.len(),
                i <= n,
                forall|j: int| 0 <= j < n ==> domain_ok(#[trigger] self.fields@[j].domain),
                forall|j: int| 0 <= j < i ==> field_bits_ok(#[trigger] self.fields@[j]),
            decreases n - i,
        {
            let f = self.fields[i];
            match f.bits {
                Some(b) => {
                    if b != f.domain.width() {
                        return Err(SchemaError::FieldBitsMismatch);
                    }
                },
                None => {},
            }
            i = i + 1;
        }
        let sum = self.capped_width_sum();
        let total = match config.bits {
            Some(b) => b,
            None => sum,
        };
        if total > 128 {
            return Err(SchemaError::TooWide);
        }
        if sum > total {
            return Err(SchemaError::TooManyBits);
        }
        let fills = match config.bits {
            Some(b) => if config.filled {
                sum == b && b % 8 == 0
            } else {
                sum < b
            },
            None => if config.filled {
                sum % 8 == 0
            } else {
                sum % 8 != 0
            },
        };
        if !fills {
            if config.filled {
                return Err(SchemaError::NotFilled);
            } else {
                return Err(SchemaError::UnexpectedlyFilled);
            }
        }
        let repr = self.get_repr_or_bits(config);
        if repr.bits() < total {
            return Err(SchemaError::ReprTooSmall);
        }
        let mut fields: Vec<FieldSpec> = Vec::new();
        let mut i: usize = 0;
        while i < n
            invariant
                n == self.fields@.len(),
                i <= n,
                fields@ == self.fields@.subrange(0, i as int),
            decreases n - i,
        {
            fields.push(self.fields[i]);
            proof {
                assert(fields@ =~= self.fields@.subrange(0, i + 1));
            }
            i = i + 1;
        }
        proof {
            assert(fields@ =~= self.fields@);
            assert(!exists|j: int| 0 <= j < n && !domain_ok(#[trigger] self.fields@[j].domain));
            assert(!exists|j: int| 0 <= j < n && !field_bits_ok(#[trigger] self.fields@[j]));
        }
        let layout = Layout { fields, total_bits: total, filled: config.filled, repr };
        proof {
            assert forall|j: int| 0 <= j < layout.fields@.len() implies domain_ok(
                #[trigger] layout.fields@[j].domain,
            ) by {
                assert(domain_ok(self.fields@[j].domain));
            }
        }
        Ok(layout)
    }
}

} // verus!
