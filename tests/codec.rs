use bitfield_codec::codec::Record;
use bitfield_codec::model::ValueError;
use bitfield_codec::schema::{BitfieldStruct, Config, Domain, FieldSpec, Layout, ReprKind, SchemaError};

fn field(domain: Domain) -> FieldSpec {
    FieldSpec {
        bits: None,
        domain,
        suppress_getter: false,
        suppress_setter: false,
        suppress_both: false,
    }
}

fn config(bits: Option<u32>, filled: bool) -> Config {
    Config { bits, filled, repr: None }
}

fn color_layout() -> Layout {
    let decl = BitfieldStruct {
        fields: vec![
            field(Domain::UnsignedInt(8)),
            field(Domain::UnsignedInt(8)),
            field(Domain::UnsignedInt(8)),
            field(Domain::Boolean),
            field(Domain::UnsignedInt(7)),
        ],
    };
    decl.expand(&config(None, true)).unwrap()
}

fn color_record(layout: &Layout) -> Record {
    let mut rec = layout.new_record();
    layout.set(&mut rec, 0, 0xFF).unwrap();
    layout.set(&mut rec, 1, 0x00).unwrap();
    layout.set(&mut rec, 2, 0x80).unwrap();
    layout.set(&mut rec, 3, 1).unwrap();
    layout.set(&mut rec, 4, 0).unwrap();
    rec
}

fn values(layout: &Layout, rec: &Record) -> Vec<u128> {
    (0..layout.fields.len()).map(|i| layout.get(rec, i)).collect()
}

#[test]
fn color_scenario_bytes_and_integer() {
    let layout = color_layout();
    assert_eq!(layout.total_bits, 32);
    assert_eq!(layout.repr, ReprKind::U32);
    let rec = color_record(&layout);
    assert_eq!(layout.to_le_bytes(&rec), vec![0xFF, 0x00, 0x80, 0x01]);
    assert_eq!(layout.encode_integer(&rec), 0x018000FF);
}

#[test]
fn color_update_byte_le_changes_only_g() {
    let layout = color_layout();
    let mut rec = color_record(&layout);
    layout.update_byte_le(&mut rec, 1, 0x42).unwrap();
    assert_eq!(values(&layout, &rec), vec![0xFF, 0x42, 0x80, 1, 0]);
}

#[test]
fn color_update_byte_be_addresses_from_the_top() {
    let layout = color_layout();
    let mut rec = color_record(&layout);
    layout.update_byte_be(&mut rec, 0, 0x03).unwrap();
    assert_eq!(values(&layout, &rec), vec![0xFF, 0x00, 0x80, 1, 1]);
    assert_eq!(layout.encode_integer(&rec), 0x038000FF);
}

#[test]
fn color_round_trips() {
    let layout = color_layout();
    let rec = color_record(&layout);
    let x = layout.encode_integer(&rec);
    let back = layout.decode_integer(x).unwrap();
    assert_eq!(values(&layout, &back), vec![0xFF, 0x00, 0x80, 1, 0]);
    let bytes = layout.to_le_bytes(&rec);
    let back = layout.from_le_bytes(&bytes).unwrap();
    assert_eq!(values(&layout, &back), vec![0xFF, 0x00, 0x80, 1, 0]);
}

#[test]
fn setting_four_bit_field_to_sixteen_is_out_of_bounds() {
    let decl = BitfieldStruct { fields: vec![field(Domain::UnsignedInt(4))] };
    let layout = decl.expand(&config(None, false)).unwrap();
    let mut rec = layout.new_record();
    assert_eq!(layout.set(&mut rec, 0, 16), Err(ValueError::OutOfBounds));
    assert_eq!(layout.get(&rec, 0), 0);
    assert_eq!(layout.set(&mut rec, 0, 15), Ok(()));
    assert_eq!(layout.get(&rec, 0), 15);
}

#[test]
fn enum_of_three_rejects_pattern_three() {
    let decl = BitfieldStruct { fields: vec![field(Domain::Enum(3))] };
    let layout = decl.expand(&config(None, false)).unwrap();
    assert_eq!(layout.total_bits, 2);
    assert!(matches!(layout.decode_integer(0b11), Err(ValueError::InvalidBitPattern)));
    let rec = layout.decode_integer(0b10).unwrap();
    assert_eq!(layout.get(&rec, 0), 2);
}

#[test]
fn zero_pattern_decodes_for_every_domain() {
    let decl = BitfieldStruct {
        fields: vec![
            field(Domain::UnsignedInt(3)),
            field(Domain::Boolean),
            field(Domain::Enum(5)),
            field(Domain::Enum(1)),
        ],
    };
    let layout = decl.expand(&config(None, false)).unwrap();
    assert_eq!(layout.total_bits, 7);
    let rec = layout.decode_integer(0).unwrap();
    assert_eq!(values(&layout, &rec), vec![0, 0, 0, 0]);
    let fresh = layout.new_record();
    assert_eq!(values(&layout, &fresh), vec![0, 0, 0, 0]);
}

#[test]
fn field_independence_on_values() {
    let layout = color_layout();
    let rec = color_record(&layout);
    let x = layout.encode_integer(&rec);
    let changed = layout.with(&rec, 2, 0x11).unwrap();
    let y = layout.encode_integer(&changed);
    assert_eq!(x & 0xFF00FFFF, y & 0xFF00FFFF);
    assert_eq!((y >> 16) & 0xFF, 0x11);
    assert_eq!(values(&layout, &rec), vec![0xFF, 0x00, 0x80, 1, 0]);
    assert_eq!(layout.with(&rec, 3, 2).err(), Some(ValueError::OutOfBounds));
}

#[test]
fn filled_schema_off_byte_boundary_is_rejected() {
    let decl = BitfieldStruct { fields: vec![field(Domain::UnsignedInt(12))] };
    assert_eq!(decl.expand(&config(None, true)).err(), Some(SchemaError::NotFilled));
    assert!(decl.expand(&config(None, false)).is_ok());
}

#[test]
fn unfilled_schema_on_byte_boundary_is_rejected() {
    let decl = BitfieldStruct { fields: vec![field(Domain::UnsignedInt(16))] };
    assert_eq!(decl.expand(&config(None, false)).err(), Some(SchemaError::UnexpectedlyFilled));
    assert!(decl.expand(&config(None, true)).is_ok());
}

#[test]
fn explicit_width_checks() {
    let decl = BitfieldStruct { fields: vec![field(Domain::UnsignedInt(12))] };
    assert_eq!(decl.expand(&config(Some(12), false)).err(), Some(SchemaError::UnexpectedlyFilled));
    assert_eq!(decl.expand(&config(Some(16), true)).err(), Some(SchemaError::NotFilled));
    assert_eq!(decl.expand(&config(Some(8), false)).err(), Some(SchemaError::TooManyBits));
    assert_eq!(decl.expand(&config(Some(200), false)).err(), Some(SchemaError::TooWide));
    let layout = decl.expand(&config(Some(16), false)).unwrap();
    assert_eq!(layout.total_bits, 16);
    assert_eq!(layout.repr, ReprKind::U16);
    // a filled schema's explicit width must be a whole number of bytes
    assert_eq!(decl.expand(&config(Some(12), true)).err(), Some(SchemaError::NotFilled));
    let decl16 = BitfieldStruct { fields: vec![field(Domain::UnsignedInt(16))] };
    let layout = decl16.expand(&config(Some(16), true)).unwrap();
    assert_eq!(layout.repr, ReprKind::U16);
    let rec = layout.from_le_bytes(&[0x00, 0x10]).unwrap();
    assert_eq!(layout.get(&rec, 0), 0x1000);
}

#[test]
fn filled_bytes_always_decode() {
    let layout = color_layout();
    let rec = layout.from_le_bytes(&[0xFF, 0xFF, 0xFF, 0xFF]).unwrap();
    assert_eq!(values(&layout, &rec), vec![0xFF, 0xFF, 0xFF, 1, 0x7F]);
    assert_eq!(layout.to_le_bytes(&rec), vec![0xFF, 0xFF, 0xFF, 0xFF]);
}

#[test]
fn field_level_checks() {
    let bad_int = BitfieldStruct { fields: vec![field(Domain::UnsignedInt(0)), field(Domain::Boolean)] };
    assert_eq!(bad_int.expand(&config(None, false)).err(), Some(SchemaError::InvalidDomain));
    let bad_enum = BitfieldStruct { fields: vec![field(Domain::Enum(0))] };
    assert_eq!(bad_enum.expand(&config(None, false)).err(), Some(SchemaError::InvalidDomain));
    let mut stated = field(Domain::Enum(4));
    stated.bits = Some(3);
    let decl = BitfieldStruct { fields: vec![stated] };
    assert_eq!(decl.expand(&config(None, false)).err(), Some(SchemaError::FieldBitsMismatch));
    stated.bits = Some(2);
    let decl = BitfieldStruct { fields: vec![stated] };
    assert!(decl.expand(&config(None, false)).is_ok());
}

#[test]
fn too_wide_and_repr_checks() {
    let decl = BitfieldStruct {
        fields: vec![field(Domain::UnsignedInt(128)), field(Domain::Boolean)],
    };
    assert_eq!(decl.expand(&config(None, false)).err(), Some(SchemaError::TooWide));
    let decl = BitfieldStruct { fields: vec![field(Domain::UnsignedInt(20))] };
    let narrow = Config { bits: None, filled: false, repr: Some(ReprKind::U16) };
    assert_eq!(decl.expand(&narrow).err(), Some(SchemaError::ReprTooSmall));
    let wide = Config { bits: None, filled: false, repr: Some(ReprKind::U64) };
    assert_eq!(decl.expand(&wide).unwrap().repr, ReprKind::U64);
    assert_eq!(decl.get_repr_or_bits(&wide), ReprKind::U64);
    assert_eq!(decl.get_repr_or_bits(&config(None, false)), ReprKind::U32);
    assert_eq!(decl.get_repr_or_bits(&config(Some(70), false)), ReprKind::U128);
}

#[test]
fn domain_widths() {
    assert_eq!(Domain::Enum(1).width(), 0);
    assert_eq!(Domain::Enum(2).width(), 1);
    assert_eq!(Domain::Enum(3).width(), 2);
    assert_eq!(Domain::Enum(4).width(), 2);
    assert_eq!(Domain::Enum(5).width(), 3);
    assert_eq!(Domain::Enum(u32::MAX).width(), 32);
    assert_eq!(Domain::Boolean.width(), 1);
    assert_eq!(Domain::UnsignedInt(9).width(), 9);
    assert!(Domain::UnsignedInt(128).admits(u128::MAX));
    assert!(!Domain::Boolean.admits(2));
}

#[test]
fn repr_from_closest() {
    assert_eq!(ReprKind::from_closest(0), ReprKind::U8);
    assert_eq!(ReprKind::from_closest(8), ReprKind::U8);
    assert_eq!(ReprKind::from_closest(9), ReprKind::U16);
    assert_eq!(ReprKind::from_closest(33), ReprKind::U64);
    assert_eq!(ReprKind::from_closest(65), ReprKind::U128);
    assert_eq!(ReprKind::U32.bits(), 32);
}

#[test]
fn unfilled_bytes_reject_bits_above_the_width() {
    let decl = BitfieldStruct {
        fields: vec![field(Domain::UnsignedInt(8)), field(Domain::UnsignedInt(4))],
    };
    let layout = decl.expand(&config(None, false)).unwrap();
    assert_eq!(layout.total_bits, 12);
    assert!(matches!(layout.from_le_bytes(&[0x12, 0x10]), Err(ValueError::OutOfBounds)));
    let rec = layout.from_le_bytes(&[0x12, 0x0F]).unwrap();
    assert_eq!(values(&layout, &rec), vec![0x12, 0x0F]);
    assert!(matches!(layout.decode_integer(0x1000), Err(ValueError::OutOfBounds)));
    let mut rec = rec;
    assert_eq!(layout.update_byte_le(&mut rec, 1, 0xF0), Err(ValueError::OutOfBounds));
    assert_eq!(values(&layout, &rec), vec![0x12, 0x0F]);
}

#[test]
fn skipped_accessors_and_padding() {
    let mut no_getter = field(Domain::UnsignedInt(10));
    no_getter.suppress_getter = true;
    let mut no_setter = field(Domain::UnsignedInt(4));
    no_setter.suppress_setter = true;
    let mut padding = field(Domain::UnsignedInt(3));
    padding.suppress_both = true;
    let decl = BitfieldStruct {
        fields: vec![no_getter, field(Domain::Boolean), no_setter, padding, field(Domain::Boolean)],
    };
    let layout = decl.expand(&config(None, false)).unwrap();
    assert_eq!(layout.total_bits, 19);
    let mut rec = layout.new_record();
    layout.set(&mut rec, 0, 0x3FF).unwrap();
    layout.set(&mut rec, 1, 1).unwrap();
    layout.set(&mut rec, 4, 1).unwrap();
    // the field without a getter is left out of the encoding
    assert_eq!(layout.encode_integer(&rec), (1 << 10) | (1 << 18));
    // the fields without a setter read back as zero whatever their bits hold
    let back = layout.decode_integer(0x7FFFF).unwrap();
    assert_eq!(layout.get(&back, 1), 1);
    assert_eq!(layout.get(&back, 2), 0);
    assert_eq!(layout.get(&back, 4), 1);
    assert_eq!(layout.to_le_bytes(&rec), vec![0x00, 0x04, 0x04]);
    // the padding field has no slot
    assert_eq!(rec.slots(), &[0x3FF, 1, 0, 1]);
    assert_eq!(layout.new_record().slots().len(), 4);
}

#[test]
fn wide_field_round_trip() {
    let decl = BitfieldStruct { fields: vec![field(Domain::UnsignedInt(128))] };
    let layout = decl.expand(&config(None, true)).unwrap();
    assert_eq!(layout.repr, ReprKind::U128);
    let mut rec = layout.new_record();
    let v: u128 = 0x0102_0304_0506_0708_090A_0B0C_0D0E_0F10;
    layout.set(&mut rec, 0, v).unwrap();
    assert_eq!(layout.encode_integer(&rec), v);
    let bytes = layout.to_le_bytes(&rec);
    assert_eq!(bytes.len(), 16);
    assert_eq!(bytes[0], 0x10);
    assert_eq!(bytes[15], 0x01);
    let back = layout.from_le_bytes(&bytes).unwrap();
    assert_eq!(layout.get(&back, 0), v);
}

#[test]
fn boolean_accessors_map_to_zero_and_one() {
    let layout = color_layout();
    let mut rec = layout.new_record();
    assert!(!layout.get_bool(&rec, 3));
    layout.set_bool(&mut rec, 3, true);
    assert!(layout.get_bool(&rec, 3));
    assert_eq!(layout.get(&rec, 3), 1);
    assert_eq!(layout.encode_integer(&rec), 1 << 24);
    layout.set_bool(&mut rec, 3, false);
    assert_eq!(layout.encode_integer(&rec), 0);
}

#[test]
fn enum_field_in_the_middle_round_trips() {
    let decl = BitfieldStruct {
        fields: vec![field(Domain::UnsignedInt(3)), field(Domain::Enum(6)), field(Domain::UnsignedInt(3))],
    };
    let layout = decl.expand(&config(None, false)).unwrap();
    assert_eq!(layout.total_bits, 9);
    let mut rec = layout.new_record();
    layout.set(&mut rec, 0, 5).unwrap();
    layout.set(&mut rec, 1, 4).unwrap();
    layout.set(&mut rec, 2, 7).unwrap();
    assert_eq!(layout.set(&mut rec, 1, 6), Err(ValueError::OutOfBounds));
    let x = layout.encode_integer(&rec);
    assert_eq!(x, 5 | (4 << 3) | (7 << 6));
    assert_eq!(layout.to_le_bytes(&rec), vec![0xE5, 0x01]);
    assert!(matches!(layout.decode_integer(6 << 3), Err(ValueError::InvalidBitPattern)));
    let back = layout.decode_integer(x).unwrap();
    assert_eq!(values(&layout, &back), vec![5, 4, 7]);
}
