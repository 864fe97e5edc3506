use bitfield_codec::model::ValueError;
use bitfield_codec::schema::{BitfieldStruct, Config, Domain, FieldSpec, Layout};

fn field(domain: Domain) -> FieldSpec {
    FieldSpec {
        bits: None,
        domain,
        suppress_getter: false,
        suppress_setter: false,
        suppress_both: false,
    }
}

fn color_layout() -> Layout {
    let decl = BitfieldStruct {
        fields: vec![
            field(Domain::UnsignedInt(8)),
            field(Domain::UnsignedInt(8)),
            field(Domain::UnsignedInt(8)),
            field(Domain::Boolean),
            field(Domain::UnsignedInt(7)),
        ],
    };
    decl.expand(&Config { bits: None, filled: true, repr: None }).unwrap()
}

#[test]
fn packed_color_matches_byte_mapping() {
    let layout = color_layout();
    let mut rec = layout.new_packed();
    assert_eq!(rec.as_bytes(), &[0, 0, 0, 0]);
    layout.packed_set(&mut rec, 0, 0xFF).unwrap();
    layout.packed_set(&mut rec, 2, 0x80).unwrap();
    layout.packed_set(&mut rec, 3, 1).unwrap();
    assert_eq!(rec.as_bytes(), &[0xFF, 0x00, 0x80, 0x01]);
    assert_eq!(layout.packed_get(&rec, 0), 0xFF);
    assert_eq!(layout.packed_get(&rec, 1), 0);
    assert_eq!(layout.packed_get(&rec, 2), 0x80);
    assert_eq!(layout.packed_get(&rec, 3), 1);
    assert_eq!(layout.packed_get(&rec, 4), 0);
}

#[test]
fn packed_set_across_byte_boundaries() {
    let decl = BitfieldStruct {
        fields: vec![
            field(Domain::UnsignedInt(5)),
            field(Domain::UnsignedInt(7)),
            field(Domain::Enum(3)),
            field(Domain::UnsignedInt(9)),
        ],
    };
    let layout = decl.expand(&Config { bits: None, filled: false, repr: None }).unwrap();
    assert_eq!(layout.total_bits, 23);
    let mut rec = layout.new_packed();
    layout.packed_set(&mut rec, 1, 0x7F).unwrap();
    layout.packed_set(&mut rec, 3, 0x155).unwrap();
    layout.packed_set(&mut rec, 2, 2).unwrap();
    assert_eq!(layout.packed_get(&rec, 0), 0);
    assert_eq!(layout.packed_get(&rec, 1), 0x7F);
    assert_eq!(layout.packed_get(&rec, 2), 2);
    assert_eq!(layout.packed_get(&rec, 3), 0x155);
    // 0x7F << 5 | 2 << 12 | 0x155 << 14
    assert_eq!(rec.as_bytes(), &[0xE0, 0x6F, 0x55]);
    layout.packed_set(&mut rec, 1, 0).unwrap();
    assert_eq!(layout.packed_get(&rec, 3), 0x155);
    assert_eq!(layout.packed_get(&rec, 2), 2);
    assert_eq!(rec.as_bytes(), &[0x00, 0x60, 0x55]);
}

#[test]
fn packed_set_rejects_out_of_domain() {
    let decl = BitfieldStruct { fields: vec![field(Domain::UnsignedInt(4)), field(Domain::Enum(3))] };
    let layout = decl.expand(&Config { bits: None, filled: false, repr: None }).unwrap();
    let mut rec = layout.new_packed();
    layout.packed_set(&mut rec, 0, 9).unwrap();
    assert_eq!(layout.packed_set(&mut rec, 0, 16), Err(ValueError::OutOfBounds));
    assert_eq!(layout.packed_set(&mut rec, 1, 3), Err(ValueError::OutOfBounds));
    assert_eq!(rec.as_bytes(), &[0x09]);
}

#[test]
fn packed_field_without_getter_keeps_its_bits() {
    let mut hidden = field(Domain::UnsignedInt(10));
    hidden.suppress_getter = true;
    let decl = BitfieldStruct { fields: vec![hidden, field(Domain::Boolean)] };
    let layout = decl.expand(&Config { bits: None, filled: false, repr: None }).unwrap();
    let mut rec = layout.new_packed();
    layout.packed_set(&mut rec, 0, 0x3FF).unwrap();
    layout.packed_set(&mut rec, 1, 1).unwrap();
    assert_eq!(rec.as_bytes(), &[0xFF, 0x07]);
}
