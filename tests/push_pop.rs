use bitfield_codec::push_pop::{PopBuffer, PushBuffer};

#[test]
fn pop_takes_low_bits_first() {
    let mut buf = PopBuffer::from_bytes(0b1011_0110u8);
    assert_eq!(buf.pop_bits(3), 0b110);
    assert_eq!(buf.pop_bits(2), 0b10);
    assert_eq!(buf.pop_bits(3), 0b101);
    assert_eq!(buf.pop_bits(1), 0);
}

#[test]
fn pop_whole_byte_of_u8_empties_it() {
    let mut buf = PopBuffer::from_bytes(0xABu8);
    assert_eq!(buf.pop_bits(8), 0xAB);
    assert_eq!(buf.pop_bits(8), 0);
}

#[test]
fn pop_from_wide_buffers() {
    let mut a = PopBuffer::from_bytes(0x1234u16);
    assert_eq!(a.pop_bits(8), 0x34);
    assert_eq!(a.pop_bits(4), 0x2);
    assert_eq!(a.pop_bits(8), 0x1);
    let mut b = PopBuffer::from_bytes(0xDEAD_BEEFu32);
    assert_eq!(b.pop_bits(4), 0xF);
    assert_eq!(b.pop_bits(8), 0xEE);
    let mut c = PopBuffer::from_bytes(u64::MAX);
    assert_eq!(c.pop_bits(0), 0);
    assert_eq!(c.pop_bits(7), 0x7F);
    let mut d = PopBuffer::from_bytes(1u128 << 127);
    assert_eq!(d.pop_bits(8), 0);
}

#[test]
fn push_shifts_up_and_masks_bits() {
    let mut buf: PushBuffer<u16> = PushBuffer::default();
    buf.push_bits(4, 0xFA);
    buf.push_bits(8, 0x5C);
    assert_eq!(buf.into_bytes(), 0xA5C);
}

#[test]
fn push_drops_bits_past_the_top() {
    let mut buf: PushBuffer<u8> = PushBuffer::default();
    buf.push_bits(6, 0b11_1111);
    buf.push_bits(3, 0b001);
    assert_eq!(buf.into_bytes(), 0b1111_1001);
    let mut full: PushBuffer<u8> = PushBuffer::default();
    full.push_bits(5, 0x1F);
    full.push_bits(8, 0x42);
    assert_eq!(full.into_bytes(), 0x42);
}

#[test]
fn push_into_wide_buffers() {
    let mut a: PushBuffer<u32> = PushBuffer::default();
    for b in [0xDEu8, 0xAD, 0xBE, 0xEF] {
        a.push_bits(8, b);
    }
    assert_eq!(a.into_bytes(), 0xDEAD_BEEF);
    let mut b: PushBuffer<u64> = PushBuffer::default();
    b.push_bits(1, 1);
    b.push_bits(0, 1);
    assert_eq!(b.into_bytes(), 1);
    let mut c: PushBuffer<u128> = PushBuffer::default();
    for _ in 0..17 {
        c.push_bits(8, 0xFF);
    }
    assert_eq!(c.into_bytes(), u128::MAX);
}
