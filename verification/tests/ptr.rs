use bitptr::{dangling, dangling_mut, null, null_mut, BitPtr, BitPtrMut, SubByte};
use bitptr::{DANGLING_ADDRESS, NULL_ADDRESS};

// Memory layout shared by the tests below: the two bytes of `x` at byte
// addresses 0 and 1, the two bytes of `y` at byte addresses 2 and 3.
const X: usize = 0;
const Y: usize = 2;

#[test]
fn bitptr_new_offset() {
    let xptr = BitPtr::new_with_offset(X, 7);
    assert_eq!(xptr.floor_byte(), X);
    assert_eq!(xptr.subbyte_bit().get(), 7);

    let yptr = BitPtrMut::new_with_offset(Y, 3);
    assert_eq!(yptr.floor_byte(), Y);
    assert_eq!(yptr.subbyte_bit().get(), 3);

    let yptr1 = BitPtrMut::new_with_offset(Y, 13);
    assert_eq!(yptr1.floor_byte(), Y + 1);
    assert_eq!(yptr1.subbyte_bit().get(), 5);
}

#[test]
fn bitptr_read() {
    let x = 0b01001110u8.to_be_bytes();

    let mut xptr = BitPtr::new_on_byte(0);
    assert_eq!(xptr.read(&x), false);

    xptr = xptr.bit_offset(1);
    assert_eq!(xptr.read(&x), true);

    xptr = xptr.bit_offset(1);
    assert_eq!(xptr.read(&x), false);

    xptr = xptr.bit_offset(1);
    assert_eq!(xptr.read(&x), false);

    xptr = xptr.bit_offset(1);
    assert_eq!(xptr.read(&x), true);

    xptr = xptr.bit_offset(1);
    assert_eq!(xptr.read(&x), true);

    xptr = xptr.bit_offset(1);
    assert_eq!(xptr.read(&x), true);

    xptr = xptr.bit_offset(1);
    assert_eq!(xptr.read(&x), false);
}

#[test]
fn bitptr_write() {
    let mut x = 0b01001110u8.to_be_bytes();

    let mut xptr = BitPtrMut::new_on_byte(0);
    xptr.write(&mut x, true);
    assert_eq!(u8::from_be_bytes(x), 0b11001110u8);

    xptr = xptr.bit_offset(5);
    xptr.write(&mut x, false);
    assert_eq!(u8::from_be_bytes(x), 0b11001010u8);
}

#[test]
fn subbyte_new_accepts_zero_to_seven_only() {
    for v in 0u8..8 {
        let s = SubByte::new(v);
        assert!(s.is_some());
        assert_eq!(s.unwrap().get(), v);
    }
    for v in 8u8..=255 {
        assert!(SubByte::new(v).is_none());
    }
}

#[test]
fn subbyte_bounds() {
    assert_eq!(SubByte::MIN, 0);
    assert_eq!(SubByte::MAX, 7);
    assert_eq!(SubByte::lowest().get(), 0);
    assert_eq!(SubByte::highest().get(), 7);
    assert_eq!(SubByte::new_unchecked(5).get(), 5);
    assert_eq!(SubByte::new(7), Some(SubByte::highest()));
}

#[test]
fn bitptr_accessors() {
    let p = BitPtr::new(12, SubByte::new(6).unwrap());
    assert_eq!(p.floor_byte(), 12);
    assert_eq!(p.subbyte_bit().get(), 6);
    assert_eq!(p.as_inner(), (12, SubByte::new(6).unwrap()));

    let q = BitPtrMut::new(12, SubByte::new(6).unwrap());
    assert_eq!(q.floor_byte(), 12);
    assert_eq!(q.subbyte_bit().get(), 6);
    assert_eq!(q.as_inner(), (12, SubByte::new(6).unwrap()));

    assert_eq!(BitPtr::new_on_byte(9).as_inner(), (9, SubByte::lowest()));
    assert_eq!(BitPtrMut::new_on_byte(9).as_inner(), (9, SubByte::lowest()));
}

#[test]
fn bitptr_conversion_keeps_address_and_position() {
    let p = BitPtr::new(40, SubByte::new(3).unwrap());
    let m = p.as_mut();
    assert_eq!(m.as_inner(), (40, SubByte::new(3).unwrap()));
    assert_eq!(m.as_const(), p);
    assert_eq!(m.as_const().as_mut(), m);
}

#[test]
fn bit_offset_rounds_down_for_negative_counts() {
    let p = BitPtr::new(10, SubByte::new(2).unwrap());

    let q = p.bit_offset(-3);
    assert_eq!(q.floor_byte(), 9);
    assert_eq!(q.subbyte_bit().get(), 7);

    let q = p.bit_offset(-2);
    assert_eq!(q.floor_byte(), 10);
    assert_eq!(q.subbyte_bit().get(), 0);

    let q = p.bit_offset(-18);
    assert_eq!(q.floor_byte(), 8);
    assert_eq!(q.subbyte_bit().get(), 0);

    let q = p.bit_offset(-19);
    assert_eq!(q.floor_byte(), 7);
    assert_eq!(q.subbyte_bit().get(), 7);

    let q = p.bit_offset(0);
    assert_eq!(q, p);

    let q = p.bit_offset(6);
    assert_eq!(q.floor_byte(), 11);
    assert_eq!(q.subbyte_bit().get(), 0);

    let q = p.bit_offset(5);
    assert_eq!(q.floor_byte(), 10);
    assert_eq!(q.subbyte_bit().get(), 7);

    let m = BitPtrMut::new(10, SubByte::new(2).unwrap()).bit_offset(-19);
    assert_eq!(m.floor_byte(), 7);
    assert_eq!(m.subbyte_bit().get(), 7);
}

#[test]
fn bit_offset_reaches_both_ends_of_the_address_space() {
    let top = BitPtr::new(usize::MAX, SubByte::new(0).unwrap());
    let q = top.bit_offset(7);
    assert_eq!(q.as_inner(), (usize::MAX, SubByte::highest()));

    let far = BitPtr::new(0, SubByte::new(7).unwrap()).bit_offset(isize::MAX);
    assert_eq!(far.floor_byte(), (isize::MAX as usize) / 8 + 1);
    assert_eq!(far.subbyte_bit().get(), 6);

    let back = BitPtr::new(usize::MAX, SubByte::new(0).unwrap()).bit_offset(isize::MIN);
    assert_eq!(back.floor_byte(), usize::MAX - (isize::MAX as usize) / 8 - 1);
    assert_eq!(back.subbyte_bit().get(), 0);

    let low = BitPtr::new(1, SubByte::new(0).unwrap()).bit_offset(-8);
    assert_eq!(low.as_inner(), (0, SubByte::lowest()));
}

#[test]
fn bit_offset_adds_up() {
    let counts: [isize; 9] = [-17, -9, -8, -1, 0, 1, 7, 8, 23];
    for start in 0u8..8 {
        let p = BitPtr::new(1000, SubByte::new(start).unwrap());
        let m = p.as_mut();
        for a in counts {
            for b in counts {
                let two = p.bit_offset(a).bit_offset(b);
                let one = p.bit_offset(a + b);
                assert_eq!(two, one);
                assert!(one.subbyte_bit().get() < 8);
                assert_eq!(m.bit_offset(a).bit_offset(b), m.bit_offset(a + b));
            }
        }
    }
}

#[test]
fn byte_offset_moves_whole_bytes() {
    let p = BitPtr::new(10, SubByte::new(5).unwrap());
    assert_eq!(p.byte_offset(3).as_inner(), (13, SubByte::new(5).unwrap()));
    assert_eq!(p.byte_offset(-10).as_inner(), (0, SubByte::new(5).unwrap()));
    assert_eq!(p.byte_offset(0), p);

    let m = p.as_mut();
    assert_eq!(m.byte_offset(3).as_inner(), (13, SubByte::new(5).unwrap()));
    assert_eq!(m.byte_offset(-10).as_inner(), (0, SubByte::new(5).unwrap()));
}

#[test]
fn wrapping_byte_offset_wraps_around() {
    let p = BitPtr::new(1, SubByte::new(4).unwrap());
    assert_eq!(p.wrapping_byte_offset(-2).as_inner(), (usize::MAX, SubByte::new(4).unwrap()));
    assert_eq!(p.wrapping_byte_offset(5).as_inner(), (6, SubByte::new(4).unwrap()));

    let top = BitPtrMut::new(usize::MAX, SubByte::new(4).unwrap());
    assert_eq!(top.wrapping_byte_offset(1).as_inner(), (0, SubByte::new(4).unwrap()));
    assert_eq!(top.wrapping_byte_offset(3).as_inner(), (2, SubByte::new(4).unwrap()));
    assert_eq!(
        top.wrapping_byte_offset(-1).as_inner(),
        (usize::MAX - 1, SubByte::new(4).unwrap())
    );
}

#[test]
fn read_sees_every_bit_of_two_bytes() {
    let mem = 0b0101101110010110u16.to_be_bytes();
    let expected = [
        false, true, false, true, true, false, true, true, true, false, false, true, false, true,
        true, false,
    ];
    for (k, want) in expected.iter().enumerate() {
        assert_eq!(BitPtr::new_with_offset(0, k as isize).read(&mem), *want);
        assert_eq!(BitPtrMut::new_with_offset(0, k as isize).read(&mem), *want);
    }
}

#[test]
fn write_touches_one_bit_only() {
    for k in 0..16isize {
        let mut mem = [0u8, 0u8];
        BitPtrMut::new_with_offset(0, k).write(&mut mem, true);
        assert_eq!(u16::from_be_bytes(mem), 0x8000u16 >> k);

        let mut mem = [0xffu8, 0xffu8];
        BitPtrMut::new_with_offset(0, k).write(&mut mem, false);
        assert_eq!(u16::from_be_bytes(mem), !(0x8000u16 >> k));

        let mut mem = [0xffu8, 0xffu8];
        BitPtrMut::new_with_offset(0, k).write(&mut mem, true);
        assert_eq!(u16::from_be_bytes(mem), 0xffffu16);
    }
}

#[test]
fn null_and_dangling_are_placeholders_at_bit_zero() {
    assert_eq!(NULL_ADDRESS, 0);
    assert_eq!(DANGLING_ADDRESS, 1);
    assert_eq!(null().as_inner(), (0, SubByte::lowest()));
    assert_eq!(null_mut().as_inner(), (0, SubByte::lowest()));
    assert_eq!(dangling().as_inner(), (1, SubByte::lowest()));
    assert_eq!(dangling_mut().as_inner(), (1, SubByte::lowest()));
    assert_eq!(null().as_mut(), null_mut());
    assert_eq!(dangling_mut().as_const(), dangling());
    assert_ne!(null(), dangling());
}

#[test]
fn pointers_order_by_byte_then_by_position() {
    let a = BitPtr::new(3, SubByte::new(7).unwrap());
    let b = BitPtr::new(4, SubByte::new(0).unwrap());
    let c = BitPtr::new(4, SubByte::new(1).unwrap());
    assert!(a < b);
    assert!(b < c);
    assert!(a < c);
    assert!(c > a);
    assert!(b <= b);
    assert_eq!(a.partial_cmp(&b), Some(core::cmp::Ordering::Less));
    assert_eq!(c.partial_cmp(&b), Some(core::cmp::Ordering::Greater));
    assert_eq!(b.partial_cmp(&b), Some(core::cmp::Ordering::Equal));
    assert_eq!(a.cmp(&b), core::cmp::Ordering::Less);
    assert_eq!(c.cmp(&b), core::cmp::Ordering::Greater);
    assert_eq!(a.max(c), c);

    let am = a.as_mut();
    let bm = b.as_mut();
    assert!(am < bm);
    assert_eq!(bm.cmp(&am), core::cmp::Ordering::Greater);

    assert!(SubByte::new(2).unwrap() < SubByte::new(5).unwrap());
    assert_eq!(
        SubByte::new(5).unwrap().cmp(&SubByte::new(2).unwrap()),
        core::cmp::Ordering::Greater
    );
}

#[test]
fn wrapping_byte_offset_from_address_zero() {
    let p = BitPtr::new(0, SubByte::lowest());
    assert_eq!(p.wrapping_byte_offset(-1).floor_byte(), usize::MAX);
    assert_eq!(p.wrapping_byte_offset(isize::MIN).floor_byte(), (isize::MAX as usize) + 1);
}
