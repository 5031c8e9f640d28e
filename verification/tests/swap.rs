use bitptr::{swap_nonoverlapping, BitPtr, BitPtrMut};

// The two bytes of `x` stand at byte addresses 0 and 1 of the memory, the two
// bytes of `y` at byte addresses 2 and 3.
const X: usize = 0;
const Y: usize = 2;

fn memory(x: u16, y: u16) -> [u8; 4] {
    let x = x.to_be_bytes();
    let y = y.to_be_bytes();
    [x[0], x[1], y[0], y[1]]
}

fn x_of(mem: &[u8; 4]) -> u16 {
    u16::from_be_bytes([mem[0], mem[1]])
}

fn y_of(mem: &[u8; 4]) -> u16 {
    u16::from_be_bytes([mem[2], mem[3]])
}

#[test]
fn swap_within_byte_boundary() {
    let mut mem = memory(0b0101101110010110u16, 0b1110100011010010u16);

    let xptr = BitPtrMut::new_with_offset(X, 9);
    let yptr = BitPtrMut::new_with_offset(Y, 3);

    // Swap and check final values.
    swap_nonoverlapping(&mut mem, xptr, yptr, 4);
    assert_eq!(x_of(&mem), 0b0101101110100110u16);
    assert_eq!(y_of(&mem), 0b1110010011010010u16);
}

#[test]
fn swap_across_byte_boundary() {
    let mut mem = memory(0b0101101110010110u16, 0b1110100011010010u16);

    let xptr = BitPtrMut::new_with_offset(X, 7);
    let yptr = BitPtrMut::new_with_offset(Y, 3);

    // Swap and check final values.
    swap_nonoverlapping(&mut mem, xptr, yptr, 7);
    assert_eq!(x_of(&mem), 0b0101101010001110u16);
    assert_eq!(y_of(&mem), 0b1111100101010010u16);
}

#[test]
fn swap_aligned_start() {
    let mut mem = memory(0b0101101110010110u16, 0b1110100011010010u16);

    let xptr = BitPtrMut::new_with_offset(X, 8);
    let yptr = BitPtrMut::new_with_offset(Y, 0);

    // Swap and check final values.
    swap_nonoverlapping(&mut mem, xptr, yptr, 5);
    assert_eq!(x_of(&mem), 0b0101101111101110u16);
    assert_eq!(y_of(&mem), 0b1001000011010010u16);
}

#[test]
fn swap_aligned_end() {
    let mut mem = memory(0b0101101110010110u16, 0b1110100011010010u16);

    let xptr = BitPtrMut::new_with_offset(X, 5);
    let yptr = BitPtrMut::new_with_offset(Y, 13);

    // Swap and check final values.
    swap_nonoverlapping(&mut mem, xptr, yptr, 3);
    assert_eq!(x_of(&mem), 0b0101101010010110u16);
    assert_eq!(y_of(&mem), 0b1110100011010011u16);
}

#[test]
fn swap_different_byte_width() {
    let mut mem = memory(0b0101101110010110u16, 0b1110100011010010u16);

    let xptr = BitPtrMut::new_with_offset(X, 2);
    let yptr = BitPtrMut::new_with_offset(Y, 6);

    // Swap and check final values.
    swap_nonoverlapping(&mut mem, xptr, yptr, 5);
    assert_eq!(x_of(&mem), 0b0100110110010110u16);
    assert_eq!(y_of(&mem), 0b1110100110110010u16);
}

#[test]
fn swap_of_no_bits_changes_nothing() {
    let mut mem = memory(0b0101101110010110u16, 0b1110100011010010u16);
    swap_nonoverlapping(&mut mem, BitPtrMut::new_with_offset(X, 2), BitPtrMut::new_with_offset(Y, 6), 0);
    assert_eq!(mem, memory(0b0101101110010110u16, 0b1110100011010010u16));

    // Nothing is touched even where the pointers lie outside the memory.
    swap_nonoverlapping(&mut mem, bitptr::null_mut(), bitptr::dangling_mut().byte_offset(50), 0);
    assert_eq!(mem, memory(0b0101101110010110u16, 0b1110100011010010u16));
}

#[test]
fn swap_is_save_both_then_write_both() {
    // Every pair of positions and every length that fits: each side reads as
    // the other did, and the rest is unchanged.
    let before: [u8; 8] = [0x5b, 0x96, 0xe8, 0xd2, 0x0f, 0xa5, 0x3c, 0x71];
    for x in 0..32usize {
        for y in 32..64usize {
            for n in 0..=(64 - y).min(32 - x) {
                let xp = BitPtrMut::new_with_offset(0, x as isize);
                let yp = BitPtrMut::new_with_offset(0, y as isize);
                for (first, second) in [(xp, yp), (yp, xp)] {
                    let mut mem = before;
                    swap_nonoverlapping(&mut mem, first, second, n);
                    for p in 0..64usize {
                        let got = BitPtr::new_with_offset(0, p as isize).read(&mem);
                        let from = if x <= p && p < x + n {
                            p - x + y
                        } else if y <= p && p < y + n {
                            p - y + x
                        } else {
                            p
                        };
                        let want = BitPtr::new_with_offset(0, from as isize).read(&before);
                        assert_eq!(got, want, "x {x} y {y} n {n} bit {p}");
                    }
                }
            }
        }
    }
}

#[test]
fn swap_of_runs_that_lie_side_by_side() {
    // The runs touch, and share the bytes in which one ends and the other
    // begins.
    let before: [u8; 6] = [0x5b, 0x96, 0xe8, 0xd2, 0x0f, 0xa5];
    for x in 0..24usize {
        for n in 0..=((48 - x) / 2) {
            let y = x + n;
            let mut mem = before;
            swap_nonoverlapping(
                &mut mem,
                BitPtrMut::new_with_offset(0, x as isize),
                BitPtrMut::new_with_offset(0, y as isize),
                n,
            );
            for p in 0..48usize {
                let got = BitPtr::new_with_offset(0, p as isize).read(&mem);
                let from = if x <= p && p < x + n {
                    p + n
                } else if y <= p && p < y + n {
                    p - n
                } else {
                    p
                };
                let want = BitPtr::new_with_offset(0, from as isize).read(&before);
                assert_eq!(got, want, "x {x} n {n} bit {p}");
            }
        }
    }
}

#[test]
fn swap_inside_one_byte() {
    let mut mem: [u8; 1] = [0b1010_0110];
    swap_nonoverlapping(&mut mem, BitPtrMut::new_with_offset(0, 0), BitPtrMut::new_with_offset(0, 4), 4);
    assert_eq!(mem, [0b0110_1010]);

    let mut mem: [u8; 1] = [0b1100_0010];
    swap_nonoverlapping(&mut mem, BitPtrMut::new_with_offset(0, 0), BitPtrMut::new_with_offset(0, 5), 2);
    assert_eq!(mem, [0b0100_0110]);
}

#[test]
fn swap_of_whole_bytes() {
    let mut mem: [u8; 8] = [1, 2, 3, 4, 5, 6, 7, 8];
    swap_nonoverlapping(&mut mem, BitPtrMut::new_on_byte(0), BitPtrMut::new_on_byte(4), 32);
    assert_eq!(mem, [5, 6, 7, 8, 1, 2, 3, 4]);
}

#[test]
fn swap_of_many_bytes_off_the_byte_boundary() {
    let mut mem: [u8; 10] = [0x12, 0x34, 0x56, 0x78, 0x9a, 0xfe, 0xdc, 0xba, 0x98, 0x76];
    swap_nonoverlapping(&mut mem, BitPtrMut::new_with_offset(0, 4), BitPtrMut::new_with_offset(5, 8), 28);
    assert_eq!(mem, [0x1d, 0xcb, 0xa9, 0x87, 0x9a, 0xfe, 0x23, 0x45, 0x67, 0x86]);
}

#[test]
fn swap_at_both_ends_of_the_memory() {
    let mut mem: [u8; 2] = [0b1111_0000, 0b0000_0000];
    swap_nonoverlapping(&mut mem, BitPtrMut::new_with_offset(0, 0), BitPtrMut::new_with_offset(1, 0), 8);
    assert_eq!(mem, [0b0000_0000, 0b1111_0000]);

    let mut mem: [u8; 2] = [0b1111_0000, 0b0000_0101];
    swap_nonoverlapping(&mut mem, BitPtrMut::new_with_offset(0, 0), BitPtrMut::new_with_offset(1, 5), 3);
    assert_eq!(mem, [0b1011_0000, 0b0000_0111]);
}
