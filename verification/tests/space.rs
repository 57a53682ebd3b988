use pxp_rs::shadow::{array_bytes, field, i32_size, u64_size};
use pxp_rs::error::Error;
use pxp_rs::space::{
    copy, read_i32, read_u16, read_u32, read_u64, write_i32, write_u32, write_u64, Memory, Ram,
};

#[test]
fn unwritten_memory_reads_as_zero() {
    let ram = Ram::new();
    assert_eq!(ram.load(0), 0);
    assert_eq!(ram.load(u64::MAX), 0);
    assert_eq!(read_u64(&ram, 0x1000), 0);
}

#[test]
fn numbers_lie_least_significant_byte_first() {
    let mut ram = Ram::new();
    write_u32(&mut ram, 0x100, 0x1122_3344);
    assert_eq!(ram.load(0x100), 0x44);
    assert_eq!(ram.load(0x101), 0x33);
    assert_eq!(ram.load(0x102), 0x22);
    assert_eq!(ram.load(0x103), 0x11);
    assert_eq!(read_u32(&ram, 0x100), 0x1122_3344);
    assert_eq!(read_u16(&ram, 0x100), 0x3344);
    assert_eq!(read_u16(&ram, 0x102), 0x1122);
    write_u64(&mut ram, 0x200, 0x0102_0304_0506_0708);
    assert_eq!(ram.load(0x200), 0x08);
    assert_eq!(ram.load(0x207), 0x01);
    assert_eq!(read_u64(&ram, 0x200), 0x0102_0304_0506_0708);
    assert_eq!(read_u32(&ram, 0x204), 0x0102_0304);
    write_u64(&mut ram, 0x300, u64::MAX);
    assert_eq!(read_u64(&ram, 0x300), u64::MAX);
    write_u32(&mut ram, 0x300, 0);
    assert_eq!(read_u64(&ram, 0x300), 0xffff_ffff_0000_0000);
}

#[test]
fn signed_numbers_keep_their_sign() {
    let mut ram = Ram::new();
    for v in [0i32, 1, -1, 42, -42, i32::MAX, i32::MIN] {
        write_i32(&mut ram, 0x40, v);
        assert_eq!(read_i32(&ram, 0x40), v);
    }
    write_i32(&mut ram, 0x40, -1);
    assert_eq!(read_u32(&ram, 0x40), 0xffff_ffff);
    write_i32(&mut ram, 0x40, i32::MIN);
    assert_eq!(read_u32(&ram, 0x40), 0x8000_0000);
    write_u32(&mut ram, 0x40, 0xffff_fffe);
    assert_eq!(read_i32(&ram, 0x40), -2);
}

#[test]
fn addresses_wrap_at_the_end_of_the_address_space() {
    let mut ram = Ram::new();
    write_u32(&mut ram, u64::MAX - 1, 0xaabb_ccdd);
    assert_eq!(ram.load(u64::MAX - 1), 0xdd);
    assert_eq!(ram.load(u64::MAX), 0xcc);
    assert_eq!(ram.load(0), 0xbb);
    assert_eq!(ram.load(1), 0xaa);
    assert_eq!(read_u32(&ram, u64::MAX - 1), 0xaabb_ccdd);
    assert_eq!(field(u64::MAX, 1), 0);
    assert_eq!(field(10, 6), 16);
}

#[test]
fn copy_moves_bytes_between_memories() {
    let mut src = Ram::new();
    let mut dst = Ram::new();
    for i in 0..10u64 {
        src.store(0x500 + i, (i + 1) as u8);
    }
    dst.store(0x900, 0xee);
    dst.store(0x905, 0xee);
    copy(&mut dst, 0x901, &src, 0x502, 4);
    assert_eq!(dst.load(0x900), 0xee);
    assert_eq!(dst.load(0x901), 3);
    assert_eq!(dst.load(0x902), 4);
    assert_eq!(dst.load(0x903), 5);
    assert_eq!(dst.load(0x904), 6);
    assert_eq!(dst.load(0x905), 0xee);
    copy(&mut dst, 0x900, &src, 0x500, 0);
    assert_eq!(dst.load(0x900), 0xee);
}

#[test]
fn sizes_follow_the_width_of_the_machine() {
    assert_eq!(u64_size(0), 0);
    assert_eq!(u64_size(4096), 4096);
    assert_eq!(u64_size(u64::MAX), u64::MAX as usize);
    assert_eq!(i32_size(0), 0);
    assert_eq!(i32_size(7), 7);
    assert_eq!(i32_size(i32::MAX), i32::MAX as usize);
    assert_eq!(i32_size(-1), usize::MAX);
    assert_eq!(i32_size(i32::MIN), usize::MAX - (i32::MAX as usize));
}

#[test]
fn array_sizes_that_do_not_fit_are_an_error() {
    assert_eq!(array_bytes(24, 0), Ok(0));
    assert_eq!(array_bytes(24, 3), Ok(72));
    assert_eq!(array_bytes(4, u32::MAX as usize), Ok(4 * (u32::MAX as usize)));
    assert_eq!(array_bytes(usize::MAX, 1), Ok(usize::MAX));
    assert_eq!(array_bytes(usize::MAX, 2), Err(Error::MulOverflow));
    assert_eq!(array_bytes(1usize << 32, 1usize << 32), Err(Error::MulOverflow));
}
