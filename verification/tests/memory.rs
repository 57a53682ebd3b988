use pxp_rs::buddy_alloc::BuddyAllocatorManager;
use pxp_rs::error::Error;
use pxp_rs::memory::{
    allocate, chunk_size, free, next_power_of_two, step_after, untrusted_mem_alloc, Step,
    LEAF_BLOCK_SIZE, PTR_NULL,
};

const REGION: usize = 0x7000_0000;

#[test]
fn empty_request_is_the_null_pointer() {
    let mut m = BuddyAllocatorManager::new();
    assert_eq!(allocate(&mut m, 0), Ok(PTR_NULL));
    assert_eq!(PTR_NULL, 0);
    assert_eq!(LEAF_BLOCK_SIZE, 16);
}

#[test]
fn request_without_room_names_its_size() {
    let mut m = BuddyAllocatorManager::new();
    assert_eq!(allocate(&mut m, 40), Err(Error::OutOfSpace(40)));
    assert!(m.init(REGION, 64, 16));
    assert_eq!(allocate(&mut m, 65), Err(Error::OutOfSpace(65)));
    assert_eq!(allocate(&mut m, 64), Ok(REGION as u64));
    assert_eq!(allocate(&mut m, 1), Err(Error::OutOfSpace(1)));
}

#[test]
fn free_ignores_null_and_gives_back_the_rest() {
    let mut m = BuddyAllocatorManager::new();
    assert!(m.init(REGION, 64, 16));
    let p = allocate(&mut m, 64).unwrap();
    assert_eq!(free(&mut m, PTR_NULL, 64), Ok(()));
    assert_eq!(allocate(&mut m, 16), Err(Error::OutOfSpace(16)));
    assert_eq!(free(&mut m, p, 64), Ok(()));
    assert_eq!(allocate(&mut m, 64), Ok(p));
    assert_eq!(free(&mut m, 0x1234, 16), Ok(()));
}

#[test]
fn next_power_of_two_rounds_up() {
    assert_eq!(next_power_of_two(0), Some(1));
    assert_eq!(next_power_of_two(1), Some(1));
    assert_eq!(next_power_of_two(2), Some(2));
    assert_eq!(next_power_of_two(3), Some(4));
    assert_eq!(next_power_of_two(1024), Some(1024));
    assert_eq!(next_power_of_two(1025), Some(2048));
    assert_eq!(next_power_of_two((1usize << 63) - 1), Some(1usize << 63));
    assert_eq!(next_power_of_two(1usize << 63), Some(1usize << 63));
    assert_eq!(next_power_of_two((1usize << 63) + 1), None);
    assert_eq!(next_power_of_two(usize::MAX), None);
}

#[test]
fn chunk_is_twice_the_power_of_two_and_two_kilobytes_at_least() {
    assert_eq!(chunk_size(0), Some(2048));
    assert_eq!(chunk_size(1), Some(2048));
    assert_eq!(chunk_size(1024), Some(2048));
    assert_eq!(chunk_size(1025), Some(4096));
    assert_eq!(chunk_size(3000), Some(8192));
    assert_eq!(chunk_size(4096), Some(8192));
    assert_eq!(chunk_size(1usize << 62), Some(1usize << 63));
    assert_eq!(chunk_size((1usize << 62) + 1), None);
    assert_eq!(chunk_size(usize::MAX), None);
}

#[test]
fn new_arena_serves_the_request_that_found_no_room() {
    let mut m = BuddyAllocatorManager::new();
    assert_eq!(allocate(&mut m, 3000), Err(Error::OutOfSpace(3000)));
    assert_eq!(untrusted_mem_alloc(&mut m, 3000, REGION), Ok(()));
    assert_eq!(m.fetch_memory_ranges(), Ok(vec![REGION]));
    assert_eq!(allocate(&mut m, 3000), Ok(REGION as u64));
    assert_eq!(allocate(&mut m, 4096), Ok((REGION + 4096) as u64));
    assert_eq!(allocate(&mut m, 1), Err(Error::OutOfSpace(1)));
    assert_eq!(untrusted_mem_alloc(&mut m, 1, REGION + 8192), Ok(()));
    assert_eq!(allocate(&mut m, 1), Ok((REGION + 8192) as u64));
    assert_eq!(allocate(&mut m, 2048), Err(Error::OutOfSpace(2048)));
    assert_eq!(allocate(&mut m, 1024), Ok((REGION + 8192 + 1024) as u64));
}

#[test]
fn region_that_cannot_be_an_arena_is_refused() {
    let mut m = BuddyAllocatorManager::new();
    assert_eq!(untrusted_mem_alloc(&mut m, 16, REGION), Ok(()));
    assert_eq!(untrusted_mem_alloc(&mut m, 16, REGION + 1024), Err(Error::RegionRefused));
    assert_eq!(untrusted_mem_alloc(&mut m, 16, usize::MAX - 100), Err(Error::RegionRefused));
    assert_eq!(untrusted_mem_alloc(&mut m, 16, 0), Err(Error::RegionRefused));
    assert_eq!(untrusted_mem_alloc(&mut m, usize::MAX, REGION + 4096), Err(Error::MulOverflow));
    assert_eq!(m.fetch_memory_ranges(), Ok(vec![REGION]));
}

#[test]
fn every_error_has_its_message() {
    assert_eq!(Error::MulOverflow.message(), "mul error");
    assert_eq!(Error::IllegalName(9).message(), "the name is illegal");
    assert_eq!(Error::IllegalAction.message(), "the action is illegal");
    assert_eq!(Error::UnsupportedName.message(), "name is not supported");
    assert_eq!(Error::UnsupportedIoctl(77).message(), "unsupported ioctl");
    assert_eq!(Error::OutOfSpace(5).message(), "no arena has room for the request");
    assert_eq!(Error::RegionRefused.message(), "the region cannot be an arena");
    assert_eq!(Error::EndlessChain.message(), "the chain of extensions does not end");
    assert_eq!(format!("{:?}", Error::IllegalName(9)), "IllegalName(9)");
}

#[test]
fn request_without_room_asks_for_a_new_arena_and_other_failures_are_final() {
    assert_eq!(step_after(Ok::<u64, Error>(7)), Step::Done(7));
    assert_eq!(
        step_after(Err::<u64, Error>(Error::OutOfSpace(16))),
        Step::Grow { size: 16, chunk: 2048 }
    );
    assert_eq!(
        step_after(Err::<u64, Error>(Error::OutOfSpace(3000))),
        Step::Grow { size: 3000, chunk: 8192 }
    );
    assert_eq!(
        step_after(Err::<u64, Error>(Error::OutOfSpace(usize::MAX))),
        Step::Fail(Error::MulOverflow)
    );
    assert_eq!(
        step_after(Err::<u64, Error>(Error::UnsupportedIoctl(5))),
        Step::Fail(Error::UnsupportedIoctl(5))
    );
    assert_eq!(step_after(Err::<u64, Error>(Error::IllegalAction)), Step::Fail(Error::IllegalAction));
}

#[test]
fn growing_and_taking_the_step_again_serves_the_request() {
    let mut m = BuddyAllocatorManager::new();
    let region = 0x4000_0000usize;
    let mut grown = 0;
    let ptr = loop {
        match step_after(allocate(&mut m, 5000)) {
            Step::Done(ptr) => break ptr,
            Step::Grow { size, chunk } => {
                assert_eq!((size, chunk), (5000, 16384));
                assert_eq!(untrusted_mem_alloc(&mut m, size, region), Ok(()));
                grown += 1;
            }
            Step::Fail(e) => panic!("{:?}", e),
        }
    };
    assert_eq!(grown, 1);
    assert_eq!(ptr, region as u64);
    assert!(m.owns(ptr as usize));
}
