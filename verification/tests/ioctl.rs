use pxp_rs::buddy_alloc::BuddyAllocatorManager;
use pxp_rs::error::Error;
use pxp_rs::i915::query::drm_i915_query;
use pxp_rs::i915::version::drm_version;
use pxp_rs::i915::{
    drm_default_ioctl, drm_gem_close_t, exec, exec_finish, i915_gem_userptr_ioctl, marshaller_of,
    pxp_ioctl_finish, Call, Deep, Marshaller, DRM_IOCTL_AUTH_MAGIC, DRM_IOCTL_GEM_CLOSE,
    DRM_IOCTL_GET_MAGIC, DRM_IOCTL_I915_GEM_BUSY, DRM_IOCTL_I915_GEM_CONTEXT_CREATE_EXT,
    DRM_IOCTL_I915_GEM_CONTEXT_DESTROY, DRM_IOCTL_I915_GEM_CONTEXT_GETPARAM,
    DRM_IOCTL_I915_GEM_CONTEXT_SETPARAM, DRM_IOCTL_I915_GEM_CREATE_EXT,
    DRM_IOCTL_I915_GEM_EXECBUFFER2, DRM_IOCTL_I915_GEM_EXECBUFFER2_WR,
    DRM_IOCTL_I915_GEM_GET_APERTURE, DRM_IOCTL_I915_GEM_GET_TILING, DRM_IOCTL_I915_GEM_MADVISE,
    DRM_IOCTL_I915_GEM_MMAP, DRM_IOCTL_I915_GEM_MMAP_OFFSET, DRM_IOCTL_I915_GEM_PREAD,
    DRM_IOCTL_I915_GEM_PWRITE, DRM_IOCTL_I915_GEM_SET_DOMAIN, DRM_IOCTL_I915_GEM_SW_FINISH,
    DRM_IOCTL_I915_GEM_USERPTR, DRM_IOCTL_I915_GEM_VM_CREATE, DRM_IOCTL_I915_GEM_VM_DESTROY,
    DRM_IOCTL_I915_GEM_WAIT, DRM_IOCTL_I915_GETPARAM, DRM_IOCTL_I915_GET_PIPE_FROM_CRTC_ID,
    DRM_IOCTL_I915_GET_RESET_STATS, DRM_IOCTL_I915_QUERY, DRM_IOCTL_I915_REG_READ,
    DRM_IOCTL_PRIME_FD_TO_HANDLE, DRM_IOCTL_PRIME_HANDLE_TO_FD, DRM_IOCTL_VERSION,
    PRELIM_DRM_IOCTL_I915_PXP_OPS,
};
use pxp_rs::pxp_ioctl;
use pxp_rs::shadow::Shadow;
use pxp_rs::space::{read_i32, read_u32, read_u64, write_i32, write_u32, write_u64, Memory, Ram};

const ARENA: usize = 0x4000_0000;
const ARENA_SIZE: usize = 64 * 1024;
const T: u64 = 0x1000;

fn host() -> Shadow<Ram> {
    let mut manager = BuddyAllocatorManager::new();
    assert!(manager.init(ARENA, ARENA_SIZE, 16));
    Shadow { manager, memory: Ram::new() }
}

fn fully_free(host: &mut Shadow<Ram>) -> bool {
    host.manager.allocate(ARENA_SIZE, 1) == Ok(ARENA)
}

fn in_arena(addr: u64, len: u64) -> bool {
    addr >= ARENA as u64 && addr + len <= (ARENA + ARENA_SIZE) as u64
}

fn fill(mem: &mut Ram, addr: u64, bytes: &[u8]) {
    for (i, b) in bytes.iter().enumerate() {
        mem.store(addr + i as u64, *b);
    }
}

fn dump(mem: &Ram, addr: u64, len: usize) -> Vec<u8> {
    (0..len).map(|i| mem.load(addr + i as u64)).collect()
}

#[test]
fn gem_close_is_mirrored_and_comes_back_unchanged() {
    let mut host = host();
    let mut trusted = Ram::new();
    write_u32(&mut trusted, T, 42);
    write_u32(&mut trusted, T + 4, 0);
    let call = pxp_ioctl(&mut host, &trusted, 3, DRM_IOCTL_GEM_CLOSE, T).unwrap();
    assert_eq!(
        call,
        Call {
            fd: 3,
            cmd: DRM_IOCTL_GEM_CLOSE,
            arg: T,
            shadow: ARENA as u64,
            marshaller: Marshaller::Shallow(8),
        }
    );
    assert_eq!(drm_gem_close_t::load(&host.memory, call.shadow), drm_gem_close_t { handle: 42, pad: 0 });
    assert_eq!(pxp_ioctl_finish(&mut host, &mut trusted, &call, 0), Ok(0));
    assert_eq!(drm_gem_close_t::load(&trusted, T), drm_gem_close_t { handle: 42, pad: 0 });
    assert!(fully_free(&mut host));
}

#[test]
fn driver_return_code_passes_through() {
    let mut host = host();
    let mut trusted = Ram::new();
    write_u32(&mut trusted, T, 42);
    for ret in [0, -1, -22, 7, i32::MIN, i32::MAX] {
        let call = pxp_ioctl(&mut host, &trusted, 3, DRM_IOCTL_GEM_CLOSE, T).unwrap();
        assert_eq!(pxp_ioctl_finish(&mut host, &mut trusted, &call, ret), Ok(ret));
    }
    assert!(fully_free(&mut host));
}

#[test]
fn shallow_results_land_in_the_trusted_argument() {
    let mut host = host();
    let mut trusted = Ram::new();
    write_u64(&mut trusted, T, 0);
    write_u64(&mut trusted, T + 8, 0);
    trusted.store(T + 16, 0x77);
    let call = pxp_ioctl(&mut host, &trusted, 3, DRM_IOCTL_I915_GEM_GET_APERTURE, T).unwrap();
    assert_eq!(call.marshaller, Marshaller::Shallow(16));
    write_u64(&mut host.memory, call.shadow, 0x1_0000_0000);
    write_u64(&mut host.memory, call.shadow + 8, 0xf000_0000);
    write_u64(&mut host.memory, call.shadow + 16, 0xdead);
    assert_eq!(pxp_ioctl_finish(&mut host, &mut trusted, &call, 0), Ok(0));
    assert_eq!(read_u64(&trusted, T), 0x1_0000_0000);
    assert_eq!(read_u64(&trusted, T + 8), 0xf000_0000);
    assert_eq!(trusted.load(T + 16), 0x77);
    assert!(fully_free(&mut host));
}

#[test]
fn unknown_command_is_refused_and_nothing_is_touched() {
    let mut host = host();
    let trusted = Ram::new();
    assert_eq!(pxp_ioctl(&mut host, &trusted, 3, 0x1234, T), Err(Error::UnsupportedIoctl(0x1234)));
    assert_eq!(pxp_ioctl(&mut host, &trusted, 3, 0, T), Err(Error::UnsupportedIoctl(0)));
    assert_eq!(drm_default_ioctl(3, 99, T), Err(Error::UnsupportedIoctl(99)));
    assert_eq!(marshaller_of(0x1234), None);
    assert!(fully_free(&mut host));
}

#[test]
fn every_command_has_its_marshaller() {
    let shallow = [
        (DRM_IOCTL_GEM_CLOSE, 8usize),
        (DRM_IOCTL_GET_MAGIC, 4),
        (DRM_IOCTL_AUTH_MAGIC, 4),
        (DRM_IOCTL_I915_GEM_MMAP_OFFSET, 32),
        (DRM_IOCTL_I915_GET_RESET_STATS, 24),
        (DRM_IOCTL_I915_GEM_GET_APERTURE, 16),
        (DRM_IOCTL_I915_GEM_SET_DOMAIN, 12),
        (DRM_IOCTL_I915_GEM_USERPTR, 24),
        (DRM_IOCTL_I915_GEM_GET_TILING, 16),
        (DRM_IOCTL_I915_GEM_WAIT, 16),
        (DRM_IOCTL_I915_GEM_CONTEXT_DESTROY, 8),
        (DRM_IOCTL_I915_REG_READ, 16),
        (DRM_IOCTL_I915_GEM_BUSY, 8),
        (DRM_IOCTL_PRIME_HANDLE_TO_FD, 12),
        (DRM_IOCTL_PRIME_FD_TO_HANDLE, 12),
        (DRM_IOCTL_I915_GET_PIPE_FROM_CRTC_ID, 8),
        (DRM_IOCTL_I915_GEM_SW_FINISH, 4),
        (DRM_IOCTL_I915_GEM_MADVISE, 12),
        (DRM_IOCTL_I915_GEM_MMAP, 40),
    ];
    for (cmd, size) in shallow {
        assert_eq!(marshaller_of(cmd), Some(Marshaller::Shallow(size)));
        assert_eq!(((cmd >> 16) & 0x3fff) as usize, size);
    }
    let deep = [
        (PRELIM_DRM_IOCTL_I915_PXP_OPS, Deep::PxpOps),
        (DRM_IOCTL_I915_GEM_CREATE_EXT, Deep::GemCreateExt),
        (DRM_IOCTL_I915_QUERY, Deep::Query),
        (DRM_IOCTL_I915_GEM_CONTEXT_GETPARAM, Deep::ContextParam),
        (DRM_IOCTL_I915_GEM_CONTEXT_SETPARAM, Deep::ContextParam),
        (DRM_IOCTL_VERSION, Deep::Version),
        (DRM_IOCTL_I915_GETPARAM, Deep::GetParam),
        (DRM_IOCTL_I915_GEM_CONTEXT_CREATE_EXT, Deep::ContextCreateExt),
        (DRM_IOCTL_I915_GEM_VM_CREATE, Deep::VmControl),
        (DRM_IOCTL_I915_GEM_VM_DESTROY, Deep::VmControl),
        (DRM_IOCTL_I915_GEM_EXECBUFFER2_WR, Deep::ExecBuffer2),
        (DRM_IOCTL_I915_GEM_EXECBUFFER2, Deep::ExecBuffer2),
        (DRM_IOCTL_I915_GEM_PREAD, Deep::Pread),
        (DRM_IOCTL_I915_GEM_PWRITE, Deep::Pwrite),
    ];
    for (cmd, kind) in deep {
        assert_eq!(marshaller_of(cmd), Some(Marshaller::Deep(kind)));
        assert_eq!(((cmd >> 16) & 0x3fff) as usize, kind.size_of());
    }
}

#[test]
fn shallow_halves_copy_exactly_the_size_of_the_argument() {
    let mut host = host();
    let mut trusted = Ram::new();
    fill(&mut trusted, T, &[1, 2, 3, 4, 5, 6, 7, 8, 9, 10, 11, 12, 13]);
    let shadow = exec(&mut host, &trusted, 12, T).unwrap();
    assert_eq!(dump(&host.memory, shadow, 13), vec![1, 2, 3, 4, 5, 6, 7, 8, 9, 10, 11, 12, 0]);
    fill(&mut host.memory, shadow, &[9; 13]);
    assert_eq!(exec_finish(&mut host, &mut trusted, 12, T, shadow), Ok(()));
    assert_eq!(dump(&trusted, T, 13), vec![9, 9, 9, 9, 9, 9, 9, 9, 9, 9, 9, 9, 13]);
    assert!(fully_free(&mut host));
}

#[test]
fn userptr_argument_is_copied_as_it_stands() {
    let mut host = host();
    let mut trusted = Ram::new();
    write_u64(&mut trusted, T, 0x7fff_0000_1000);
    write_u64(&mut trusted, T + 8, 0x2000);
    write_u32(&mut trusted, T + 16, 1);
    let shadow = i915_gem_userptr_ioctl(&mut host, &trusted, T).unwrap();
    assert_eq!(read_u64(&host.memory, shadow), 0x7fff_0000_1000);
    assert_eq!(read_u64(&host.memory, shadow + 8), 0x2000);
    write_u32(&mut host.memory, shadow + 20, 5);
    assert_eq!(exec_finish(&mut host, &mut trusted, 24, T, shadow), Ok(()));
    assert_eq!(read_u32(&trusted, T + 20), 5);
    assert_eq!(read_u64(&trusted, T), 0x7fff_0000_1000);
    assert!(fully_free(&mut host));
}

#[test]
fn request_without_room_is_reported_and_leaves_no_trace() {
    let mut manager = BuddyAllocatorManager::new();
    assert!(manager.init(ARENA, 64, 16));
    let mut host = Shadow { manager, memory: Ram::new() };
    let mut trusted = Ram::new();
    write_u64(&mut trusted, T + 16, 100);
    assert_eq!(
        pxp_ioctl(&mut host, &trusted, 3, DRM_IOCTL_VERSION, T),
        Err(Error::OutOfSpace(100))
    );
    assert_eq!(host.manager.allocate(64, 1), Ok(ARENA));
    host.manager.dealloc(ARENA, 64, 1);
    write_u64(&mut trusted, T + 16, 16);
    write_u64(&mut trusted, T + 32, 16);
    assert_eq!(
        pxp_ioctl(&mut host, &trusted, 3, DRM_IOCTL_VERSION, T),
        Err(Error::OutOfSpace(16))
    );
    assert_eq!(host.manager.allocate(64, 1), Ok(ARENA));
    host.manager.dealloc(ARENA, 64, 1);
    assert_eq!(
        pxp_ioctl(&mut host, &trusted, 3, DRM_IOCTL_I915_GEM_MMAP, T),
        Ok(Call {
            fd: 3,
            cmd: DRM_IOCTL_I915_GEM_MMAP,
            arg: T,
            shadow: ARENA as u64,
            marshaller: Marshaller::Shallow(40),
        })
    );
    assert_eq!(
        pxp_ioctl(&mut host, &trusted, 3, DRM_IOCTL_GEM_CLOSE, T),
        Err(Error::OutOfSpace(8))
    );
}

fn version_driver(mem: &mut Ram, shadow: u64) {
    let name = b"i915";
    let date = b"20201103";
    let desc = b"Intel";
    write_i32(mem, shadow, 1);
    write_i32(mem, shadow + 4, 6);
    write_i32(mem, shadow + 8, 0);
    for (len_off, ptr_off, text) in [(16u64, 24u64, &name[..]), (32, 40, &date[..]), (48, 56, &desc[..])] {
        let room = read_u64(mem, shadow + len_off) as usize;
        let ptr = read_u64(mem, shadow + ptr_off);
        let n = room.min(text.len());
        fill(mem, ptr, &text[..n]);
        write_u64(mem, shadow + len_off, text.len() as u64);
    }
}

#[test]
fn version_asks_for_lengths_then_for_texts() {
    let mut host = host();
    let mut trusted = Ram::new();
    let (name, date, desc) = (0x2000u64, 0x2100u64, 0x2200u64);
    write_u64(&mut trusted, T + 24, name);
    write_u64(&mut trusted, T + 40, date);
    write_u64(&mut trusted, T + 56, desc);
    fill(&mut trusted, name, b"????");

    let call = pxp_ioctl(&mut host, &trusted, 3, DRM_IOCTL_VERSION, T).unwrap();
    assert_eq!(call.marshaller, Marshaller::Deep(Deep::Version));
    assert_eq!(read_u64(&host.memory, call.shadow + 24), 0);
    assert_eq!(read_u64(&host.memory, call.shadow + 40), 0);
    assert_eq!(read_u64(&host.memory, call.shadow + 56), 0);
    version_driver(&mut host.memory, call.shadow);
    assert_eq!(pxp_ioctl_finish(&mut host, &mut trusted, &call, 0), Ok(0));
    let first = drm_version::load(&trusted, T);
    assert_eq!((first.version_major, first.version_minor, first.version_patchlevel), (1, 6, 0));
    assert_eq!((first.name_len, first.date_len, first.desc_len), (4, 8, 5));
    assert_eq!((first.name, first.date, first.desc), (name, date, desc));
    assert_eq!(dump(&trusted, name, 4), b"????".to_vec());
    assert!(fully_free(&mut host));
    host.manager.dealloc(ARENA, ARENA_SIZE, 1);

    let call = pxp_ioctl(&mut host, &trusted, 3, DRM_IOCTL_VERSION, T).unwrap();
    let shadow = drm_version::load(&host.memory, call.shadow);
    assert_eq!((shadow.name_len, shadow.date_len, shadow.desc_len), (4, 8, 5));
    assert!(in_arena(shadow.name, 4) && in_arena(shadow.date, 8) && in_arena(shadow.desc, 5));
    assert_eq!(dump(&host.memory, shadow.name, 4), b"????".to_vec());
    version_driver(&mut host.memory, call.shadow);
    assert_eq!(pxp_ioctl_finish(&mut host, &mut trusted, &call, 0), Ok(0));
    let second = drm_version::load(&trusted, T);
    assert_eq!((second.name_len, second.date_len, second.desc_len), (4, 8, 5));
    assert_eq!((second.name, second.date, second.desc), (name, date, desc));
    assert_eq!(dump(&trusted, name, 4), b"i915".to_vec());
    assert_eq!(dump(&trusted, date, 8), b"20201103".to_vec());
    assert_eq!(dump(&trusted, desc, 5), b"Intel".to_vec());
    assert!(fully_free(&mut host));
}

fn query_driver(mem: &mut Ram, shadow: u64) {
    let answer: Vec<u8> = (0..56u8).map(|i| i ^ 0x5a).collect();
    let q = drm_i915_query::load(mem, shadow);
    for i in 0..q.num_items as u64 {
        let item = q.items_ptr + 24 * i;
        let length = read_i32(mem, item + 8);
        if length == 0 {
            write_i32(mem, item + 8, answer.len() as i32);
        } else {
            let data = read_u64(mem, item + 16);
            fill(mem, data, &answer[..(length as usize).min(answer.len())]);
        }
    }
}

#[test]
fn query_asks_for_the_length_then_for_the_answer() {
    let mut host = host();
    let mut trusted = Ram::new();
    let items = 0x3000u64;
    let data = 0x3800u64;
    write_u32(&mut trusted, T, 1);
    write_u32(&mut trusted, T + 4, 0);
    write_u64(&mut trusted, T + 8, items);
    write_u64(&mut trusted, items, 1);
    write_i32(&mut trusted, items + 8, 0);
    write_u32(&mut trusted, items + 12, 0);
    write_u64(&mut trusted, items + 16, data);

    let call = pxp_ioctl(&mut host, &trusted, 3, DRM_IOCTL_I915_QUERY, T).unwrap();
    let shadow = drm_i915_query::load(&host.memory, call.shadow);
    assert_eq!((shadow.num_items, shadow.flags), (1, 0));
    assert!(in_arena(shadow.items_ptr, 24));
    assert_eq!(read_u64(&host.memory, shadow.items_ptr), 1);
    assert_eq!(read_u64(&host.memory, shadow.items_ptr + 16), 0);
    query_driver(&mut host.memory, call.shadow);
    assert_eq!(pxp_ioctl_finish(&mut host, &mut trusted, &call, 0), Ok(0));
    assert_eq!(read_i32(&trusted, items + 8), 56);
    assert_eq!(read_u64(&trusted, items + 16), data);
    assert_eq!(read_u64(&trusted, T + 8), items);
    assert_eq!(dump(&trusted, data, 4), vec![0, 0, 0, 0]);
    assert!(fully_free(&mut host));
    host.manager.dealloc(ARENA, ARENA_SIZE, 1);

    let call = pxp_ioctl(&mut host, &trusted, 3, DRM_IOCTL_I915_QUERY, T).unwrap();
    let shadow = drm_i915_query::load(&host.memory, call.shadow);
    let shadow_data = read_u64(&host.memory, shadow.items_ptr + 16);
    assert!(in_arena(shadow_data, 56));
    assert_eq!(read_i32(&host.memory, shadow.items_ptr + 8), 56);
    query_driver(&mut host.memory, call.shadow);
    assert_eq!(pxp_ioctl_finish(&mut host, &mut trusted, &call, 0), Ok(0));
    let answer: Vec<u8> = (0..56u8).map(|i| i ^ 0x5a).collect();
    assert_eq!(dump(&trusted, data, 56), answer);
    assert_eq!(read_i32(&trusted, items + 8), 56);
    assert_eq!(read_u64(&trusted, items + 16), data);
    assert!(fully_free(&mut host));
}

#[test]
fn create_ext_mirrors_the_chain_and_the_array_of_a_parameter() {
    let mut host = host();
    let mut trusted = Ram::new();
    let ext = 0x5000u64;
    let data = 0x5800u64;
    write_u64(&mut trusted, T, 4096);
    write_u32(&mut trusted, T + 8, 0);
    write_u32(&mut trusted, T + 12, 0);
    write_u64(&mut trusted, T + 16, ext);
    write_u64(&mut trusted, ext, 0);
    write_u32(&mut trusted, ext + 8, 1);
    write_u32(&mut trusted, ext + 12, 0);
    write_u32(&mut trusted, ext + 32, 0);
    write_u32(&mut trusted, ext + 36, 3);
    write_u64(&mut trusted, ext + 40, 0x1_0000_0001);
    write_u64(&mut trusted, ext + 48, data);
    let regions = [1u8, 0, 0, 0, 1, 0, 1, 0, 0, 0, 0, 0];
    fill(&mut trusted, data, &regions);

    let call = pxp_ioctl(&mut host, &trusted, 3, DRM_IOCTL_I915_GEM_CREATE_EXT, T).unwrap();
    let s = call.shadow;
    assert_eq!(read_u64(&host.memory, s), 4096);
    let node = read_u64(&host.memory, s + 16);
    assert!(in_arena(node, 56));
    assert_eq!(read_u64(&host.memory, node), 0);
    assert_eq!(read_u32(&host.memory, node + 8), 1);
    assert_eq!(read_u32(&host.memory, node + 36), 3);
    assert_eq!(read_u64(&host.memory, node + 40), 0x1_0000_0001);
    let array = read_u64(&host.memory, node + 48);
    assert!(in_arena(array, 12));
    assert_eq!(dump(&host.memory, array, 12), regions.to_vec());
    write_u32(&mut host.memory, s + 8, 7);
    assert_eq!(pxp_ioctl_finish(&mut host, &mut trusted, &call, 0), Ok(0));
    assert_eq!(read_u32(&trusted, T + 8), 7);
    assert_eq!(read_u64(&trusted, T), 4096);
    assert_eq!(read_u64(&trusted, T + 16), ext);
    assert_eq!(read_u64(&trusted, ext + 48), data);
    assert_eq!(read_u64(&trusted, ext), 0);
    assert_eq!(dump(&trusted, data, 12), regions.to_vec());
    assert!(fully_free(&mut host));
}

#[test]
fn pxp_message_goes_out_whole_and_comes_back_as_long_as_the_answer() {
    let mut host = host();
    let mut trusted = Ram::new();
    let params = 0x6000u64;
    let msg_in = 0x6100u64;
    let msg_out = 0x6200u64;
    write_u32(&mut trusted, T, 1);
    write_u32(&mut trusted, T + 4, 0);
    write_u64(&mut trusted, T + 8, params);
    write_u64(&mut trusted, params, msg_in);
    write_u32(&mut trusted, params + 8, 8);
    write_u64(&mut trusted, params + 12, msg_out);
    write_u32(&mut trusted, params + 20, 16);
    write_u32(&mut trusted, params + 24, 0);
    fill(&mut trusted, msg_in, &[1, 2, 3, 4, 5, 6, 7, 8]);
    fill(&mut trusted, msg_out, &[0xaa; 16]);

    let call = pxp_ioctl(&mut host, &trusted, 3, PRELIM_DRM_IOCTL_I915_PXP_OPS, T).unwrap();
    let s = call.shadow;
    assert_eq!(read_u32(&host.memory, s), 1);
    let p = read_u64(&host.memory, s + 8);
    assert!(in_arena(p, 28));
    let u_in = read_u64(&host.memory, p);
    let u_out = read_u64(&host.memory, p + 12);
    assert!(in_arena(u_in, 8) && in_arena(u_out, 16));
    assert_eq!(read_u32(&host.memory, p + 8), 8);
    assert_eq!(read_u32(&host.memory, p + 20), 16);
    assert_eq!(dump(&host.memory, u_in, 8), vec![1, 2, 3, 4, 5, 6, 7, 8]);
    assert_eq!(dump(&host.memory, u_out, 16), vec![0xaa; 16]);

    fill(&mut host.memory, u_out, &[0x11; 16]);
    write_u32(&mut host.memory, p + 24, 5);
    write_u32(&mut host.memory, s + 4, 0);
    assert_eq!(pxp_ioctl_finish(&mut host, &mut trusted, &call, 0), Ok(0));
    assert_eq!(read_u32(&trusted, params + 24), 5);
    assert_eq!(read_u64(&trusted, params), msg_in);
    assert_eq!(read_u64(&trusted, params + 12), msg_out);
    assert_eq!(read_u64(&trusted, T + 8), params);
    let mut expected = vec![0x11u8; 5];
    expected.extend_from_slice(&[0xaa; 11]);
    assert_eq!(dump(&trusted, msg_out, 16), expected);
    assert_eq!(dump(&trusted, msg_in, 8), vec![1, 2, 3, 4, 5, 6, 7, 8]);
    assert!(fully_free(&mut host));
}

#[test]
fn loopback_leaves_the_trusted_argument_as_it_was() {
    let commands = [
        DRM_IOCTL_GEM_CLOSE,
        DRM_IOCTL_I915_GEM_MMAP,
        DRM_IOCTL_I915_GEM_WAIT,
        DRM_IOCTL_I915_GET_RESET_STATS,
        DRM_IOCTL_I915_GEM_USERPTR,
    ];
    for cmd in commands {
        let mut host = host();
        let mut trusted = Ram::new();
        let image: Vec<u8> = (0..48u8).map(|i| i.wrapping_mul(37).wrapping_add(11)).collect();
        fill(&mut trusted, T, &image);
        let call = pxp_ioctl(&mut host, &trusted, 3, cmd, T).unwrap();
        assert_eq!(pxp_ioctl_finish(&mut host, &mut trusted, &call, 0), Ok(0));
        assert_eq!(dump(&trusted, T, 48), image);
        assert!(fully_free(&mut host));
    }
}
