use pxp_rs::buddy_alloc::BuddyAllocatorManager;
use pxp_rs::error::Error;
use pxp_rs::i915::chain::i915_user_extension;
use pxp_rs::i915::context::{
    drm_i915_gem_context_create_ext, drm_i915_gem_context_param, i915_context_param_engines,
    Value,
};
use pxp_rs::i915::create_ext::prelim_drm_i915_gem_create_ext;
use pxp_rs::i915::pxp::prelim_drm_i915_pxp_ops;
use pxp_rs::i915::query::drm_i915_query;
use pxp_rs::i915::vm::drm_i915_gem_vm_control;
use pxp_rs::i915::{
    exec2, exec2_finish, pxp_ioctl_finish, Deep, Direction, DRM_IOCTL_I915_GEM_CONTEXT_CREATE_EXT,
    DRM_IOCTL_I915_GEM_CONTEXT_GETPARAM, DRM_IOCTL_I915_GEM_CONTEXT_SETPARAM,
    DRM_IOCTL_I915_GEM_CREATE_EXT, DRM_IOCTL_I915_GEM_EXECBUFFER2, DRM_IOCTL_I915_GEM_PREAD,
    DRM_IOCTL_I915_GEM_PWRITE, DRM_IOCTL_I915_GEM_VM_CREATE, DRM_IOCTL_I915_GETPARAM,
    DRM_IOCTL_I915_QUERY, PRELIM_DRM_IOCTL_I915_PXP_OPS,
};
use pxp_rs::pxp_ioctl;
use pxp_rs::shadow::Shadow;
use pxp_rs::space::{
    read_i32, read_u16, read_u32, read_u64, write_i32, write_u32, write_u64, Memory, Ram,
};

const ARENA: usize = 0x4000_0000;
const ARENA_SIZE: usize = 64 * 1024;
const T: u64 = 0x1000;

fn shadow_host() -> Shadow<Ram> {
    let mut manager = BuddyAllocatorManager::new();
    assert!(manager.init(ARENA, ARENA_SIZE, 16));
    Shadow { manager, memory: Ram::new() }
}

fn all_free(host: &mut Shadow<Ram>) -> bool {
    host.manager.allocate(ARENA_SIZE, 1) == Ok(ARENA)
}

fn inside(addr: u64, len: u64) -> bool {
    addr >= ARENA as u64 && addr + len <= (ARENA + ARENA_SIZE) as u64
}

fn put(mem: &mut Ram, addr: u64, bytes: &[u8]) {
    for (i, b) in bytes.iter().enumerate() {
        mem.store(addr + i as u64, *b);
    }
}

fn get(mem: &Ram, addr: u64, len: usize) -> Vec<u8> {
    (0..len).map(|i| mem.load(addr + i as u64)).collect()
}

fn write_u16(mem: &mut Ram, addr: u64, v: u16) {
    mem.store(addr, (v & 0xff) as u8);
    mem.store(addr + 1, (v >> 8) as u8);
}

#[test]
fn sizes_of_parameters_and_extensions() {
    assert_eq!(prelim_drm_i915_pxp_ops::sizeof(0), Ok(16));
    assert_eq!(prelim_drm_i915_pxp_ops::sizeof(1), Ok(28));
    assert_eq!(prelim_drm_i915_pxp_ops::sizeof(2), Ok(8));
    assert_eq!(prelim_drm_i915_pxp_ops::sizeof(3), Err(Error::IllegalAction));
    assert_eq!(prelim_drm_i915_gem_create_ext::sizeof(1), Ok(56));
    assert_eq!(prelim_drm_i915_gem_create_ext::sizeof(2), Ok(40));
    assert_eq!(prelim_drm_i915_gem_create_ext::sizeof(3), Ok(40));
    assert_eq!(prelim_drm_i915_gem_create_ext::sizeof(0), Err(Error::IllegalName(0)));
    assert_eq!(prelim_drm_i915_gem_create_ext::sizeof(4), Err(Error::IllegalName(4)));
    assert_eq!(drm_i915_gem_context_create_ext::sizeof(0), Ok(56));
    assert_eq!(drm_i915_gem_context_create_ext::sizeof(1), Err(Error::UnsupportedName));
    assert_eq!(drm_i915_gem_vm_control::sizeof(0), Ok(40));
    assert_eq!(drm_i915_gem_vm_control::sizeof(1), Err(Error::UnsupportedName));
    assert_eq!(drm_i915_query::items_size(0), Ok(0));
    assert_eq!(drm_i915_query::items_size(3), Ok(72));
    assert_eq!(drm_i915_query::items_size(u32::MAX), Ok(24 * (u32::MAX as usize)));
    assert_eq!(
        [
            Deep::PxpOps.size_of(),
            Deep::GemCreateExt.size_of(),
            Deep::Query.size_of(),
            Deep::ContextParam.size_of(),
            Deep::Version.size_of(),
            Deep::GetParam.size_of(),
            Deep::ContextCreateExt.size_of(),
            Deep::VmControl.size_of(),
            Deep::ExecBuffer2.size_of(),
            Deep::Pread.size_of(),
            Deep::Pwrite.size_of(),
        ],
        [16, 24, 16, 24, 64, 16, 16, 16, 64, 32, 32]
    );
}

#[test]
fn engine_extensions_are_as_long_as_their_engines() {
    let mut mem = Ram::new();
    let ext = 0x800u64;
    write_u32(&mut mem, ext + 8, 0);
    write_u16(&mut mem, ext + 34, 3);
    assert_eq!(i915_context_param_engines::sizeof(&mem, ext), Ok(48 + 12));
    write_u32(&mut mem, ext + 8, 0xabcd_0000);
    assert_eq!(i915_context_param_engines::sizeof(&mem, ext), Ok(60));
    write_u32(&mut mem, ext + 8, 1);
    write_u16(&mut mem, ext + 38, 5);
    assert_eq!(i915_context_param_engines::sizeof(&mem, ext), Ok(80 + 20));
    write_u32(&mut mem, ext + 8, 2);
    write_u16(&mut mem, ext + 36, 4);
    write_u16(&mut mem, ext + 34, 3);
    assert_eq!(i915_context_param_engines::sizeof(&mem, ext), Ok(72 + 4 * 4 * 3));
    write_u32(&mut mem, ext + 8, 3);
    assert_eq!(i915_context_param_engines::sizeof(&mem, ext), Ok(72 + 48));
    write_u16(&mut mem, ext + 36, 0xffff);
    write_u16(&mut mem, ext + 34, 0xffff);
    assert_eq!(i915_context_param_engines::sizeof(&mem, ext), Ok(72 + 4 * 65535 * 65535));
    write_u32(&mut mem, ext + 8, 4);
    assert_eq!(i915_context_param_engines::sizeof(&mem, ext), Err(Error::UnsupportedName));
    assert_eq!(read_u16(&mem, ext + 36), 0xffff);
}

#[test]
fn header_copy_keeps_the_place_in_the_chain() {
    let mut src = Ram::new();
    let mut dst = Ram::new();
    write_u64(&mut src, 0x100, 0xdead_beef);
    put(&mut src, 0x108, &[7; 24]);
    put(&mut src, 0x120, &[9; 4]);
    write_u64(&mut dst, 0x900, 0x1234);
    i915_user_extension::copy(&mut dst, 0x900, &src, 0x100);
    assert_eq!(read_u64(&dst, 0x900), 0x1234);
    assert_eq!(get(&dst, 0x908, 24), vec![7; 24]);
    assert_eq!(get(&dst, 0x920, 4), vec![0; 4]);
    i915_user_extension::init(&mut dst, 0x900);
    assert_eq!(read_u64(&dst, 0x900), 0);
    assert_eq!(get(&dst, 0x908, 24), vec![7; 24]);
}

#[test]
fn illegal_action_stops_the_call_and_gives_everything_back() {
    let mut host = shadow_host();
    let mut trusted = Ram::new();
    write_u32(&mut trusted, T, 9);
    assert_eq!(
        pxp_ioctl(&mut host, &trusted, 3, PRELIM_DRM_IOCTL_I915_PXP_OPS, T),
        Err(Error::IllegalAction)
    );
    assert!(all_free(&mut host));
}

#[test]
fn pxp_plain_parameters_travel_both_ways() {
    for (action, size) in [(0u32, 16usize), (2, 8)] {
        let mut host = shadow_host();
        let mut trusted = Ram::new();
        let params = 0x6000u64;
        write_u32(&mut trusted, T, action);
        write_u32(&mut trusted, T + 4, 0);
        write_u64(&mut trusted, T + 8, params);
        let image: Vec<u8> = (1..=16u8).collect();
        put(&mut trusted, params, &image);
        let call = pxp_ioctl(&mut host, &trusted, 3, PRELIM_DRM_IOCTL_I915_PXP_OPS, T).unwrap();
        let p = read_u64(&host.memory, call.shadow + 8);
        assert!(inside(p, size as u64));
        assert_eq!(get(&host.memory, p, size), image[..size].to_vec());
        put(&mut host.memory, p, &[0xcc; 16]);
        write_u32(&mut host.memory, call.shadow + 4, 3);
        assert_eq!(pxp_ioctl_finish(&mut host, &mut trusted, &call, 0), Ok(0));
        let mut expected = vec![0xcc; size];
        expected.extend_from_slice(&image[size..]);
        assert_eq!(get(&trusted, params, 16), expected);
        assert_eq!(read_u32(&trusted, T + 4), 3);
        assert_eq!(read_u64(&trusted, T + 8), params);
        assert!(all_free(&mut host));
    }
}

#[test]
fn illegal_name_stops_the_creation_of_a_buffer_object() {
    let mut host = shadow_host();
    let mut trusted = Ram::new();
    let first = 0x5000u64;
    let second = 0x5100u64;
    write_u64(&mut trusted, T + 16, first);
    write_u64(&mut trusted, first, second);
    write_u32(&mut trusted, first + 8, 2);
    write_u64(&mut trusted, second, 0);
    write_u32(&mut trusted, second + 8, 0x1_0009);
    assert_eq!(
        pxp_ioctl(&mut host, &trusted, 3, DRM_IOCTL_I915_GEM_CREATE_EXT, T),
        Err(Error::IllegalName(9))
    );
    assert!(all_free(&mut host));
}

#[test]
fn create_ext_chain_of_plain_extensions_keeps_its_own_links() {
    let mut host = shadow_host();
    let mut trusted = Ram::new();
    let first = 0x5000u64;
    let second = 0x5100u64;
    write_u64(&mut trusted, T, 8192);
    write_u64(&mut trusted, T + 16, first);
    write_u64(&mut trusted, first, second);
    write_u32(&mut trusted, first + 8, 0x7_0002);
    write_u32(&mut trusted, first + 32, 11);
    write_u64(&mut trusted, second, 0);
    write_u32(&mut trusted, second + 8, 3);
    write_u32(&mut trusted, second + 32, 1);
    let call = pxp_ioctl(&mut host, &trusted, 3, DRM_IOCTL_I915_GEM_CREATE_EXT, T).unwrap();
    let a = read_u64(&host.memory, call.shadow + 16);
    let b = read_u64(&host.memory, a);
    assert!(inside(a, 40) && inside(b, 40));
    assert!(a + 40 <= b || b + 40 <= a);
    assert_eq!(read_u64(&host.memory, b), 0);
    assert_eq!(read_u32(&host.memory, a + 8), 0x7_0002);
    assert_eq!(read_u32(&host.memory, a + 32), 11);
    assert_eq!(read_u32(&host.memory, b + 8), 3);
    assert_eq!(read_u32(&host.memory, b + 32), 1);
    write_u32(&mut host.memory, call.shadow + 8, 5);
    assert_eq!(pxp_ioctl_finish(&mut host, &mut trusted, &call, 0), Ok(0));
    assert_eq!(read_u32(&trusted, T + 8), 5);
    assert_eq!(read_u64(&trusted, T + 16), first);
    assert_eq!(read_u64(&trusted, first), second);
    assert_eq!(read_u64(&trusted, second), 0);
    assert_eq!(read_u32(&trusted, first + 32), 11);
    assert!(all_free(&mut host));
}

#[test]
fn copying_a_chain_twice_gives_the_same_image() {
    let mut host = shadow_host();
    let mut trusted = Ram::new();
    let first = 0x5000u64;
    let second = 0x5100u64;
    write_u64(&mut trusted, T + 16, first);
    write_u64(&mut trusted, first, second);
    write_u32(&mut trusted, first + 8, 2);
    write_u32(&mut trusted, first + 32, 11);
    write_u32(&mut trusted, second + 8, 3);
    let shadow = exec2(&mut host, &trusted, Deep::GemCreateExt, T).unwrap();
    let a = read_u64(&host.memory, shadow + 16);
    let b = read_u64(&host.memory, a);
    let once: Vec<Vec<u8>> =
        vec![get(&host.memory, shadow, 24), get(&host.memory, a, 40), get(&host.memory, b, 40)];
    assert_eq!(
        prelim_drm_i915_gem_create_ext::copy(&mut host.memory, shadow, &trusted, T, Direction::t2u),
        Ok(())
    );
    let twice: Vec<Vec<u8>> =
        vec![get(&host.memory, shadow, 24), get(&host.memory, a, 40), get(&host.memory, b, 40)];
    assert_eq!(once, twice);
    assert_eq!(exec2_finish(&mut host, &mut trusted, Deep::GemCreateExt, T, shadow), Ok(()));
    assert!(all_free(&mut host));
}

#[test]
fn getparam_value_comes_back() {
    let mut host = shadow_host();
    let mut trusted = Ram::new();
    let value = 0x2000u64;
    write_u32(&mut trusted, T, 4);
    write_u64(&mut trusted, T + 8, value);
    write_i32(&mut trusted, value, -1);
    let call = pxp_ioctl(&mut host, &trusted, 3, DRM_IOCTL_I915_GETPARAM, T).unwrap();
    let v = read_u64(&host.memory, call.shadow + 8);
    assert!(inside(v, 4));
    assert_eq!(read_u32(&host.memory, call.shadow), 4);
    assert_eq!(read_i32(&host.memory, v), -1);
    write_i32(&mut host.memory, v, 0x9a49);
    assert_eq!(pxp_ioctl_finish(&mut host, &mut trusted, &call, 0), Ok(0));
    assert_eq!(read_i32(&trusted, value), 0x9a49);
    assert_eq!(read_u64(&trusted, T + 8), value);
    assert!(all_free(&mut host));
}

#[test]
fn context_parameter_held_inline_takes_size_and_value_back() {
    let mut host = shadow_host();
    let mut trusted = Ram::new();
    write_u32(&mut trusted, T, 1);
    write_u32(&mut trusted, T + 4, 0);
    write_u64(&mut trusted, T + 8, 6);
    write_u64(&mut trusted, T + 16, 0);
    let call = pxp_ioctl(&mut host, &trusted, 3, DRM_IOCTL_I915_GEM_CONTEXT_GETPARAM, T).unwrap();
    assert_eq!(
        drm_i915_gem_context_param::load(&host.memory, call.shadow),
        drm_i915_gem_context_param { ctx_id: 1, size: 0, param: 6, value: 0 }
    );
    write_u64(&mut host.memory, call.shadow + 16, 1023);
    write_u64(&mut host.memory, call.shadow + 8, 99);
    assert_eq!(pxp_ioctl_finish(&mut host, &mut trusted, &call, 0), Ok(0));
    assert_eq!(
        drm_i915_gem_context_param::load(&trusted, T),
        drm_i915_gem_context_param { ctx_id: 1, size: 0, param: 6, value: 1023 }
    );
    assert!(all_free(&mut host));
}

#[test]
fn context_parameter_with_a_buffer_is_mirrored() {
    let mut host = shadow_host();
    let mut trusted = Ram::new();
    let buffer = 0x2400u64;
    write_u32(&mut trusted, T, 1);
    write_u32(&mut trusted, T + 4, 10);
    write_u64(&mut trusted, T + 8, 7);
    write_u64(&mut trusted, T + 16, buffer);
    put(&mut trusted, buffer, &[1, 2, 3, 4, 5, 6, 7, 8, 9, 10, 11]);
    let call = pxp_ioctl(&mut host, &trusted, 3, DRM_IOCTL_I915_GEM_CONTEXT_SETPARAM, T).unwrap();
    let shadow = drm_i915_gem_context_param::load(&host.memory, call.shadow);
    assert_eq!((shadow.ctx_id, shadow.size, shadow.param), (1, 10, 7));
    assert!(inside(shadow.value, 10));
    assert_eq!(get(&host.memory, shadow.value, 11), vec![1, 2, 3, 4, 5, 6, 7, 8, 9, 10, 0]);
    put(&mut host.memory, shadow.value, &[0x33; 11]);
    assert_eq!(pxp_ioctl_finish(&mut host, &mut trusted, &call, 0), Ok(0));
    assert_eq!(get(&trusted, buffer, 11), vec![0x33, 0x33, 0x33, 0x33, 0x33, 0x33, 0x33, 0x33, 0x33, 0x33, 11]);
    assert_eq!(read_u64(&trusted, T + 16), buffer);
    assert!(all_free(&mut host));
}

fn context_with_engines(trusted: &mut Ram) -> (u64, u64, u64, u64, u64) {
    let ext = 0x7000u64;
    let nested = 0x7100u64;
    let engines = 0x7200u64;
    let balance = 0x7300u64;
    let bond = 0x7400u64;
    write_u32(trusted, T, 0);
    write_u32(trusted, T + 4, 1);
    write_u64(trusted, T + 8, ext);
    write_u64(trusted, ext, 0);
    write_u32(trusted, ext + 8, 0);
    write_u32(trusted, ext + 32, 0);
    write_u32(trusted, ext + 36, 24);
    write_u64(trusted, ext + 40, 0xa);
    write_u64(trusted, ext + 48, nested);
    write_u32(trusted, nested, 0);
    write_u32(trusted, nested + 4, 16);
    write_u64(trusted, nested + 8, 0xa);
    write_u64(trusted, nested + 16, engines);
    write_u64(trusted, engines, balance);
    put(trusted, engines + 8, &[0, 0, 1, 0, 0, 0, 2, 0]);
    write_u64(trusted, balance, bond);
    write_u32(trusted, balance + 8, 0);
    write_u16(trusted, balance + 32, 1);
    write_u16(trusted, balance + 34, 2);
    put(trusted, balance + 48, &[0, 0, 1, 0, 0, 0, 2, 0]);
    write_u64(trusted, bond, 0);
    write_u32(trusted, bond + 8, 1);
    write_u16(trusted, bond + 38, 1);
    put(trusted, bond + 80, &[3, 0, 4, 0]);
    (ext, nested, engines, balance, bond)
}

#[test]
fn context_creation_mirrors_the_engines_behind_a_parameter() {
    let mut host = shadow_host();
    let mut trusted = Ram::new();
    let (ext, nested, engines, balance, bond) = context_with_engines(&mut trusted);
    let before: Vec<Vec<u8>> = [(T, 16), (ext, 56), (nested, 24), (engines, 16), (balance, 56), (bond, 84)]
        .iter()
        .map(|&(a, n)| get(&trusted, a, n))
        .collect();

    let call =
        pxp_ioctl(&mut host, &trusted, 3, DRM_IOCTL_I915_GEM_CONTEXT_CREATE_EXT, T).unwrap();
    let s = call.shadow;
    assert_eq!(read_u32(&host.memory, s + 4), 1);
    let u_ext = read_u64(&host.memory, s + 8);
    assert!(inside(u_ext, 56));
    assert_eq!(read_u64(&host.memory, u_ext), 0);
    assert_eq!(read_u32(&host.memory, u_ext + 36), 24);
    assert_eq!(read_u64(&host.memory, u_ext + 40), 0xa);
    let u_nested = read_u64(&host.memory, u_ext + 48);
    assert!(inside(u_nested, 24));
    assert_eq!(read_u32(&host.memory, u_nested + 4), 16);
    let u_engines = read_u64(&host.memory, u_nested + 16);
    assert!(inside(u_engines, 16));
    assert_eq!(get(&host.memory, u_engines + 8, 8), vec![0, 0, 1, 0, 0, 0, 2, 0]);
    let u_balance = read_u64(&host.memory, u_engines);
    assert!(inside(u_balance, 56));
    assert_eq!(get(&host.memory, u_balance + 8, 48), get(&trusted, balance + 8, 48));
    let u_bond = read_u64(&host.memory, u_balance);
    assert!(inside(u_bond, 84));
    assert_eq!(read_u64(&host.memory, u_bond), 0);
    assert_eq!(get(&host.memory, u_bond + 8, 76), get(&trusted, bond + 8, 76));

    write_u32(&mut host.memory, s, 17);
    assert_eq!(pxp_ioctl_finish(&mut host, &mut trusted, &call, 0), Ok(0));
    assert_eq!(read_u32(&trusted, T), 17);
    write_u32(&mut trusted, T, 0);
    let after: Vec<Vec<u8>> = [(T, 16), (ext, 56), (nested, 24), (engines, 16), (balance, 56), (bond, 84)]
        .iter()
        .map(|&(a, n)| get(&trusted, a, n))
        .collect();
    assert_eq!(before, after);
    assert!(all_free(&mut host));
}

#[test]
fn context_creation_with_an_inline_parameter_allocates_no_value() {
    let mut host = shadow_host();
    let mut trusted = Ram::new();
    let ext = 0x7000u64;
    write_u64(&mut trusted, T + 8, ext);
    write_u32(&mut trusted, ext + 8, 0);
    write_u32(&mut trusted, ext + 36, 0);
    write_u64(&mut trusted, ext + 40, 6);
    write_u64(&mut trusted, ext + 48, 1024);
    let call =
        pxp_ioctl(&mut host, &trusted, 3, DRM_IOCTL_I915_GEM_CONTEXT_CREATE_EXT, T).unwrap();
    let u_ext = read_u64(&host.memory, call.shadow + 8);
    assert_eq!(read_u64(&host.memory, u_ext + 48), 0);
    assert_eq!(read_u64(&host.memory, u_ext + 40), 6);
    assert_eq!(pxp_ioctl_finish(&mut host, &mut trusted, &call, 0), Ok(0));
    assert_eq!(read_u64(&trusted, ext + 48), 1024);
    assert!(all_free(&mut host));
}

#[test]
fn unsupported_names_stop_context_and_address_space_calls() {
    let mut host = shadow_host();
    let mut trusted = Ram::new();
    let ext = 0x7000u64;
    write_u64(&mut trusted, T + 8, ext);
    write_u32(&mut trusted, ext + 8, 5);
    assert_eq!(
        pxp_ioctl(&mut host, &trusted, 3, DRM_IOCTL_I915_GEM_CONTEXT_CREATE_EXT, T),
        Err(Error::UnsupportedName)
    );
    assert!(all_free(&mut host));
    host.manager.dealloc(ARENA, ARENA_SIZE, 1);
    let mut other = Ram::new();
    write_u64(&mut other, T, ext);
    write_u32(&mut other, ext + 8, 1);
    assert_eq!(
        pxp_ioctl(&mut host, &other, 3, DRM_IOCTL_I915_GEM_VM_CREATE, T),
        Err(Error::UnsupportedName)
    );
    assert!(all_free(&mut host));
    host.manager.dealloc(ARENA, ARENA_SIZE, 1);
    let (_, _, _, balance, _) = context_with_engines(&mut trusted);
    write_u32(&mut trusted, balance + 8, 9);
    assert_eq!(
        pxp_ioctl(&mut host, &trusted, 3, DRM_IOCTL_I915_GEM_CONTEXT_CREATE_EXT, T),
        Err(Error::UnsupportedName)
    );
    assert!(all_free(&mut host));
}

#[test]
fn nested_parameter_functions_follow_what_the_value_holds() {
    let mut host = shadow_host();
    let mut trusted = Ram::new();
    let (_, nested, _, _, _) = context_with_engines(&mut trusted);
    let dst = host.manager.allocate(24, 1).unwrap() as u64;
    assert_eq!(
        drm_i915_gem_context_param::allocate_with(&mut host, dst, &trusted, nested, Value::Opaque),
        Ok(())
    );
    let value = read_u64(&host.memory, dst + 16);
    assert!(inside(value, 16));
    assert_eq!(
        drm_i915_gem_context_param::copy_with(&mut host.memory, dst, &trusted, nested, Value::Opaque),
        Ok(())
    );
    assert_eq!(read_u64(&host.memory, value), read_u64(&trusted, read_u64(&trusted, nested + 16)));
    assert_eq!(drm_i915_gem_context_param::free_with(&mut host, dst, Value::Opaque), Ok(()));
    host.manager.dealloc(dst as usize, 24, 1);
    assert!(all_free(&mut host));
}

#[test]
fn address_space_chain_is_mirrored() {
    let mut host = shadow_host();
    let mut trusted = Ram::new();
    let first = 0x5000u64;
    let second = 0x5100u64;
    write_u64(&mut trusted, T, first);
    write_u32(&mut trusted, T + 8, 2);
    write_u32(&mut trusted, T + 12, 0);
    write_u64(&mut trusted, first, second);
    write_u32(&mut trusted, first + 8, 0);
    put(&mut trusted, first + 32, &[1, 0, 0, 0]);
    write_u64(&mut trusted, second, 0);
    write_u32(&mut trusted, second + 8, 0x5_0000);
    put(&mut trusted, second + 32, &[1, 0, 1, 0]);
    let call = pxp_ioctl(&mut host, &trusted, 3, DRM_IOCTL_I915_GEM_VM_CREATE, T).unwrap();
    let a = read_u64(&host.memory, call.shadow);
    let b = read_u64(&host.memory, a);
    assert!(inside(a, 40) && inside(b, 40));
    assert_eq!(read_u64(&host.memory, b), 0);
    assert_eq!(read_u32(&host.memory, call.shadow + 8), 2);
    assert_eq!(get(&host.memory, a + 32, 4), vec![1, 0, 0, 0]);
    assert_eq!(get(&host.memory, b + 32, 4), vec![1, 0, 1, 0]);
    assert_eq!(read_u32(&host.memory, b + 8), 0x5_0000);
    write_u32(&mut host.memory, call.shadow + 12, 33);
    assert_eq!(pxp_ioctl_finish(&mut host, &mut trusted, &call, 0), Ok(0));
    assert_eq!(read_u32(&trusted, T + 12), 33);
    assert_eq!(read_u64(&trusted, T), first);
    assert_eq!(read_u64(&trusted, first), second);
    assert!(all_free(&mut host));
}

#[test]
fn execbuffer_arrays_are_mirrored_and_empty_arrays_are_null() {
    let mut host = shadow_host();
    let mut trusted = Ram::new();
    let buffers = 0x8000u64;
    write_u64(&mut trusted, T, buffers);
    write_u32(&mut trusted, T + 8, 2);
    write_u32(&mut trusted, T + 12, 64);
    write_u32(&mut trusted, T + 16, 128);
    write_u32(&mut trusted, T + 28, 0);
    write_u64(&mut trusted, T + 32, 0x1111);
    write_u64(&mut trusted, T + 40, 0x42);
    let image: Vec<u8> = (0..112u32).map(|i| (i * 7 + 1) as u8).collect();
    put(&mut trusted, buffers, &image);
    let call = pxp_ioctl(&mut host, &trusted, 3, DRM_IOCTL_I915_GEM_EXECBUFFER2, T).unwrap();
    let s = call.shadow;
    let u_buffers = read_u64(&host.memory, s);
    assert!(inside(u_buffers, 112));
    assert_eq!(read_u64(&host.memory, s + 32), 0);
    assert_eq!(read_u32(&host.memory, s + 8), 2);
    assert_eq!(read_u32(&host.memory, s + 12), 64);
    assert_eq!(read_u32(&host.memory, s + 16), 128);
    assert_eq!(read_u64(&host.memory, s + 40), 0x42);
    assert_eq!(get(&host.memory, u_buffers, 112), image);
    write_u64(&mut host.memory, u_buffers + 24, 0xffff_0000);
    assert_eq!(pxp_ioctl_finish(&mut host, &mut trusted, &call, 0), Ok(0));
    assert_eq!(read_u64(&trusted, buffers + 24), 0xffff_0000);
    assert_eq!(read_u64(&trusted, T), buffers);
    assert_eq!(read_u64(&trusted, T + 32), 0x1111);
    assert!(all_free(&mut host));
}

#[test]
fn read_travels_back_and_write_travels_out() {
    let payload = [1u8, 2, 3, 4, 5, 6];
    let mut host = shadow_host();
    let mut trusted = Ram::new();
    let data = 0x9000u64;
    write_u32(&mut trusted, T, 5);
    write_u64(&mut trusted, T + 8, 256);
    write_u64(&mut trusted, T + 16, 6);
    write_u64(&mut trusted, T + 24, data);
    put(&mut trusted, data, &payload);

    let call = pxp_ioctl(&mut host, &trusted, 3, DRM_IOCTL_I915_GEM_PREAD, T).unwrap();
    let u_data = read_u64(&host.memory, call.shadow + 24);
    assert!(inside(u_data, 6));
    assert_eq!(read_u64(&host.memory, call.shadow + 16), 6);
    assert_eq!(get(&host.memory, u_data, 6), vec![0; 6]);
    put(&mut host.memory, u_data, &[9, 8, 7, 6, 5, 4]);
    assert_eq!(pxp_ioctl_finish(&mut host, &mut trusted, &call, 0), Ok(0));
    assert_eq!(get(&trusted, data, 6), vec![9, 8, 7, 6, 5, 4]);
    assert_eq!(read_u64(&trusted, T + 24), data);
    assert!(all_free(&mut host));
    host.manager.dealloc(ARENA, ARENA_SIZE, 1);

    put(&mut trusted, data, &payload);
    let call = pxp_ioctl(&mut host, &trusted, 3, DRM_IOCTL_I915_GEM_PWRITE, T).unwrap();
    let u_data = read_u64(&host.memory, call.shadow + 24);
    assert_eq!(get(&host.memory, u_data, 6), payload.to_vec());
    put(&mut host.memory, u_data, &[0xee; 6]);
    assert_eq!(pxp_ioctl_finish(&mut host, &mut trusted, &call, 0), Ok(0));
    assert_eq!(get(&trusted, data, 6), payload.to_vec());
    assert!(all_free(&mut host));
}

#[test]
fn query_with_several_items_gives_each_its_buffer() {
    let mut host = shadow_host();
    let mut trusted = Ram::new();
    let items = 0x3000u64;
    write_u32(&mut trusted, T, 3);
    write_u64(&mut trusted, T + 8, items);
    let lengths = [8i32, 0, 20];
    for (i, &len) in lengths.iter().enumerate() {
        let item = items + 24 * i as u64;
        write_u64(&mut trusted, item, 10 + i as u64);
        write_i32(&mut trusted, item + 8, len);
        write_u64(&mut trusted, item + 16, 0x3800 + 0x100 * i as u64);
        put(&mut trusted, 0x3800 + 0x100 * i as u64, &[i as u8 + 1; 20]);
    }
    let call = pxp_ioctl(&mut host, &trusted, 3, DRM_IOCTL_I915_QUERY, T).unwrap();
    let u_items = read_u64(&host.memory, call.shadow + 8);
    assert!(inside(u_items, 72));
    let mut buffers = Vec::new();
    for (i, &len) in lengths.iter().enumerate() {
        let item = u_items + 24 * i as u64;
        assert_eq!(read_u64(&host.memory, item), 10 + i as u64);
        assert_eq!(read_i32(&host.memory, item + 8), len);
        let data = read_u64(&host.memory, item + 16);
        if len == 0 {
            assert_eq!(data, 0);
        } else {
            assert!(inside(data, len as u64));
            assert_eq!(get(&host.memory, data, len as usize), vec![i as u8 + 1; len as usize]);
            buffers.push((data, len as u64));
        }
    }
    assert!(buffers[0].0 + buffers[0].1 <= buffers[1].0 || buffers[1].0 + buffers[1].1 <= buffers[0].0);
    assert_eq!(pxp_ioctl_finish(&mut host, &mut trusted, &call, 0), Ok(0));
    assert!(all_free(&mut host));
}

#[test]
fn negative_length_asks_for_more_than_any_arena_holds() {
    let mut host = shadow_host();
    let mut trusted = Ram::new();
    let items = 0x3000u64;
    write_u32(&mut trusted, T, 1);
    write_u64(&mut trusted, T + 8, items);
    write_i32(&mut trusted, items + 8, -1);
    assert_eq!(
        pxp_ioctl(&mut host, &trusted, 3, DRM_IOCTL_I915_QUERY, T),
        Err(Error::OutOfSpace(usize::MAX))
    );
    assert!(all_free(&mut host));
}

#[test]
fn inline_value_that_looks_like_an_address_is_not_given_back() {
    let mut host = shadow_host();
    let mut trusted = Ram::new();
    let held = host.manager.allocate(16, 1).unwrap() as u64;
    write_u32(&mut trusted, T, 1);
    write_u32(&mut trusted, T + 4, 0);
    write_u64(&mut trusted, T + 8, 6);
    write_u64(&mut trusted, T + 16, held);
    let call = pxp_ioctl(&mut host, &trusted, 3, DRM_IOCTL_I915_GEM_CONTEXT_SETPARAM, T).unwrap();
    assert_eq!(read_u64(&host.memory, call.shadow + 16), held);
    assert_eq!(pxp_ioctl_finish(&mut host, &mut trusted, &call, 0), Ok(0));
    assert_eq!(host.manager.allocate(16, 1), Ok(held as usize + 16));
    host.manager.dealloc(held as usize + 16, 16, 1);
    host.manager.dealloc(held as usize, 16, 1);
    assert!(all_free(&mut host));
}

#[test]
fn context_parameter_that_configures_engines_is_mirrored_with_its_chain() {
    let mut host = shadow_host();
    let mut trusted = Ram::new();
    let (_, nested, engines, balance, bond) = context_with_engines(&mut trusted);
    let arg = 0x6000u64;
    write_u32(&mut trusted, arg, 5);
    write_u32(&mut trusted, arg + 4, 24);
    write_u64(&mut trusted, arg + 8, 0xa);
    write_u64(&mut trusted, arg + 16, nested);
    let places = [(arg, 24), (nested, 24), (engines, 16), (balance, 56), (bond, 84)];
    let before: Vec<Vec<u8>> = places.iter().map(|&(a, n)| get(&trusted, a, n)).collect();

    let call = pxp_ioctl(&mut host, &trusted, 3, DRM_IOCTL_I915_GEM_CONTEXT_SETPARAM, arg).unwrap();
    let shadow = drm_i915_gem_context_param::load(&host.memory, call.shadow);
    assert_eq!((shadow.ctx_id, shadow.size, shadow.param), (5, 24, 0xa));
    let u_nested = shadow.value;
    assert!(inside(u_nested, 24));
    assert_eq!(get(&host.memory, u_nested, 16), get(&trusted, nested, 16));
    let u_engines = read_u64(&host.memory, u_nested + 16);
    assert!(inside(u_engines, 16));
    assert_eq!(get(&host.memory, u_engines + 8, 8), vec![0, 0, 1, 0, 0, 0, 2, 0]);
    let u_balance = read_u64(&host.memory, u_engines);
    assert!(inside(u_balance, 56));
    assert_eq!(get(&host.memory, u_balance + 8, 48), get(&trusted, balance + 8, 48));
    let u_bond = read_u64(&host.memory, u_balance);
    assert!(inside(u_bond, 84));
    assert_eq!(read_u64(&host.memory, u_bond), 0);
    assert_eq!(get(&host.memory, u_bond + 8, 76), get(&trusted, bond + 8, 76));

    put(&mut host.memory, u_engines + 8, &[9, 9, 9, 9, 9, 9, 9, 9]);
    assert_eq!(pxp_ioctl_finish(&mut host, &mut trusted, &call, 0), Ok(0));
    assert_eq!(get(&trusted, engines + 8, 8), vec![9, 9, 9, 9, 9, 9, 9, 9]);
    put(&mut trusted, engines + 8, &[0, 0, 1, 0, 0, 0, 2, 0]);
    let after: Vec<Vec<u8>> = places.iter().map(|&(a, n)| get(&trusted, a, n)).collect();
    assert_eq!(before, after);
    assert!(all_free(&mut host));
}

#[test]
fn context_parameter_with_an_unknown_engine_extension_gives_everything_back() {
    let mut host = shadow_host();
    let mut trusted = Ram::new();
    let (_, nested, _, balance, _) = context_with_engines(&mut trusted);
    let arg = 0x6000u64;
    write_u32(&mut trusted, arg + 4, 24);
    write_u64(&mut trusted, arg + 8, 0xa);
    write_u64(&mut trusted, arg + 16, nested);
    write_u32(&mut trusted, balance + 8, 9);
    assert_eq!(
        pxp_ioctl(&mut host, &trusted, 3, DRM_IOCTL_I915_GEM_CONTEXT_GETPARAM, arg),
        Err(Error::UnsupportedName)
    );
    assert!(all_free(&mut host));
}

#[test]
fn context_parameter_that_asked_for_its_size_has_nothing_behind_its_value() {
    let mut host = shadow_host();
    let mut trusted = Ram::new();
    let arg = 0x6000u64;
    let stale = 0x7100u64;
    write_u32(&mut trusted, arg, 1);
    write_u32(&mut trusted, arg + 4, 0);
    write_u64(&mut trusted, arg + 8, 0xa);
    write_u64(&mut trusted, arg + 16, stale);
    write_u64(&mut host.memory, stale + 16, 0x9000);
    write_u64(&mut host.memory, 0x9000, 0x9100);
    write_u32(&mut host.memory, 0x9100 + 8, 9);

    let call = pxp_ioctl(&mut host, &trusted, 3, DRM_IOCTL_I915_GEM_CONTEXT_GETPARAM, arg).unwrap();
    let shadow = drm_i915_gem_context_param::load(&host.memory, call.shadow);
    assert_eq!((shadow.size, shadow.param, shadow.value), (0, 0xa, stale));
    write_u32(&mut host.memory, call.shadow + 4, 40);
    assert_eq!(pxp_ioctl_finish(&mut host, &mut trusted, &call, 0), Ok(0));
    let back = drm_i915_gem_context_param::load(&trusted, arg);
    assert_eq!((back.ctx_id, back.size, back.param, back.value), (1, 40, 0xa, stale));
    assert!(all_free(&mut host));
}

#[test]
fn manager_knows_the_addresses_of_its_arenas() {
    let host = shadow_host();
    assert!(host.manager.owns(ARENA));
    assert!(host.manager.owns(ARENA + ARENA_SIZE - 1));
    assert!(!host.manager.owns(ARENA + ARENA_SIZE));
    assert!(!host.manager.owns(ARENA - 1));
    assert!(pxp_rs::memory::owns(&host.manager, ARENA as u64 + 16));
    assert!(!pxp_rs::memory::owns(&host.manager, 0));
}

#[test]
fn reserved_bits_of_a_context_extension_name_select_nothing_and_travel() {
    let mut host = shadow_host();
    let mut trusted = Ram::new();
    let ext = 0x7000u64;
    write_u32(&mut trusted, T, 0);
    write_u32(&mut trusted, T + 4, 0);
    write_u64(&mut trusted, T + 8, ext);
    write_u64(&mut trusted, ext, 0);
    write_u32(&mut trusted, ext + 8, 0x0001_0000);
    write_u32(&mut trusted, ext + 32, 0);
    write_u32(&mut trusted, ext + 36, 0);
    write_u64(&mut trusted, ext + 40, 1);
    write_u64(&mut trusted, ext + 48, 0);
    let before = get(&trusted, ext, 56);

    let call =
        pxp_ioctl(&mut host, &trusted, 3, DRM_IOCTL_I915_GEM_CONTEXT_CREATE_EXT, T).unwrap();
    let u_ext = read_u64(&host.memory, call.shadow + 8);
    assert!(inside(u_ext, 56));
    assert_eq!(read_u64(&host.memory, u_ext), 0);
    assert_eq!(read_u32(&host.memory, u_ext + 8), 0x0001_0000);
    assert_eq!(read_u64(&host.memory, u_ext + 40), 1);
    assert_eq!(read_u64(&host.memory, u_ext + 48), 0);
    let mut probe = host.manager.snapshot();
    assert_eq!(probe.allocate(ARENA_SIZE / 2, 1), Ok(ARENA + ARENA_SIZE / 2));
    assert_eq!(pxp_ioctl_finish(&mut host, &mut trusted, &call, 0), Ok(0));
    assert_eq!(get(&trusted, ext, 56), before);
    assert!(all_free(&mut host));

    host.manager.dealloc(ARENA, ARENA_SIZE, 1);
    write_u32(&mut trusted, ext + 8, 0x0001_0001);
    assert_eq!(
        pxp_ioctl(&mut host, &trusted, 3, DRM_IOCTL_I915_GEM_CONTEXT_CREATE_EXT, T),
        Err(Error::UnsupportedName)
    );
    assert!(all_free(&mut host));
}

#[test]
fn driver_that_keeps_addresses_and_lengths_may_write_the_rest_without_a_leak() {
    let mut host = shadow_host();
    let mut trusted = Ram::new();
    let buffer = 0x2400u64;
    write_u32(&mut trusted, T, 7);
    write_u64(&mut trusted, T + 8, 64);
    write_u64(&mut trusted, T + 16, 8);
    write_u64(&mut trusted, T + 24, buffer);
    let call = pxp_ioctl(&mut host, &trusted, 3, DRM_IOCTL_I915_GEM_PREAD, T).unwrap();
    let data = read_u64(&host.memory, call.shadow + 24);
    assert!(inside(data, 8));
    put(&mut host.memory, call.shadow, &[0xee; 16]);
    put(&mut host.memory, data, &[1, 2, 3, 4, 5, 6, 7, 8]);
    put(&mut host.memory, 0x5000_0000, &[9; 32]);
    assert_eq!(pxp_ioctl_finish(&mut host, &mut trusted, &call, -5), Ok(-5));
    assert_eq!(get(&trusted, buffer, 8), vec![1, 2, 3, 4, 5, 6, 7, 8]);
    assert_eq!(read_u64(&trusted, T + 24), buffer);
    assert!(all_free(&mut host));

    host.manager.dealloc(ARENA, ARENA_SIZE, 1);
    let mut other = Ram::new();
    let items = 0x3000u64;
    write_u32(&mut other, T, 1);
    write_u64(&mut other, T + 8, items);
    write_u64(&mut other, items, 1);
    write_i32(&mut other, items + 8, 4);
    write_u64(&mut other, items + 16, buffer);
    let call = pxp_ioctl(&mut host, &other, 3, DRM_IOCTL_I915_QUERY, T).unwrap();
    let u_items = read_u64(&host.memory, call.shadow + 8);
    let u_data = read_u64(&host.memory, u_items + 16);
    put(&mut host.memory, u_data, &[4, 3, 2, 1]);
    write_u32(&mut host.memory, u_items + 12, 0x55);
    write_u32(&mut host.memory, call.shadow + 4, 0x66);
    assert_eq!(pxp_ioctl_finish(&mut host, &mut other, &call, 0), Ok(0));
    assert_eq!(get(&other, buffer, 4), vec![4, 3, 2, 1]);
    assert!(all_free(&mut host));
}
