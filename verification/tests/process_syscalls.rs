use rcore_os::syscall::process::{
    sys_get_time, sys_mmap, sys_munmap, sys_sbrk, sys_trace, MapRequest, PteFlags, TimeVal, TraceAction,
    PAGE_SIZE, PERM_R, PERM_U, PERM_W, PERM_X,
};

fn expected_bytes(us: usize) -> Vec<u8> {
    let tv = TimeVal { sec: us / 1_000_000, usec: us % 1_000_000 };
    let mut v = tv.sec.to_le_bytes().to_vec();
    v.extend_from_slice(&tv.usec.to_le_bytes());
    v
}

#[test]
fn get_time_fills_one_buffer() {
    let us = 3_725_000_042usize;
    let mut bufs = vec![vec![0xaau8; 2 * std::mem::size_of::<usize>()]];
    assert_eq!(sys_get_time(us, &mut bufs), 0);
    assert_eq!(bufs[0], expected_bytes(us));
    // 3725 seconds and 42 microseconds
    assert_eq!(bufs[0][0], (3725 % 256) as u8);
    assert_eq!(bufs[0][1], (3725 / 256) as u8);
}

#[test]
fn get_time_across_a_page_boundary() {
    let us = 1_234_567_890usize;
    let mut bufs = vec![vec![0u8; 3], vec![0u8; 40]];
    sys_get_time(us, &mut bufs);
    let want = expected_bytes(us);
    let mut flat = bufs[0].clone();
    flat.extend_from_slice(&bufs[1]);
    assert_eq!(&flat[..want.len()], &want[..]);
    assert!(flat[want.len()..].iter().all(|b| *b == 0));
    assert_eq!(bufs[0].len(), 3);
    assert_eq!(bufs[1].len(), 40);
}

#[test]
fn get_time_short_buffer_is_filled_as_far_as_it_goes() {
    let us = 999_999usize;
    let mut bufs = vec![vec![7u8; 2], vec![], vec![7u8; 1]];
    sys_get_time(us, &mut bufs);
    let want = expected_bytes(us);
    assert_eq!(bufs[0], want[0..2].to_vec());
    assert!(bufs[1].is_empty());
    assert_eq!(bufs[2], want[2..3].to_vec());
}

fn flags(valid: bool, user: bool, readable: bool, writable: bool) -> Option<PteFlags> {
    Some(PteFlags { valid, user, readable, writable })
}

#[test]
fn trace_reads_and_writes_user_bytes() {
    let addr = 0x1_2345usize;
    assert_eq!(
        sys_trace(0, addr, 0, flags(true, true, true, false)),
        TraceAction::ReadByte { offset: 0x345 }
    );
    assert_eq!(
        sys_trace(1, addr, 0x1ff, flags(true, true, false, true)),
        TraceAction::WriteByte { offset: 0x345, value: 0xff }
    );
}

#[test]
fn trace_fails_without_access() {
    let addr = 0x4000usize;
    assert_eq!(sys_trace(0, addr, 0, None), TraceAction::Fail);
    assert_eq!(sys_trace(0, addr, 0, flags(false, true, true, true)), TraceAction::Fail);
    assert_eq!(sys_trace(1, addr, 0, flags(true, false, true, true)), TraceAction::Fail);
    assert_eq!(sys_trace(0, addr, 0, flags(true, true, false, true)), TraceAction::Fail);
    assert_eq!(sys_trace(1, addr, 0, flags(true, true, true, false)), TraceAction::Fail);
}

#[test]
fn trace_queries_syscall_count() {
    assert_eq!(sys_trace(2, 64, 0, None), TraceAction::QuerySyscallCount { syscall_id: 64 });
}

#[test]
fn mmap_checks_port_and_alignment() {
    assert_eq!(sys_mmap(0x1000, 0x2000, 0), None);
    assert_eq!(sys_mmap(0x1000, 0x2000, 8), None);
    assert_eq!(sys_mmap(0x1000, 0x2000, 9), None);
    assert_eq!(sys_mmap(0x1001, 0x2000, 1), None);
    assert_eq!(
        sys_mmap(0x1000, 0x2000, 3),
        Some(MapRequest { start: 0x1000, end: 0x3000, permission: PERM_U | PERM_R | PERM_W })
    );
    assert_eq!(
        sys_mmap(0, PAGE_SIZE, 7),
        Some(MapRequest { start: 0, end: PAGE_SIZE, permission: PERM_U | PERM_R | PERM_W | PERM_X })
    );
    assert_eq!(
        sys_mmap(PAGE_SIZE, 1, 4),
        Some(MapRequest { start: PAGE_SIZE, end: PAGE_SIZE + 1, permission: PERM_U | PERM_X })
    );
}

#[test]
fn munmap_checks_alignment() {
    assert_eq!(sys_munmap(0x1000, 0x1000), Some((0x1000, 0x2000)));
    assert_eq!(sys_munmap(0x1010, 0x1000), None);
}

#[test]
fn mmap_refuses_before_adding() {
    // these ends would overflow, but the request is refused first
    assert_eq!(sys_mmap(usize::MAX - 4095, 8192, 0), None);
    assert_eq!(sys_mmap(usize::MAX - 4095, 8192, 8), None);
    assert_eq!(sys_mmap(usize::MAX, 8192, 3), None);
    assert_eq!(sys_munmap(usize::MAX, 8192), None);
}

#[test]
fn sbrk_returns_old_break_or_minus_one() {
    assert_eq!(sys_sbrk(Some(0x8000)), 0x8000);
    assert_eq!(sys_sbrk(None), -1);
}
