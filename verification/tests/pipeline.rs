//! The execution side: the console model, syscall dispatch and its
//! handlers, the trap handler, and the syscall scan over instruction
//! streams.

use runik::addr::{VirtAddr, VirtPageNum, PhysPageNum};
use runik::addr_space::{AddrSpace, MapType, Segment, MAP_PERM_R, MAP_PERM_U, MAP_PERM_W};
use runik::console::Console;
use runik::frame::FrameAllocator;
use runik::disasm::{disasm_syscalls, instruction_length};
use runik::syscall::{syscall, sys_read, sys_write, sys_exit, EnabledSyscalls, FatalReason,
    SyscallOutcome, FD_STDIN, FD_STDOUT, SYSCALL_EXIT, SYSCALL_READ, SYSCALL_WRITE};
use runik::trap::{trap_handler, TrapCause, TrapContext, TrapOutcome, REG_A0, REG_A7};

fn all_enabled() -> EnabledSyscalls {
    EnabledSyscalls { read: true, write: true, exit: true }
}

/// An address space with one user-accessible framed page at 0x20000
/// holding `payload` at its start.
fn user_space(payload: &[u8]) -> (AddrSpace, FrameAllocator) {
    let mut alloc = FrameAllocator::new(PhysPageNum(0x80400), PhysPageNum(0x80500));
    let mut space = AddrSpace::new_bare(&mut alloc).unwrap();
    let seg = Segment::new(
        VirtAddr(0x20000),
        VirtAddr(0x21000),
        MapType::Framed,
        MAP_PERM_R + MAP_PERM_W + MAP_PERM_U,
    );
    space.push(seg, Some((VirtAddr(0x20000), payload)), &mut alloc).unwrap();
    (space, alloc)
}

#[test]
fn console_getchar_order() {
    let mut con = Console::with_input(vec![7, 8, 9]);
    assert_eq!(con.getchar(), 7);
    assert_eq!(con.getchar(), 8);
    assert_eq!(con.getchar(), 9);
    assert_eq!(con.getchar(), 0); // exhausted
}

#[test]
fn write_ascii_to_stdout() {
    // A known ASCII buffer lands on the console exactly, and the whole
    // length is reported.
    let (space, _alloc) = user_space(b"hi there");
    let mut con = Console::new();
    let r = sys_write(FD_STDOUT, 0x20000, 8, &space, &mut con);
    assert_eq!(r, SyscallOutcome::Ret(8));
    assert_eq!(con.output().as_slice(), b"hi there");
}

#[test]
fn write_illegal_fd_fatal() {
    let (space, _alloc) = user_space(b"hi");
    let mut con = Console::new();
    let r = sys_write(2, 0x20000, 2, &space, &mut con);
    assert_eq!(r, SyscallOutcome::Fatal(FatalReason::IllegalFd));
    assert!(con.output().is_empty());
}

#[test]
fn write_unmapped_buffer_fatal() {
    let (space, _alloc) = user_space(b"hi");
    let mut con = Console::new();
    let r = sys_write(FD_STDOUT, 0x30000, 2, &space, &mut con);
    assert_eq!(r, SyscallOutcome::Fatal(FatalReason::BadBuffer));
}

#[test]
fn write_invalid_text_fatal() {
    // A lone continuation byte is not UTF-8: the write is a protocol
    // violation, and nothing reaches the console.
    let (space, _alloc) = user_space(&[0xff, 0xfe]);
    let mut con = Console::new();
    let r = sys_write(FD_STDOUT, 0x20000, 2, &space, &mut con);
    assert_eq!(r, SyscallOutcome::Fatal(FatalReason::InvalidText));
    assert!(con.output().is_empty());
}

#[test]
fn write_multibyte_text_ok() {
    let (space, _alloc) = user_space("é".as_bytes());
    let mut con = Console::new();
    let r = sys_write(FD_STDOUT, 0x20000, 2, &space, &mut con);
    assert_eq!(r, SyscallOutcome::Ret(2));
    assert_eq!(con.output().as_slice(), "é".as_bytes());
}

#[test]
fn read_zero_len_returns_minus_one() {
    // A zero-length read reports -1 and consumes nothing.
    let (mut space, _alloc) = user_space(b"");
    let mut con = Console::with_input(vec![b'x' as u64]);
    let r = sys_read(FD_STDIN, 0x20000, 0, &mut space, &mut con);
    assert_eq!(r, SyscallOutcome::Ret(-1));
    assert_eq!(con.getchar(), b'x' as u64); // still pending
}

#[test]
fn read_fills_buffer() {
    let (mut space, _alloc) = user_space(b"....");
    let mut con = Console::with_input(vec![b'a' as u64, b'b' as u64, b'c' as u64]);
    let r = sys_read(FD_STDIN, 0x20000, 3, &mut space, &mut con);
    assert_eq!(r, SyscallOutcome::Ret(3));
    assert_eq!(space.read_byte_at(0x20000), Some(b'a'));
    assert_eq!(space.read_byte_at(0x20001), Some(b'b'));
    assert_eq!(space.read_byte_at(0x20002), Some(b'c'));
    assert_eq!(space.read_byte_at(0x20003), Some(b'.')); // untouched
}

#[test]
fn read_stops_at_exhaustion() {
    let (mut space, _alloc) = user_space(b"....");
    let mut con = Console::with_input(vec![b'a' as u64]);
    let r = sys_read(FD_STDIN, 0x20000, 4, &mut space, &mut con);
    assert_eq!(r, SyscallOutcome::Ret(1));
    assert_eq!(space.read_byte_at(0x20000), Some(b'a'));
}

#[test]
fn read_wide_char_returns_minus_one() {
    // A character that does not fit in a byte is reported as -1; the
    // bytes read before it stay in place.
    let (mut space, _alloc) = user_space(b"..");
    let mut con = Console::with_input(vec![b'a' as u64, 0x1234]);
    let r = sys_read(FD_STDIN, 0x20000, 2, &mut space, &mut con);
    assert_eq!(r, SyscallOutcome::Ret(-1));
    assert_eq!(space.read_byte_at(0x20000), Some(b'a'));
}

#[test]
fn read_illegal_fd_fatal() {
    let (mut space, _alloc) = user_space(b"..");
    let mut con = Console::new();
    let r = sys_read(3, 0x20000, 2, &mut space, &mut con);
    assert_eq!(r, SyscallOutcome::Fatal(FatalReason::IllegalFd));
}

#[test]
fn read_unmapped_buffer_fatal() {
    let (mut space, _alloc) = user_space(b"..");
    let mut con = Console::with_input(vec![b'a' as u64]);
    let r = sys_read(FD_STDIN, 0x30000, 2, &mut space, &mut con);
    assert_eq!(r, SyscallOutcome::Fatal(FatalReason::BadBuffer));
    assert_eq!(con.getchar(), b'a' as u64); // nothing consumed
}

#[test]
fn exit_reports_code() {
    assert_eq!(sys_exit(0), SyscallOutcome::Exit(0));
    assert_eq!(sys_exit(7), SyscallOutcome::Exit(7));
}

#[test]
fn dispatch_routes_ids() {
    let (mut space, _alloc) = user_space(b"ok");
    let mut con = Console::new();
    let en = all_enabled();
    let r = syscall(SYSCALL_WRITE, (FD_STDOUT, 0x20000, 2), &mut space, &mut con, &en);
    assert_eq!(r, SyscallOutcome::Ret(2));
    assert_eq!(con.output().as_slice(), b"ok");
    let r = syscall(SYSCALL_EXIT, (3, 0, 0), &mut space, &mut con, &en);
    assert_eq!(r, SyscallOutcome::Exit(3));
}

#[test]
fn dispatch_unknown_id_fatal() {
    let (mut space, _alloc) = user_space(b"");
    let mut con = Console::new();
    let r = syscall(1234, (0, 0, 0), &mut space, &mut con, &all_enabled());
    assert_eq!(r, SyscallOutcome::Fatal(FatalReason::UnsupportedSyscall));
}

#[test]
fn dispatch_disabled_id_fatal() {
    // A known id that was compiled out behaves exactly like an unknown
    // one.
    let (mut space, _alloc) = user_space(b"ok");
    let mut con = Console::new();
    let en = EnabledSyscalls { read: true, write: false, exit: true };
    let r = syscall(SYSCALL_WRITE, (FD_STDOUT, 0x20000, 2), &mut space, &mut con, &en);
    assert_eq!(r, SyscallOutcome::Fatal(FatalReason::UnsupportedSyscall));
    assert!(con.output().is_empty());
}

#[test]
fn trap_syscall_resumes_with_result() {
    let (mut space, _alloc) = user_space(b"hey");
    let mut con = Console::new();
    let mut cx = TrapContext::app_init_context(0x20000, 0x21000, 0);
    cx.x[REG_A7] = SYSCALL_WRITE;
    cx.x[REG_A0] = FD_STDOUT;
    cx.x[11] = 0x20000;
    cx.x[12] = 3;
    let r = trap_handler(&mut cx, TrapCause::UserEnvCall, 0, &mut space, &mut con, &all_enabled());
    assert_eq!(r, TrapOutcome::Resume);
    assert_eq!(cx.sepc, 0x20004); // advanced past the call instruction
    assert_eq!(cx.x[REG_A0], 3); // the returned length
    assert_eq!(con.output().as_slice(), b"hey");
}

#[test]
fn trap_exit_propagates() {
    let (mut space, _alloc) = user_space(b"");
    let mut con = Console::new();
    let mut cx = TrapContext::app_init_context(0x20000, 0x21000, 0);
    cx.x[REG_A7] = SYSCALL_EXIT;
    cx.x[REG_A0] = 5;
    let r = trap_handler(&mut cx, TrapCause::UserEnvCall, 0, &mut space, &mut con, &all_enabled());
    assert_eq!(r, TrapOutcome::Exit(5));
}

#[test]
fn trap_fault_contained() {
    // An unmapped access from the application follows the documented
    // fatal shutdown path: a fault report, nothing else touched.
    let (mut space, _alloc) = user_space(b"");
    let mut con = Console::new();
    let mut cx = TrapContext::app_init_context(0x20000, 0x21000, 0);
    let r = trap_handler(
        &mut cx,
        TrapCause::LoadPageFault,
        0xdead_b000,
        &mut space,
        &mut con,
        &all_enabled(),
    );
    assert_eq!(
        r,
        TrapOutcome::Fault { cause: TrapCause::LoadPageFault, addr: 0xdead_b000, instr: 0x20000 },
    );
    assert_eq!(cx.sepc, 0x20000); // not advanced
    assert!(con.output().is_empty());
}

#[test]
fn trap_store_fault_and_illegal_instruction() {
    let (mut space, _alloc) = user_space(b"");
    let mut con = Console::new();
    let mut cx = TrapContext::app_init_context(0x1000, 0x21000, 0);
    let r = trap_handler(&mut cx, TrapCause::StorePageFault, 0x77, &mut space, &mut con,
        &all_enabled());
    assert_eq!(r, TrapOutcome::Fault { cause: TrapCause::StorePageFault, addr: 0x77, instr: 0x1000 });
    let r = trap_handler(&mut cx, TrapCause::IllegalInstruction, 0, &mut space, &mut con,
        &all_enabled());
    assert_eq!(
        r,
        TrapOutcome::Fault { cause: TrapCause::IllegalInstruction, addr: 0, instr: 0x1000 },
    );
}

#[test]
fn trap_unknown_cause_unsupported() {
    let (mut space, _alloc) = user_space(b"");
    let mut con = Console::new();
    let mut cx = TrapContext::app_init_context(0x1000, 0x21000, 0);
    let r = trap_handler(&mut cx, TrapCause::Unknown, 0, &mut space, &mut con, &all_enabled());
    assert_eq!(r, TrapOutcome::UnsupportedTrap);
}

#[test]
fn app_init_context_layout() {
    let cx = TrapContext::app_init_context(0x4000, 0x8000, 0x120);
    assert_eq!(cx.sepc, 0x4000);
    assert_eq!(cx.sstatus, 0x120);
    assert_eq!(cx.x[2], 0x8000);
    for (i, v) in cx.x.iter().enumerate() {
        if i != 2 {
            assert_eq!(*v, 0);
        }
    }
}

#[test]
fn instruction_lengths() {
    assert_eq!(instruction_length(0x0001), 2); // compressed
    assert_eq!(instruction_length(0x0013), 4); // standard
    assert_eq!(instruction_length(0x0073), 4);
}

/// addi x17, x0, imm
fn addi_a7_x0(imm: u32) -> [u8; 4] {
    ((imm << 20) | (17 << 7) | 0x13).to_le_bytes()
}

/// addi x17, x17, imm
fn addi_a7_a7(imm: u32) -> [u8; 4] {
    ((imm << 20) | (17 << 15) | (17 << 7) | 0x13).to_le_bytes()
}

/// lui x17, with the given pre-shifted immediate
fn lui_a7(imm: u32) -> [u8; 4] {
    (imm | (17 << 7) | 0x37).to_le_bytes()
}

const ECALL: [u8; 4] = [0x73, 0, 0, 0];

#[test]
fn disasm_finds_direct_syscall() {
    let mut text = Vec::new();
    text.extend_from_slice(&addi_a7_x0(93));
    text.extend_from_slice(&ECALL);
    assert_eq!(disasm_syscalls(&text), vec![93]);
}

#[test]
fn disasm_tracks_accumulation() {
    // li a7, 64; ecall; addi a7, a7, 29; ecall  ->  {64, 93}
    let mut text = Vec::new();
    text.extend_from_slice(&addi_a7_x0(64));
    text.extend_from_slice(&ECALL);
    text.extend_from_slice(&addi_a7_a7(29));
    text.extend_from_slice(&ECALL);
    assert_eq!(disasm_syscalls(&text), vec![64, 93]);
}

#[test]
fn disasm_lui_value_kept_in_place() {
    // The upper immediate is stored as the decoder reports it: already
    // shifted into position.
    let mut text = Vec::new();
    text.extend_from_slice(&lui_a7(0x1000));
    text.extend_from_slice(&ECALL);
    assert_eq!(disasm_syscalls(&text), vec![0x1000]);
}

#[test]
fn disasm_dedups_and_ignores_other_registers() {
    let mut text = Vec::new();
    text.extend_from_slice(&addi_a7_x0(63));
    // addi x5, x0, 9 must not disturb the tracked register
    text.extend_from_slice(&((9u32 << 20) | (5 << 7) | 0x13).to_le_bytes());
    text.extend_from_slice(&ECALL);
    text.extend_from_slice(&ECALL);
    assert_eq!(disasm_syscalls(&text), vec![63]);
}

#[test]
fn disasm_empty_and_truncated() {
    assert_eq!(disasm_syscalls(&[]), Vec::<u64>::new());
    // A truncated trailing instruction ends the scan quietly.
    assert_eq!(disasm_syscalls(&[0x73, 0]), Vec::<u64>::new());
}

#[test]
fn trap_instruction_fault_contained() {
    let (mut space, _alloc) = user_space(b"");
    let mut con = Console::new();
    let mut cx = TrapContext::app_init_context(0x1000, 0x21000, 0);
    let r = trap_handler(&mut cx, TrapCause::InstructionFault, 0x40, &mut space, &mut con,
        &all_enabled());
    assert_eq!(
        r,
        TrapOutcome::Fault { cause: TrapCause::InstructionFault, addr: 0x40, instr: 0x1000 },
    );
}
