//! The trap pipeline's kernel half: the saved-context layout and the
//! handler that classifies a trap cause and routes it to syscall
//! dispatch or fault termination.
//!
//! The entry trampoline and the cause/value registers live on the other
//! side of the platform boundary; they hand this module a saved context
//! and plain cause and value words, and take back the updated context
//! and the decided outcome.

use vstd::prelude::*;
use crate::addr_space::AddrSpace;
use crate::console::Console;
use crate::syscall::{syscall, spec_syscall, spec_read, buffer_bytes, buffer_readable,
    EnabledSyscalls, FatalReason, SyscallOutcome, FD_STDIN, SYSCALL_READ, SYSCALL_WRITE};

verus! {

/// Index of the stack-pointer register in the register file.
pub const REG_SP: usize = 2;

/// Index of the first argument / return-value register.
pub const REG_A0: usize = 10;

/// Index of the syscall-number register.
pub const REG_A7: usize = 17;

/// The execution state saved across a privilege-level crossing: the full
/// register file, the saved status word, and the saved program counter.
pub struct TrapContext {
    /// The 32 general-purpose registers.
    pub x: Vec<u64>,
    /// The saved status/control word.
    pub sstatus: u64,
    /// The saved program counter.
    pub sepc: u64,
}

impl TrapContext {
    /// The register file always holds exactly 32 registers.
    pub open spec fn wf(&self) -> bool {
        self.x@.len() == 32
    }

    /// Write the stack pointer register.
    pub fn set_sp(&mut self, sp: u64)
        requires
            old(self).wf(),
        ensures
            final(self).wf(),
            final(self).x@ == old(self).x@.update(REG_SP as int, sp),
            final(self).sstatus == old(self).sstatus,
            final(self).sepc == old(self).sepc,
    {
        self.x.set(REG_SP, sp);
    }

    /// The initial context for entering the application: all registers
    /// clear except the stack pointer, the program counter at the entry
    /// point, and the given status word (the platform supplies one with
    /// the previous-privilege field set to user).
    pub fn app_init_context(entry: u64, sp: u64, sstatus: u64) -> (r: TrapContext)
        ensures
            r.wf(),
            r.sepc == entry,
            r.sstatus == sstatus,
            r.x@[REG_SP as int] == sp,
            forall|i: int| 0 <= i < 32 && i != REG_SP ==> r.x@[i] == 0u64,
    {
        let mut x: Vec<u64> = Vec::new();
        let mut i: usize = 0;
        while i < 32
            invariant
                i <= 32,
                x@.len() == i,
                forall|j: int| 0 <= j < i ==> x@[j] == 0u64,
            decreases 32 - i,
        {
            x.push(0);
            i = i + 1;
        }
        let mut cx = TrapContext { x, sstatus, sepc: entry };
        cx.set_sp(sp);
        cx
    }
}

/// The trap causes this kernel distinguishes, as decoded from the cause
/// register by the platform layer.
#[derive(Clone, Copy, Debug, PartialEq, Eq, Structural)]
pub enum TrapCause {
    /// A system call from user mode.
    UserEnvCall,
    /// A load access fault.
    LoadFault,
    /// A load page fault.
    LoadPageFault,
    /// A store access fault.
    StoreFault,
    /// A store page fault.
    StorePageFault,
    /// An instruction access fault.
    InstructionFault,
    /// An instruction page fault.
    InstructionPageFault,
    /// An illegal instruction.
    IllegalInstruction,
    /// Any cause this kernel does not handle.
    Unknown,
}

/// Whether the cause is one of the faults the kernel reports and then
/// shuts down on.
pub open spec fn is_fault_cause(c: TrapCause) -> bool {
    ||| c is LoadFault
    ||| c is LoadPageFault
    ||| c is StoreFault
    ||| c is StorePageFault
    ||| c is InstructionFault
    ||| c is InstructionPageFault
    ||| c is IllegalInstruction
}

/// What the handler decides: the action the platform layer carries out
/// after the handler returns.
#[derive(Clone, Copy, Debug, PartialEq, Eq, Structural)]
pub enum TrapOutcome {
    /// Restore the context and drop back to user mode.
    Resume,
    /// The application exited with this code; shut the platform down,
    /// signalling failure for a non-zero code.
    Exit(i32),
    /// A fault at `addr` while executing at `instr`: report it, then
    /// shut the platform down with failure.
    Fault { cause: TrapCause, addr: u64, instr: u64 },
    /// A syscall-level protocol violation; the kernel halts.
    FatalSyscall(FatalReason),
    /// A trap cause the kernel does not support; the kernel halts.
    UnsupportedTrap,
}

/// Classify one trap and execute its policy: a system call advances the
/// saved program counter past the call instruction, dispatches, and
/// writes the result into the return-value register; faults and unknown
/// causes terminate.
pub fn trap_handler(
    cx: &mut TrapContext,
    cause: TrapCause,
    stval: u64,
    space: &mut AddrSpace,
    console: &mut Console,
    enabled: &EnabledSyscalls,
) -> (r: TrapOutcome)
    requires
        old(cx).wf(),
        old(space).wf(),
        old(cx).sepc <= u64::MAX - 4,
    ensures
        final(cx).wf(),
        final(space).wf(),
        cause is UserEnvCall ==> {
            let out = spec_syscall(
                *old(space),
                old(console).input_spec(),
                *enabled,
                old(cx).x@[REG_A7 as int],
                (old(cx).x@[REG_A0 as int], old(cx).x@[11], old(cx).x@[12]),
            );
            &&& final(cx).sepc == old(cx).sepc + 4
            &&& final(cx).sstatus == old(cx).sstatus
            &&& forall|i: int|
                0 <= i < 32 && i != REG_A0 ==> #[trigger] final(cx).x@[i] == old(cx).x@[i]
            &&& (match out {
                SyscallOutcome::Ret(v) => r == TrapOutcome::Resume && final(cx).x@[
                    REG_A0 as int] == v as u64,
                SyscallOutcome::Exit(c) => r == TrapOutcome::Exit(c) && final(cx).x@[
                    REG_A0 as int] == old(cx).x@[REG_A0 as int],
                SyscallOutcome::Fatal(f) => r == TrapOutcome::FatalSyscall(f) && final(cx).x@[
                    REG_A0 as int] == old(cx).x@[REG_A0 as int],
            })
            &&& {
                let id = old(cx).x@[REG_A7 as int];
                let a0 = old(cx).x@[REG_A0 as int];
                let a1 = old(cx).x@[11];
                let a2 = old(cx).x@[12];
                &&& (!(id == SYSCALL_READ && enabled.read) ==> *final(space) == *old(space))
                &&& (!(id == SYSCALL_READ && enabled.read) && !(id == SYSCALL_WRITE
                    && enabled.write) ==> *final(console) == *old(console))
                &&& (id == SYSCALL_WRITE && enabled.write ==> final(console).input_spec() == old(console).input_spec() && (out matches SyscallOutcome::Ret(n) ==> final(console).output_spec() == old(console).output_spec() + buffer_bytes(
                    *old(space),
                    a1 as int,
                    a2 as int,
                )) && (!(out matches SyscallOutcome::Ret(n)) ==> final(console).output_spec()
                    == old(console).output_spec()))
                &&& (id == SYSCALL_READ && enabled.read ==> final(console).output_spec() == old(console).output_spec() && ((a2 > 0 && a0 == FD_STDIN && buffer_readable(
                    *old(space),
                    a1 as int,
                    a2 as int,
                )) ==> {
                    let m = spec_read(old(console).input_spec(), a2 as int);
                    &&& final(console).input_spec() == old(console).input_spec().subrange(
                        m.consumed,
                        old(console).input_spec().len() as int,
                    )
                    &&& forall|j: int|
                        0 <= j < m.filled ==> #[trigger] final(space).user_byte(a1 + j) == Some(
                            old(console).input_spec()[j] as u8,
                        )
                    &&& forall|va: int|
                        !(a1 <= va < a1 + m.filled) ==> #[trigger] final(space).user_byte(va)
                            == old(space).user_byte(va)
                }))
            }
        },
        !(cause is UserEnvCall) ==> *final(cx) == *old(cx) && *final(space) == *old(space)
            && *final(console) == *old(console),
        is_fault_cause(cause) ==> r == (TrapOutcome::Fault {
            cause,
            addr: stval,
            instr: old(cx).sepc,
        }),
        cause is Unknown ==> r == TrapOutcome::UnsupportedTrap,
{
    match cause {
        TrapCause::UserEnvCall => {
            cx.sepc = cx.sepc + 4;
            let id = cx.x[REG_A7];
            let args = (cx.x[REG_A0], cx.x[11], cx.x[12]);
            match syscall(id, args, space, console, enabled) {
                SyscallOutcome::Ret(v) => {
                    cx.x.set(REG_A0, v as u64);
                    TrapOutcome::Resume
                },
                SyscallOutcome::Exit(c) => TrapOutcome::Exit(c),
                SyscallOutcome::Fatal(f) => TrapOutcome::FatalSyscall(f),
            }
        },
        TrapCause::LoadFault | TrapCause::LoadPageFault | TrapCause::StoreFault
            | TrapCause::StorePageFault | TrapCause::InstructionFault
            | TrapCause::InstructionPageFault | TrapCause::IllegalInstruction => TrapOutcome::Fault {
            cause,
            addr: stval,
            instr: cx.sepc,
        },
        TrapCause::Unknown => TrapOutcome::UnsupportedTrap,
    }
}

} // verus!
