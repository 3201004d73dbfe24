//! Syscall dispatch and the handlers themselves: `read`, `write` and
//! `exit`, each consuming and producing values through the address
//! space's buffer translation and the console model.
//!
//! Which syscalls are compiled in is decided outside the kernel core; an
//! id that is not enabled is treated exactly like an unknown id.

use vstd::prelude::*;
use crate::addr::VA_LIMIT;
use crate::addr_space::AddrSpace;
use crate::console::Console;

verus! {

/// Syscall number of `read`.
pub const SYSCALL_READ: u64 = 63;

/// Syscall number of `write`.
pub const SYSCALL_WRITE: u64 = 64;

/// Syscall number of `exit`.
pub const SYSCALL_EXIT: u64 = 93;

/// File descriptor of standard input.
pub const FD_STDIN: u64 = 0;

/// File descriptor of standard output.
pub const FD_STDOUT: u64 = 1;

/// Which handlers the build compiled in.
#[derive(Clone, Copy, Debug, PartialEq, Eq, Structural)]
pub struct EnabledSyscalls {
    pub read: bool,
    pub write: bool,
    pub exit: bool,
}

/// Conditions the kernel treats as protocol violations: it halts rather
/// than returning an error to the application.
#[derive(Clone, Copy, Debug, PartialEq, Eq, Structural)]
pub enum FatalReason {
    /// The syscall id is unknown or not compiled in.
    UnsupportedSyscall,
    /// A file descriptor other than the one the handler accepts.
    IllegalFd,
    /// The user buffer does not translate to backed memory.
    BadBuffer,
    /// The write buffer is not valid text.
    InvalidText,
}

/// What a syscall asks the kernel to do next.
#[derive(Clone, Copy, Debug, PartialEq, Eq, Structural)]
pub enum SyscallOutcome {
    /// Return this value to the application and resume it.
    Ret(i64),
    /// The application exited with this code; shut the platform down.
    Exit(i32),
    /// A protocol violation; the kernel halts.
    Fatal(FatalReason),
}

/// Whether the bytes are valid UTF-8; what `core::str::from_utf8`
/// accepts depends on the bytes alone.
pub uninterp spec fn utf8_ok(bytes: Seq<u8>) -> bool;

/// Relies on core::str::from_utf8: it accepts exactly the valid UTF-8
/// byte sequences, and bytes below 0x80 (plain ASCII) are always valid.
#[verifier::external_body]
fn check_utf8(b: &[u8]) -> (r: bool)
    ensures
        r == utf8_ok(b@),
        (forall|i: int| 0 <= i < b@.len() ==> b@[i] < 0x80) ==> r,
{
    core::str::from_utf8(b).is_ok()
}

/// Every byte of the range `[va, va + len)` reaches backed user memory.
pub open spec fn buffer_readable(space: AddrSpace, va: int, len: int) -> bool {
    forall|k: int| 0 <= k < len ==> (#[trigger] space.user_byte(va + k)) is Some
}

/// The bytes of the user range `[va, va + len)`.
pub open spec fn buffer_bytes(space: AddrSpace, va: int, len: int) -> Seq<u8> {
    Seq::new(len as nat, |k: int| space.user_byte(va + k)->Some_0)
}

/// What `write` decides, as a function of its inputs: only standard
/// output is legal, the buffer must translate, and its bytes must be
/// text; then the whole length is reported written.
pub open spec fn spec_sys_write(space: AddrSpace, fd: u64, buf: u64, len: u64) -> SyscallOutcome {
    if fd != FD_STDOUT {
        SyscallOutcome::Fatal(FatalReason::IllegalFd)
    } else if !buffer_readable(space, buf as int, len as int) {
        SyscallOutcome::Fatal(FatalReason::BadBuffer)
    } else if !utf8_ok(buffer_bytes(space, buf as int, len as int)) {
        SyscallOutcome::Fatal(FatalReason::InvalidText)
    } else {
        SyscallOutcome::Ret(len as i64)
    }
}

/// How a `read` run unfolds against pending console input: how many
/// characters are pulled, how many buffer bytes are filled, and whether
/// a character failed to fit in a byte.
pub ghost struct ReadModel {
    pub consumed: int,
    pub filled: int,
    pub failed: bool,
}

/// The run of the `read` loop: characters are pulled until the length is
/// reached, input is exhausted or delivers the zero word, or a character
/// does not fit in a byte.
pub open spec fn spec_read(input: Seq<u64>, len: int) -> ReadModel
    decreases len,
{
    if len <= 0 {
        ReadModel { consumed: 0, filled: 0, failed: false }
    } else if input.len() == 0 {
        ReadModel { consumed: 0, filled: 0, failed: false }
    } else if input[0] == 0 {
        ReadModel { consumed: 1, filled: 0, failed: false }
    } else if input[0] > 255 {
        ReadModel { consumed: 1, filled: 0, failed: true }
    } else {
        let m = spec_read(input.subrange(1, input.len() as int), len - 1);
        ReadModel { consumed: m.consumed + 1, filled: m.filled + 1, failed: m.failed }
    }
}

/// The counts of a `read` run stay within the input and the requested
/// length.
pub proof fn lemma_spec_read_bounds(input: Seq<u64>, len: int)
    ensures
        0 <= spec_read(input, len).consumed <= input.len(),
        0 <= spec_read(input, len).filled <= spec_read(input, len).consumed,
        spec_read(input, len).filled <= len || len < 0,
    decreases len,
{
    if len > 0 && input.len() > 0 && 0 < input[0] <= 255 {
        lemma_spec_read_bounds(input.subrange(1, input.len() as int), len - 1);
    }
}

/// What `read` decides, as a function of its inputs: a zero length is
/// refused outright, only standard input is legal, the buffer must
/// translate, and then the run model fixes the return value.
pub open spec fn spec_sys_read(
    space: AddrSpace,
    input: Seq<u64>,
    fd: u64,
    buf: u64,
    len: u64,
) -> SyscallOutcome {
    if len == 0 {
        SyscallOutcome::Ret(-1i64)
    } else if fd != FD_STDIN {
        SyscallOutcome::Fatal(FatalReason::IllegalFd)
    } else if !buffer_readable(space, buf as int, len as int) {
        SyscallOutcome::Fatal(FatalReason::BadBuffer)
    } else {
        let m = spec_read(input, len as int);
        if m.failed {
            SyscallOutcome::Ret(-1i64)
        } else {
            SyscallOutcome::Ret(m.filled as i64)
        }
    }
}

/// What the dispatcher decides for a given id and arguments.
pub open spec fn spec_syscall(
    space: AddrSpace,
    input: Seq<u64>,
    enabled: EnabledSyscalls,
    id: u64,
    args: (u64, u64, u64),
) -> SyscallOutcome {
    if id == SYSCALL_READ && enabled.read {
        spec_sys_read(space, input, args.0, args.1, args.2)
    } else if id == SYSCALL_WRITE && enabled.write {
        spec_sys_write(space, args.0, args.1, args.2)
    } else if id == SYSCALL_EXIT && enabled.exit {
        SyscallOutcome::Exit(args.0 as i32)
    } else {
        SyscallOutcome::Fatal(FatalReason::UnsupportedSyscall)
    }
}


/// A write to any descriptor other than standard output is fatal,
/// whatever the buffer holds.
pub proof fn lemma_write_illegal_fd(space: AddrSpace, fd: u64, buf: u64, len: u64)
    requires
        fd != FD_STDOUT,
    ensures
        spec_sys_write(space, fd, buf, len) == SyscallOutcome::Fatal(FatalReason::IllegalFd),
{
}

/// A zero-length read returns -1 before anything else is looked at, so
/// no input is consumed (the handler's contract leaves the console and
/// the address space unchanged in that case).
pub proof fn lemma_read_zero_len(space: AddrSpace, input: Seq<u64>, fd: u64, buf: u64)
    ensures
        spec_sys_read(space, input, fd, buf, 0) == SyscallOutcome::Ret(-1i64),
{
}

/// Write `len` bytes from the user buffer at `buf` to the console:
/// translate the buffer through the address space, require text, and
/// report the whole length.
pub fn sys_write(fd: u64, buf: u64, len: u64, space: &AddrSpace, console: &mut Console) -> (r:
    SyscallOutcome)
    requires
        space.wf(),
    ensures
        r == spec_sys_write(*space, fd, buf, len),
        final(console).input_spec() == old(console).input_spec(),
        r matches SyscallOutcome::Ret(n) ==> final(console).output_spec() == old(
            console,
        ).output_spec() + buffer_bytes(*space, buf as int, len as int),
        !(r matches SyscallOutcome::Ret(n)) ==> final(console).output_spec() == old(
            console,
        ).output_spec(),
    {
    if fd != FD_STDOUT {
        return SyscallOutcome::Fatal(FatalReason::IllegalFd);
    }
    let mut v: Vec<u8> = Vec::new();
    let mut k: u64 = 0;
    while k < len
        invariant
            space.wf(),
            fd == FD_STDOUT,
            k <= len,
            k == 0 || buf + k <= VA_LIMIT,
            v@.len() == k,
            forall|j: int| 0 <= j < k ==> (#[trigger] space.user_byte(buf + j)) is Some,
            forall|j: int| 0 <= j < k ==> v@[j] == space.user_byte(buf + j)->Some_0,
        decreases len - k,
    {
        let va = buf + k;
        match space.read_byte_at(va) {
            Some(b) => {
                v.push(b);
                proof {
                    assert(space.user_byte(va as int) is Some);
                }
            },
            None => {
                proof {
                    assert(va as int == buf + k);
                    assert(space.user_byte(buf + k) is None);
                    assert(!buffer_readable(*space, buf as int, len as int));
                }
                return SyscallOutcome::Fatal(FatalReason::BadBuffer);
            },
        }
        k = k + 1;
    }
    proof {
        assert(v@ =~= buffer_bytes(*space, buf as int, len as int));
    }
    if !check_utf8(v.as_slice()) {
        return SyscallOutcome::Fatal(FatalReason::InvalidText);
    }
    console.put_bytes(v.as_slice());
    SyscallOutcome::Ret(len as i64)
}

/// Read up to `len` bytes from the console into the user buffer at
/// `buf`: the buffer is translated first, then characters are pulled one
/// at a time until the length is reached or input runs out.
pub fn sys_read(fd: u64, buf: u64, len: u64, space: &mut AddrSpace, console: &mut Console) -> (r:
    SyscallOutcome)
    requires
        old(space).wf(),
    ensures
        final(space).wf(),
        r == spec_sys_read(*old(space), old(console).input_spec(), fd, buf, len),
        final(console).output_spec() == old(console).output_spec(),
        (len == 0 || fd != FD_STDIN || !buffer_readable(*old(space), buf as int, len as int))
            ==> *final(space) == *old(space) && final(console).input_spec() == old(
            console,
        ).input_spec(),
        (len > 0 && fd == FD_STDIN && buffer_readable(*old(space), buf as int, len as int)) ==> {
            let m = spec_read(old(console).input_spec(), len as int);
            &&& final(console).input_spec() == old(console).input_spec().subrange(
                m.consumed,
                old(console).input_spec().len() as int,
            )
            &&& forall|j: int|
                0 <= j < m.filled ==> #[trigger] final(space).user_byte(buf + j) == Some(
                    old(console).input_spec()[j] as u8,
                )
            &&& forall|va: int|
                !(buf <= va < buf + m.filled) ==> #[trigger] final(space).user_byte(va) == old(
                    space,
                ).user_byte(va)
        },
    {
    if len == 0 {
        return SyscallOutcome::Ret(-1);
    }
    if fd != FD_STDIN {
        return SyscallOutcome::Fatal(FatalReason::IllegalFd);
    }
    // Translate the whole buffer before pulling any input: a bad
    // buffer consumes nothing.
    let mut k: u64 = 0;
    while k < len
        invariant
            *space == *old(space),
            *console == *old(console),
            space.wf(),
            fd == FD_STDIN,
            len > 0,
            k <= len,
            k == 0 || buf + k <= VA_LIMIT,
            forall|j: int| 0 <= j < k ==> (#[trigger] space.user_byte(buf + j)) is Some,
        decreases len - k,
    {
        let va = buf + k;
        match space.read_byte_at(va) {
            Some(_) => {
                proof {
                    assert(space.user_byte(va as int) is Some);
                }
            },
            None => {
                proof {
                    assert(va as int == buf + k);
                    assert(space.user_byte(buf + k) is None);
                    assert(!buffer_readable(*space, buf as int, len as int));
                }
                return SyscallOutcome::Fatal(FatalReason::BadBuffer);
            },
        }
        k = k + 1;
    }
    let ghost input0 = console.input_spec();
    let ghost space0 = *space;
    let ghost m_total = spec_read(input0, len as int);
    let mut cnt: u64 = 0;
    loop
        invariant
            space.wf(),
            fd == FD_STDIN,
            len > 0,
            cnt <= len,
            space0 == *old(space),
            input0 == old(console).input_spec(),
            buffer_readable(space0, buf as int, len as int),
            m_total == spec_read(input0, len as int),
            console.output_spec() == old(console).output_spec(),
            console.input_spec() =~= input0.subrange(cnt as int, input0.len() as int),
            cnt <= input0.len(),
            forall|j: int| 0 <= j < cnt ==> 0 < #[trigger] input0[j] <= 255,
            m_total.consumed == cnt + spec_read(console.input_spec(), len - cnt).consumed,
            m_total.filled == cnt + spec_read(console.input_spec(), len - cnt).filled,
            m_total.failed == spec_read(console.input_spec(), len - cnt).failed,
            forall|j: int| 0 <= j < len ==> (#[trigger] space.user_byte(buf + j)) is Some,
            forall|j: int|
                0 <= j < cnt ==> #[trigger] space.user_byte(buf + j) == Some(input0[j] as u8),
            forall|va: int|
                !(buf <= va < buf + cnt) ==> #[trigger] space.user_byte(va) == space0.user_byte(
                    va,
                ),
        decreases len - cnt,
    {
        if cnt >= len {
            proof {
                lemma_spec_read_bounds(input0, len as int);
                assert(spec_read(console.input_spec(), 0) == ReadModel {
                    consumed: 0,
                    filled: 0,
                    failed: false,
                });
            }
            return SyscallOutcome::Ret(len as i64);
        }
        let ghost input_cur = console.input_spec();
        let ch = console.getchar();
        if ch == 0 {
            proof {
                lemma_spec_read_bounds(input0, len as int);
                if input_cur.len() == 0 {
                    assert(spec_read(input_cur, len - cnt) == ReadModel {
                        consumed: 0,
                        filled: 0,
                        failed: false,
                    });
                } else {
                    assert(input_cur[0] == 0);
                    assert(spec_read(input_cur, len - cnt) == ReadModel {
                        consumed: 1,
                        filled: 0,
                        failed: false,
                    });
                    assert(console.input_spec() =~= input0.subrange(
                        cnt + 1,
                        input0.len() as int,
                    ));
                }
            }
            return SyscallOutcome::Ret(cnt as i64);
        }
        proof {
            assert(input_cur.len() > 0);
            assert(input_cur[0] == ch);
        }
        if ch > 255 {
            proof {
                lemma_spec_read_bounds(input0, len as int);
                assert(spec_read(input_cur, len - cnt) == ReadModel {
                    consumed: 1,
                    filled: 0,
                    failed: true,
                });
            }
            return SyscallOutcome::Ret(-1);
        }
        proof {
            assert(space0.user_byte(buf + (len - 1)) is Some);
        }
        let va = buf + cnt;
        let ghost space_pre = *space;
        let ok = space.write_byte_at(va, ch as u8);
        proof {
            assert(space_pre.user_byte(va as int) is Some);
            assert(ok);
            let rest = input_cur.subrange(1, input_cur.len() as int);
            assert(spec_read(input_cur, len - cnt) == ReadModel {
                consumed: spec_read(rest, len - cnt - 1).consumed + 1,
                filled: spec_read(rest, len - cnt - 1).filled + 1,
                failed: spec_read(rest, len - cnt - 1).failed,
            });
            assert(console.input_spec() =~= input0.subrange(cnt + 1, input0.len() as int));
            assert(console.input_spec() =~= rest);
            assert forall|j: int|
                0 <= j < cnt + 1 implies #[trigger] space.user_byte(buf + j) == Some(
                input0[j] as u8,
            ) by {
                if j < cnt {
                    assert(space.user_byte(buf + j) == space_pre.user_byte(buf + j));
                } else {
                    assert(input0[cnt as int] == input_cur[0]);
                }
            }
            assert forall|j: int|
                0 <= j < len implies (#[trigger] space.user_byte(buf + j)) is Some by {
                if buf + j != va {
                    assert(space.user_byte(buf + j) == space_pre.user_byte(buf + j));
                }
            }
        }
        cnt = cnt + 1;
    }
}

/// The application exited: report the code for the platform shutdown.
pub fn sys_exit(exit_code: i32) -> (r: SyscallOutcome)
    ensures
        r == SyscallOutcome::Exit(exit_code),
{
    SyscallOutcome::Exit(exit_code)
}

/// Route a syscall id to its handler. An id that is unknown, or known
/// but not compiled in, is a fatal protocol violation.
pub fn syscall(
    syscall_id: u64,
    args: (u64, u64, u64),
    space: &mut AddrSpace,
    console: &mut Console,
    enabled: &EnabledSyscalls,
) -> (r: SyscallOutcome)
    requires
        old(space).wf(),
    ensures
        final(space).wf(),
        r == spec_syscall(
            *old(space),
            old(console).input_spec(),
            *enabled,
            syscall_id,
            args,
        ),
        !(syscall_id == SYSCALL_READ && enabled.read) ==> *final(space) == *old(space),
        !(syscall_id == SYSCALL_READ && enabled.read) && !(syscall_id == SYSCALL_WRITE
            && enabled.write) ==> *final(console) == *old(console),
        syscall_id == SYSCALL_WRITE && enabled.write ==> {
            &&& *final(space) == *old(space)
            &&& final(console).input_spec() == old(console).input_spec()
            &&& (r matches SyscallOutcome::Ret(n) ==> final(console).output_spec() == old(
                console,
            ).output_spec() + buffer_bytes(*old(space), args.1 as int, args.2 as int))
            &&& (!(r matches SyscallOutcome::Ret(n)) ==> final(console).output_spec() == old(
                console,
            ).output_spec())
        },
        syscall_id == SYSCALL_READ && enabled.read ==> {
            &&& final(console).output_spec() == old(console).output_spec()
            &&& ((args.2 == 0 || args.0 != FD_STDIN || !buffer_readable(
                *old(space),
                args.1 as int,
                args.2 as int,
            )) ==> *final(space) == *old(space) && final(console).input_spec() == old(
                console,
            ).input_spec())
            &&& ((args.2 > 0 && args.0 == FD_STDIN && buffer_readable(
                *old(space),
                args.1 as int,
                args.2 as int,
            )) ==> {
                let m = spec_read(old(console).input_spec(), args.2 as int);
                &&& final(console).input_spec() == old(console).input_spec().subrange(
                    m.consumed,
                    old(console).input_spec().len() as int,
                )
                &&& forall|j: int|
                    0 <= j < m.filled ==> #[trigger] final(space).user_byte(args.1 + j) == Some(
                        old(console).input_spec()[j] as u8,
                    )
                &&& forall|va: int|
                    !(args.1 <= va < args.1 + m.filled) ==> #[trigger] final(space).user_byte(va)
                        == old(space).user_byte(va)
            })
        },
    {
    if syscall_id == SYSCALL_READ && enabled.read {
        sys_read(args.0, args.1, args.2, space, console)
    } else if syscall_id == SYSCALL_WRITE && enabled.write {
        sys_write(args.0, args.1, args.2, space, console)
    } else if syscall_id == SYSCALL_EXIT && enabled.exit {
        sys_exit(args.0 as i32)
    } else {
        SyscallOutcome::Fatal(FatalReason::UnsupportedSyscall)
    }
}

} // verus!
