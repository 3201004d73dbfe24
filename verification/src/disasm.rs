//! Scanning an instruction stream for the system calls it can issue: the
//! immediate loaded into the syscall-number register is tracked across
//! the two addressing idioms (load-upper-immediate, and add-immediate
//! from zero or from the register itself), and recorded at each
//! environment-call instruction.

use vstd::prelude::*;

verus! {

/// Register number of the syscall-number register.
pub const SYSCALL_REG: u32 = 17;

/// The instructions the scan distinguishes; every other instruction, and
/// every word the decoder rejects, leaves the tracked state alone.
#[derive(Clone, Copy, Debug, PartialEq, Eq, Structural)]
pub enum DecodedInstr {
    /// Load upper immediate: the immediate already carries its shift.
    Lui { rd: u32, imm: u32 },
    /// Add immediate: the immediate is the raw 12-bit field.
    Addi { rd: u32, rs1: u32, imm: u32 },
    /// The environment-call instruction.
    Ecall,
    /// Anything else.
    Other,
}

/// How a 32-bit word decodes, as far as this scan cares: the environment
/// call is one fixed word; load-upper-immediate and add-immediate are
/// recognised by their opcode fields, with the field layout of the
/// instruction set.
pub open spec fn spec_decoded(w: u32) -> DecodedInstr {
    if w == 0x73 {
        DecodedInstr::Ecall
    } else if w & 0x7f == 0x37 {
        DecodedInstr::Lui { rd: (w >> 7) & 0x1f, imm: w & 0xffff_f000 }
    } else if w & 0x7f == 0x13 && (w >> 12) & 7 == 0 {
        DecodedInstr::Addi { rd: (w >> 7) & 0x1f, rs1: (w >> 15) & 0x1f, imm: w >> 20 }
    } else {
        DecodedInstr::Other
    }
}

/// Relies on riscv_decode::decode and the field accessors of its UType
/// and IType records: LUI is opcode 0b0110111 with its immediate kept in
/// place, ADDI is opcode 0b0010011 with funct3 zero and a zero-extended
/// immediate, ECALL is the exact word 0x73, and no other word (including
/// every compressed encoding) decodes to one of those three.
#[verifier::external_body]
fn decode_instr(word: u32) -> (r: DecodedInstr)
    ensures
        r == spec_decoded(word),
{
    match riscv_decode::decode(word) {
        Ok(riscv_decode::Instruction::Lui(u)) => DecodedInstr::Lui { rd: u.rd(), imm: u.imm() },
        Ok(riscv_decode::Instruction::Addi(i)) => DecodedInstr::Addi {
            rd: i.rd(),
            rs1: i.rs1(),
            imm: i.imm(),
        },
        Ok(riscv_decode::Instruction::Ecall) => DecodedInstr::Ecall,
        _ => DecodedInstr::Other,
    }
}

/// The length in bytes of an instruction, read off the low bits of its
/// first 16-bit parcel, as the instruction set's length encoding lays
/// them out.
pub open spec fn spec_instruction_length(i: u16) -> usize {
    if i & 3 != 3 {
        2
    } else if i & 0x1c != 0x1c {
        4
    } else if i & 0x3f == 0x1f {
        6
    } else if i & 0x7f == 0x1f {
        8
    } else {
        (10 + 2 * ((i >> 12) & 7)) as usize
    }
}

/// The length in bytes of the instruction whose low 16 bits are `i`.
pub fn instruction_length(i: u16) -> (r: usize)
    ensures
        r == spec_instruction_length(i),
{
    if i & 3 != 3 {
        2
    } else if i & 0x1c != 0x1c {
        4
    } else if i & 0x3f == 0x1f {
        6
    } else if i & 0x7f == 0x1f {
        8
    } else {
        (10 + 2 * (((i >> 12) & 7) as usize))
    }
}

/// 64-bit modular addition, as the tracked register accumulates.
pub open spec fn spec_wrap_add(a: u64, b: u64) -> u64 {
    ((a + b) % 0x1_0000_0000_0000_0000) as u64
}

/// The tracked syscall-number register after one instruction.
pub open spec fn spec_track(d: DecodedInstr, a7: u64) -> u64 {
    match d {
        DecodedInstr::Lui { rd, imm } => if rd == SYSCALL_REG {
            imm as u64
        } else {
            a7
        },
        DecodedInstr::Addi { rd, rs1, imm } => if rd == SYSCALL_REG && rs1 == 0 {
            imm as u64
        } else if rd == SYSCALL_REG && rs1 == SYSCALL_REG {
            spec_wrap_add(a7, imm as u64)
        } else {
            a7
        },
        _ => a7,
    }
}

/// The 32-bit word scanned at `cur`: the next two bytes, or four when
/// the length encoding says so.
pub open spec fn spec_word_at(text: Seq<u8>, cur: int) -> u32 {
    if spec_instruction_length((text[cur] + text[cur + 1] * 0x100) as u16) == 4 {
        (text[cur] + text[cur + 1] * 0x100 + text[cur + 2] * 0x1_0000 + text[cur + 3]
            * 0x100_0000) as u32
    } else {
        (text[cur] + text[cur + 1] * 0x100) as u32
    }
}

/// The set of syscall numbers the scan finds from position `cur` with
/// the tracked register holding `a7`. The scan stops at a truncated
/// trailing instruction.
pub open spec fn spec_scan(text: Seq<u8>, cur: int, a7: u64) -> Set<u64>
    decreases text.len() - cur,
{
    if cur < 0 || cur + 2 > text.len() {
        Set::empty()
    } else {
        let step: int = if spec_instruction_length(
            (text[cur] + text[cur + 1] * 0x100) as u16,
        ) == 4 {
            4
        } else {
            2
        };
        if cur + step > text.len() {
            Set::empty()
        } else {
            let d = spec_decoded(spec_word_at(text, cur));
            let rest = spec_scan(text, cur + step, spec_track(d, a7));
            if d is Ecall {
                rest.insert(a7)
            } else {
                rest
            }
        }
    }
}

/// Appending an element to a sequence makes it contain exactly that
/// element more.
proof fn lemma_push_contains(s: Seq<u64>, x: u64)
    ensures
        forall|y: u64| s.push(x).contains(y) <==> s.contains(y) || y == x,
{
    assert forall|y: u64| s.push(x).contains(y) <==> s.contains(y) || y == x by {
        if s.contains(y) {
            let i = choose|i: int| 0 <= i < s.len() && s[i] == y;
            assert(s.push(x)[i] == y);
        }
        if y == x {
            assert(s.push(x)[s.len() as int] == y);
        }
        if s.push(x).contains(y) && y != x {
            let i = choose|i: int| 0 <= i < s.push(x).len() && s.push(x)[i] == y;
            assert(s[i] == y);
        }
    }
}

/// Whether the vector already holds the value.
fn vec_contains(v: &Vec<u64>, x: u64) -> (r: bool)
    ensures
        r == v@.contains(x),
{
    let mut i: usize = 0;
    while i < v.len()
        invariant
            i <= v@.len(),
            forall|j: int| 0 <= j < i ==> v@[j] != x,
        decreases v@.len() - i,
    {
        if v[i] == x {
            proof {
                assert(v@[i as int] == x);
            }
            return true;
        }
        i = i + 1;
    }
    false
}

/// Scan an executable section for the system-call numbers it can issue:
/// each distinct tracked value at an environment-call instruction, in
/// first-seen order.
pub fn disasm_syscalls(text: &[u8]) -> (r: Vec<u64>)
    ensures
        forall|s: u64| r@.contains(s) <==> spec_scan(text@, 0, 0).contains(s),
        forall|i: int, j: int| 0 <= i < j < r@.len() ==> r@[i] != r@[j],
{
    let n = text.len();
    let mut acc: Vec<u64> = Vec::new();
    let mut cur: usize = 0;
    let mut a7: u64 = 0;
    loop
        invariant
            n == text@.len(),
            cur <= n,
            forall|s: u64|
                #[trigger] spec_scan(text@, 0, 0).contains(s) <==> acc@.contains(s) || spec_scan(
                    text@,
                    cur as int,
                    a7,
                ).contains(s),
            forall|s: u64| acc@.contains(s) ==> spec_scan(text@, 0, 0).contains(s),
            forall|i: int, j: int| 0 <= i < j < acc@.len() ==> acc@[i] != acc@[j],
        decreases n - cur,
    {
        if cur >= n || n - cur < 2 {
            proof {
                assert(spec_scan(text@, cur as int, a7) =~= Set::<u64>::empty());
            }
            return acc;
        }
        let lo: u16 = (text[cur] as u16) + (text[cur + 1] as u16) * 0x100;
        let step: usize = if instruction_length(lo) == 4 {
            4
        } else {
            2
        };
        if n - cur < step {
            proof {
                assert(spec_scan(text@, cur as int, a7) =~= Set::<u64>::empty());
            }
            return acc;
        }
        let w: u32 = if step == 4 {
            (text[cur] as u32) + (text[cur + 1] as u32) * 0x100 + (text[cur + 2] as u32) * 0x1_0000
                + (text[cur + 3] as u32) * 0x100_0000
        } else {
            lo as u32
        };
        proof {
            assert(w == spec_word_at(text@, cur as int));
        }
        let d = decode_instr(w);
        let ghost scan_here = spec_scan(text@, cur as int, a7);
        let ghost a7_next = spec_track(d, a7);
        proof {
            assert(scan_here == if d is Ecall {
                spec_scan(text@, cur as int + step, a7_next).insert(a7)
            } else {
                spec_scan(text@, cur as int + step, a7_next)
            });
        }
        match d {
            DecodedInstr::Lui { rd, imm } => {
                if rd == SYSCALL_REG {
                    a7 = imm as u64;
                }
            },
            DecodedInstr::Addi { rd, rs1, imm } => {
                if rd == SYSCALL_REG && rs1 == 0 {
                    a7 = imm as u64;
                } else if rd == SYSCALL_REG && rs1 == SYSCALL_REG {
                    let b = imm as u64;
                    let ghost a7_was = a7;
                    a7 = if a7 <= u64::MAX - b {
                        a7 + b
                    } else {
                        b - (u64::MAX - a7) - 1
                    };
                    proof {
                        assert(a7 == spec_wrap_add(a7_was, b));
                    }
                }
            },
            DecodedInstr::Ecall => {
                if !vec_contains(&acc, a7) {
                    let ghost acc_pre = acc@;
                    acc.push(a7);
                    proof {
                        lemma_push_contains(acc_pre, a7);
                    }
                }
            },
            DecodedInstr::Other => {},
        }
        proof {
            assert(a7 == a7_next);
        }
        cur = cur + step;
    }
}

} // verus!
