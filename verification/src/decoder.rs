//! The decoder: turns raw bytes at an address into a structured instruction,
//! as a pure function of the current memory contents, plus the theory of
//! decoded basic blocks (what it means for a stored instruction sequence to
//! match a fresh decode of memory).

use vstd::prelude::*;

use crate::instruction::{
    spec_instruction_length, spec_is_basic_block_end, wf_instruction, Instruction,
};

verus! {

/// What decoding returns at address `a` of memory `mem`: `None` for an
/// illegal encoding or an address too close to the end of memory, otherwise
/// the structured instruction. Decoding reads only the instruction's own
/// bytes (one byte for the compressed no-op, four bytes otherwise).
pub open spec fn decode_at(mem: Seq<u8>, a: int) -> Option<Instruction> {
    if a < 0 || a + 2 > mem.len() {
        None
    } else if mem[a] == 0x20 {
        Some(Instruction::Cnop)
    } else if a + 4 > mem.len() {
        None
    } else {
        let b1 = mem[a + 1];
        let b2 = mem[a + 2];
        let b3 = mem[a + 3];
        let imm = (b2 + b3 * 256) as u16;
        if mem[a] == 0x00 {
            Some(Instruction::Li { rd: b1 % 8, imm })
        } else if mem[a] == 0x01 {
            Some(Instruction::Add { rd: b1 % 8, rs1: b2 % 8, rs2: b3 % 8 })
        } else if mem[a] == 0x02 {
            Some(Instruction::Sb { rs_addr: b1 % 8, rs_val: b2 % 8 })
        } else if mem[a] == 0x03 {
            Some(Instruction::Lb { rd: b1 % 8, rs_addr: b2 % 8 })
        } else if mem[a] == 0x10 {
            Some(Instruction::Jmp { target: imm })
        } else if mem[a] == 0x11 {
            Some(Instruction::Beqz { rs: b1 % 8, target: imm })
        } else if mem[a] == 0x12 {
            Some(Instruction::Ecall { rs: b1 % 8 })
        } else if mem[a] == 0x13 {
            Some(Instruction::Ebreak)
        } else {
            None
        }
    }
}

/// Executable decoder; returns exactly what [`decode_at`] says.
pub fn decode(mem: &Vec<u8>, pc: usize) -> (r: Option<Instruction>)
    ensures
        r == decode_at(mem@, pc as int),
{
    if mem.len() < 2 || pc > mem.len() - 2 {
        return None;
    }
    let b0 = mem[pc];
    if b0 == 0x20 {
        return Some(Instruction::Cnop);
    }
    if mem.len() < 4 || pc > mem.len() - 4 {
        return None;
    }
    let b1 = mem[pc + 1];
    let b2 = mem[pc + 2];
    let b3 = mem[pc + 3];
    let imm = b2 as u16 + (b3 as u16) * 256;
    if b0 == 0x00 {
        Some(Instruction::Li { rd: b1 % 8, imm })
    } else if b0 == 0x01 {
        Some(Instruction::Add { rd: b1 % 8, rs1: b2 % 8, rs2: b3 % 8 })
    } else if b0 == 0x02 {
        Some(Instruction::Sb { rs_addr: b1 % 8, rs_val: b2 % 8 })
    } else if b0 == 0x03 {
        Some(Instruction::Lb { rd: b1 % 8, rs_addr: b2 % 8 })
    } else if b0 == 0x10 {
        Some(Instruction::Jmp { target: imm })
    } else if b0 == 0x11 {
        Some(Instruction::Beqz { rs: b1 % 8, target: imm })
    } else if b0 == 0x12 {
        Some(Instruction::Ecall { rs: b1 % 8 })
    } else if b0 == 0x13 {
        Some(Instruction::Ebreak)
    } else {
        None
    }
}

/// A successful decode yields a well-formed instruction whose bytes lie
/// entirely inside memory.
pub proof fn lemma_decode_at_wf(mem: Seq<u8>, a: int)
    requires
        decode_at(mem, a) is Some,
    ensures
        wf_instruction(decode_at(mem, a)->Some_0),
        a >= 0,
        a + spec_instruction_length(decode_at(mem, a)->Some_0) <= mem.len(),
{
}

/// The address one past the last byte of a decoded instruction sequence that
/// starts at `start`.
pub open spec fn block_end(start: int, s: Seq<Instruction>) -> int
    decreases s.len(),
{
    if s.len() == 0 {
        start
    } else {
        block_end(start, s.drop_last()) + spec_instruction_length(s.last())
    }
}

/// The stored sequence `s` is exactly what decoding fresh from `mem` yields,
/// instruction by instruction, starting at `start`.
pub open spec fn block_decodes(mem: Seq<u8>, start: int, s: Seq<Instruction>) -> bool
    decreases s.len(),
{
    if s.len() == 0 {
        true
    } else {
        block_decodes(mem, start, s.drop_last()) && decode_at(
            mem,
            block_end(start, s.drop_last()),
        ) == Some(s.last())
    }
}

/// Each instruction spans two to four bytes, so a sequence of `n`
/// instructions spans between `2n` and `4n` bytes.
pub proof fn lemma_block_end_bounds(start: int, s: Seq<Instruction>)
    ensures
        start + 2 * s.len() <= block_end(start, s) <= start + 4 * s.len(),
    decreases s.len(),
{
    if s.len() > 0 {
        lemma_block_end_bounds(start, s.drop_last());
    }
}

/// Appending one instruction extends the block by that instruction's length.
pub proof fn lemma_block_push(mem: Seq<u8>, start: int, s: Seq<Instruction>, i: Instruction)
    ensures
        block_end(start, s.push(i)) == block_end(start, s) + spec_instruction_length(i),
        block_decodes(mem, start, s.push(i)) <==> (block_decodes(mem, start, s) && decode_at(
            mem,
            block_end(start, s),
        ) == Some(i)),
{
    assert(s.push(i).drop_last() =~= s);
    assert(s.push(i).last() == i);
}

/// Prefixes of the block-end sum advance by exactly one instruction length.
pub proof fn lemma_block_take_succ(start: int, s: Seq<Instruction>, j: int)
    requires
        0 <= j < s.len(),
    ensures
        block_end(start, s.take(j + 1)) == block_end(start, s.take(j)) + spec_instruction_length(
            s[j],
        ),
{
    assert(s.take(j + 1).drop_last() =~= s.take(j));
    assert(s.take(j + 1).last() == s[j]);
}

/// A prefix of a freshly-decoding sequence decodes freshly too.
pub proof fn lemma_block_decodes_take(mem: Seq<u8>, start: int, s: Seq<Instruction>, j: int)
    requires
        block_decodes(mem, start, s),
        0 <= j <= s.len(),
    ensures
        block_decodes(mem, start, s.take(j)),
    decreases s.len(),
{
    if j == s.len() {
        assert(s.take(j) =~= s);
    } else {
        lemma_block_decodes_take(mem, start, s.drop_last(), j);
        assert(s.drop_last().take(j) =~= s.take(j));
    }
}

/// Element `j` of a freshly-decoding sequence is what decoding returns at
/// the address where that element starts.
pub proof fn lemma_block_decodes_index(mem: Seq<u8>, start: int, s: Seq<Instruction>, j: int)
    requires
        block_decodes(mem, start, s),
        0 <= j < s.len(),
    ensures
        decode_at(mem, block_end(start, s.take(j))) == Some(s[j]),
{
    lemma_block_decodes_take(mem, start, s, j + 1);
    assert(s.take(j + 1).drop_last() =~= s.take(j));
    assert(s.take(j + 1).last() == s[j]);
    assert(block_decodes(mem, start, s.take(j + 1)));
}

/// Decoding depends only on the instruction's own bytes.
pub proof fn lemma_decode_at_frame(mem1: Seq<u8>, mem2: Seq<u8>, a: int, i: Instruction)
    requires
        decode_at(mem1, a) == Some(i),
        mem2.len() == mem1.len(),
        forall|k: int| a <= k < a + spec_instruction_length(i) ==> mem2[k] == mem1[k],
    ensures
        decode_at(mem2, a) == Some(i),
{
    assert(mem2[a] == mem1[a]);
    if mem1[a] != 0x20 {
        assert(mem2[a + 1] == mem1[a + 1]);
        assert(mem2[a + 2] == mem1[a + 2]);
        assert(mem2[a + 3] == mem1[a + 3]);
    }
}

/// A cached block whose underlying bytes are untouched still decodes freshly
/// after unrelated memory changes.
pub proof fn lemma_block_decodes_frame(mem1: Seq<u8>, mem2: Seq<u8>, start: int, s: Seq<
    Instruction,
>)
    requires
        block_decodes(mem1, start, s),
        mem2.len() == mem1.len(),
        forall|k: int| start <= k < block_end(start, s) ==> mem2[k] == mem1[k],
    ensures
        block_decodes(mem2, start, s),
    decreases s.len(),
{
    if s.len() > 0 {
        let sd = s.drop_last();
        lemma_block_end_bounds(start, sd);
        assert(spec_instruction_length(s.last()) >= 2);
        lemma_block_decodes_frame(mem1, mem2, start, sd);
        lemma_decode_at_frame(mem1, mem2, block_end(start, sd), s.last());
    }
}

/// Decoding forward from `a` reaches an illegal or out-of-range encoding
/// within `fuel` instructions without first meeting a basic-block end.
pub open spec fn decode_chain_fails(mem: Seq<u8>, a: int, fuel: nat) -> bool
    decreases fuel,
{
    fuel > 0 && match decode_at(mem, a) {
        Option::None => true,
        Option::Some(i) => !spec_is_basic_block_end(i) && decode_chain_fails(
            mem,
            a + spec_instruction_length(i),
            (fuel - 1) as nat,
        ),
    }
}

/// A freshly-decoding sequence can be consumed from the front.
pub proof fn lemma_block_decodes_shift(mem: Seq<u8>, start: int, s: Seq<Instruction>)
    requires
        block_decodes(mem, start, s),
        s.len() > 0,
    ensures
        decode_at(mem, start) == Some(s[0]),
        block_decodes(mem, start + spec_instruction_length(s[0]), s.skip(1)),
        block_end(start + spec_instruction_length(s[0]), s.skip(1)) == block_end(start, s),
    decreases s.len(),
{
    if s.len() == 1 {
        assert(s.drop_last() =~= Seq::<Instruction>::empty());
        assert(s.skip(1) =~= Seq::<Instruction>::empty());
        assert(s.last() == s[0]);
    } else {
        let sd = s.drop_last();
        lemma_block_decodes_shift(mem, start, sd);
        assert(sd[0] == s[0]);
        assert(s.skip(1).drop_last() =~= sd.skip(1));
        assert(s.skip(1).last() == s.last());
    }
}

/// If a non-ending prefix decodes freshly and the next decode fails, then
/// decoding forward fails within any larger fuel bound.
pub proof fn lemma_chain_fails_from_prefix(
    mem: Seq<u8>,
    start: int,
    s: Seq<Instruction>,
    fuel: nat,
)
    requires
        block_decodes(mem, start, s),
        forall|j: int| 0 <= j < s.len() ==> !spec_is_basic_block_end(#[trigger] s[j]),
        decode_at(mem, block_end(start, s)) is None,
        s.len() < fuel,
    ensures
        decode_chain_fails(mem, start, fuel),
    decreases s.len(),
{
    if s.len() == 0 {
    } else {
        lemma_block_decodes_shift(mem, start, s);
        let s2 = s.skip(1);
        assert(forall|j: int|
            0 <= j < s2.len() ==> !spec_is_basic_block_end(#[trigger] s2[j]) && s2[j] == s[j + 1]);
        lemma_chain_fails_from_prefix(
            mem,
            start + spec_instruction_length(s[0]),
            s2,
            (fuel - 1) as nat,
        );
    }
}

/// Fill determinism: two maximal basic blocks decoded freshly from the same
/// memory at the same start address hold identical instructions. `cap` is
/// the per-trace instruction capacity; a block shorter than `cap` must end
/// in a basic-block-ending instruction.
pub proof fn lemma_block_unique(
    mem: Seq<u8>,
    start: int,
    s1: Seq<Instruction>,
    s2: Seq<Instruction>,
    cap: int,
)
    requires
        block_decodes(mem, start, s1),
        block_decodes(mem, start, s2),
        1 <= s1.len() <= cap,
        1 <= s2.len() <= cap,
        forall|j: int| 0 <= j < s1.len() - 1 ==> !spec_is_basic_block_end(#[trigger] s1[j]),
        forall|j: int| 0 <= j < s2.len() - 1 ==> !spec_is_basic_block_end(#[trigger] s2[j]),
        s1.len() < cap ==> spec_is_basic_block_end(s1.last()),
        s2.len() < cap ==> spec_is_basic_block_end(s2.last()),
    ensures
        s1 == s2,
    decreases cap,
{
    lemma_block_decodes_shift(mem, start, s1);
    lemma_block_decodes_shift(mem, start, s2);
    assert(s1[0] == s2[0]);
    if spec_is_basic_block_end(s1[0]) {
        assert(s1.len() == 1);
        assert(s2.len() == 1);
        assert(s1 =~= s2);
    } else if s1.len() == 1 && s2.len() == 1 {
        assert(s1 =~= s2);
    } else {
        assert(s1.len() >= 2);
        assert(s2.len() >= 2);
        let t1 = s1.skip(1);
        let t2 = s2.skip(1);
        assert(forall|j: int|
            0 <= j < t1.len() - 1 ==> !spec_is_basic_block_end(#[trigger] t1[j]) && t1[j] == s1[j
                + 1]);
        assert(forall|j: int|
            0 <= j < t2.len() - 1 ==> !spec_is_basic_block_end(#[trigger] t2[j]) && t2[j] == s2[j
                + 1]);
        assert(t1.last() == s1.last());
        assert(t2.last() == s2.last());
        lemma_block_unique(mem, start + spec_instruction_length(s1[0]), t1, t2, cap - 1);
        assert forall|j: int| 0 <= j < s1.len() implies s1[j] == s2[j] by {
            if j >= 1 {
                assert(s1[j] == t1[j - 1]);
                assert(s2[j] == t2[j - 1]);
            }
        }
        assert(s1 =~= s2);
    }
}

} // verus!
