//! The trace cache: a fixed-size, direct-mapped table of decoded basic
//! blocks, the invalidation engine that evicts every trace overlapping a
//! written byte range, and the execution loop that reuses or refills traces
//! while staying observably identical to the uncached interpreter.

use vstd::prelude::*;
use vstd::arithmetic::div_mod::{
    lemma_div_is_ordered, lemma_fundamental_div_mod, lemma_mod_bound, lemma_mod_multiples_vanish,
    lemma_small_mod,
};
use vstd::pervasive::VecAdditionalExecFns;

use crate::decoder::{
    block_decodes, block_end, decode, decode_at, decode_chain_fails, lemma_block_decodes_frame,
    lemma_block_decodes_index, lemma_block_end_bounds, lemma_block_push, lemma_block_take_succ,
    lemma_block_unique, lemma_chain_fails_from_prefix, lemma_decode_at_wf,
};
use crate::instruction::{
    instruction_length, is_basic_block_end_instruction, spec_instruction_length,
    spec_is_basic_block_end, wf_instruction, Instruction,
};
use crate::machine::{
    cost_of, count_step, exec_result, machine_wf, meter, run_n, step1, lemma_run_n_snoc, Machine,
    MachineView, StepOutcome, VmError,
};

verus! {

/// The number of trace slots in the cache; a power of two.
pub const TRACE_SIZE: usize = 8192;

/// Bit mask that truncates a value into the slot-index range.
pub const TRACE_MASK: usize = TRACE_SIZE - 1;

/// The per-trace instruction capacity.
pub const TRACE_ITEM_LENGTH: usize = 16;

/// An upper bound on the bytes one trace can span: capacity times the
/// worst-case instruction width. The invalidation window is derived from
/// this bound.
pub const TRACE_ITEM_MAXIMAL_ADDRESS_LENGTH: usize = 4 * TRACE_ITEM_LENGTH;

/// How many low address bits the slot index drops, so that nearby basic
/// blocks rarely collide on one slot.
pub const TRACE_ADDRESS_SHIFTS: usize = 5;

/// The bytes of address space mapped to one slot index before masking;
/// equals two to the power [`TRACE_ADDRESS_SHIFTS`].
pub const TRACE_SLOT_SPAN: usize = 32;

/// The slot an address is mapped to.
pub open spec fn slot_of(addr: int) -> int {
    (addr / (TRACE_SLOT_SPAN as int)) % (TRACE_SIZE as int)
}

/// Executable form of [`slot_of`].
pub fn calculate_slot(addr: usize) -> (s: usize)
    ensures
        s == slot_of(addr as int),
        s < TRACE_SIZE,
{
    (addr / TRACE_SLOT_SPAN) % TRACE_SIZE
}

/// A cached basic block: its start address, the total bytes its decoded
/// instructions span, how many instructions it holds (0 marks an empty
/// slot), and the decoded instructions themselves.
pub struct Trace {
    pub address: usize,
    pub length: usize,
    pub instruction_count: u8,
    pub instructions: Vec<Instruction>,
}

/// An empty slot: the sentinel trace.
pub open spec fn trace_is_empty(t: Trace) -> bool {
    &&& t.instruction_count == 0
    &&& t.address == 0
    &&& t.length == 0
    &&& t.instructions@.len() == 0
}

/// Structural well-formedness of a slot's contents.
pub open spec fn trace_wf(t: Trace) -> bool {
    &&& t.instructions@.len() == t.instruction_count as int
    &&& t.instruction_count as int <= TRACE_ITEM_LENGTH
    &&& t.length <= TRACE_ITEM_MAXIMAL_ADDRESS_LENGTH
    &&& t.address + t.length <= usize::MAX
    &&& (t.instruction_count == 0 ==> trace_is_empty(t))
}

/// The maintained invariant of a non-empty trace: decoding fresh from the
/// current memory at its start address yields exactly the stored
/// instructions; a basic-block-ending instruction appears only as the last
/// element; and a trace shorter than the capacity ends the block.
pub open spec fn trace_valid(mem: Seq<u8>, t: Trace) -> bool {
    &&& trace_wf(t)
    &&& 1 <= t.instruction_count as int
    &&& block_decodes(mem, t.address as int, t.instructions@)
    &&& t.address + t.length == block_end(t.address as int, t.instructions@)
    &&& t.address + t.length <= mem.len()
    &&& (forall|j: int|
        0 <= j < t.instructions@.len() - 1 ==> !spec_is_basic_block_end(
            #[trigger] t.instructions@[j],
        ))
    &&& ((t.instruction_count as int) < TRACE_ITEM_LENGTH ==> spec_is_basic_block_end(
        t.instructions@.last(),
    ))
}

/// The cached block overlaps the half-open byte range `[a, a + l)`.
pub open spec fn overlaps(t: Trace, a: int, l: int) -> bool {
    !((a + l <= t.address as int) || (t.address + t.length <= a))
}

/// Every slot's contents are structurally well-formed.
pub open spec fn cache_wf(traces: Seq<Trace>) -> bool {
    forall|j: int| 0 <= j < traces.len() ==> trace_wf(#[trigger] traces[j])
}

/// Every non-empty slot holds a trace whose start address maps to that slot.
pub open spec fn cache_placed(traces: Seq<Trace>) -> bool {
    forall|j: int|
        0 <= j < traces.len() && (#[trigger] traces[j]).instruction_count > 0 ==> slot_of(
            traces[j].address as int,
        ) == j
}

/// Every non-empty slot still decodes freshly from the current memory.
pub open spec fn cache_valid(mem: Seq<u8>, traces: Seq<Trace>) -> bool {
    forall|j: int|
        0 <= j < traces.len() && (#[trigger] traces[j]).instruction_count > 0 ==> trace_valid(
            mem,
            traces[j],
        )
}

impl Trace {
    /// The empty sentinel trace.
    pub fn empty() -> (t: Trace)
        ensures
            trace_is_empty(t),
            trace_wf(t),
    {
        Trace { address: 0, length: 0, instruction_count: 0, instructions: Vec::new() }
    }
}

/// Byte `k` of the little-endian encoding of a 64-bit value.
pub open spec fn le_byte(value: u64, k: int) -> u8
    decreases k,
{
    if k <= 0 {
        (value % 256) as u8
    } else {
        le_byte((value / 256) as u64, k - 1)
    }
}

/// The value of `n` little-endian bytes starting at address `a`.
pub open spec fn le_value(mem: Seq<u8>, a: int, n: int) -> int
    decreases n,
{
    if n <= 0 {
        0
    } else {
        mem[a] + 256 * le_value(mem, a + 1, n - 1)
    }
}

/// The concrete powers of 256 up to two to the power 64.
proof fn lemma_pow256_values()
    ensures
        pow256(0) == 1,
        pow256(1) == 256,
        pow256(2) == 0x1_0000,
        pow256(3) == 0x100_0000,
        pow256(4) == 0x1_0000_0000,
        pow256(5) == 0x100_0000_0000,
        pow256(6) == 0x1_0000_0000_0000,
        pow256(7) == 0x100_0000_0000_0000,
        pow256(8) == 0x1_0000_0000_0000_0000,
{
    assert(pow256(0) == 1);
    assert(pow256(1) == 256);
    assert(pow256(2) == 0x1_0000);
    assert(pow256(3) == 0x100_0000);
    assert(pow256(4) == 0x1_0000_0000);
    assert(pow256(5) == 0x100_0000_0000);
    assert(pow256(6) == 0x1_0000_0000_0000);
    assert(pow256(7) == 0x100_0000_0000_0000);
    assert(pow256(8) == 0x1_0000_0000_0000_0000);
}

/// The value of at most `b` bytes is below two to the power `8b`.
proof fn lemma_le_value_tiny(mem: Seq<u8>, a: int, n: int, b: int)
    requires
        0 <= n <= b,
        0 <= b,
    ensures
        0 <= le_value(mem, a, n) < pow256(b),
    decreases n,
{
    lemma_pow256_positive(b);
    if n > 0 {
        lemma_le_value_tiny(mem, a + 1, n - 1, b - 1);
        assert(0 <= mem[a] < 256);
        assert(pow256(b) == 256 * pow256(b - 1));
    } else {
        assert(pow256(b) >= 1);
    }
}

/// Powers of 256.
pub open spec fn pow256(n: int) -> int
    decreases n,
{
    if n <= 0 {
        1
    } else {
        256 * pow256(n - 1)
    }
}

proof fn lemma_pow256_positive(n: int)
    ensures
        pow256(n) >= 1,
    decreases n,
{
    if n > 0 {
        lemma_pow256_positive(n - 1);
    }
}

/// The value shifted right by `k` bytes.
pub open spec fn le_shift(value: u64, k: int) -> u64
    decreases k,
{
    if k <= 0 {
        value
    } else {
        le_shift((value / 256) as u64, k - 1)
    }
}

/// Shifting one more byte divides the shifted value by 256 once more.
proof fn lemma_le_shift_step(value: u64, k: int)
    requires
        0 <= k,
    ensures
        le_shift(value, k + 1) == (le_shift(value, k) / 256) as u64,
    decreases k,
{
    if k == 0 {
        assert(le_shift(value, 1) == le_shift((value / 256) as u64, 0));
        assert(le_shift((value / 256) as u64, 0) == (value / 256) as u64);
        assert(le_shift(value, 0) == value);
    } else {
        lemma_le_shift_step((value / 256) as u64, k - 1);
        assert(le_shift(value, k + 1) == le_shift((value / 256) as u64, k));
        assert(le_shift(value, k) == le_shift((value / 256) as u64, k - 1));
    }
}

/// Byte `k` of a value is the low byte of the value shifted right `k` bytes.
proof fn lemma_le_byte_shift(value: u64, k: int)
    ensures
        le_byte(value, k) == (le_shift(value, k) % 256) as u8,
    decreases k,
{
    if k > 0 {
        lemma_le_byte_shift((value / 256) as u64, k - 1);
    }
}

/// What a fallible `n`-byte little-endian store leaves behind: out of
/// bounds, a memory fault and no change at all; in bounds, only the written
/// bytes change, they hold the encoding of the value, and exactly the
/// overlapping traces are evicted.
/// The "current trace cleared" flag after an invalidation over
/// `[a, a + l)`: raised exactly when the allocated cache's currently
/// executing slot held a trace overlapping the written range.
pub open spec fn cleared_after(pre: TraceMachine, a: int, l: int) -> bool {
    pre.running_trace_cleared || (pre.traces@.len() == TRACE_SIZE && overlaps(
        pre.traces@[pre.running_trace_slot as int],
        a,
        l,
    ))
}

pub open spec fn store_post(
    pre: TraceMachine,
    post: TraceMachine,
    addr: u64,
    value: u64,
    n: int,
    r: Result<(), VmError>,
) -> bool {
    &&& post.machine@.mem.len() == pre.machine@.mem.len()
    &&& post.traces@.len() == pre.traces@.len()
    &&& post.running_trace_slot == pre.running_trace_slot
    &&& post.fill_count == pre.fill_count
    &&& (addr + n > pre.machine@.mem.len() ==> r == Err::<(), VmError>(VmError::MemoryFault)
        && post.machine == pre.machine && post.traces@ == pre.traces@
        && post.running_trace_cleared == pre.running_trace_cleared)
    &&& (addr + n <= pre.machine@.mem.len() ==> {
        &&& r == Ok::<(), VmError>(())
        &&& post.running_trace_cleared == cleared_after(pre, addr as int, n)
        &&& post.machine@ == (MachineView { mem: post.machine@.mem, ..pre.machine@ })
        &&& (forall|k: int| 0 <= k < n ==> post.machine@.mem[addr + k] == le_byte(value, k))
        &&& (forall|k: int|
            0 <= k < pre.machine@.mem.len() && !(addr <= k < addr + n) ==> post.machine@.mem[k]
                == pre.machine@.mem[k])
        &&& (forall|j: int|
            0 <= j < pre.traces@.len() ==> if overlaps(#[trigger] pre.traces@[j], addr as int, n) {
                trace_is_empty(post.traces@[j])
            } else {
                post.traces@[j] == pre.traces@[j]
            })
    })
}

/// What a fallible fill of `size` copies of one byte leaves behind.
pub open spec fn fill_post(
    pre: TraceMachine,
    post: TraceMachine,
    addr: int,
    size: int,
    value: u8,
    r: Result<(), VmError>,
) -> bool {
    &&& post.machine@.mem.len() == pre.machine@.mem.len()
    &&& post.traces@.len() == pre.traces@.len()
    &&& post.running_trace_slot == pre.running_trace_slot
    &&& post.fill_count == pre.fill_count
    &&& (addr + size > pre.machine@.mem.len() ==> r == Err::<(), VmError>(VmError::MemoryFault)
        && post.machine == pre.machine && post.traces@ == pre.traces@
        && post.running_trace_cleared == pre.running_trace_cleared)
    &&& (addr + size <= pre.machine@.mem.len() ==> {
        &&& r == Ok::<(), VmError>(())
        &&& post.running_trace_cleared == cleared_after(pre, addr, size)
        &&& post.machine@ == (MachineView { mem: post.machine@.mem, ..pre.machine@ })
        &&& (forall|k: int| 0 <= k < size ==> #[trigger] post.machine@.mem[addr + k] == value)
        &&& (forall|k: int|
            0 <= k < pre.machine@.mem.len() && !(addr <= k < addr + size) ==> post.machine@.mem[k]
                == pre.machine@.mem[k])
        &&& (forall|j: int|
            0 <= j < pre.traces@.len() ==> if overlaps(#[trigger] pre.traces@[j], addr, size) {
                trace_is_empty(post.traces@[j])
            } else {
                post.traces@[j] == pre.traces@[j]
            })
    })
}

/// What a fallible `n`-byte little-endian load returns: the value of the
/// bytes exactly when they lie in memory, a memory fault exactly when not.
pub open spec fn load_post(m: MachineView, addr: u64, n: int, r: Result<u64, VmError>) -> bool {
    &&& (addr + n > m.mem.len() ==> r == Err::<u64, VmError>(VmError::MemoryFault))
    &&& (addr + n <= m.mem.len() ==> r is Ok && r->Ok_0 as int == le_value(m.mem, addr as int, n))
}

/// Whether slot `j` is among the first `count` slots scanned by the
/// invalidation window starting at slot `base` (the scan wraps around the
/// end of the table).
pub open spec fn scan_hits(base: int, count: int, j: int) -> bool {
    if base + count <= TRACE_SIZE {
        base <= j < base + count
    } else {
        base <= j < TRACE_SIZE || 0 <= j < base + count - TRACE_SIZE
    }
}

/// The invalidation window covers the slot of every well-formed trace that
/// overlaps the written range: the window starts one maximal block span
/// below the write and the scan is wide enough to reach its end.
proof fn lemma_scan_covers(a: int, l: int, lo: int, base: int, count: int, t: Trace)
    requires
        trace_wf(t),
        t.instruction_count > 0,
        overlaps(t, a, l),
        0 <= a,
        0 <= l,
        a + l <= usize::MAX,
        lo == if a >= TRACE_ITEM_MAXIMAL_ADDRESS_LENGTH {
            a - TRACE_ITEM_MAXIMAL_ADDRESS_LENGTH
        } else {
            0
        },
        base == slot_of(lo),
        count == ({
            let span = (a + l) / (TRACE_SLOT_SPAN as int) - lo / (TRACE_SLOT_SPAN as int);
            if span >= TRACE_SIZE {
                TRACE_SIZE as int
            } else {
                span + 1
            }
        }),
    ensures
        scan_hits(base, count, slot_of(t.address as int)),
{
    let s = t.address as int;
    assert(s + t.length > a);
    assert(a + l > s);
    assert(s >= lo);
    assert(s <= a + l);
    lemma_div_is_ordered(lo, s, TRACE_SLOT_SPAN as int);
    lemma_div_is_ordered(s, a + l, TRACE_SLOT_SPAN as int);
    let dlo = lo / (TRACE_SLOT_SPAN as int);
    let ds = s / (TRACE_SLOT_SPAN as int);
    let delta = ds - dlo;
    let n = TRACE_SIZE as int;
    lemma_fundamental_div_mod(dlo, n);
    assert(base == dlo % n);
    assert(0 <= base < n) by {
        lemma_mod_bound(dlo, n);
    }
    let q = dlo / n;
    assert(ds == n * q + base + delta);
    lemma_mod_multiples_vanish(q, base + delta, n);
    assert(slot_of(s) == (base + delta) % n);
    if count == n {
        // every slot is scanned
        lemma_mod_bound(ds, n);
        assert(0 <= slot_of(s) < n);
    } else {
        assert(delta < count);
        if base + delta < n {
            lemma_small_mod((base + delta) as nat, n as nat);
            assert(slot_of(s) == base + delta);
        } else {
            lemma_mod_multiples_vanish(1, base + delta - n, n);
            lemma_small_mod((base + delta - n) as nat, n as nat);
            assert(slot_of(s) == base + delta - n);
        }
    }
}

/// After memory changed only inside `[a, a + l)` and every overlapping slot
/// was evicted, every surviving trace still decodes freshly.
proof fn lemma_clear_preserves_valid(
    mem1: Seq<u8>,
    mem2: Seq<u8>,
    tr1: Seq<Trace>,
    tr2: Seq<Trace>,
    a: int,
    l: int,
)
    requires
        mem2.len() == mem1.len(),
        forall|k: int| 0 <= k < mem1.len() && !(a <= k < a + l) ==> mem2[k] == mem1[k],
        cache_wf(tr1),
        cache_valid(mem1, tr1),
        tr2.len() == tr1.len(),
        forall|j: int|
            0 <= j < tr1.len() ==> if overlaps(#[trigger] tr1[j], a, l) {
                trace_is_empty(tr2[j])
            } else {
                tr2[j] == tr1[j]
            },
    ensures
        cache_valid(mem2, tr2),
{
    assert forall|j: int|
        0 <= j < tr2.len() && (#[trigger] tr2[j]).instruction_count > 0 implies trace_valid(
        mem2,
        tr2[j],
    ) by {
        assert(!trace_is_empty(tr2[j]));
        assert(tr2[j] == tr1[j]);
        assert(!overlaps(tr1[j], a, l));
        let t = tr1[j];
        assert(trace_valid(mem1, t));
        assert forall|k: int|
            t.address <= k < block_end(t.address as int, t.instructions@) implies mem2[k]
            == mem1[k] by {
            assert(block_end(t.address as int, t.instructions@) == t.address + t.length);
        }
        lemma_block_decodes_frame(mem1, mem2, t.address as int, t.instructions@);
    }
}

/// Idempotent re-fill: two valid traces for the same start address over the
/// same memory contents are identical -- re-visiting an unmodified address
/// reproduces the evicted trace exactly, instruction for instruction, and a
/// colliding trace for a different address can never stand in for it.
pub proof fn lemma_trace_refill_identical(mem: Seq<u8>, t1: Trace, t2: Trace)
    requires
        trace_valid(mem, t1),
        trace_valid(mem, t2),
        t1.address == t2.address,
    ensures
        t1.instructions@ == t2.instructions@,
        t1.instruction_count == t2.instruction_count,
        t1.length == t2.length,
{
    lemma_block_unique(
        mem,
        t1.address as int,
        t1.instructions@,
        t2.instructions@,
        TRACE_ITEM_LENGTH as int,
    );
}

/// The execution core: a machine wrapped with the trace cache, the slot the
/// loop is currently executing from, the flag raised when that slot is
/// invalidated mid-block, and a count of how many fills (decode events) have
/// happened.
pub struct TraceMachine {
    pub machine: Machine,
    pub traces: Vec<Trace>,
    pub running_trace_slot: usize,
    pub running_trace_cleared: bool,
    pub fill_count: u64,
}

impl TraceMachine {
    /// The standing invariant: the machine is well-formed, every slot is
    /// well-formed and placed at the slot its address maps to, every
    /// non-empty slot decodes freshly from current memory, and the cache is
    /// either not yet allocated or fully allocated.
    pub open spec fn inv(self) -> bool {
        &&& machine_wf(self.machine@)
        &&& cache_wf(self.traces@)
        &&& cache_placed(self.traces@)
        &&& cache_valid(self.machine@.mem, self.traces@)
        &&& self.running_trace_slot < TRACE_SIZE
        &&& (self.traces@.len() == 0 || self.traces@.len() == TRACE_SIZE)
    }

    /// The invariant with the cache table allocated.
    pub open spec fn ready(self) -> bool {
        &&& self.inv()
        &&& self.traces@.len() == TRACE_SIZE
    }

    /// Wrap a machine; the cache table is allocated lazily at the start of a
    /// run.
    pub fn new(machine: Machine) -> (r: TraceMachine)
        requires
            machine_wf(machine@),
        ensures
            r.inv(),
            r.machine == machine,
            r.traces@.len() == 0,
            r.running_trace_slot == 0,
            !r.running_trace_cleared,
            r.fill_count == 0,
    {
        TraceMachine {
            machine,
            traces: Vec::new(),
            running_trace_slot: 0,
            running_trace_cleared: false,
            fill_count: 0,
        }
    }

    /// How many fills (decode events) have happened; saturates at the
    /// integer bound.
    pub fn fill_count(&self) -> (r: u64)
        ensures
            r == self.fill_count,
    {
        self.fill_count
    }

    /// Inspect one cache slot: its trace's start address, byte length and
    /// instruction count.
    pub fn cached_trace(&self, slot: usize) -> (r: (usize, usize, u8))
        requires
            slot < self.traces@.len(),
        ensures
            r.0 == self.traces@[slot as int].address,
            r.1 == self.traces@[slot as int].length,
            r.2 == self.traces@[slot as int].instruction_count,
    {
        (
            self.traces[slot].address,
            self.traces[slot].length,
            self.traces[slot].instruction_count,
        )
    }

    /// The invalidation engine. Evicts every slot whose cached block
    /// overlaps the written byte range `[address, address + length)`, by
    /// scanning a window of slots wide enough to cover the largest possible
    /// block span on either side of the range; if the slot currently being
    /// executed is evicted, the "current trace cleared" flag is raised so
    /// the execution loop stops replaying that block immediately.
    #[verifier::loop_isolation(false)]
    pub fn clear_traces(&mut self, address: usize, length: usize)
        requires
            old(self).traces@.len() == TRACE_SIZE,
            cache_wf(old(self).traces@),
            cache_placed(old(self).traces@),
            old(self).running_trace_slot < TRACE_SIZE,
            address + length <= usize::MAX,
        ensures
            final(self).machine == old(self).machine,
            final(self).running_trace_slot == old(self).running_trace_slot,
            final(self).fill_count == old(self).fill_count,
            final(self).traces@.len() == TRACE_SIZE,
            cache_wf(final(self).traces@),
            cache_placed(final(self).traces@),
            forall|j: int|
                0 <= j < TRACE_SIZE ==> if overlaps(#[trigger] old(self).traces@[j], address as int, length as int) {
                    trace_is_empty(final(self).traces@[j])
                } else {
                    final(self).traces@[j] == old(self).traces@[j]
                },
            final(self).running_trace_cleared == (old(self).running_trace_cleared || overlaps(
                old(self).traces@[old(self).running_trace_slot as int],
                address as int,
                length as int,
            )),
    {
        let end = address + length;
        let lo = if address >= TRACE_ITEM_MAXIMAL_ADDRESS_LENGTH {
            address - TRACE_ITEM_MAXIMAL_ADDRESS_LENGTH
        } else {
            0
        };
        let base = calculate_slot(lo);
        let span = end / TRACE_SLOT_SPAN - lo / TRACE_SLOT_SPAN;
        let count = if span >= TRACE_SIZE {
            TRACE_SIZE
        } else {
            span + 1
        };
        let ghost tr0 = self.traces@;
        let ghost rs = self.running_trace_slot as int;
        let mut k: usize = 0;
        let mut j: usize = base;
        while k < count
            invariant
                count <= TRACE_SIZE,
                base < TRACE_SIZE,
                k <= count,
                j == if base + k < TRACE_SIZE {
                    base + k
                } else {
                    base + k - TRACE_SIZE
                },
                tr0 == old(self).traces@,
                rs == old(self).running_trace_slot as int,
                self.machine == old(self).machine,
                self.running_trace_slot == old(self).running_trace_slot,
                self.fill_count == old(self).fill_count,
                self.traces@.len() == TRACE_SIZE,
                forall|idx: int|
                    0 <= idx < TRACE_SIZE && !scan_hits(base as int, k as int, idx)
                        ==> self.traces@[idx] == tr0[idx],
                forall|idx: int|
                    0 <= idx < TRACE_SIZE && scan_hits(base as int, k as int, idx) ==> if overlaps(
                        tr0[idx],
                        address as int,
                        length as int,
                    ) {
                        trace_is_empty(#[trigger] self.traces@[idx])
                    } else {
                        self.traces@[idx] == tr0[idx]
                    },
                cache_wf(self.traces@),
                cache_placed(self.traces@),
                self.running_trace_cleared == (old(self).running_trace_cleared || (scan_hits(
                    base as int,
                    k as int,
                    rs,
                ) && overlaps(tr0[rs], address as int, length as int))),
            decreases count - k,
        {
            let ghost kk = k as int;
            let ghost jj = j as int;
            let ghost b = base as int;
            let ghost aa = address as int;
            let ghost ll = length as int;
            let ghost tr_in = self.traces@;
            proof {
                assert(!scan_hits(b, kk, jj));
                assert(self.traces@[jj] == tr0[jj]);
            }
            let t_addr = self.traces[j].address;
            let t_len = self.traces[j].length;
            let hit = !(end <= t_addr || t_addr + t_len <= address);
            proof {
                assert(t_addr == tr0[jj].address);
                assert(t_len == tr0[jj].length);
                assert(hit == overlaps(tr0[jj], aa, ll));
            }
            if hit {
                self.traces.set(j, Trace::empty());
                assert(trace_is_empty(self.traces@[jj]));
                if self.running_trace_slot == j {
                    self.running_trace_cleared = true;
                }
            } else {
                assert(self.traces@[jj] == tr0[jj]);
            }
            k = k + 1;
            j = if j + 1 == TRACE_SIZE {
                0
            } else {
                j + 1
            };
            proof {
                assert(forall|idx: int|
                    scan_hits(b, kk + 1, idx) <==> (scan_hits(b, kk, idx) || idx == jj));
                assert(overlaps(tr0[jj], aa, ll) ==> trace_is_empty(self.traces@[jj]));
                assert(!overlaps(tr0[jj], aa, ll) ==> self.traces@[jj] == tr0[jj]);
                assert forall|idx: int|
                    0 <= idx < TRACE_SIZE && !scan_hits(b, kk + 1, idx) implies self.traces@[idx]
                    == tr0[idx] by {
                    assert(!scan_hits(b, kk, idx));
                    assert(idx != jj);
                }
                assert forall|idx: int|
                    0 <= idx < TRACE_SIZE && scan_hits(b, kk + 1, idx) implies (if overlaps(
                        tr0[idx],
                        aa,
                        ll,
                    ) {
                        trace_is_empty(self.traces@[idx])
                    } else {
                        self.traces@[idx] == tr0[idx]
                    }) by {
                    if idx != jj {
                        assert(scan_hits(b, kk, idx));
                        assert(self.traces@[idx] == tr_in[idx]);
                    }
                }
            }
        }
        proof {
            assert forall|idx: int|
                0 <= idx < TRACE_SIZE && overlaps(
                    #[trigger] tr0[idx],
                    address as int,
                    length as int,
                ) implies scan_hits(base as int, count as int, idx) by {
                assert(trace_wf(tr0[idx]));
                assert(tr0[idx].instruction_count > 0) by {
                    if tr0[idx].instruction_count == 0 {
                        assert(trace_is_empty(tr0[idx]));
                        assert(!overlaps(tr0[idx], address as int, length as int));
                    }
                }
                assert(slot_of(tr0[idx].address as int) == idx);
                lemma_scan_covers(
                    address as int,
                    length as int,
                    lo as int,
                    base as int,
                    count as int,
                    tr0[idx],
                );
            }
        }
    }

    /// The trace-cache lookup. If the slot for `pc` holds a non-empty trace
    /// whose start address is exactly `pc`, it is reused unchanged (a cache
    /// hit decodes nothing). Otherwise the slot is unconditionally evicted
    /// and refilled by decoding fresh from `pc` until the first
    /// basic-block-ending instruction or the per-trace capacity. Either way,
    /// on success the slot holds a trace that starts at `pc` and decodes
    /// freshly from current memory -- a colliding trace for a different
    /// address is never reused. On a decode failure the slot is left empty
    /// and the failure is surfaced; decoding forward from `pc` demonstrably
    /// fails within the capacity without meeting a block end.
    #[verifier::rlimit(60)]
    pub fn lookup_or_fill(&mut self, pc: usize) -> (r: Result<(), VmError>)
        requires
            old(self).ready(),
        ensures
            final(self).ready(),
            final(self).machine == old(self).machine,
            final(self).running_trace_slot == old(self).running_trace_slot,
            final(self).running_trace_cleared == old(self).running_trace_cleared,
            forall|j: int|
                0 <= j < TRACE_SIZE && j != slot_of(pc as int) ==> final(self).traces@[j] == old(
                    self,
                ).traces@[j],
            r is Ok ==> ({
                let t = final(self).traces@[slot_of(pc as int)];
                trace_valid(final(self).machine@.mem, t) && t.address == pc
            }),
            r is Err ==> r == Err::<(), VmError>(VmError::DecodeFault) && decode_chain_fails(
                final(self).machine@.mem,
                pc as int,
                TRACE_ITEM_LENGTH as nat,
            ) && trace_is_empty(final(self).traces@[slot_of(pc as int)]),
            ({
                let t = old(self).traces@[slot_of(pc as int)];
                if t.address == pc && t.instruction_count > 0 {
                    // cache hit: nothing changes and nothing is decoded
                    *final(self) == *old(self)
                } else {
                    // fill: exactly one decode event is counted
                    final(self).fill_count == (if old(self).fill_count < u64::MAX {
                        (old(self).fill_count + 1) as u64
                    } else {
                        old(self).fill_count
                    })
                }
            }),
    {
        let slot = calculate_slot(pc);
        if self.traces[slot].address == pc && self.traces[slot].instruction_count != 0 {
            return Ok(());
        }
        self.traces.set(slot, Trace::empty());
        if self.fill_count < u64::MAX {
            self.fill_count = self.fill_count + 1;
        }
        let ghost mem = self.machine@.mem;
        let mut instrs: Vec<Instruction> = Vec::new();
        let mut current_pc: usize = pc;
        let mut i: usize = 0;
        loop
            invariant_except_break
                old(self).ready(),
                slot as int == slot_of(pc as int),
                slot < TRACE_SIZE,
                old(self).traces@[slot as int].address != pc || old(
                    self,
                ).traces@[slot as int].instruction_count == 0,
                mem == self.machine@.mem,
                i == instrs@.len(),
                0 <= i < TRACE_ITEM_LENGTH,
                block_decodes(mem, pc as int, instrs@),
                forall|j: int|
                    0 <= j < i ==> !spec_is_basic_block_end(#[trigger] instrs@[j]),
                current_pc as int == block_end(pc as int, instrs@),
                i > 0 ==> current_pc <= mem.len(),
                self.machine == old(self).machine,
                self.running_trace_slot == old(self).running_trace_slot,
                self.running_trace_cleared == old(self).running_trace_cleared,
                self.fill_count == (if old(self).fill_count < u64::MAX {
                    (old(self).fill_count + 1) as u64
                } else {
                    old(self).fill_count
                }),
                self.traces@.len() == TRACE_SIZE,
                trace_is_empty(self.traces@[slot as int]),
                cache_wf(self.traces@),
                cache_placed(self.traces@),
                cache_valid(mem, self.traces@),
                forall|j: int|
                    0 <= j < TRACE_SIZE && j != slot as int ==> self.traces@[j] == old(
                        self,
                    ).traces@[j],
            ensures
                old(self).ready(),
                slot as int == slot_of(pc as int),
                slot < TRACE_SIZE,
                old(self).traces@[slot as int].address != pc || old(
                    self,
                ).traces@[slot as int].instruction_count == 0,
                mem == self.machine@.mem,
                i == instrs@.len(),
                1 <= i <= TRACE_ITEM_LENGTH,
                block_decodes(mem, pc as int, instrs@),
                forall|j: int|
                    0 <= j < i - 1 ==> !spec_is_basic_block_end(#[trigger] instrs@[j]),
                i < TRACE_ITEM_LENGTH ==> spec_is_basic_block_end(instrs@[i - 1]),
                current_pc as int == block_end(pc as int, instrs@),
                current_pc <= mem.len(),
                self.machine == old(self).machine,
                self.running_trace_slot == old(self).running_trace_slot,
                self.running_trace_cleared == old(self).running_trace_cleared,
                self.fill_count == (if old(self).fill_count < u64::MAX {
                    (old(self).fill_count + 1) as u64
                } else {
                    old(self).fill_count
                }),
                self.traces@.len() == TRACE_SIZE,
                trace_is_empty(self.traces@[slot as int]),
                cache_wf(self.traces@),
                cache_placed(self.traces@),
                cache_valid(mem, self.traces@),
                forall|j: int|
                    0 <= j < TRACE_SIZE && j != slot as int ==> self.traces@[j] == old(
                        self,
                    ).traces@[j],
            decreases TRACE_ITEM_LENGTH - i,
        {
            let insn = match decode(&self.machine.memory, current_pc) {
                Option::Some(x) => x,
                Option::None => {
                    proof {
                        lemma_chain_fails_from_prefix(
                            mem,
                            pc as int,
                            instrs@,
                            TRACE_ITEM_LENGTH as nat,
                        );
                    }
                    return Err(VmError::DecodeFault);
                },
            };
            proof {
                lemma_decode_at_wf(mem, current_pc as int);
                lemma_block_push(mem, pc as int, instrs@, insn);
            }
            let end_insn = is_basic_block_end_instruction(insn);
            let l = instruction_length(insn);
            current_pc = current_pc + l;
            instrs.push(insn);
            i = i + 1;
            if end_insn || i == TRACE_ITEM_LENGTH {
                break;
            }
            proof {
                assert(forall|j: int|
                    0 <= j < i ==> !spec_is_basic_block_end(#[trigger] instrs@[j]));
            }
        }
        proof {
            lemma_block_end_bounds(pc as int, instrs@);
        }
        let trace = Trace {
            address: pc,
            length: current_pc - pc,
            instruction_count: i as u8,
            instructions: instrs,
        };
        self.traces.set(slot, trace);
        proof {
            assert(trace_valid(mem, self.traces@[slot as int]));
        }
        Ok(())
    }

    /// Invalidate the traces overlapping a written range, on a cache that
    /// may not have been allocated yet (before the first run there is
    /// nothing to evict).
    fn invalidate(&mut self, address: usize, length: usize)
        requires
            cache_wf(old(self).traces@),
            cache_placed(old(self).traces@),
            old(self).running_trace_slot < TRACE_SIZE,
            old(self).traces@.len() == 0 || old(self).traces@.len() == TRACE_SIZE,
            address + length <= usize::MAX,
        ensures
            final(self).machine == old(self).machine,
            final(self).running_trace_slot == old(self).running_trace_slot,
            final(self).fill_count == old(self).fill_count,
            final(self).running_trace_cleared == cleared_after(
                *old(self),
                address as int,
                length as int,
            ),
            final(self).traces@.len() == old(self).traces@.len(),
            cache_wf(final(self).traces@),
            cache_placed(final(self).traces@),
            forall|j: int|
                0 <= j < old(self).traces@.len() ==> if overlaps(
                    #[trigger] old(self).traces@[j],
                    address as int,
                    length as int,
                ) {
                    trace_is_empty(final(self).traces@[j])
                } else {
                    final(self).traces@[j] == old(self).traces@[j]
                },
    {
        if self.traces.len() == TRACE_SIZE {
            self.clear_traces(address, length);
        }
    }

    /// Load a program image at address zero and reset the program counter,
    /// dropping every cached trace: the code the cache described is being
    /// replaced wholesale. An image larger than memory is a memory fault
    /// that leaves the machine untouched.
    pub fn load_program(&mut self, program: &[u8]) -> (r: Result<(), VmError>)
        requires
            old(self).inv(),
        ensures
            final(self).inv(),
            final(self).running_trace_slot == old(self).running_trace_slot,
            final(self).running_trace_cleared == old(self).running_trace_cleared,
            final(self).fill_count == old(self).fill_count,
            program@.len() > old(self).machine@.mem.len() ==> r == Err::<(), VmError>(
                VmError::MemoryFault,
            ) && final(self).machine == old(self).machine && final(self).traces@ == old(
                self,
            ).traces@,
            program@.len() <= old(self).machine@.mem.len() ==> {
                &&& r == Ok::<(), VmError>(())
                &&& final(self).machine@ == (MachineView {
                    pc: 0,
                    mem: final(self).machine@.mem,
                    ..old(self).machine@
                })
                &&& final(self).machine@.mem.len() == old(self).machine@.mem.len()
                &&& (forall|k: int|
                    0 <= k < program@.len() ==> final(self).machine@.mem[k] == program@[k])
                &&& (forall|k: int|
                    program@.len() <= k < old(self).machine@.mem.len()
                        ==> final(self).machine@.mem[k] == old(self).machine@.mem[k])
                &&& final(self).traces@.len() == 0
            },
    {
        if program.len() > self.machine.memory_size() {
            return Err(VmError::MemoryFault);
        }
        self.traces = Vec::new();
        let ghost mem0 = self.machine@.mem;
        let mut i: usize = 0;
        while i < program.len()
            invariant
                old(self).inv(),
                i <= program@.len(),
                program@.len() <= mem0.len(),
                mem0 == old(self).machine@.mem,
                self.traces@.len() == 0,
                self.running_trace_slot == old(self).running_trace_slot,
                self.running_trace_cleared == old(self).running_trace_cleared,
                self.fill_count == old(self).fill_count,
                self.machine@ == (MachineView { mem: self.machine@.mem, ..old(self).machine@ }),
                self.machine@.mem.len() == mem0.len(),
                forall|k: int| 0 <= k < i ==> self.machine@.mem[k] == program@[k],
                forall|k: int| i <= k < mem0.len() ==> self.machine@.mem[k] == mem0[k],
            decreases program@.len() - i,
        {
            self.machine.write_byte(i, program[i]);
            i = i + 1;
        }
        self.machine.set_pc(0);
        Ok(())
    }

    /// Store a slice of bytes at an address, then invalidate every trace
    /// overlapping the written range, exactly as the uncached machine's
    /// memory would change. Out-of-bounds is a memory fault that changes
    /// nothing.
    pub fn store_bytes(&mut self, addr: usize, value: &[u8]) -> (r: Result<(), VmError>)
        requires
            old(self).inv(),
        ensures
            final(self).inv(),
            final(self).machine@.mem.len() == old(self).machine@.mem.len(),
            final(self).traces@.len() == old(self).traces@.len(),
            final(self).running_trace_slot == old(self).running_trace_slot,
            final(self).fill_count == old(self).fill_count,
            addr + value@.len() > old(self).machine@.mem.len() ==> r == Err::<(), VmError>(
                VmError::MemoryFault,
            ) && final(self).machine == old(self).machine && final(self).traces@ == old(
                self,
            ).traces@ && final(self).running_trace_cleared == old(self).running_trace_cleared,
            addr + value@.len() <= old(self).machine@.mem.len() ==> {
                &&& r == Ok::<(), VmError>(())
                &&& final(self).running_trace_cleared == cleared_after(
                    *old(self),
                    addr as int,
                    value@.len() as int,
                )
                &&& final(self).machine@ == (MachineView {
                    mem: final(self).machine@.mem,
                    ..old(self).machine@
                })
                &&& (forall|k: int|
                    0 <= k < value@.len() ==> final(self).machine@.mem[addr + k] == value@[k])
                &&& (forall|k: int|
                    0 <= k < old(self).machine@.mem.len() && !(addr <= k < addr + value@.len())
                        ==> final(self).machine@.mem[k] == old(self).machine@.mem[k])
                &&& (forall|j: int|
                    0 <= j < old(self).traces@.len() ==> if overlaps(
                        #[trigger] old(self).traces@[j],
                        addr as int,
                        value@.len() as int,
                    ) {
                        trace_is_empty(final(self).traces@[j])
                    } else {
                        final(self).traces@[j] == old(self).traces@[j]
                    })
            },
    {
        let msz = self.machine.memory_size();
        if value.len() > msz || addr > msz - value.len() {
            return Err(VmError::MemoryFault);
        }
        let ghost mem0 = self.machine@.mem;
        let ghost tr0 = self.traces@;
        let mut i: usize = 0;
        while i < value.len()
            invariant
                old(self).inv(),
                i <= value@.len(),
                addr + value@.len() <= mem0.len(),
                mem0 == old(self).machine@.mem,
                self.traces@ == old(self).traces@,
                self.running_trace_slot == old(self).running_trace_slot,
                self.running_trace_cleared == old(self).running_trace_cleared,
                self.fill_count == old(self).fill_count,
                self.machine@ == (MachineView { mem: self.machine@.mem, ..old(self).machine@ }),
                self.machine@.mem.len() == mem0.len(),
                forall|k: int| 0 <= k < i ==> self.machine@.mem[addr + k] == value@[k],
                forall|k: int|
                    0 <= k < mem0.len() && !(addr <= k < addr + i) ==> self.machine@.mem[k]
                        == mem0[k],
            decreases value@.len() - i,
        {
            self.machine.write_byte(addr + i, value[i]);
            i = i + 1;
        }
        self.invalidate(addr, value.len());
        proof {
            lemma_clear_preserves_valid(
                mem0,
                self.machine@.mem,
                tr0,
                self.traces@,
                addr as int,
                value@.len() as int,
            );
        }
        Ok(())
    }

    /// Store the `n`-byte little-endian encoding of `value` at `addr` and
    /// invalidate the written range.
    fn store_le(&mut self, addr: u64, value: u64, n: usize) -> (r: Result<(), VmError>)
        requires
            old(self).inv(),
            1 <= n <= 8,
        ensures
            final(self).inv(),
            store_post(*old(self), *final(self), addr, value, n as int, r),
    {
        let msz = self.machine.memory_size();
        if n > msz || addr > (msz - n) as u64 {
            return Err(VmError::MemoryFault);
        }
        let mut buf: Vec<u8> = Vec::new();
        let mut v: u64 = value;
        let mut i: usize = 0;
        while i < n
            invariant
                i <= n,
                buf@.len() == i,
                v == le_shift(value, i as int),
                forall|k: int| 0 <= k < i ==> buf@[k] == le_byte(value, k),
            decreases n - i,
        {
            proof {
                lemma_le_byte_shift(value, i as int);
                lemma_le_shift_step(value, i as int);
            }
            buf.push((v % 256) as u8);
            v = v / 256;
            i = i + 1;
        }
        let r = self.store_bytes(addr as usize, buf.as_slice());
        proof {
            assert(r is Ok);
        }
        r
    }

    /// Store the low byte of `value` at `addr`, invalidating the byte.
    pub fn store8(&mut self, addr: u64, value: u64) -> (r: Result<(), VmError>)
        requires
            old(self).inv(),
        ensures
            final(self).inv(),
            store_post(*old(self), *final(self), addr, value, 1, r),
    {
        self.store_le(addr, value, 1)
    }

    /// Store the low two bytes of `value` little-endian at `addr`,
    /// invalidating the written range.
    pub fn store16(&mut self, addr: u64, value: u64) -> (r: Result<(), VmError>)
        requires
            old(self).inv(),
        ensures
            final(self).inv(),
            store_post(*old(self), *final(self), addr, value, 2, r),
    {
        self.store_le(addr, value, 2)
    }

    /// Store the low four bytes of `value` little-endian at `addr`,
    /// invalidating the written range.
    pub fn store32(&mut self, addr: u64, value: u64) -> (r: Result<(), VmError>)
        requires
            old(self).inv(),
        ensures
            final(self).inv(),
            store_post(*old(self), *final(self), addr, value, 4, r),
    {
        self.store_le(addr, value, 4)
    }

    /// Store all eight bytes of `value` little-endian at `addr`,
    /// invalidating the written range.
    pub fn store64(&mut self, addr: u64, value: u64) -> (r: Result<(), VmError>)
        requires
            old(self).inv(),
        ensures
            final(self).inv(),
            store_post(*old(self), *final(self), addr, value, 8, r),
    {
        self.store_le(addr, value, 8)
    }

    /// Load `n` little-endian bytes from `addr`.
    fn load_le(&self, addr: u64, n: usize) -> (r: Result<u64, VmError>)
        requires
            self.inv(),
            1 <= n <= 8,
        ensures
            load_post(self.machine@, addr, n as int, r),
    {
        let msz = self.machine.memory_size();
        if n > msz || addr > (msz - n) as u64 {
            return Err(VmError::MemoryFault);
        }
        let a = addr as usize;
        let mut v: u64 = 0;
        let mut i: usize = n;
        while i > 0
            invariant
                self.inv(),
                i <= n,
                n <= 8,
                a + n <= self.machine@.mem.len(),
                v as int == le_value(self.machine@.mem, a + i, n - i),
            decreases i,
        {
            proof {
                lemma_pow256_values();
                lemma_le_value_tiny(self.machine@.mem, a + i, n - i, 7);
            }
            let b = self.machine.read_byte(a + i - 1);
            v = v * 256 + b as u64;
            i = i - 1;
        }
        Ok(v)
    }

    /// Load one byte, zero-extended.
    pub fn load8(&self, addr: u64) -> (r: Result<u64, VmError>)
        requires
            self.inv(),
        ensures
            load_post(self.machine@, addr, 1, r),
    {
        self.load_le(addr, 1)
    }

    /// Load two little-endian bytes, zero-extended.
    pub fn load16(&self, addr: u64) -> (r: Result<u64, VmError>)
        requires
            self.inv(),
        ensures
            load_post(self.machine@, addr, 2, r),
    {
        self.load_le(addr, 2)
    }

    /// Load four little-endian bytes, zero-extended.
    pub fn load32(&self, addr: u64) -> (r: Result<u64, VmError>)
        requires
            self.inv(),
        ensures
            load_post(self.machine@, addr, 4, r),
    {
        self.load_le(addr, 4)
    }

    /// Load eight little-endian bytes.
    pub fn load64(&self, addr: u64) -> (r: Result<u64, VmError>)
        requires
            self.inv(),
        ensures
            load_post(self.machine@, addr, 8, r),
    {
        self.load_le(addr, 8)
    }

    /// Fill `size` bytes starting at `addr` with one byte value, then
    /// invalidate the range.
    pub fn store_byte(&mut self, addr: usize, size: usize, value: u8) -> (r: Result<(), VmError>)
        requires
            old(self).inv(),
        ensures
            final(self).inv(),
            fill_post(*old(self), *final(self), addr as int, size as int, value, r),
    {
        let msz = self.machine.memory_size();
        if size > msz || addr > msz - size {
            return Err(VmError::MemoryFault);
        }
        let mut buf: Vec<u8> = Vec::new();
        while buf.len() < size
            invariant
                buf@.len() <= size,
                forall|k: int| 0 <= k < buf@.len() ==> buf@[k] == value,
            decreases size - buf.len(),
        {
            buf.push(value);
        }
        let r = self.store_bytes(addr, buf.as_slice());
        proof {
            assert(buf@.len() == size);
            assert(addr + size <= old(self).machine@.mem.len());
            assert(r is Ok);
            assert(forall|k: int|
                0 <= k < size ==> #[trigger] self.machine@.mem[addr + k] == buf@[k]);
            assert(forall|k: int|
                0 <= k < size ==> #[trigger] self.machine@.mem[addr + k] == value);
            assert(self.machine@ == (MachineView {
                mem: self.machine@.mem,
                ..old(self).machine@
            }));
        }
        r
    }

    /// Map `size` bytes at `addr`: fill the region from the source bytes at
    /// `offset` (or with zeroes when there is no source), then invalidate
    /// the range. The protection bits are accepted for interface parity but
    /// the flat memory model enforces none.
    pub fn mmap(
        &mut self,
        addr: usize,
        size: usize,
        _prot: u32,
        source: Option<&Vec<u8>>,
        offset: usize,
    ) -> (r: Result<(), VmError>)
        requires
            old(self).inv(),
        ensures
            final(self).inv(),
            final(self).running_trace_slot == old(self).running_trace_slot,
            final(self).fill_count == old(self).fill_count,
            r is Ok <==> (addr + size <= old(self).machine@.mem.len() && (match source {
                Option::Some(s) => offset + size <= s@.len(),
                Option::None => true,
            })),
            r is Ok ==> {
                &&& addr + size <= old(self).machine@.mem.len()
                &&& final(self).machine@ == (MachineView {
                    mem: final(self).machine@.mem,
                    ..old(self).machine@
                })
                &&& final(self).machine@.mem.len() == old(self).machine@.mem.len()
                &&& final(self).running_trace_cleared == cleared_after(
                    *old(self),
                    addr as int,
                    size as int,
                )
                &&& (forall|k: int|
                    0 <= k < size ==> #[trigger] final(self).machine@.mem[addr + k] == (match source {
                        Option::Some(s) => s@[offset + k],
                        Option::None => 0u8,
                    }))
                &&& (forall|k: int|
                    0 <= k < old(self).machine@.mem.len() && !(addr <= k < addr + size)
                        ==> final(self).machine@.mem[k] == old(self).machine@.mem[k])
                &&& (forall|j: int|
                    0 <= j < old(self).traces@.len() ==> if overlaps(
                        #[trigger] old(self).traces@[j],
                        addr as int,
                        size as int,
                    ) {
                        trace_is_empty(final(self).traces@[j])
                    } else {
                        final(self).traces@[j] == old(self).traces@[j]
                    })
            },
            r is Err ==> r == Err::<(), VmError>(VmError::MemoryFault) && final(self).machine
                == old(self).machine && final(self).traces@ == old(self).traces@
                && final(self).running_trace_cleared == old(self).running_trace_cleared,
    {
        let msz = self.machine.memory_size();
        if size > msz || addr > msz - size {
            return Err(VmError::MemoryFault);
        }
        let mut buf: Vec<u8> = Vec::new();
        match source {
            Option::Some(s) => {
                let slen = s.len();
                if offset > slen || size > slen - offset {
                    return Err(VmError::MemoryFault);
                }
                while buf.len() < size
                    invariant
                        buf@.len() <= size,
                        offset + size <= slen,
                        slen == s@.len(),
                        forall|k: int| 0 <= k < buf@.len() ==> buf@[k] == s@[offset + k],
                    decreases size - buf.len(),
                {
                    let k = buf.len();
                    buf.push(s[offset + k]);
                }
            },
            Option::None => {
                while buf.len() < size
                    invariant
                        buf@.len() <= size,
                        forall|k: int| 0 <= k < buf@.len() ==> buf@[k] == 0u8,
                    decreases size - buf.len(),
                {
                    buf.push(0);
                }
            },
        }
        let r = self.store_bytes(addr, buf.as_slice());
        proof {
            assert(buf@.len() == size);
            assert(addr + size <= old(self).machine@.mem.len());
            assert(r is Ok);
            assert(forall|k: int|
                0 <= k < size ==> #[trigger] self.machine@.mem[addr + k] == buf@[k]);
            assert(self.machine@ == (MachineView {
                mem: self.machine@.mem,
                ..old(self).machine@
            }));
        }
        r
    }

    /// Unmap `size` bytes at `addr`: the flat memory model zeroes the
    /// region, then invalidates the range.
    pub fn munmap(&mut self, addr: usize, size: usize) -> (r: Result<(), VmError>)
        requires
            old(self).inv(),
        ensures
            final(self).inv(),
            fill_post(*old(self), *final(self), addr as int, size as int, 0u8, r),
    {
        self.store_byte(addr, size, 0)
    }

    /// The execution loop, and the statement of cache transparency. The
    /// machine is set running and the cache reset to empty; then, until the
    /// machine stops, the loop looks up or fills the trace for the current
    /// program counter and executes the cached instructions in order,
    /// stopping the replay early if the running trace is invalidated
    /// mid-block (self-modifying code) or the machine stops running.
    ///
    /// Transparency: on a normal halt, the final machine state and exit code
    /// are exactly those after some number of steps of the uncached
    /// reference interpreter ([`run_n`]) from the same start state -- the
    /// same registers, memory, cycle count and exit code, for any program.
    /// On an error, either the uncached interpreter stops in this exact
    /// state with this exact error, or the error is a decode fault raised
    /// while filling ahead of execution: the machine then rests at an
    /// uncached-reachable state from whose program counter decoding forward
    /// demonstrably fails inside one trace capacity.
    #[verifier::rlimit(100)]
    pub fn run(&mut self) -> (r: Result<u8, VmError>)
        requires
            old(self).inv(),
        ensures
            final(self).ready(),
            ({
                let start0 = MachineView { running: true, ..old(self).machine@ };
                match r {
                    Result::Ok(code) => (exists|n: nat|
                        run_n(start0, n) == StepOutcome::Stop(
                            final(self).machine@,
                            Ok::<u8, VmError>(code),
                        )) && code == final(self).machine@.exit_code
                        && !final(self).machine@.running,
                    Result::Err(e) => (exists|n: nat|
                        run_n(start0, n) == StepOutcome::Stop(
                            final(self).machine@,
                            Err::<u8, VmError>(e),
                        )) || (e == VmError::DecodeFault && (exists|n: nat|
                        run_n(start0, n) == StepOutcome::Next(final(self).machine@))
                        && decode_chain_fails(
                        final(self).machine@.mem,
                        final(self).machine@.pc,
                        TRACE_ITEM_LENGTH as nat,
                    )),
                }
            }),
    {
        let mut fresh: Vec<Trace> = Vec::new();
        while fresh.len() < TRACE_SIZE
            invariant
                fresh@.len() <= TRACE_SIZE,
                forall|j: int|
                    0 <= j < fresh@.len() ==> trace_is_empty(#[trigger] fresh@[j]) && trace_wf(
                        fresh@[j],
                    ),
            decreases TRACE_SIZE - fresh.len(),
        {
            fresh.push(Trace::empty());
        }
        self.traces = fresh;
        self.running_trace_slot = 0;
        self.running_trace_cleared = false;
        self.machine.set_running(true);
        let ghost start0 = self.machine@;
        let ghost mut n: nat = 0;
        proof {
            assert(run_n(start0, 0) == StepOutcome::Next(self.machine@));
        }
        loop
            invariant_except_break
                self.ready(),
                self.machine@.running,
                run_n(start0, n) == StepOutcome::Next(self.machine@),
                self.machine@.step_limit == start0.step_limit,
                start0 == (MachineView { running: true, ..old(self).machine@ }),
            ensures
                self.ready(),
                !self.machine@.running,
                run_n(start0, n) == StepOutcome::Next(self.machine@),
                start0 == (MachineView { running: true, ..old(self).machine@ }),
            decreases self.machine@.step_limit - self.machine@.steps,
        {
            let pc = self.machine.pc();
            let ghost steps0 = self.machine@.steps;
            match self.lookup_or_fill(pc) {
                Result::Err(e) => {
                    proof {
                        assert(run_n(start0, n) == StepOutcome::Next(self.machine@));
                        assert(decode_chain_fails(
                            self.machine@.mem,
                            self.machine@.pc,
                            TRACE_ITEM_LENGTH as nat,
                        ));
                    }
                    return Err(e);
                },
                Result::Ok(()) => {},
            }
            let slot = calculate_slot(pc);
            self.running_trace_slot = slot;
            self.running_trace_cleared = false;
            let ghost t0 = self.traces@[slot as int];
            let count = self.traces[slot].instruction_count as usize;
            proof {
                assert(t0.instructions@.take(0) =~= Seq::<Instruction>::empty());
            }
            let mut j: usize = 0;
            while j < count
                invariant_except_break
                    self.ready(),
                    slot < TRACE_SIZE,
                    self.running_trace_slot == slot,
                    !self.running_trace_cleared,
                    self.traces@[slot as int] == t0,
                    t0.address == pc,
                    t0.instruction_count > 0,
                    count as int == t0.instruction_count as int,
                    j <= count,
                    self.machine@.running,
                    j < count ==> self.machine@.pc == block_end(
                        pc as int,
                        t0.instructions@.take(j as int),
                    ),
                    run_n(start0, n) == StepOutcome::Next(self.machine@),
                    self.machine@.steps >= steps0,
                    j > 0 ==> self.machine@.steps > steps0,
                    self.machine@.step_limit == start0.step_limit,
                    start0 == (MachineView { running: true, ..old(self).machine@ }),
                ensures
                    self.ready(),
                    run_n(start0, n) == StepOutcome::Next(self.machine@),
                    self.machine@.steps >= steps0,
                    self.machine@.running ==> self.machine@.steps > steps0,
                    self.machine@.step_limit == start0.step_limit,
                    start0 == (MachineView { running: true, ..old(self).machine@ }),
                decreases count - j,
            {
                let ghost m_before = self.machine@;
                let insn = self.traces[slot].instructions[j];
                proof {
                    assert(trace_valid(m_before.mem, t0));
                    lemma_block_decodes_index(
                        m_before.mem,
                        pc as int,
                        t0.instructions@,
                        j as int,
                    );
                    assert(decode_at(m_before.mem, m_before.pc) == Some(insn));
                    lemma_decode_at_wf(m_before.mem, m_before.pc);
                }
                let res = self.step_instruction(insn);
                match res {
                    Result::Err(e) => {
                        proof {
                            lemma_run_n_snoc(start0, n, m_before);
                            n = n + 1;
                            assert(run_n(start0, n) == StepOutcome::Stop(
                                self.machine@,
                                Err::<u8, VmError>(e),
                            ));
                        }
                        return Err(e);
                    },
                    Result::Ok(()) => {},
                }
                proof {
                    lemma_run_n_snoc(start0, n, m_before);
                    assert(step1(m_before) == StepOutcome::Next(self.machine@));
                    n = n + 1;
                    crate::machine::lemma_exec_ok_facts(m_before, insn);
                    if j + 1 < count {
                        assert(!spec_is_basic_block_end(insn));
                        lemma_block_take_succ(pc as int, t0.instructions@, j as int);
                    }
                }
                if self.running_trace_cleared {
                    break;
                }
                if !self.machine.running() {
                    break;
                }
                j = j + 1;
            }
            if !self.machine.running() {
                break;
            }
        }
        proof {
            lemma_run_n_snoc(start0, n, self.machine@);
            n = n + 1;
            assert(run_n(start0, n) == StepOutcome::Stop(
                self.machine@,
                Ok::<u8, VmError>(self.machine@.exit_code),
            ));
        }
        Ok(self.machine.exit_code())
    }

    /// Execute one decoded instruction against the machine and meter its
    /// cycle cost, exactly as the uncached interpreter would: the machine
    /// moves through `exec_result` and then `meter`, and any memory write is
    /// followed by trace invalidation over the written range, so every
    /// surviving trace still decodes freshly and the "current trace cleared"
    /// flag is raised whenever the running slot is evicted.
    #[verifier::rlimit(100)]
    fn step_instruction(&mut self, insn: Instruction) -> (r: Result<(), VmError>)
        requires
            old(self).ready(),
            wf_instruction(insn),
            decode_at(old(self).machine@.mem, old(self).machine@.pc) == Some(insn),
        ensures
            final(self).ready(),
            final(self).running_trace_slot == old(self).running_trace_slot,
            final(self).fill_count == old(self).fill_count,
            old(self).running_trace_cleared ==> final(self).running_trace_cleared,
            !final(self).running_trace_cleared ==> final(self).running_trace_cleared == old(
                self,
            ).running_trace_cleared && final(self).traces@[old(self).running_trace_slot as int]
                == old(self).traces@[old(self).running_trace_slot as int],
            ({
                let m0 = old(self).machine@;
                match exec_result(m0, insn) {
                    Result::Err(e) => r == Err::<(), VmError>(e) && final(self).machine@ == m0
                        && final(self).traces@ == old(self).traces@
                        && final(self).running_trace_cleared == old(self).running_trace_cleared,
                    Result::Ok(m1) => match meter(m1) {
                        Result::Err(e) => r == Err::<(), VmError>(e) && final(self).machine@ == m1,
                        Result::Ok(m2) => r == Ok::<(), VmError>(()) && final(self).machine@ == m2,
                    },
                }
            }),
    {
        let ghost m0 = self.machine@;
        proof {
            lemma_decode_at_wf(m0.mem, m0.pc);
        }
        let pc = self.machine.pc();
        match insn {
            Instruction::Li { rd, imm } => {
                self.machine.set_register(rd as usize, imm as u64);
                self.machine.set_pc(pc + 4);
                self.machine.count_step();
                proof {
                    assert(self.machine@ == exec_result(m0, insn)->Ok_0) by {
                        assert(self.machine@ =~= count_step(
                            MachineView {
                                pc: m0.pc + 4,
                                regs: m0.regs.update(rd as int, imm as u64),
                                ..m0
                            },
                        ));
                    }
                }
            },
            Instruction::Add { rd, rs1, rs2 } => {
                let a = self.machine.register(rs1 as usize);
                let b = self.machine.register(rs2 as usize);
                let sum = if b <= u64::MAX - a {
                    a + b
                } else {
                    a - (u64::MAX - b) - 1
                };
                proof {
                    assert(sum == crate::machine::wrap_add64(a, b));
                }
                self.machine.set_register(rd as usize, sum);
                self.machine.set_pc(pc + 4);
                self.machine.count_step();
                proof {
                    assert(self.machine@ == exec_result(m0, insn)->Ok_0) by {
                        assert(self.machine@ =~= count_step(
                            MachineView {
                                pc: m0.pc + 4,
                                regs: m0.regs.update(
                                    rd as int,
                                    crate::machine::wrap_add64(
                                        m0.regs[rs1 as int],
                                        m0.regs[rs2 as int],
                                    ),
                                ),
                                ..m0
                            },
                        ));
                    }
                }
            },
            Instruction::Sb { rs_addr, rs_val } => {
                let a = self.machine.register(rs_addr as usize);
                if !(a < self.machine.memory_size() as u64) {
                    return Err(VmError::MemoryFault);
                }
                let v = self.machine.register(rs_val as usize);
                let addr = a as usize;
                let ghost tr0 = self.traces@;
                let ghost mem0 = self.machine@.mem;
                self.machine.write_byte(addr, (v % 256) as u8);
                self.clear_traces(addr, 1);
                proof {
                    lemma_clear_preserves_valid(
                        mem0,
                        self.machine@.mem,
                        tr0,
                        self.traces@,
                        addr as int,
                        1,
                    );
                }
                self.machine.set_pc(pc + 4);
                self.machine.count_step();
                proof {
                    assert(self.machine@ == exec_result(m0, insn)->Ok_0) by {
                        assert(self.machine@ =~= count_step(
                            MachineView {
                                pc: m0.pc + 4,
                                mem: m0.mem.update(
                                    m0.regs[rs_addr as int] as int,
                                    (m0.regs[rs_val as int] % 256) as u8,
                                ),
                                ..m0
                            },
                        ));
                    }
                }
            },
            Instruction::Lb { rd, rs_addr } => {
                let a = self.machine.register(rs_addr as usize);
                if !(a < self.machine.memory_size() as u64) {
                    return Err(VmError::MemoryFault);
                }
                let b = self.machine.read_byte(a as usize);
                self.machine.set_register(rd as usize, b as u64);
                self.machine.set_pc(pc + 4);
                self.machine.count_step();
                proof {
                    assert(self.machine@ == exec_result(m0, insn)->Ok_0) by {
                        assert(self.machine@ =~= count_step(
                            MachineView {
                                pc: m0.pc + 4,
                                regs: m0.regs.update(
                                    rd as int,
                                    m0.mem[m0.regs[rs_addr as int] as int] as u64,
                                ),
                                ..m0
                            },
                        ));
                    }
                }
            },
            Instruction::Cnop => {
                self.machine.set_pc(pc + 2);
                self.machine.count_step();
                proof {
                    assert(self.machine@ == exec_result(m0, insn)->Ok_0) by {
                        assert(self.machine@ =~= count_step(MachineView { pc: m0.pc + 2, ..m0 }));
                    }
                }
            },
            Instruction::Jmp { target } => {
                self.machine.set_pc(target as usize);
                self.machine.count_step();
                proof {
                    assert(self.machine@ == exec_result(m0, insn)->Ok_0) by {
                        assert(self.machine@ =~= count_step(
                            MachineView { pc: target as int, ..m0 },
                        ));
                    }
                }
            },
            Instruction::Beqz { rs, target } => {
                let v = self.machine.register(rs as usize);
                if v == 0 {
                    self.machine.set_pc(target as usize);
                } else {
                    self.machine.set_pc(pc + 4);
                }
                self.machine.count_step();
                proof {
                    assert(self.machine@ == exec_result(m0, insn)->Ok_0) by {
                        assert(self.machine@ =~= count_step(
                            MachineView {
                                pc: if m0.regs[rs as int] == 0 {
                                    target as int
                                } else {
                                    m0.pc + 4
                                },
                                ..m0
                            },
                        ));
                    }
                }
            },
            Instruction::Ecall { rs } => {
                let v = self.machine.register(rs as usize);
                self.machine.set_pc(pc + 4);
                self.machine.set_exit_code((v % 256) as u8);
                self.machine.set_running(false);
                self.machine.count_step();
                proof {
                    assert(self.machine@ == exec_result(m0, insn)->Ok_0) by {
                        assert(self.machine@ =~= count_step(
                            MachineView {
                                pc: m0.pc + 4,
                                running: false,
                                exit_code: (m0.regs[rs as int] % 256) as u8,
                                ..m0
                            },
                        ));
                    }
                }
            },
            Instruction::Ebreak => {
                return Err(VmError::HostCallFault);
            },
        }
        proof {
            crate::machine::lemma_exec_ok_facts(m0, insn);
        }
        let ghost m1 = self.machine@;
        let cost = self.machine.cost_value();
        match self.machine.add_cycles(cost) {
            Result::Ok(()) => {
                proof {
                    assert(self.machine@ == meter(m1)->Ok_0) by {
                        assert(self.machine@ =~= (MachineView {
                            cycles: (m1.cycles + cost_of(m1)) as u64,
                            ..m1
                        }));
                    }
                }
                Ok(())
            },
            Result::Err(e) => Err(e),
        }
    }
}

} // verus!
