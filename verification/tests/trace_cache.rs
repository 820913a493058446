use trace_vm::machine::{Machine, VmError};
use trace_vm::trace::{
    calculate_slot, TraceMachine, TRACE_ITEM_LENGTH, TRACE_MASK, TRACE_SIZE,
};

fn power_of_2(value: usize) -> bool {
    value != 0 && value & (value - 1) == 0
}

fn machine_with(mem: usize, cycle_limit: u64, step_limit: u64, cost: Option<u64>) -> TraceMachine {
    TraceMachine::new(Machine::new(mem, cycle_limit, step_limit, cost))
}

fn place(img: &mut Vec<u8>, at: usize, bytes: &[u8]) {
    for (k, b) in bytes.iter().enumerate() {
        img[at + k] = *b;
    }
}

fn li(rd: u8, imm: u16) -> [u8; 4] {
    [0x00, rd, (imm & 0xff) as u8, (imm >> 8) as u8]
}

fn add(rd: u8, rs1: u8, rs2: u8) -> [u8; 4] {
    [0x01, rd, rs1, rs2]
}

fn sb(rs_addr: u8, rs_val: u8) -> [u8; 4] {
    [0x02, rs_addr, rs_val, 0]
}

fn lb(rd: u8, rs_addr: u8) -> [u8; 4] {
    [0x03, rd, rs_addr, 0]
}

fn jmp(target: u16) -> [u8; 4] {
    [0x10, 0, (target & 0xff) as u8, (target >> 8) as u8]
}

fn beqz(rs: u8, target: u16) -> [u8; 4] {
    [0x11, rs, (target & 0xff) as u8, (target >> 8) as u8]
}

fn ecall(rs: u8) -> [u8; 4] {
    [0x12, rs, 0, 0]
}

#[test]
fn test_trace_constant_rules() {
    assert!(power_of_2(TRACE_SIZE));
    assert_eq!(TRACE_MASK, TRACE_SIZE - 1);
    assert!(power_of_2(TRACE_ITEM_LENGTH));
    assert!(TRACE_ITEM_LENGTH <= 255);
}

#[test]
fn test_tight_loop_single_fill() {
    // A 3-instruction block at 0x1000 ending in a jump back to 0x1000,
    // run under a no-op cost function until the external step limit.
    let mut img = vec![0u8; 0x2000];
    place(&mut img, 0x1000, &li(1, 1));
    place(&mut img, 0x1004, &add(2, 2, 1));
    place(&mut img, 0x1008, &jmp(0x1000));
    let mut tm = machine_with(0x2000, u64::MAX, 30, Some(0));
    tm.load_program(&img).unwrap();
    tm.machine.set_pc(0x1000);
    assert_eq!(tm.run(), Ok(0));
    assert_eq!(tm.machine.cycles(), 0);
    assert_eq!(tm.machine.steps(), 30);
    assert_eq!(tm.machine.register(2), 10);
    // one decode event despite ten executions of the block
    assert_eq!(tm.fill_count(), 1);
}

#[test]
fn test_capacity_split() {
    // Twenty trivial non-branching instructions exceed the 16-instruction
    // capacity: two consecutive traces, none skipped or duplicated.
    let mut img = vec![0u8; 0x3000];
    for k in 0..20 {
        place(&mut img, 0x2000 + 2 * k, &[0x20, 0]);
    }
    place(&mut img, 0x2000 + 40, &ecall(0));
    let mut tm = machine_with(0x3000, u64::MAX, 100, None);
    tm.load_program(&img).unwrap();
    tm.machine.set_pc(0x2000);
    assert_eq!(tm.run(), Ok(0));
    assert_eq!(tm.machine.steps(), 21);
    assert_eq!(tm.fill_count(), 2);
    let first = tm.cached_trace(calculate_slot(0x2000));
    assert_eq!(first, (0x2000, 32, 16));
    let second = tm.cached_trace(calculate_slot(0x2000 + 32));
    assert_eq!(second, (0x2020, 12, 5));
}

#[test]
fn test_self_modifying_block_stops() {
    // A store inside a cached block overwrites a later instruction of its
    // own block: the rest of the cached pass is skipped and the next fetch
    // re-decodes the overwritten bytes.
    let mut img = vec![0u8; 0x100];
    place(&mut img, 0, &li(2, 14)); // address of the immediate byte below
    place(&mut img, 4, &li(1, 9)); // the new immediate
    place(&mut img, 8, &sb(2, 1)); // overwrite it mid-block
    place(&mut img, 12, &li(3, 7)); // stale immediate 7, rewritten to 9
    place(&mut img, 16, &ecall(3));
    let mut tm = machine_with(0x100, u64::MAX, u64::MAX, None);
    tm.load_program(&img).unwrap();
    // a run that replayed the stale cached instructions would exit with 7
    assert_eq!(tm.run(), Ok(9));
    assert_eq!(tm.fill_count(), 2);
    assert_eq!(tm.load8(14), Ok(9));
}

#[test]
fn test_write_before_execute() {
    // Writing new bytes to an address and later jumping there executes the
    // new bytes, never a previously cached decode of the old ones.
    let mut img = vec![0u8; 0x200];
    place(&mut img, 0x100, &li(1, 5));
    place(&mut img, 0x104, &jmp(0x20));
    place(&mut img, 0x20, &li(2, 0x102)); // immediate byte of the li above
    place(&mut img, 0x24, &li(3, 8));
    place(&mut img, 0x28, &sb(2, 3));
    place(&mut img, 0x2c, &jmp(0x100));
    let mut tm = machine_with(0x200, u64::MAX, 8, None);
    tm.load_program(&img).unwrap();
    tm.machine.set_pc(0x100);
    assert_eq!(tm.run(), Ok(0));
    assert_eq!(tm.machine.register(1), 8);
    assert_eq!(tm.fill_count(), 3);
}

#[test]
fn test_slot_collision_refill() {
    // 0x40 and 0x50 share a slot: visiting A, then B, then A again must
    // re-decode at the third visit, never reuse the stale A-trace.
    assert_eq!(calculate_slot(0x40), calculate_slot(0x50));
    let mut img = vec![0u8; 0x100];
    place(&mut img, 0x40, &li(1, 1));
    place(&mut img, 0x44, &jmp(0x50));
    place(&mut img, 0x50, &li(2, 2));
    place(&mut img, 0x54, &jmp(0x40));
    let mut tm = machine_with(0x100, u64::MAX, 6, None);
    tm.load_program(&img).unwrap();
    tm.machine.set_pc(0x40);
    assert_eq!(tm.run(), Ok(0));
    assert_eq!(tm.machine.register(1), 1);
    assert_eq!(tm.machine.register(2), 2);
    assert_eq!(tm.fill_count(), 3);
    assert_eq!(tm.cached_trace(calculate_slot(0x40)), (0x40, 8, 2));
}

#[test]
fn test_refill_identical() {
    // Re-filling the same unmodified address produces an identical trace.
    let mut img = vec![0u8; 0x100];
    place(&mut img, 0x40, &li(1, 1));
    place(&mut img, 0x44, &jmp(0x50));
    place(&mut img, 0x50, &li(2, 2));
    place(&mut img, 0x54, &jmp(0x40));

    let mut first = machine_with(0x100, u64::MAX, 2, None);
    first.load_program(&img).unwrap();
    first.machine.set_pc(0x40);
    assert_eq!(first.run(), Ok(0));
    let once = first.cached_trace(calculate_slot(0x40));

    let mut third = machine_with(0x100, u64::MAX, 6, None);
    third.load_program(&img).unwrap();
    third.machine.set_pc(0x40);
    assert_eq!(third.run(), Ok(0));
    let refilled = third.cached_trace(calculate_slot(0x40));

    assert_eq!(once, refilled);
    assert_eq!(once, (0x40, 8, 2));
}

#[test]
fn test_metering_counts_executions_not_fills() {
    // Cycle cost is charged per executed instruction; decoding is free, so
    // cache hits and misses give identical totals.
    let mut img = vec![0u8; 0x2000];
    place(&mut img, 0x1000, &li(1, 1));
    place(&mut img, 0x1004, &add(2, 2, 1));
    place(&mut img, 0x1008, &jmp(0x1000));
    let mut tm = machine_with(0x2000, 1000, 9, Some(1));
    tm.load_program(&img).unwrap();
    tm.machine.set_pc(0x1000);
    assert_eq!(tm.run(), Ok(0));
    assert_eq!(tm.machine.steps(), 9);
    assert_eq!(tm.machine.cycles(), 9);
    assert_eq!(tm.fill_count(), 1);
}

#[test]
fn test_straight_line_exit_code() {
    let mut img = vec![0u8; 0x100];
    place(&mut img, 0, &li(5, 42));
    place(&mut img, 4, &ecall(5));
    let mut tm = machine_with(0x100, u64::MAX, u64::MAX, Some(7));
    tm.load_program(&img).unwrap();
    assert_eq!(tm.run(), Ok(42));
    assert_eq!(tm.machine.cycles(), 14);
    assert_eq!(tm.machine.steps(), 2);
}

#[test]
fn test_beqz_taken() {
    let mut img = vec![0u8; 0x100];
    place(&mut img, 0, &li(1, 0));
    place(&mut img, 4, &beqz(1, 0x20));
    place(&mut img, 0x20, &li(2, 1));
    place(&mut img, 0x24, &ecall(2));
    let mut tm = machine_with(0x100, u64::MAX, u64::MAX, None);
    tm.load_program(&img).unwrap();
    assert_eq!(tm.run(), Ok(1));
}

#[test]
fn test_beqz_not_taken() {
    let mut img = vec![0u8; 0x100];
    place(&mut img, 0, &li(1, 5));
    place(&mut img, 4, &beqz(1, 0x20));
    place(&mut img, 8, &li(2, 2));
    place(&mut img, 12, &ecall(2));
    place(&mut img, 0x20, &li(2, 1));
    place(&mut img, 0x24, &ecall(2));
    let mut tm = machine_with(0x100, u64::MAX, u64::MAX, None);
    tm.load_program(&img).unwrap();
    assert_eq!(tm.run(), Ok(2));
}

#[test]
fn test_add_wraps_around() {
    // Doubling a register 64 times wraps the 64-bit value back to zero.
    let mut img = vec![0u8; 0x200];
    place(&mut img, 0, &li(1, 1));
    for k in 0..64 {
        place(&mut img, 4 + 4 * k, &add(1, 1, 1));
    }
    place(&mut img, 4 + 4 * 64, &ecall(0));
    let mut tm = machine_with(0x200, u64::MAX, u64::MAX, None);
    tm.load_program(&img).unwrap();
    assert_eq!(tm.run(), Ok(0));
    assert_eq!(tm.machine.steps(), 66);
    assert_eq!(tm.machine.register(1), 0);
}

#[test]
fn test_decode_fault() {
    let mut img = vec![0u8; 0x10];
    img[0] = 0xff;
    let mut tm = machine_with(0x10, u64::MAX, u64::MAX, None);
    tm.load_program(&img).unwrap();
    assert_eq!(tm.run(), Err(VmError::DecodeFault));
}

#[test]
fn test_memory_fault_on_load() {
    let mut img = vec![0u8; 0x100];
    place(&mut img, 0, &li(1, 0xffff)); // far beyond the 0x100-byte memory
    place(&mut img, 4, &lb(4, 1));
    let mut tm = machine_with(0x100, u64::MAX, u64::MAX, None);
    tm.load_program(&img).unwrap();
    assert_eq!(tm.run(), Err(VmError::MemoryFault));
}

#[test]
fn test_cycle_limit_exceeded() {
    let mut img = vec![0u8; 0x100];
    place(&mut img, 0, &li(1, 1));
    place(&mut img, 4, &ecall(0));
    let mut tm = machine_with(0x100, 5, u64::MAX, Some(10));
    tm.load_program(&img).unwrap();
    assert_eq!(tm.run(), Err(VmError::CycleLimitExceeded));
}

#[test]
fn test_ebreak_faults() {
    let mut img = vec![0u8; 0x100];
    place(&mut img, 0, &[0x13, 0, 0, 0]);
    let mut tm = machine_with(0x100, u64::MAX, u64::MAX, None);
    tm.load_program(&img).unwrap();
    assert_eq!(tm.run(), Err(VmError::HostCallFault));
}

#[test]
fn test_store_load_roundtrip() {
    let mut tm = machine_with(0x100, u64::MAX, u64::MAX, None);
    assert_eq!(tm.store64(0x40, 0x0123456789abcdef), Ok(()));
    assert_eq!(tm.load64(0x40), Ok(0x0123456789abcdef));
    assert_eq!(tm.load8(0x40), Ok(0xef));
    assert_eq!(tm.load16(0x46), Ok(0x0123));
    assert_eq!(tm.load32(0x40), Ok(0x89abcdef));
    assert_eq!(tm.store16(0x10, 0xbeef), Ok(()));
    assert_eq!(tm.load16(0x10), Ok(0xbeef));
    assert_eq!(tm.store32(0x20, 0xdeadbeef), Ok(()));
    assert_eq!(tm.load32(0x20), Ok(0xdeadbeef));
    assert_eq!(tm.store8(0x30, 0x1234), Ok(()));
    assert_eq!(tm.load8(0x30), Ok(0x34));
    assert_eq!(tm.store8(0x100, 1), Err(VmError::MemoryFault));
    assert_eq!(tm.load64(0xfd), Err(VmError::MemoryFault));
}

#[test]
fn test_store_invalidates_cache() {
    let mut img = vec![0u8; 0x2000];
    place(&mut img, 0x1000, &li(1, 1));
    place(&mut img, 0x1004, &add(2, 2, 1));
    place(&mut img, 0x1008, &jmp(0x1000));
    let mut tm = machine_with(0x2000, u64::MAX, 3, None);
    tm.load_program(&img).unwrap();
    tm.machine.set_pc(0x1000);
    assert_eq!(tm.run(), Ok(0));
    let slot = calculate_slot(0x1000);
    assert_eq!(tm.cached_trace(slot), (0x1000, 12, 3));
    assert_eq!(tm.store8(0x1001, 0x99), Ok(()));
    assert_eq!(tm.cached_trace(slot), (0, 0, 0));
}

#[test]
fn test_mmap_and_munmap() {
    let mut tm = machine_with(0x100, u64::MAX, u64::MAX, None);
    let src = vec![1u8, 2, 3, 4];
    assert_eq!(tm.mmap(0x20, 4, 0, Some(&src), 0), Ok(()));
    assert_eq!(tm.load32(0x20), Ok(0x04030201));
    assert_eq!(tm.munmap(0x20, 4), Ok(()));
    assert_eq!(tm.load32(0x20), Ok(0));
    assert_eq!(tm.store8(0x21, 9), Ok(()));
    assert_eq!(tm.mmap(0x20, 4, 0, None, 0), Ok(()));
    assert_eq!(tm.load32(0x20), Ok(0));
    assert_eq!(tm.mmap(0x20, 8, 0, Some(&src), 0), Err(VmError::MemoryFault));
    assert_eq!(tm.mmap(0xfe, 4, 0, None, 0), Err(VmError::MemoryFault));
}

#[test]
fn test_fill_region() {
    let mut tm = machine_with(0x100, u64::MAX, u64::MAX, None);
    assert_eq!(tm.store_byte(0x10, 4, 0xab), Ok(()));
    assert_eq!(tm.load32(0x10), Ok(0xabababab));
    assert_eq!(tm.load8(0x14), Ok(0));
    assert_eq!(tm.store_byte(0xff, 2, 0), Err(VmError::MemoryFault));
}

#[test]
fn test_store_bytes_and_load_program() {
    let mut tm = machine_with(0x100, u64::MAX, u64::MAX, None);
    assert_eq!(tm.store_bytes(0x40, &[5, 6, 7]), Ok(()));
    assert_eq!(tm.load8(0x40), Ok(5));
    assert_eq!(tm.load8(0x42), Ok(7));
    assert_eq!(tm.store_bytes(0xff, &[1, 2]), Err(VmError::MemoryFault));

    let program = vec![0x20u8, 0, 0x12, 0, 0, 0];
    assert_eq!(tm.load_program(&program), Ok(()));
    assert_eq!(tm.machine.pc(), 0);
    assert_eq!(tm.load8(0), Ok(0x20));
    let too_big = vec![0u8; 0x200];
    assert_eq!(tm.load_program(&too_big), Err(VmError::MemoryFault));
}

#[test]
fn test_calculate_slot_values() {
    assert_eq!(calculate_slot(0), 0);
    assert_eq!(calculate_slot(0x1000), 128);
    assert_eq!(calculate_slot(0x1f), 0);
    assert_eq!(calculate_slot(0x20), 1);
    assert_eq!(calculate_slot(TRACE_SIZE * 32), 0);
    assert_eq!(calculate_slot(TRACE_SIZE * 32 + 0x40), 2);
}
