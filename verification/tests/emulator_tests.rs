use lib::assembler::emit::{
    emit_add, emit_call, emit_hlt, emit_int, emit_iret, emit_jmp, emit_jns, emit_jnz, emit_js,
    emit_jz, emit_load, emit_loadi, emit_mov, emit_pop, emit_push, emit_ret, emit_store, emit_sub,
};
use lib::emulator::cpu::{CPU, ENTER, LEAVE, HLT};
use lib::memory::Memory;

fn run(cpu: &mut CPU, memory: &mut Memory, limit: usize) -> usize {
    let mut steps = 0;
    while steps < limit {
        assert!(cpu.can_step(memory));
        steps += 1;
        if cpu.step(memory) {
            break;
        }
    }
    steps
}

#[test]
fn new_cpu_stack_starts_at_memory_end() {
    let cpu = CPU::new(1024);
    assert_eq!(cpu.registers, [0; 8]);
    assert_eq!(cpu.pc, 0);
    assert_eq!(cpu.ir, 0);
    assert_eq!(cpu.sp, 1024);
    assert_eq!(cpu.bp, 1024);
    assert_eq!(cpu.fp, 1024);
    assert_eq!(cpu.lr, 0);
    assert_eq!(cpu.interrupt_register, 0);
    assert!(!cpu.carry_flag && !cpu.sign_flag && !cpu.zero_flag && !cpu.overflow_flag);
}

#[test]
fn subtract_below_zero_sets_carry_and_sign() {
    let mut memory = Memory::new(1024);
    let mut cpu = CPU::new(1024);
    let mut pos = 0;
    emit_loadi(&mut memory, &mut pos, 0, 0);
    emit_loadi(&mut memory, &mut pos, 1, 1);
    emit_sub(&mut memory, &mut pos, 0, 1);
    emit_hlt(&mut memory, &mut pos);
    assert_eq!(pos, 16);
    run(&mut cpu, &mut memory, 10);
    assert_eq!(cpu.registers[0], 4294967295);
    assert!(cpu.carry_flag);
    assert!(cpu.sign_flag);
    assert!(!cpu.zero_flag);
    assert_eq!(cpu.ir, HLT);
    assert_eq!(cpu.pc, 16);
}

#[test]
fn add_overflow_sets_carry_and_zero() {
    let mut memory = Memory::new(64);
    let mut cpu = CPU::new(64);
    let mut pos = 0;
    emit_loadi(&mut memory, &mut pos, 2, 0xFFFF_FFFF);
    emit_loadi(&mut memory, &mut pos, 3, 1);
    emit_add(&mut memory, &mut pos, 2, 3);
    emit_hlt(&mut memory, &mut pos);
    run(&mut cpu, &mut memory, 10);
    assert_eq!(cpu.registers[2], 0);
    assert!(cpu.carry_flag);
    assert!(cpu.zero_flag);
    assert!(!cpu.sign_flag);
}

#[test]
fn countdown_loop_with_jz_and_jmp() {
    let mut memory = Memory::new(1024);
    let mut cpu = CPU::new(1024);
    let mut pos = 0;
    emit_loadi(&mut memory, &mut pos, 0, 3);
    emit_loadi(&mut memory, &mut pos, 1, 1);
    let loop_start = pos;
    let jz_at = pos;
    emit_jz(&mut memory, &mut pos, 0);
    emit_sub(&mut memory, &mut pos, 0, 1);
    emit_jmp(&mut memory, &mut pos, loop_start);
    let end = pos;
    memory.write_u32(jz_at + 1, end);
    emit_store(&mut memory, &mut pos, 0, 400);
    emit_load(&mut memory, &mut pos, 2, 400);
    emit_loadi(&mut memory, &mut pos, 3, 10);
    emit_mov(&mut memory, &mut pos, 4, 3);
    emit_add(&mut memory, &mut pos, 4, 3);
    emit_store(&mut memory, &mut pos, 4, 404);
    emit_hlt(&mut memory, &mut pos);
    run(&mut cpu, &mut memory, 100);
    assert_eq!(cpu.registers[0], 0);
    assert_eq!(cpu.registers[2], 0);
    assert_eq!(cpu.registers[4], 20);
    assert_eq!(memory.read_u32(400), 0);
    assert_eq!(memory.read_u32(404), 20);
}

#[test]
fn conditional_jumps_follow_flags() {
    let mut memory = Memory::new(1024);
    let mut cpu = CPU::new(1024);
    let mut pos = 0;
    emit_loadi(&mut memory, &mut pos, 5, 1);
    let skip = pos + 5 + 6;
    emit_jnz(&mut memory, &mut pos, skip);
    emit_loadi(&mut memory, &mut pos, 6, 999);
    emit_loadi(&mut memory, &mut pos, 7, 777);
    emit_loadi(&mut memory, &mut pos, 0, 0);
    emit_loadi(&mut memory, &mut pos, 1, 1);
    emit_sub(&mut memory, &mut pos, 0, 1);
    let minus = pos + 5 + 6;
    emit_js(&mut memory, &mut pos, minus);
    emit_loadi(&mut memory, &mut pos, 6, 1234);
    emit_loadi(&mut memory, &mut pos, 6, 5555);
    emit_loadi(&mut memory, &mut pos, 0, 5);
    emit_loadi(&mut memory, &mut pos, 1, 1);
    emit_sub(&mut memory, &mut pos, 0, 1);
    let plus = pos + 5 + 6;
    emit_jns(&mut memory, &mut pos, plus);
    emit_loadi(&mut memory, &mut pos, 7, 1234);
    emit_loadi(&mut memory, &mut pos, 7, 8888);
    emit_hlt(&mut memory, &mut pos);
    run(&mut cpu, &mut memory, 100);
    assert_eq!(cpu.registers[6], 5555);
    assert_eq!(cpu.registers[7], 8888);
    assert_eq!(cpu.registers[0], 4);
}

#[test]
fn push_then_pop_moves_a_value() {
    let mut memory = Memory::new(1024);
    let mut cpu = CPU::new(1024);
    let mut pos = 0;
    emit_loadi(&mut memory, &mut pos, 0, 111);
    emit_loadi(&mut memory, &mut pos, 1, 222);
    emit_push(&mut memory, &mut pos, 0);
    emit_push(&mut memory, &mut pos, 1);
    emit_pop(&mut memory, &mut pos, 2);
    emit_pop(&mut memory, &mut pos, 3);
    emit_hlt(&mut memory, &mut pos);
    run(&mut cpu, &mut memory, 3);
    assert_eq!(cpu.sp, 1020);
    assert_eq!(memory.read_u32(1020), 111);
    assert_eq!(cpu.stack_words(&memory), vec![(1020, 111)]);
    run(&mut cpu, &mut memory, 100);
    assert_eq!(cpu.registers[2], 222);
    assert_eq!(cpu.registers[3], 111);
    assert_eq!(cpu.sp, 1024);
    assert_eq!(cpu.stack_words(&memory), vec![]);
}

#[test]
fn call_then_ret_comes_back() {
    let mut memory = Memory::new(1024);
    let mut cpu = CPU::new(1024);
    let mut pos = 0;
    let func = pos + 5 + 6 + 1;
    emit_call(&mut memory, &mut pos, func);
    emit_loadi(&mut memory, &mut pos, 7, 777);
    emit_hlt(&mut memory, &mut pos);
    emit_loadi(&mut memory, &mut pos, 0, 123);
    emit_ret(&mut memory, &mut pos);
    emit_hlt(&mut memory, &mut pos);
    cpu.step(&mut memory);
    assert_eq!(cpu.pc, func);
    assert_eq!(cpu.sp, 1020);
    assert_eq!(memory.read_u32(1020), 5);
    run(&mut cpu, &mut memory, 100);
    assert_eq!(cpu.registers[0], 123);
    assert_eq!(cpu.registers[7], 777);
    assert_eq!(cpu.sp, 1024);
    assert_eq!(cpu.pc, 12);
}

#[test]
fn interrupt_then_iret_comes_back() {
    let mut memory = Memory::new(1024);
    let mut cpu = CPU::new(1024);
    let mut pos = 0;
    emit_loadi(&mut memory, &mut pos, 0, 10);
    let handler = pos + 1 + 6 + 1;
    cpu.interrupt_register = handler;
    emit_int(&mut memory, &mut pos);
    emit_loadi(&mut memory, &mut pos, 7, 777);
    emit_hlt(&mut memory, &mut pos);
    emit_loadi(&mut memory, &mut pos, 1, 999);
    emit_iret(&mut memory, &mut pos);
    run(&mut cpu, &mut memory, 100);
    assert_eq!(cpu.registers[0], 10);
    assert_eq!(cpu.registers[1], 999);
    assert_eq!(cpu.registers[7], 777);
    assert_eq!(cpu.sp, 1024);
}

#[test]
fn enter_then_leave_restores_frame() {
    let mut memory = Memory::new(64);
    let mut cpu = CPU::new(64);
    memory.write_u8(0, ENTER);
    memory.write_u8(1, LEAVE);
    memory.write_u8(2, HLT);
    assert!(!cpu.step(&mut memory));
    assert_eq!(cpu.bp, 60);
    assert_eq!(cpu.sp, 52);
    assert_eq!(memory.read_u32(60), 64);
    assert!(!cpu.step(&mut memory));
    assert_eq!(cpu.bp, 64);
    assert_eq!(cpu.sp, 64);
    assert!(cpu.step(&mut memory));
}

#[test]
fn unknown_opcode_halts() {
    let mut memory = Memory::new(8);
    let mut cpu = CPU::new(8);
    memory.write_u8(0, 200);
    assert!(cpu.can_step(&memory));
    assert!(cpu.step(&mut memory));
    assert_eq!(cpu.ir, 200);
    assert_eq!(cpu.pc, 1);
}

#[test]
fn faults_are_detected_before_stepping() {
    let mut memory = Memory::new(32);
    let mut pos = 0;
    emit_loadi(&mut memory, &mut pos, 8, 1);
    let cpu = CPU::new(32);
    assert!(!cpu.can_step(&memory));

    let mut memory = Memory::new(32);
    let mut pos = 0;
    emit_pop(&mut memory, &mut pos, 0);
    let cpu = CPU::new(32);
    assert!(!cpu.can_step(&memory));

    let mut memory = Memory::new(32);
    let mut pos = 0;
    emit_push(&mut memory, &mut pos, 0);
    let mut cpu = CPU::new(32);
    cpu.sp = 3;
    assert!(!cpu.can_step(&memory));

    let mut memory = Memory::new(32);
    let mut pos = 0;
    emit_int(&mut memory, &mut pos);
    let cpu = CPU::new(32);
    assert!(!cpu.can_step(&memory));

    let memory = Memory::new(4);
    let mut cpu = CPU::new(4);
    cpu.pc = 4;
    assert!(!cpu.can_step(&memory));

    let mut memory = Memory::new(4);
    memory.write_u8(0, 5);
    let cpu = CPU::new(4);
    assert!(!cpu.can_step(&memory));
}
