use lib::assembler::{
    emit_add, emit_hlt, emit_jmp, emit_jnz, emit_jz, emit_loadi, emit_mov, emit_store, emit_sub,
    patch_u32, LabelTable,
};
use lib::cpu::{CPU, HLT, JZ, LOADI};
use lib::memory::Memory;

fn run(cpu: &mut CPU, memory: &mut Memory) {
    for _ in 0..1000 {
        assert!(cpu.can_step(memory));
        if cpu.step(memory) {
            return;
        }
    }
    panic!("did not halt");
}

#[test]
fn old_cpu_runs_a_countdown() {
    let mut memory = Memory::new(256);
    let mut pos = 0;
    let mut labels = LabelTable::new();
    emit_loadi(&mut memory, &mut pos, 0, 3);
    emit_loadi(&mut memory, &mut pos, 1, 1);
    labels.define("loop", pos);
    let jz_at = pos;
    emit_jz(&mut memory, &mut pos, 0, 0);
    emit_sub(&mut memory, &mut pos, 0, 1);
    emit_jmp(&mut memory, &mut pos, labels.get("loop"));
    labels.define("end", pos);
    patch_u32(&mut memory, jz_at + 2, labels.get("end"));
    emit_mov(&mut memory, &mut pos, 2, 1);
    emit_add(&mut memory, &mut pos, 2, 1);
    emit_store(&mut memory, &mut pos, 2, 200);
    emit_hlt(&mut memory, &mut pos);
    assert_eq!(memory.data[jz_at as usize], JZ);
    assert_eq!(memory.data[0], LOADI);
    let mut cpu = CPU::new();
    run(&mut cpu, &mut memory);
    assert_eq!(cpu.registers[0], 0);
    assert_eq!(cpu.registers[2], 2);
    assert_eq!(memory.read_u32(200), 2);
    assert_eq!(cpu.ir, HLT);
}

#[test]
fn old_cpu_jnz_tests_its_register() {
    let mut memory = Memory::new(64);
    let mut pos = 0;
    emit_loadi(&mut memory, &mut pos, 4, 1);
    let target = pos + 6 + 6;
    emit_jnz(&mut memory, &mut pos, 4, target);
    emit_loadi(&mut memory, &mut pos, 5, 9);
    emit_hlt(&mut memory, &mut pos);
    let mut cpu = CPU::new();
    run(&mut cpu, &mut memory);
    assert_eq!(cpu.registers[5], 0);
}

#[test]
fn old_cpu_rejects_bad_register() {
    let mut memory = Memory::new(16);
    let mut pos = 0;
    emit_mov(&mut memory, &mut pos, 9, 0);
    let cpu = CPU::new();
    assert!(!cpu.can_step(&memory));
}
