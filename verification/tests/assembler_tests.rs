use lib::assembler::emit::{
    assemble_source, check_source, emit_jmp_label, emit_jz_label, parse_line, patch_u32,
    resolve_patches, AsmError, AsmItem, LabelTable, Patch, SourceError, Target,
};
use lib::emulator::cpu::{CPU, CALL, HLT, JMP, JZ, LOADI, ADD};
use lib::memory::Memory;

fn chars(s: &str) -> Vec<char> {
    s.chars().collect()
}

fn run(cpu: &mut CPU, memory: &mut Memory) {
    for _ in 0..1000 {
        assert!(cpu.can_step(memory));
        if cpu.step(memory) {
            return;
        }
    }
    panic!("did not halt");
}

#[test]
fn label_table_define_and_get() {
    let mut labels = LabelTable::new();
    assert!(!labels.contains("loop"));
    labels.define("loop", 12);
    labels.define("end", 40);
    assert_eq!(labels.get("loop"), 12);
    assert_eq!(labels.get("end"), 40);
    labels.define("loop", 99);
    assert_eq!(labels.get("loop"), 99);
    assert_eq!(labels.get("end"), 40);
    assert!(labels.contains("end"));
}

#[test]
fn label_references_are_patched() {
    let mut memory = Memory::new(64);
    let mut labels = LabelTable::new();
    let mut patches: Vec<Patch> = Vec::new();
    let mut pos = 0;
    emit_jz_label(&mut memory, &mut pos, "end", &mut patches);
    emit_jmp_label(&mut memory, &mut pos, "start", &mut patches);
    assert_eq!(pos, 10);
    assert_eq!(patches.len(), 2);
    assert_eq!(patches[0].label, "end");
    assert_eq!(patches[0].address_pos, 1);
    assert_eq!(patches[1].label, "start");
    assert_eq!(patches[1].address_pos, 6);
    assert_eq!(memory.data[0], JZ);
    assert_eq!(memory.data[5], JMP);
    assert_eq!(memory.read_u32(1), 0);
    labels.define("start", 0);
    labels.define("end", 10);
    resolve_patches(&mut memory, &labels, &patches);
    assert_eq!(memory.read_u32(1), 10);
    assert_eq!(memory.read_u32(6), 0);
}

#[test]
fn patch_overwrites_a_word() {
    let mut memory = Memory::new(8);
    patch_u32(&mut memory, 2, 0x0102_0304);
    assert_eq!(memory.data, vec![0, 0, 4, 3, 2, 1, 0, 0]);
}

#[test]
fn assembles_text_program() {
    let source = "
        LOADI R0, 10
        LOADI R1, 1
        ADD R0, R1
        HLT
        ";
    let mut memory = Memory::new(1024);
    let mut pos = 0;
    let mut labels = LabelTable::new();
    let mut patches = Vec::new();
    assert!(check_source(&memory, pos, source).is_ok());
    assemble_source(&mut memory, &mut pos, source, &mut labels, &mut patches);
    assert_eq!(pos, 16);
    assert_eq!(
        &memory.data[0..16],
        &[LOADI, 0, 10, 0, 0, 0, LOADI, 1, 1, 0, 0, 0, ADD, 0, 1, HLT]
    );
    let mut cpu = CPU::new(1024);
    run(&mut cpu, &mut memory);
    assert_eq!(cpu.registers[0], 11);
}

#[test]
fn assembles_labels_calls_and_comments() {
    let source = "
start:
    LOADI R0, 3      // counter
    LOADI R1, 1
loop:
    JZ end
    SUB R0, R1
    JMP loop
end:
    CALL func
    HLT
func:
    PUSH R0
    POP R2
    RET
";
    let mut memory = Memory::new(1024);
    let mut pos = 0;
    let mut labels = LabelTable::new();
    let mut patches = Vec::new();
    assert!(check_source(&memory, pos, source).is_ok());
    assemble_source(&mut memory, &mut pos, source, &mut labels, &mut patches);
    assert_eq!(labels.get("start"), 0);
    assert_eq!(labels.get("loop"), 12);
    assert_eq!(labels.get("end"), 25);
    assert_eq!(labels.get("func"), 31);
    assert_eq!(patches.len(), 3);
    resolve_patches(&mut memory, &labels, &patches);
    assert_eq!(memory.data[25], CALL);
    assert_eq!(memory.read_u32(26), 31);
    let mut cpu = CPU::new(1024);
    run(&mut cpu, &mut memory);
    assert_eq!(cpu.registers[0], 0);
    assert_eq!(cpu.registers[2], 0);
    assert_eq!(cpu.pc, 31);
}

#[test]
fn parse_line_kinds() {
    assert!(matches!(parse_line(&chars("   ")), Ok(AsmItem::Skip)));
    assert!(matches!(parse_line(&chars("// only a comment")), Ok(AsmItem::Skip)));
    match parse_line(&chars("loop::")) {
        Ok(AsmItem::Label(n)) => assert_eq!(n, chars("loop")),
        _ => panic!("expected a label"),
    }
    assert!(matches!(parse_line(&chars("HLT extra")), Ok(AsmItem::Bare(HLT))));
    assert!(matches!(parse_line(&chars("STORE R3, +400")), Ok(AsmItem::RegWord(2, 3, 400))));
    assert!(matches!(parse_line(&chars("JMP 30")), Ok(AsmItem::Jump(JMP, Target::Address(30)))));
    match parse_line(&chars("CALL f1")) {
        Ok(AsmItem::Jump(op, Target::Label(n))) => {
            assert_eq!(op, CALL);
            assert_eq!(n, chars("f1"));
        }
        _ => panic!("expected a label call"),
    }
}

#[test]
fn parse_line_errors() {
    assert!(matches!(parse_line(&chars("ADD")), Err(AsmError::MissingOperands)));
    assert!(matches!(parse_line(&chars("ADD R0")), Err(AsmError::OperandCount)));
    assert!(matches!(parse_line(&chars("ADD R0, R8")), Err(AsmError::BadRegister)));
    assert!(matches!(parse_line(&chars("MOV X0, R1")), Err(AsmError::BadRegister)));
    assert!(matches!(parse_line(&chars("LOADI R0, -1")), Err(AsmError::BadNumber)));
    assert!(matches!(parse_line(&chars("LOADI R0, 4294967296")), Err(AsmError::BadNumber)));
    assert!(matches!(parse_line(&chars("NOP 1")), Err(AsmError::UnknownInstruction)));
}

#[test]
fn check_source_reports_first_problem() {
    let memory = Memory::new(64);
    assert!(matches!(
        check_source(&memory, 0, "HLT\nFOO R1\n"),
        Err(SourceError::Line(AsmError::UnknownInstruction))
    ));
    let small = Memory::new(8);
    assert!(matches!(
        check_source(&small, 0, "LOADI R0, 1\nLOADI R1, 2\n"),
        Err(SourceError::TooLong)
    ));
    assert!(check_source(&small, 2, "LOADI R0, 1\r\n").is_ok());
}

fn assemble_fresh(source: &str) -> (Memory, u32, LabelTable, Vec<Patch>) {
    let mut memory = Memory::new(64);
    let mut pos = 0;
    let mut labels = LabelTable::new();
    let mut patches: Vec<Patch> = Vec::new();
    assert!(check_source(&memory, pos, source).is_ok());
    assemble_source(&mut memory, &mut pos, source, &mut labels, &mut patches);
    (memory, pos, labels, patches)
}

#[test]
fn blank_and_comment_lines_assemble_to_nothing() {
    let (m1, p1, _, q1) = assemble_fresh("LOADI R0, 5\nJMP end\nHLT\n");
    let (m2, p2, _, q2) =
        assemble_fresh("\n   \n// setup\nLOADI R0, 5 // five\n\t\nJMP end // out\n  // done\nHLT\n");
    assert_eq!(m1.data, m2.data);
    assert_eq!(p1, p2);
    assert_eq!(q1.len(), q2.len());
    assert_eq!(q1[0].address_pos, q2[0].address_pos);
    assert_eq!(q1[0].label, q2[0].label);
}

#[test]
fn label_line_defines_the_current_position() {
    let (m1, p1, _, _) = assemble_fresh("LOADI R0, 1\nHLT\n");
    let (m2, p2, labels, patches) = assemble_fresh("LOADI R0, 1\nhere:\nHLT\n");
    assert_eq!(m1.data, m2.data);
    assert_eq!(p1, p2);
    assert!(patches.is_empty());
    assert_eq!(labels.get("here"), 6);
}

#[test]
fn last_definition_of_a_label_wins() {
    let mut labels = LabelTable::new();
    labels.define("a", 1);
    labels.define("b", 2);
    labels.define("a", 3);
    labels.define("c", 4);
    assert_eq!(labels.get("a"), 3);
    assert_eq!(labels.get("b"), 2);
    assert_eq!(labels.get("c"), 4);
    assert!(!labels.contains("d"));
}
