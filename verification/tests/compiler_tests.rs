use lib::compiler::simple_c::{
    check_compile_source, compile_simple_c_program, compile_source, compile_to_assembly,
    try_compile_to_assembly, CSourceError, CompileError,
};
use lib::assembler::emit::{parse_line, AsmError, AsmItem};
use lib::emulator::cpu::{CPU, ADD, HLT, LOAD, LOADI, MOV, STORE, SUB};
use lib::memory::Memory;

fn run(cpu: &mut CPU, memory: &mut Memory) {
    for _ in 0..1000 {
        assert!(cpu.can_step(memory));
        if cpu.step(memory) {
            return;
        }
    }
    panic!("did not halt");
}

#[test]
fn simple_program_compiles_to_code() {
    let mut memory = Memory::new(1024);
    let mut pos = 0;
    compile_simple_c_program(&mut memory, &mut pos);
    assert_eq!(pos, 25);
    assert_eq!(
        &memory.data[0..25],
        &[
            LOADI, 0, 3, 0, 0, 0, LOADI, 1, 1, 0, 0, 0, ADD, 0, 1, SUB, 0, 1, STORE, 0, 144, 1, 0,
            0, HLT
        ]
    );
    let mut cpu = CPU::new(1024);
    run(&mut cpu, &mut memory);
    assert_eq!(memory.read_u32(400), 3);
}

#[test]
fn compile_source_skips_other_lines() {
    let source = "int x;\nlabel here;\nx = 7;\nstore x, 8;\n";
    let mut memory = Memory::new(32);
    let mut pos = 2;
    assert!(check_compile_source(&memory, pos, source).is_ok());
    compile_source(&mut memory, &mut pos, source);
    assert_eq!(pos, 2 + 6 + 6 + 1);
    assert_eq!(&memory.data[2..15], &[LOADI, 0, 7, 0, 0, 0, STORE, 0, 8, 0, 0, 0, HLT]);
}

#[test]
fn compile_source_errors() {
    let memory = Memory::new(64);
    assert!(matches!(
        check_compile_source(&memory, 0, "a = 1;"),
        Err(CSourceError::Line(CompileError::UndefinedVariable))
    ));
    assert!(matches!(
        check_compile_source(&memory, 0, "int a;\nint b;\na = b + a;"),
        Err(CSourceError::Line(CompileError::NotSelfUpdate))
    ));
    assert!(matches!(
        check_compile_source(&memory, 0, "int a;\na = x;"),
        Err(CSourceError::Line(CompileError::InvalidNumber))
    ));
    assert!(matches!(
        check_compile_source(&memory, 0, "int a;\na = 1 = 2;"),
        Err(CSourceError::Line(CompileError::Malformed))
    ));
    let small = Memory::new(10);
    assert!(matches!(
        check_compile_source(&small, 0, "int a;\na = 1;\na = 2;"),
        Err(CSourceError::TooLong)
    ));
}

#[test]
fn compiles_to_assembly_text() {
    let source = "
int a;
int b;
a = 3;
b = 1;
label loop;
a = a - b;
jnz loop;
ifz done;
move b, a;
compare a, b;
push a;
pop b;
load a, 400;
store b, 404;
call f;
jump done;
label done;
ret;
enter;
leave;
interrupt;
iret;
js x;
jns y;
ifs x;
ifns y;
jz z;
ifnz w;
a = a + b;
";
    let expected = "LOADI R0, 3\nLOADI R1, 1\nloop:\nSUB R0, R1\nJNZ loop\nJZ done\nMOV R1, R0\nCMP R0, R1\nPUSH R0\nPOP R1\nLOAD R0, 400\nSTORE R1, 404\nCALL f\nJMP done\ndone:\nRET\nENTER\nLEAVE\nINT\nIRET\nJS x\nJNS y\nJS x\nJNS y\nJZ z\nJNZ w\nADD R0, R1\nHLT\n";
    assert_eq!(compile_to_assembly(source), expected);
    assert_eq!(try_compile_to_assembly(source).ok().unwrap(), expected);
}

#[test]
fn compile_to_assembly_errors() {
    assert!(matches!(try_compile_to_assembly("while x;"), Err(CompileError::Unsupported)));
    assert!(matches!(
        try_compile_to_assembly("int a;int b;\n"),
        Ok(_)
    ));
    let nine = "int a;\nint b;\nint c;\nint d;\nint e;\nint f;\nint g;\nint h;\nint i;\n";
    assert!(matches!(try_compile_to_assembly(nine), Err(CompileError::TooManyVariables)));
    assert!(matches!(try_compile_to_assembly("push q;"), Err(CompileError::UndefinedVariable)));
    assert!(matches!(try_compile_to_assembly("int a;\nmove a;"), Err(CompileError::Malformed)));
    assert!(matches!(
        try_compile_to_assembly("int a;\nload a, far;"),
        Err(CompileError::InvalidNumber)
    ));
}

#[test]
fn redeclaration_reuses_count_as_register() {
    let source = "int a;\nint b;\nint a;\nint c;\na = 1;\nb = 2;\nc = 3;\n";
    assert_eq!(
        compile_to_assembly(source),
        "LOADI R2, 1\nLOADI R1, 2\nLOADI R2, 3\nHLT\n"
    );
}

#[test]
fn compiled_lines_read_back_as_instructions() {
    let source = "int a;\nint b;\na = 3;\nload b, 400;\nstore a, 8;\nmove a, b;\na = a + b;\na = a - b;\ncompare a, b;\n";
    let text = compile_to_assembly(source);
    let lines: Vec<Vec<char>> = text.lines().map(|l| l.chars().collect()).collect();
    assert!(matches!(parse_line(&lines[0]), Ok(AsmItem::RegWord(LOADI, 0, 3))));
    assert!(matches!(parse_line(&lines[1]), Ok(AsmItem::RegWord(LOAD, 1, 400))));
    assert!(matches!(parse_line(&lines[2]), Ok(AsmItem::RegWord(STORE, 0, 8))));
    assert!(matches!(parse_line(&lines[3]), Ok(AsmItem::RegReg(MOV, 0, 1))));
    assert!(matches!(parse_line(&lines[4]), Ok(AsmItem::RegReg(ADD, 0, 1))));
    assert!(matches!(parse_line(&lines[5]), Ok(AsmItem::RegReg(SUB, 0, 1))));
    assert!(matches!(parse_line(&lines[6]), Err(AsmError::UnknownInstruction)));
    assert!(matches!(parse_line(&lines[7]), Ok(AsmItem::Bare(HLT))));
}

#[test]
fn other_lines_compile_to_nothing_and_code_ends_with_halt() {
    let mut m1 = Memory::new(64);
    let mut p1 = 3;
    compile_source(&mut m1, &mut p1, "int a;\na = 2;\nstore a, 40;\n");
    let mut m2 = Memory::new(64);
    let mut p2 = 3;
    compile_source(&mut m2, &mut p2, "int a;\njump loop;\n\na = 2;\nlabel x;\nstore a, 40;\nret;\n");
    assert_eq!(m1.data, m2.data);
    assert_eq!(p1, p2);
    assert_eq!(m2.data[p2 as usize - 1], HLT);
}

#[test]
fn compiled_text_assembles_to_compiled_code() {
    let source = "int a;\nint b;\na = 7;\nb = 2;\na = a + b;\nb = b - a;\nstore a, 40;\n";
    let mut m1 = Memory::new(128);
    let mut p1 = 0;
    compile_source(&mut m1, &mut p1, source);
    let text = compile_to_assembly(source);
    let mut m2 = Memory::new(128);
    let mut p2 = 0;
    let mut labels = lib::assembler::emit::LabelTable::new();
    let mut patches: Vec<lib::assembler::emit::Patch> = Vec::new();
    assert!(lib::assembler::emit::check_source(&m2, p2, &text).is_ok());
    lib::assembler::emit::assemble_source(&mut m2, &mut p2, &text, &mut labels, &mut patches);
    assert_eq!(m1.data, m2.data);
    assert_eq!(p1, p2);
    assert!(patches.is_empty());
}
