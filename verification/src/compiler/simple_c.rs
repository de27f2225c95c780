use vstd::prelude::*;
use crate::text::{
    lemma_lines_cons, lemma_lines_empty, lemma_split_once_at, lemma_before_first_absent,
    lemma_dec_string_digits, law_decimal_roundtrip, is_digit, before_first, split_once, lemma_split_char_concat, lemma_split_char_none, strip_cr,
    is_ws, dec_value, digit_value, unsigned_digits, all_digits, parse_dec, trim_start, trim_end,
    has_suffix,
    chars_of, string_from_chars, trim, has_prefix, trim_start_matches, trim_end_matches,
    parse_u32_spec, split_char, lines, views, dec_string, trim_chars, starts_with, strip_prefixes,
    strip_suffixes, parse_u32, split_chars, lines_of, contains_char, push_str, push_chars,
    push_decimal,
};
use crate::labels::chars_equal;
use crate::memory::Memory;
use crate::encoding::{splice, room_for, op_only, op_reg_reg, op_reg_word, lemma_splice_concat};
use crate::emulator::cpu::{LOADI, ADD, SUB, STORE, HLT};
use crate::assembler::emit::{
    emit_loadi, emit_add, emit_sub, emit_store, emit_hlt, parse_line_spec, instruction_spec,
    register_spec, reg_word_spec, reg_reg_spec, ItemSpec, AsmError, plain_item, item_bytes,
    items_code, source_items, source_ok, parsed_lines, AsmState, assemble_items, items_size,
    law_plain_items_assemble,
};
use crate::emulator::cpu::{LOAD, MOV};

verus! {

/// The variables declared so far, each with its register, in the order first declared.
pub type Vars = Seq<(Seq<char>, u8)>;

/// Where `name` stands among `vars`, if it does.
#[verifier::opaque]
pub open spec fn find_var(vars: Vars, name: Seq<char>) -> Option<int> {
    if exists|i: int| 0 <= i < vars.len() && vars[i].0 == name {
        Some(
            choose|i: int|
                0 <= i < vars.len() && vars[i].0 == name && forall|j: int|
                    0 <= j < i ==> vars[j].0 != name,
        )
    } else {
        None
    }
}

/// The register of `name`.
pub open spec fn lookup(vars: Vars, name: Seq<char>) -> Option<u8> {
    match find_var(vars, name) {
        Some(i) => Some(vars[i].1),
        None => None,
    }
}

/// Declaring `name` gives it the register numbered by how many variables there are, and
/// replaces an earlier declaration of it; with eight variables already, it fails.
pub open spec fn declare(vars: Vars, name: Seq<char>) -> Option<Vars> {
    if vars.len() >= 8 {
        None
    } else {
        let reg = vars.len() as u8;
        match find_var(vars, name) {
            Some(i) => Some(vars.update(i, (name, reg))),
            None => Some(vars.push((name, reg))),
        }
    }
}

/// Why a program in the C-like language is refused.
pub enum CompileError {
    /// A ninth variable is declared.
    TooManyVariables,
    /// A variable is used without being declared.
    UndefinedVariable,
    /// A statement does not have the shape its keyword or operator asks for.
    Malformed,
    /// A number or an address does not parse as a `u32`.
    InvalidNumber,
    /// `a = b + c` or `a = b - c` where `a` is not `b`.
    NotSelfUpdate,
    /// A line that is no statement of the language.
    Unsupported,
}

/// Variable names and their registers.
struct Variables {
    entries: Vec<(Vec<char>, u8)>,
}

impl Variables {
    closed spec fn view(&self) -> Vars {
        self.entries@.map_values(|e: (Vec<char>, u8)| (e.0@, e.1))
    }

    fn new() -> (v: Self)
        ensures
            v.view() == Seq::<(Seq<char>, u8)>::empty(),
    {
        let v = Variables { entries: Vec::new() };
        assert(v.view() =~= Seq::<(Seq<char>, u8)>::empty());
        v
    }

    fn find(&self, name: &Vec<char>) -> (r: Option<usize>)
        ensures
            match r {
                Some(i) => find_var(self.view(), name@) == Some(i as int) && i < self.view().len(),
                None => find_var(self.view(), name@) is None,
            },
    {
        reveal(find_var);
        let ghost vs = self.view();
        let mut i: usize = 0;
        while i < self.entries.len()
            invariant
                vs == self.view(),
                vs.len() == self.entries@.len(),
                i <= vs.len(),
                forall|k: int| 0 <= k < i ==> vs[k].0 != name@,
            decreases vs.len() - i,
        {
            assert(vs[i as int] == (self.entries@[i as int].0@, self.entries@[i as int].1));
            if chars_equal(&self.entries[i].0, name) {
                proof {
                    reveal(find_var);
                    assert(vs[i as int].0 == name@);
                    let k = choose|k: int|
                        0 <= k < vs.len() && vs[k].0 == name@ && forall|j: int|
                            0 <= j < k ==> vs[j].0 != name@;
                    assert(0 <= i < vs.len() && vs[i as int].0 == name@ && forall|j: int|
                        0 <= j < i ==> vs[j].0 != name@);
                    if k > i {
                        assert(vs[i as int].0 != name@);
                    }
                }
                return Some(i);
            }
            i += 1;
        }
        None
    }
}

/// Declares `name`; see `declare`. A ninth variable is refused with `TooManyVariables`
/// and the table is kept, so that the checking entry points can report the line; the
/// writing entry points require a source on which this never happens.
fn declare_variable(variables: &mut Variables, name: &Vec<char>) -> (r: Result<(), CompileError>)
    ensures
        match declare(old(variables).view(), name@) {
            Some(vs) => r is Ok && final(variables).view() == vs,
            None => r == Err::<(), CompileError>(CompileError::TooManyVariables) && final(variables).view() == old(variables).view(),
        },
{
    let reg = variables.entries.len();
    if reg >= 8 {
        return Err(CompileError::TooManyVariables);
    }
    let reg = reg as u8;
    let copy = crate::text::slice_chars(name, 0, name.len());
    assert(copy@ =~= name@);
    match variables.find(name) {
        Some(i) => {
            variables.entries.set(i, (copy, reg));
            assert(variables.view() =~= old(variables).view().update(i as int, (name@, reg)));
        },
        None => {
            variables.entries.push((copy, reg));
            assert(variables.view() =~= old(variables).view().push((name@, reg)));
        },
    }
    Ok(())
}

/// The register of `name`, which must have been declared.
fn get_register(variables: &Variables, name: &Vec<char>) -> (r: Result<u8, CompileError>)
    ensures
        match lookup(variables.view(), name@) {
            Some(reg) => r == Ok::<u8, CompileError>(reg),
            None => r == Err::<u8, CompileError>(CompileError::UndefinedVariable),
        },
{
    match variables.find(name) {
        Some(i) => {
            assert(variables.view()[i as int].1 == variables.entries@[i as int].1);
            Ok(variables.entries[i].1)
        },
        None => Err(CompileError::UndefinedVariable),
    }
}

/// A line with its surrounding whitespace removed.
fn preprocess_line(line: &Vec<char>) -> (r: Vec<char>)
    ensures
        r@ == trim(line@),
{
    trim_chars(line)
}

/// What follows keyword `kw`, without trailing `;` and surrounding whitespace.
pub open spec fn arg_of(line: Seq<char>, kw: Seq<char>) -> Seq<char> {
    trim(trim_end_matches(trim_start_matches(line, kw), ";"@))
}

fn arg_of_exec(line: &Vec<char>, kw: &str) -> (r: Vec<char>)
    ensures
        r@ == arg_of(line@, kw@),
{
    let a = strip_prefixes(line, &chars_of(kw));
    let b = strip_suffixes(&a, &chars_of(";"));
    trim_chars(&b)
}

/// `R` and the register's number.
pub open spec fn reg_text(r: u8) -> Seq<char> {
    "R"@ + dec_string(r as nat)
}

/// The two operands of `kw a, b;`, each trimmed; `None` unless there are exactly two.
#[verifier::opaque]
pub open spec fn pair_of(line: Seq<char>, kw: Seq<char>) -> Option<(Seq<char>, Seq<char>)> {
    let parts = split_char(arg_of(line, kw), ',');
    if parts.len() == 2 {
        Some((trim(parts[0]), trim(parts[1])))
    } else {
        None
    }
}

/// `x = n;`: a number assignment, with no `+` or `-` in the line.
pub open spec fn is_number_assignment(line: Seq<char>) -> bool {
    line.contains('=') && !line.contains('+') && !line.contains('-')
}

/// The name and the number of `x = n;`.
#[verifier::opaque]
pub open spec fn number_assignment(line: Seq<char>) -> Result<(Seq<char>, u32), CompileError> {
    let parts = split_char(trim_end_matches(line, ";"@), '=');
    if parts.len() != 2 {
        Err(CompileError::Malformed)
    } else {
        match parse_u32_spec(trim(parts[1])) {
            None => Err(CompileError::InvalidNumber),
            Some(v) => Ok((trim(parts[0]), v)),
        }
    }
}

/// The destination and source of `x = x op y;`.
#[verifier::opaque]
pub open spec fn self_update(line: Seq<char>, op: char) -> Result<(Seq<char>, Seq<char>), CompileError> {
    let parts = split_char(trim_end_matches(line, ";"@), '=');
    if parts.len() != 2 {
        Err(CompileError::Malformed)
    } else {
        let dst = trim(parts[0]);
        let rhs = split_char(trim(parts[1]), op);
        if rhs.len() != 2 {
            Err(CompileError::Malformed)
        } else if dst != trim(rhs[0]) {
            Err(CompileError::NotSelfUpdate)
        } else {
            Ok((dst, trim(rhs[1])))
        }
    }
}

/// The name and the address of `kw x, n;`.
pub open spec fn name_address(line: Seq<char>, kw: Seq<char>) -> Result<(Seq<char>, u32), CompileError> {
    match pair_of(line, kw) {
        None => Err(CompileError::Malformed),
        Some((name, a)) => match parse_u32_spec(a) {
            None => Err(CompileError::InvalidNumber),
            Some(address) => Ok((name, address)),
        },
    }
}

/// The registers of two names, in order.
pub open spec fn two_regs(vars: Vars, a: Seq<char>, b: Seq<char>) -> Result<(u8, u8), CompileError> {
    match lookup(vars, a) {
        None => Err(CompileError::UndefinedVariable),
        Some(ra) => match lookup(vars, b) {
            None => Err(CompileError::UndefinedVariable),
            Some(rb) => Ok((ra, rb)),
        },
    }
}

/// `ins Ra, Rb` and a newline.
pub open spec fn reg_reg_line(ins: Seq<char>, r: Result<(u8, u8), CompileError>) -> Result<Seq<char>, CompileError> {
    match r {
        Ok((a, b)) => Ok(ins + reg_text(a) + ", "@ + reg_text(b) + "\n"@),
        Err(e) => Err(e),
    }
}

/// `ins Rr, n` and a newline, for a name and a number.
pub open spec fn reg_num_line(ins: Seq<char>, vars: Vars, r: Result<(Seq<char>, u32), CompileError>) -> Result<Seq<char>, CompileError> {
    match r {
        Err(e) => Err(e),
        Ok((name, n)) => match lookup(vars, name) {
            None => Err(CompileError::UndefinedVariable),
            Some(reg) => Ok(ins + reg_text(reg) + ", "@ + dec_string(n as nat) + "\n"@),
        },
    }
}

/// `ins Rr` and a newline, for the variable named after `kw`.
pub open spec fn reg_line(ins: Seq<char>, vars: Vars, line: Seq<char>, kw: Seq<char>) -> Result<Seq<char>, CompileError> {
    match lookup(vars, arg_of(line, kw)) {
        None => Err(CompileError::UndefinedVariable),
        Some(reg) => Ok(ins + reg_text(reg) + "\n"@),
    }
}

/// A conditional jump `kw label;`: `ins label` and a newline.
pub open spec fn cond_jump_line(line: Seq<char>, kw: Seq<char>, ins: Seq<char>) -> Seq<char> {
    ins + " "@ + arg_of(line, kw + " "@) + "\n"@
}

/// The assembly of one non-empty, trimmed line, statement kinds tried in a fixed order,
/// and the variables after it.
pub open spec fn asm_line(line: Seq<char>, vars: Vars) -> Result<(Vars, Seq<char>), CompileError> {
    if has_prefix(line, "int "@) {
        match declare(vars, arg_of(line, "int "@)) {
            Some(vs) => Ok((vs, Seq::empty())),
            None => Err(CompileError::TooManyVariables),
        }
    } else {
        match asm_statement(line, vars) {
            Ok(text) => Ok((vars, text)),
            Err(e) => Err(e),
        }
    }
}

/// The assembly of a line that declares nothing.
#[verifier::opaque]
pub open spec fn asm_statement(line: Seq<char>, vars: Vars) -> Result<Seq<char>, CompileError> {
    if has_prefix(line, "label "@) {
        Ok(arg_of(line, "label "@) + ":\n"@)
    } else if has_prefix(line, "jump "@) {
        Ok("JMP "@ + arg_of(line, "jump "@) + "\n"@)
    } else if has_prefix(line, "jz"@ + " "@) {
        Ok(cond_jump_line(line, "jz"@, "JZ"@))
    } else if has_prefix(line, "ifz "@) {
        Ok("JZ "@ + arg_of(line, "ifz "@) + "\n"@)
    } else if has_prefix(line, "jnz"@ + " "@) {
        Ok(cond_jump_line(line, "jnz"@, "JNZ"@))
    } else if has_prefix(line, "ifnz "@) {
        Ok("JNZ "@ + arg_of(line, "ifnz "@) + "\n"@)
    } else if has_prefix(line, "js"@ + " "@) {
        Ok(cond_jump_line(line, "js"@, "JS"@))
    } else if has_prefix(line, "ifs "@) {
        Ok("JS "@ + arg_of(line, "ifs "@) + "\n"@)
    } else if has_prefix(line, "jns"@ + " "@) {
        Ok(cond_jump_line(line, "jns"@, "JNS"@))
    } else if has_prefix(line, "ifns "@) {
        Ok("JNS "@ + arg_of(line, "ifns "@) + "\n"@)
    } else if has_prefix(line, "call "@) {
        Ok("CALL "@ + arg_of(line, "call "@) + "\n"@)
    } else if line == "ret"@ + ";"@ {
        Ok("RET"@ + "\n"@)
    } else if line == "enter"@ + ";"@ {
        Ok("ENTER"@ + "\n"@)
    } else if line == "leave"@ + ";"@ {
        Ok("LEAVE"@ + "\n"@)
    } else if line == "interrupt"@ + ";"@ {
        Ok("INT"@ + "\n"@)
    } else if line == "iret"@ + ";"@ {
        Ok("IRET"@ + "\n"@)
    } else if is_number_assignment(line) {
        reg_num_line("LOADI "@, vars, number_assignment(line))
    } else if line.contains('=') && line.contains('+') {
        match self_update(line, '+') {
            Err(e) => Err(e),
            Ok((d, s)) => reg_reg_line("ADD "@, two_regs(vars, d, s)),
        }
    } else if line.contains('=') && line.contains('-') {
        match self_update(line, '-') {
            Err(e) => Err(e),
            Ok((d, s)) => reg_reg_line("SUB "@, two_regs(vars, d, s)),
        }
    } else if has_prefix(line, "move "@) {
        match pair_of(line, "move "@) {
            None => Err(CompileError::Malformed),
            Some((d, s)) => reg_reg_line("MOV "@, two_regs(vars, d, s)),
        }
    } else if has_prefix(line, "compare "@) {
        match pair_of(line, "compare "@) {
            None => Err(CompileError::Malformed),
            Some((a, b)) => reg_reg_line("CMP "@, two_regs(vars, a, b)),
        }
    } else if has_prefix(line, "load "@) {
        reg_num_line("LOAD "@, vars, name_address(line, "load "@))
    } else if has_prefix(line, "push "@) {
        reg_line("PUSH "@, vars, line, "push "@)
    } else if has_prefix(line, "pop "@) {
        reg_line("POP "@, vars, line, "pop "@)
    } else if has_prefix(line, "store "@) {
        reg_num_line("STORE "@, vars, name_address(line, "store "@))
    } else {
        Err(CompileError::Unsupported)
    }
}

/// The variables and the assembly after `ls`, each line trimmed and empty ones skipped; the
/// error of the first line that fails.
pub open spec fn asm_lines(ls: Seq<Seq<char>>) -> Result<(Vars, Seq<char>), CompileError>
    decreases ls.len(),
{
    if ls.len() == 0 {
        Ok((Seq::empty(), Seq::empty()))
    } else {
        match asm_lines(ls.drop_last()) {
            Err(e) => Err(e),
            Ok((vars, text)) => {
                let line = trim(ls.last());
                if line.len() == 0 {
                    Ok((vars, text))
                } else {
                    match asm_line(line, vars) {
                        Err(e) => Err(e),
                        Ok((vs, t)) => Ok((vs, text + t)),
                    }
                }
            },
        }
    }
}

/// The assembly program for `source`: one piece per statement, then `HLT`.
pub open spec fn compile_to_assembly_spec(source: Seq<char>) -> Result<Seq<char>, CompileError> {
    match asm_lines(lines(source)) {
        Err(e) => Err(e),
        Ok((_, text)) => Ok(text + "HLT\n"@),
    }
}

/// Appends `R` and the register's number.
fn push_reg(assembly: &mut Vec<char>, reg: u8)
    ensures
        final(assembly)@ == old(assembly)@ + reg_text(reg),
{
    push_str(assembly, "R");
    push_decimal(assembly, reg as u32);
    assert(assembly@ =~= old(assembly)@ + reg_text(reg));
}

/// `int x;` declares `x`.
fn compile_variable_declaration(line: &Vec<char>, variables: &mut Variables) -> (r: Result<bool, CompileError>)
    ensures
        !has_prefix(line@, "int "@) ==> r == Ok::<bool, CompileError>(false) && final(variables).view() == old(variables).view(),
        has_prefix(line@, "int "@) ==> match declare(old(variables).view(), arg_of(line@, "int "@)) {
            Some(vs) => r == Ok::<bool, CompileError>(true) && final(variables).view() == vs,
            None => r == Err::<bool, CompileError>(CompileError::TooManyVariables),
        },
{
    if !starts_with(line, &chars_of("int ")) {
        return Ok(false);
    }
    let name = arg_of_exec(line, "int ");
    match declare_variable(variables, &name) {
        Ok(()) => Ok(true),
        Err(e) => Err(e),
    }
}

/// `label x;` becomes the assembly label `x:`.
fn compile_label_statement(line: &Vec<char>, assembly: &mut Vec<char>) -> (handled: bool)
    ensures
        handled == has_prefix(line@, "label "@),
        handled ==> final(assembly)@ == old(assembly)@ + (arg_of(line@, "label "@) + ":\n"@),
        !handled ==> final(assembly)@ == old(assembly)@,
{
    if !starts_with(line, &chars_of("label ")) {
        return false;
    }
    let name = arg_of_exec(line, "label ");
    push_chars(assembly, &name);
    push_str(assembly, ":\n");
    assert(assembly@ =~= old(assembly)@ + (arg_of(line@, "label "@) + ":\n"@));
    true
}

/// `call f;` becomes `CALL f`.
fn compile_call_statement(line: &Vec<char>, assembly: &mut Vec<char>) -> (handled: bool)
    ensures
        handled == has_prefix(line@, "call "@),
        handled ==> final(assembly)@ == old(assembly)@ + ("CALL "@ + arg_of(line@, "call "@) + "\n"@),
        !handled ==> final(assembly)@ == old(assembly)@,
{
    if !starts_with(line, &chars_of("call ")) {
        return false;
    }
    let name = arg_of_exec(line, "call ");
    push_str(assembly, "CALL ");
    push_chars(assembly, &name);
    push_str(assembly, "\n");
    assert(assembly@ =~= old(assembly)@ + ("CALL "@ + arg_of(line@, "call "@) + "\n"@));
    true
}

/// `jump l;` becomes `JMP l`.
fn compile_jump_statement(line: &Vec<char>, assembly: &mut Vec<char>) -> (handled: bool)
    ensures
        handled == has_prefix(line@, "jump "@),
        handled ==> final(assembly)@ == old(assembly)@ + ("JMP "@ + arg_of(line@, "jump "@) + "\n"@),
        !handled ==> final(assembly)@ == old(assembly)@,
{
    if !starts_with(line, &chars_of("jump ")) {
        return false;
    }
    let name = arg_of_exec(line, "jump ");
    push_str(assembly, "JMP ");
    push_chars(assembly, &name);
    push_str(assembly, "\n");
    assert(assembly@ =~= old(assembly)@ + ("JMP "@ + arg_of(line@, "jump "@) + "\n"@));
    true
}

/// `ifz l;` becomes `JZ l`.
fn compile_ifz_statement(line: &Vec<char>, assembly: &mut Vec<char>) -> (handled: bool)
    ensures
        handled == has_prefix(line@, "ifz "@),
        handled ==> final(assembly)@ == old(assembly)@ + ("JZ "@ + arg_of(line@, "ifz "@) + "\n"@),
        !handled ==> final(assembly)@ == old(assembly)@,
{
    if !starts_with(line, &chars_of("ifz ")) {
        return false;
    }
    let name = arg_of_exec(line, "ifz ");
    push_str(assembly, "JZ ");
    push_chars(assembly, &name);
    push_str(assembly, "\n");
    assert(assembly@ =~= old(assembly)@ + ("JZ "@ + arg_of(line@, "ifz "@) + "\n"@));
    true
}

/// `ifnz l;` becomes `JNZ l`.
fn compile_ifnz_statement(line: &Vec<char>, assembly: &mut Vec<char>) -> (handled: bool)
    ensures
        handled == has_prefix(line@, "ifnz "@),
        handled ==> final(assembly)@ == old(assembly)@ + ("JNZ "@ + arg_of(line@, "ifnz "@) + "\n"@),
        !handled ==> final(assembly)@ == old(assembly)@,
{
    if !starts_with(line, &chars_of("ifnz ")) {
        return false;
    }
    let name = arg_of_exec(line, "ifnz ");
    push_str(assembly, "JNZ ");
    push_chars(assembly, &name);
    push_str(assembly, "\n");
    assert(assembly@ =~= old(assembly)@ + ("JNZ "@ + arg_of(line@, "ifnz "@) + "\n"@));
    true
}

/// `ifs l;` becomes `JS l`.
fn compile_ifs_statement(line: &Vec<char>, assembly: &mut Vec<char>) -> (handled: bool)
    ensures
        handled == has_prefix(line@, "ifs "@),
        handled ==> final(assembly)@ == old(assembly)@ + ("JS "@ + arg_of(line@, "ifs "@) + "\n"@),
        !handled ==> final(assembly)@ == old(assembly)@,
{
    if !starts_with(line, &chars_of("ifs ")) {
        return false;
    }
    let name = arg_of_exec(line, "ifs ");
    push_str(assembly, "JS ");
    push_chars(assembly, &name);
    push_str(assembly, "\n");
    assert(assembly@ =~= old(assembly)@ + ("JS "@ + arg_of(line@, "ifs "@) + "\n"@));
    true
}

/// `ifns l;` becomes `JNS l`.
fn compile_ifns_statement(line: &Vec<char>, assembly: &mut Vec<char>) -> (handled: bool)
    ensures
        handled == has_prefix(line@, "ifns "@),
        handled ==> final(assembly)@ == old(assembly)@ + ("JNS "@ + arg_of(line@, "ifns "@) + "\n"@),
        !handled ==> final(assembly)@ == old(assembly)@,
{
    if !starts_with(line, &chars_of("ifns ")) {
        return false;
    }
    let name = arg_of_exec(line, "ifns ");
    push_str(assembly, "JNS ");
    push_chars(assembly, &name);
    push_str(assembly, "\n");
    assert(assembly@ =~= old(assembly)@ + ("JNS "@ + arg_of(line@, "ifns "@) + "\n"@));
    true
}

/// `keyword l;` becomes `instruction l`.
fn compile_conditional_jump_statement(
    line: &Vec<char>,
    keyword: &str,
    instruction: &str,
    assembly: &mut Vec<char>,
) -> (handled: bool)
    ensures
        handled == has_prefix(line@, keyword@ + " "@),
        handled ==> final(assembly)@ == old(assembly)@ + cond_jump_line(line@, keyword@, instruction@),
        !handled ==> final(assembly)@ == old(assembly)@,
{
    let mut prefix = chars_of(keyword);
    push_str(&mut prefix, " ");
    if !starts_with(line, &prefix) {
        return false;
    }
    let a = strip_prefixes(line, &prefix);
    let b = strip_suffixes(&a, &chars_of(";"));
    let name = trim_chars(&b);
    push_str(assembly, instruction);
    push_str(assembly, " ");
    push_chars(assembly, &name);
    push_str(assembly, "\n");
    assert(assembly@ =~= old(assembly)@ + cond_jump_line(line@, keyword@, instruction@));
    true
}

/// `keyword;` becomes `instruction`.
fn compile_no_argument_statement(
    line: &Vec<char>,
    keyword: &str,
    instruction: &str,
    assembly: &mut Vec<char>,
) -> (handled: bool)
    ensures
        handled == (line@ == keyword@ + ";"@),
        handled ==> final(assembly)@ == old(assembly)@ + (instruction@ + "\n"@),
        !handled ==> final(assembly)@ == old(assembly)@,
{
    let mut expected = chars_of(keyword);
    push_str(&mut expected, ";");
    if !chars_equal(line, &expected) {
        return false;
    }
    push_str(assembly, instruction);
    push_str(assembly, "\n");
    assert(assembly@ =~= old(assembly)@ + (instruction@ + "\n"@));
    true
}

/// The name and number of `x = n;`.
fn parse_number_assignment(line: &Vec<char>) -> (r: Result<(Vec<char>, u32), CompileError>)
    ensures
        match number_assignment(line@) {
            Ok((name, v)) => r matches Ok((n, w)) && n@ == name && w == v,
            Err(e) => r == Err::<(Vec<char>, u32), CompileError>(e),
        },
{
    reveal(number_assignment);
    let body = strip_suffixes(line, &chars_of(";"));
    let parts = split_chars(&body, '=');
    if parts.len() != 2 {
        return Err(CompileError::Malformed);
    }
    assert(views(parts@)[0] == parts@[0]@ && views(parts@)[1] == parts@[1]@);
    let name = trim_chars(&parts[0]);
    match parse_u32(&trim_chars(&parts[1])) {
        None => Err(CompileError::InvalidNumber),
        Some(v) => Ok((name, v)),
    }
}

/// The destination and source of `x = x op y;`.
fn parse_self_update(line: &Vec<char>, op: char) -> (r: Result<(Vec<char>, Vec<char>), CompileError>)
    ensures
        match self_update(line@, op) {
            Ok((d, s)) => r matches Ok((a, b)) && a@ == d && b@ == s,
            Err(e) => r == Err::<(Vec<char>, Vec<char>), CompileError>(e),
        },
{
    reveal(self_update);
    let body = strip_suffixes(line, &chars_of(";"));
    let parts = split_chars(&body, '=');
    if parts.len() != 2 {
        return Err(CompileError::Malformed);
    }
    assert(views(parts@)[0] == parts@[0]@ && views(parts@)[1] == parts@[1]@);
    let dst = trim_chars(&parts[0]);
    let rhs = split_chars(&trim_chars(&parts[1]), op);
    if rhs.len() != 2 {
        return Err(CompileError::Malformed);
    }
    assert(views(rhs@)[0] == rhs@[0]@ && views(rhs@)[1] == rhs@[1]@);
    let left = trim_chars(&rhs[0]);
    let src = trim_chars(&rhs[1]);
    if !chars_equal(&dst, &left) {
        return Err(CompileError::NotSelfUpdate);
    }
    Ok((dst, src))
}

/// The two trimmed operands of `kw a, b;`.
fn parse_pair(line: &Vec<char>, kw: &str) -> (r: Option<(Vec<char>, Vec<char>)>)
    ensures
        match pair_of(line@, kw@) {
            Some((a, b)) => r matches Some((x, y)) && x@ == a && y@ == b,
            None => r is None,
        },
{
    reveal(pair_of);
    let body = arg_of_exec(line, kw);
    let parts = split_chars(&body, ',');
    if parts.len() != 2 {
        return None;
    }
    assert(views(parts@)[0] == parts@[0]@ && views(parts@)[1] == parts@[1]@);
    Some((trim_chars(&parts[0]), trim_chars(&parts[1])))
}

/// The name and address of `kw x, n;`.
fn parse_name_address(line: &Vec<char>, kw: &str) -> (r: Result<(Vec<char>, u32), CompileError>)
    ensures
        match name_address(line@, kw@) {
            Ok((name, a)) => r matches Ok((n, w)) && n@ == name && w == a,
            Err(e) => r == Err::<(Vec<char>, u32), CompileError>(e),
        },
{
    match parse_pair(line, kw) {
        None => Err(CompileError::Malformed),
        Some((name, a)) => match parse_u32(&a) {
            None => Err(CompileError::InvalidNumber),
            Some(address) => Ok((name, address)),
        },
    }
}

/// Appends `ins Ra, Rb` for the registers of two names.
#[verifier::rlimit(40)]
fn push_reg_reg(
    assembly: &mut Vec<char>,
    ins: &str,
    variables: &Variables,
    a: &Vec<char>,
    b: &Vec<char>,
) -> (r: Result<(), CompileError>)
    ensures
        match reg_reg_line(ins@, two_regs(variables.view(), a@, b@)) {
            Ok(t) => r is Ok && final(assembly)@ == old(assembly)@ + t,
            Err(e) => r == Err::<(), CompileError>(e),
        },
{
    let ra = match get_register(variables, a) {
        Ok(x) => x,
        Err(e) => return Err(e),
    };
    let rb = match get_register(variables, b) {
        Ok(x) => x,
        Err(e) => return Err(e),
    };
    push_str(assembly, ins);
    push_reg(assembly, ra);
    push_str(assembly, ", ");
    push_reg(assembly, rb);
    push_str(assembly, "\n");
    assert(assembly@ =~= old(assembly)@ + (ins@ + reg_text(ra) + ", "@ + reg_text(rb) + "\n"@));
    Ok(())
}

/// Appends `ins Rr, n` for a name and a number.
fn push_reg_num(
    assembly: &mut Vec<char>,
    ins: &str,
    variables: &Variables,
    name: &Vec<char>,
    n: u32,
) -> (r: Result<(), CompileError>)
    ensures
        match lookup(variables.view(), name@) {
            Some(reg) => r is Ok && final(assembly)@ == old(assembly)@ + (ins@ + reg_text(reg) + ", "@
                + dec_string(n as nat) + "\n"@),
            None => r == Err::<(), CompileError>(CompileError::UndefinedVariable),
        },
{
    let reg = match get_register(variables, name) {
        Ok(x) => x,
        Err(e) => return Err(e),
    };
    push_str(assembly, ins);
    push_reg(assembly, reg);
    push_str(assembly, ", ");
    push_decimal(assembly, n);
    push_str(assembly, "\n");
    assert(assembly@ =~= old(assembly)@ + (ins@ + reg_text(reg) + ", "@ + dec_string(n as nat)
        + "\n"@));
    Ok(())
}

/// `x = n;` becomes `LOADI Rx, n`.
fn compile_number_assignment(line: &Vec<char>, variables: &Variables, assembly: &mut Vec<char>) -> (r: Result<bool, CompileError>)
    ensures
        !is_number_assignment(line@) ==> r == Ok::<bool, CompileError>(false) && final(assembly)@ == old(assembly)@,
        is_number_assignment(line@) ==> match reg_num_line("LOADI "@, variables.view(), number_assignment(line@)) {
            Ok(t) => r == Ok::<bool, CompileError>(true) && final(assembly)@ == old(assembly)@ + t,
            Err(e) => r == Err::<bool, CompileError>(e),
        },
{
    if !(contains_char(line, '=') && !contains_char(line, '+') && !contains_char(line, '-')) {
        return Ok(false);
    }
    match parse_number_assignment(line) {
        Err(e) => Err(e),
        Ok((name, value)) => match push_reg_num(assembly, "LOADI ", variables, &name, value) {
            Ok(()) => Ok(true),
            Err(e) => Err(e),
        },
    }
}

/// `x = x op y;` becomes `ins Rx, Ry`.
fn compile_self_update(line: &Vec<char>, op: char, ins: &str, variables: &Variables, assembly: &mut Vec<char>) -> (r: Result<bool, CompileError>)
    ensures
        !(line@.contains('=') && line@.contains(op)) ==> r == Ok::<bool, CompileError>(false) && final(assembly)@ == old(assembly)@,
        (line@.contains('=') && line@.contains(op)) ==> match self_update(line@, op) {
            Err(e) => r == Err::<bool, CompileError>(e),
            Ok((d, s)) => match reg_reg_line(ins@, two_regs(variables.view(), d, s)) {
                Ok(t) => r == Ok::<bool, CompileError>(true) && final(assembly)@ == old(assembly)@ + t,
                Err(e) => r == Err::<bool, CompileError>(e),
            },
        },
{
    if !(contains_char(line, '=') && contains_char(line, op)) {
        return Ok(false);
    }
    match parse_self_update(line, op) {
        Err(e) => Err(e),
        Ok((dst, src)) => match push_reg_reg(assembly, ins, variables, &dst, &src) {
            Ok(()) => Ok(true),
            Err(e) => Err(e),
        },
    }
}

/// `a = a + b;` becomes `ADD Ra, Rb`. A malformed line or an undeclared name gives its
/// error instead of stopping, so that `try_compile_to_assembly` can report it;
/// `compile_to_assembly` requires a source on which no line errs.
fn compile_add_expression(line: &Vec<char>, variables: &Variables, assembly: &mut Vec<char>) -> (r: Result<bool, CompileError>)
    ensures
        !(line@.contains('=') && line@.contains('+')) ==> r == Ok::<bool, CompileError>(false) && final(assembly)@ == old(assembly)@,
        (line@.contains('=') && line@.contains('+')) ==> match self_update(line@, '+') {
            Err(e) => r == Err::<bool, CompileError>(e),
            Ok((d, s)) => match reg_reg_line("ADD "@, two_regs(variables.view(), d, s)) {
                Ok(t) => r == Ok::<bool, CompileError>(true) && final(assembly)@ == old(assembly)@ + t,
                Err(e) => r == Err::<bool, CompileError>(e),
            },
        },
{
    compile_self_update(line, '+', "ADD ", variables, assembly)
}

/// `a = a - b;` becomes `SUB Ra, Rb`.
fn compile_sub_expression(line: &Vec<char>, variables: &Variables, assembly: &mut Vec<char>) -> (r: Result<bool, CompileError>)
    ensures
        !(line@.contains('=') && line@.contains('-')) ==> r == Ok::<bool, CompileError>(false) && final(assembly)@ == old(assembly)@,
        (line@.contains('=') && line@.contains('-')) ==> match self_update(line@, '-') {
            Err(e) => r == Err::<bool, CompileError>(e),
            Ok((d, s)) => match reg_reg_line("SUB "@, two_regs(variables.view(), d, s)) {
                Ok(t) => r == Ok::<bool, CompileError>(true) && final(assembly)@ == old(assembly)@ + t,
                Err(e) => r == Err::<bool, CompileError>(e),
            },
        },
{
    compile_self_update(line, '-', "SUB ", variables, assembly)
}

/// `kw a, b;` becomes `ins Ra, Rb`.
fn compile_pair_statement(line: &Vec<char>, kw: &str, ins: &str, variables: &Variables, assembly: &mut Vec<char>) -> (r: Result<bool, CompileError>)
    ensures
        !has_prefix(line@, kw@) ==> r == Ok::<bool, CompileError>(false) && final(assembly)@ == old(assembly)@,
        has_prefix(line@, kw@) ==> match pair_of(line@, kw@) {
            None => r == Err::<bool, CompileError>(CompileError::Malformed),
            Some((a, b)) => match reg_reg_line(ins@, two_regs(variables.view(), a, b)) {
                Ok(t) => r == Ok::<bool, CompileError>(true) && final(assembly)@ == old(assembly)@ + t,
                Err(e) => r == Err::<bool, CompileError>(e),
            },
        },
{
    if !starts_with(line, &chars_of(kw)) {
        return Ok(false);
    }
    match parse_pair(line, kw) {
        None => Err(CompileError::Malformed),
        Some((a, b)) => match push_reg_reg(assembly, ins, variables, &a, &b) {
            Ok(()) => Ok(true),
            Err(e) => Err(e),
        },
    }
}

/// `move b, a;` becomes `MOV Rb, Ra`.
fn compile_move_statement(line: &Vec<char>, variables: &Variables, assembly: &mut Vec<char>) -> (r: Result<bool, CompileError>)
    ensures
        !has_prefix(line@, "move "@) ==> r == Ok::<bool, CompileError>(false) && final(assembly)@ == old(assembly)@,
        has_prefix(line@, "move "@) ==> match pair_of(line@, "move "@) {
            None => r == Err::<bool, CompileError>(CompileError::Malformed),
            Some((a, b)) => match reg_reg_line("MOV "@, two_regs(variables.view(), a, b)) {
                Ok(t) => r == Ok::<bool, CompileError>(true) && final(assembly)@ == old(assembly)@ + t,
                Err(e) => r == Err::<bool, CompileError>(e),
            },
        },
{
    compile_pair_statement(line, "move ", "MOV ", variables, assembly)
}

/// `compare a, b;` becomes `CMP Ra, Rb`.
fn compile_compare_statement(line: &Vec<char>, variables: &Variables, assembly: &mut Vec<char>) -> (r: Result<bool, CompileError>)
    ensures
        !has_prefix(line@, "compare "@) ==> r == Ok::<bool, CompileError>(false) && final(assembly)@ == old(assembly)@,
        has_prefix(line@, "compare "@) ==> match pair_of(line@, "compare "@) {
            None => r == Err::<bool, CompileError>(CompileError::Malformed),
            Some((a, b)) => match reg_reg_line("CMP "@, two_regs(variables.view(), a, b)) {
                Ok(t) => r == Ok::<bool, CompileError>(true) && final(assembly)@ == old(assembly)@ + t,
                Err(e) => r == Err::<bool, CompileError>(e),
            },
        },
{
    compile_pair_statement(line, "compare ", "CMP ", variables, assembly)
}

/// `kw x, n;` becomes `ins Rx, n`.
fn compile_address_statement(line: &Vec<char>, kw: &str, ins: &str, variables: &Variables, assembly: &mut Vec<char>) -> (r: Result<bool, CompileError>)
    ensures
        !has_prefix(line@, kw@) ==> r == Ok::<bool, CompileError>(false) && final(assembly)@ == old(assembly)@,
        has_prefix(line@, kw@) ==> match reg_num_line(ins@, variables.view(), name_address(line@, kw@)) {
            Ok(t) => r == Ok::<bool, CompileError>(true) && final(assembly)@ == old(assembly)@ + t,
            Err(e) => r == Err::<bool, CompileError>(e),
        },
{
    if !starts_with(line, &chars_of(kw)) {
        return Ok(false);
    }
    match parse_name_address(line, kw) {
        Err(e) => Err(e),
        Ok((name, address)) => match push_reg_num(assembly, ins, variables, &name, address) {
            Ok(()) => Ok(true),
            Err(e) => Err(e),
        },
    }
}

/// `load x, n;` becomes `LOAD Rx, n`.
fn compile_load_statement(line: &Vec<char>, variables: &Variables, assembly: &mut Vec<char>) -> (r: Result<bool, CompileError>)
    ensures
        !has_prefix(line@, "load "@) ==> r == Ok::<bool, CompileError>(false) && final(assembly)@ == old(assembly)@,
        has_prefix(line@, "load "@) ==> match reg_num_line("LOAD "@, variables.view(), name_address(line@, "load "@)) {
            Ok(t) => r == Ok::<bool, CompileError>(true) && final(assembly)@ == old(assembly)@ + t,
            Err(e) => r == Err::<bool, CompileError>(e),
        },
{
    compile_address_statement(line, "load ", "LOAD ", variables, assembly)
}

/// `store x, n;` becomes `STORE Rx, n`.
fn compile_store_statement(line: &Vec<char>, variables: &Variables, assembly: &mut Vec<char>) -> (r: Result<bool, CompileError>)
    ensures
        !has_prefix(line@, "store "@) ==> r == Ok::<bool, CompileError>(false) && final(assembly)@ == old(assembly)@,
        has_prefix(line@, "store "@) ==> match reg_num_line("STORE "@, variables.view(), name_address(line@, "store "@)) {
            Ok(t) => r == Ok::<bool, CompileError>(true) && final(assembly)@ == old(assembly)@ + t,
            Err(e) => r == Err::<bool, CompileError>(e),
        },
{
    compile_address_statement(line, "store ", "STORE ", variables, assembly)
}

/// `kw x;` becomes `ins Rx`.
fn compile_register_statement(line: &Vec<char>, kw: &str, ins: &str, variables: &Variables, assembly: &mut Vec<char>) -> (r: Result<bool, CompileError>)
    ensures
        !has_prefix(line@, kw@) ==> r == Ok::<bool, CompileError>(false) && final(assembly)@ == old(assembly)@,
        has_prefix(line@, kw@) ==> match reg_line(ins@, variables.view(), line@, kw@) {
            Ok(t) => r == Ok::<bool, CompileError>(true) && final(assembly)@ == old(assembly)@ + t,
            Err(e) => r == Err::<bool, CompileError>(e),
        },
{
    if !starts_with(line, &chars_of(kw)) {
        return Ok(false);
    }
    let name = arg_of_exec(line, kw);
    let reg = match get_register(variables, &name) {
        Ok(x) => x,
        Err(e) => return Err(e),
    };
    push_str(assembly, ins);
    push_reg(assembly, reg);
    push_str(assembly, "\n");
    assert(assembly@ =~= old(assembly)@ + (ins@ + reg_text(reg) + "\n"@));
    Ok(true)
}

/// `push x;` becomes `PUSH Rx`.
fn compile_push_statement(line: &Vec<char>, variables: &Variables, assembly: &mut Vec<char>) -> (r: Result<bool, CompileError>)
    ensures
        !has_prefix(line@, "push "@) ==> r == Ok::<bool, CompileError>(false) && final(assembly)@ == old(assembly)@,
        has_prefix(line@, "push "@) ==> match reg_line("PUSH "@, variables.view(), line@, "push "@) {
            Ok(t) => r == Ok::<bool, CompileError>(true) && final(assembly)@ == old(assembly)@ + t,
            Err(e) => r == Err::<bool, CompileError>(e),
        },
{
    compile_register_statement(line, "push ", "PUSH ", variables, assembly)
}

/// `pop x;` becomes `POP Rx`.
fn compile_pop_statement(line: &Vec<char>, variables: &Variables, assembly: &mut Vec<char>) -> (r: Result<bool, CompileError>)
    ensures
        !has_prefix(line@, "pop "@) ==> r == Ok::<bool, CompileError>(false) && final(assembly)@ == old(assembly)@,
        has_prefix(line@, "pop "@) ==> match reg_line("POP "@, variables.view(), line@, "pop "@) {
            Ok(t) => r == Ok::<bool, CompileError>(true) && final(assembly)@ == old(assembly)@ + t,
            Err(e) => r == Err::<bool, CompileError>(e),
        },
{
    compile_register_statement(line, "pop ", "POP ", variables, assembly)
}

/// The assembly of a line that declares nothing, appended to `assembly`.
fn compile_statement(line: &Vec<char>, variables: &Variables, assembly: &mut Vec<char>) -> (r: Result<(), CompileError>)
    ensures
        match asm_statement(line@, variables.view()) {
            Ok(t) => r is Ok && final(assembly)@ == old(assembly)@ + t,
            Err(e) => r == Err::<(), CompileError>(e),
        },
{
    reveal(asm_statement);
    if compile_label_statement(line, assembly) {
        return Ok(());
    }
    if compile_jump_statement(line, assembly) {
        return Ok(());
    }
    if compile_conditional_jump_statement(line, "jz", "JZ", assembly) {
        return Ok(());
    }
    if compile_ifz_statement(line, assembly) {
        return Ok(());
    }
    if compile_conditional_jump_statement(line, "jnz", "JNZ", assembly) {
        return Ok(());
    }
    if compile_ifnz_statement(line, assembly) {
        return Ok(());
    }
    if compile_conditional_jump_statement(line, "js", "JS", assembly) {
        return Ok(());
    }
    if compile_ifs_statement(line, assembly) {
        return Ok(());
    }
    if compile_conditional_jump_statement(line, "jns", "JNS", assembly) {
        return Ok(());
    }
    if compile_ifns_statement(line, assembly) {
        return Ok(());
    }
    if compile_call_statement(line, assembly) {
        return Ok(());
    }
    if compile_no_argument_statement(line, "ret", "RET", assembly) {
        return Ok(());
    }
    if compile_no_argument_statement(line, "enter", "ENTER", assembly) {
        return Ok(());
    }
    if compile_no_argument_statement(line, "leave", "LEAVE", assembly) {
        return Ok(());
    }
    if compile_no_argument_statement(line, "interrupt", "INT", assembly) {
        return Ok(());
    }
    if compile_no_argument_statement(line, "iret", "IRET", assembly) {
        return Ok(());
    }
    match compile_number_assignment(line, variables, assembly) {
        Ok(true) => return Ok(()),
        Ok(false) => {},
        Err(e) => return Err(e),
    }
    match compile_add_expression(line, variables, assembly) {
        Ok(true) => return Ok(()),
        Ok(false) => {},
        Err(e) => return Err(e),
    }
    match compile_sub_expression(line, variables, assembly) {
        Ok(true) => return Ok(()),
        Ok(false) => {},
        Err(e) => return Err(e),
    }
    match compile_move_statement(line, variables, assembly) {
        Ok(true) => return Ok(()),
        Ok(false) => {},
        Err(e) => return Err(e),
    }
    match compile_compare_statement(line, variables, assembly) {
        Ok(true) => return Ok(()),
        Ok(false) => {},
        Err(e) => return Err(e),
    }
    match compile_load_statement(line, variables, assembly) {
        Ok(true) => return Ok(()),
        Ok(false) => {},
        Err(e) => return Err(e),
    }
    match compile_push_statement(line, variables, assembly) {
        Ok(true) => return Ok(()),
        Ok(false) => {},
        Err(e) => return Err(e),
    }
    match compile_pop_statement(line, variables, assembly) {
        Ok(true) => return Ok(()),
        Ok(false) => {},
        Err(e) => return Err(e),
    }
    match compile_store_statement(line, variables, assembly) {
        Ok(true) => return Ok(()),
        Ok(false) => {},
        Err(e) => return Err(e),
    }
    Err(CompileError::Unsupported)
}

/// The assembly of one line of source, appended to `assembly`.
fn compile_assembly_line(raw: &Vec<char>, variables: &mut Variables, assembly: &mut Vec<char>) -> (r: Result<(), CompileError>)
    ensures
        trim(raw@).len() == 0 ==> r is Ok && final(variables).view() == old(variables).view()
            && final(assembly)@ == old(assembly)@,
        trim(raw@).len() != 0 ==> match asm_line(trim(raw@), old(variables).view()) {
            Ok((vs, t)) => r is Ok && final(variables).view() == vs && final(assembly)@ == old(assembly)@ + t,
            Err(e) => r == Err::<(), CompileError>(e),
        },
{
    let line = preprocess_line(raw);
    if line.len() == 0 {
        return Ok(());
    }
    match compile_variable_declaration(&line, variables) {
        Ok(true) => {
            assert(assembly@ =~= old(assembly)@ + Seq::<char>::empty());
            Ok(())
        },
        Ok(false) => compile_statement(&line, variables, assembly),
        Err(e) => Err(e),
    }
}

/// The assembly of `source`, or the error of its first line that fails.
fn compile_assembly_text(source: &str) -> (r: Result<Vec<char>, CompileError>)
    ensures
        match compile_to_assembly_spec(source@) {
            Ok(t) => r matches Ok(v) && v@ == t,
            Err(e) => r == Err::<Vec<char>, CompileError>(e),
        },
{
    let ls = lines_of(&chars_of(source));
    let ghost lsv = lines(source@);
    let mut assembly: Vec<char> = Vec::new();
    let mut variables = Variables::new();
    let mut i: usize = 0;
    assert(lsv.take(0) =~= Seq::<Seq<char>>::empty());
    while i < ls.len()
        invariant
            i <= ls@.len(),
            views(ls@) == lsv,
            lsv == lines(source@),
            asm_lines(lsv.take(i as int)) == Ok::<(Vars, Seq<char>), CompileError>((variables.view(), assembly@)),
        decreases ls@.len() - i,
    {
        assert(views(ls@)[i as int] == ls@[i as int]@);
        assert(lsv.take(i + 1).drop_last() =~= lsv.take(i as int));
        match compile_assembly_line(&ls[i], &mut variables, &mut assembly) {
            Ok(()) => {},
            Err(e) => {
                proof {
                    lemma_asm_lines_err(lsv, i + 1, e);
                }
                return Err(e);
            },
        }
        i += 1;
    }
    assert(lsv.take(ls@.len() as int) =~= lsv);
    push_str(&mut assembly, "HLT\n");
    Ok(assembly)
}

/// Once a line fails, every longer prefix fails with the same error.
proof fn lemma_asm_lines_err(ls: Seq<Seq<char>>, i: int, e: CompileError)
    requires
        0 <= i <= ls.len(),
        asm_lines(ls.take(i)) == Err::<(Vars, Seq<char>), CompileError>(e),
    ensures
        asm_lines(ls) == Err::<(Vars, Seq<char>), CompileError>(e),
    decreases ls.len() - i,
{
    if i < ls.len() {
        assert(ls.take(i + 1).drop_last() =~= ls.take(i));
        lemma_asm_lines_err(ls, i + 1, e);
    } else {
        assert(ls.take(i) =~= ls);
    }
}

/// Compiles a program of the C-like language into assembly text: each statement to its
/// instruction or label, in order, then `HLT`. `Err` with the error of the first line that
/// fails.
pub fn try_compile_to_assembly(source: &str) -> (r: Result<String, CompileError>)
    ensures
        match compile_to_assembly_spec(source@) {
            Ok(t) => r matches Ok(s) && s@ == t,
            Err(e) => r matches Err(e2) && e2 == e,
        },
{
    match compile_assembly_text(source) {
        Ok(v) => Ok(string_from_chars(&v)),
        Err(e) => Err(e),
    }
}

/// Compiles a program of the C-like language, every line of which is well formed, into
/// assembly text.
pub fn compile_to_assembly(source: &str) -> (assembly: String)
    requires
        compile_to_assembly_spec(source@) is Ok,
    ensures
        compile_to_assembly_spec(source@) == Ok::<Seq<char>, CompileError>(assembly@),
{
    match compile_assembly_text(source) {
        Ok(v) => string_from_chars(&v),
        Err(_) => {
            assert(false);
            String::new()
        },
    }
}

/// The register and number of `x = n;`.
#[verifier::opaque]
pub open spec fn number_src(line: Seq<char>, vars: Vars) -> Result<(u8, u32), CompileError> {
    match number_assignment(line) {
        Err(e) => Err(e),
        Ok((name, v)) => match lookup(vars, name) {
            None => Err(CompileError::UndefinedVariable),
            Some(r) => Ok((r, v)),
        },
    }
}

/// The registers of `x = x op y;`.
#[verifier::opaque]
pub open spec fn update_src(line: Seq<char>, vars: Vars, op: char) -> Result<(u8, u8), CompileError> {
    match self_update(line, op) {
        Err(e) => Err(e),
        Ok((d, s)) => two_regs(vars, d, s),
    }
}

/// The register and address of `store x, n;`.
#[verifier::opaque]
pub open spec fn store_src(line: Seq<char>, vars: Vars) -> Result<(u8, u32), CompileError> {
    match name_address(line, "store "@) {
        Err(e) => Err(e),
        Ok((name, address)) => match lookup(vars, name) {
            None => Err(CompileError::UndefinedVariable),
            Some(r) => Ok((r, address)),
        },
    }
}

/// The bytes of a register-and-word instruction, or the error.
pub open spec fn reg_word_bytes(op: u8, r: Result<(u8, u32), CompileError>) -> Result<Seq<u8>, CompileError> {
    match r {
        Ok((reg, w)) => Ok(op_reg_word(op, reg, w)),
        Err(e) => Err(e),
    }
}

/// The bytes of a two-register instruction, or the error.
pub open spec fn reg_reg_bytes(op: u8, r: Result<(u8, u8), CompileError>) -> Result<Seq<u8>, CompileError> {
    match r {
        Ok((d, s)) => Ok(op_reg_reg(op, d, s)),
        Err(e) => Err(e),
    }
}

/// The bytes of a line of `compile_source` that declares nothing: number assignments,
/// `a = a + b`, `a = a - b` and `store`; any other line gives no bytes.
#[verifier::opaque]
pub open spec fn src_statement(line: Seq<char>, vars: Vars) -> Result<Seq<u8>, CompileError> {
    if is_number_assignment(line) {
        reg_word_bytes(LOADI, number_src(line, vars))
    } else if line.contains('=') && line.contains('+') {
        reg_reg_bytes(ADD, update_src(line, vars, '+'))
    } else if line.contains('=') && line.contains('-') {
        reg_reg_bytes(SUB, update_src(line, vars, '-'))
    } else if has_prefix(line, "store "@) {
        reg_word_bytes(STORE, store_src(line, vars))
    } else {
        Ok(Seq::empty())
    }
}

/// The bytes of one non-empty, trimmed line for `compile_source`, and the variables after
/// it.
pub open spec fn src_line(line: Seq<char>, vars: Vars) -> Result<(Vars, Seq<u8>), CompileError> {
    if has_prefix(line, "int "@) {
        match declare(vars, arg_of(line, "int "@)) {
            Some(vs) => Ok((vs, Seq::empty())),
            None => Err(CompileError::TooManyVariables),
        }
    } else {
        match src_statement(line, vars) {
            Ok(b) => Ok((vars, b)),
            Err(e) => Err(e),
        }
    }
}

/// The variables and the bytes after `ls`, each line trimmed and empty ones skipped; the
/// error of the first line that fails.
pub open spec fn src_lines(ls: Seq<Seq<char>>) -> Result<(Vars, Seq<u8>), CompileError>
    decreases ls.len(),
{
    if ls.len() == 0 {
        Ok((Seq::empty(), Seq::empty()))
    } else {
        match src_lines(ls.drop_last()) {
            Err(e) => Err(e),
            Ok((vars, bytes)) => {
                let line = trim(ls.last());
                if line.len() == 0 {
                    Ok((vars, bytes))
                } else {
                    match src_line(line, vars) {
                        Err(e) => Err(e),
                        Ok((vs, b)) => Ok((vs, bytes + b)),
                    }
                }
            },
        }
    }
}

/// The machine code for `source` that `compile_source` writes: each statement's bytes, then
/// `HLT`.
pub open spec fn compile_source_spec(source: Seq<char>) -> Result<Seq<u8>, CompileError> {
    match src_lines(lines(source)) {
        Err(e) => Err(e),
        Ok((_, bytes)) => Ok(bytes + op_only(HLT)),
    }
}

/// A prefix of the lines compiles to no more bytes than all of them.
proof fn lemma_src_lines_prefix(ls: Seq<Seq<char>>, i: int)
    requires
        0 <= i <= ls.len(),
        src_lines(ls) is Ok,
    ensures
        src_lines(ls.take(i)) is Ok,
        src_lines(ls.take(i))->Ok_0.1.len() <= src_lines(ls)->Ok_0.1.len(),
    decreases ls.len() - i,
{
    if i < ls.len() {
        lemma_src_lines_prefix(ls, i + 1);
        assert(ls.take(i + 1).drop_last() =~= ls.take(i));
    } else {
        assert(ls.take(i) =~= ls);
    }
}

/// `a = n;`: loads `n` into the register of `a`.
fn assign_number(memory: &mut Memory, pos: &mut u32, variables: &Variables, name: &Vec<char>, value: u32)
    requires
        lookup(variables.view(), name@) is Some,
        room_for(old(memory).data@, *old(pos), 6),
    ensures
        final(memory).data@ == splice(
            old(memory).data@,
            *old(pos) as int,
            op_reg_word(LOADI, lookup(variables.view(), name@)->0, value),
        ),
        *final(pos) == *old(pos) + 6,
{
    let reg = match get_register(variables, name) {
        Ok(r) => r,
        Err(_) => 0,
    };
    emit_loadi(memory, pos, reg, value);
}

/// `a = a + b;`: adds the register of `b` to that of `a`.
fn add_variables(memory: &mut Memory, pos: &mut u32, variables: &Variables, dst_name: &Vec<char>, src_name: &Vec<char>)
    requires
        two_regs(variables.view(), dst_name@, src_name@) is Ok,
        room_for(old(memory).data@, *old(pos), 3),
    ensures
        final(memory).data@ == splice(
            old(memory).data@,
            *old(pos) as int,
            op_reg_reg(ADD, two_regs(variables.view(), dst_name@, src_name@)->Ok_0.0, two_regs(variables.view(), dst_name@, src_name@)->Ok_0.1),
        ),
        *final(pos) == *old(pos) + 3,
{
    let dst = match get_register(variables, dst_name) {
        Ok(r) => r,
        Err(_) => 0,
    };
    let src = match get_register(variables, src_name) {
        Ok(r) => r,
        Err(_) => 0,
    };
    emit_add(memory, pos, dst, src);
}

/// `a = a - b;`: subtracts the register of `b` from that of `a`.
fn sub_variables(memory: &mut Memory, pos: &mut u32, variables: &Variables, dst_name: &Vec<char>, src_name: &Vec<char>)
    requires
        two_regs(variables.view(), dst_name@, src_name@) is Ok,
        room_for(old(memory).data@, *old(pos), 3),
    ensures
        final(memory).data@ == splice(
            old(memory).data@,
            *old(pos) as int,
            op_reg_reg(SUB, two_regs(variables.view(), dst_name@, src_name@)->Ok_0.0, two_regs(variables.view(), dst_name@, src_name@)->Ok_0.1),
        ),
        *final(pos) == *old(pos) + 3,
{
    let dst = match get_register(variables, dst_name) {
        Ok(r) => r,
        Err(_) => 0,
    };
    let src = match get_register(variables, src_name) {
        Ok(r) => r,
        Err(_) => 0,
    };
    emit_sub(memory, pos, dst, src);
}

/// `store a, n;`: stores the register of `a` at address `n`.
fn store_variable(memory: &mut Memory, pos: &mut u32, variables: &Variables, name: &Vec<char>, address: u32)
    requires
        lookup(variables.view(), name@) is Some,
        room_for(old(memory).data@, *old(pos), 6),
    ensures
        final(memory).data@ == splice(
            old(memory).data@,
            *old(pos) as int,
            op_reg_word(STORE, lookup(variables.view(), name@)->0, address),
        ),
        *final(pos) == *old(pos) + 6,
{
    let reg = match get_register(variables, name) {
        Ok(r) => r,
        Err(_) => 0,
    };
    emit_store(memory, pos, reg, address);
}

/// `x = n;` straight into `memory` at `*pos`.
fn compile_number_line(memory: &mut Memory, pos: &mut u32, line: &Vec<char>, variables: &Variables)
    requires
        number_src(line@, variables.view()) is Ok,
        room_for(old(memory).data@, *old(pos), 6),
    ensures
        final(memory).data@ == splice(
            old(memory).data@,
            *old(pos) as int,
            reg_word_bytes(LOADI, number_src(line@, variables.view()))->Ok_0,
        ),
        *final(pos) == *old(pos) + 6,
{
    reveal(number_src);
    match parse_number_assignment(line) {
        Ok((name, value)) => assign_number(memory, pos, variables, &name, value),
        Err(_) => {},
    }
}

/// `x = x op y;` straight into `memory` at `*pos`.
fn compile_update_line(memory: &mut Memory, pos: &mut u32, line: &Vec<char>, variables: &Variables, op: char)
    requires
        op == '+' || op == '-',
        update_src(line@, variables.view(), op) is Ok,
        room_for(old(memory).data@, *old(pos), 3),
    ensures
        final(memory).data@ == splice(
            old(memory).data@,
            *old(pos) as int,
            reg_reg_bytes(if op == '+' { ADD } else { SUB }, update_src(line@, variables.view(), op))->Ok_0,
        ),
        *final(pos) == *old(pos) + 3,
{
    reveal(update_src);
    match parse_self_update(line, op) {
        Ok((dst, src)) => if op == '+' {
            add_variables(memory, pos, variables, &dst, &src)
        } else {
            sub_variables(memory, pos, variables, &dst, &src)
        },
        Err(_) => {},
    }
}

/// `store x, n;` straight into `memory` at `*pos`.
fn compile_store_line(memory: &mut Memory, pos: &mut u32, line: &Vec<char>, variables: &Variables)
    requires
        store_src(line@, variables.view()) is Ok,
        room_for(old(memory).data@, *old(pos), 6),
    ensures
        final(memory).data@ == splice(
            old(memory).data@,
            *old(pos) as int,
            reg_word_bytes(STORE, store_src(line@, variables.view()))->Ok_0,
        ),
        *final(pos) == *old(pos) + 6,
{
    reveal(store_src);
    match parse_name_address(line, "store ") {
        Ok((name, address)) => store_variable(memory, pos, variables, &name, address),
        Err(_) => {},
    }
}

/// Compiles a line that declares nothing straight into `memory` at `*pos`.
fn compile_source_statement(memory: &mut Memory, pos: &mut u32, line: &Vec<char>, variables: &Variables)
    requires
        src_statement(line@, variables.view()) is Ok,
        room_for(
            old(memory).data@,
            *old(pos),
            src_statement(line@, variables.view())->Ok_0.len() as int,
        ),
    ensures
        final(memory).data@ == splice(
            old(memory).data@,
            *old(pos) as int,
            src_statement(line@, variables.view())->Ok_0,
        ),
        *final(pos) == *old(pos) + src_statement(line@, variables.view())->Ok_0.len(),
{
    reveal(src_statement);
    if contains_char(line, '=') && !contains_char(line, '+') && !contains_char(line, '-') {
        compile_number_line(memory, pos, line, variables);
    } else if contains_char(line, '=') && contains_char(line, '+') {
        compile_update_line(memory, pos, line, variables, '+');
    } else if contains_char(line, '=') && contains_char(line, '-') {
        compile_update_line(memory, pos, line, variables, '-');
    } else if starts_with(line, &chars_of("store ")) {
        compile_store_line(memory, pos, line, variables);
    } else {
        assert(splice(memory.data@, *pos as int, Seq::empty()) =~= memory.data@);
    }
}

/// Compiles one line of source straight into `memory` at `*pos`.
fn compile_source_line(memory: &mut Memory, pos: &mut u32, raw: &Vec<char>, variables: &mut Variables)
    requires
        trim(raw@).len() != 0 ==> src_line(trim(raw@), old(variables).view()) is Ok,
        trim(raw@).len() != 0 ==> room_for(
            old(memory).data@,
            *old(pos),
            src_line(trim(raw@), old(variables).view())->Ok_0.1.len() as int,
        ),
    ensures
        trim(raw@).len() == 0 ==> final(variables).view() == old(variables).view()
            && final(memory).data@ == old(memory).data@ && *final(pos) == *old(pos),
        trim(raw@).len() != 0 ==> ({
            let (vs, b) = src_line(trim(raw@), old(variables).view())->Ok_0;
            &&& final(variables).view() == vs
            &&& final(memory).data@ == splice(old(memory).data@, *old(pos) as int, b)
            &&& *final(pos) == *old(pos) + b.len()
        }),
{
    let line = trim_chars(raw);
    if line.len() == 0 {
        return;
    }
    if starts_with(&line, &chars_of("int ")) {
        let name = arg_of_exec(&line, "int ");
        let _ = declare_variable(variables, &name);
        assert(splice(memory.data@, *pos as int, Seq::empty()) =~= memory.data@);
    } else {
        compile_source_statement(memory, pos, &line, variables);
    }
}

/// Compiles a program of the C-like language straight into machine code at `*pos`, and
/// moves `*pos` past it: declarations give variables registers, assignments become `LOADI`,
/// `a = a + b` and `a = a - b` become `ADD` and `SUB`, `store` becomes `STORE`, other lines
/// are passed over, and `HLT` ends the code.
pub fn compile_source(memory: &mut Memory, pos: &mut u32, source: &str)
    requires
        compile_source_spec(source@) is Ok,
        room_for(old(memory).data@, *old(pos), compile_source_spec(source@)->Ok_0.len() as int),
    ensures
        final(memory).data@ == splice(
            old(memory).data@,
            *old(pos) as int,
            compile_source_spec(source@)->Ok_0,
        ),
        *final(pos) == *old(pos) + compile_source_spec(source@)->Ok_0.len(),
{
    let ls = lines_of(&chars_of(source));
    let ghost lsv = lines(source@);
    let ghost total = src_lines(lsv)->Ok_0.1;
    let mut variables = Variables::new();
    let ghost mut bytes: Seq<u8> = Seq::empty();
    let mut i: usize = 0;
    assert(lsv.take(0) =~= Seq::<Seq<char>>::empty());
    assert(splice(memory.data@, *pos as int, Seq::empty()) =~= memory.data@);
    while i < ls.len()
        invariant
            i <= ls@.len(),
            views(ls@) == lsv,
            lsv == lines(source@),
            src_lines(lsv) is Ok,
            total == src_lines(lsv)->Ok_0.1,
            *old(pos) + total.len() + 1 <= old(memory).data@.len(),
            *old(pos) + total.len() + 1 <= u32::MAX,
            src_lines(lsv.take(i as int)) == Ok::<(Vars, Seq<u8>), CompileError>((variables.view(), bytes)),
            memory.data@ == splice(old(memory).data@, *old(pos) as int, bytes),
            *pos == *old(pos) + bytes.len(),
        decreases ls@.len() - i,
    {
        assert(views(ls@)[i as int] == ls@[i as int]@);
        assert(lsv.take(i + 1).drop_last() =~= lsv.take(i as int));
        proof {
            lemma_src_lines_prefix(lsv, i + 1);
        }
        let ghost before = memory.data@;
        compile_source_line(memory, pos, &ls[i], &mut variables);
        proof {
            let line = trim(lsv[i as int]);
            if line.len() != 0 {
                let b = src_line(line, src_lines(lsv.take(i as int))->Ok_0.0)->Ok_0.1;
                lemma_splice_concat(old(memory).data@, *old(pos) as int, bytes, b);
                bytes = bytes + b;
            }
        }
        i += 1;
    }
    assert(lsv.take(ls@.len() as int) =~= lsv);
    emit_hlt(memory, pos);
    proof {
        lemma_splice_concat(old(memory).data@, *old(pos) as int, bytes, op_only(HLT));
    }
}

/// Whether `x = n;` compiles, and its error if not.
fn check_number_line(line: &Vec<char>, variables: &Variables) -> (r: Result<(), CompileError>)
    ensures
        match number_src(line@, variables.view()) {
            Ok(_) => r is Ok,
            Err(e) => r == Err::<(), CompileError>(e),
        },
{
    reveal(number_src);
    match parse_number_assignment(line) {
        Ok((name, _)) => match get_register(variables, &name) {
            Ok(_) => Ok(()),
            Err(e) => Err(e),
        },
        Err(e) => Err(e),
    }
}

/// Whether `x = x op y;` compiles, and its error if not.
fn check_update_line(line: &Vec<char>, variables: &Variables, op: char) -> (r: Result<(), CompileError>)
    ensures
        match update_src(line@, variables.view(), op) {
            Ok(_) => r is Ok,
            Err(e) => r == Err::<(), CompileError>(e),
        },
{
    reveal(update_src);
    match parse_self_update(line, op) {
        Ok((dst, src)) => match get_register(variables, &dst) {
            Ok(_) => match get_register(variables, &src) {
                Ok(_) => Ok(()),
                Err(e) => Err(e),
            },
            Err(e) => Err(e),
        },
        Err(e) => Err(e),
    }
}

/// Whether `store x, n;` compiles, and its error if not.
fn check_store_line(line: &Vec<char>, variables: &Variables) -> (r: Result<(), CompileError>)
    ensures
        match store_src(line@, variables.view()) {
            Ok(_) => r is Ok,
            Err(e) => r == Err::<(), CompileError>(e),
        },
{
    reveal(store_src);
    match parse_name_address(line, "store ") {
        Ok((name, _)) => match get_register(variables, &name) {
            Ok(_) => Ok(()),
            Err(e) => Err(e),
        },
        Err(e) => Err(e),
    }
}

/// How many bytes a line that declares nothing compiles to.
fn statement_size(line: &Vec<char>, variables: &Variables) -> (r: Result<u64, CompileError>)
    ensures
        match src_statement(line@, variables.view()) {
            Ok(b) => r == Ok::<u64, CompileError>(b.len() as u64) && b.len() <= 6,
            Err(e) => r == Err::<u64, CompileError>(e),
        },
{
    reveal(src_statement);
    let (check, size) = if contains_char(line, '=') && !contains_char(line, '+') && !contains_char(line, '-') {
        (check_number_line(line, variables), 6u64)
    } else if contains_char(line, '=') && contains_char(line, '+') {
        (check_update_line(line, variables, '+'), 3u64)
    } else if contains_char(line, '=') && contains_char(line, '-') {
        (check_update_line(line, variables, '-'), 3u64)
    } else if starts_with(line, &chars_of("store ")) {
        (check_store_line(line, variables), 6u64)
    } else {
        (Ok(()), 0u64)
    };
    match check {
        Ok(()) => Ok(size),
        Err(e) => Err(e),
    }
}

/// How many bytes one line of source compiles to, declaring its variable if it declares one.
fn source_line_size(raw: &Vec<char>, variables: &mut Variables) -> (r: Result<u64, CompileError>)
    ensures
        r matches Ok(n) ==> n <= 6,
        trim(raw@).len() == 0 ==> r == Ok::<u64, CompileError>(0) && final(variables).view() == old(variables).view(),
        trim(raw@).len() != 0 ==> match src_line(trim(raw@), old(variables).view()) {
            Ok((vs, b)) => r == Ok::<u64, CompileError>(b.len() as u64) && b.len() <= 6 && final(variables).view() == vs,
            Err(e) => r == Err::<u64, CompileError>(e),
        },
{
    let line = trim_chars(raw);
    if line.len() == 0 {
        return Ok(0);
    }
    if starts_with(&line, &chars_of("int ")) {
        let name = arg_of_exec(&line, "int ");
        match declare_variable(variables, &name) {
            Ok(()) => Ok(0),
            Err(e) => Err(e),
        }
    } else {
        statement_size(&line, variables)
    }
}

/// Why a program of the C-like language cannot be compiled where it is to go.
pub enum CSourceError {
    /// A line fails.
    Line(CompileError),
    /// The code runs past the end of memory or of the address space.
    TooLong,
}

/// Whether `compile_source` can compile `source` into `memory` from `pos`: `Ok` exactly
/// where every line compiles and the code fits.
pub fn check_compile_source(memory: &Memory, pos: u32, source: &str) -> (r: Result<(), CSourceError>)
    ensures
        r is Ok <==> (compile_source_spec(source@) is Ok && room_for(
            memory.data@,
            pos,
            compile_source_spec(source@)->Ok_0.len() as int,
        )),
        r matches Err(CSourceError::Line(e)) ==> compile_source_spec(source@) == Err::<Seq<u8>, CompileError>(e),
        r matches Err(CSourceError::TooLong) ==> exists|i: int|
            0 <= i <= lines(source@).len() && #[trigger] src_lines(lines(source@).take(i)) is Ok
                && !room_for(memory.data@, pos, src_lines(lines(source@).take(i))->Ok_0.1.len() + 1 as int),
{
    let ls = lines_of(&chars_of(source));
    let ghost lsv = lines(source@);
    let limit: u64 = if (memory.data.len() as u64) < (u32::MAX as u64) {
        memory.data.len() as u64
    } else {
        u32::MAX as u64
    };
    let mut variables = Variables::new();
    let ghost mut bytes: Seq<u8> = Seq::empty();
    let mut end: u64 = pos as u64 + 1;
    if end > limit {
        assert(lines(source@).take(0) =~= Seq::<Seq<char>>::empty());
        assert(src_lines(lines(source@).take(0)) is Ok);
        return Err(CSourceError::TooLong);
    }
    let mut i: usize = 0;
    assert(lsv.take(0) =~= Seq::<Seq<char>>::empty());
    while i < ls.len()
        invariant
            i <= ls@.len(),
            views(ls@) == lsv,
            lsv == lines(source@),
            limit == if memory.data@.len() < u32::MAX { memory.data@.len() as int } else { u32::MAX as int },
            src_lines(lsv.take(i as int)) == Ok::<(Vars, Seq<u8>), CompileError>((variables.view(), bytes)),
            end == pos + bytes.len() + 1,
            end <= limit,
        decreases ls@.len() - i,
    {
        assert(views(ls@)[i as int] == ls@[i as int]@);
        assert(lsv.take(i + 1).drop_last() =~= lsv.take(i as int));
        let ghost before = bytes;
        match source_line_size(&ls[i], &mut variables) {
            Ok(n) => {
                proof {
                    let line = trim(lsv[i as int]);
                    if line.len() != 0 {
                        bytes = bytes + src_line(line, src_lines(lsv.take(i as int))->Ok_0.0)->Ok_0.1;
                    }
                }
                if end + n > limit {
                    proof {
                        if src_lines(lsv) is Ok {
                            lemma_src_lines_prefix(lsv, i + 1);
                        }
                        assert(src_lines(lsv.take(i + 1)) is Ok);
                    }
                    return Err(CSourceError::TooLong);
                }
                end = end + n;
            },
            Err(e) => {
                proof {
                    lemma_src_lines_err(lsv, i + 1, e);
                }
                return Err(CSourceError::Line(e));
            },
        }
        i += 1;
    }
    assert(lsv.take(ls@.len() as int) =~= lsv);
    Ok(())
}

/// Once a line fails, every longer prefix fails with the same error.
proof fn lemma_src_lines_err(ls: Seq<Seq<char>>, i: int, e: CompileError)
    requires
        0 <= i <= ls.len(),
        src_lines(ls.take(i)) == Err::<(Vars, Seq<u8>), CompileError>(e),
    ensures
        src_lines(ls) == Err::<(Vars, Seq<u8>), CompileError>(e),
    decreases ls.len() - i,
{
    if i < ls.len() {
        assert(ls.take(i + 1).drop_last() =~= ls.take(i));
        lemma_src_lines_err(ls, i + 1, e);
    } else {
        assert(ls.take(i) =~= ls);
    }
}

/// The program that `compile_simple_c_program` compiles.
pub const SAMPLE_PROGRAM: &'static str = "
int a;
int b;
a = 3;
b = 1;
a = a + b;
a = a - b;
store a, 400;
";

/// Compiles the built-in sample program: two variables, two assignments, an addition, a
/// subtraction and a store at address 400.
pub fn compile_simple_c_program(memory: &mut Memory, pos: &mut u32)
    requires
        room_for(old(memory).data@, *old(pos), 25),
    ensures
        final(memory).data@ == splice(old(memory).data@, *old(pos) as int, sample_code()),
        *final(pos) == *old(pos) + 25,
        compile_source_spec(SAMPLE_PROGRAM@) == Ok::<Seq<u8>, CompileError>(sample_code()),
{
    proof {
        lemma_sample_program();
    }
    compile_source(memory, pos, SAMPLE_PROGRAM);
}

/// The machine code of the sample program: `LOADI R0, 3`, `LOADI R1, 1`, `ADD R0, R1`,
/// `SUB R0, R1`, `STORE R0, 400`, `HLT`.
pub open spec fn sample_code() -> Seq<u8> {
    op_reg_word(LOADI, 0, 3) + op_reg_word(LOADI, 1, 1) + op_reg_reg(ADD, 0, 1) + op_reg_reg(SUB, 0, 1)
        + op_reg_word(STORE, 0, 400) + op_only(HLT)
}

proof fn lemma_trim_plain(s: Seq<char>)
    requires
        s.len() > 0,
        !is_ws(s[0]),
        !is_ws(s.last()),
    ensures
        trim(s) == s,
{
    assert(trim_start(s) == s);
    assert(trim_end(s) == s);
}

proof fn lemma_no_char(s: Seq<char>, c: char)
    requires
        forall|i: int| 0 <= i < s.len() ==> s[i] != c,
    ensures
        !s.contains(c),
{
}

spec fn va() -> Seq<char> {
    seq!['a']
}

spec fn vb() -> Seq<char> {
    seq!['b']
}

spec fn vars1() -> Vars {
    seq![(va(), 0u8)]
}

spec fn vars2() -> Vars {
    seq![(va(), 0u8), (vb(), 1u8)]
}

proof fn lemma_declarations()
    ensures
        src_line(seq!['i', 'n', 't', ' ', 'a', ';'], Seq::empty()) == Ok::<(Vars, Seq<u8>), CompileError>((vars1(), Seq::empty())),
        src_line(seq!['i', 'n', 't', ' ', 'b', ';'], vars1()) == Ok::<(Vars, Seq<u8>), CompileError>((vars2(), Seq::empty())),
{
    reveal(find_var);
    reveal_strlit("int ");
    reveal_strlit(";");
    let kw = "int "@;
    assert(kw =~= seq!['i', 'n', 't', ' ']);
    assert(";"@ =~= seq![';']);
    let l1 = seq!['i', 'n', 't', ' ', 'a', ';'];
    let l2 = seq!['i', 'n', 't', ' ', 'b', ';'];
    assert(l1.take(4) =~= kw);
    assert(l2.take(4) =~= kw);
    assert(l1.skip(4) =~= seq!['a', ';']);
    assert(l2.skip(4) =~= seq!['b', ';']);
    assert(trim_start_matches(seq!['a', ';'], kw) == seq!['a', ';']);
    assert(trim_start_matches(seq!['b', ';'], kw) == seq!['b', ';']);
    assert(trim_start_matches(l1, kw) == seq!['a', ';']);
    assert(trim_start_matches(l2, kw) == seq!['b', ';']);
    assert(seq!['a', ';'].skip(1) =~= seq![';']);
    assert(seq!['a', ';'].take(1) =~= va());
    assert(seq!['b', ';'].skip(1) =~= seq![';']);
    assert(seq!['b', ';'].take(1) =~= vb());
    assert(!has_suffix(va(), ";"@)) by {
        assert(va().skip(0)[0] != ';');
    }
    assert(!has_suffix(vb(), ";"@)) by {
        assert(vb().skip(0)[0] != ';');
    }
    assert(trim_end_matches(va(), ";"@) == va());
    assert(trim_end_matches(vb(), ";"@) == vb());
    assert(trim_end_matches(seq!['a', ';'], ";"@) == va());
    assert(trim_end_matches(seq!['b', ';'], ";"@) == vb());
    lemma_trim_plain(va());
    lemma_trim_plain(vb());
    assert(arg_of(l1, kw) == va());
    assert(arg_of(l2, kw) == vb());
    assert(find_var(Seq::empty(), va()) is None);
    assert(Seq::<(Seq<char>, u8)>::empty().push((va(), 0u8)) =~= vars1());
    assert(find_var(vars1(), vb()) is None) by {
        assert(vars1()[0].0 != vb()) by {
            assert(vars1()[0].0[0] != vb()[0]);
        }
    }
    assert(vars1().push((vb(), 1u8)) =~= vars2());
}

proof fn lemma_lookup_sample()
    ensures
        lookup(vars2(), va()) == Some(0u8),
        lookup(vars2(), vb()) == Some(1u8),
{
    reveal(find_var);
    assert(vars2()[1].0 != va()) by {
        assert(vars2()[1].0[0] != va()[0]);
    }
    assert(vars2()[0].0 != vb()) by {
        assert(vars2()[0].0[0] != vb()[0]);
    }
    assert(vars2()[0].0 == va());
    assert(vars2()[1].0 == vb());
}

proof fn lemma_split_around(left: Seq<char>, c: char, right: Seq<char>)
    requires
        forall|i: int| 0 <= i < left.len() ==> left[i] != c,
        forall|i: int| 0 <= i < right.len() ==> right[i] != c,
    ensures
        split_char(left + seq![c] + right, c) == seq![left, right],
{
    lemma_split_char_concat(left, c, right);
    lemma_no_char(left, c);
    lemma_no_char(right, c);
    lemma_split_char_none(left, c);
    lemma_split_char_none(right, c);
    assert(seq![left] + seq![right] =~= seq![left, right]);
}

proof fn lemma_trim_name_space(x: char)
    requires
        !is_ws(x),
    ensures
        trim(seq![x, ' ']) == seq![x],
        trim(seq![' ', x]) == seq![x],
{
    let n = seq![x];
    assert(seq![x, ' '].drop_last() =~= n);
    assert(seq![' ', x].drop_first() =~= n);
    assert(trim_start(n) == n);
    assert(trim_end(n) == n);
    assert(trim_start(seq![' ', x]) == n);
    assert(trim_end(seq![x, ' ']) == n);
}

proof fn lemma_parse_digit(d: char)
    requires
        '0' <= d <= '9',
    ensures
        parse_u32_spec(seq![d]) == Some((d as u32 - '0' as u32) as u32),
{
    let digits = seq![d];
    assert(unsigned_digits(digits) == digits);
    assert(all_digits(digits));
    assert(digits.drop_last() =~= Seq::<char>::empty());
    assert(digits.last() == d);
    assert(dec_value(Seq::<char>::empty()) == 0);
    assert(dec_value(digits) == dec_value(digits.drop_last()) * 10 + digit_value(digits.last()));
}

proof fn lemma_without_semicolon(body: Seq<char>)
    requires
        body.len() > 0,
        body.last() != ';',
    ensures
        trim_end_matches(body + seq![';'], ";"@) == body,
{
    reveal_strlit(";");
    assert(";"@ =~= seq![';']);
    let line = body + seq![';'];
    assert(line.skip(line.len() - 1) =~= seq![';']);
    assert(line.take(line.len() - 1) =~= body);
    assert(!has_suffix(body, ";"@)) by {
        assert(body.skip(body.len() - 1)[0] == body.last());
    }
    assert(trim_end_matches(body, ";"@) == body);
    assert(has_suffix(line, ";"@));
    assert(trim_end_matches(line, ";"@) == trim_end_matches(line.take(line.len() - 1), ";"@));
}

proof fn lemma_not_declaration(line: Seq<char>)
    requires
        line.len() > 0,
        line[0] != 'i',
    ensures
        !has_prefix(line, "int "@),
{
    reveal_strlit("int ");
    assert("int "@ =~= seq!['i', 'n', 't', ' ']);
    if line.len() >= 4 {
        assert(line.take(4)[0] != "int "@[0]);
    }
}

proof fn lemma_number_assignment(x: char, d: char)
    requires
        x == 'a' || x == 'b',
        '0' <= d <= '9',
    ensures
        number_assignment(seq![x, ' ', '=', ' ', d, ';']) == Ok::<(Seq<char>, u32), CompileError>(
            (seq![x], (d as u32 - '0' as u32) as u32),
        ),
{
    reveal(number_assignment);
    let line = seq![x, ' ', '=', ' ', d, ';'];
    let body = seq![x, ' ', '=', ' ', d];
    assert(line =~= body + seq![';']);
    lemma_without_semicolon(body);
    assert(body =~= seq![x, ' '] + seq!['='] + seq![' ', d]);
    lemma_split_around(seq![x, ' '], '=', seq![' ', d]);
    lemma_trim_name_space(x);
    lemma_trim_name_space(d);
    lemma_parse_digit(d);
}

proof fn lemma_number_guards(x: char, d: char)
    requires
        x == 'a' || x == 'b',
        '0' <= d <= '9',
    ensures
        !has_prefix(seq![x, ' ', '=', ' ', d, ';'], "int "@),
        is_number_assignment(seq![x, ' ', '=', ' ', d, ';']),
{
    let line = seq![x, ' ', '=', ' ', d, ';'];
    lemma_not_declaration(line);
    assert(line[2] == '=');
    assert forall|i: int| 0 <= i < line.len() implies line[i] != '+' && line[i] != '-' by {
    }
    lemma_no_char(line, '+');
    lemma_no_char(line, '-');
}

/// `x = d;` for a one-letter variable `x` and a one-digit number `d`.
#[verifier::spinoff_prover]
proof fn lemma_number_line(x: char, d: char)
    requires
        x == 'a' || x == 'b',
        '0' <= d <= '9',
    ensures
        number_src(seq![x, ' ', '=', ' ', d, ';'], vars2()) == Ok::<(u8, u32), CompileError>(
            (if x == 'a' { 0u8 } else { 1u8 }, (d as u32 - '0' as u32) as u32),
        ),
{
    reveal(number_src);
    lemma_lookup_sample();
    lemma_number_assignment(x, d);
    if x == 'a' {
        assert(seq![x] =~= va());
    } else {
        assert(seq![x] =~= vb());
    }
}

proof fn lemma_self_update(op: char)
    requires
        op == '+' || op == '-',
    ensures
        self_update(seq!['a', ' ', '=', ' ', 'a', ' ', op, ' ', 'b', ';'], op) == Ok::<(Seq<char>, Seq<char>), CompileError>(
            (va(), vb()),
        ),
{
    reveal(self_update);
    let body = seq!['a', ' ', '=', ' ', 'a', ' ', op, ' ', 'b'];
    let line = seq!['a', ' ', '=', ' ', 'a', ' ', op, ' ', 'b', ';'];
    assert(line =~= body + seq![';']);
    lemma_without_semicolon(body);
    let rhs = seq![' ', 'a', ' ', op, ' ', 'b'];
    assert(body =~= seq!['a', ' '] + seq!['='] + rhs);
    lemma_split_around(seq!['a', ' '], '=', rhs);
    lemma_trim_name_space('a');
    lemma_trim_name_space('b');
    let expr = seq!['a', ' ', op, ' ', 'b'];
    assert(rhs.drop_first() =~= expr);
    assert(trim_start(expr) == expr);
    assert(trim_start(rhs) == expr);
    assert(trim_end(expr) == expr);
    assert(trim(rhs) == expr);
    assert(expr =~= seq!['a', ' '] + seq![op] + seq![' ', 'b']);
    lemma_split_around(seq!['a', ' '], op, seq![' ', 'b']);
    assert(seq!['a'] =~= va());
    assert(seq!['b'] =~= vb());
}

proof fn lemma_update_guards(op: char)
    requires
        op == '+' || op == '-',
    ensures
        ({
            let line = seq!['a', ' ', '=', ' ', 'a', ' ', op, ' ', 'b', ';'];
            &&& !has_prefix(line, "int "@)
            &&& !is_number_assignment(line)
            &&& line.contains('=') && line.contains(op)
            &&& (op == '-' ==> !line.contains('+'))
        }),
{
    let line = seq!['a', ' ', '=', ' ', 'a', ' ', op, ' ', 'b', ';'];
    lemma_not_declaration(line);
    assert(line[2] == '=');
    assert(line[6] == op);
    if op == '-' {
        assert forall|i: int| 0 <= i < line.len() implies line[i] != '+' by {
        }
        lemma_no_char(line, '+');
    }
}

proof fn lemma_update_line(op: char)
    requires
        op == '+' || op == '-',
    ensures
        update_src(seq!['a', ' ', '=', ' ', 'a', ' ', op, ' ', 'b', ';'], vars2(), op) == Ok::<(u8, u8), CompileError>((0u8, 1u8)),
{
    reveal(update_src);
    lemma_self_update(op);
    lemma_lookup_sample();
}

spec fn store_line() -> Seq<char> {
    seq!['s', 't', 'o', 'r', 'e', ' ', 'a', ',', ' ', '4', '0', '0', ';']
}

proof fn lemma_parse_400()
    ensures
        parse_u32_spec(seq!['4', '0', '0']) == Some(400u32),
{
    let d = seq!['4', '0', '0'];
    assert(unsigned_digits(d) == d);
    assert(all_digits(d));
    assert(d.drop_last() =~= seq!['4', '0']);
    assert(seq!['4', '0'].drop_last() =~= seq!['4']);
    assert(seq!['4'].drop_last() =~= Seq::<char>::empty());
    assert(dec_value(Seq::<char>::empty()) == 0);
    assert(dec_value(seq!['4']) == 4);
    assert(dec_value(seq!['4', '0']) == 40);
    assert(dec_value(d) == 400);
}

proof fn lemma_store_arg()
    ensures
        arg_of(store_line(), "store "@) == seq!['a', ',', ' ', '4', '0', '0'],
        has_prefix(store_line(), "store "@),
{
    reveal_strlit("store ");
    let kw = "store "@;
    assert(kw =~= seq!['s', 't', 'o', 'r', 'e', ' ']);
    let line = store_line();
    assert(line.take(6) =~= kw);
    let rest = seq!['a', ',', ' ', '4', '0', '0', ';'];
    assert(line.skip(6) =~= rest);
    assert(rest.take(6)[0] != kw[0]);
    assert(trim_start_matches(rest, kw) == rest);
    assert(trim_start_matches(line, kw) == rest);
    let body = seq!['a', ',', ' ', '4', '0', '0'];
    assert(rest =~= body + seq![';']);
    lemma_without_semicolon(body);
    lemma_trim_plain(body);
}

proof fn lemma_store_src()
    ensures
        store_src(store_line(), vars2()) == Ok::<(u8, u32), CompileError>((0u8, 400u32)),
{
    reveal(store_src);
    reveal(pair_of);
    lemma_store_arg();
    let body = seq!['a', ',', ' ', '4', '0', '0'];
    assert(body =~= seq!['a'] + seq![','] + seq![' ', '4', '0', '0']);
    lemma_split_around(seq!['a'], ',', seq![' ', '4', '0', '0']);
    lemma_trim_plain(seq!['a']);
    let n = seq!['4', '0', '0'];
    assert(seq![' ', '4', '0', '0'].drop_first() =~= n);
    assert(trim_start(n) == n);
    assert(trim_start(seq![' ', '4', '0', '0']) == n);
    assert(trim_end(n) == n);
    lemma_parse_400();
    lemma_lookup_sample();
    assert(seq!['a'] =~= va());
}

proof fn lemma_store_guards()
    ensures
        !has_prefix(store_line(), "int "@),
        !store_line().contains('='),
{
    lemma_not_declaration(store_line());
    assert forall|i: int| 0 <= i < store_line().len() implies store_line()[i] != '=' by {
    }
    lemma_no_char(store_line(), '=');
}

spec fn sample_lines() -> Seq<Seq<char>> {
    seq![
        Seq::<char>::empty(),
        seq!['i', 'n', 't', ' ', 'a', ';'],
        seq!['i', 'n', 't', ' ', 'b', ';'],
        seq!['a', ' ', '=', ' ', '3', ';'],
        seq!['b', ' ', '=', ' ', '1', ';'],
        seq!['a', ' ', '=', ' ', 'a', ' ', '+', ' ', 'b', ';'],
        seq!['a', ' ', '=', ' ', 'a', ' ', '-', ' ', 'b', ';'],
        store_line(),
    ]
}

proof fn lemma_sample_text_lines()
    ensures
        lines(SAMPLE_PROGRAM@) == sample_lines(),
{
    reveal_strlit("
int a;
int b;
a = 3;
b = 1;
a = a + b;
a = a - b;
store a, 400;
");
    let ls = sample_lines();
    let nl = seq!['\n'];
    let r8 = Seq::<char>::empty();
    let r7 = ls[7] + nl + r8;
    let r6 = ls[6] + nl + r7;
    let r5 = ls[5] + nl + r6;
    let r4 = ls[4] + nl + r5;
    let r3 = ls[3] + nl + r4;
    let r2 = ls[2] + nl + r3;
    let r1 = ls[1] + nl + r2;
    let r0 = ls[0] + nl + r1;
    assert(SAMPLE_PROGRAM@ =~= r0);
    assert forall|k: int| 0 <= k < 8 implies !(#[trigger] ls[k]).contains('\n') && strip_cr(ls[k]) == ls[k] by {
        assert forall|i: int| 0 <= i < ls[k].len() implies ls[k][i] != '\n' by {
        }
        lemma_no_char(ls[k], '\n');
    }
    lemma_lines_empty();
    lemma_lines_cons(ls[7], r8);
    lemma_lines_cons(ls[6], r7);
    lemma_lines_cons(ls[5], r6);
    lemma_lines_cons(ls[4], r5);
    lemma_lines_cons(ls[3], r4);
    lemma_lines_cons(ls[2], r3);
    lemma_lines_cons(ls[1], r2);
    lemma_lines_cons(ls[0], r1);
    assert(lines(r0) =~= ls);
}

proof fn lemma_sample_assignments()
    ensures
        src_line(sample_lines()[3], vars2()) == Ok::<(Vars, Seq<u8>), CompileError>((vars2(), op_reg_word(LOADI, 0, 3))),
        src_line(sample_lines()[4], vars2()) == Ok::<(Vars, Seq<u8>), CompileError>((vars2(), op_reg_word(LOADI, 1, 1))),
{
    reveal(src_statement);
    lemma_number_guards('a', '3');
    lemma_number_guards('b', '1');
    lemma_number_line('a', '3');
    lemma_number_line('b', '1');
}

proof fn lemma_sample_updates()
    ensures
        src_line(sample_lines()[5], vars2()) == Ok::<(Vars, Seq<u8>), CompileError>((vars2(), op_reg_reg(ADD, 0, 1))),
        src_line(sample_lines()[6], vars2()) == Ok::<(Vars, Seq<u8>), CompileError>((vars2(), op_reg_reg(SUB, 0, 1))),
{
    reveal(src_statement);
    lemma_update_guards('+');
    lemma_update_guards('-');
    lemma_update_line('+');
    lemma_update_line('-');
}

proof fn lemma_sample_store()
    ensures
        src_line(sample_lines()[7], vars2()) == Ok::<(Vars, Seq<u8>), CompileError>((vars2(), op_reg_word(STORE, 0, 400))),
{
    reveal(src_statement);
    lemma_store_guards();
    lemma_store_arg();
    lemma_store_src();
}

proof fn lemma_src_lines_step(ls: Seq<Seq<char>>, k: int, vars: Vars, bytes: Seq<u8>, next: Vars, b: Seq<u8>)
    requires
        0 <= k < ls.len(),
        src_lines(ls.take(k)) == Ok::<(Vars, Seq<u8>), CompileError>((vars, bytes)),
        trim(ls[k]).len() != 0,
        src_line(trim(ls[k]), vars) == Ok::<(Vars, Seq<u8>), CompileError>((next, b)),
    ensures
        src_lines(ls.take(k + 1)) == Ok::<(Vars, Seq<u8>), CompileError>((next, bytes + b)),
{
    assert(ls.take(k + 1).drop_last() =~= ls.take(k));
    assert(ls.take(k + 1).last() == ls[k]);
}

/// The sample program compiles, to 25 bytes of code.
proof fn lemma_sample_program()
    ensures
        compile_source_spec(SAMPLE_PROGRAM@) == Ok::<Seq<u8>, CompileError>(sample_code()),
        sample_code().len() == 25,
{
    lemma_sample_text_lines();
    lemma_declarations();
    lemma_sample_assignments();
    lemma_sample_updates();
    lemma_sample_store();
    let ls = sample_lines();
    assert forall|k: int| 1 <= k < 8 implies trim(#[trigger] ls[k]) == ls[k] by {
        lemma_trim_plain(ls[k]);
    }
    assert(trim(ls[0]).len() == 0);
    let e = Seq::<u8>::empty();
    assert(ls.take(1).drop_last() =~= ls.take(0));
    assert(ls.take(0) =~= Seq::<Seq<char>>::empty());
    assert(ls.take(1).last() == ls[0]);
    assert(src_lines(ls.take(0)) == Ok::<(Vars, Seq<u8>), CompileError>((Seq::empty(), e)));
    assert(src_lines(ls.take(1)) == Ok::<(Vars, Seq<u8>), CompileError>((Seq::empty(), e)));
    lemma_src_lines_step(ls, 1, Seq::empty(), e, vars1(), e);
    lemma_src_lines_step(ls, 2, vars1(), e + e, vars2(), e);
    let b2 = e + e + e;
    lemma_src_lines_step(ls, 3, vars2(), b2, vars2(), op_reg_word(LOADI, 0, 3));
    let b3 = b2 + op_reg_word(LOADI, 0, 3);
    lemma_src_lines_step(ls, 4, vars2(), b3, vars2(), op_reg_word(LOADI, 1, 1));
    let b4 = b3 + op_reg_word(LOADI, 1, 1);
    lemma_src_lines_step(ls, 5, vars2(), b4, vars2(), op_reg_reg(ADD, 0, 1));
    let b5 = b4 + op_reg_reg(ADD, 0, 1);
    lemma_src_lines_step(ls, 6, vars2(), b5, vars2(), op_reg_reg(SUB, 0, 1));
    let b6 = b5 + op_reg_reg(SUB, 0, 1);
    lemma_src_lines_step(ls, 7, vars2(), b6, vars2(), op_reg_word(STORE, 0, 400));
    let b7 = b6 + op_reg_word(STORE, 0, 400);
    assert(ls.take(8) =~= ls);
    assert(b7 + op_only(HLT) =~= sample_code());
}

/// An operand the compiler writes: `R` and digits, or digits alone.
spec fn operand_char(c: char) -> bool {
    c == 'R' || is_digit(c)
}

proof fn lemma_reg_text_chars(r: u8)
    ensures
        reg_text(r).len() > 1,
        reg_text(r)[0] == 'R',
        forall|i: int| 0 <= i < reg_text(r).len() ==> operand_char(#[trigger] reg_text(r)[i]),
        reg_text(r).skip(1) == dec_string(r as nat),
{
    reveal_strlit("R");
    assert("R"@ =~= seq!['R']);
    lemma_dec_string_digits(r as nat);
    let t = reg_text(r);
    assert forall|i: int| 0 <= i < t.len() implies operand_char(#[trigger] t[i]) by {
        if i > 0 {
            assert(t[i] == dec_string(r as nat)[i - 1]);
        }
    }
    assert(t.skip(1) =~= dec_string(r as nat));
}

proof fn lemma_dec_chars(n: nat)
    ensures
        dec_string(n).len() > 0,
        forall|i: int| 0 <= i < dec_string(n).len() ==> operand_char(#[trigger] dec_string(n)[i]),
{
    lemma_dec_string_digits(n);
}

/// A line `m a, b` as the compiler writes it reads as the instruction `m` with operands
/// `a` and `b`.
proof fn lemma_generated_line(m: Seq<char>, a: Seq<char>, b: Seq<char>)
    requires
        m.len() > 0,
        forall|i: int| 0 <= i < m.len() ==> 'A' <= #[trigger] m[i] <= 'Z',
        a.len() > 0,
        b.len() > 0,
        forall|i: int| 0 <= i < a.len() ==> operand_char(#[trigger] a[i]),
        forall|i: int| 0 <= i < b.len() ==> operand_char(#[trigger] b[i]),
        m != "HLT"@,
        m != "RET"@,
        m != "INT"@,
        m != "IRET"@,
    ensures
        parse_line_spec(m + seq![' '] + a + seq![',', ' '] + b) == instruction_spec(m, seq![a, b]),
{
    reveal_strlit("//");
    reveal_strlit(":");
    assert("//"@ =~= seq!['/', '/']);
    assert(":"@ =~= seq![':']);
    let line = m + seq![' '] + a + seq![',', ' '] + b;
    let n1 = m.len() as int;
    let n2 = n1 + 1 + a.len();
    assert forall|i: int| 0 <= i < line.len() implies line[i] != '/' && (line[i] == ' ' || line[i] == ',' || 'A' <= line[i] <= 'Z' || operand_char(line[i])) by {
        if i < n1 {
            assert(line[i] == m[i]);
        } else if i == n1 {
        } else if i < n2 {
            assert(line[i] == a[i - n1 - 1]);
        } else if i < n2 + 2 {
        } else {
            assert(line[i] == b[i - n2 - 2]);
        }
    }
    lemma_before_first_absent(line, "//"@);
    assert(line[0] == m[0]);
    assert(line.last() == b.last()) by {
        assert(line[line.len() - 1] == b[b.len() - 1]);
    }
    assert(!is_ws(line[0]));
    assert(!is_ws(line.last()));
    lemma_trim_plain(line);
    assert(!has_suffix(line, ":"@)) by {
        assert(line.skip(line.len() - 1)[0] == line.last());
    }
    let rest = a + seq![','] + (seq![' '] + b);
    assert(line =~= m + seq![' '] + rest);
    assert forall|i: int| 0 <= i < m.len() implies m[i] != ' ' by {
    }
    lemma_split_once_at(m, ' ', rest);
    assert forall|i: int| 0 <= i < a.len() implies a[i] != ',' by {
    }
    let tail = seq![' '] + b;
    assert forall|i: int| 0 <= i < tail.len() implies tail[i] != ',' by {
        if i > 0 {
            assert(tail[i] == b[i - 1]);
        }
    }
    lemma_split_around(a, ',', tail);
    assert(!is_ws(a[0]) && !is_ws(a.last())) by {
        assert(a.last() == a[a.len() - 1]);
    }
    lemma_trim_plain(a);
    assert(tail.drop_first() =~= b);
    assert(!is_ws(b[0]) && !is_ws(b.last())) by {
        assert(b.last() == b[b.len() - 1]);
    }
    assert(trim_start(b) == b);
    assert(trim_start(tail) == b);
    assert(trim_end(b) == b);
    let ops = split_char(rest, ',').map_values(|x: Seq<char>| trim(x));
    assert(ops =~= seq![a, b]);
}

proof fn lemma_register_text(r: u8)
    requires
        r < 8,
    ensures
        register_spec(reg_text(r)) == Some(r),
{
    reveal_strlit("R");
    assert("R"@ =~= seq!['R']);
    lemma_reg_text_chars(r);
    let t = reg_text(r);
    assert(!is_ws(t[0]));
    assert(!is_ws(t.last())) by {
        assert(t.last() == t[t.len() - 1]);
        assert(operand_char(t[t.len() - 1]));
    }
    lemma_trim_plain(t);
    assert(t.take(1) =~= "R"@);
    law_decimal_roundtrip(r as u32);
}

proof fn lemma_bare_mnemonics()
    ensures
        "HLT"@ == seq!['H', 'L', 'T'],
        "RET"@ == seq!['R', 'E', 'T'],
        "INT"@ == seq!['I', 'N', 'T'],
        "IRET"@ == seq!['I', 'R', 'E', 'T'],
{
    reveal_strlit("HLT");
    reveal_strlit("RET");
    reveal_strlit("INT");
    reveal_strlit("IRET");
    assert("HLT"@ =~= seq!['H', 'L', 'T']);
    assert("RET"@ =~= seq!['R', 'E', 'T']);
    assert("INT"@ =~= seq!['I', 'N', 'T']);
    assert("IRET"@ =~= seq!['I', 'R', 'E', 'T']);
}

proof fn lemma_operand_mnemonics()
    ensures
        "LOADI"@ == seq!['L', 'O', 'A', 'D', 'I'],
        "LOAD"@ == seq!['L', 'O', 'A', 'D'],
        "STORE"@ == seq!['S', 'T', 'O', 'R', 'E'],
        "ADD"@ == seq!['A', 'D', 'D'],
        "SUB"@ == seq!['S', 'U', 'B'],
        "MOV"@ == seq!['M', 'O', 'V'],
        "CMP"@ == seq!['C', 'M', 'P'],
        "LOADI "@ == "LOADI"@ + seq![' '],
        "LOAD "@ == "LOAD"@ + seq![' '],
        "STORE "@ == "STORE"@ + seq![' '],
        "ADD "@ == "ADD"@ + seq![' '],
        "SUB "@ == "SUB"@ + seq![' '],
        "MOV "@ == "MOV"@ + seq![' '],
        "CMP "@ == "CMP"@ + seq![' '],
{
    reveal_strlit("LOADI");
    reveal_strlit("LOAD");
    reveal_strlit("STORE");
    reveal_strlit("ADD");
    reveal_strlit("SUB");
    reveal_strlit("MOV");
    reveal_strlit("CMP");
    reveal_strlit("LOADI ");
    reveal_strlit("LOAD ");
    reveal_strlit("STORE ");
    reveal_strlit("ADD ");
    reveal_strlit("SUB ");
    reveal_strlit("MOV ");
    reveal_strlit("CMP ");
    assert("LOADI"@ =~= seq!['L', 'O', 'A', 'D', 'I']);
    assert("LOAD"@ =~= seq!['L', 'O', 'A', 'D']);
    assert("STORE"@ =~= seq!['S', 'T', 'O', 'R', 'E']);
    assert("ADD"@ =~= seq!['A', 'D', 'D']);
    assert("SUB"@ =~= seq!['S', 'U', 'B']);
    assert("MOV"@ =~= seq!['M', 'O', 'V']);
    assert("CMP"@ =~= seq!['C', 'M', 'P']);
    assert("LOADI "@ =~= "LOADI"@ + seq![' ']);
    assert("LOAD "@ =~= "LOAD"@ + seq![' ']);
    assert("STORE "@ =~= "STORE"@ + seq![' ']);
    assert("ADD "@ =~= "ADD"@ + seq![' ']);
    assert("SUB "@ =~= "SUB"@ + seq![' ']);
    assert("MOV "@ =~= "MOV"@ + seq![' ']);
    assert("CMP "@ =~= "CMP"@ + seq![' ']);
}

/// The line of a register-and-number instruction that the compiler writes, without its
/// newline.
pub open spec fn reg_num_text(ins: Seq<char>, r: u8, n: u32) -> Seq<char> {
    ins + reg_text(r) + ", "@ + dec_string(n as nat)
}

/// The line of a two-register instruction that the compiler writes, without its newline.
pub open spec fn reg_reg_text(ins: Seq<char>, d: u8, s: u8) -> Seq<char> {
    ins + reg_text(d) + ", "@ + reg_text(s)
}

/// A mnemonic as the generated lines use it: capital letters, not one of the bare ones.
spec fn operand_mnemonic(m: Seq<char>) -> bool {
    &&& m.len() > 0
    &&& forall|i: int| 0 <= i < m.len() ==> 'A' <= #[trigger] m[i] <= 'Z'
    &&& m != "HLT"@
    &&& m != "RET"@
    &&& m != "INT"@
    &&& m != "IRET"@
}

proof fn lemma_reg_num_line_reads(m: Seq<char>, op: u8, r: u8, n: u32)
    requires
        r < 8,
        operand_mnemonic(m),
        instruction_spec(m, seq![reg_text(r), dec_string(n as nat)]) == reg_word_spec(op, seq![reg_text(r), dec_string(n as nat)]),
    ensures
        parse_line_spec(reg_num_text(m + seq![' '], r, n)) == Ok::<ItemSpec, AsmError>(ItemSpec::RegWord(op, r, n)),
{
    reveal_strlit(", ");
    assert(", "@ =~= seq![',', ' ']);
    lemma_reg_text_chars(r);
    lemma_dec_chars(n as nat);
    assert(reg_num_text(m + seq![' '], r, n) =~= m + seq![' '] + reg_text(r) + seq![',', ' '] + dec_string(n as nat));
    lemma_generated_line(m, reg_text(r), dec_string(n as nat));
    lemma_register_text(r);
    law_decimal_roundtrip(n);
}

proof fn lemma_reg_reg_line_parses(m: Seq<char>, d: u8, s: u8)
    requires
        operand_mnemonic(m),
    ensures
        parse_line_spec(reg_reg_text(m + seq![' '], d, s)) == instruction_spec(m, seq![reg_text(d), reg_text(s)]),
{
    reveal_strlit(", ");
    assert(", "@ =~= seq![',', ' ']);
    lemma_reg_text_chars(d);
    lemma_reg_text_chars(s);
    assert(reg_reg_text(m + seq![' '], d, s) =~= m + seq![' '] + reg_text(d) + seq![',', ' '] + reg_text(s));
    lemma_generated_line(m, reg_text(d), reg_text(s));
}

proof fn lemma_reg_reg_line_reads(m: Seq<char>, op: u8, d: u8, s: u8)
    requires
        d < 8,
        s < 8,
        operand_mnemonic(m),
        instruction_spec(m, seq![reg_text(d), reg_text(s)]) == reg_reg_spec(op, seq![reg_text(d), reg_text(s)]),
    ensures
        parse_line_spec(reg_reg_text(m + seq![' '], d, s)) == Ok::<ItemSpec, AsmError>(ItemSpec::RegReg(op, d, s)),
{
    let ops = seq![reg_text(d), reg_text(s)];
    lemma_reg_reg_line_parses(m, d, s);
    lemma_two_registers(op, d, s);
}

proof fn lemma_two_registers(op: u8, d: u8, s: u8)
    requires
        d < 8,
        s < 8,
    ensures
        reg_reg_spec(op, seq![reg_text(d), reg_text(s)]) == Ok::<ItemSpec, AsmError>(ItemSpec::RegReg(op, d, s)),
{
    let ops = seq![reg_text(d), reg_text(s)];
    lemma_register_text(d);
    lemma_register_text(s);
    assert(ops[0] == reg_text(d));
    assert(ops[1] == reg_text(s));
}

/// How the mnemonics that the compiler writes are spelled, and which instruction the
/// assembler makes of each.
proof fn lemma_written_mnemonics()
    ensures
        operand_mnemonic("LOADI"@),
        operand_mnemonic("LOAD"@),
        operand_mnemonic("STORE"@),
        operand_mnemonic("ADD"@),
        operand_mnemonic("SUB"@),
        operand_mnemonic("MOV"@),
        operand_mnemonic("CMP"@),
        "LOADI "@ == "LOADI"@ + seq![' '],
        "LOAD "@ == "LOAD"@ + seq![' '],
        "STORE "@ == "STORE"@ + seq![' '],
        "ADD "@ == "ADD"@ + seq![' '],
        "SUB "@ == "SUB"@ + seq![' '],
        "MOV "@ == "MOV"@ + seq![' '],
        "CMP "@ == "CMP"@ + seq![' '],
        forall|ops: Seq<Seq<char>>| #[trigger] instruction_spec("LOADI"@, ops) == reg_word_spec(LOADI, ops),
        forall|ops: Seq<Seq<char>>| #[trigger] instruction_spec("LOAD"@, ops) == reg_word_spec(LOAD, ops),
        forall|ops: Seq<Seq<char>>| #[trigger] instruction_spec("STORE"@, ops) == reg_word_spec(STORE, ops),
        forall|ops: Seq<Seq<char>>| #[trigger] instruction_spec("ADD"@, ops) == reg_reg_spec(ADD, ops),
        forall|ops: Seq<Seq<char>>| #[trigger] instruction_spec("SUB"@, ops) == reg_reg_spec(SUB, ops),
        forall|ops: Seq<Seq<char>>| #[trigger] instruction_spec("MOV"@, ops) == reg_reg_spec(MOV, ops),
        forall|ops: Seq<Seq<char>>| #[trigger] instruction_spec("CMP"@, ops) == Err::<ItemSpec, AsmError>(AsmError::UnknownInstruction),
{
    lemma_bare_mnemonics();
    lemma_operand_mnemonics();
    reveal_strlit("PUSH");
    reveal_strlit("POP");
    reveal_strlit("CALL");
    reveal_strlit("JMP");
    reveal_strlit("JZ");
    reveal_strlit("JNZ");
    reveal_strlit("JS");
    reveal_strlit("JNS");
    assert("CALL"@.len() == 4);
    assert("PUSH"@[0] == 'P' && "POP"@[0] == 'P');
    assert("JMP"@[0] == 'J' && "JZ"@[0] == 'J' && "JNZ"@[0] == 'J' && "JS"@[0] == 'J' && "JNS"@[0] == 'J');
}

/// What the compiler writes for an immediate load, a load or a store (`LOADI`, `LOAD`,
/// `STORE`, a register and a number), the assembler reads back as that very instruction.
pub proof fn law_compiled_reg_num_line_assembles(ins: Seq<char>, op: u8, r: u8, n: u32)
    requires
        r < 8,
        (ins == "LOADI "@ && op == LOADI) || (ins == "LOAD "@ && op == LOAD) || (ins == "STORE "@ && op == STORE),
    ensures
        parse_line_spec(reg_num_text(ins, r, n)) == Ok::<ItemSpec, AsmError>(ItemSpec::RegWord(op, r, n)),
{
    lemma_written_mnemonics();
    let ops = seq![reg_text(r), dec_string(n as nat)];
    if ins == "LOADI "@ && op == LOADI {
        assert(instruction_spec("LOADI"@, ops) == reg_word_spec(LOADI, ops));
        lemma_reg_num_line_reads("LOADI"@, LOADI, r, n);
    } else if ins == "LOAD "@ && op == LOAD {
        assert(instruction_spec("LOAD"@, ops) == reg_word_spec(LOAD, ops));
        lemma_reg_num_line_reads("LOAD"@, LOAD, r, n);
    } else {
        assert(instruction_spec("STORE"@, ops) == reg_word_spec(STORE, ops));
        lemma_reg_num_line_reads("STORE"@, STORE, r, n);
    }
}

/// What the compiler writes for an addition, a subtraction or a move (`ADD`, `SUB`, `MOV`
/// and two registers), the assembler reads back as that very instruction.
pub proof fn law_compiled_reg_reg_line_assembles(ins: Seq<char>, op: u8, d: u8, s: u8)
    requires
        d < 8,
        s < 8,
        (ins == "ADD "@ && op == ADD) || (ins == "SUB "@ && op == SUB) || (ins == "MOV "@ && op == MOV),
    ensures
        parse_line_spec(reg_reg_text(ins, d, s)) == Ok::<ItemSpec, AsmError>(ItemSpec::RegReg(op, d, s)),
{
    lemma_written_mnemonics();
    let ops = seq![reg_text(d), reg_text(s)];
    if ins == "ADD "@ && op == ADD {
        assert(instruction_spec("ADD"@, ops) == reg_reg_spec(ADD, ops));
        lemma_reg_reg_line_reads("ADD"@, ADD, d, s);
    } else if ins == "SUB "@ && op == SUB {
        assert(instruction_spec("SUB"@, ops) == reg_reg_spec(SUB, ops));
        lemma_reg_reg_line_reads("SUB"@, SUB, d, s);
    } else {
        assert(instruction_spec("MOV"@, ops) == reg_reg_spec(MOV, ops));
        lemma_reg_reg_line_reads("MOV"@, MOV, d, s);
    }
}

/// What the compiler writes for a comparison (`CMP` and two registers), the assembler
/// refuses as an instruction it does not know.
pub proof fn law_compiled_compare_line_refused(d: u8, s: u8)
    ensures
        parse_line_spec(reg_reg_text("CMP "@, d, s)) == Err::<ItemSpec, AsmError>(AsmError::UnknownInstruction),
{
    lemma_written_mnemonics();
    let ops = seq![reg_text(d), reg_text(s)];
    assert(instruction_spec("CMP"@, ops) == Err::<ItemSpec, AsmError>(AsmError::UnknownInstruction));
    lemma_reg_reg_line_parses("CMP"@, d, s);
}

/// The code `compile_source` writes always ends with `HLT`.
pub proof fn law_code_ends_with_halt(source: Seq<char>)
    requires
        compile_source_spec(source) is Ok,
    ensures
        compile_source_spec(source)->Ok_0.len() >= 1,
        compile_source_spec(source)->Ok_0.last() == HLT,
{
}

/// A line that declares nothing, assigns nothing and stores nothing (no `=`, not `int ` or
/// `store `) gives no bytes and leaves the variables as they were.
pub proof fn law_other_line_emits_nothing(line: Seq<char>, vars: Vars)
    requires
        !has_prefix(line, "int "@),
        !has_prefix(line, "store "@),
        !line.contains('='),
    ensures
        src_line(line, vars) == Ok::<(Vars, Seq<u8>), CompileError>((vars, Seq::empty())),
{
    reveal(src_statement);
}

/// A line that compiles to nothing, whether blank or no statement, changes nothing of what
/// the lines around it compile to.
proof fn lemma_silent_line(a: Seq<Seq<char>>, l: Seq<char>, b: Seq<Seq<char>>)
    requires
        trim(l).len() == 0 || (!has_prefix(trim(l), "int "@) && !has_prefix(trim(l), "store "@) && !trim(l).contains('=')),
    ensures
        src_lines(a + seq![l] + b) == src_lines(a + b),
    decreases b.len(),
{
    if b.len() == 0 {
        assert(a + seq![l] + b =~= a.push(l));
        assert(a + b =~= a);
        assert(a.push(l).drop_last() =~= a);
        if trim(l).len() != 0 {
            law_other_line_emits_nothing(trim(l), src_lines(a)->Ok_0.0);
            if src_lines(a) is Ok {
                assert(src_lines(a)->Ok_0.1 + Seq::<u8>::empty() =~= src_lines(a)->Ok_0.1);
            }
        }
    } else {
        lemma_silent_line(a, l, b.drop_last());
        assert((a + seq![l] + b).drop_last() =~= a + seq![l] + b.drop_last());
        assert((a + b).drop_last() =~= a + b.drop_last());
        assert((a + seq![l] + b).last() == b.last());
        assert((a + b).last() == b.last());
    }
}

/// Inserting into a source a blank line, or a line that is no declaration, assignment or
/// store (such as `jump loop;`), changes nothing of the code `compile_source` writes.
pub proof fn law_silent_line_inserted(s1: Seq<char>, s2: Seq<char>, i: int, l: Seq<char>)
    requires
        0 <= i <= lines(s1).len(),
        lines(s2) == lines(s1).insert(i, l),
        trim(l).len() == 0 || (!has_prefix(trim(l), "int "@) && !has_prefix(trim(l), "store "@) && !trim(l).contains('=')),
    ensures
        compile_source_spec(s2) == compile_source_spec(s1),
{
    let ls = lines(s1);
    assert(lines(s2) =~= ls.take(i) + seq![l] + ls.skip(i));
    assert(ls =~= ls.take(i) + ls.skip(i));
    lemma_silent_line(ls.take(i), l, ls.skip(i));
}

proof fn lemma_first_match(vars: Vars, name: Seq<char>, k: int)
    requires
        0 <= k < vars.len(),
        vars[k].0 == name,
    ensures
        exists|i: int| 0 <= i < vars.len() && vars[i].0 == name && forall|j: int| 0 <= j < i ==> vars[j].0 != name,
    decreases k,
{
    if exists|j: int| 0 <= j < k && vars[j].0 == name {
        let j = choose|j: int| 0 <= j < k && vars[j].0 == name;
        lemma_first_match(vars, name, j);
    } else {
        assert(0 <= k < vars.len() && vars[k].0 == name && forall|j: int| 0 <= j < k ==> vars[j].0 != name);
    }
}

/// Where `find_var` finds a name, the name stands there.
proof fn lemma_find_var_range(vars: Vars, name: Seq<char>)
    ensures
        find_var(vars, name) matches Some(i) ==> 0 <= i < vars.len() && vars[i].0 == name,
{
    reveal(find_var);
    if exists|i: int| 0 <= i < vars.len() && vars[i].0 == name {
        let k = choose|i: int| 0 <= i < vars.len() && vars[i].0 == name;
        lemma_first_match(vars, name, k);
    }
}

/// Every variable has one of the eight registers.
pub open spec fn regs_ok(vars: Vars) -> bool {
    forall|i: int| 0 <= i < vars.len() ==> #[trigger] vars[i].1 < 8
}

proof fn lemma_lookup_reg(vars: Vars, name: Seq<char>)
    requires
        regs_ok(vars),
    ensures
        lookup(vars, name) matches Some(r) ==> r < 8,
{
    lemma_find_var_range(vars, name);
}

proof fn lemma_declare_regs(vars: Vars, name: Seq<char>)
    requires
        regs_ok(vars),
    ensures
        declare(vars, name) matches Some(vs) ==> regs_ok(vs),
{
    lemma_find_var_range(vars, name);
    if let Some(vs) = declare(vars, name) {
        assert forall|i: int| 0 <= i < vs.len() implies #[trigger] vs[i].1 < 8 by {
            if i < vars.len() {
                assert(vars[i].1 < 8);
            }
        }
    }
}

/// A line `m a, b` that the compiler writes holds no line break and ends in an operand.
proof fn lemma_line_shape(m: Seq<char>, a: Seq<char>, b: Seq<char>)
    requires
        operand_mnemonic(m),
        a.len() > 0,
        b.len() > 0,
        forall|i: int| 0 <= i < a.len() ==> operand_char(#[trigger] a[i]),
        forall|i: int| 0 <= i < b.len() ==> operand_char(#[trigger] b[i]),
    ensures
        !(m + seq![' '] + a + ", "@ + b).contains('\n'),
        strip_cr(m + seq![' '] + a + ", "@ + b) == m + seq![' '] + a + ", "@ + b,
{
    reveal_strlit(", ");
    assert(", "@ =~= seq![',', ' ']);
    let x = m + seq![' '] + a + ", "@ + b;
    let n1 = m.len() as int;
    let n2 = n1 + 1 + a.len();
    assert forall|i: int| 0 <= i < x.len() implies x[i] != '\n' && x[i] != '\r' by {
        if i < n1 {
            assert(x[i] == m[i]);
        } else if i == n1 {
        } else if i < n2 {
            assert(x[i] == a[i - n1 - 1]);
            assert(operand_char(a[i - n1 - 1]));
        } else if i < n2 + 2 {
        } else {
            assert(x[i] == b[i - n2 - 2]);
            assert(operand_char(b[i - n2 - 2]));
        }
    }
    assert(x.last() == x[x.len() - 1]);
}

/// The text line the compiler writes for a register-and-number instruction, with its newline.
pub open spec fn num_line_text(ins: Seq<char>, r: u8, n: u32) -> Seq<char> {
    ins + reg_text(r) + ", "@ + dec_string(n as nat) + "\n"@
}

/// The text line the compiler writes for a two-register instruction, with its newline.
pub open spec fn regs_line_text(ins: Seq<char>, d: u8, s: u8) -> Seq<char> {
    ins + reg_text(d) + ", "@ + reg_text(s) + "\n"@
}

/// What a written line is: its text before the newline reads as one instruction that names
/// no label, whose bytes are `code`.
pub open spec fn written_line(t: Seq<char>, code: Seq<u8>) -> bool {
    &&& t.len() > 0
    &&& t == t.drop_last() + seq!['\n']
    &&& !t.drop_last().contains('\n')
    &&& strip_cr(t.drop_last()) == t.drop_last()
    &&& parse_line_spec(t.drop_last()) is Ok
    &&& plain_item(parse_line_spec(t.drop_last())->Ok_0)
    &&& item_bytes(parse_line_spec(t.drop_last())->Ok_0) == code
}

#[verifier::spinoff_prover]
proof fn lemma_num_line_written(ins: Seq<char>, op: u8, r: u8, n: u32)
    requires
        r < 8,
        (ins == "LOADI "@ && op == LOADI) || (ins == "LOAD "@ && op == LOAD) || (ins == "STORE "@ && op == STORE),
    ensures
        written_line(num_line_text(ins, r, n), op_reg_word(op, r, n)),
{
    reveal_strlit("\n");
    assert("\n"@ =~= seq!['\n']);
    lemma_written_mnemonics();
    let m = ins.drop_last();
    assert(ins == m + seq![' ']) by {
        if ins == "LOADI "@ {
            assert(m =~= "LOADI"@);
        } else if ins == "LOAD "@ {
            assert(m =~= "LOAD"@);
        } else {
            assert(m =~= "STORE"@);
        }
    }
    assert(operand_mnemonic(m));
    lemma_reg_text_chars(r);
    lemma_dec_chars(n as nat);
    lemma_line_shape(m, reg_text(r), dec_string(n as nat));
    let t = num_line_text(ins, r, n);
    assert(t.drop_last() =~= reg_num_text(ins, r, n));
    law_compiled_reg_num_line_assembles(ins, op, r, n);
}

#[verifier::spinoff_prover]
proof fn lemma_regs_line_written(ins: Seq<char>, op: u8, d: u8, s: u8)
    requires
        d < 8,
        s < 8,
        (ins == "ADD "@ && op == ADD) || (ins == "SUB "@ && op == SUB),
    ensures
        written_line(regs_line_text(ins, d, s), op_reg_reg(op, d, s)),
{
    reveal_strlit("\n");
    assert("\n"@ =~= seq!['\n']);
    lemma_written_mnemonics();
    let m = ins.drop_last();
    assert(ins == m + seq![' ']) by {
        if ins == "ADD "@ {
            assert(m =~= "ADD"@);
        } else {
            assert(m =~= "SUB"@);
        }
    }
    assert(operand_mnemonic(m));
    lemma_reg_text_chars(d);
    lemma_reg_text_chars(s);
    lemma_line_shape(m, reg_text(d), reg_text(s));
    let t = regs_line_text(ins, d, s);
    assert(t.drop_last() =~= reg_reg_text(ins, d, s));
    law_compiled_reg_reg_line_assembles(ins, op, d, s);
}

/// A declaration, a number assignment, `a = a + b`, `a = a - b` or a store, starting with
/// no keyword of another statement.
pub open spec fn plain_line(line: Seq<char>) -> bool {
    &&& has_prefix(line, "int "@) || line.contains('=') || has_prefix(line, "store "@)
    &&& !has_prefix(line, "label "@)
    &&& !has_prefix(line, "jump "@)
    &&& !has_prefix(line, "jz"@ + " "@)
    &&& !has_prefix(line, "ifz "@)
    &&& !has_prefix(line, "jnz"@ + " "@)
    &&& !has_prefix(line, "ifnz "@)
    &&& !has_prefix(line, "js"@ + " "@)
    &&& !has_prefix(line, "ifs "@)
    &&& !has_prefix(line, "jns"@ + " "@)
    &&& !has_prefix(line, "ifns "@)
    &&& !has_prefix(line, "call "@)
    &&& line != "ret"@ + ";"@
    &&& line != "enter"@ + ";"@
    &&& line != "leave"@ + ";"@
    &&& line != "interrupt"@ + ";"@
    &&& line != "iret"@ + ";"@
    &&& !has_prefix(line, "move "@)
    &&& !has_prefix(line, "compare "@)
    &&& !has_prefix(line, "load "@)
    &&& !has_prefix(line, "push "@)
    &&& !has_prefix(line, "pop "@)
}

/// On a plain line, the assembly text and the machine code agree: where the text is written,
/// the code is too, with the same variables after it, and the text line reads as the
/// instruction those bytes encode.
proof fn lemma_plain_line_agrees(line: Seq<char>, vars: Vars)
    requires
        plain_line(line),
        regs_ok(vars),
        asm_line(line, vars) is Ok,
    ensures
        src_line(line, vars) is Ok,
        src_line(line, vars)->Ok_0.0 == asm_line(line, vars)->Ok_0.0,
        regs_ok(asm_line(line, vars)->Ok_0.0),
        (asm_line(line, vars)->Ok_0.1.len() == 0 && src_line(line, vars)->Ok_0.1.len() == 0)
            || written_line(asm_line(line, vars)->Ok_0.1, src_line(line, vars)->Ok_0.1),
{
    if has_prefix(line, "int "@) {
        lemma_declare_regs(vars, arg_of(line, "int "@));
    } else {
        reveal(asm_statement);
        reveal(src_statement);
        if is_number_assignment(line) {
            reveal(number_src);
            if let Ok((name, n)) = number_assignment(line) {
                lemma_lookup_reg(vars, name);
                if let Some(r) = lookup(vars, name) {
                    lemma_num_line_written("LOADI "@, LOADI, r, n);
                }
            }
        } else if line.contains('=') && line.contains('+') {
            reveal(update_src);
            if let Ok((d, sr)) = self_update(line, '+') {
                lemma_lookup_reg(vars, d);
                lemma_lookup_reg(vars, sr);
                if let Ok((a, b)) = two_regs(vars, d, sr) {
                    lemma_regs_line_written("ADD "@, ADD, a, b);
                }
            }
        } else if line.contains('=') && line.contains('-') {
            reveal(update_src);
            if let Ok((d, sr)) = self_update(line, '-') {
                lemma_lookup_reg(vars, d);
                lemma_lookup_reg(vars, sr);
                if let Ok((a, b)) = two_regs(vars, d, sr) {
                    lemma_regs_line_written("SUB "@, SUB, a, b);
                }
            }
        } else {
            reveal(store_src);
            if let Ok((name, n)) = name_address(line, "store "@) {
                lemma_lookup_reg(vars, name);
                if let Some(r) = lookup(vars, name) {
                    lemma_num_line_written("STORE "@, STORE, r, n);
                }
            }
        }
    }
}

/// Every line of `ls`, trimmed, is blank or plain.
pub open spec fn plain_lines(ls: Seq<Seq<char>>) -> bool {
    forall|i: int| 0 <= i < ls.len() ==> trim(#[trigger] ls[i]).len() == 0 || plain_line(trim(ls[i]))
}

/// What the text of plain lines assembles from: every line reads, as an instruction that names
/// no label, and the instructions' bytes are `code`.
pub open spec fn text_reads_as(text: Seq<char>, code: Seq<u8>) -> bool {
    &&& text.len() == 0 || text.last() == '\n'
    &&& source_ok(text)
    &&& forall|k: int| 0 <= k < source_items(text).len() ==> plain_item(#[trigger] source_items(text)[k])
    &&& items_code(source_items(text)) == code
}

proof fn lemma_plain_lines_agree(ls: Seq<Seq<char>>)
    requires
        plain_lines(ls),
        asm_lines(ls) is Ok,
    ensures
        src_lines(ls) is Ok,
        src_lines(ls)->Ok_0.0 == asm_lines(ls)->Ok_0.0,
        regs_ok(asm_lines(ls)->Ok_0.0),
        text_reads_as(asm_lines(ls)->Ok_0.1, src_lines(ls)->Ok_0.1),
    decreases ls.len(),
{
    if ls.len() == 0 {
        lemma_lines_empty();
        let e = Seq::<char>::empty();
        assert(source_items(e).len() == 0);
        assert(source_items(e) =~= Seq::<ItemSpec>::empty());
        assert(items_code(Seq::<ItemSpec>::empty()) =~= Seq::<u8>::empty());
    } else {
        let init = ls.drop_last();
        assert forall|i: int| 0 <= i < init.len() implies trim(#[trigger] init[i]).len() == 0 || plain_line(trim(init[i])) by {
            assert(init[i] == ls[i]);
        }
        lemma_plain_lines_agree(init);
        let vars = asm_lines(init)->Ok_0.0;
        let text = asm_lines(init)->Ok_0.1;
        let bytes = src_lines(init)->Ok_0.1;
        let line = trim(ls.last());
        assert(ls.last() == ls[ls.len() - 1]);
        if line.len() != 0 {
            assert(plain_line(line));
            lemma_plain_line_agrees(line, vars);
            let t = asm_line(line, vars)->Ok_0.1;
            let b = src_line(line, vars)->Ok_0.1;
            if t.len() == 0 && b.len() == 0 {
                assert(text + t =~= text);
                assert(bytes + b =~= bytes);
            } else {
                let x = t.drop_last();
                assert(text + t =~= text + x + seq!['\n']);
                crate::text::lemma_lines_snoc(text, x);
                let text2 = text + t;
                let it = parse_line_spec(x)->Ok_0;
                assert(parsed_lines(text2) =~= parsed_lines(text).push(parse_line_spec(x)));
                assert(source_items(text2) =~= source_items(text).push(it));
                assert(source_items(text2).drop_last() =~= source_items(text));
                assert forall|k: int| 0 <= k < source_items(text2).len() implies plain_item(#[trigger] source_items(text2)[k]) by {
                    if k < source_items(text).len() {
                        assert(source_items(text2)[k] == source_items(text)[k]);
                    }
                }
                assert forall|k: int| 0 <= k < parsed_lines(text2).len() implies #[trigger] parsed_lines(text2)[k] is Ok by {
                    if k < parsed_lines(text).len() {
                        assert(parsed_lines(text2)[k] == parsed_lines(text)[k]);
                    }
                }
                assert(text2.last() == '\n');
            }
        }
    }
}

/// The closing line reads as `HLT`.
#[verifier::spinoff_prover]
proof fn lemma_halt_line()
    ensures
        "HLT\n"@ == "HLT"@ + seq!['\n'],
        !"HLT"@.contains('\n'),
        strip_cr("HLT"@) == "HLT"@,
        parse_line_spec("HLT"@) == Ok::<ItemSpec, AsmError>(ItemSpec::Bare(HLT)),
{
    reveal_strlit("HLT\n");
    reveal_strlit("HLT");
    reveal_strlit("//");
    reveal_strlit(":");
    let h = "HLT"@;
    assert(h =~= seq!['H', 'L', 'T']);
    assert("HLT\n"@ =~= h + seq!['\n']);
    assert("//"@ =~= seq!['/', '/']);
    assert(":"@ =~= seq![':']);
    assert(!h.contains('\n') && !h.contains(' ')) by {
        assert forall|i: int| 0 <= i < h.len() implies h[i] != '\n' && h[i] != ' ' by {}
    }
    crate::text::lemma_before_first_absent(h, "//"@);
    assert(!is_ws(h[0]) && !is_ws(h.last()));
    lemma_trim_plain(h);
    assert(!has_suffix(h, ":"@)) by {
        assert(h.skip(h.len() - 1)[0] == 'T');
    }
    assert(split_once(h, ' ') == seq![h]);
}

/// The assembly text `compile_to_assembly` writes for `source`.
pub open spec fn compiled_text(source: Seq<char>) -> Seq<char> {
    compile_to_assembly_spec(source)->Ok_0
}

/// The machine code `compile_source` writes for `source`.
pub open spec fn compiled_code(source: Seq<char>) -> Seq<u8> {
    compile_source_spec(source)->Ok_0
}

/// For a program of declarations, number assignments, `a = a + b`, `a = a - b` and stores,
/// compiling to assembly text and assembling that text writes exactly the code that
/// compiling straight to machine code writes, and leaves labels and placeholders alone.
pub proof fn law_compiled_text_assembles_to_code(source: Seq<char>, st: AsmState)
    requires
        plain_lines(lines(source)),
        compile_to_assembly_spec(source) is Ok,
        st.pos + compiled_code(source).len() <= u32::MAX,
    ensures
        compile_source_spec(source) is Ok,
        source_ok(compiled_text(source)),
        items_size(source_items(compiled_text(source))) == compiled_code(source).len(),
        assemble_items(st, source_items(compiled_text(source))) == (AsmState {
            mem: splice(st.mem, st.pos as int, compiled_code(source)),
            pos: (st.pos + compiled_code(source).len()) as u32,
            ..st
        }),
{
    let ls = lines(source);
    lemma_plain_lines_agree(ls);
    let text0 = asm_lines(ls)->Ok_0.1;
    let bytes = src_lines(ls)->Ok_0.1;
    let text = compiled_text(source);
    lemma_halt_line();
    assert(text == text0 + "HLT\n"@);
    assert(text =~= text0 + "HLT"@ + seq!['\n']);
    crate::text::lemma_lines_snoc(text0, "HLT"@);
    let items0 = source_items(text0);
    assert(parsed_lines(text) =~= parsed_lines(text0).push(parse_line_spec("HLT"@)));
    assert(source_items(text) =~= items0.push(ItemSpec::Bare(HLT)));
    assert(source_items(text).drop_last() =~= items0);
    assert(compiled_code(source) == bytes + op_only(HLT));
    assert(items_code(source_items(text)) == compiled_code(source));
    assert forall|k: int| 0 <= k < source_items(text).len() implies plain_item(#[trigger] source_items(text)[k]) by {
        if k < items0.len() {
            assert(source_items(text)[k] == items0[k]);
        }
    }
    assert forall|k: int| 0 <= k < parsed_lines(text).len() implies #[trigger] parsed_lines(text)[k] is Ok by {
        if k < parsed_lines(text0).len() {
            assert(parsed_lines(text)[k] == parsed_lines(text0)[k]);
        }
    }
    law_plain_items_assemble(st, source_items(text));
}

/// Where a name occurs in the variables at just one place, `find_var` finds that place.
proof fn lemma_find_var_unique(vars: Vars, name: Seq<char>, k: int)
    requires
        0 <= k < vars.len(),
        vars[k].0 == name,
        forall|j: int| 0 <= j < vars.len() && j != k ==> #[trigger] vars[j].0 != name,
    ensures
        find_var(vars, name) == Some(k),
        lookup(vars, name) == Some(vars[k].1),
{
    reveal(find_var);
    lemma_find_var_range(vars, name);
    let i = choose|i: int| 0 <= i < vars.len() && vars[i].0 == name && forall|j: int| 0 <= j < i ==> vars[j].0 != name;
    assert(0 <= k < vars.len() && vars[k].0 == name);
    assert(find_var(vars, name) is Some);
    assert(vars[find_var(vars, name)->Some_0].0 == name);
}

/// Where a name occurs nowhere in the variables, `find_var` finds nothing.
proof fn lemma_find_var_absent(vars: Vars, name: Seq<char>)
    requires
        forall|j: int| 0 <= j < vars.len() ==> #[trigger] vars[j].0 != name,
    ensures
        find_var(vars, name) is None,
{
    reveal(find_var);
}

/// Declaring while fewer than eight variables exist succeeds, and the name then stands for
/// the register numbered by how many variables there were.
pub proof fn law_declare_gives_next_register(vars: Vars, name: Seq<char>)
    requires
        vars.len() < 8,
    ensures
        declare(vars, name) matches Some(vs) && lookup(vs, name) == Some(vars.len() as u8),
{
    lemma_find_var_range(vars, name);
    reveal(find_var);
    match find_var(vars, name) {
        Some(i) => {
            let vs = vars.update(i, (name, vars.len() as u8));
            assert(vs[i].0 == name);
            assert forall|j: int| 0 <= j < i implies #[trigger] vs[j].0 != name by {
                assert(vs[j] == vars[j]);
            }
            let c = choose|c: int| 0 <= c < vs.len() && vs[c].0 == name && forall|j: int| 0 <= j < c ==> vs[j].0 != name;
            assert(0 <= i < vs.len() && vs[i].0 == name && forall|j: int| 0 <= j < i ==> vs[j].0 != name);
            assert(c == i) by {
                if c < i {
                    assert(vs[c].0 != name);
                }
                if c > i {
                    assert(vs[i].0 != name);
                }
            }
        },
        None => {
            let vs = vars.push((name, vars.len() as u8));
            assert forall|j: int| 0 <= j < vars.len() implies #[trigger] vs[j].0 != name by {
                assert(vs[j] == vars[j]);
                if vars[j].0 == name {
                    assert(exists|i: int| 0 <= i < vars.len() && vars[i].0 == name);
                    let k = choose|i: int| 0 <= i < vars.len() && vars[i].0 == name;
                    lemma_first_match(vars, name, k);
                }
            }
            lemma_find_var_unique(vs, name, vars.len() as int);
        },
    }
}

/// The variables that declaring `names` in order leaves, if every declaration succeeds.
pub open spec fn declared_all(names: Seq<Seq<char>>) -> Option<Vars>
    decreases names.len(),
{
    if names.len() == 0 {
        Some(Seq::empty())
    } else {
        match declared_all(names.drop_last()) {
            Some(vs) => declare(vs, names.last()),
            None => None,
        }
    }
}

/// Up to eight different names can be declared, and the one declared `k`-th stands for
/// register `k`: `R0` to `R7`.
pub proof fn law_distinct_declarations(names: Seq<Seq<char>>, k: int)
    requires
        names.len() <= 8,
        forall|i: int, j: int| 0 <= i < j < names.len() ==> names[i] != names[j],
    ensures
        declared_all(names) == Some(Seq::new(names.len(), |i: int| (names[i], i as u8))),
        0 <= k < names.len() ==> lookup(declared_all(names)->Some_0, names[k]) == Some(k as u8),
    decreases names.len(),
{
    let v = Seq::new(names.len(), |i: int| (names[i], i as u8));
    if names.len() > 0 {
        let init = names.drop_last();
        assert forall|i: int, j: int| 0 <= i < j < init.len() implies init[i] != init[j] by {
            assert(init[i] == names[i] && init[j] == names[j]);
        }
        law_distinct_declarations(init, 0);
        let v0 = Seq::new(init.len(), |i: int| (init[i], i as u8));
        let last = names.last();
        assert forall|j: int| 0 <= j < v0.len() implies #[trigger] v0[j].0 != last by {
            assert(v0[j].0 == names[j]);
            assert(last == names[names.len() - 1]);
        }
        lemma_find_var_absent(v0, last);
        assert(declare(v0, last) == Some(v0.push((last, v0.len() as u8))));
        assert(v0.push((last, v0.len() as u8)) =~= v);
    } else {
        assert(v =~= Seq::<(Seq<char>, u8)>::empty());
    }
    if 0 <= k < names.len() {
        assert forall|j: int| 0 <= j < v.len() && j != k implies #[trigger] v[j].0 != names[k] by {
            if j < k {
                assert(names[j] != names[k]);
            } else {
                assert(names[k] != names[j]);
            }
        }
        lemma_find_var_unique(v, names[k], k);
    }
}

} // verus!
