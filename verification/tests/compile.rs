use bf_interp::compiler::{compile, CompileError, Compiler};
use bf_interp::instruction::{Instruction, Opcode, PROGRAM_SIZE, STACK_SIZE};
use bf_interp::program::Program;

fn listing(program: &Program) -> Vec<Instruction> {
    program.as_slice().to_vec()
}

fn plain(operator: Opcode) -> Instruction {
    Instruction { operator, operand: 0 }
}

#[test]
fn empty_source_is_a_lone_terminator() {
    let program = compile(b"").unwrap();
    assert_eq!(program.len(), 1);
    assert_eq!(listing(&program), vec![plain(Opcode::End)]);
}

#[test]
fn two_increments_and_an_output() {
    let program = compile(b"++.").unwrap();
    assert_eq!(
        listing(&program),
        vec![
            plain(Opcode::IncCell),
            plain(Opcode::IncCell),
            plain(Opcode::Output),
            plain(Opcode::End),
        ]
    );
}

#[test]
fn slots_can_be_read_one_by_one() {
    let program = compile(b"+[-]").unwrap();
    assert_eq!(program.len(), 5);
    for pc in 0..program.len() {
        assert_eq!(program.get(pc), Some(program.as_slice()[pc]));
        assert_eq!(program.fetch(pc), program.as_slice()[pc]);
    }
    assert_eq!(program.get(5), None);
    assert_eq!(program.fetch(1), Instruction { operator: Opcode::JumpIfZero, operand: 3 });
}

#[test]
fn every_symbol_has_its_opcode() {
    let program = compile(b"><+-.,").unwrap();
    assert_eq!(
        listing(&program),
        vec![
            plain(Opcode::IncPtr),
            plain(Opcode::DecPtr),
            plain(Opcode::IncCell),
            plain(Opcode::DecCell),
            plain(Opcode::Output),
            plain(Opcode::Input),
            plain(Opcode::End),
        ]
    );
}

#[test]
fn empty_loop_brackets_name_each_other() {
    let program = compile(b"[]").unwrap();
    assert_eq!(
        listing(&program),
        vec![
            Instruction { operator: Opcode::JumpIfZero, operand: 1 },
            Instruction { operator: Opcode::JumpIfNonZero, operand: 0 },
            plain(Opcode::End),
        ]
    );
}

#[test]
fn nested_loops_pair_inside_out() {
    let program = compile(b"+[>[-]<[.]]").unwrap();
    let code = listing(&program);
    assert_eq!(code.len(), 12);
    assert_eq!(code[1], Instruction { operator: Opcode::JumpIfZero, operand: 10 });
    assert_eq!(code[3], Instruction { operator: Opcode::JumpIfZero, operand: 5 });
    assert_eq!(code[5], Instruction { operator: Opcode::JumpIfNonZero, operand: 3 });
    assert_eq!(code[7], Instruction { operator: Opcode::JumpIfZero, operand: 9 });
    assert_eq!(code[9], Instruction { operator: Opcode::JumpIfNonZero, operand: 7 });
    assert_eq!(code[10], Instruction { operator: Opcode::JumpIfNonZero, operand: 1 });
    assert_eq!(code[11], plain(Opcode::End));
}

#[test]
fn every_jump_is_named_back_by_its_target() {
    let program = compile(b"++[>+[>+<-]<-]>>[-[.]]").unwrap();
    let code = listing(&program);
    for (pc, ins) in code.iter().enumerate() {
        match ins.operator {
            Opcode::JumpIfZero => {
                assert!(ins.operand > pc);
                assert_eq!(code[ins.operand].operator, Opcode::JumpIfNonZero);
                assert_eq!(code[ins.operand].operand, pc);
            }
            Opcode::JumpIfNonZero => {
                assert!(ins.operand < pc);
                assert_eq!(code[ins.operand].operator, Opcode::JumpIfZero);
                assert_eq!(code[ins.operand].operand, pc);
            }
            _ => assert_eq!(ins.operand, 0),
        }
    }
}

#[test]
fn other_bytes_take_no_slot() {
    let with_comments = compile(b"add two: + +\nprint it: .\n").unwrap();
    let bare = compile(b"++.").unwrap();
    assert_eq!(listing(&with_comments), listing(&bare));
}

#[test]
fn lone_close_is_unmatched_close() {
    assert_eq!(compile(b"]").err(), Some(CompileError::UnmatchedClose));
}

#[test]
fn lone_open_is_unmatched_open() {
    assert_eq!(compile(b"[").err(), Some(CompileError::UnmatchedOpen));
}

#[test]
fn close_before_open_is_unmatched_close() {
    assert_eq!(compile(b"][").err(), Some(CompileError::UnmatchedClose));
    assert_eq!(compile(b"[]]").err(), Some(CompileError::UnmatchedClose));
}

#[test]
fn open_left_over_is_unmatched_open() {
    assert_eq!(compile(b"[[]").err(), Some(CompileError::UnmatchedOpen));
    assert_eq!(compile(b"+[-[>]").err(), Some(CompileError::UnmatchedOpen));
}

#[test]
fn nesting_up_to_the_stack_size_compiles() {
    let mut source = vec![b'['; STACK_SIZE];
    source.extend(vec![b']'; STACK_SIZE]);
    let program = compile(&source).unwrap();
    let code = listing(&program);
    assert_eq!(code.len(), 2 * STACK_SIZE + 1);
    assert_eq!(code[0].operand, 2 * STACK_SIZE - 1);
    assert_eq!(code[STACK_SIZE - 1].operand, STACK_SIZE);
    assert_eq!(code[STACK_SIZE].operand, STACK_SIZE - 1);
}

#[test]
fn nesting_beyond_the_stack_size_overflows() {
    let mut source = vec![b'['; STACK_SIZE + 1];
    source.extend(vec![b']'; STACK_SIZE + 1]);
    assert_eq!(compile(&source).err(), Some(CompileError::StackOverflow));
}

#[test]
fn largest_program_fills_the_store() {
    let source = vec![b'+'; PROGRAM_SIZE - 1];
    let program = compile(&source).unwrap();
    assert_eq!(program.len(), PROGRAM_SIZE);
    assert_eq!(program.get(PROGRAM_SIZE - 1), Some(plain(Opcode::End)));
    assert_eq!(program.get(PROGRAM_SIZE), None);
}

#[test]
fn no_room_for_the_terminator_is_too_large() {
    let source = vec![b'+'; PROGRAM_SIZE];
    assert_eq!(compile(&source).err(), Some(CompileError::ProgramTooLarge));
}

#[test]
fn more_symbols_than_slots_is_too_large() {
    let source = vec![b'.'; PROGRAM_SIZE + 1];
    assert_eq!(compile(&source).err(), Some(CompileError::ProgramTooLarge));
}

#[test]
fn comments_do_not_count_towards_the_size() {
    let mut source = vec![b' '; 3 * PROGRAM_SIZE];
    source.extend(vec![b'-'; PROGRAM_SIZE - 1]);
    assert_eq!(compile(&source).unwrap().len(), PROGRAM_SIZE);
}

#[test]
fn bracket_errors_come_before_the_size_error() {
    let mut source = vec![b'+'; PROGRAM_SIZE];
    source.push(b']');
    assert_eq!(compile(&source).err(), Some(CompileError::UnmatchedClose));

    let mut source = vec![b'+'; PROGRAM_SIZE - 1];
    source.push(b'[');
    assert_eq!(compile(&source).err(), Some(CompileError::UnmatchedOpen));

    let mut source = vec![b'+'; PROGRAM_SIZE];
    source.push(b'[');
    assert_eq!(compile(&source).err(), Some(CompileError::ProgramTooLarge));
}

#[test]
fn compiling_twice_gives_the_same_program() {
    let source = b"++[>+++[>++<-]<-]>>.";
    let first = compile(source).unwrap();
    let second = compile(source).unwrap();
    assert_eq!(listing(&first), listing(&second));
    assert_eq!(compile(b"[[").err(), compile(b"[[").err());
}

#[test]
fn feeding_byte_by_byte_matches_compile() {
    let source = b"+[>,.<-] done";
    let mut compiler = Compiler::new();
    for byte in source.iter() {
        assert_eq!(compiler.feed(*byte), Ok(()));
    }
    let streamed = compiler.finish().unwrap();
    assert_eq!(listing(&streamed), listing(&compile(source).unwrap()));
}

#[test]
fn a_refused_symbol_leaves_the_compiler_usable() {
    let mut compiler = Compiler::new();
    assert_eq!(compiler.feed(b']'), Err(CompileError::UnmatchedClose));
    assert_eq!(compiler.feed(b'+'), Ok(()));
    let program = compiler.finish().unwrap();
    assert_eq!(listing(&program), vec![plain(Opcode::IncCell), plain(Opcode::End)]);
}

#[test]
fn finishing_with_an_open_loop_fails() {
    let mut compiler = Compiler::new();
    assert_eq!(compiler.feed(b'['), Ok(()));
    assert_eq!(compiler.finish().err(), Some(CompileError::UnmatchedOpen));
}

/// A small linear congruential generator, so that the sources below are
/// the same on every run.
fn next_random(state: &mut u64) -> u64 {
    *state = state.wrapping_mul(6364136223846793005).wrapping_add(1442695040888963407);
    *state >> 33
}

/// Pairs the brackets of a source by looking, for each loop start, for the
/// loop end that brings the depth back down. `None` where a bracket has no
/// partner.
fn pair_by_counting(symbols: &[u8]) -> Option<Vec<usize>> {
    let mut partner = vec![0; symbols.len()];
    for open in 0..symbols.len() {
        if symbols[open] != b'[' {
            continue;
        }
        let mut depth = 0usize;
        let mut close = None;
        for at in open..symbols.len() {
            match symbols[at] {
                b'[' => depth += 1,
                b']' => depth -= 1,
                _ => {}
            }
            if depth == 0 {
                close = Some(at);
                break;
            }
        }
        let close = close?;
        partner[open] = close;
        partner[close] = open;
    }
    let opens = symbols.iter().filter(|byte| **byte == b'[').count();
    let closes = symbols.iter().filter(|byte| **byte == b']').count();
    if opens == closes {
        Some(partner)
    } else {
        None
    }
}

#[test]
fn jump_targets_agree_with_pairing_by_counting() {
    let alphabet = b"><+-.,[] \n#";
    let mut state = 2024;
    let mut compiled = 0;
    for round in 0..2000 {
        let len = (next_random(&mut state) % 40) as usize;
        let mut source = Vec::new();
        for _ in 0..len {
            let pick = if round % 2 == 0 {
                next_random(&mut state) % alphabet.len() as u64
            } else {
                // Favour brackets, so that deep nesting shows up.
                6 + next_random(&mut state) % 3
            };
            source.push(alphabet[pick as usize]);
        }
        let symbols: Vec<u8> =
            source.iter().copied().filter(|byte| b"><+-.,[]".contains(byte)).collect();
        match (compile(&source), pair_by_counting(&symbols)) {
            (Ok(program), Some(partner)) => {
                compiled += 1;
                let code = listing(&program);
                assert_eq!(code.len(), symbols.len() + 1);
                for (slot, symbol) in symbols.iter().enumerate() {
                    assert_eq!(code[slot].operand, partner[slot]);
                    assert_eq!(Some(code[slot].operator), bf_interp::syntax::decode(*symbol));
                }
                assert_eq!(code[symbols.len()], plain(Opcode::End));
            }
            (Err(error), None) => {
                assert!(
                    error == CompileError::UnmatchedOpen || error == CompileError::UnmatchedClose
                );
            }
            (got, expected) => panic!(
                "source {:?}: compiled to {:?}, pairing gave {:?}",
                source, got, expected
            ),
        }
    }
    assert!(compiled > 100);
}
