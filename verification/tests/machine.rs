use std::collections::HashMap;
use zonary::error::ZonaryError;
use zonary::vm::{Action, Instruction, VM};

/// Runs the program to its end, feeding the given input lines, and returns
/// the printed text, the final action's text and the machine.
fn run(bw: u8, prog: &[Instruction], labels: &HashMap<u64, usize>, input: &[&str]) -> (String, String, VM) {
    let mut vm = VM::new(bw);
    let mut out = String::new();
    let mut lines = input.iter();
    for _ in 0..10_000 {
        match vm.execute(prog, labels).unwrap() {
            Action::Continue => {}
            Action::Print(t) => out.push_str(&t),
            Action::LabelNotFound(l) => out.push_str(&format!("<missing {}>", l)),
            Action::Read { reg, mode } => {
                let line = lines.next().unwrap();
                vm.store_input(reg, mode, line).unwrap();
            }
            Action::Sleep(ms) => out.push_str(&format!("<sleep {}>", ms)),
            Action::Exit(t) | Action::Finished(t) => return (out, t, vm),
        }
    }
    panic!("program did not end");
}

fn out_reg(reg: u64, mode: u8) -> Instruction {
    Instruction::Out { param: reg, mode1: mode, mode2: 1 }
}

#[test]
fn assign_truncates_to_bit_width() {
    let prog = [Instruction::Assign { reg: 1, param: 300, mode: 0 }, out_reg(1, 1)];
    let (out, end, vm) = run(8, &prog, &HashMap::new(), &[]);
    assert_eq!(out, "44");
    assert_eq!(end, "00000000");
    assert_eq!(vm.get_return_code(), 0);
}

#[test]
fn assign_from_register() {
    let prog = [
        Instruction::Assign { reg: 1, param: 77, mode: 0 },
        Instruction::Assign { reg: 2, param: 1, mode: 1 },
        out_reg(2, 1),
    ];
    assert_eq!(run(8, &prog, &HashMap::new(), &[]).0, "77");
}

#[test]
fn add_wraps_around() {
    let prog = [
        Instruction::Assign { reg: 1, param: 250, mode: 0 },
        Instruction::Add { reg_a: 1, param: 10, mode: 0 },
        out_reg(1, 1),
    ];
    assert_eq!(run(8, &prog, &HashMap::new(), &[]).0, "4");
}

#[test]
fn sub_wraps_around() {
    let prog = [
        Instruction::Assign { reg: 1, param: 3, mode: 0 },
        Instruction::Sub { reg_a: 1, param: 5, mode: 0 },
        out_reg(1, 1),
        Instruction::Assign { reg: 2, param: 9, mode: 0 },
        Instruction::Sub { reg_a: 2, param: 1, mode: 1 },
        out_reg(2, 1),
    ];
    assert_eq!(run(8, &prog, &HashMap::new(), &[]).0, "25411");
}

#[test]
fn law_add_then_sub_example() {
    let prog = [
        Instruction::Assign { reg: 7, param: 200, mode: 0 },
        Instruction::Add { reg_a: 7, param: 100, mode: 0 },
        Instruction::Sub { reg_a: 7, param: 100, mode: 0 },
        out_reg(7, 1),
        Instruction::Sub { reg_a: 7, param: 250, mode: 0 },
        Instruction::Add { reg_a: 7, param: 250, mode: 0 },
        out_reg(7, 1),
    ];
    assert_eq!(run(8, &prog, &HashMap::new(), &[]).0, "200200");
}

#[test]
fn wide_registers() {
    let prog = [
        Instruction::Assign { reg: 1, param: u64::MAX, mode: 0 },
        Instruction::Add { reg_a: 1, param: u64::MAX, mode: 0 },
        out_reg(1, 1),
        Instruction::Out { param: 1, mode1: 2, mode2: 1 },
    ];
    let (out, end, _) = run(100, &prog, &HashMap::new(), &[]);
    assert_eq!(out, "36893488147419103230000000001FFFFFFFFFFFFFFFE");
    assert_eq!(end.len(), 100);
}

#[test]
fn output_modes() {
    let prog = [
        Instruction::Out { param: 5, mode1: 0, mode2: 0 },
        Instruction::Out { param: 200, mode1: 1, mode2: 0 },
        Instruction::Out { param: 200, mode1: 2, mode2: 0 },
        Instruction::Out { param: 10, mode1: 2, mode2: 0 },
        Instruction::Out { param: 65, mode1: 3, mode2: 0 },
        Instruction::Out { param: 7, mode1: 3, mode2: 0 },
        Instruction::Out { param: 127, mode1: 3, mode2: 0 },
    ];
    assert_eq!(run(8, &prog, &HashMap::new(), &[]).0, "00000101200C80AA\\x07\\x7F");
}

#[test]
fn output_truncates_immediates() {
    let prog = [Instruction::Out { param: 257, mode1: 1, mode2: 0 }];
    assert_eq!(run(8, &prog, &HashMap::new(), &[]).0, "1");
}

#[test]
fn output_hex_width() {
    let prog = [Instruction::Out { param: 3, mode1: 2, mode2: 0 }];
    assert_eq!(run(10, &prog, &HashMap::new(), &[]).0, "003");
}

#[test]
fn invalid_output_mode() {
    let mut vm = VM::new(8);
    let prog = [Instruction::Out { param: 1, mode1: 4, mode2: 0 }];
    assert!(matches!(
        vm.execute(&prog, &HashMap::new()),
        Err(ZonaryError::InvalidOutputMode(4))
    ));
}

#[test]
fn jumps_and_labels() {
    // r1 = 3; label 1: print r1; r1 -= 1; if r1 == 0 goto 2; goto 1; label 2
    let prog = [
        Instruction::Assign { reg: 1, param: 3, mode: 0 },
        Instruction::Jmp { param: 1, def: true, use_register: false },
        out_reg(1, 1),
        Instruction::Sub { reg_a: 1, param: 1, mode: 0 },
        Instruction::Ifz { reg: 1, param: 2, mode: 0 },
        Instruction::Jmp { param: 1, def: false, use_register: false },
        Instruction::Jmp { param: 2, def: true, use_register: false },
    ];
    let mut labels = HashMap::new();
    labels.insert(1u64, 1usize);
    labels.insert(2u64, 6usize);
    assert_eq!(run(8, &prog, &labels, &[]).0, "321");
}

#[test]
fn jump_through_register() {
    let prog = [
        Instruction::Assign { reg: 9, param: 5, mode: 0 },
        Instruction::Jmp { param: 9, def: false, use_register: true },
        Instruction::Out { param: 1, mode1: 1, mode2: 0 },
        Instruction::Jmp { param: 5, def: true, use_register: false },
        Instruction::Out { param: 2, mode1: 1, mode2: 0 },
        Instruction::Ifz { reg: 4, param: 6, mode: 1 },
    ];
    let mut labels = HashMap::new();
    labels.insert(5u64, 3usize);
    assert_eq!(run(8, &prog, &labels, &[]).0, "2<missing 0>");
}

#[test]
fn missing_label_is_skipped() {
    let prog = [
        Instruction::Jmp { param: 42, def: false, use_register: false },
        Instruction::Out { param: 1, mode1: 1, mode2: 0 },
    ];
    assert_eq!(run(8, &prog, &HashMap::new(), &[]).0, "<missing 42>1");
}

#[test]
fn ifz_on_nonzero_falls_through() {
    let prog = [
        Instruction::Assign { reg: 1, param: 1, mode: 0 },
        Instruction::Ifz { reg: 1, param: 3, mode: 0 },
        Instruction::Out { param: 1, mode1: 1, mode2: 0 },
    ];
    assert_eq!(run(8, &prog, &HashMap::new(), &[]).0, "1");
}

#[test]
fn sys_exit_and_sleep() {
    let prog = [
        Instruction::Sys { param: 5, mode: 1 },
        Instruction::Sys { param: 0, mode: 1 },
        Instruction::Sys { param: 3, mode: 0 },
        Instruction::Out { param: 1, mode1: 1, mode2: 0 },
    ];
    let (out, end, vm) = run(8, &prog, &HashMap::new(), &[]);
    assert_eq!(out, "<sleep 5>");
    assert_eq!(end, "00000011");
    assert_eq!(vm.get_return_code(), 3);
}

#[test]
fn sys_exit_code_wraps_to_i32() {
    let prog = [Instruction::Sys { param: 0x1_0000_0002, mode: 0 }];
    let (_, end, vm) = run(8, &prog, &HashMap::new(), &[]);
    assert_eq!(end, "00000010");
    assert_eq!(vm.get_return_code(), 2);
}

#[test]
fn finished_program() {
    let (out, end, vm) = run(8, &[], &HashMap::new(), &[]);
    assert_eq!(out, "");
    assert_eq!(end, "00000000");
    assert_eq!(vm.get_return_code(), 0);
}

#[test]
fn zero_bit_width_machine() {
    let prog = [Instruction::Assign { reg: 1, param: 5, mode: 0 }, out_reg(1, 0)];
    let (out, end, _) = run(0, &prog, &HashMap::new(), &[]);
    assert_eq!(out, "0");
    assert_eq!(end, "0");
}

#[test]
fn input_modes() {
    let prog = [
        Instruction::Inp { reg: 1, mode: 0 },
        out_reg(1, 1),
        Instruction::Inp { reg: 1, mode: 0 },
        out_reg(1, 1),
        Instruction::Inp { reg: 1, mode: 1 },
        out_reg(1, 1),
        Instruction::Inp { reg: 1, mode: 1 },
        out_reg(1, 1),
        Instruction::Inp { reg: 1, mode: 1 },
        out_reg(1, 1),
        Instruction::Inp { reg: 1, mode: 1 },
        out_reg(1, 1),
        Instruction::Inp { reg: 1, mode: 2 },
        out_reg(1, 1),
        Instruction::Inp { reg: 1, mode: 2 },
        out_reg(1, 1),
        Instruction::Inp { reg: 1, mode: 2 },
        out_reg(1, 1),
        Instruction::Inp { reg: 1, mode: 3 },
        out_reg(1, 1),
        Instruction::Inp { reg: 1, mode: 3 },
        out_reg(1, 1),
        Instruction::Inp { reg: 1, mode: 1 },
        out_reg(1, 1),
    ];
    let input = [
        "00001010\n", // 10
        "1010\n",     // wrong length: 0
        "  42 \n",    // 42
        "+4_2\n",     // 42
        "300\n",      // 300 cut to 44
        "abc\n",      // 0
        "fF\n",       // 255
        "0000ff\n",   // 255
        "fff\n",      // too many digits: 0
        "A\n",        // 65
        "\n",         // empty: 0
        "",           // empty: 0
    ];
    assert_eq!(run(8, &prog, &HashMap::new(), &input).0, "100424244025525506500");
}

#[test]
fn invalid_input_mode() {
    let mut vm = VM::new(8);
    assert!(matches!(vm.store_input(1, 4, "12\n"), Err(ZonaryError::InvalidInputMode(4))));
    assert!(vm.store_input(1, 4, "  \n").is_ok());
}

#[test]
fn law_output_input_roundtrip_examples() {
    for &bw in [1u8, 5, 8, 13, 70].iter() {
        for &v in [0u64, 1, 9, 10, 15, 16, 31].iter() {
            for mode in 0u8..3 {
                let mask = if bw >= 64 { u64::MAX } else { (1u64 << bw) - 1 };
                let v = v & mask;
                let prog = [
                    Instruction::Assign { reg: 1, param: v, mode: 0 },
                    out_reg(1, mode),
                    Instruction::Inp { reg: 2, mode },
                    out_reg(2, 1),
                ];
                let mut vm = VM::new(bw);
                let labels = HashMap::new();
                vm.execute(&prog, &labels).unwrap();
                let printed = match vm.execute(&prog, &labels).unwrap() {
                    Action::Print(t) => t,
                    _ => panic!("expected output"),
                };
                assert!(matches!(vm.execute(&prog, &labels).unwrap(), Action::Read { reg: 2, mode: m } if m == mode));
                vm.store_input(2, mode, &printed).unwrap();
                match vm.execute(&prog, &labels).unwrap() {
                    Action::Print(t) => assert_eq!(t, v.to_string()),
                    _ => panic!("expected output"),
                }
            }
        }
    }
    let mut vm = VM::new(8);
    vm.store_input(3, 3, "~").unwrap();
    let prog = [out_reg(3, 3)];
    assert!(matches!(vm.execute(&prog, &HashMap::new()).unwrap(), Action::Print(t) if t == "~"));
}

#[test]
fn cleared_register_reads_zero() {
    let prog = [
        Instruction::Assign { reg: 1, param: 5, mode: 0 },
        Instruction::Sub { reg_a: 1, param: 5, mode: 0 },
        Instruction::Ifz { reg: 1, param: 8, mode: 0 },
        Instruction::Out { param: 9, mode1: 1, mode2: 0 },
        Instruction::Jmp { param: 8, def: true, use_register: false },
        out_reg(1, 0),
    ];
    let mut labels = HashMap::new();
    labels.insert(8u64, 4usize);
    assert_eq!(run(8, &prog, &labels, &[]).0, "00000000");
}
