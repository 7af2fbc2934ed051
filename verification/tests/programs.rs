use zonary::error::ZonaryError;
use zonary::interpreter::Interpreter;
use zonary::vm::{Action, Instruction};

fn bits(v: u64, n: usize) -> String {
    (0..n).rev().map(|i| if i < 64 && (v >> i) & 1 == 1 { '1' } else { '0' }).collect()
}

fn set(bw: usize, reg: u64, param: u64, mode: u64) -> String {
    format!("000 {} {} {}\n", bits(reg, bw), bits(param, bw), bits(mode, 1))
}

fn add(bw: usize, reg: u64, param: u64, mode: u64) -> String {
    format!("001 {} {} {}\n", bits(reg, bw), bits(param, bw), bits(mode, 1))
}

fn sub(bw: usize, reg: u64, param: u64, mode: u64) -> String {
    format!("010 {} {} {}\n", bits(reg, bw), bits(param, bw), bits(mode, 1))
}

fn jmp(bw: usize, param: u64, def: u64, use_register: u64) -> String {
    format!("011 {} {}{}\n", bits(param, bw), bits(def, 1), bits(use_register, 1))
}

fn ifz(bw: usize, reg: u64, param: u64, mode: u64) -> String {
    format!("100 {} {} {}\n", bits(reg, bw), bits(param, bw), bits(mode, 1))
}

fn out(bw: usize, param: u64, mode1: u64, mode2: u64) -> String {
    format!("101 {} {} {}\n", bits(param, bw), bits(mode1, 2), bits(mode2, 1))
}

fn inp(bw: usize, reg: u64, mode: u64) -> String {
    format!("110 {} {}\n", bits(reg, bw), bits(mode, 2))
}

fn sys(bw: usize, param: u64, mode: u64) -> String {
    format!("111 {} {}\n", bits(param, bw), bits(mode, 1))
}

/// Runs a program to its end with the given input lines: the printed text,
/// the exit-code text and the exit code.
fn execute(interp: &mut Interpreter, source: &str, input: &[&str]) -> Result<(String, String, i32), ZonaryError> {
    let mut vm = interp.run(source)?;
    let mut printed = String::new();
    let mut lines = input.iter();
    for _ in 0..10_000 {
        match interp.step(&mut vm)? {
            Action::Continue => {}
            Action::Print(t) => printed.push_str(&t),
            Action::LabelNotFound(l) => printed.push_str(&format!("<missing {}>", l)),
            Action::Read { reg, mode } => vm.store_input(reg, mode, lines.next().unwrap())?,
            Action::Sleep(ms) => printed.push_str(&format!("<sleep {}>", ms)),
            Action::Exit(t) | Action::Finished(t) => return Ok((printed, t, vm.get_return_code())),
        }
    }
    panic!("program did not end");
}

fn run_source(source: &str, input: &[&str]) -> Result<(String, String, i32), ZonaryError> {
    execute(&mut Interpreter::new(), source, input)
}

#[test]
fn hello_program() {
    let src = format!(
        "< say hi >\n{}{}{}{}",
        set(8, 1, 72, 0),
        out(8, 1, 3, 1),
        set(8, 1, 105, 0),
        out(8, 1, 3, 1)
    );
    let (printed, end, code) = run_source(&src, &[]).unwrap();
    assert_eq!(printed, "Hi");
    assert_eq!(end, "00000000");
    assert_eq!(code, 0);
}

#[test]
fn nested_comments_and_stray_characters() {
    let src = format!(
        "<outer <inner> still a comment 101>\u{3000}xyz{}",
        out(8, 7, 1, 0)
    );
    assert_eq!(run_source(&src, &[]).unwrap().0, "7");
}

#[test]
fn custom_characters() {
    let code = out(8, 5, 1, 0).replace('0', "a").replace('1', "b");
    let src = format!("/00 01100001 01100010\n{}", code);
    assert_eq!(run_source(&src, &[]).unwrap().0, "5");
}

#[test]
fn bit_width_directive() {
    let src = format!("/01 00000100\n{}{}{}", set(4, 1, 15, 0), add(4, 1, 3, 0), out(4, 1, 0, 1));
    let mut interp = Interpreter::new();
    let (printed, end, _) = execute(&mut interp, &src, &[]).unwrap();
    assert_eq!(printed, "0010");
    assert_eq!(end, "0000");
    assert_eq!(interp.bit_width(), 4);
}

#[test]
fn run_resets_configuration() {
    let mut interp = Interpreter::new();
    execute(&mut interp, "/01 00010000\n", &[]).unwrap();
    assert_eq!(interp.bit_width(), 16);
    let (_, end, _) = execute(&mut interp, &sys(8, 0, 0), &[]).unwrap();
    assert_eq!(interp.bit_width(), 8);
    assert_eq!(end, "00000000");
}

#[test]
fn rejected_directive_stays_in_the_code() {
    // a bit width of 1 is refused, so "/01 00000001" is read as code bits
    match run_source("/01 00000001", &[]) {
        Err(ZonaryError::IncompleteInstruction { opcode: 2, position: 3 }) => {}
        _ => panic!("expected an incomplete SUB"),
    }
}

#[test]
fn decoded_instructions_and_labels() {
    let src = format!("{}{}{}", jmp(8, 3, 1, 0), sys(8, 9, 1), jmp(8, 3, 0, 1));
    let mut interp = Interpreter::new();
    interp.run(&src).unwrap();
    assert_eq!(
        interp.instructions(),
        &[
            Instruction::Jmp { param: 3, def: true, use_register: false },
            Instruction::Sys { param: 9, mode: 1 },
            Instruction::Jmp { param: 3, def: false, use_register: true },
        ][..]
    );
    assert_eq!(interp.labels().len(), 1);
    assert_eq!(interp.labels().get(&3), Some(&0));
    assert_eq!(interp.leftover_bits(), 0);
}

#[test]
fn countdown_loop() {
    let src = format!(
        "{}{}{}{}{}{}{}",
        set(8, 1, 3, 0),
        jmp(8, 1, 1, 0),
        out(8, 1, 1, 1),
        sub(8, 1, 1, 0),
        ifz(8, 1, 2, 0),
        jmp(8, 1, 0, 0),
        jmp(8, 2, 1, 0)
    );
    assert_eq!(run_source(&src, &[]).unwrap().0, "321");
}

#[test]
fn exit_code_and_sleep() {
    let src = format!("{}{}{}", sys(8, 20, 1), sys(8, 7, 0), out(8, 1, 1, 0));
    let (printed, end, code) = run_source(&src, &[]).unwrap();
    assert_eq!(printed, "<sleep 20>");
    assert_eq!(end, "00000111");
    assert_eq!(code, 7);
}

#[test]
fn input_program() {
    let src = format!("{}{}{}", inp(8, 1, 1), add(8, 1, 1, 0), out(8, 1, 2, 1));
    assert_eq!(run_source(&src, &["254\n"]).unwrap().0, "FF");
}

#[test]
fn missing_label_warning() {
    let src = format!("{}{}", jmp(8, 9, 0, 0), out(8, 1, 1, 0));
    assert_eq!(run_source(&src, &[]).unwrap().0, "<missing 9>1");
}

#[test]
fn label_defined_twice() {
    let src = format!("{}{}", jmp(8, 4, 1, 0), jmp(8, 4, 1, 0));
    assert!(matches!(run_source(&src, &[]), Err(ZonaryError::LabelAlreadyDefined(4))));
}

#[test]
fn incomplete_instructions() {
    assert!(matches!(
        run_source("000 00000001", &[]),
        Err(ZonaryError::IncompleteInstruction { opcode: 0, position: 3 })
    ));
    let src = format!("{}101 0000", sys(8, 1, 1));
    assert!(matches!(
        run_source(&src, &[]),
        Err(ZonaryError::IncompleteInstruction { opcode: 5, position: 15 })
    ));
}

#[test]
fn leftover_bits_are_ignored() {
    let src = format!("{}01", out(8, 6, 1, 0));
    let mut interp = Interpreter::new();
    let (printed, _, _) = execute(&mut interp, &src, &[]).unwrap();
    assert_eq!(printed, "6");
    assert_eq!(interp.leftover_bits(), 2);
}

#[test]
fn law_fixed_length_example() {
    let code = format!(
        "{}{}{}{}{}{}{}{}11",
        set(8, 1, 2, 0),
        add(8, 1, 2, 0),
        sub(8, 1, 2, 0),
        jmp(8, 1, 1, 0),
        ifz(8, 1, 2, 0),
        out(8, 1, 2, 0),
        inp(8, 1, 2),
        sys(8, 1, 1)
    );
    let mut interp = Interpreter::new();
    interp.run(&code).unwrap();
    let total: usize = interp
        .instructions()
        .iter()
        .map(|i| match i {
            Instruction::Jmp { .. } | Instruction::Inp { .. } => 8 + 5,
            Instruction::Out { .. } => 8 + 6,
            Instruction::Sys { .. } => 8 + 4,
            _ => 2 * 8 + 4,
        })
        .sum();
    let digits = code.chars().filter(|c| *c == '0' || *c == '1').count();
    assert_eq!(interp.instructions().len(), 8);
    assert_eq!(total + interp.leftover_bits(), digits);
    assert_eq!(interp.leftover_bits(), 2);
}

#[test]
fn law_bit_width_at_least_two_example() {
    let mut interp = Interpreter::new();
    let _ = interp.run("/01 00000000\n");
    assert_eq!(interp.bit_width(), 8);
    let _ = interp.run("/01 00000010\n");
    assert_eq!(interp.bit_width(), 2);
}

#[test]
fn law_custom_characters_example() {
    let plain = format!("{}<note: 01>{}", set(8, 3, 200, 0), out(8, 3, 2, 1));
    let custom: String = plain
        .chars()
        .map(|c| match c {
            '0' => 'o',
            '1' => 'i',
            other => other,
        })
        .collect();
    let mut a = Interpreter::new();
    let mut b = Interpreter::new();
    a.run(&plain).unwrap();
    b.run(&format!("/00 01101111 01101001\n{}", custom)).unwrap();
    assert_eq!(a.instructions(), b.instructions());
    assert_eq!(execute(&mut b, &format!("/00 01101111 01101001\n{}", custom), &[]).unwrap().0, "C8");
}

#[test]
fn new_interpreter_defaults() {
    let interp = Interpreter::new();
    assert_eq!(interp.bit_width(), 8);
    assert!(interp.instructions().is_empty());
    assert!(interp.labels().is_empty());
    assert_eq!(interp.leftover_bits(), 0);
}

#[test]
fn law_decode_encode_example() {
    let code = format!(
        "{}{}{}{}{}{}{}{}{}",
        set(8, 1, 255, 1),
        add(8, 2, 3, 0),
        sub(8, 4, 5, 1),
        jmp(8, 6, 1, 0),
        ifz(8, 7, 6, 0),
        out(8, 9, 3, 1),
        inp(8, 10, 2),
        jmp(8, 11, 1, 1),
        sys(8, 12, 0)
    );
    let mut interp = Interpreter::new();
    interp.run(&code).unwrap();
    assert_eq!(
        interp.instructions(),
        &[
            Instruction::Assign { reg: 1, param: 255, mode: 1 },
            Instruction::Add { reg_a: 2, param: 3, mode: 0 },
            Instruction::Sub { reg_a: 4, param: 5, mode: 1 },
            Instruction::Jmp { param: 6, def: true, use_register: false },
            Instruction::Ifz { reg: 7, param: 6, mode: 0 },
            Instruction::Out { param: 9, mode1: 3, mode2: 1 },
            Instruction::Inp { reg: 10, mode: 2 },
            Instruction::Jmp { param: 11, def: true, use_register: true },
            Instruction::Sys { param: 12, mode: 0 },
        ][..]
    );
    assert_eq!(interp.labels().len(), 2);
    assert_eq!(interp.labels().get(&6), Some(&3));
    assert_eq!(interp.labels().get(&11), Some(&7));
    assert_eq!(interp.leftover_bits(), 0);
}
