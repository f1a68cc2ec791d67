use mcs48::{I8048Error, I8048cpu};

fn cpu_with(lines: &[&str]) -> I8048cpu {
    let mut cpu = I8048cpu::new();
    for line in lines {
        cpu.push_instruction(line.to_string());
    }
    cpu
}

#[test]
fn new_machine_is_cleared() {
    let mut cpu = I8048cpu::new();
    assert_eq!(cpu.accumulator(), 0);
    assert_eq!(cpu.pc(), 0);
    assert_eq!(cpu.active_register_bank(), 0);
    assert_eq!(cpu.registers1(), [0; 8]);
    assert_eq!(cpu.registers2(), [0; 8]);
    assert_eq!(*cpu.get_active_registers_bank(), [0; 8]);
}

#[test]
fn writes_through_the_active_bank() {
    let mut cpu = I8048cpu::new();
    cpu.get_active_registers_bank()[3] = 9;
    assert_eq!(cpu.registers1()[3], 9);
    cpu.push_instruction("SEL RB1".to_string());
    _ = cpu.run();
    cpu.get_active_registers_bank()[3] = 4;
    assert_eq!(cpu.registers1()[3], 9);
    assert_eq!(cpu.registers2()[3], 4);
}

#[test]
fn run_ends_past_the_program() {
    let mut cpu = cpu_with(&["MOV A, #9", "INC A", "MOV R1, A"]);
    assert_eq!(cpu.run(), Ok(()));
    // 2 + 1 + 1 bytes
    assert_eq!(cpu.pc(), 4);
    assert_eq!(cpu.accumulator(), 10);
    assert_eq!(cpu.registers1()[1], 10);
}

#[test]
fn only_the_active_bank_is_written() {
    let mut cpu = cpu_with(&["MOV R2, #7", "SEL RB1", "MOV R2, #5", "INC R2", "SEL RB0", "DEC R2"]);
    assert_eq!(cpu.run(), Ok(()));
    assert_eq!(cpu.registers1()[2], 6);
    assert_eq!(cpu.registers2()[2], 6);
    let mut cpu = cpu_with(&["SEL RB1", "MOV R0, #1", "SEL RB0"]);
    assert_eq!(cpu.run(), Ok(()));
    assert_eq!(cpu.registers1(), [0; 8]);
    assert_eq!(cpu.registers2(), [1, 0, 0, 0, 0, 0, 0, 0]);
}

#[test]
fn inc_then_dec_restores() {
    let mut cpu = cpu_with(&["MOV A, #200", "MOV R3, #77", "INC A", "DEC A", "INC R3", "DEC R3"]);
    assert_eq!(cpu.run(), Ok(()));
    assert_eq!(cpu.accumulator(), 200);
    assert_eq!(cpu.registers1()[3], 77);
}

#[test]
fn mnemonics_ignore_case() {
    let mut cpu = cpu_with(&["mov a, #3", "Add A, #4", "sel rb1", "MoV r0, a"]);
    assert_eq!(cpu.run(), Ok(()));
    assert_eq!(cpu.accumulator(), 7);
    assert_eq!(cpu.registers2()[0], 7);
}

#[test]
fn unknown_instruction_stops_the_run() {
    let mut cpu = cpu_with(&["INC A", "NOP", "INC A"]);
    assert_eq!(cpu.run(), Err(I8048Error::InvalidInstruction("NOP".to_string())));
    // the counter has moved past the failing instruction, nothing else changed
    assert_eq!(cpu.pc(), 2);
    assert_eq!(cpu.accumulator(), 1);
}

#[test]
fn bad_operands_are_refused() {
    let mut cpu = cpu_with(&["ADD B, #1"]);
    assert_eq!(cpu.run(), Err(I8048Error::InvalidOperand("B".to_string())));
    let mut cpu = cpu_with(&["MOV A, X"]);
    assert_eq!(cpu.run(), Err(I8048Error::InvalidOperand("X".to_string())));
    let mut cpu = cpu_with(&["SEL RB2"]);
    assert_eq!(cpu.run(), Err(I8048Error::InvalidOperand("RB2".to_string())));
    let mut cpu = cpu_with(&["DEC X"]);
    assert_eq!(cpu.run(), Err(I8048Error::InvalidOperand("X".to_string())));
    let mut cpu = cpu_with(&["JMP X"]);
    assert_eq!(cpu.run(), Err(I8048Error::InvalidOperand("X".to_string())));
    let mut cpu = cpu_with(&["MOV R8, A"]);
    assert_eq!(cpu.run(), Err(I8048Error::InvalidRegister("8".to_string())));
}

#[test]
fn bad_data_is_reported_before_a_bad_register() {
    let mut cpu = cpu_with(&["MOV R9, #ZZ"]);
    assert_eq!(cpu.run(), Err(I8048Error::InvalidOperand("#ZZ".to_string())));
    let mut cpu = cpu_with(&["MOV R9, #1"]);
    assert_eq!(cpu.run(), Err(I8048Error::InvalidRegister("9".to_string())));
}

#[test]
fn indirect_and_memory_bank_forms_do_nothing() {
    let mut cpu = cpu_with(&["MOV A, @R0", "MOV R1, @R0", "SEL MB0", "SEL MB1"]);
    assert_eq!(cpu.run(), Ok(()));
    assert_eq!(cpu.accumulator(), 0);
    assert_eq!(cpu.registers1(), [0; 8]);
}

#[test]
fn jump_to_an_instruction_start() {
    // addresses: 0 MOV A,#1 (2 bytes), 2 JMP 4, 3 INC A, 4 INC A
    let mut cpu = cpu_with(&["MOV A, #1", "JMP 4", "INC A", "INC A"]);
    assert_eq!(cpu.run(), Ok(()));
    assert_eq!(cpu.accumulator(), 2);
    assert_eq!(cpu.pc(), 5);
}

#[test]
fn jump_into_the_middle_of_an_instruction_is_refused() {
    let mut cpu = cpu_with(&["MOV A, #1", "JMP +1"]);
    assert_eq!(cpu.run(), Err(I8048Error::InvalidAddress("1".to_string())));
    let mut cpu = cpu_with(&["JMP 300"]);
    assert_eq!(cpu.run(), Err(I8048Error::InvalidAddress("300".to_string())));
}

#[test]
fn jump_back_loops_step_by_step() {
    let mut cpu = cpu_with(&["INC A", "JMP 0"]);
    for _ in 0..6 {
        assert_eq!(cpu.step(), Ok(true));
    }
    assert_eq!(cpu.accumulator(), 3);
    assert_eq!(cpu.pc(), 0);
}

#[test]
fn step_reports_halt() {
    let mut cpu = cpu_with(&["INC A"]);
    assert_eq!(cpu.step(), Ok(true));
    assert_eq!(cpu.step(), Ok(false));
    assert_eq!(cpu.pc(), 1);
}

#[test]
fn overflow_is_detected_before_the_step() {
    let mut cpu = cpu_with(&["MOV A, #255", "INC A"]);
    assert!(!cpu.next_step_overflows());
    assert_eq!(cpu.step(), Ok(true));
    assert!(cpu.next_step_overflows());

    let mut cpu = cpu_with(&["DEC R0"]);
    assert!(cpu.next_step_overflows());

    let mut cpu = cpu_with(&["MOV A, #200", "ADD A, #56", "ADD A, #0"]);
    assert_eq!(cpu.step(), Ok(true));
    assert!(cpu.next_step_overflows());

    let mut cpu = cpu_with(&["MOV A, #200", "ADD A, #55", "ADD A, R0"]);
    assert_eq!(cpu.step(), Ok(true));
    assert!(!cpu.next_step_overflows());
    assert_eq!(cpu.step(), Ok(true));
    assert!(!cpu.next_step_overflows());
}

#[test]
fn appended_instruction_starts_where_the_program_ended() {
    let mut cpu = cpu_with(&["MOV A, #1", "INC A"]);
    assert_eq!(cpu.get_taken_memory(), 3);
    cpu.push_instruction("MOV R0, #2".to_string());
    assert_eq!(cpu.get_taken_memory(), 5);
    assert_eq!(cpu.get_instruction_address(3), Ok(2));
    assert_eq!(cpu.get_instruction_address(0), Ok(0));
    assert_eq!(cpu.get_instruction_address(2), Ok(1));
    assert_eq!(cpu.get_instruction_address(1), Err(I8048Error::InvalidAddress("1".to_string())));
    assert_eq!(cpu.instruction_text(2), "MOV R0, #2");
}

#[test]
fn register_reads_back_what_mov_wrote() {
    let mut cpu = cpu_with(&["MOV R3, #0AH", "MOV A, R3"]);
    assert_eq!(cpu.run(), Ok(()));
    assert_eq!(cpu.accumulator(), 10);
}

fn snapshot(cpu: &I8048cpu) -> ([u8; 8], [u8; 8], u8, u8, usize) {
    (cpu.registers1(), cpu.registers2(), cpu.active_register_bank(), cpu.accumulator(), cpu.pc())
}

#[test]
fn decoding_ignores_case_and_extra_spaces() {
    let mut a = cpu_with(&["mov a, #5", "Mov R2, a", "inc r2"]);
    let mut b = cpu_with(&["MOV   A ,  # 5", "mOV R 2,A  ", "INC  R2"]);
    assert_eq!(a.run(), Ok(()));
    assert_eq!(b.run(), Ok(()));
    assert_eq!(snapshot(&a), snapshot(&b));
    assert_eq!(a.registers1()[2], 6);
}

#[test]
fn jump_free_run_ends_exactly_past_the_program() {
    let mut cpu = cpu_with(&["MOV A, #1", "SEL RB1", "MOV R0, #2", "ADD A, R0"]);
    assert_eq!(cpu.run(), Ok(()));
    assert_eq!(cpu.pc(), cpu.get_taken_memory());
    assert_eq!(cpu.pc(), 6);
    assert_eq!(cpu.accumulator(), 3);
}

#[test]
fn jump_free_run_stops_just_past_the_failing_line() {
    let mut cpu = cpu_with(&["MOV A, #1", "INC R9", "MOV A, #7"]);
    assert_eq!(cpu.run(), Err(I8048Error::InvalidRegister("9".to_string())));
    assert_eq!(cpu.pc(), 3);
    assert_eq!(cpu.accumulator(), 1);
}

#[test]
fn failed_mov_changes_nothing() {
    let mut cpu = cpu_with(&["MOV A, #3"]);
    assert_eq!(cpu.run(), Ok(()));
    let before = snapshot(&cpu);
    assert_eq!(cpu.ins_mov(("R9", "#1")), Err(I8048Error::InvalidRegister("9".to_string())));
    assert_eq!(cpu.ins_mov(("A", "Q")), Err(I8048Error::InvalidOperand("Q".to_string())));
    assert_eq!(snapshot(&cpu), before);
}

#[test]
fn mov_touches_only_its_target() {
    let mut cpu = I8048cpu::new();
    assert_eq!(cpu.ins_mov(("R5", "#9")), Ok(()));
    assert_eq!(cpu.registers1(), [0, 0, 0, 0, 0, 9, 0, 0]);
    assert_eq!(cpu.registers2(), [0; 8]);
    assert_eq!(cpu.accumulator(), 0);
    assert_eq!(cpu.ins_mov(("A", "R5")), Ok(()));
    assert_eq!(cpu.accumulator(), 9);
    assert_eq!(cpu.registers1(), [0, 0, 0, 0, 0, 9, 0, 0]);
}

#[test]
fn dec_after_inc_restores_the_machine() {
    let mut cpu = cpu_with(&["MOV R1, #40"]);
    assert_eq!(cpu.run(), Ok(()));
    let before = snapshot(&cpu);
    assert_eq!(cpu.ins_inc(("R1", "")), Ok(()));
    assert_eq!(cpu.ins_dec(("R1", "")), Ok(()));
    assert_eq!(snapshot(&cpu), before);
    assert_eq!(cpu.ins_inc(("a", "")), Ok(()));
    assert_eq!(cpu.ins_dec(("A", "")), Ok(()));
    assert_eq!(snapshot(&cpu), before);
}

#[test]
fn decoder_dispatches_on_the_mnemonic() {
    let mut a = I8048cpu::new();
    let mut b = I8048cpu::new();
    assert_eq!(a.parse_instruction("Add a, #12".to_string()), b.ins_add(("a", "#12")));
    assert_eq!(snapshot(&a), snapshot(&b));
    assert_eq!(a.parse_instruction("sel RB1".to_string()), b.ins_sel(("RB1", "")));
    assert_eq!(snapshot(&a), snapshot(&b));
    assert_eq!(
        a.parse_instruction("NOP A".to_string()),
        Err(I8048Error::InvalidInstruction("NOP".to_string()))
    );
}
