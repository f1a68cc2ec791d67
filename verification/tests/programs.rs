use mcs48::I8048cpu;

#[test]
fn test_mov_immediate_to_accumulator() {
    let mut cpu = I8048cpu::new();

    cpu.push_instruction("MOV A, #9".to_string());

    _ = cpu.run();
    assert_eq!(cpu.accumulator(), 9);
}

#[test]
fn test_mov_accumulator_to_register() {
    let mut cpu = I8048cpu::new();

    cpu.push_instruction("MOV A, #42".to_string());
    cpu.push_instruction("MOV R7, A".to_string());
    _ = cpu.run();
    assert_eq!(cpu.get_active_registers_bank()[7], 42);
}

#[test]
fn test_mov_register_to_accumulator() {
    let mut cpu = I8048cpu::new();
    cpu.push_instruction("MOV R4, #15".to_string());
    cpu.push_instruction("MOV A, R4".to_string());
    _ = cpu.run();
    assert_eq!(cpu.accumulator(), 15);
}

#[test]
fn test_mov_decimal_data() {
    let mut cpu = I8048cpu::new();

    cpu.push_instruction("MOV A, #14".to_string());
    _ = cpu.run();
    assert_eq!(cpu.accumulator(), 14);
}

#[test]
fn test_mov_hex_data() {
    let mut cpu = I8048cpu::new();

    cpu.push_instruction("MOV R4, #FAH".to_string());
    _ = cpu.run();
    assert_eq!(cpu.get_active_registers_bank()[4], 0xFA);
}

#[test]
fn test_mov_binary_data() {
    let mut cpu = I8048cpu::new();

    cpu.push_instruction("MOV A, #0101B".to_string());
    _ = cpu.run();
    assert_eq!(cpu.accumulator(), 5);
}

#[test]
fn test_multiple_instructions() {
    let mut cpu = I8048cpu::new();

    cpu.push_instruction("MOV A, #15".to_string());
    cpu.push_instruction("MOV R1, A".to_string());
    _ = cpu.run();
    assert_eq!(cpu.accumulator(), 15);
    assert_eq!(cpu.get_active_registers_bank()[1], 15);
}

#[test]
fn test_register_banks() {
    let mut cpu = I8048cpu::new();

    // bank register 1, R1=15
    cpu.push_instruction("MOV A, #15".to_string());
    cpu.push_instruction("MOV R1, A".to_string());
    _ = cpu.run();
    assert_eq!(cpu.get_active_registers_bank()[1], 15);
    // bank register 2, R1 = 16
    cpu.push_instruction("SEL RB1".to_string());
    cpu.push_instruction("MOV A, #16".to_string());
    cpu.push_instruction("MOV R1, A".to_string());
    _ = cpu.run();
    assert_eq!(cpu.get_active_registers_bank()[1], 16);
}

#[test]
fn test_add_register_to_accumulator() {
    let mut cpu = I8048cpu::new();

    // A = 15, add it to R1
    cpu.push_instruction("MOV A, #15".to_string());
    cpu.push_instruction("MOV R1, A".to_string());
    // reset accumulator to 0
    cpu.push_instruction("MOV A, #0".to_string());
    // A = 16
    cpu.push_instruction("MOV A, #16".to_string());
    // A = A (16) + R1 (15)
    cpu.push_instruction("ADD A, R1".to_string());
    _ = cpu.run();
    assert_eq!(cpu.accumulator(), 31);
}

#[test]
fn test_add_value_to_accumulator() {
    let mut cpu = I8048cpu::new();

    // add 0xFA to accumulator
    cpu.push_instruction("ADD A, #FAH".to_string());
    _ = cpu.run();
    assert_eq!(cpu.accumulator(), 0xFA);
}

#[test]
fn test_increment_accumulator() {
    let mut cpu = I8048cpu::new();

    // increment accumulator
    cpu.push_instruction("INC A".to_string());
    _ = cpu.run();
    assert_eq!(cpu.accumulator(), 1);
}

#[test]
fn test_increment_register() {
    let mut cpu = I8048cpu::new();

    // increment r7
    cpu.push_instruction("INC R7".to_string());
    _ = cpu.run();
    assert_eq!(cpu.get_active_registers_bank()[7], 1);
}

#[test]
fn test_decrement_accumulator() {
    let mut cpu = I8048cpu::new();
    //set A to 16
    cpu.push_instruction("MOV A, #16".to_string());
    // decrement A
    cpu.push_instruction("DEC A".to_string());
    _ = cpu.run();
    assert_eq!(cpu.accumulator(), 15);
}

#[test]
fn test_decrement_register() {
    let mut cpu = I8048cpu::new();
    //set R7 to 16
    cpu.push_instruction("MOV R7, #16".to_string());
    // decrement r7
    cpu.push_instruction("DEC R7".to_string());
    _ = cpu.run();
    assert_eq!(cpu.get_active_registers_bank()[7], 15);
}
