use mcs48::parse::{get_instruction, get_instruction_size, get_operands, get_register, parse_data};
use mcs48::I8048Error;

#[test]
fn instruction_splits_at_first_space() {
    let (ins, ops) = get_instruction("MOV R0, #24H");
    assert_eq!(ins, "MOV");
    assert_eq!(ops, "R0,#24H");
}

#[test]
fn instruction_without_operands() {
    let (ins, ops) = get_instruction("NOP");
    assert_eq!(ins, "NOP");
    assert_eq!(ops, "");
}

#[test]
fn instruction_drops_every_space_of_operands() {
    let (ins, ops) = get_instruction("add  a ,  r 1 ");
    assert_eq!(ins, "add");
    assert_eq!(ops, "a,r1");
}

#[test]
fn operands_split_at_first_comma_and_trimmed() {
    assert_eq!(get_operands("r0,#$24"), ("r0", "#$24"));
    assert_eq!(get_operands("\tA ,\t R1,x "), ("A", "R1,x"));
}

#[test]
fn operands_without_comma() {
    assert_eq!(get_operands(" RB1\t"), ("RB1", ""));
    assert_eq!(get_operands(""), ("", ""));
}

#[test]
fn size_is_two_for_immediate_data() {
    assert_eq!(get_instruction_size("MOV A, #9"), 2);
    assert_eq!(get_instruction_size("ADD A, #FAH"), 2);
    assert_eq!(get_instruction_size("MOV A, R4"), 1);
    assert_eq!(get_instruction_size("INC A"), 1);
    assert_eq!(get_instruction_size("JMP 0"), 1);
    // only the second operand counts
    assert_eq!(get_instruction_size("MOV #1, A"), 1);
}

#[test]
fn register_names() {
    assert_eq!(get_register("r5"), Ok(5));
    assert_eq!(get_register("R0"), Ok(0));
    assert_eq!(get_register("R7"), Ok(7));
    // the digits are read wherever they stand
    assert_eq!(get_register("x0y3"), Ok(3));
}

#[test]
fn register_out_of_range_is_refused_with_its_number() {
    assert_eq!(get_register("R9"), Err(I8048Error::InvalidRegister("9".to_string())));
    assert_eq!(get_register("R0012"), Err(I8048Error::InvalidRegister("12".to_string())));
}

#[test]
fn register_without_digits_is_refused_with_its_text() {
    assert_eq!(get_register("Rx"), Err(I8048Error::InvalidRegister("Rx".to_string())));
    assert_eq!(
        get_register("R99999999999999999999999"),
        Err(I8048Error::InvalidRegister("R99999999999999999999999".to_string()))
    );
}

#[test]
fn data_in_three_bases() {
    assert_eq!(parse_data("#F8H"), Ok(0xF8));
    assert_eq!(parse_data("#f8h"), Ok(0xF8));
    assert_eq!(parse_data("#13"), Ok(13));
    assert_eq!(parse_data("#0101B"), Ok(5));
    assert_eq!(parse_data("#1b"), Ok(1));
    assert_eq!(parse_data("#255"), Ok(255));
    assert_eq!(parse_data("#+7"), Ok(7));
    assert_eq!(parse_data("#00000000011111111B"), Ok(255));
}

#[test]
fn data_refused() {
    for text in ["#", "13", "", "#256", "#100H", "#2B", "#H", "#1G", "#-1", "#+", "#+H", "#é"] {
        assert_eq!(
            parse_data(text),
            Err(I8048Error::InvalidOperand(text.to_string())),
            "{}",
            text
        );
    }
}

#[test]
fn decimal_round_trip_of_every_byte() {
    for v in 0..=255u8 {
        assert_eq!(parse_data(&format!("#{}", v)), Ok(v));
    }
}

#[test]
fn register_names_r0_to_r7() {
    for r in 0..8usize {
        assert_eq!(get_register(&format!("R{}", r)), Ok(r));
    }
}

#[test]
fn trimmed_operands_come_back() {
    assert_eq!(get_operands("ab,c"), ("ab", "c"));
    assert_eq!(get_operands(" ab , c "), ("ab", "c"));
    assert_eq!(get_operands("ab"), ("ab", ""));
    assert_eq!(get_operands(","), ("", ""));
    assert_eq!(get_operands(" , c "), ("", "c"));
}
