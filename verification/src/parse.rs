use vstd::prelude::*;
use vstd::string::*;

use crate::error::{result_model, ErrorModel, I8048Error};
use crate::text::{
    ascii_digits, ascii_digits_of, chars_of, contains_char, decimal, decimal_string,
    is_ascii_digit, is_ascii_digit_char, parse_unsigned, parse_unsigned_in, position,
    position_in, string_without, trim, trim_bounds, without,
};

verus! {

/// A source line split at its first space into the mnemonic and the operand
/// text; every space is taken out of the operand text.
/// `"MOV R0, #24H"` gives `("MOV", "R0,#24H")`.
pub open spec fn split_instruction(line: Seq<char>) -> (Seq<char>, Seq<char>) {
    let p = position(line, ' ');
    let rest = if p < line.len() {
        line.subrange(p + 1int, line.len() as int)
    } else {
        Seq::empty()
    };
    (line.subrange(0, p as int), without(rest, ' '))
}

/// Operand text split at its first comma, each side trimmed; where there is
/// no comma, the trimmed text and an empty second operand.
/// `"r0,#$24"` gives `("r0", "#$24")`.
pub open spec fn split_operands(operands: Seq<char>) -> (Seq<char>, Seq<char>) {
    let t = trim(operands);
    let p = position(t, ',');
    if p < t.len() {
        (trim(t.subrange(0, p as int)), trim(t.subrange(p + 1int, t.len() as int)))
    } else {
        (t, Seq::empty())
    }
}

/// The number of bytes that a source line takes in program memory: two where
/// its second operand holds a `#` (an immediate byte follows the opcode), one
/// otherwise.
pub open spec fn instruction_size(line: Seq<char>) -> nat {
    if split_operands(split_instruction(line).1).1.contains('#') {
        2
    } else {
        1
    }
}

/// The register that an operand such as `R5` names: the number that its ASCII
/// digits write. Where they write no number that fits a `usize`, the operand is
/// refused; where the number is 8 or more, it is refused with the number
/// written in decimal.
pub open spec fn register_index(operand: Seq<char>) -> Result<usize, ErrorModel> {
    match parse_unsigned(ascii_digits(operand), 10, usize::MAX as nat) {
        None => Err(ErrorModel::InvalidRegister(operand)),
        Some(r) => if r < 8 {
            Ok(r as usize)
        } else {
            Err(ErrorModel::InvalidRegister(decimal(r)))
        },
    }
}

/// The byte that an immediate operand writes: `#` and then a hexadecimal number
/// ending in `H`/`h`, a binary number ending in `B`/`b`, or a decimal number
/// ending in a digit, each with an optional `+` and at most 255.
/// `#F8H` is 0xF8, `#13` is 13, `#0101B` is 5. Any other text is refused.
pub open spec fn data_value(operand: Seq<char>) -> Result<u8, ErrorModel> {
    let rejected = Err(ErrorModel::InvalidOperand(operand));
    let n = operand.len();
    if n < 2 || operand[0] != '#' {
        rejected
    } else {
        let last = operand.last();
        let parsed = if last == 'h' || last == 'H' {
            parse_unsigned(operand.subrange(1, n - 1), 16, 255)
        } else if last == 'b' || last == 'B' {
            parse_unsigned(operand.subrange(1, n - 1), 2, 255)
        } else if is_ascii_digit(last) {
            parse_unsigned(operand.subrange(1, n as int), 10, 255)
        } else {
            None
        };
        match parsed {
            Some(v) => Ok(v as u8),
            None => rejected,
        }
    }
}

/// Splits a source line into its mnemonic and its operand text.
pub fn get_instruction(instruction: &str) -> (r: (String, String))
    ensures
        (r.0@, r.1@) == split_instruction(instruction@),
{
    let v = chars_of(instruction);
    let n = v.len();
    let p = position_in(&v, 0, n, ' ');
    assert(v@.subrange(0, n as int) =~= v@);
    let ins = String::from_str(instruction.substring_char(0, p));
    let operands = if p < n {
        string_without(instruction, p + 1, ' ')
    } else {
        let e = String::new();
        assert(without(Seq::<char>::empty(), ' ') =~= e@);
        e
    };
    (ins, operands)
}

/// Splits operand text into its first and second operand.
pub fn get_operands(operands: &str) -> (r: (&str, &str))
    ensures
        (r.0@, r.1@) == split_operands(operands@),
{
    let v = chars_of(operands);
    let n = v.len();
    let (a, b) = trim_bounds(&v, 0, n);
    assert(v@.subrange(0, n as int) =~= v@);
    let p = position_in(&v, a, b, ',');
    let ghost t = v@.subrange(a as int, b as int);
    if p < b {
        let (a1, b1) = trim_bounds(&v, a, p);
        let (a2, b2) = trim_bounds(&v, p + 1, b);
        assert(t.subrange(0, p - a) =~= v@.subrange(a as int, p as int));
        assert(t.subrange(p - a + 1, t.len() as int) =~= v@.subrange(p + 1, b as int));
        (operands.substring_char(a1, b1), operands.substring_char(a2, b2))
    } else {
        let second = operands.substring_char(b, b);
        assert(second@ =~= Seq::<char>::empty());
        (operands.substring_char(a, b), second)
    }
}

/// The number of bytes that a source line takes in program memory.
pub fn get_instruction_size(instruction: &str) -> (size: usize)
    ensures
        size == instruction_size(instruction@),
{
    let (_ins, operands) = get_instruction(instruction);
    let (_first, second) = get_operands(operands.as_str());
    let v = chars_of(second);
    let n = v.len();
    assert(v@.subrange(0, n as int) =~= v@);
    if contains_char(&v, 0, n, '#') {
        2
    } else {
        1
    }
}

/// The register that an operand such as `R5` names.
pub fn get_register(register: &str) -> (r: Result<usize, I8048Error>)
    ensures
        result_model(r) == register_index(register@),
{
    let v = chars_of(register);
    let digits = ascii_digits_of(&v);
    let n = digits.len();
    assert(digits@.subrange(0, n as int) =~= digits@);
    match parse_unsigned_in(&digits, 0, n, 10, usize::MAX as u64) {
        None => Err(I8048Error::InvalidRegister(String::from_str(register))),
        Some(r) => {
            let r = r as usize;
            if r < 8 {
                Ok(r)
            } else {
                Err(I8048Error::InvalidRegister(decimal_string(r)))
            }
        },
    }
}

/// The byte that an immediate operand such as `#F8H` writes.
pub fn parse_data(data: &str) -> (r: Result<u8, I8048Error>)
    ensures
        result_model(r) == data_value(data@),
{
    let v = chars_of(data);
    let n = v.len();
    if n < 2 || v[0] != '#' {
        return Err(I8048Error::InvalidOperand(String::from_str(data)));
    }
    let last = v[n - 1];
    let parsed = if last == 'h' || last == 'H' {
        parse_unsigned_in(&v, 1, n - 1, 16, 255)
    } else if last == 'b' || last == 'B' {
        parse_unsigned_in(&v, 1, n - 1, 2, 255)
    } else if is_ascii_digit_char(last) {
        parse_unsigned_in(&v, 1, n, 10, 255)
    } else {
        None
    };
    match parsed {
        Some(x) => Ok(x as u8),
        None => Err(I8048Error::InvalidOperand(String::from_str(data))),
    }
}

} // verus!
