use vstd::prelude::*;
use vstd::string::*;

use crate::error::{result_model, ErrorModel, I8048Error};
use crate::parse::{
    data_value, get_instruction, get_operands, get_instruction_size, get_register, instruction_size,
    parse_data, register_index, split_instruction, split_operands,
};
use crate::text::{
    begins_with, chars_of, decimal, decimal_string, lowercase, lowercase_equals,
    parse_unsigned, parse_unsigned_in, starts_with, starts_with_lowercase,
};

verus! {

// ---------------------------------------------------------------------------
// The model
// ---------------------------------------------------------------------------

/// The machine as the contracts speak of it: the two register banks, the bank
/// in use (0 selects `registers1`, anything else `registers2`), the
/// accumulator, the program as its source lines, and the program counter, a
/// byte address in program memory.
pub struct CpuState {
    pub registers1: Seq<u8>,
    pub registers2: Seq<u8>,
    pub active_register_bank: u8,
    pub accumulator: u8,
    pub program: Seq<Seq<char>>,
    pub pc: nat,
}

/// What executing one instruction leads to: a new state; an error, which
/// leaves the state as it was; or an arithmetic overflow, on which the
/// emulator stops with a panic.
pub enum Outcome {
    Done(CpuState),
    Fails(ErrorModel),
    Overflows,
}

/// What one step of the fetch-execute loop leads to: the program counter is
/// past the program; an instruction ran; the step stopped with an error, in the
/// given state; or the instruction overflowed.
pub enum StepOutcome {
    Halted,
    Continued(CpuState),
    Stopped(CpuState, ErrorModel),
    Overflows,
}

/// The number of bytes that the program takes in program memory.
pub open spec fn memory_size(program: Seq<Seq<char>>) -> nat
    decreases program.len(),
{
    if program.len() == 0 {
        0
    } else {
        memory_size(program.drop_last()) + instruction_size(program.last())
    }
}

/// The index of the instruction whose first byte is at `address`: the
/// instructions lie one after another from address 0, each taking its size.
pub open spec fn locate(program: Seq<Seq<char>>, address: int) -> Option<nat>
    decreases program.len(),
{
    if program.len() == 0 {
        None
    } else if address == 0 {
        Some(0)
    } else {
        match locate(program.drop_first(), address - instruction_size(program[0])) {
            Some(i) => Some(i + 1),
            None => None,
        }
    }
}

impl CpuState {
    /// The state of a machine that was just switched on.
    pub open spec fn initial() -> CpuState {
        CpuState {
            registers1: Seq::new(8, |i: int| 0u8),
            registers2: Seq::new(8, |i: int| 0u8),
            active_register_bank: 0,
            accumulator: 0,
            program: Seq::empty(),
            pc: 0,
        }
    }

    /// Both banks hold eight registers, as the machine's do.
    pub open spec fn valid(self) -> bool {
        self.registers1.len() == 8 && self.registers2.len() == 8
    }

    /// The registers of the bank in use.
    pub open spec fn active_registers(self) -> Seq<u8> {
        if self.active_register_bank == 0 {
            self.registers1
        } else {
            self.registers2
        }
    }

    /// The state with the bank in use replaced by `regs`.
    pub open spec fn with_active_registers(self, regs: Seq<u8>) -> CpuState {
        if self.active_register_bank == 0 {
            CpuState { registers1: regs, ..self }
        } else {
            CpuState { registers2: regs, ..self }
        }
    }

    /// The state with register `r` of the bank in use set to `v`.
    pub open spec fn with_register(self, r: int, v: u8) -> CpuState {
        self.with_active_registers(self.active_registers().update(r, v))
    }

    /// The state with the accumulator set to `v`.
    pub open spec fn with_accumulator(self, v: u8) -> CpuState {
        CpuState { accumulator: v, ..self }
    }

    /// The value of a register operand (`Rr`) of the bank in use.
    pub open spec fn register_value(self, operand: Seq<char>) -> Result<u8, ErrorModel> {
        match register_index(operand) {
            Ok(r) => Ok(self.active_registers()[r as int]),
            Err(e) => Err(e),
        }
    }

    /// The accumulator plus `v`, or an overflow where the sum exceeds a byte.
    pub open spec fn add_to_accumulator(self, v: u8) -> Outcome {
        if self.accumulator + v > 255 {
            Outcome::Overflows
        } else {
            Outcome::Done(self.with_accumulator((self.accumulator + v) as u8))
        }
    }

    /// `ADD A, Rr` and `ADD A, #data`.
    pub open spec fn add(self, dst: Seq<char>, src: Seq<char>) -> Outcome {
        if lowercase(dst) == "a"@ {
            let operand = if starts_with(lowercase(src), 'r') {
                self.register_value(src)
            } else {
                data_value(src)
            };
            match operand {
                Ok(v) => self.add_to_accumulator(v),
                Err(e) => Outcome::Fails(e),
            }
        } else {
            Outcome::Fails(ErrorModel::InvalidOperand(dst))
        }
    }

    /// `MOV A, Rr`, `MOV A, #data`, `MOV Rr, A` and `MOV Rr, #data`; a source
    /// of the form `@...` (indirect memory) is accepted and does nothing.
    /// Where both the register and the data of `MOV Rr, #data` are bad, the
    /// data's error is the one given.
    pub open spec fn mov(self, dst: Seq<char>, src: Seq<char>) -> Outcome {
        if lowercase(dst) == "a"@ {
            if starts_with(lowercase(src), 'r') {
                match self.register_value(src) {
                    Ok(v) => Outcome::Done(self.with_accumulator(v)),
                    Err(e) => Outcome::Fails(e),
                }
            } else if starts_with(src, '#') {
                match data_value(src) {
                    Ok(v) => Outcome::Done(self.with_accumulator(v)),
                    Err(e) => Outcome::Fails(e),
                }
            } else if starts_with(src, '@') {
                Outcome::Done(self)
            } else {
                Outcome::Fails(ErrorModel::InvalidOperand(src))
            }
        } else if starts_with(lowercase(dst), 'r') {
            if lowercase(src) == "a"@ {
                match register_index(dst) {
                    Ok(r) => Outcome::Done(self.with_register(r as int, self.accumulator)),
                    Err(e) => Outcome::Fails(e),
                }
            } else if starts_with(src, '#') {
                match data_value(src) {
                    Ok(v) => match register_index(dst) {
                        Ok(r) => Outcome::Done(self.with_register(r as int, v)),
                        Err(e) => Outcome::Fails(e),
                    },
                    Err(e) => Outcome::Fails(e),
                }
            } else if starts_with(src, '@') {
                Outcome::Done(self)
            } else {
                Outcome::Fails(ErrorModel::InvalidOperand(src))
            }
        } else {
            Outcome::Fails(ErrorModel::InvalidOperand(dst))
        }
    }

    /// `SEL RB0` and `SEL RB1` choose the register bank; `SEL MB0` and
    /// `SEL MB1` are accepted and do nothing.
    pub open spec fn sel(self, dst: Seq<char>) -> Outcome {
        let d = lowercase(dst);
        if d == "rb0"@ {
            Outcome::Done(CpuState { active_register_bank: 0, ..self })
        } else if d == "rb1"@ {
            Outcome::Done(CpuState { active_register_bank: 1, ..self })
        } else if d == "mb0"@ || d == "mb1"@ {
            Outcome::Done(self)
        } else {
            Outcome::Fails(ErrorModel::InvalidOperand(dst))
        }
    }

    /// `INC Rr` and `INC A`; incrementing 255 overflows.
    pub open spec fn inc(self, dst: Seq<char>) -> Outcome {
        if starts_with(lowercase(dst), 'r') {
            match register_index(dst) {
                Ok(r) => {
                    let v = self.active_registers()[r as int];
                    if v == 255 {
                        Outcome::Overflows
                    } else {
                        Outcome::Done(self.with_register(r as int, (v + 1) as u8))
                    }
                },
                Err(e) => Outcome::Fails(e),
            }
        } else if lowercase(dst) == "a"@ {
            if self.accumulator == 255 {
                Outcome::Overflows
            } else {
                Outcome::Done(self.with_accumulator((self.accumulator + 1) as u8))
            }
        } else {
            Outcome::Fails(ErrorModel::InvalidOperand(dst))
        }
    }

    /// `DEC Rr` and `DEC A`; decrementing 0 overflows.
    pub open spec fn dec(self, dst: Seq<char>) -> Outcome {
        if starts_with(lowercase(dst), 'r') {
            match register_index(dst) {
                Ok(r) => {
                    let v = self.active_registers()[r as int];
                    if v == 0 {
                        Outcome::Overflows
                    } else {
                        Outcome::Done(self.with_register(r as int, (v - 1) as u8))
                    }
                },
                Err(e) => Outcome::Fails(e),
            }
        } else if lowercase(dst) == "a"@ {
            if self.accumulator == 0 {
                Outcome::Overflows
            } else {
                Outcome::Done(self.with_accumulator((self.accumulator - 1) as u8))
            }
        } else {
            Outcome::Fails(ErrorModel::InvalidOperand(dst))
        }
    }

    /// `JMP address`: the address is a decimal `usize` and must be where an
    /// instruction starts.
    pub open spec fn jmp(self, dst: Seq<char>) -> Outcome {
        match parse_unsigned(dst, 10, usize::MAX as nat) {
            None => Outcome::Fails(ErrorModel::InvalidOperand(dst)),
            Some(address) => match locate(self.program, address as int) {
                None => Outcome::Fails(ErrorModel::InvalidAddress(decimal(address))),
                Some(_) => Outcome::Done(CpuState { pc: address, ..self }),
            },
        }
    }

    /// Decoding and executing one source line; the mnemonic is matched without
    /// regard to case.
    pub open spec fn execute(self, line: Seq<char>) -> Outcome {
        let (ins, operands) = split_instruction(line);
        let (dst, src) = split_operands(operands);
        let mnemonic = lowercase(ins);
        if mnemonic == "mov"@ {
            self.mov(dst, src)
        } else if mnemonic == "add"@ {
            self.add(dst, src)
        } else if mnemonic == "sel"@ {
            self.sel(dst)
        } else if mnemonic == "inc"@ {
            self.inc(dst)
        } else if mnemonic == "dec"@ {
            self.dec(dst)
        } else if mnemonic == "jmp"@ {
            self.jmp(dst)
        } else {
            Outcome::Fails(ErrorModel::InvalidInstruction(ins))
        }
    }

    /// One step of the fetch-execute loop: where the program counter is inside
    /// the program, fetch the instruction that starts there, move the counter
    /// past it, and execute it.
    pub open spec fn step(self) -> StepOutcome {
        if self.pc >= memory_size(self.program) {
            StepOutcome::Halted
        } else {
            match locate(self.program, self.pc as int) {
                None => StepOutcome::Stopped(
                    self,
                    ErrorModel::InvalidAddress(decimal(self.pc)),
                ),
                Some(i) => {
                    let line = self.program[i as int];
                    let fetched = CpuState { pc: self.pc + instruction_size(line), ..self };
                    match fetched.execute(line) {
                        Outcome::Done(s) => StepOutcome::Continued(s),
                        Outcome::Fails(e) => StepOutcome::Stopped(fetched, e),
                        Outcome::Overflows => StepOutcome::Overflows,
                    }
                },
            }
        }
    }

    /// Running from this state for at most `fuel` more instructions: the state
    /// in which the run ends and the error that ended it, if any; `None` where
    /// the run overflows or has not ended by then.
    pub open spec fn run_within(self, fuel: nat) -> Option<(CpuState, Option<ErrorModel>)>
        decreases fuel,
    {
        match self.step() {
            StepOutcome::Halted => Some((self, None)),
            StepOutcome::Stopped(s, e) => Some((s, Some(e))),
            StepOutcome::Overflows => None,
            StepOutcome::Continued(s) => if fuel == 0 {
                None
            } else {
                s.run_within((fuel - 1) as nat)
            },
        }
    }

    /// Whether running from this state ends, by running past the program or by
    /// an error, without an overflow.
    pub open spec fn finishes(self) -> bool {
        exists|fuel: nat| (#[trigger] self.run_within(fuel)) is Some
    }

    /// How running from this state ends, where it [`finishes`](Self::finishes).
    pub open spec fn run_result(self) -> (CpuState, Option<ErrorModel>) {
        self.run_within(choose|fuel: nat| (#[trigger] self.run_within(fuel)) is Some)->Some_0
    }
}

/// Whether `r` is what the outcome `o` of an instruction says, for a machine
/// that was in `before` and is now in `after`.
pub open spec fn follows(
    o: Outcome,
    before: CpuState,
    after: CpuState,
    r: Result<(), I8048Error>,
) -> bool {
    match o {
        Outcome::Done(s) => r is Ok && after == s,
        Outcome::Fails(e) => result_model(r) == Err::<(), ErrorModel>(e) && after == before,
        Outcome::Overflows => false,
    }
}

// ---------------------------------------------------------------------------
// Lemmas on the program layout and on runs
// ---------------------------------------------------------------------------

/// A prefix of the program takes no more memory than the whole.
pub proof fn lemma_memory_prefix(program: Seq<Seq<char>>, k: int)
    requires
        0 <= k <= program.len(),
    ensures
        memory_size(program.take(k)) <= memory_size(program),
    decreases program.len(),
{
    if k < program.len() {
        lemma_memory_prefix(program.drop_last(), k);
        assert(program.drop_last().take(k) =~= program.take(k));
    } else {
        assert(program.take(k) =~= program);
    }
}

/// More fuel does not change how a run that has ended ends.
pub proof fn lemma_run_more_fuel(s: CpuState, fuel: nat, more: nat)
    requires
        s.run_within(fuel) is Some,
        fuel <= more,
    ensures
        s.run_within(more) == s.run_within(fuel),
    decreases fuel,
{
    match s.step() {
        StepOutcome::Continued(t) => {
            lemma_run_more_fuel(t, (fuel - 1) as nat, (more - 1) as nat);
        },
        _ => {},
    }
}

/// A run that ends has a single result, whatever fuel shows that it ends.
pub proof fn lemma_run_result(s: CpuState, fuel: nat)
    requires
        s.run_within(fuel) is Some,
    ensures
        s.finishes(),
        s.run_within(fuel) == Some(s.run_result()),
{
    let f = choose|f: nat| (#[trigger] s.run_within(f)) is Some;
    if f <= fuel {
        lemma_run_more_fuel(s, f, fuel);
    } else {
        lemma_run_more_fuel(s, fuel, f);
    }
}

// ---------------------------------------------------------------------------
// The machine
// ---------------------------------------------------------------------------

/// A source line and the number of bytes it takes in program memory.
struct I8048instruction {
    instruction: String,
    size: usize,
}

/// An emulated 8048: two banks of eight registers, an accumulator, a program
/// of source lines and a program counter.
pub struct I8048cpu {
    registers1: [u8; 8],
    registers2: [u8; 8],
    active_register_bank: u8,
    accumulator: u8,
    instructions: Vec<I8048instruction>,
    pc: usize,
}

impl View for I8048cpu {
    type V = CpuState;

    closed spec fn view(&self) -> CpuState {
        CpuState {
            registers1: self.registers1@,
            registers2: self.registers2@,
            active_register_bank: self.active_register_bank,
            accumulator: self.accumulator,
            program: self.instructions@.map_values(|ins: I8048instruction| ins.instruction@),
            pc: self.pc as nat,
        }
    }
}

impl I8048cpu {
    /// The machine's invariant: each stored size is the size of its line, and
    /// the program fits in the address space.
    pub closed spec fn wf(&self) -> bool {
        &&& forall|i: int|
            0 <= i < self.instructions@.len() ==> (#[trigger] self.instructions@[i]).size
                == instruction_size(self.instructions@[i].instruction@)
        &&& memory_size(self@.program) <= usize::MAX
    }

    /// The state of a machine always has two banks of eight registers.
    pub proof fn lemma_state_valid(&self)
        ensures
            self@.valid(),
    {
    }

    /// A machine with all registers and the accumulator at 0, bank 0 in use,
    /// no program, and the program counter at 0.
    pub fn new() -> (cpu: Self)
        ensures
            cpu.wf(),
            cpu@ == CpuState::initial(),
    {
        let cpu = Self {
            registers1: [0;8],
            registers2: [0;8],
            active_register_bank: 0,
            accumulator: 0,
            instructions: Vec::new(),
            pc: 0,
        };
        assert(cpu@.registers1 =~= CpuState::initial().registers1);
        assert(cpu@.registers2 =~= CpuState::initial().registers2);
        assert(cpu@.program =~= CpuState::initial().program);
        cpu
    }

    /// The register bank in use, to read or to write.
    pub fn get_active_registers_bank(&mut self) -> (bank: &mut [u8; 8])
        ensures
            bank@ == old(self)@.active_registers(),
            final(self)@ == old(self)@.with_active_registers(final(bank)@),
            old(self).wf() ==> final(self).wf(),
    {
        if self.active_register_bank == 0 {
            &mut self.registers1
        } else {
            &mut self.registers2
        }
    }

    /// The accumulator.
    pub fn accumulator(&self) -> (a: u8)
        ensures
            a == self@.accumulator,
    {
        self.accumulator
    }

    /// The program counter.
    pub fn pc(&self) -> (pc: usize)
        ensures
            pc == self@.pc,
    {
        self.pc
    }

    /// The register bank in use: 0 for the first, anything else for the second.
    pub fn active_register_bank(&self) -> (bank: u8)
        ensures
            bank == self@.active_register_bank,
    {
        self.active_register_bank
    }

    /// The first register bank.
    pub fn registers1(&self) -> (regs: [u8; 8])
        ensures
            regs@ == self@.registers1,
    {
        self.registers1
    }

    /// The second register bank.
    pub fn registers2(&self) -> (regs: [u8; 8])
        ensures
            regs@ == self@.registers2,
    {
        self.registers2
    }

    /// The source line of instruction `index`.
    pub fn instruction_text(&self, index: usize) -> (line: &str)
        requires
            index < self@.program.len(),
        ensures
            line@ == self@.program[index as int],
    {
        self.instructions[index].instruction.as_str()
    }

    /// Register `r` of the bank in use.
    fn active_register(&self, r: usize) -> (v: u8)
        requires
            r < 8,
        ensures
            v == self@.active_registers()[r as int],
    {
        if self.active_register_bank == 0 {
            self.registers1[r]
        } else {
            self.registers2[r]
        }
    }

    /// The index of the instruction that starts at program address `add`.
    pub fn get_instruction_address(&self, add: usize) -> (r: Result<usize, I8048Error>)
        requires
            self.wf(),
        ensures
            result_model(r) == match locate(self@.program, add as int) {
                Some(i) => Ok(i as usize),
                None => Err(ErrorModel::InvalidAddress(decimal(add as nat))),
            },
            r matches Ok(i) ==> i < self@.program.len() && memory_size(self@.program.take(i as int))
                == add && locate(self@.program, add as int) == Some(i as nat),
    {
        let ghost program = self@.program;
        let mut a: usize = 0;
        let mut i: usize = 0;
        assert(program.skip(0) =~= program);
        assert(program.take(0) =~= Seq::<Seq<char>>::empty());
        while i < self.instructions.len()
            invariant
                self.wf(),
                program == self@.program,
                i <= program.len(),
                a == memory_size(program.take(i as int)),
                locate(program, add as int) == match locate(program.skip(i as int), add - a) {
                    Some(j) => Some((j + i) as nat),
                    None => None,
                },
            decreases program.len() - i,
        {
            if a == add {
                return Ok(i);
            }
            proof {
                let rest = program.skip(i as int);
                assert(rest.drop_first() =~= program.skip(i + 1));
                assert(rest[0] == program[i as int]);
                assert(program.take(i + 1).drop_last() =~= program.take(i as int));
                lemma_memory_prefix(program, i + 1);
            }
            a += self.instructions[i].size;
            i += 1;
        }
        Err(I8048Error::InvalidAddress(decimal_string(add)))
    }

    /// The number of bytes that the program takes.
    pub fn get_taken_memory(&self) -> (mem: usize)
        requires
            self.wf(),
        ensures
            mem == memory_size(self@.program),
    {
        let ghost program = self@.program;
        let mut mem: usize = 0;
        let mut i: usize = 0;
        assert(program.take(0) =~= Seq::<Seq<char>>::empty());
        while i < self.instructions.len()
            invariant
                self.wf(),
                program == self@.program,
                i <= program.len(),
                mem == memory_size(program.take(i as int)),
            decreases program.len() - i,
        {
            proof {
                assert(program.take(i + 1).drop_last() =~= program.take(i as int));
                lemma_memory_prefix(program, i + 1);
            }
            mem += self.instructions[i].size;
            i += 1;
        }
        assert(program.take(i as int) =~= program);
        mem
    }

    /// Appends a source line to the program.
    pub fn push_instruction(&mut self, instruction: String)
        requires
            old(self).wf(),
            memory_size(old(self)@.program) + instruction_size(instruction@) <= usize::MAX,
        ensures
            final(self).wf(),
            final(self)@ == (CpuState { program: old(self)@.program.push(instruction@), ..old(self)@ }),
            memory_size(final(self)@.program) == memory_size(old(self)@.program) + instruction_size(
                instruction@,
            ),
    {
        let size = get_instruction_size(instruction.as_str());
        let ghost line = instruction@;
        let ins = I8048instruction { instruction, size };
        self.instructions.push(ins);
        assert(self@.program =~= old(self)@.program.push(line));
        assert(self@.program.drop_last() =~= old(self)@.program);
    }

    /// `ADD A, Rr` and `ADD A, #data`.
    pub fn ins_add(&mut self, operands: (&str, &str)) -> (r: Result<(), I8048Error>)
        requires
            old(self).wf(),
            !(old(self)@.add(operands.0@, operands.1@) is Overflows),
        ensures
            final(self).wf(),
            follows(old(self)@.add(operands.0@, operands.1@), old(self)@, final(self)@, r),
    {
        if lowercase_equals(operands.0, "a") {
            if starts_with_lowercase(operands.1, 'r') {
                match get_register(operands.1) {
                    Ok(reg) => {
                        let v = self.active_register(reg);
                        self.accumulator = self.accumulator + v;
                        Ok(())
                    },
                    Err(e) => Err(e),
                }
            } else {
                match parse_data(operands.1) {
                    Ok(v) => {
                        self.accumulator = self.accumulator + v;
                        Ok(())
                    },
                    Err(e) => Err(e),
                }
            }
        } else {
            Err(I8048Error::InvalidOperand(String::from_str(operands.0)))
        }
    }
    /// `MOV A, Rr`, `MOV A, #data`, `MOV Rr, A`, `MOV Rr, #data`.
    pub fn ins_mov(&mut self, operands: (&str, &str)) -> (r: Result<(), I8048Error>)
        requires
            old(self).wf(),
        ensures
            final(self).wf(),
            follows(old(self)@.mov(operands.0@, operands.1@), old(self)@, final(self)@, r),
    {
        if lowercase_equals(operands.0, "a") {
            if starts_with_lowercase(operands.1, 'r') {
                match get_register(operands.1) {
                    Ok(reg) => {
                        self.accumulator = self.active_register(reg);
                        Ok(())
                    },
                    Err(e) => Err(e),
                }
            } else if begins_with(operands.1, '#') {
                match parse_data(operands.1) {
                    Ok(v) => {
                        self.accumulator = v;
                        Ok(())
                    },
                    Err(e) => Err(e),
                }
            } else if begins_with(operands.1, '@') {
                Ok(())
            } else {
                Err(I8048Error::InvalidOperand(String::from_str(operands.1)))
            }
        } else if starts_with_lowercase(operands.0, 'r') {
            if lowercase_equals(operands.1, "a") {
                match get_register(operands.0) {
                    Ok(reg) => {
                        let acc = self.accumulator;
                        let bank = self.get_active_registers_bank();
                        bank[reg] = acc;
                        Ok(())
                    },
                    Err(e) => Err(e),
                }
            } else if begins_with(operands.1, '#') {
                match parse_data(operands.1) {
                    Ok(v) => match get_register(operands.0) {
                        Ok(reg) => {
                            let bank = self.get_active_registers_bank();
                            bank[reg] = v;
                            Ok(())
                        },
                        Err(e) => Err(e),
                    },
                    Err(e) => Err(e),
                }
            } else if begins_with(operands.1, '@') {
                Ok(())
            } else {
                Err(I8048Error::InvalidOperand(String::from_str(operands.1)))
            }
        } else {
            Err(I8048Error::InvalidOperand(String::from_str(operands.0)))
        }
    }

    /// `SEL RB0`, `SEL RB1`, `SEL MB0`, `SEL MB1`.
    pub fn ins_sel(&mut self, operands: (&str, &str)) -> (r: Result<(), I8048Error>)
        requires
            old(self).wf(),
        ensures
            final(self).wf(),
            follows(old(self)@.sel(operands.0@), old(self)@, final(self)@, r),
    {
        if lowercase_equals(operands.0, "rb0") {
            self.active_register_bank = 0;
            Ok(())
        } else if lowercase_equals(operands.0, "rb1") {
            self.active_register_bank = 1;
            Ok(())
        } else if lowercase_equals(operands.0, "mb0") {
            Ok(())
        } else if lowercase_equals(operands.0, "mb1") {
            Ok(())
        } else {
            Err(I8048Error::InvalidOperand(String::from_str(operands.0)))
        }
    }

    /// `INC Rr` and `INC A`.
    pub fn ins_inc(&mut self, operands: (&str, &str)) -> (r: Result<(), I8048Error>)
        requires
            old(self).wf(),
            !(old(self)@.inc(operands.0@) is Overflows),
        ensures
            final(self).wf(),
            follows(old(self)@.inc(operands.0@), old(self)@, final(self)@, r),
    {
        if starts_with_lowercase(operands.0, 'r') {
            match get_register(operands.0) {
                Ok(reg) => {
                    let bank = self.get_active_registers_bank();
                    bank[reg] = bank[reg] + 1;
                    Ok(())
                },
                Err(e) => Err(e),
            }
        } else if lowercase_equals(operands.0, "a") {
            self.accumulator = self.accumulator + 1;
            Ok(())
        } else {
            Err(I8048Error::InvalidOperand(String::from_str(operands.0)))
        }
    }

    /// `DEC Rr` and `DEC A`.
    pub fn ins_dec(&mut self, operands: (&str, &str)) -> (r: Result<(), I8048Error>)
        requires
            old(self).wf(),
            !(old(self)@.dec(operands.0@) is Overflows),
        ensures
            final(self).wf(),
            follows(old(self)@.dec(operands.0@), old(self)@, final(self)@, r),
    {
        if starts_with_lowercase(operands.0, 'r') {
            match get_register(operands.0) {
                Ok(reg) => {
                    let bank = self.get_active_registers_bank();
                    bank[reg] = bank[reg] - 1;
                    Ok(())
                },
                Err(e) => Err(e),
            }
        } else if lowercase_equals(operands.0, "a") {
            self.accumulator = self.accumulator - 1;
            Ok(())
        } else {
            Err(I8048Error::InvalidOperand(String::from_str(operands.0)))
        }
    }

    /// `JMP address`.
    pub fn ins_jmp(&mut self, operands: (&str, &str)) -> (r: Result<(), I8048Error>)
        requires
            old(self).wf(),
        ensures
            final(self).wf(),
            follows(old(self)@.jmp(operands.0@), old(self)@, final(self)@, r),
    {
        let v = chars_of(operands.0);
        assert(v@.subrange(0, v.len() as int) =~= v@);
        match parse_unsigned_in(&v, 0, v.len(), 10, usize::MAX as u64) {
            None => Err(I8048Error::InvalidOperand(String::from_str(operands.0))),
            Some(a) => {
                let address = a as usize;
                match self.get_instruction_address(address) {
                    Err(e) => Err(e),
                    Ok(_) => {
                        self.pc = address;
                        Ok(())
                    },
                }
            },
        }
    }
    /// Decodes a source line and executes it.
    pub fn parse_instruction(&mut self, instruction: String) -> (r: Result<(), I8048Error>)
        requires
            old(self).wf(),
            !(old(self)@.execute(instruction@) is Overflows),
        ensures
            final(self).wf(),
            follows(old(self)@.execute(instruction@), old(self)@, final(self)@, r),
    {
        let (ins, operands) = get_instruction(instruction.as_str());
        let ops = get_operands(operands.as_str());
        if lowercase_equals(ins.as_str(), "mov") {
            self.ins_mov(ops)
        } else if lowercase_equals(ins.as_str(), "add") {
            self.ins_add(ops)
        } else if lowercase_equals(ins.as_str(), "sel") {
            self.ins_sel(ops)
        } else if lowercase_equals(ins.as_str(), "inc") {
            self.ins_inc(ops)
        } else if lowercase_equals(ins.as_str(), "dec") {
            self.ins_dec(ops)
        } else if lowercase_equals(ins.as_str(), "jmp") {
            self.ins_jmp(ops)
        } else {
            Err(I8048Error::InvalidInstruction(ins))
        }
    }

    /// One step of the fetch-execute loop: `Ok(false)` where the program counter
    /// is past the program, `Ok(true)` where an instruction ran.
    pub fn step(&mut self) -> (r: Result<bool, I8048Error>)
        requires
            old(self).wf(),
            !(old(self)@.step() is Overflows),
        ensures
            final(self).wf(),
            match old(self)@.step() {
                StepOutcome::Halted => r == Ok::<bool, I8048Error>(false) && final(self)@ == old(
                    self,
                )@,
                StepOutcome::Continued(s) => r == Ok::<bool, I8048Error>(true) && final(self)@ == s,
                StepOutcome::Stopped(s, e) => result_model(r) == Err::<bool, ErrorModel>(e)
                    && final(self)@ == s,
                StepOutcome::Overflows => false,
            },
    {
        let ghost program = self@.program;
        if self.pc >= self.get_taken_memory() {
            return Ok(false);
        }
        let current_address = match self.get_instruction_address(self.pc) {
            Ok(i) => i,
            Err(e) => return Err(e),
        };
        let val = self.instructions[current_address].instruction.clone();
        let size = self.instructions[current_address].size;
        proof {
            assert(program.take(current_address + 1).drop_last() =~= program.take(
                current_address as int,
            ));
            lemma_memory_prefix(program, current_address + 1);
        }
        let ghost line = program[current_address as int];
        let ghost fetched = CpuState { pc: old(self)@.pc + instruction_size(line), ..old(self)@ };
        assert(val@ == line);
        self.pc = self.pc + size;
        assert(self@ == fetched);
        match self.parse_instruction(val) {
            Ok(()) => Ok(true),
            Err(e) => Err(e),
        }
    }

    /// Whether the next [`step`](Self::step) would overflow a register or the
    /// accumulator, on which the emulator stops with a panic.
    pub fn next_step_overflows(&self) -> (b: bool)
        requires
            self.wf(),
        ensures
            b == (self@.step() is Overflows),
    {
        if self.pc >= self.get_taken_memory() {
            return false;
        }
        let current_address = match self.get_instruction_address(self.pc) {
            Ok(i) => i,
            Err(_) => return false,
        };
        let ghost line = self@.program[current_address as int];
        let ghost fetched = CpuState { pc: self@.pc + instruction_size(line), ..self@ };
        assert(self.instructions@[current_address as int].instruction@ == line);
        assert(fetched.active_registers() == self@.active_registers());
        let (ins, operands) = get_instruction(self.instructions[current_address].instruction.as_str());
        let (dst, src) = get_operands(operands.as_str());
        proof {
            reveal_strlit("mov");
            reveal_strlit("add");
            reveal_strlit("sel");
            reveal_strlit("inc");
            reveal_strlit("dec");
            assert("add"@[0] != "mov"@[0]);
            assert("inc"@[0] != "mov"@[0] && "inc"@[0] != "add"@[0] && "inc"@[0] != "sel"@[0]);
            assert("dec"@[0] != "mov"@[0] && "dec"@[0] != "add"@[0] && "dec"@[0] != "sel"@[0]
                && "dec"@[0] != "inc"@[0]);
        }
        if lowercase_equals(ins.as_str(), "add") {
            if !lowercase_equals(dst, "a") {
                return false;
            }
            let v = if starts_with_lowercase(src, 'r') {
                match get_register(src) {
                    Ok(reg) => self.active_register(reg),
                    Err(_) => return false,
                }
            } else {
                match parse_data(src) {
                    Ok(v) => v,
                    Err(_) => return false,
                }
            };
            (self.accumulator as u16) + (v as u16) > 255
        } else if lowercase_equals(ins.as_str(), "inc") {
            if starts_with_lowercase(dst, 'r') {
                match get_register(dst) {
                    Ok(reg) => self.active_register(reg) == 255,
                    Err(_) => false,
                }
            } else {
                lowercase_equals(dst, "a") && self.accumulator == 255
            }
        } else if lowercase_equals(ins.as_str(), "dec") {
            if starts_with_lowercase(dst, 'r') {
                match get_register(dst) {
                    Ok(reg) => self.active_register(reg) == 0,
                    Err(_) => false,
                }
            } else {
                lowercase_equals(dst, "a") && self.accumulator == 0
            }
        } else {
            false
        }
    }

    /// Runs the program from the program counter until the counter is past the
    /// program or an instruction fails.
    pub fn run(&mut self) -> (r: Result<(), I8048Error>)
        requires
            old(self).wf(),
            old(self)@.finishes(),
        ensures
            final(self).wf(),
            final(self)@ == old(self)@.run_result().0,
            result_model(r) == match old(self)@.run_result().1 {
                None => Ok::<(), ErrorModel>(()),
                Some(e) => Err(e),
            },
    {
        let ghost start = self@;
        let ghost fuel = choose|f: nat| (#[trigger] start.run_within(f)) is Some;
        proof {
            lemma_run_result(start, fuel);
        }
        let ghost mut left = fuel;
        loop
            invariant
                self.wf(),
                start == old(self)@,
                self@.run_within(left) == Some(start.run_result()),
            decreases left,
        {
            match self.step() {
                Ok(true) => {
                    proof {
                        left = (left - 1) as nat;
                    }
                },
                Ok(false) => {
                    return Ok(());
                },
                Err(e) => {
                    return Err(e);
                },
            }
        }
    }
}

} // verus!
