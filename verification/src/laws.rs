use vstd::prelude::*;

use crate::cpu::{lemma_memory_prefix, lemma_run_result, locate, memory_size, CpuState, Outcome, StepOutcome};
use crate::error::ErrorModel;
use crate::parse::{data_value, instruction_size, register_index, split_instruction, split_operands};
use crate::text::{
    all_digits, ascii_digits, decimal, digit_char, digit_value, is_ascii_digit, is_whitespace,
    lemma_leading_whitespace, lemma_position_at, lemma_trailing_whitespace, lemma_trim_end_at,
    lemma_trim_start_at, lowercase, parse_unsigned, position, starts_with, trim, value_in_radix,
    without,
};

verus! {

// ---------------------------------------------------------------------------
// Numbers and operands
// ---------------------------------------------------------------------------

/// The digit characters are `0`-`9`, and each reads back as its value.
proof fn lemma_digit_char(d: nat)
    requires
        d < 10,
    ensures
        is_ascii_digit(digit_char(d)),
        digit_value(digit_char(d)) == d,
        digit_char(d) != '+',
{
    assert(digit_char(d) as u32 == d + 48);
}

/// `decimal(n)` is a non-empty run of decimal digits that reads back as `n`,
/// and it does not begin with `+`.
proof fn lemma_decimal(n: nat)
    ensures
        decimal(n).len() > 0,
        all_digits(decimal(n), 10),
        forall|i: int| 0 <= i < decimal(n).len() ==> is_ascii_digit(#[trigger] decimal(n)[i]),
        value_in_radix(decimal(n), 10) == n,
        !starts_with(decimal(n), '+'),
    decreases n,
{
    if n < 10 {
        lemma_digit_char(n);
        assert(decimal(n).drop_last() =~= Seq::<char>::empty());
        assert(value_in_radix(decimal(n), 10) == value_in_radix(Seq::<char>::empty(), 10) * 10
            + digit_value(digit_char(n)));
    } else {
        lemma_decimal(n / 10);
        lemma_digit_char(n % 10);
        assert(decimal(n).drop_last() =~= decimal(n / 10));
        assert(decimal(n)[0] == decimal(n / 10)[0]);
        assert(value_in_radix(decimal(n), 10) == value_in_radix(decimal(n / 10), 10) * 10
            + digit_value(digit_char(n % 10)));
        assert((n / 10) * 10 + n % 10 == n);
    }
}

/// Writing a byte in decimal after `#` gives an immediate operand that reads
/// back as that byte.
pub proof fn law_decimal_data_round_trip(v: u8)
    ensures
        data_value(seq!['#'] + decimal(v as nat)) == Ok::<u8, crate::error::ErrorModel>(v),
{
    let s = seq!['#'] + decimal(v as nat);
    lemma_decimal(v as nat);
    let last = s.last();
    assert(last == decimal(v as nat).last());
    assert(is_ascii_digit(last));
    assert(s.subrange(1, s.len() as int) =~= decimal(v as nat));
    assert(parse_unsigned(decimal(v as nat), 10, 255) == Some(v as nat));
}

/// `R0` to `R7` name registers 0 to 7.
pub proof fn law_register_names(r: nat)
    requires
        r < 8,
    ensures
        register_index(seq!['R', digit_char(r)]) == Ok::<usize, crate::error::ErrorModel>(
            r as usize,
        ),
{
    let s = seq!['R', digit_char(r)];
    let d = seq![digit_char(r)];
    lemma_digit_char(r);
    assert(s.drop_last() =~= seq!['R']);
    assert(seq!['R'].drop_last() =~= Seq::<char>::empty());
    assert(!is_ascii_digit('R'));
    assert(seq!['R'].last() == 'R');
    assert(ascii_digits(Seq::<char>::empty()) == Seq::<char>::empty());
    assert(ascii_digits(seq!['R']) =~= Seq::<char>::empty());
    assert(ascii_digits(s) =~= d);
    assert(d.drop_last() =~= Seq::<char>::empty());
    assert(value_in_radix(d, 10) == value_in_radix(Seq::<char>::empty(), 10) * 10 + digit_value(
        digit_char(r),
    ));
    assert(parse_unsigned(d, 10, usize::MAX as nat) == Some(r));
}

/// Whitespace around a text does not change what trimming it gives.
proof fn lemma_trim_padded(w1: Seq<char>, x: Seq<char>, w2: Seq<char>)
    requires
        forall|k: int| 0 <= k < w1.len() ==> is_whitespace(#[trigger] w1[k]),
        forall|k: int| 0 <= k < w2.len() ==> is_whitespace(#[trigger] w2[k]),
    ensures
        trim(w1 + x + w2) == trim(x),
{
    let s = w1 + x + w2;
    let n1 = w1.len() as int;
    let ix = lemma_leading_whitespace(x);
    let jx = lemma_trailing_whitespace(x);
    if ix < x.len() {
        assert(jx > ix) by {
            if jx <= ix {
                assert(is_whitespace(x[ix]));
            }
        }
        assert forall|k: int| 0 <= k < n1 + ix implies is_whitespace(#[trigger] s[k]) by {
            if k >= n1 {
                assert(s[k] == x[k - n1]);
            }
        }
        assert(s[n1 + ix] == x[ix]);
        lemma_trim_start_at(s, n1 + ix);
        let s1 = s.subrange(n1 + ix, s.len() as int);
        assert forall|k: int| jx - ix <= k < s1.len() implies is_whitespace(#[trigger] s1[k]) by {
            if k < x.len() - ix {
                assert(s1[k] == x[ix + k]);
            } else {
                assert(s1[k] == w2[k - (x.len() - ix)]);
            }
        }
        assert(s1[jx - ix - 1] == x[jx - 1]);
        lemma_trim_end_at(s1, jx - ix);
        let x1 = x.subrange(ix, x.len() as int);
        assert forall|k: int| jx - ix <= k < x1.len() implies is_whitespace(#[trigger] x1[k]) by {
            assert(x1[k] == x[ix + k]);
        }
        lemma_trim_end_at(x1, jx - ix);
        assert(s1.subrange(0, jx - ix) =~= x1.subrange(0, jx - ix));
    } else {
        assert forall|k: int| 0 <= k < s.len() implies is_whitespace(#[trigger] s[k]) by {
            if n1 <= k < n1 + x.len() {
                assert(s[k] == x[k - n1]);
            } else if k >= n1 + x.len() {
                assert(s[k] == w2[k - n1 - x.len()]);
            }
        }
        lemma_trim_start_at(s, s.len() as int);
        lemma_trim_end_at(Seq::<char>::empty(), 0);
        lemma_trim_end_at(x.subrange(ix, x.len() as int), 0);
    }
}

/// Operand text that holds a comma splits at its first comma into the trimmed
/// text before it and the trimmed text after it.
pub proof fn law_operands_split_at_comma(u: Seq<char>, v: Seq<char>)
    requires
        !u.contains(','),
    ensures
        split_operands(u + seq![','] + v) == (trim(u), trim(v)),
{
    let s = u + seq![','] + v;
    let nu = u.len() as int;
    let iu = lemma_leading_whitespace(u);
    let iv = lemma_leading_whitespace(v);
    let jv = lemma_trailing_whitespace(v);
    assert(!is_whitespace(','));
    // the leading whitespace of the whole is that of `u`
    assert forall|k: int| 0 <= k < iu implies is_whitespace(#[trigger] s[k]) by {
        assert(s[k] == u[k]);
    }
    if iu < nu {
        assert(s[iu] == u[iu]);
    } else {
        assert(s[iu] == ',');
    }
    lemma_trim_start_at(s, iu);
    let s1 = s.subrange(iu, s.len() as int);
    // the trailing whitespace of the rest is that of `v`
    let j1 = nu - iu + 1 + jv;
    assert forall|k: int| j1 <= k < s1.len() implies is_whitespace(#[trigger] s1[k]) by {
        assert(s1[k] == v[k - (nu - iu + 1)]);
    }
    if jv > 0 {
        assert(s1[j1 - 1] == v[jv - 1]);
    } else {
        assert(s1[j1 - 1] == ',');
    }
    lemma_trim_end_at(s1, j1);
    let t = s1.subrange(0, j1);
    assert(trim(s) == t);
    // the first comma of the trimmed text is the one after `u`
    let p = nu - iu;
    assert forall|k: int| 0 <= k < p implies t[k] != ',' by {
        assert(t[k] == u[iu + k]);
        assert(u.contains(u[iu + k]));
    }
    assert(t[p] == ',');
    lemma_position_at(t, ',', p);
    assert(position(t, ',') == p);
    let u1 = u.subrange(iu, nu);
    let v1 = v.subrange(0, jv);
    assert(t.subrange(0, p) =~= u1);
    assert(t.subrange(p + 1, t.len() as int) =~= v1);
    // trimming the pieces again gives the trimmed parts of `u` and `v`
    assert(trim(u1) == trim(u)) by {
        lemma_trim_start_at(u1, 0);
    }
    assert(trim(v1) == trim(v)) by {
        if iv < v.len() {
            assert(iv < jv) by {
                if jv <= iv {
                    assert(is_whitespace(v[iv]));
                }
            }
            assert forall|k: int| 0 <= k < iv implies is_whitespace(#[trigger] v1[k]) by {
                assert(v1[k] == v[k]);
            }
            assert(v1[iv] == v[iv]);
            lemma_trim_start_at(v1, iv);
            let v2 = v.subrange(iv, jv);
            assert(v1.subrange(iv, v1.len() as int) =~= v2);
            assert(v2[jv - iv - 1] == v[jv - 1]);
            lemma_trim_end_at(v2, jv - iv);
            assert(v2.subrange(0, jv - iv) =~= v2);
            let v3 = v.subrange(iv, v.len() as int);
            assert forall|k: int| jv - iv <= k < v3.len() implies is_whitespace(#[trigger] v3[k]) by {
                assert(v3[k] == v[iv + k]);
            }
            lemma_trim_end_at(v3, jv - iv);
            assert(v3.subrange(0, jv - iv) =~= v2);
        } else {
            assert(jv == 0) by {
                if jv > 0 {
                    assert(is_whitespace(v[jv - 1]));
                }
            }
            assert(v1 =~= Seq::<char>::empty());
            lemma_trim_start_at(v1, 0);
            lemma_trim_end_at(v1, 0);
            lemma_trim_end_at(v.subrange(iv, v.len() as int), 0);
        }
    }
}

/// Operand text without a comma is a single trimmed operand, and the second
/// operand is empty.
pub proof fn law_operands_without_comma(a: Seq<char>)
    requires
        !a.contains(','),
    ensures
        split_operands(a) == (trim(a), Seq::<char>::empty()),
{
    let i = lemma_leading_whitespace(a);
    lemma_trailing_whitespace(a.subrange(i, a.len() as int));
    let t = trim(a);
    assert forall|k: int| 0 <= k < t.len() implies t[k] != ',' by {
        assert(t[k] == a[i + k]);
        assert(a.contains(a[i + k]));
    }
    lemma_position_at(t, ',', t.len() as int);
}

/// Trimmed operands without commas come back as they were, whether they are
/// written `a,b`, ` a , b `, or `a` alone.
pub proof fn law_trimmed_operands_round_trip(a: Seq<char>, b: Seq<char>)
    requires
        !a.contains(','),
        !b.contains(','),
        trim(a) == a,
        trim(b) == b,
    ensures
        split_operands(a + seq![','] + b) == (a, b),
        split_operands(seq![' '] + a + seq![' ', ',', ' '] + b + seq![' ']) == (a, b),
        split_operands(a) == (a, Seq::<char>::empty()),
{
    law_operands_split_at_comma(a, b);
    law_operands_without_comma(a);
    let u = seq![' '] + a + seq![' '];
    let v = seq![' '] + b + seq![' '];
    assert(seq![' '] + a + seq![' ', ',', ' '] + b + seq![' '] =~= u + seq![','] + v);
    assert(!u.contains(',')) by {
        assert forall|k: int| 0 <= k < u.len() implies u[k] != ',' by {
            if 1 <= k < u.len() - 1 {
                assert(u[k] == a[k - 1]);
                assert(a.contains(a[k - 1]));
            }
        }
    }
    assert(is_whitespace(' '));
    lemma_trim_padded(seq![' '], a, seq![' ']);
    lemma_trim_padded(seq![' '], b, seq![' ']);
    law_operands_split_at_comma(u, v);
}

// ---------------------------------------------------------------------------
// Decoding
// ---------------------------------------------------------------------------

/// Whether `m`, with ASCII capitals made small, is one of the six mnemonics.
pub open spec fn is_mnemonic(m: Seq<char>) -> bool {
    let l = lowercase(m);
    l == "mov"@ || l == "add"@ || l == "sel"@ || l == "inc"@ || l == "dec"@ || l == "jmp"@
}

/// A line made of a word without spaces, a space and the rest splits into that
/// word and the rest without its spaces.
proof fn lemma_split_instruction_at(m: Seq<char>, r: Seq<char>)
    requires
        !m.contains(' '),
    ensures
        split_instruction(m + seq![' '] + r) == (m, without(r, ' ')),
{
    let line = m + seq![' '] + r;
    assert forall|k: int| 0 <= k < m.len() implies line[k] != ' ' by {
        assert(line[k] == m[k]);
        assert(m.contains(m[k]));
    }
    assert(line[m.len() as int] == ' ');
    lemma_position_at(line, ' ', m.len() as int);
    assert(line.subrange(0, m.len() as int) =~= m);
    assert(line.subrange(m.len() + 1int, line.len() as int) =~= r);
}

/// The six mnemonics are different words.
proof fn lemma_mnemonics_differ()
    ensures
        "mov"@ != "add"@,
        "mov"@ != "sel"@,
        "mov"@ != "inc"@,
        "mov"@ != "dec"@,
        "mov"@ != "jmp"@,
        "add"@ != "sel"@,
        "add"@ != "inc"@,
        "add"@ != "dec"@,
        "add"@ != "jmp"@,
        "sel"@ != "inc"@,
        "sel"@ != "dec"@,
        "sel"@ != "jmp"@,
        "inc"@ != "dec"@,
        "inc"@ != "jmp"@,
        "dec"@ != "jmp"@,
{
    reveal_strlit("mov");
    reveal_strlit("add");
    reveal_strlit("sel");
    reveal_strlit("inc");
    reveal_strlit("dec");
    reveal_strlit("jmp");
    assert("mov"@[0] != "add"@[0] && "mov"@[0] != "sel"@[0] && "mov"@[0] != "inc"@[0]);
    assert("mov"@[0] != "dec"@[0] && "mov"@[0] != "jmp"@[0] && "add"@[0] != "sel"@[0]);
    assert("add"@[0] != "inc"@[0] && "add"@[0] != "dec"@[0] && "add"@[0] != "jmp"@[0]);
    assert("sel"@[0] != "inc"@[0] && "sel"@[0] != "dec"@[0] && "sel"@[0] != "jmp"@[0]);
    assert("inc"@[0] != "dec"@[0] && "inc"@[0] != "jmp"@[0] && "dec"@[0] != "jmp"@[0]);
}

/// Decoding hands the split operands to the instruction that the mnemonic
/// names, in any letter case; any other mnemonic is refused with its text.
pub proof fn law_execute_dispatches(s: CpuState, line: Seq<char>)
    ensures
        ({
            let (ins, operands) = split_instruction(line);
            let (dst, src) = split_operands(operands);
            let m = lowercase(ins);
            &&& m == "mov"@ ==> s.execute(line) == s.mov(dst, src)
            &&& m == "add"@ ==> s.execute(line) == s.add(dst, src)
            &&& m == "sel"@ ==> s.execute(line) == s.sel(dst)
            &&& m == "inc"@ ==> s.execute(line) == s.inc(dst)
            &&& m == "dec"@ ==> s.execute(line) == s.dec(dst)
            &&& m == "jmp"@ ==> s.execute(line) == s.jmp(dst)
            &&& !is_mnemonic(ins) ==> s.execute(line) == Outcome::Fails(
                ErrorModel::InvalidInstruction(ins),
            )
        }),
{
    lemma_mnemonics_differ();
}

/// Decoding ignores the letter case of the mnemonic and the spaces after the
/// first one: two lines whose mnemonics differ only in case and whose operand
/// texts differ only in spaces execute alike.
pub proof fn law_decoding_ignores_case_and_spaces(
    s: CpuState,
    m1: Seq<char>,
    r1: Seq<char>,
    m2: Seq<char>,
    r2: Seq<char>,
)
    requires
        !m1.contains(' '),
        !m2.contains(' '),
        lowercase(m1) == lowercase(m2),
        is_mnemonic(m1),
        without(r1, ' ') == without(r2, ' '),
    ensures
        s.execute(m1 + seq![' '] + r1) == s.execute(m2 + seq![' '] + r2),
{
    lemma_split_instruction_at(m1, r1);
    lemma_split_instruction_at(m2, r2);
    law_execute_dispatches(s, m1 + seq![' '] + r1);
    law_execute_dispatches(s, m2 + seq![' '] + r2);
}

// ---------------------------------------------------------------------------
// Program layout
// ---------------------------------------------------------------------------

/// The memory that two programs take one after the other is the sum of theirs.
proof fn lemma_memory_concat(a: Seq<Seq<char>>, b: Seq<Seq<char>>)
    ensures
        memory_size(a + b) == memory_size(a) + memory_size(b),
    decreases b.len(),
{
    if b.len() == 0 {
        assert(a + b =~= a);
    } else {
        lemma_memory_concat(a, b.drop_last());
        assert((a + b).drop_last() =~= a + b.drop_last());
    }
}

/// Each instruction is found at its start address: the memory that the
/// instructions before it take.
pub proof fn law_instruction_at_its_address(program: Seq<Seq<char>>, i: int)
    requires
        0 <= i < program.len(),
    ensures
        locate(program, memory_size(program.take(i)) as int) == Some(i as nat),
    decreases i,
{
    if i == 0 {
        assert(program.take(0) =~= Seq::<Seq<char>>::empty());
    } else {
        let rest = program.drop_first();
        law_instruction_at_its_address(rest, i - 1);
        assert(program.take(i) =~= seq![program[0]] + rest.take(i - 1));
        lemma_memory_concat(seq![program[0]], rest.take(i - 1));
        assert(seq![program[0]].drop_last() =~= Seq::<Seq<char>>::empty());
        assert(seq![program[0]].last() == program[0]);
        assert(memory_size(Seq::<Seq<char>>::empty()) == 0);
        assert(memory_size(seq![program[0]]) == instruction_size(program[0]));
        assert(instruction_size(program[0]) >= 1);
        let a = memory_size(program.take(i)) as int;
        assert(a == instruction_size(program[0]) + memory_size(rest.take(i - 1)));
        assert(locate(program, a) == match locate(rest, a - instruction_size(program[0])) {
            Some(j) => Some(j + 1),
            None => None,
        });
    }
}

/// A line appended to the program is found at the address just past the
/// instructions before it, and the program then takes that much more memory.
pub proof fn law_appended_instruction_address(program: Seq<Seq<char>>, line: Seq<char>)
    ensures
        locate(program.push(line), memory_size(program) as int) == Some(program.len()),
        memory_size(program.push(line)) == memory_size(program) + instruction_size(line),
{
    let p = program.push(line);
    assert(p.take(program.len() as int) =~= program);
    assert(p.drop_last() =~= program);
    law_instruction_at_its_address(p, program.len() as int);
}

// ---------------------------------------------------------------------------
// Instructions
// ---------------------------------------------------------------------------

/// An instruction writes at most the register bank in use: the other bank is
/// left as it was.
pub proof fn law_only_active_bank_written(s: CpuState, line: Seq<char>)
    requires
        s.execute(line) is Done,
    ensures
        s.active_register_bank == 0 ==> s.execute(line)->Done_0.registers2 == s.registers2,
        s.active_register_bank != 0 ==> s.execute(line)->Done_0.registers1 == s.registers1,
{
}

/// No instruction changes the program.
pub proof fn law_program_unchanged(s: CpuState, line: Seq<char>)
    requires
        s.execute(line) is Done,
    ensures
        s.execute(line)->Done_0.program == s.program,
{
}

/// `DEC` undoes `INC` on the same operand.
pub proof fn law_dec_undoes_inc(s: CpuState, operand: Seq<char>)
    requires
        s.valid(),
        s.inc(operand) is Done,
    ensures
        s.inc(operand)->Done_0.dec(operand) == Outcome::Done(s),
{
    let t = s.inc(operand)->Done_0;
    if starts_with(lowercase(operand), 'r') {
        let r = register_index(operand)->Ok_0 as int;
        assert(t.active_registers().update(r, s.active_registers()[r]) =~= s.active_registers());
        assert(t.with_register(r, s.active_registers()[r]) =~= s);
    }
}

/// `INC` undoes `DEC` on the same operand.
pub proof fn law_inc_undoes_dec(s: CpuState, operand: Seq<char>)
    requires
        s.valid(),
        s.dec(operand) is Done,
    ensures
        s.dec(operand)->Done_0.inc(operand) == Outcome::Done(s),
{
    let t = s.dec(operand)->Done_0;
    if starts_with(lowercase(operand), 'r') {
        let r = register_index(operand)->Ok_0 as int;
        assert(t.active_registers().update(r, s.active_registers()[r]) =~= s.active_registers());
        assert(t.with_register(r, s.active_registers()[r]) =~= s);
    }
}

/// `MOV` changes at most its destination: the accumulator where that is `A`,
/// else one register of the bank in use. The program counter, the program,
/// the bank selection and the other bank stay as they were.
pub proof fn law_mov_touches_only_target(s: CpuState, dst: Seq<char>, src: Seq<char>)
    requires
        s.valid(),
        s.mov(dst, src) is Done,
    ensures
        ({
            let t = s.mov(dst, src)->Done_0;
            &&& t.pc == s.pc
            &&& t.program == s.program
            &&& t.active_register_bank == s.active_register_bank
            &&& s.active_register_bank == 0 ==> t.registers2 == s.registers2
            &&& s.active_register_bank != 0 ==> t.registers1 == s.registers1
            &&& lowercase(dst) == "a"@ ==> t.registers1 == s.registers1 && t.registers2
                == s.registers2
            &&& lowercase(dst) != "a"@ ==> t.accumulator == s.accumulator && exists|r: int|
                0 <= r < 8 && t.active_registers() == s.active_registers().update(
                    r,
                    t.active_registers()[r],
                )
        }),
{
    let t = s.mov(dst, src)->Done_0;
    if lowercase(dst) != "a"@ {
        if t == s {
            assert(s.active_registers().update(0, s.active_registers()[0]) =~= s.active_registers());
        } else {
            let r = register_index(dst)->Ok_0 as int;
            assert(t.active_registers() =~= s.active_registers().update(r, t.active_registers()[r]));
        }
    }
}

/// What `MOV Rr, #data` writes, reading register `Rr` gives back.
pub proof fn law_mov_then_read(s: CpuState, reg: Seq<char>, data: Seq<char>)
    requires
        s.valid(),
        starts_with(lowercase(reg), 'r'),
        register_index(reg) is Ok,
        data_value(data) is Ok,
    ensures
        s.mov(reg, data) is Done,
        s.mov(reg, data)->Done_0.register_value(reg) == data_value(data),
{
    assert(data[0] == '#');
    assert(lowercase(reg)[0] == 'r');
    assert(lowercase(reg) != "a"@) by {
        reveal_strlit("a");
    }
    assert(lowercase(data) != "a"@) by {
        reveal_strlit("a");
        assert(lowercase(data)[0] == '#');
    }
}

/// A successful jump leaves the program counter at the start of an
/// instruction.
pub proof fn law_jump_lands_on_instruction(s: CpuState, target: Seq<char>)
    requires
        s.jmp(target) is Done,
    ensures
        locate(s.jmp(target)->Done_0.program, s.jmp(target)->Done_0.pc as int) is Some,
{
}

// ---------------------------------------------------------------------------
// Runs
// ---------------------------------------------------------------------------

/// A step that stops with an error changes nothing but the program counter.
pub proof fn law_failed_step_changes_only_pc(s: CpuState)
    requires
        s.step() is Stopped,
    ensures
        (CpuState { pc: s.pc, ..s.step()->Stopped_0 }) == s,
{
}

/// A run that ends without an error ends with the program counter past the
/// program; a run never changes the program.
proof fn lemma_run_within(s: CpuState, fuel: nat)
    requires
        s.run_within(fuel) is Some,
    ensures
        s.run_within(fuel)->Some_0.0.program == s.program,
        s.run_within(fuel)->Some_0.1 is None ==> s.run_within(fuel)->Some_0.0.pc >= memory_size(
            s.program,
        ),
    decreases fuel,
{
    match s.step() {
        StepOutcome::Continued(t) => {
            let i = locate(s.program, s.pc as int)->Some_0;
            let fetched = CpuState { pc: s.pc + instruction_size(s.program[i as int]), ..s };
            law_program_unchanged(fetched, s.program[i as int]);
            lemma_run_within(t, (fuel - 1) as nat);
        },
        _ => {},
    }
}

/// Where a run ends without an error, the program counter is past the
/// program; and a run leaves the program as it was.
pub proof fn law_run_ends_past_program(s: CpuState)
    requires
        s.finishes(),
    ensures
        s.run_result().0.program == s.program,
        s.run_result().1 is None ==> s.run_result().0.pc >= memory_size(s.program),
{
    let fuel = choose|f: nat| (#[trigger] s.run_within(f)) is Some;
    lemma_run_within(s, fuel);
}


/// Executing the lines of `program` from index `j` on, one after another, each
/// moving the program counter past itself first: the state in which this ends
/// and the error that ended it, if any; `None` where a line overflows.
pub open spec fn run_in_order(program: Seq<Seq<char>>, s: CpuState, j: nat) -> Option<
    (CpuState, Option<ErrorModel>),
>
    decreases program.len() - j,
{
    if j >= program.len() {
        Some((s, None))
    } else {
        let line = program[j as int];
        let fetched = CpuState { pc: s.pc + instruction_size(line), ..s };
        match fetched.execute(line) {
            Outcome::Done(t) => run_in_order(program, t, j + 1),
            Outcome::Fails(e) => Some((fetched, Some(e))),
            Outcome::Overflows => None,
        }
    }
}

/// Whether a line is a jump, whose mnemonic is `JMP` in any letter case.
pub open spec fn is_jump(line: Seq<char>) -> bool {
    lowercase(split_instruction(line).0) == "jmp"@
}

/// An instruction other than a jump leaves the program counter where it is.
proof fn lemma_non_jump_keeps_pc(s: CpuState, line: Seq<char>)
    requires
        !is_jump(line),
        s.execute(line) is Done,
    ensures
        s.execute(line)->Done_0.pc == s.pc,
        s.execute(line)->Done_0.program == s.program,
{
    law_execute_dispatches(s, line);
}

/// Running from the start of instruction `j` through lines without jumps
/// follows them in order.
proof fn lemma_straight_line(program: Seq<Seq<char>>, s: CpuState, j: nat)
    requires
        s.program == program,
        j <= program.len(),
        s.pc == memory_size(program.take(j as int)),
        forall|k: int| j <= k < program.len() ==> !is_jump(#[trigger] program[k]),
        run_in_order(program, s, j) is Some,
    ensures
        s.run_within((program.len() - j) as nat) == run_in_order(program, s, j),
        run_in_order(program, s, j)->Some_0.1 is None ==> run_in_order(program, s, j)->Some_0.0.pc
            == memory_size(program),
    decreases program.len() - j,
{
    if j == program.len() {
        assert(program.take(j as int) =~= program);
    } else {
        let line = program[j as int];
        let fetched = CpuState { pc: s.pc + instruction_size(line), ..s };
        assert(program.take(j + 1int).drop_last() =~= program.take(j as int));
        lemma_memory_prefix(program, j + 1int);
        law_instruction_at_its_address(program, j as int);
        assert(s.step() == match fetched.execute(line) {
            Outcome::Done(t) => StepOutcome::Continued(t),
            Outcome::Fails(e) => StepOutcome::Stopped(fetched, e),
            Outcome::Overflows => StepOutcome::Overflows,
        });
        match fetched.execute(line) {
            Outcome::Done(t) => {
                lemma_non_jump_keeps_pc(fetched, line);
                lemma_straight_line(program, t, j + 1);
            },
            _ => {},
        }
    }
}

/// A run that starts at an instruction and meets no jump executes the lines in
/// order: it ends, with the state and the error that executing them in turn
/// gives. Where no line fails, the program counter ends just past the
/// program; where line `k` fails, the counter is just past line `k` and the
/// rest of the state is that after the lines before it.
pub proof fn law_straight_line_run(s: CpuState, j: nat)
    requires
        j <= s.program.len(),
        s.pc == memory_size(s.program.take(j as int)),
        forall|k: int| j <= k < s.program.len() ==> !is_jump(#[trigger] s.program[k]),
        run_in_order(s.program, s, j) is Some,
    ensures
        s.finishes(),
        s.run_result() == run_in_order(s.program, s, j)->Some_0,
        s.run_result().1 is None ==> s.run_result().0.pc == memory_size(s.program),
{
    lemma_straight_line(s.program, s, j);
    lemma_run_result(s, (s.program.len() - j) as nat);
}

// ---------------------------------------------------------------------------
// What each instruction computes
// ---------------------------------------------------------------------------

/// `MOV A, Rr` loads register `r` of the bank in use into the accumulator and
/// changes nothing else.
pub proof fn law_mov_reads_register_of_bank_in_use(s: CpuState, dst: Seq<char>, src: Seq<char>)
    requires
        lowercase(dst) == "a"@,
        starts_with(lowercase(src), 'r'),
        register_index(src) is Ok,
    ensures
        s.mov(dst, src) == Outcome::Done(
            CpuState {
                accumulator: if s.active_register_bank == 0 {
                    s.registers1[register_index(src)->Ok_0 as int]
                } else {
                    s.registers2[register_index(src)->Ok_0 as int]
                },
                ..s
            },
        ),
{
}

/// `MOV Rr, A` stores the accumulator into register `r` of the bank in use and
/// changes nothing else.
pub proof fn law_mov_writes_register_of_bank_in_use(s: CpuState, dst: Seq<char>, src: Seq<char>)
    requires
        starts_with(lowercase(dst), 'r'),
        lowercase(src) == "a"@,
        register_index(dst) is Ok,
    ensures
        ({
            let r = register_index(dst)->Ok_0 as int;
            s.mov(dst, src) == Outcome::Done(
                if s.active_register_bank == 0 {
                    CpuState { registers1: s.registers1.update(r, s.accumulator), ..s }
                } else {
                    CpuState { registers2: s.registers2.update(r, s.accumulator), ..s }
                },
            )
        }),
{
    reveal_strlit("a");
    assert(lowercase(dst)[0] == 'r');
}

/// `ADD A, src` adds the operand's value to the accumulator: where the sum
/// fits in a byte the accumulator becomes the sum and nothing else changes,
/// and where it does not, the addition overflows.
pub proof fn law_add_sums(s: CpuState, dst: Seq<char>, src: Seq<char>, v: u8)
    requires
        lowercase(dst) == "a"@,
        if starts_with(lowercase(src), 'r') {
            register_index(src) is Ok && v == (if s.active_register_bank == 0 {
                s.registers1[register_index(src)->Ok_0 as int]
            } else {
                s.registers2[register_index(src)->Ok_0 as int]
            })
        } else {
            data_value(src) == Ok::<u8, ErrorModel>(v)
        },
    ensures
        s.accumulator + v <= 255 ==> s.add(dst, src) == Outcome::Done(
            CpuState { accumulator: (s.accumulator + v) as u8, ..s },
        ),
        s.accumulator + v > 255 ==> s.add(dst, src) is Overflows,
{
}

/// `SEL RB0` and `SEL RB1` select the first and the second register bank and
/// change nothing else; `SEL MB0` and `SEL MB1` change nothing at all.
pub proof fn law_sel(s: CpuState, d: Seq<char>)
    ensures
        lowercase(d) == "rb0"@ ==> s.sel(d) == Outcome::Done(
            CpuState { active_register_bank: 0, ..s },
        ),
        lowercase(d) == "rb1"@ ==> s.sel(d) == Outcome::Done(
            CpuState { active_register_bank: 1, ..s },
        ),
        lowercase(d) == "mb0"@ ==> s.sel(d) == Outcome::Done(s),
        lowercase(d) == "mb1"@ ==> s.sel(d) == Outcome::Done(s),
{
    reveal_strlit("rb0");
    reveal_strlit("rb1");
    reveal_strlit("mb0");
    reveal_strlit("mb1");
    assert("rb0"@[2] != "rb1"@[2]);
    assert("mb0"@[0] != "rb0"@[0] && "mb0"@[0] != "rb1"@[0]);
    assert("mb1"@[0] != "rb0"@[0] && "mb1"@[0] != "rb1"@[0]);
}

// ---------------------------------------------------------------------------
// Hexadecimal data
// ---------------------------------------------------------------------------

/// The hexadecimal digit for `d` in `0..16`, with `A`-`F` for 10 to 15.
pub open spec fn hex_upper(d: nat) -> char {
    if d < 10 {
        (d + 48) as char
    } else {
        (d + 55) as char
    }
}

/// The hexadecimal digit for `d` in `0..16`, with `a`-`f` for 10 to 15.
pub open spec fn hex_lower(d: nat) -> char {
    if d < 10 {
        (d + 48) as char
    } else {
        (d + 87) as char
    }
}

/// Each hexadecimal digit reads back as its value.
proof fn lemma_hex_digits(d: nat)
    requires
        d < 16,
    ensures
        digit_value(hex_upper(d)) == d,
        digit_value(hex_lower(d)) == d,
        hex_upper(d) != '+',
        hex_lower(d) != '+',
{
    if d < 10 {
        assert(hex_upper(d) as u32 == d + 48);
        assert(hex_lower(d) as u32 == d + 48);
    } else {
        assert(hex_upper(d) as u32 == d + 55);
        assert(hex_lower(d) as u32 == d + 87);
    }
}

/// Two hexadecimal digits read as the high digit times 16 plus the low digit.
proof fn lemma_two_hex_digits(hi: char, lo: char)
    requires
        digit_value(hi) < 16,
        digit_value(lo) < 16,
    ensures
        parse_unsigned(seq![hi, lo], 16, 255) == Some(digit_value(hi) * 16 + digit_value(lo)),
{
    let d = seq![hi, lo];
    assert(d.drop_last() =~= seq![hi]);
    assert(seq![hi].drop_last() =~= Seq::<char>::empty());
    assert(value_in_radix(seq![hi], 16) == value_in_radix(Seq::<char>::empty(), 16) * 16
        + digit_value(hi));
    assert(value_in_radix(d, 16) == value_in_radix(seq![hi], 16) * 16 + digit_value(lo));
    assert(digit_value(hi) * 16 + digit_value(lo) <= 255);
    assert(!starts_with(d, '+')) by {
        if hi == '+' {
            assert(digit_value('+') == 36);
        }
    }
}

/// Writing a byte as two hexadecimal digits, in capitals or small letters,
/// between `#` and `H` (or `h`) gives an immediate operand that reads back as
/// that byte.
pub proof fn law_hex_data_round_trip(v: u8)
    ensures
        data_value(seq!['#', hex_upper(v as nat / 16), hex_upper(v as nat % 16), 'H']) == Ok::<
            u8,
            ErrorModel,
        >(v),
        data_value(seq!['#', hex_lower(v as nat / 16), hex_lower(v as nat % 16), 'h']) == Ok::<
            u8,
            ErrorModel,
        >(v),
{
    let hi = v as nat / 16;
    let lo = v as nat % 16;
    lemma_hex_digits(hi);
    lemma_hex_digits(lo);
    lemma_two_hex_digits(hex_upper(hi), hex_upper(lo));
    lemma_two_hex_digits(hex_lower(hi), hex_lower(lo));
    let s1 = seq!['#', hex_upper(hi), hex_upper(lo), 'H'];
    let s2 = seq!['#', hex_lower(hi), hex_lower(lo), 'h'];
    assert(s1.subrange(1, 3) =~= seq![hex_upper(hi), hex_upper(lo)]);
    assert(s2.subrange(1, 3) =~= seq![hex_lower(hi), hex_lower(lo)]);
    assert(s1.last() == 'H');
    assert(s2.last() == 'h');
    assert(hi * 16 + lo == v);
}

// ---------------------------------------------------------------------------
// Instruction sizes
// ---------------------------------------------------------------------------

/// Taking out a character distributes over concatenation.
proof fn lemma_without_concat(x: Seq<char>, y: Seq<char>, c: char)
    ensures
        without(x + y, c) == without(x, c) + without(y, c),
    decreases y.len(),
{
    if y.len() == 0 {
        assert(x + y =~= x);
        assert(without(x, c) + without(y, c) =~= without(x, c));
    } else {
        lemma_without_concat(x, y.drop_last(), c);
        assert((x + y).drop_last() =~= x + y.drop_last());
        assert((x + y).last() == y.last());
        if y.last() != c {
            assert(without(x, c) + without(y, c) =~= (without(x, c) + without(y.drop_last(), c)).push(
                y.last(),
            ));
        }
    }
}

/// Taking out `c` keeps every other character.
proof fn lemma_without_contains(x: Seq<char>, c: char, z: char)
    requires
        z != c,
    ensures
        without(x, c).contains(z) <==> x.contains(z),
    decreases x.len(),
{
    if x.len() > 0 {
        let d = x.drop_last();
        lemma_without_contains(d, c, z);
        let w = without(d, c);
        assert(x.contains(z) <==> (d.contains(z) || x.last() == z)) by {
            if x.contains(z) {
                let k = choose|k: int| 0 <= k < x.len() && x[k] == z;
                if k < x.len() - 1 {
                    assert(d[k] == z);
                }
            }
            if d.contains(z) {
                let k = choose|k: int| 0 <= k < d.len() && d[k] == z;
                assert(x[k] == z);
            }
            if x.last() == z {
                assert(x[x.len() - 1] == z);
            }
        }
        if x.last() != c {
            let wp = w.push(x.last());
            assert(wp.contains(z) <==> (w.contains(z) || x.last() == z)) by {
                if wp.contains(z) {
                    let k = choose|k: int| 0 <= k < wp.len() && wp[k] == z;
                    if k < w.len() {
                        assert(w[k] == z);
                    }
                }
                if w.contains(z) {
                    let k = choose|k: int| 0 <= k < w.len() && w[k] == z;
                    assert(wp[k] == z);
                }
                if x.last() == z {
                    assert(wp[w.len() as int] == z);
                }
            }
        }
    }
}

/// Trimming keeps every character that is not whitespace.
proof fn lemma_trim_contains(y: Seq<char>, z: char)
    requires
        !is_whitespace(z),
    ensures
        trim(y).contains(z) <==> y.contains(z),
{
    let i = lemma_leading_whitespace(y);
    let y1 = y.subrange(i, y.len() as int);
    let j = lemma_trailing_whitespace(y1);
    let t = trim(y);
    assert(t == y1.subrange(0, j));
    if t.contains(z) {
        let k = choose|k: int| 0 <= k < t.len() && t[k] == z;
        assert(y[i + k] == z);
    }
    if y.contains(z) {
        let k = choose|k: int| 0 <= k < y.len() && y[k] == z;
        assert(k >= i);
        assert(y1[k - i] == z);
        assert(k - i < j);
        assert(t[k - i] == z);
    }
}

/// A character that is not whitespace is in an operand only if it is in the
/// operand text.
proof fn lemma_second_operand_within(x: Seq<char>, z: char)
    requires
        !is_whitespace(z),
    ensures
        split_operands(x).1.contains(z) ==> x.contains(z),
{
    let t = trim(x);
    let p = position(t, ',');
    lemma_trim_contains(x, z);
    if p < t.len() {
        let rest = t.subrange(p + 1int, t.len() as int);
        lemma_trim_contains(rest, z);
        if rest.contains(z) {
            let k = choose|k: int| 0 <= k < rest.len() && rest[k] == z;
            assert(t[p + 1 + k] == z);
        }
    }
}

/// A line split at its first space into a word and the rest.
proof fn lemma_split_line(m: Seq<char>, r: Seq<char>)
    requires
        !m.contains(' '),
    ensures
        split_instruction(m + seq![' '] + r).1 == without(r, ' '),
{
    lemma_split_instruction_at(m, r);
}

/// The size of a line does not depend on its mnemonic.
pub proof fn law_size_ignores_mnemonic(m1: Seq<char>, m2: Seq<char>, r: Seq<char>)
    requires
        !m1.contains(' '),
        !m2.contains(' '),
    ensures
        instruction_size(m1 + seq![' '] + r) == instruction_size(m2 + seq![' '] + r),
{
    lemma_split_line(m1, r);
    lemma_split_line(m2, r);
}

/// A line whose operands hold no `#` takes one byte, and so does a line with
/// no operands.
pub proof fn law_size_one_without_immediate(m: Seq<char>, r: Seq<char>)
    requires
        !m.contains(' '),
        !r.contains('#'),
    ensures
        instruction_size(m + seq![' '] + r) == 1,
        instruction_size(m) == 1,
{
    lemma_split_line(m, r);
    assert(!is_whitespace('#'));
    lemma_without_contains(r, ' ', '#');
    lemma_second_operand_within(without(r, ' '), '#');
    assert forall|k: int| 0 <= k < m.len() implies m[k] != ' ' by {
        assert(m.contains(m[k]));
    }
    lemma_position_at(m, ' ', m.len() as int);
    assert(m.subrange(0, m.len() as int) =~= m);
    assert(without(Seq::<char>::empty(), ' ') == Seq::<char>::empty());
    lemma_second_operand_within(Seq::<char>::empty(), '#');
}

/// A line whose second operand holds a `#` takes two bytes, and a line whose
/// second operand does not, one byte.
pub proof fn law_size_two_with_immediate(m: Seq<char>, a: Seq<char>, b: Seq<char>)
    requires
        !m.contains(' '),
        !a.contains(','),
    ensures
        instruction_size(m + seq![' '] + a + seq![','] + b) == if b.contains('#') {
            2nat
        } else {
            1nat
        },
{
    let r = a + seq![','] + b;
    assert(m + seq![' '] + a + seq![','] + b =~= m + seq![' '] + r);
    lemma_split_line(m, r);
    lemma_without_concat(a + seq![','], b, ' ');
    lemma_without_concat(a, seq![','], ' ');
    assert(seq![','].drop_last() =~= Seq::<char>::empty());
    assert(seq![','].last() == ',');
    assert(without(Seq::<char>::empty(), ' ') == Seq::<char>::empty());
    assert(without(seq![','], ' ') =~= seq![',']);
    lemma_without_contains(a, ' ', ',');
    law_operands_split_at_comma(without(a, ' '), without(b, ' '));
    assert(!is_whitespace('#'));
    lemma_trim_contains(without(b, ' '), '#');
    lemma_without_contains(b, ' ', '#');
}

/// `INC Rr` and `DEC Rr` add and take one from register `r` of the bank in
/// use and change nothing else; at 255 and at 0 respectively they overflow.
pub proof fn law_inc_dec_register(s: CpuState, d: Seq<char>)
    requires
        starts_with(lowercase(d), 'r'),
        register_index(d) is Ok,
    ensures
        ({
            let r = register_index(d)->Ok_0 as int;
            let v = if s.active_register_bank == 0 {
                s.registers1[r]
            } else {
                s.registers2[r]
            };
            &&& v < 255 ==> s.inc(d) == Outcome::Done(
                if s.active_register_bank == 0 {
                    CpuState { registers1: s.registers1.update(r, (v + 1) as u8), ..s }
                } else {
                    CpuState { registers2: s.registers2.update(r, (v + 1) as u8), ..s }
                },
            )
            &&& v == 255 ==> s.inc(d) is Overflows
            &&& v > 0 ==> s.dec(d) == Outcome::Done(
                if s.active_register_bank == 0 {
                    CpuState { registers1: s.registers1.update(r, (v - 1) as u8), ..s }
                } else {
                    CpuState { registers2: s.registers2.update(r, (v - 1) as u8), ..s }
                },
            )
            &&& v == 0 ==> s.dec(d) is Overflows
        }),
{
}

/// `INC A` and `DEC A` add and take one from the accumulator and change
/// nothing else; at 255 and at 0 respectively they overflow.
pub proof fn law_inc_dec_accumulator(s: CpuState, d: Seq<char>)
    requires
        lowercase(d) == "a"@,
    ensures
        s.accumulator < 255 ==> s.inc(d) == Outcome::Done(
            CpuState { accumulator: (s.accumulator + 1) as u8, ..s },
        ),
        s.accumulator == 255 ==> s.inc(d) is Overflows,
        s.accumulator > 0 ==> s.dec(d) == Outcome::Done(
            CpuState { accumulator: (s.accumulator - 1) as u8, ..s },
        ),
        s.accumulator == 0 ==> s.dec(d) is Overflows,
{
    reveal_strlit("a");
    assert(lowercase(d)[0] == 'a');
}

/// `JMP n`, with `n` the start address of an instruction written in decimal,
/// sets the program counter to `n` and changes nothing else.
pub proof fn law_jump_to_instruction(s: CpuState, i: int)
    requires
        0 <= i < s.program.len(),
        memory_size(s.program) <= usize::MAX,
    ensures
        s.jmp(decimal(memory_size(s.program.take(i)))) == Outcome::Done(
            CpuState { pc: memory_size(s.program.take(i)), ..s },
        ),
{
    let a = memory_size(s.program.take(i));
    lemma_memory_prefix(s.program, i);
    lemma_decimal(a);
    law_instruction_at_its_address(s.program, i);
    assert(parse_unsigned(decimal(a), 10, usize::MAX as nat) == Some(a));
}

// ---------------------------------------------------------------------------
// Numerals in any base up to 16
// ---------------------------------------------------------------------------

/// `radix` to the power `n`.
pub open spec fn power(radix: nat, n: nat) -> nat
    decreases n,
{
    if n == 0 {
        1
    } else {
        radix * power(radix, (n - 1) as nat)
    }
}

/// The `n` lowest digits of `v` in `radix`, most significant first, with
/// capitals for digits from 10.
pub open spec fn numeral(v: nat, n: nat, radix: nat) -> Seq<char>
    decreases n,
{
    if n == 0 {
        Seq::empty()
    } else {
        numeral(v / radix, (n - 1) as nat, radix).push(hex_upper(v % radix))
    }
}

/// A number below `radix` to the `n` written with `n` digits reads back as
/// itself.
proof fn lemma_numeral(v: nat, n: nat, radix: nat)
    requires
        2 <= radix <= 16,
        v < power(radix, n),
    ensures
        numeral(v, n, radix).len() == n,
        all_digits(numeral(v, n, radix), radix),
        value_in_radix(numeral(v, n, radix), radix) == v,
    decreases n,
{
    if n == 0 {
        assert(v == 0);
    } else {
        let p = power(radix, (n - 1) as nat);
        assert(v / radix < p) by (nonlinear_arith)
            requires
                v < radix * p,
                radix >= 2,
        ;
        lemma_numeral(v / radix, (n - 1) as nat, radix);
        assert(v % radix < radix) by (nonlinear_arith)
            requires
                radix >= 2,
        ;
        lemma_hex_digits(v % radix);
        let w = numeral(v / radix, (n - 1) as nat, radix);
        let x = numeral(v, n, radix);
        assert(x.drop_last() =~= w);
        assert forall|k: int| 0 <= k < x.len() implies digit_value(#[trigger] x[k]) < radix by {
            if k < w.len() {
                assert(x[k] == w[k]);
            }
        }
        assert((v / radix) * radix + v % radix == v) by (nonlinear_arith)
            requires
                radix >= 2,
        ;
    }
}

/// Writing a byte as eight binary digits between `#` and `B` gives an
/// immediate operand that reads back as that byte.
pub proof fn law_binary_data_round_trip(v: u8)
    ensures
        data_value(seq!['#'] + numeral(v as nat, 8, 2) + seq!['B']) == Ok::<u8, ErrorModel>(v),
{
    reveal_with_fuel(power, 9);
    assert(power(2, 8) == 256);
    lemma_numeral(v as nat, 8, 2);
    let num = numeral(v as nat, 8, 2);
    let s = seq!['#'] + num + seq!['B'];
    assert(s.subrange(1, s.len() - 1) =~= num);
    assert(s.last() == 'B');
    assert(s[0] == '#');
    assert(!starts_with(num, '+')) by {
        assert(digit_value(num[0]) < 2);
        assert(digit_value('+') == 36);
    }
}

// ---------------------------------------------------------------------------
// Refused operands
// ---------------------------------------------------------------------------

/// A register operand names one of the eight registers, or is refused.
pub proof fn law_register_below_eight(operand: Seq<char>)
    ensures
        register_index(operand) matches Ok(r) ==> r < 8,
{
}

/// The ASCII digits of a letter followed by digits are those digits.
proof fn lemma_ascii_digits_after_letter(c: char, d: Seq<char>)
    requires
        !is_ascii_digit(c),
        forall|i: int| 0 <= i < d.len() ==> is_ascii_digit(#[trigger] d[i]),
    ensures
        ascii_digits(seq![c] + d) == d,
    decreases d.len(),
{
    let x = seq![c] + d;
    if d.len() == 0 {
        assert(x.drop_last() =~= Seq::<char>::empty());
        assert(x.last() == c);
        assert(ascii_digits(Seq::<char>::empty()) == Seq::<char>::empty());
        assert(x =~= seq![c]);
    } else {
        lemma_ascii_digits_after_letter(c, d.drop_last());
        assert(x.drop_last() =~= seq![c] + d.drop_last());
        assert(x.last() == d.last());
        assert(is_ascii_digit(d[d.len() - 1]));
        assert(d.drop_last().push(d.last()) =~= d);
    }
}

/// `R` followed by a number from 8 on is refused, with the number written in
/// decimal.
pub proof fn law_register_eight_or_more_refused(n: nat)
    requires
        8 <= n <= usize::MAX,
    ensures
        register_index(seq!['R'] + decimal(n)) == Err::<usize, ErrorModel>(
            ErrorModel::InvalidRegister(decimal(n)),
        ),
{
    lemma_decimal(n);
    assert(!is_ascii_digit('R'));
    lemma_ascii_digits_after_letter('R', decimal(n));
    assert(parse_unsigned(decimal(n), 10, usize::MAX as nat) == Some(n));
}

/// Immediate data must begin with `#`.
pub proof fn law_data_needs_hash(operand: Seq<char>)
    requires
        !starts_with(operand, '#'),
    ensures
        data_value(operand) == Err::<u8, ErrorModel>(ErrorModel::InvalidOperand(operand)),
{
}

/// Decimal data above 255 does not fit a byte and is refused.
pub proof fn law_decimal_data_above_byte_refused(n: nat)
    requires
        n > 255,
    ensures
        data_value(seq!['#'] + decimal(n)) == Err::<u8, ErrorModel>(
            ErrorModel::InvalidOperand(seq!['#'] + decimal(n)),
        ),
{
    let s = seq!['#'] + decimal(n);
    lemma_decimal(n);
    assert(s.last() == decimal(n).last());
    assert(is_ascii_digit(s.last()));
    assert(s.subrange(1, s.len() as int) =~= decimal(n));
}

} // verus!
