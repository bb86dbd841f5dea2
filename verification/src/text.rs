//! Numbers and instructions as text.
use crate::instruction::Instruction;
use vstd::prelude::*;
use vstd::string::StringExecFns;

verus! {

/// `String::push`: appends one character to the text.
#[verifier::external_body]
pub(crate) fn push_char(text: &mut String, c: char)
    ensures
        final(text)@ == old(text)@.push(c),
{
    text.push(c)
}

/// The character for a digit from zero to nine: `'0'` has code 48, and
/// the others follow it.
pub open spec fn digit(d: nat) -> char {
    (48 + d) as char
}

/// A number in decimal, without sign and without leading zeros.
pub open spec fn digits(n: nat) -> Seq<char>
    decreases n,
{
    if n < 10 {
        seq![digit(n)]
    } else {
        digits(n / 10).push(digit(n % 10))
    }
}

/// A number in decimal, with a minus sign where it is below zero.
pub open spec fn decimal(n: int) -> Seq<char> {
    if n < 0 {
        seq!['-'] + digits((-n) as nat)
    } else {
        digits(n as nat)
    }
}

/// Appends `n` in decimal.
pub fn push_digits(text: &mut String, n: u128)
    ensures
        final(text)@ == old(text)@ + digits(n as nat),
    decreases n,
{
    if n >= 10 {
        push_digits(text, n / 10);
    }
    let d: u8 = (n % 10) as u8;
    push_char(text, (48u8 + d) as char);
    proof {
        let before = old(text)@;
        if n >= 10 {
            assert((before + digits((n / 10) as nat)).push(digit((n % 10) as nat)) =~= before
                + digits(n as nat));
        } else {
            assert(before.push(digit(n as nat)) =~= before + digits(n as nat));
        }
    }
}

/// Appends `n` in decimal, with its sign where it is below zero.
pub fn push_decimal(text: &mut String, n: i128)
    requires
        n > i128::MIN,
    ensures
        final(text)@ == old(text)@ + decimal(n as int),
{
    if n < 0 {
        push_char(text, '-');
        push_digits(text, (-n) as u128);
        proof {
            let before = old(text)@;
            assert(before.push('-') + digits((-n) as nat) =~= before + decimal(n as int));
        }
    } else {
        push_digits(text, n as u128);
    }
}

/// `n` tab characters.
pub open spec fn tabs(n: int) -> Seq<char> {
    Seq::new(
        if n > 0 {
            n as nat
        } else {
            0
        },
        |i: int| '\t',
    )
}

/// Appends `n` tab characters.
pub fn push_tabs(text: &mut String, n: usize)
    ensures
        final(text)@ == old(text)@ + tabs(n as int),
{
    let mut i: usize = 0;
    assert(text@ + tabs(0) =~= text@);
    while i < n
        invariant
            i <= n,
            text@ == old(text)@ + tabs(i as int),
        decreases n - i,
    {
        push_char(text, '\t');
        i += 1;
        assert((old(text)@ + tabs(i as int - 1)).push('\t') =~= old(text)@ + tabs(i as int));
    }
}

/// An instruction as text: its name, and in brackets what it holds.
pub open spec fn instruction_text(i: Instruction) -> Seq<char> {
    match i {
        Instruction::Shift(by) => "Shift("@ + decimal(by as int) + ")"@,
        Instruction::Alt(by) => "Alt("@ + decimal(by as int) + ")"@,
        Instruction::Out => "Out"@,
        Instruction::In => "In"@,
        Instruction::Loop => "Loop"@,
        Instruction::End => "End"@,
        Instruction::NoOp => "NoOp"@,
        Instruction::Clear => "Clear"@,
        Instruction::Copy { mul, offset } => "Copy { mul: "@ + decimal(mul as int) + ", offset: "@
            + decimal(offset as int) + " }"@,
    }
}

/// Appends an instruction as text.
pub fn push_instruction(text: &mut String, i: Instruction)
    ensures
        final(text)@ == old(text)@ + instruction_text(i),
{
    let ghost before = text@;
    match i {
        Instruction::Shift(by) => {
            text.append("Shift(");
            push_decimal(text, by as i128);
            text.append(")");
            assert(text@ =~= before + instruction_text(i));
        },
        Instruction::Alt(by) => {
            text.append("Alt(");
            push_decimal(text, by as i128);
            text.append(")");
            assert(text@ =~= before + instruction_text(i));
        },
        Instruction::Out => {
            text.append("Out");
        },
        Instruction::In => {
            text.append("In");
        },
        Instruction::Loop => {
            text.append("Loop");
        },
        Instruction::End => {
            text.append("End");
        },
        Instruction::NoOp => {
            text.append("NoOp");
        },
        Instruction::Clear => {
            text.append("Clear");
        },
        Instruction::Copy { mul, offset } => {
            text.append("Copy { mul: ");
            push_decimal(text, mul as i128);
            text.append(", offset: ");
            push_decimal(text, offset as i128);
            text.append(" }");
            assert(text@ =~= before + instruction_text(i));
        },
    }
}

} // verus!
