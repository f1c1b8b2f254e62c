//! The model: what the machine is, and what each instruction does to it.
//!
//! Everything here is mathematics. The engine's contracts say that the
//! executable interpreter does what these functions describe.
use vstd::prelude::*;
use crate::number::{integer_of, render_int};
use crate::program::TokenView;
use crate::text::{is_quoted, join, strip_quotes, unescape};

verus! {

/// The state that instructions act on.
pub struct Machine {
    /// The integer registers, each named by one character.
    pub registers: Map<char, i32>,
    /// The named strings.
    pub strings: Map<Seq<char>, Seq<char>>,
    /// The labels: for each name, the place of the `LABEL` token that set it.
    pub labels: Map<Seq<char>, usize>,
    /// The memory cells. No instruction reads or writes them.
    pub memory: Seq<i32>,
}

/// Why a run was given up.
#[derive(Clone, Copy, Debug, PartialEq, Eq, Structural)]
pub enum Fault {
    /// The program ends before the operands of an instruction do.
    MissingOperand,
    /// A value that had to be an integer literal is none that fits.
    BadInteger,
    /// A value that had to be a floating-point literal has no reading.
    BadFloat,
    /// A sum does not fit into a register.
    Overflow,
}

/// Where an instruction leaves the run.
#[derive(Clone, Copy, Debug, PartialEq, Eq, Structural)]
pub enum Flow {
    /// The run goes on at this token, which the program has.
    Next(usize),
    /// The program counter went past the last token.
    End,
    /// The instruction was `EXIT`.
    Exit,
    /// The run is given up.
    Abort(Fault),
}

/// What one instruction does.
pub struct Effect {
    /// The machine after the instruction.
    pub machine: Machine,
    /// What the instruction writes out.
    pub printed: Seq<char>,
    /// Where the run goes next.
    pub flow: Flow,
}

/// How a bounded run came to its end.
#[derive(Clone, Copy, Debug, PartialEq, Eq, Structural)]
pub enum End {
    /// The program counter went past the last token.
    Finished,
    /// An `EXIT` was reached.
    Exited,
    /// The run was given up.
    Aborted(Fault),
    /// The step limit was used up; the run would go on at this token.
    Suspended(usize),
}

/// What a bounded run does.
pub struct Outcome {
    /// The machine after the run.
    pub machine: Machine,
    /// All that the run writes out, in order.
    pub printed: Seq<char>,
    /// How the run ended.
    pub end: End,
}

/// How many memory cells a machine has.
pub const MEMORY_CELLS: usize = 100;

/// The machine before anything ran: nothing is set, and the memory is zero.
pub open spec fn initial() -> Machine {
    Machine {
        registers: Map::empty(),
        strings: Map::empty(),
        labels: Map::empty(),
        memory: Seq::new(MEMORY_CELLS as nat, |i: int| 0i32),
    }
}

/// The flow to the token at `target`: the run goes on there if the program
/// has such a token, and is at its end if not.
pub open spec fn advance(program: Seq<TokenView>, target: int) -> Flow {
    if 0 <= target < program.len() {
        Flow::Next(target as usize)
    } else {
        Flow::End
    }
}

/// An instruction that leaves the machine at `machine` and writes nothing.
pub open spec fn quiet(machine: Machine, flow: Flow) -> Effect {
    Effect { machine, printed: Seq::empty(), flow }
}

/// An instruction that gives the run up. It changes nothing.
pub open spec fn abort(machine: Machine, fault: Fault) -> Effect {
    Effect { machine, printed: Seq::empty(), flow: Flow::Abort(fault) }
}

/// The name of the register that `var` speaks of: its first character.
pub open spec fn register_of(var: Seq<char>) -> char {
    var[0]
}

/// `INIT var value`: a quoted value goes to the strings under `var`, without
/// its quotes; a value with a decimal point goes to the register of `var`,
/// truncated; any other value must be an integer literal and goes to the
/// register of `var`.
pub open spec fn init_effect(m: Machine, program: Seq<TokenView>, pc: int) -> Effect {
    if pc + 2 >= program.len() {
        abort(m, Fault::MissingOperand)
    } else {
        let var = program[pc + 1].text;
        let value = program[pc + 2];
        let flow = advance(program, pc + 3);
        if is_quoted(value.text) {
            quiet(Machine { strings: m.strings.insert(var, strip_quotes(value.text)), ..m }, flow)
        } else if value.text.contains('.') {
            match value.float {
                Some(reading) => quiet(
                    Machine {
                        registers: m.registers.insert(register_of(var), reading.truncated),
                        ..m
                    },
                    flow,
                ),
                None => abort(m, Fault::BadFloat),
            }
        } else {
            match integer_of(value.text) {
                Some(n) => quiet(
                    Machine { registers: m.registers.insert(register_of(var), n), ..m },
                    flow,
                ),
                None => abort(m, Fault::BadInteger),
            }
        }
    }
}

/// What `OUT value` writes before the line feed, if it can: the register of
/// `value` if that is set, else the string named `value` if there is one,
/// else the reading of `value` if it has a decimal point, else `value`.
pub open spec fn out_text(m: Machine, value: TokenView) -> Option<Seq<char>> {
    if m.registers.contains_key(register_of(value.text)) {
        Some(render_int(m.registers[register_of(value.text)] as int))
    } else if m.strings.contains_key(value.text) {
        Some(m.strings[value.text])
    } else if value.text.contains('.') {
        match value.float {
            Some(reading) => Some(reading.shown),
            None => None,
        }
    } else {
        Some(value.text)
    }
}

/// `OUT value`: writes the value and a line feed.
pub open spec fn out_effect(m: Machine, program: Seq<TokenView>, pc: int) -> Effect {
    if pc + 1 >= program.len() {
        abort(m, Fault::MissingOperand)
    } else {
        match out_text(m, program[pc + 1]) {
            Some(text) => Effect {
                machine: m,
                printed: text.push('\n'),
                flow: advance(program, pc + 2),
            },
            None => abort(m, Fault::BadFloat),
        }
    }
}

/// The place of the first `OUTSTR` token at or after `from`, or the length
/// of the program if there is none.
pub open spec fn block_end(program: Seq<TokenView>, from: int) -> int
    decreases program.len() - from,
{
    if from >= program.len() {
        program.len() as int
    } else if program[from].text == "OUTSTR"@ {
        from
    } else {
        block_end(program, from + 1)
    }
}

/// A block ends at or after its start and within the program, and where it
/// ends before the end of the program, it ends at an `OUTSTR`.
pub proof fn lemma_block_end(program: Seq<TokenView>, from: int)
    requires
        0 <= from <= program.len(),
    ensures
        from <= block_end(program, from) <= program.len(),
        block_end(program, from) < program.len() ==> program[block_end(program, from)].text
            == "OUTSTR"@,
        forall|i: int| from <= i < block_end(program, from) ==> program[i].text != "OUTSTR"@,
    decreases program.len() - from,
{
    if from < program.len() && program[from].text != "OUTSTR"@ {
        lemma_block_end(program, from + 1);
    }
}

/// The texts of the tokens from `from` up to, not including, `to`.
pub open spec fn texts(program: Seq<TokenView>, from: int, to: int) -> Seq<Seq<char>> {
    Seq::new((to - from) as nat, |i: int| program[from + i].text)
}

/// `STR name content...`: the tokens up to the next `OUTSTR`, or to the end
/// of the program, are joined by single spaces, their escaped line feeds
/// made real, and stored under `name`. The run goes on at the `OUTSTR`.
pub open spec fn str_effect(m: Machine, program: Seq<TokenView>, pc: int) -> Effect {
    if pc + 1 >= program.len() {
        abort(m, Fault::MissingOperand)
    } else {
        let name = program[pc + 1].text;
        let end = block_end(program, pc + 2);
        let content = unescape(join(texts(program, pc + 2, end)));
        quiet(Machine { strings: m.strings.insert(name, content), ..m }, advance(program, end))
    }
}

/// `OUTSTR name`: writes the string named `name` as it is, if there is one.
pub open spec fn outstr_effect(m: Machine, program: Seq<TokenView>, pc: int) -> Effect {
    if pc + 1 >= program.len() {
        abort(m, Fault::MissingOperand)
    } else {
        let name = program[pc + 1].text;
        Effect {
            machine: m,
            printed: if m.strings.contains_key(name) {
                m.strings[name]
            } else {
                Seq::empty()
            },
            flow: advance(program, pc + 2),
        }
    }
}

/// `LABEL name`: records the place of this very token under `name`.
pub open spec fn label_effect(m: Machine, program: Seq<TokenView>, pc: int) -> Effect {
    if pc + 1 >= program.len() {
        abort(m, Fault::MissingOperand)
    } else {
        let name = program[pc + 1].text;
        quiet(Machine { labels: m.labels.insert(name, pc as usize), ..m }, advance(program, pc + 2))
    }
}

/// How far an unresolved `GOTO` moves the program counter.
pub const GOTO_FALLTHROUGH: usize = 4;

/// `GOTO name`: the run goes on at the token that `name` was recorded for.
/// With no such label the program counter moves on by
/// [`GOTO_FALLTHROUGH`].
pub open spec fn goto_effect(m: Machine, program: Seq<TokenView>, pc: int) -> Effect {
    if pc + 1 >= program.len() {
        abort(m, Fault::MissingOperand)
    } else {
        let name = program[pc + 1].text;
        if m.labels.contains_key(name) {
            quiet(m, advance(program, m.labels[name] as int))
        } else {
            quiet(m, advance(program, pc + GOTO_FALLTHROUGH))
        }
    }
}

/// What `INC` makes of a register that holds `current`, if it changes it:
/// with an integer literal, the sum; with the name of a string, the number
/// written by the register's decimal text followed by that string, if that
/// is one.
pub open spec fn inc_value(m: Machine, current: i32, value: Seq<char>) -> Option<int> {
    match integer_of(value) {
        Some(n) => Some(current + n),
        None => if m.strings.contains_key(value) {
            match integer_of(render_int(current as int) + m.strings[value]) {
                Some(joined) => Some(joined as int),
                None => None,
            }
        } else {
            None
        },
    }
}

/// `INC var value`: changes the register of `var` as [`inc_value`] says. A
/// register that is not set stays so. A sum that does not fit gives the run
/// up.
pub open spec fn inc_effect(m: Machine, program: Seq<TokenView>, pc: int) -> Effect {
    if pc + 2 >= program.len() {
        abort(m, Fault::MissingOperand)
    } else {
        let key = register_of(program[pc + 1].text);
        let flow = advance(program, pc + 3);
        if !m.registers.contains_key(key) {
            quiet(m, flow)
        } else {
            match inc_value(m, m.registers[key], program[pc + 2].text) {
                Some(n) => if i32::MIN <= n <= i32::MAX {
                    quiet(Machine { registers: m.registers.insert(key, n as i32), ..m }, flow)
                } else {
                    abort(m, Fault::Overflow)
                },
                None => quiet(m, flow),
            }
        }
    }
}

/// Whether `token` names an instruction.
pub open spec fn is_instruction(token: Seq<char>) -> bool {
    ||| token == "INIT"@
    ||| token == "OUT"@
    ||| token == "STR"@
    ||| token == "OUTSTR"@
    ||| token == "LABEL"@
    ||| token == "GOTO"@
    ||| token == "EXIT"@
    ||| token == "INC"@
}

/// The names of the instructions differ from one another: by their length,
/// and those of one length by their first letter.
pub proof fn lemma_instruction_names()
    ensures
        "INIT"@.len() == 4 && "INIT"@[0] == 'I',
        "GOTO"@.len() == 4 && "GOTO"@[0] == 'G',
        "EXIT"@.len() == 4 && "EXIT"@[0] == 'E',
        "OUT"@.len() == 3 && "OUT"@[0] == 'O',
        "STR"@.len() == 3 && "STR"@[0] == 'S',
        "INC"@.len() == 3 && "INC"@[0] == 'I' && "INC"@[2] == 'C',
        "LABEL"@.len() == 5,
        "OUTSTR"@.len() == 6,
{
    reveal_strlit("INIT");
    reveal_strlit("GOTO");
    reveal_strlit("EXIT");
    reveal_strlit("OUT");
    reveal_strlit("STR");
    reveal_strlit("INC");
    reveal_strlit("LABEL");
    reveal_strlit("OUTSTR");
}

/// What the instruction at `pc` does to `m`. A token that names no
/// instruction does nothing and is passed by.
#[verifier::opaque]
pub open spec fn step(m: Machine, program: Seq<TokenView>, pc: int) -> Effect {
    if pc < 0 || pc >= program.len() {
        quiet(m, Flow::End)
    } else {
        let token = program[pc].text;
        if token == "INIT"@ {
            init_effect(m, program, pc)
        } else if token == "OUT"@ {
            out_effect(m, program, pc)
        } else if token == "STR"@ {
            str_effect(m, program, pc)
        } else if token == "OUTSTR"@ {
            outstr_effect(m, program, pc)
        } else if token == "LABEL"@ {
            label_effect(m, program, pc)
        } else if token == "GOTO"@ {
            goto_effect(m, program, pc)
        } else if token == "EXIT"@ {
            quiet(m, Flow::Exit)
        } else if token == "INC"@ {
            inc_effect(m, program, pc)
        } else {
            quiet(m, advance(program, pc + 1))
        }
    }
}

/// `outcome` with `text` written out before it.
pub open spec fn after_text(text: Seq<char>, outcome: Outcome) -> Outcome {
    Outcome { printed: text + outcome.printed, ..outcome }
}

/// What a run of at most `limit` instructions does, from the token at `pc`.
pub open spec fn run(m: Machine, program: Seq<TokenView>, pc: int, limit: nat) -> Outcome
    decreases limit,
{
    if pc < 0 || pc >= program.len() {
        Outcome { machine: m, printed: Seq::empty(), end: End::Finished }
    } else if limit == 0 {
        Outcome { machine: m, printed: Seq::empty(), end: End::Suspended(pc as usize) }
    } else {
        let first = step(m, program, pc);
        match first.flow {
            Flow::Next(next) => {
                let rest = run(first.machine, program, next as int, (limit - 1) as nat);
                Outcome {
                    machine: rest.machine,
                    printed: first.printed + rest.printed,
                    end: rest.end,
                }
            },
            Flow::End => Outcome {
                machine: first.machine,
                printed: first.printed,
                end: End::Finished,
            },
            Flow::Exit => Outcome {
                machine: first.machine,
                printed: first.printed,
                end: End::Exited,
            },
            Flow::Abort(fault) => Outcome {
                machine: first.machine,
                printed: first.printed,
                end: End::Aborted(fault),
            },
        }
    }
}

} // verus!
