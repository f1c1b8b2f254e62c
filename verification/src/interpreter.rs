//! The engine: an interpreter that carries out a program token by token.
use vstd::prelude::*;
use vstd::string::StringExecFns;
use crate::machine;
use crate::machine::{End, Fault, Flow, Machine, GOTO_FALLTHROUGH, MEMORY_CELLS};
use crate::number::{parse_integer, render_integer};
use crate::program::{well_formed, Program};
use crate::table::Table;
use crate::text::{
    chars_of,
    contains_char,
    copy_of,
    extend,
    join,
    quoted,
    spells,
    string_of,
    unescaped,
    unquote,
};

verus! {

/// The machine state, owned by the engine for as long as it lives.
pub struct Interpreter {
    registers: Table<char, i32>,
    memory: Vec<i32>,
    strings: Table<Vec<char>, Vec<char>>,
    labels: Table<Vec<char>, usize>,
}

/// What one instruction did.
pub struct Step {
    /// Where the run goes next.
    pub flow: Flow,
    /// What the instruction wrote out.
    pub output: String,
}

/// What a bounded run did.
pub struct Run {
    /// How the run ended.
    pub end: End,
    /// All that the run wrote out, in order.
    pub output: String,
}

impl View for Interpreter {
    type V = Machine;

    closed spec fn view(&self) -> Machine {
        Machine {
            registers: self.registers@,
            strings: self.strings@,
            labels: self.labels@,
            memory: self.memory@,
        }
    }
}

/// Whether `step` is what the model's `effect` says, on a machine that
/// ended as `after`.
pub open spec fn agrees(step: Step, after: Machine, effect: machine::Effect) -> bool {
    &&& after == effect.machine
    &&& step.output@ == effect.printed
    &&& step.flow == effect.flow
}

/// The flow to the token at `target`.
fn advance(program: &Program, target: usize) -> (flow: Flow)
    ensures
        flow == machine::advance(program@, target as int),
{
    if target < program.len() {
        Flow::Next(target)
    } else {
        Flow::End
    }
}

/// A step that writes nothing.
fn quiet(flow: Flow) -> (step: Step)
    ensures
        step.flow == flow,
        step.output@ == Seq::<char>::empty(),
{
    Step { flow, output: String::new() }
}

impl Interpreter {
    /// The invariant of the engine's tables and memory.
    pub closed spec fn wf(&self) -> bool {
        &&& self.registers.wf()
        &&& self.strings.wf()
        &&& self.labels.wf()
        &&& self.memory@ == machine::initial().memory
    }

    /// An engine on which nothing ran yet.
    pub fn new() -> (interpreter: Interpreter)
        ensures
            interpreter.wf(),
            interpreter@ == machine::initial(),
    {
        let mut memory: Vec<i32> = Vec::new();
        let mut i: usize = 0;
        while i < MEMORY_CELLS
            invariant
                i <= MEMORY_CELLS,
                memory.len() == i,
                forall|j: int| 0 <= j < i ==> memory@[j] == 0i32,
            decreases MEMORY_CELLS - i,
        {
            memory.push(0);
            i += 1;
        }
        assert(memory@ == machine::initial().memory);
        Interpreter {
            registers: Table::new(),
            memory,
            strings: Table::new(),
            labels: Table::new(),
        }
    }

    /// The value of the register named `name`, if it is set.
    pub fn register(&self, name: char) -> (value: Option<i32>)
        requires
            self.wf(),
        ensures
            value == (if self@.registers.contains_key(name) {
                Some(self@.registers[name])
            } else {
                None
            }),
    {
        match self.registers.get(&name) {
            Some(n) => Some(*n),
            None => None,
        }
    }

    /// The string named `name`, if there is one.
    pub fn string(&self, name: &str) -> (value: Option<String>)
        requires
            self.wf(),
        ensures
            match value {
                Some(s) => self@.strings.contains_key(name@) && s@ == self@.strings[name@],
                None => !self@.strings.contains_key(name@),
            },
    {
        match self.strings.get(&chars_of(name)) {
            Some(s) => Some(string_of(s)),
            None => None,
        }
    }

    /// The place recorded for the label `name`, if there is one.
    pub fn label_place(&self, name: &str) -> (place: Option<usize>)
        requires
            self.wf(),
        ensures
            place == (if self@.labels.contains_key(name@) {
                Some(self@.labels[name@])
            } else {
                None
            }),
    {
        match self.labels.get(&chars_of(name)) {
            Some(place) => Some(*place),
            None => None,
        }
    }

    /// The memory cells.
    pub fn memory(&self) -> (cells: &Vec<i32>)
        ensures
            cells@ == self@.memory,
    {
        &self.memory
    }

    /// Carries out the `INIT` at `pc`.
    fn init(&mut self, program: &Program, pc: usize) -> (step: Step)
        requires
            old(self).wf(),
            well_formed(program@),
            pc < program@.len(),
        ensures
            final(self).wf(),
            agrees(step, final(self)@, machine::init_effect(old(self)@, program@, pc as int)),
    {
        if program.len() - pc <= 2 {
            return quiet(Flow::Abort(Fault::MissingOperand));
        }
        let var = program.text(pc + 1);
        let value = program.text(pc + 2);
        if quoted(value) {
            self.strings.insert(copy_of(var), unquote(value));
        } else if contains_char(value, '.') {
            match program.reading(pc + 2) {
                Some((truncated, _)) => {
                    self.registers.insert(var[0], truncated);
                },
                None => {
                    return quiet(Flow::Abort(Fault::BadFloat));
                },
            }
        } else {
            match parse_integer(value) {
                Some(n) => {
                    self.registers.insert(var[0], n);
                },
                None => {
                    return quiet(Flow::Abort(Fault::BadInteger));
                },
            }
        }
        quiet(advance(program, pc + 3))
    }

    /// Carries out the `OUT` at `pc`.
    fn out(&self, program: &Program, pc: usize) -> (step: Step)
        requires
            self.wf(),
            well_formed(program@),
            pc < program@.len(),
        ensures
            agrees(step, self@, machine::out_effect(self@, program@, pc as int)),
    {
        if program.len() - pc <= 1 {
            return quiet(Flow::Abort(Fault::MissingOperand));
        }
        let value = program.text(pc + 1);
        let key = value[0];
        let mut text = match self.registers.get(&key) {
            Some(n) => render_integer(*n),
            None => match self.strings.get(value) {
                Some(s) => copy_of(s),
                None => if contains_char(value, '.') {
                    match program.reading(pc + 1) {
                        Some((_, shown)) => copy_of(shown),
                        None => {
                            return quiet(Flow::Abort(Fault::BadFloat));
                        },
                    }
                } else {
                    copy_of(value)
                },
            },
        };
        text.push('\n');
        Step { flow: advance(program, pc + 2), output: string_of(&text) }
    }

    /// Carries out the `STR` at `pc`.
    fn str_block(&mut self, program: &Program, pc: usize) -> (step: Step)
        requires
            old(self).wf(),
            well_formed(program@),
            pc < program@.len(),
        ensures
            final(self).wf(),
            agrees(step, final(self)@, machine::str_effect(old(self)@, program@, pc as int)),
    {
        let len = program.len();
        if len - pc <= 1 {
            return quiet(Flow::Abort(Fault::MissingOperand));
        }
        let name = program.text(pc + 1);
        let start = pc + 2;
        let mut end = start;
        let mut content: Vec<char> = Vec::new();
        while end < len && !spells(program.text(end), "OUTSTR")
            invariant
                start <= end <= len,
                len == program@.len(),
                machine::block_end(program@, start as int) == machine::block_end(
                    program@,
                    end as int,
                ),
                content@ == join(machine::texts(program@, start as int, end as int)),
            decreases len - end,
        {
            let ghost before = machine::texts(program@, start as int, end as int);
            let ghost after = machine::texts(program@, start as int, end + 1);
            assert(after.drop_last() == before);
            assert(after.last() == program@[end as int].text);
            if end > start {
                content.push(' ');
            }
            extend(&mut content, program.text(end));
            assert(content@ == join(after));
            end += 1;
        }
        self.strings.insert(copy_of(name), unescaped(&content));
        quiet(advance(program, end))
    }

    /// Carries out the `OUTSTR` at `pc`.
    fn outstr(&self, program: &Program, pc: usize) -> (step: Step)
        requires
            self.wf(),
            well_formed(program@),
            pc < program@.len(),
        ensures
            agrees(step, self@, machine::outstr_effect(self@, program@, pc as int)),
    {
        if program.len() - pc <= 1 {
            return quiet(Flow::Abort(Fault::MissingOperand));
        }
        let output = match self.strings.get(program.text(pc + 1)) {
            Some(s) => string_of(s),
            None => String::new(),
        };
        Step { flow: advance(program, pc + 2), output }
    }

    /// Carries out the `LABEL` at `pc`.
    fn label(&mut self, program: &Program, pc: usize) -> (step: Step)
        requires
            old(self).wf(),
            well_formed(program@),
            pc < program@.len(),
        ensures
            final(self).wf(),
            agrees(step, final(self)@, machine::label_effect(old(self)@, program@, pc as int)),
    {
        if program.len() - pc <= 1 {
            return quiet(Flow::Abort(Fault::MissingOperand));
        }
        self.labels.insert(copy_of(program.text(pc + 1)), pc);
        quiet(advance(program, pc + 2))
    }

    /// Carries out the `GOTO` at `pc`.
    fn goto(&self, program: &Program, pc: usize) -> (step: Step)
        requires
            self.wf(),
            well_formed(program@),
            pc < program@.len(),
        ensures
            agrees(step, self@, machine::goto_effect(self@, program@, pc as int)),
    {
        if program.len() - pc <= 1 {
            return quiet(Flow::Abort(Fault::MissingOperand));
        }
        match self.labels.get(program.text(pc + 1)) {
            Some(target) => quiet(advance(program, *target)),
            None => if program.len() - pc > GOTO_FALLTHROUGH {
                quiet(Flow::Next(pc + GOTO_FALLTHROUGH))
            } else {
                quiet(Flow::End)
            },
        }
    }

    /// Carries out the `INC` at `pc`.
    fn inc(&mut self, program: &Program, pc: usize) -> (step: Step)
        requires
            old(self).wf(),
            well_formed(program@),
            pc < program@.len(),
        ensures
            final(self).wf(),
            agrees(step, final(self)@, machine::inc_effect(old(self)@, program@, pc as int)),
    {
        if program.len() - pc <= 2 {
            return quiet(Flow::Abort(Fault::MissingOperand));
        }
        let key = program.text(pc + 1)[0];
        let value = program.text(pc + 2);
        let current: i32 = match self.registers.get(&key) {
            Some(n) => *n,
            None => {
                return quiet(advance(program, pc + 3));
            },
        };
        match parse_integer(value) {
            Some(n) => {
                let sum: i64 = current as i64 + n as i64;
                if sum < i32::MIN as i64 || sum > i32::MAX as i64 {
                    return quiet(Flow::Abort(Fault::Overflow));
                }
                self.registers.insert(key, sum as i32);
            },
            None => {
                let joined: Option<i32> = match self.strings.get(value) {
                    Some(s) => {
                        let mut text = render_integer(current);
                        extend(&mut text, s);
                        parse_integer(&text)
                    },
                    None => None,
                };
                match joined {
                    Some(n) => {
                        self.registers.insert(key, n);
                    },
                    None => {},
                }
            },
        }
        quiet(advance(program, pc + 3))
    }

    /// Carries out the instruction at `pc`, as the model's
    /// [`step`](machine::step) describes it.
    pub fn step(&mut self, program: &Program, pc: usize) -> (step: Step)
        requires
            old(self).wf(),
            well_formed(program@),
        ensures
            final(self).wf(),
            agrees(step, final(self)@, machine::step(old(self)@, program@, pc as int)),
    {
        reveal(machine::step);
        if pc >= program.len() {
            return quiet(Flow::End);
        }
        let token = program.text(pc);
        if spells(token, "INIT") {
            self.init(program, pc)
        } else if spells(token, "OUT") {
            self.out(program, pc)
        } else if spells(token, "STR") {
            self.str_block(program, pc)
        } else if spells(token, "OUTSTR") {
            self.outstr(program, pc)
        } else if spells(token, "LABEL") {
            self.label(program, pc)
        } else if spells(token, "GOTO") {
            self.goto(program, pc)
        } else if spells(token, "EXIT") {
            quiet(Flow::Exit)
        } else if spells(token, "INC") {
            self.inc(program, pc)
        } else {
            quiet(advance(program, pc + 1))
        }
    }

    /// Runs `program` from the token at `start`, for at most `limit`
    /// instructions, as the model's [`run`](machine::run) describes it.
    pub fn execute_from(&mut self, program: &Program, start: usize, limit: usize) -> (run: Run)
        requires
            old(self).wf(),
            well_formed(program@),
        ensures
            final(self).wf(),
            final(self)@ == machine::run(old(self)@, program@, start as int, limit as nat).machine,
            run.output@ == machine::run(old(self)@, program@, start as int, limit as nat).printed,
            run.end == machine::run(old(self)@, program@, start as int, limit as nat).end,
    {
        let ghost whole = machine::run(old(self)@, program@, start as int, limit as nat);
        let mut output = String::new();
        let mut pc = start;
        let mut left = limit;
        loop
            invariant
                self.wf(),
                well_formed(program@),
                whole == machine::run(old(self)@, program@, start as int, limit as nat),
                whole == machine::after_text(
                    output@,
                    machine::run(self@, program@, pc as int, left as nat),
                ),
            decreases left,
        {
            if pc >= program.len() {
                return Run { end: End::Finished, output };
            }
            if left == 0 {
                return Run { end: End::Suspended(pc), output };
            }
            let ghost before = output@;
            let ghost effect = machine::step(self@, program@, pc as int);
            let step = self.step(program, pc);
            output.append(step.output.as_str());
            match step.flow {
                Flow::Next(next) => {
                    proof {
                        let rest = machine::run(self@, program@, next as int, (left - 1) as nat);
                        assert(before + (effect.printed + rest.printed) == (before
                            + effect.printed) + rest.printed);
                    }
                    pc = next;
                    left -= 1;
                },
                Flow::End => {
                    return Run { end: End::Finished, output };
                },
                Flow::Exit => {
                    return Run { end: End::Exited, output };
                },
                Flow::Abort(fault) => {
                    return Run { end: End::Aborted(fault), output };
                },
            }
        }
    }

    /// Runs `program` from its first token, for at most `limit` instructions.
    pub fn execute(&mut self, program: &Program, limit: usize) -> (run: Run)
        requires
            old(self).wf(),
            well_formed(program@),
        ensures
            final(self).wf(),
            final(self)@ == machine::run(old(self)@, program@, 0, limit as nat).machine,
            run.output@ == machine::run(old(self)@, program@, 0, limit as nat).printed,
            run.end == machine::run(old(self)@, program@, 0, limit as nat).end,
    {
        self.execute_from(program, 0, limit)
    }
}

} // verus!
