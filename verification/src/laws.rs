//! Laws of the instruction set, proved from the model.
use vstd::prelude::*;
use crate::machine::{
    advance,
    after_text,
    block_end,
    is_instruction,
    lemma_block_end,
    lemma_instruction_names,
    out_text,
    quiet,
    register_of,
    run,
    step,
    texts,
    End,
    Flow,
    Machine,
};
use crate::number::{
    has_sign,
    integer_of,
    is_canonical,
    is_digit,
    lemma_parse_then_render,
    literal_digits,
    render_int,
};
use crate::program::{well_formed, TokenView};
use crate::text::{is_quoted, join, unescape};

verus! {

/// An integer literal is not quoted and has no decimal point.
pub proof fn lemma_integer_literal_is_plain(s: Seq<char>)
    requires
        integer_of(s) is Some,
    ensures
        !is_quoted(s),
        !s.contains('.'),
{
    let digits = literal_digits(s);
    assert(is_digit(digits[0]));
    if s.contains('.') {
        let i = choose|i: int| 0 <= i < s.len() && s[i] == '.';
        if has_sign(s) {
            if i > 0 {
                assert(is_digit(digits[i - 1]));
            }
        } else {
            assert(is_digit(digits[i]));
        }
    }
}

/// `INIT x v` followed by `OUT x`, where `v` is an integer literal: the
/// `OUT` writes the decimal text of the value of `v` and a line feed. Where
/// `v` is in canonical form, that is `v` itself.
pub proof fn law_integer_is_written_back(m: Machine, program: Seq<TokenView>, pc: int, n: i32)
    requires
        well_formed(program),
        program.len() <= usize::MAX,
        0 <= pc,
        pc + 4 < program.len(),
        program[pc].text == "INIT"@,
        integer_of(program[pc + 2].text) == Some(n),
        program[pc + 3].text == "OUT"@,
        register_of(program[pc + 4].text) == register_of(program[pc + 1].text),
    ensures
        step(m, program, pc).flow == Flow::Next((pc + 3) as usize),
        step(m, program, pc).printed == Seq::<char>::empty(),
        step(step(m, program, pc).machine, program, pc + 3).printed == render_int(n as int).push(
            '\n',
        ),
        is_canonical(program[pc + 2].text) ==> step(
            step(m, program, pc).machine,
            program,
            pc + 3,
        ).printed == program[pc + 2].text.push('\n'),
{
    reveal(step);
    lemma_instruction_names();
    lemma_integer_literal_is_plain(program[pc + 2].text);
    if is_canonical(program[pc + 2].text) {
        lemma_parse_then_render(program[pc + 2].text, n);
    }
}

/// A program that is `INIT x v OUT x EXIT` and nothing else, with `v` an
/// integer literal, writes the decimal text of the value of `v` and a line
/// feed, and ends by its `EXIT`: on every machine, and under every limit
/// that admits its three instructions.
pub proof fn law_init_out_exit(m: Machine, program: Seq<TokenView>, n: i32, limit: nat)
    requires
        well_formed(program),
        program.len() == 6,
        program[0].text == "INIT"@,
        integer_of(program[2].text) == Some(n),
        program[3].text == "OUT"@,
        register_of(program[4].text) == register_of(program[1].text),
        program[5].text == "EXIT"@,
        limit >= 3,
    ensures
        run(m, program, 0, limit).printed == render_int(n as int).push('\n'),
        run(m, program, 0, limit).end == End::Exited,
{
    law_integer_is_written_back(m, program, 0, n);
    let first = step(m, program, 0);
    let second = step(first.machine, program, 3);
    let third = step(second.machine, program, 5);
    assert(second.flow == Flow::Next(5) && third.flow == Flow::Exit && third.printed
        == Seq::<char>::empty()) by {
        reveal(step);
        lemma_instruction_names();
        lemma_integer_literal_is_plain(program[2].text);
    }
    let at_exit = run(second.machine, program, 5, (limit - 2) as nat);
    assert(at_exit.printed == Seq::<char>::empty() && at_exit.end == End::Exited);
    let at_out = run(first.machine, program, 3, (limit - 1) as nat);
    assert(at_out.printed == second.printed + at_exit.printed);
    assert(second.printed + Seq::<char>::empty() == second.printed);
    assert(Seq::<char>::empty() + at_out.printed == at_out.printed);
}

/// `INIT x v` followed by `OUT x`, where `v` has a decimal point and a
/// reading: the `OUT` writes the truncated value as an integer, not the
/// floating-point number.
pub proof fn law_float_is_written_truncated(m: Machine, program: Seq<TokenView>, pc: int)
    requires
        well_formed(program),
        program.len() <= usize::MAX,
        0 <= pc,
        pc + 4 < program.len(),
        program[pc].text == "INIT"@,
        !is_quoted(program[pc + 2].text),
        program[pc + 2].text.contains('.'),
        program[pc + 2].float is Some,
        program[pc + 3].text == "OUT"@,
        register_of(program[pc + 4].text) == register_of(program[pc + 1].text),
    ensures
        step(m, program, pc).flow == Flow::Next((pc + 3) as usize),
        step(m, program, pc).printed == Seq::<char>::empty(),
        step(step(m, program, pc).machine, program, pc + 3).printed == render_int(
            program[pc + 2].float->0.truncated as int,
        ).push('\n'),
{
    reveal(step);
    lemma_instruction_names();
}

/// `INC` on a register that is not set does nothing, and an `OUT` of the
/// same name after it finds the register as unset as before: it writes the
/// string of that name, or the reading of the name, or the name itself,
/// and never a register's value.
pub proof fn law_inc_leaves_unset_register_unset(m: Machine, program: Seq<TokenView>, pc: int)
    requires
        well_formed(program),
        0 <= pc,
        pc + 2 < program.len(),
        program[pc].text == "INC"@,
        !m.registers.contains_key(register_of(program[pc + 1].text)),
    ensures
        step(m, program, pc) == quiet(m, advance(program, pc + 3)),
        out_text(step(m, program, pc).machine, program[pc + 1]) == (if m.strings.contains_key(
            program[pc + 1].text,
        ) {
            Some(m.strings[program[pc + 1].text])
        } else if program[pc + 1].text.contains('.') {
            match program[pc + 1].float {
                Some(reading) => Some(reading.shown),
                None => None,
            }
        } else {
            Some(program[pc + 1].text)
        }),
{
    reveal(step);
    lemma_instruction_names();
}

/// A token that names no instruction changes nothing, writes nothing, and
/// moves the program counter by exactly one.
pub proof fn law_unknown_token_is_skipped(m: Machine, program: Seq<TokenView>, pc: int)
    requires
        0 <= pc < program.len(),
        !is_instruction(program[pc].text),
    ensures
        step(m, program, pc) == quiet(m, advance(program, pc + 1)),
{
    reveal(step);
}

/// A token that names no instruction does not disturb what follows: a run
/// from it is the run from the token after it, one instruction shorter.
pub proof fn law_unknown_token_keeps_the_run(
    m: Machine,
    program: Seq<TokenView>,
    pc: int,
    limit: nat,
)
    requires
        program.len() <= usize::MAX,
        0 <= pc < program.len(),
        !is_instruction(program[pc].text),
    ensures
        run(m, program, pc, limit + 1) == run(m, program, pc + 1, limit),
{
    law_unknown_token_is_skipped(m, program, pc);
    let rest = run(m, program, pc + 1, limit);
    assert(Seq::<char>::empty() + rest.printed == rest.printed);
}

/// `GOTO name` with `name` recorded goes to the recorded place and changes
/// nothing.
pub proof fn law_goto_goes_to_its_label(m: Machine, program: Seq<TokenView>, pc: int)
    requires
        0 <= pc,
        pc + 1 < program.len(),
        program[pc].text == "GOTO"@,
        m.labels.contains_key(program[pc + 1].text),
    ensures
        step(m, program, pc) == quiet(
            m,
            advance(program, m.labels[program[pc + 1].text] as int),
        ),
{
    reveal(step);
    lemma_instruction_names();
}

/// `LABEL name` records its own place and passes on to the token after its
/// operand.
pub proof fn law_label_records_its_place(m: Machine, program: Seq<TokenView>, pc: int)
    requires
        program.len() <= usize::MAX,
        0 <= pc,
        pc + 1 < program.len(),
        program[pc].text == "LABEL"@,
    ensures
        step(m, program, pc) == quiet(
            Machine { labels: m.labels.insert(program[pc + 1].text, pc as usize), ..m },
            advance(program, pc + 2),
        ),
{
    reveal(step);
    lemma_instruction_names();
}

/// A `GOTO` whose label was recorded by a `LABEL` of the program enters
/// the program again just after that `LABEL`: the run from the `GOTO` is
/// the run from the token after the label's name, two instructions
/// shorter, on the same machine.
pub proof fn law_goto_reenters_after_label(
    m: Machine,
    program: Seq<TokenView>,
    label: int,
    goto: int,
    limit: nat,
)
    requires
        program.len() <= usize::MAX,
        0 <= label,
        label + 1 < program.len(),
        0 <= goto,
        goto + 1 < program.len(),
        program[label].text == "LABEL"@,
        program[goto].text == "GOTO"@,
        program[goto + 1].text == program[label + 1].text,
        m.labels.contains_key(program[label + 1].text),
        m.labels[program[label + 1].text] == label,
    ensures
        run(m, program, goto, limit + 2) == run(m, program, label + 2, limit),
{
    let name = program[label + 1].text;
    law_goto_goes_to_its_label(m, program, goto);
    law_label_records_its_place(m, program, label);
    assert(m.labels.insert(name, label as usize) == m.labels);
    assert(step(m, program, label).machine == m);
    let rest = run(m, program, label + 2, limit);
    assert(Seq::<char>::empty() + rest.printed == rest.printed);
    assert(run(m, program, label, limit + 1) == rest);
    assert(run(m, program, goto, limit + 2) == run(m, program, label, limit + 1));
}

/// A loop that `GOTO` closes does not end by itself: where `LABEL name` is
/// followed at once by `GOTO name`, every bounded run from the `LABEL` uses
/// up its limit and writes nothing.
pub proof fn law_closed_loop_never_ends(
    m: Machine,
    program: Seq<TokenView>,
    label: int,
    limit: nat,
)
    requires
        program.len() <= usize::MAX,
        0 <= label,
        label + 3 < program.len(),
        program[label].text == "LABEL"@,
        program[label + 2].text == "GOTO"@,
        program[label + 3].text == program[label + 1].text,
    ensures
        run(m, program, label, limit).end is Suspended,
        run(m, program, label, limit).printed == Seq::<char>::empty(),
    decreases limit,
{
    if limit >= 1 {
        law_label_records_its_place(m, program, label);
        let labelled = step(m, program, label).machine;
        if limit >= 2 {
            law_goto_goes_to_its_label(labelled, program, label + 2);
            law_closed_loop_never_ends(labelled, program, label, (limit - 2) as nat);
            let again = run(labelled, program, label, (limit - 2) as nat);
            assert(Seq::<char>::empty() + again.printed == again.printed);
            assert(run(labelled, program, label + 2, (limit - 1) as nat) == again);
        }
        let rest = run(labelled, program, label + 2, (limit - 1) as nat);
        assert(Seq::<char>::empty() + rest.printed == rest.printed);
    }
}

/// A run that was suspended and is taken up again does what one long run
/// does: with a limit of `first + second`, the run is the run with limit
/// `first`, followed, if that one was suspended, by a run with limit
/// `second` from where it stopped.
pub proof fn law_resumed_run_is_one_run(
    m: Machine,
    program: Seq<TokenView>,
    pc: int,
    first: nat,
    second: nat,
)
    requires
        program.len() <= usize::MAX,
    ensures
        run(m, program, pc, first + second) == (match run(m, program, pc, first).end {
            End::Suspended(at) => after_text(
                run(m, program, pc, first).printed,
                run(run(m, program, pc, first).machine, program, at as int, second),
            ),
            _ => run(m, program, pc, first),
        }),
    decreases first,
{
    if 0 <= pc < program.len() && first == 0 {
        let rest = run(m, program, pc, second);
        assert(Seq::<char>::empty() + rest.printed == rest.printed);
    } else if 0 <= pc < program.len() {
        let head = step(m, program, pc);
        match head.flow {
            Flow::Next(next) => {
                law_resumed_run_is_one_run(
                    head.machine,
                    program,
                    next as int,
                    (first - 1) as nat,
                    second,
                );
                let tail = run(head.machine, program, next as int, (first - 1) as nat);
                match tail.end {
                    End::Suspended(at) => {
                        let rest = run(tail.machine, program, at as int, second);
                        assert(head.printed + (tail.printed + rest.printed) == (head.printed
                            + tail.printed) + rest.printed);
                    },
                    _ => {},
                }
            },
            _ => {},
        }
    }
}

/// `STR name content... OUTSTR name` writes the content as it was stored:
/// the tokens between the name and the `OUTSTR`, joined by single spaces,
/// with their escaped line feeds made real, and no character more.
pub proof fn law_str_block_is_written_as_stored(m: Machine, program: Seq<TokenView>, pc: int)
    requires
        program.len() <= usize::MAX,
        0 <= pc,
        pc + 1 < program.len(),
        program[pc].text == "STR"@,
        block_end(program, pc + 2) + 1 < program.len(),
        program[block_end(program, pc + 2) + 1].text == program[pc + 1].text,
    ensures
        step(m, program, pc).flow == Flow::Next(block_end(program, pc + 2) as usize),
        step(m, program, pc).printed == Seq::<char>::empty(),
        step(step(m, program, pc).machine, program, block_end(program, pc + 2)).printed
            == unescape(join(texts(program, pc + 2, block_end(program, pc + 2)))),
{
    reveal(step);
    lemma_instruction_names();
    lemma_block_end(program, pc + 2);
}

/// No instruction writes to the memory: it is after every step, and after
/// every run, what it was before.
pub proof fn law_memory_is_never_written(
    m: Machine,
    program: Seq<TokenView>,
    pc: int,
    limit: nat,
)
    ensures
        step(m, program, pc).machine.memory == m.memory,
        run(m, program, pc, limit).machine.memory == m.memory,
    decreases limit,
{
    reveal(step);
    if 0 <= pc < program.len() && limit > 0 {
        match step(m, program, pc).flow {
            Flow::Next(next) => {
                law_memory_is_never_written(
                    step(m, program, pc).machine,
                    program,
                    next as int,
                    (limit - 1) as nat,
                );
            },
            _ => {},
        }
    }
}

} // verus!
