use token_machine::interpreter::{Interpreter, Run};
use token_machine::machine::{End, Fault, Flow};
use token_machine::program::Program;

fn read(source: &str) -> Program {
    let mut program = Program::parse(source);
    for i in 0..program.len() {
        if program.has_point(i) {
            if let Ok(value) = program.word(i).parse::<f64>() {
                program.set_reading(i, value as i32, &format!("{}", value));
            }
        }
    }
    program
}

fn run_fresh(source: &str, limit: usize) -> Run {
    Interpreter::new().execute(&read(source), limit)
}

#[test]
fn new_interpreter_is_empty() {
    let interpreter = Interpreter::new();
    assert_eq!(interpreter.register('a'), None);
    assert_eq!(interpreter.string("a"), None);
    assert_eq!(interpreter.label_place("a"), None);
    assert_eq!(interpreter.memory().len(), 100);
    assert!(interpreter.memory().iter().all(|cell| *cell == 0));
}

#[test]
fn init_out_exit_round_trip() {
    let run = run_fresh("INIT a 42 OUT a EXIT", 100);
    assert_eq!(run.output, "42\n");
    assert_eq!(run.end, End::Exited);
}

#[test]
fn integer_literals_are_written_back() {
    for v in ["0", "7", "42", "-13", "2147483647", "-2147483648"] {
        let run = run_fresh(&format!("INIT x {} OUT x", v), 100);
        assert_eq!(run.output, format!("{}\n", v));
        assert_eq!(run.end, End::Finished);
    }
}

#[test]
fn integer_literals_are_written_in_canonical_form() {
    assert_eq!(run_fresh("INIT x +5 OUT x", 100).output, "5\n");
    assert_eq!(run_fresh("INIT x 007 OUT x", 100).output, "7\n");
    assert_eq!(run_fresh("INIT x -0 OUT x", 100).output, "0\n");
}

#[test]
fn float_literals_are_truncated() {
    assert_eq!(run_fresh("INIT x 3.99 OUT x", 100).output, "3\n");
    assert_eq!(run_fresh("INIT x -3.99 OUT x", 100).output, "-3\n");
    assert_eq!(run_fresh("INIT x 0.5 OUT x", 100).output, "0\n");
    assert_eq!(run_fresh("INIT x 42.0 OUT x", 100).output, "42\n");
    assert_eq!(run_fresh("INIT x 1.5e2 OUT x", 100).output, "150\n");
    assert_eq!(run_fresh("INIT x 99999999999.5 OUT x", 100).output, "2147483647\n");
}

#[test]
fn float_reading_is_taken_as_given() {
    let mut program = Program::parse("INIT x 2.75 OUT x");
    program.set_reading(2, 2, "2.75");
    let mut interpreter = Interpreter::new();
    let run = interpreter.execute(&program, 10);
    assert_eq!(run.output, "2\n");
    assert_eq!(interpreter.register('x'), Some(2));
}

#[test]
fn float_without_reading_aborts_init() {
    let run = Interpreter::new().execute(&Program::parse("OUT before INIT x 3.5 OUT x"), 100);
    assert_eq!(run.output, "before\n");
    assert_eq!(run.end, End::Aborted(Fault::BadFloat));
    let run = run_fresh("INIT x 1.2.3 OUT x", 100);
    assert_eq!(run.output, "");
    assert_eq!(run.end, End::Aborted(Fault::BadFloat));
}

#[test]
fn bad_integer_aborts_init() {
    let mut interpreter = Interpreter::new();
    let run = interpreter.execute(&read("OUT start INIT a abc OUT a"), 100);
    assert_eq!(run.output, "start\n");
    assert_eq!(run.end, End::Aborted(Fault::BadInteger));
    assert_eq!(interpreter.register('a'), None);
    assert_eq!(run_fresh("INIT a 2147483648", 100).end, End::Aborted(Fault::BadInteger));
    assert_eq!(run_fresh("INIT a \"x", 100).end, End::Aborted(Fault::BadInteger));
}

#[test]
fn missing_operands_abort() {
    for source in [
        "INIT", "INIT a", "OUT", "STR", "OUTSTR", "LABEL", "GOTO", "INC", "INC a",
        "OUT x INIT a",
    ] {
        let run = run_fresh(source, 100);
        assert_eq!(run.end, End::Aborted(Fault::MissingOperand), "{}", source);
    }
    assert_eq!(run_fresh("OUT x INIT a", 100).output, "x\n");
}

#[test]
fn init_string_strips_quotes() {
    let mut interpreter = Interpreter::new();
    let run = interpreter.execute(&read("INIT name \"hello\" OUT name"), 100);
    assert_eq!(run.output, "hello\n");
    assert_eq!(run.end, End::Finished);
    assert_eq!(interpreter.string("name"), Some("hello".to_string()));
    assert_eq!(interpreter.register('n'), None);
}

#[test]
fn init_string_of_quotes_alone_is_empty() {
    let mut interpreter = Interpreter::new();
    interpreter.execute(&read("INIT s \" INIT t \"\" INIT u \"\"x\"\""), 100);
    assert_eq!(interpreter.string("s"), Some(String::new()));
    assert_eq!(interpreter.string("t"), Some(String::new()));
    assert_eq!(interpreter.string("u"), Some("x".to_string()));
}

#[test]
fn init_quoted_value_with_point_is_a_string() {
    let mut interpreter = Interpreter::new();
    let run = interpreter.execute(&read("INIT v \"1.5\" OUT v"), 100);
    assert_eq!(run.output, "1.5\n");
    assert_eq!(interpreter.string("v"), Some("1.5".to_string()));
    assert_eq!(interpreter.register('v'), None);
}

#[test]
fn registers_are_named_by_first_character() {
    let mut interpreter = Interpreter::new();
    let run = interpreter.execute(&read("INIT abc 1 OUT apple INIT axe 2 OUT a"), 100);
    assert_eq!(run.output, "1\n2\n");
    assert_eq!(interpreter.register('a'), Some(2));
}

#[test]
fn out_prefers_register_over_string() {
    let run = run_fresh("INIT a \"text\" INIT a 5 OUT a", 100);
    assert_eq!(run.output, "5\n");
    let run = run_fresh("INIT a 5 INIT apple \"text\" OUT apple", 100);
    assert_eq!(run.output, "5\n");
}

#[test]
fn out_writes_a_float_literal_as_its_reading_shows() {
    assert_eq!(run_fresh("OUT 2.50", 100).output, "2.5\n");
    assert_eq!(run_fresh("OUT 1.0", 100).output, "1\n");
    assert_eq!(run_fresh("OUT -0.125", 100).output, "-0.125\n");
}

#[test]
fn out_of_a_float_without_reading_aborts() {
    let run = run_fresh("OUT a.b", 100);
    assert_eq!(run.output, "");
    assert_eq!(run.end, End::Aborted(Fault::BadFloat));
}

#[test]
fn out_writes_an_unknown_value_as_it_stands() {
    assert_eq!(run_fresh("OUT hello", 100).output, "hello\n");
    assert_eq!(run_fresh("OUT 17", 100).output, "17\n");
    assert_eq!(run_fresh("OUT +17", 100).output, "+17\n");
}

#[test]
fn str_block_is_written_without_line_feed() {
    let run = run_fresh("STR greeting Hello World OUTSTR greeting", 100);
    assert_eq!(run.output, "Hello World");
    assert_eq!(run.end, End::Finished);
}

#[test]
fn str_block_escape_gives_two_lines() {
    let run = run_fresh("STR s line1\\nline2 OUTSTR s", 100);
    assert_eq!(run.output, "line1\nline2");
    assert_eq!(run.output.lines().count(), 2);
}

#[test]
fn str_block_joins_with_single_spaces() {
    let mut interpreter = Interpreter::new();
    interpreter.execute(&read("STR s   a \t b \n\n c   OUTSTR s"), 100);
    assert_eq!(interpreter.string("s"), Some("a b c".to_string()));
}

#[test]
fn str_block_without_outstr_runs_to_the_end() {
    let mut interpreter = Interpreter::new();
    let run = interpreter.execute(&read("STR s one two EXIT OUT x"), 100);
    assert_eq!(run.output, "");
    assert_eq!(run.end, End::Finished);
    assert_eq!(interpreter.string("s"), Some("one two EXIT OUT x".to_string()));
}

#[test]
fn str_block_ends_at_the_first_outstr() {
    let mut interpreter = Interpreter::new();
    let run = interpreter.execute(&read("STR s say OUTSTR loudly OUTSTR s"), 100);
    assert_eq!(interpreter.string("s"), Some("say".to_string()));
    assert_eq!(run.output, "say");
    assert_eq!(run.end, End::Finished);
}

#[test]
fn str_block_may_be_empty() {
    let mut interpreter = Interpreter::new();
    let run = interpreter.execute(&read("STR s OUTSTR s OUT done"), 100);
    assert_eq!(interpreter.string("s"), Some(String::new()));
    assert_eq!(run.output, "done\n");
    let mut interpreter = Interpreter::new();
    let run = interpreter.execute(&read("STR s"), 100);
    assert_eq!(interpreter.string("s"), Some(String::new()));
    assert_eq!(run.end, End::Finished);
}

#[test]
fn outstr_of_unknown_name_writes_nothing() {
    let run = run_fresh("OUTSTR nothing OUT after", 100);
    assert_eq!(run.output, "after\n");
    assert_eq!(run.end, End::Finished);
}

#[test]
fn label_records_its_own_place() {
    let mut interpreter = Interpreter::new();
    interpreter.execute(&read("OUT x LABEL here OUT y"), 100);
    assert_eq!(interpreter.label_place("here"), Some(2));
    assert_eq!(interpreter.label_place("there"), None);
}

#[test]
fn goto_loops_until_the_limit() {
    let mut interpreter = Interpreter::new();
    let run = interpreter.execute(&read("LABEL loop OUT tick GOTO loop OUT never"), 9);
    assert_eq!(run.output, "tick\ntick\ntick\n");
    assert_eq!(run.end, End::Suspended(0));
    let run = interpreter.execute(&read("LABEL loop OUT tick GOTO loop OUT never"), 1000);
    assert_eq!(run.end, End::Suspended(2));
    assert_eq!(run.output.lines().count(), 333);
}

#[test]
fn goto_loop_is_left_by_exit_only() {
    let run = run_fresh("LABEL l GOTO l", 12345);
    assert_eq!(run.output, "");
    assert!(matches!(run.end, End::Suspended(_)));
    let run = run_fresh("LABEL l OUT once EXIT GOTO l", 12345);
    assert_eq!(run.output, "once\n");
    assert_eq!(run.end, End::Exited);
}

#[test]
fn goto_forward_needs_the_label_seen() {
    let run = run_fresh("GOTO end OUT a OUT b LABEL end OUT c", 100);
    assert_eq!(run.output, "b\nc\n");
    assert_eq!(run.end, End::Finished);
}

#[test]
fn goto_without_label_moves_on_by_four() {
    let run = run_fresh("GOTO nowhere OUT a OUT b", 100);
    assert_eq!(run.output, "b\n");
    assert_eq!(run.end, End::Finished);
    let run = run_fresh("GOTO nowhere OUT a", 100);
    assert_eq!(run.output, "");
    assert_eq!(run.end, End::Finished);
}

#[test]
fn inc_adds_an_integer() {
    let mut interpreter = Interpreter::new();
    let run = interpreter.execute(&read("INIT a 40 INC a 2 OUT a INC a -50 OUT a"), 100);
    assert_eq!(run.output, "42\n-8\n");
    assert_eq!(interpreter.register('a'), Some(-8));
}

#[test]
fn inc_on_unset_register_is_a_no_op() {
    let mut interpreter = Interpreter::new();
    let run = interpreter.execute(&read("INC x 5 OUT x"), 100);
    assert_eq!(run.output, "x\n");
    assert_eq!(run.end, End::Finished);
    assert_eq!(interpreter.register('x'), None);
}

#[test]
fn inc_on_unset_register_leaves_string_lookup() {
    let run = run_fresh("INIT x \"text\" INC x 5 OUT x", 100);
    assert_eq!(run.output, "text\n");
}

#[test]
fn inc_with_string_appends_digits() {
    let mut interpreter = Interpreter::new();
    let run = interpreter.execute(&read("INIT a 4 INIT s \"2\" INC a s OUT a"), 100);
    assert_eq!(run.output, "42\n");
    assert_eq!(interpreter.register('a'), Some(42));
}

#[test]
fn inc_with_string_that_makes_no_number_changes_nothing() {
    let mut interpreter = Interpreter::new();
    let run = interpreter.execute(
        &read("INIT a 4 INIT s \"x\" INC a s OUT a INIT b 2147483647 INIT t \"0\" INC b t OUT b"),
        100,
    );
    assert_eq!(run.output, "4\n2147483647\n");
    assert_eq!(run.end, End::Finished);
}

#[test]
fn inc_with_unknown_value_changes_nothing() {
    let run = run_fresh("INIT a 4 INC a nothing OUT a INC a 1.5 OUT a", 100);
    assert_eq!(run.output, "4\n4\n");
}

#[test]
fn inc_overflow_aborts() {
    let mut interpreter = Interpreter::new();
    let run = interpreter.execute(&read("INIT a 2147483647 OUT a INC a 1 OUT a"), 100);
    assert_eq!(run.output, "2147483647\n");
    assert_eq!(run.end, End::Aborted(Fault::Overflow));
    assert_eq!(interpreter.register('a'), Some(2147483647));
    let run = run_fresh("INIT a -2147483648 INC a -1", 100);
    assert_eq!(run.end, End::Aborted(Fault::Overflow));
}

#[test]
fn unknown_tokens_are_skipped() {
    let run = run_fresh("FOO BAR INIT a 1 OUT a EXIT", 100);
    assert_eq!(run.output, "1\n");
    assert_eq!(run.end, End::Exited);
}

#[test]
fn instruction_names_are_case_sensitive() {
    let run = run_fresh("init a 1 Out a exit OUT a", 100);
    assert_eq!(run.output, "a\n");
    assert_eq!(run.end, End::Finished);
}

#[test]
fn empty_program_finishes_at_once() {
    let run = run_fresh("", 0);
    assert_eq!(run.output, "");
    assert_eq!(run.end, End::Finished);
}

#[test]
fn limit_zero_suspends_at_the_start() {
    let run = run_fresh("OUT a", 0);
    assert_eq!(run.output, "");
    assert_eq!(run.end, End::Suspended(0));
}

#[test]
fn exit_stops_the_run() {
    let run = run_fresh("OUT a EXIT OUT b", 100);
    assert_eq!(run.output, "a\n");
    assert_eq!(run.end, End::Exited);
}

#[test]
fn newlines_in_source_are_plain_separators() {
    let run = run_fresh("INIT\na\n42\nOUT\na\nEXIT\n", 100);
    assert_eq!(run.output, "42\n");
    assert_eq!(run.end, End::Exited);
}

#[test]
fn step_reports_flow_and_output() {
    let program = read("INIT a 1 OUT a FOO EXIT");
    let mut interpreter = Interpreter::new();
    let step = interpreter.step(&program, 0);
    assert_eq!(step.flow, Flow::Next(3));
    assert_eq!(step.output, "");
    let step = interpreter.step(&program, 3);
    assert_eq!(step.flow, Flow::Next(5));
    assert_eq!(step.output, "1\n");
    let step = interpreter.step(&program, 5);
    assert_eq!(step.flow, Flow::Next(6));
    assert_eq!(step.output, "");
    let step = interpreter.step(&program, 6);
    assert_eq!(step.flow, Flow::Exit);
    let step = interpreter.step(&program, 7);
    assert_eq!(step.flow, Flow::End);
    let step = interpreter.step(&program, usize::MAX);
    assert_eq!(step.flow, Flow::End);
}

#[test]
fn step_past_the_last_token_ends() {
    let program = read("OUT a");
    let mut interpreter = Interpreter::new();
    let step = interpreter.step(&program, 0);
    assert_eq!(step.flow, Flow::End);
    assert_eq!(step.output, "a\n");
    let program = read("FOO");
    assert_eq!(interpreter.step(&program, 0).flow, Flow::End);
}

#[test]
fn step_aborts_without_changing_the_machine() {
    let program = read("INIT a 1 INIT a x");
    let mut interpreter = Interpreter::new();
    interpreter.step(&program, 0);
    let step = interpreter.step(&program, 3);
    assert_eq!(step.flow, Flow::Abort(Fault::BadInteger));
    assert_eq!(step.output, "");
    assert_eq!(interpreter.register('a'), Some(1));
}

#[test]
fn resumed_run_equals_one_run() {
    let source = "INIT a 1 LABEL top OUT a INC a 1 GOTO top";
    let program = read(source);
    let mut whole = Interpreter::new();
    let one = whole.execute(&program, 50);
    let mut parts = Interpreter::new();
    let first = parts.execute(&program, 20);
    let at = match first.end {
        End::Suspended(at) => at,
        _ => panic!("the first part should be suspended"),
    };
    let second = parts.execute_from(&program, at, 30);
    assert_eq!(format!("{}{}", first.output, second.output), one.output);
    assert_eq!(second.end, one.end);
    assert_eq!(parts.register('a'), whole.register('a'));
}

#[test]
fn execute_from_starts_at_the_given_token() {
    let program = read("OUT a OUT b OUT c");
    let mut interpreter = Interpreter::new();
    let run = interpreter.execute_from(&program, 2, 100);
    assert_eq!(run.output, "b\nc\n");
    let run = interpreter.execute_from(&program, 6, 100);
    assert_eq!(run.output, "");
    assert_eq!(run.end, End::Finished);
}

#[test]
fn machine_state_outlives_a_run() {
    let mut interpreter = Interpreter::new();
    interpreter.execute(&read("INIT a 7 STR s kept OUTSTR z LABEL mark"), 100);
    let run = interpreter.execute(&read("OUT a OUTSTR s"), 100);
    assert_eq!(run.output, "7\nkept");
    assert_eq!(interpreter.label_place("mark"), Some(8));
}

#[test]
fn memory_is_never_written() {
    let mut interpreter = Interpreter::new();
    interpreter.execute(
        &read("INIT a 1 INIT s \"x\" STR t a b OUTSTR t LABEL l INC a 5 OUT a FOO EXIT"),
        100,
    );
    assert_eq!(interpreter.memory().len(), 100);
    assert!(interpreter.memory().iter().all(|cell| *cell == 0));
}

#[test]
fn goto_to_a_place_past_the_program_ends_the_run() {
    let mut interpreter = Interpreter::new();
    interpreter.execute(&read("OUT a OUT b OUT c LABEL far"), 100);
    assert_eq!(interpreter.label_place("far"), Some(6));
    let run = interpreter.execute(&read("GOTO far OUT never"), 100);
    assert_eq!(run.output, "");
    assert_eq!(run.end, End::Finished);
}

#[test]
fn label_is_recorded_again_on_each_pass() {
    let mut interpreter = Interpreter::new();
    let program = read("OUT x LABEL top LABEL top GOTO top");
    let run = interpreter.execute(&program, 7);
    assert_eq!(run.output, "x\n");
    assert_eq!(interpreter.label_place("top"), Some(4));
    assert_eq!(run.end, End::Suspended(6));
}
