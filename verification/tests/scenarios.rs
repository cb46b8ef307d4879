use kodit::errors::ErrorKind;
use kodit::lexer;
use kodit::lexing_specification::LexingSpecification;
use kodit::lexing_specification::v0::LexingSpecificationV0;
use kodit::line::decompose_lines;
use kodit::vm::VM;

fn run_with_inputs(source: &str, inputs: &[&str]) -> Result<String, kodit::errors::RunError> {
    let lines: Vec<String> = source.lines().map(|l| l.to_string()).collect();
    let raw = decompose_lines(&lines)?;
    let specs = vec![LexingSpecification::V0(LexingSpecificationV0::built_in())];
    let code = lexer::lex(&raw, &specs)?;
    let input_vec: Vec<String> = inputs.iter().map(|s| s.to_string()).collect();
    let mut vm = VM::new();
    let outputs = vm.evaluate(&"test".to_string(), &code, &input_vec, 1_000_000)?;
    Ok(outputs.concat())
}

fn run(source: &str) -> Result<String, kodit::errors::RunError> {
    run_with_inputs(source, &[])
}

#[test]
fn hello_world() {
    let out = run("say \"Hello, World!\\n\"").unwrap();
    assert_eq!(out, "Hello, World!\n");
}

#[test]
fn arithmetic_and_variables() {
    let out = run("set x 2\nset y 3\nsum x + y\nsay @save\nsay \"\\n\"").unwrap();
    assert_eq!(out, "5\n");
}

#[test]
fn function_call() {
    let source = "call double 4\nsay @save\nsay \"\\n\"\ngoto end\nfunction double n\nsum n + n\nreturn @save\nlabel end\nnoop";
    let out = run(source).unwrap();
    assert_eq!(out, "8\n");
}

#[test]
fn for_loop_counting() {
    let source = "set i 0\nfor loop done i 3\nsay i\ncontinue loop\nlabel done\nsay \"\\n\"";
    let out = run(source).unwrap();
    assert_eq!(out, "012\n");
}

#[test]
fn tables_and_slice() {
    let source = "table t 2 2\nput t 0 0 10\nput t 0 1 20\nput t 1 0 30\nput t 1 1 40\nslice t 1 0\nget @save 0 1\nsay @save\nsay \"\\n\"";
    let out = run(source).unwrap();
    assert_eq!(out, "40\n");
}

#[test]
fn gc_preserves_reachable_tables() {
    let source = "set i 0\nfor loop done i 25\ntable keep 2\nput keep 0 123\ncontinue loop\nlabel done\nget keep 0\nsay @save\nsay \"\\n\"";
    let out = run(source).unwrap();
    assert_eq!(out, "123\n");
}

#[test]
fn ask_reads_scripted_input() {
    let out = run_with_inputs("ask \"name? \"\nsay @save\nsay \"!\"", &["world\n"]).unwrap();
    assert_eq!(out, "name? world!");
}

#[test]
fn table_literal_expression() {
    let source = "set t [2 2][1 2 3 4]\nget t 1 1\nsay @save";
    let out = run(source).unwrap();
    assert_eq!(out, "4");
}

#[test]
fn string_concatenation() {
    let out = run("sum \"ab\" + \"cd\"\nsay @save").unwrap();
    assert_eq!(out, "abcd");
}

#[test]
fn number_and_string_concatenation() {
    let out = run("sum 4 + \"x\"\nsay @save").unwrap();
    assert_eq!(out, "4x");
}

#[test]
fn string_comparison() {
    let out = run("sum \"abc\" < \"abd\"\nsay @save").unwrap();
    assert_eq!(out, "1");
}

#[test]
fn numeric_comparisons() {
    let out = run("sum 3 >= 3\nsay @save\nsum 2 > 3\nsay @save\nsum 2 == 2\nsay @save").unwrap();
    assert_eq!(out, "101");
}

#[test]
fn negative_numbers_print() {
    let out = run("say -5").unwrap();
    assert_eq!(out, "-5");
}

#[test]
fn division_and_remainder() {
    let out = run("sum 7 / 2\nsay @save\nsum 7 % 2\nsay @save").unwrap();
    assert_eq!(out, "31");
}

#[test]
fn division_by_zero_is_an_error() {
    let err = run("sum 1 / 0\nsay @save").unwrap_err();
    assert_eq!(err.kind, ErrorKind::DivisionByZero);
    assert_eq!(err.line, 1);
}

#[test]
fn unbound_variable_is_an_error() {
    let err = run("say ghost_name").unwrap_err();
    assert_eq!(err.kind, ErrorKind::Unbound);
}

#[test]
fn saying_a_table_is_an_error() {
    let err = run("table t 1\nsay t").unwrap_err();
    assert_eq!(err.kind, ErrorKind::SayTable);
    assert_eq!(err.line, 2);
}

#[test]
fn return_from_root_is_an_error() {
    let err = run("return").unwrap_err();
    assert_eq!(err.kind, ErrorKind::RootReturn);
}

#[test]
fn uninitialized_cell_is_an_error() {
    let err = run("table t 2\nget t 1\nsay @save").unwrap_err();
    assert_eq!(err.kind, ErrorKind::UninitCell);
}

#[test]
fn out_of_bounds_access_is_an_error() {
    let err = run("table t 2\nput t 5 1").unwrap_err();
    assert_eq!(err.kind, ErrorKind::OutOfBounds);
}

#[test]
fn slice_out_of_range_is_an_error() {
    let err = run("table t 2\nslice t 2").unwrap_err();
    assert_eq!(err.kind, ErrorKind::SliceOutOfRange);
}

#[test]
fn goto_unknown_label_is_an_error() {
    let err = run("goto nowhere").unwrap_err();
    assert_eq!(err.kind, ErrorKind::UnknownLabel);
}

#[test]
fn goto_next_skips_one_line() {
    let out = run("goto next\nsay \"a\"\nsay \"b\"").unwrap();
    assert_eq!(out, "ab");
}

#[test]
fn innermost_binding_wins() {
    let out = run("set x 1\nset x 2\nsay x").unwrap();
    assert_eq!(out, "2");
}

#[test]
fn if_branches_on_truthiness() {
    let source = "if 0 yes no\nlabel yes\nsay \"y\"\ngoto end\nlabel no\nsay \"n\"\nlabel end\nnoop";
    let out = run(source).unwrap();
    assert_eq!(out, "n");
}

#[test]
fn string_escapes_are_decoded() {
    let out = run("say \"a\\tb\"").unwrap();
    assert_eq!(out, "a\tb");
}

#[test]
fn unclosed_string_is_an_error() {
    let err = run("say \"oops").unwrap_err();
    assert_eq!(err.kind, ErrorKind::UnclosedString);
    assert_eq!(err.line, 1);
}

#[test]
fn unclosed_bracket_is_an_error() {
    let err = run("set t [1").unwrap_err();
    assert_eq!(err.kind, ErrorKind::UnclosedBracket);
}

#[test]
fn bad_table_literal_is_an_error() {
    let err = run("set t [1 2]").unwrap_err();
    assert_eq!(err.kind, ErrorKind::BadTableLiteral);
}

#[test]
fn comments_are_dropped() {
    let out = run("say \"a\" // the rest is a comment\nsay \"b\"").unwrap();
    assert_eq!(out, "ab");
}

#[test]
fn no_matching_specification_is_an_error() {
    let lines = vec!["say 1".to_string()];
    let raw = decompose_lines(&lines).unwrap();
    let specs: Vec<LexingSpecification> = Vec::new();
    let err = lexer::lex(&raw, &specs).unwrap_err();
    assert_eq!(err.kind, ErrorKind::LexicalNoMatch);
}

#[test]
fn multi_line_table_literal() {
    let source = "set t [2\n2][1 2\n3 4]\nget t 0 1\nsay @save";
    let out = run(source).unwrap();
    assert_eq!(out, "2");
}

#[test]
fn step_limit_stops_infinite_loops() {
    let err = run("label spin\ngoto spin").unwrap_err();
    assert_eq!(err.kind, ErrorKind::StepLimit);
}
