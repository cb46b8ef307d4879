use kodit::errors::ErrorKind;
use kodit::lexer;
use kodit::lexing_specification::LexingSpecification;
use kodit::lexing_specification::v0::LexingSpecificationV0;
use kodit::line::{Command, LineItem, decompose_lines};
use kodit::table::TableManager;
use kodit::value::Value;

#[test]
fn command_lookup_is_case_insensitive() {
    assert!(matches!(Command::from_string("say"), Command::SAY));
    assert!(matches!(Command::from_string("SAY"), Command::SAY));
    assert!(matches!(Command::from_string("Slice"), Command::SLICE));
    assert!(matches!(Command::from_string("function"), Command::FUNCTION));
    assert!(matches!(Command::from_string("unknown"), Command::NOOP));
    assert!(matches!(Command::from_string(""), Command::NOOP));
}

#[test]
fn decomposition_starts_every_line_with_a_command() {
    let lines = vec![
        "say \"x\"".to_string(),
        "".to_string(),
        "sum 1 + 2".to_string(),
        "whatever arg".to_string(),
    ];
    let code = decompose_lines(&lines).unwrap();
    assert_eq!(code.len(), 3);
    for l in &code {
        assert!(!l.items.is_empty());
        assert!(matches!(l.items[0], LineItem::Command(_)));
    }
    assert!(matches!(code[2].items[0], LineItem::Command(Command::NOOP)));
}

#[test]
fn decomposition_keeps_physical_line_numbers() {
    let lines = vec![
        "".to_string(),
        "say \"x\"".to_string(),
        "".to_string(),
        "say \"y\"".to_string(),
    ];
    let code = decompose_lines(&lines).unwrap();
    assert_eq!(code.len(), 2);
    assert_eq!(code[0].line_number, 2);
    assert_eq!(code[1].line_number, 4);
}

#[test]
fn operator_glyphs_read_as_labels() {
    let lines = vec!["sum 1 + 2".to_string()];
    let code = decompose_lines(&lines).unwrap();
    assert!(matches!(&code[0].items[2], LineItem::Label(s) if s == "+"));
    assert!(matches!(&code[0].items[1], LineItem::Number(1)));
}

#[test]
fn numeric_atoms_parse_with_leading_zeros() {
    let lines = vec!["say 007".to_string()];
    let code = decompose_lines(&lines).unwrap();
    assert!(matches!(&code[0].items[1], LineItem::Number(7)));
}

#[test]
fn oversized_numeric_atoms_read_as_labels() {
    let lines = vec!["say 99999999999999999999999".to_string()];
    let code = decompose_lines(&lines).unwrap();
    assert!(matches!(&code[0].items[1], LineItem::Label(_)));
}

#[test]
fn paired_arrays_become_tables() {
    let lines = vec!["set t [2 3][1 2 3 4 5 6]".to_string()];
    let code = decompose_lines(&lines).unwrap();
    match &code[0].items[2] {
        LineItem::Table(dims, data) => {
            assert_eq!(dims, &vec![2usize, 3usize]);
            assert_eq!(data.len(), 6);
        },
        other => panic!("expected a table literal, got {:?}", other),
    }
}

#[test]
fn put_then_get_returns_the_value_written() {
    let mut manager = TableManager::new();
    let dims = vec![2usize, 2usize];
    let t = manager.create_table(&dims).unwrap();
    let idx = vec![0usize, 0usize];
    manager.put(&t, &idx, Value::number_value(42)).unwrap();
    let v = manager.get(&t, &idx).unwrap();
    assert_eq!(v.number_value, 42);
}

#[test]
fn reading_a_fresh_cell_reports_uninit() {
    let mut manager = TableManager::new();
    let dims = vec![1usize];
    let t = manager.create_table(&dims).unwrap();
    let idx = vec![0usize];
    assert_eq!(manager.get(&t, &idx).unwrap_err(), ErrorKind::UninitCell);
}

#[test]
fn wrong_index_count_reports_dimension_mismatch() {
    let mut manager = TableManager::new();
    let dims = vec![2usize, 2usize];
    let t = manager.create_table(&dims).unwrap();
    let idx = vec![0usize];
    assert_eq!(manager.get(&t, &idx).unwrap_err(), ErrorKind::DimensionMismatch);
}

#[test]
fn specification_from_yaml_text_reorders_arguments() {
    let yaml = "name: english\nversion: 0\ncommands:\n  say:\n    format: [\"...\"]\n  sum:\n    format: [2, \"plus\", 1]\n";
    let spec = LexingSpecificationV0::from_text("inline", yaml).unwrap();
    assert_eq!(spec.name, "english");
    assert_eq!(spec.version, 0);
    let lines = vec!["sum 7 plus 3".to_string()];
    let raw = decompose_lines(&lines).unwrap();
    let specs = vec![LexingSpecification::V0(spec)];
    let code = lexer::lex(&raw, &specs).unwrap();
    // Positions 2 and 1: the operands come out swapped.
    assert!(matches!(&code[0].items[0], LineItem::Command(Command::SUM)));
    assert!(matches!(&code[0].items[1], LineItem::Number(3)));
    assert!(matches!(&code[0].items[2], LineItem::Number(7)));
}

#[test]
fn specification_with_noop_command_is_refused() {
    let yaml = "commands:\n  noop:\n    format: [\"...\"]\n";
    let err = match LexingSpecificationV0::from_text("inline", yaml) {
        Ok(_) => panic!("a NOOP command name must be refused"),
        Err(k) => k,
    };
    assert_eq!(err, ErrorKind::BadSpecification);
}

#[test]
fn specification_without_commands_is_refused() {
    let yaml = "name: lonely\n";
    let err = match LexingSpecificationV0::from_text("inline", yaml) {
        Ok(_) => panic!("a document without commands must be refused"),
        Err(k) => k,
    };
    assert_eq!(err, ErrorKind::BadSpecification);
}

#[test]
fn specification_takes_its_name_from_the_source_when_absent() {
    let yaml = "commands:\n  say:\n    format: [\"...\"]\n";
    let spec = LexingSpecificationV0::from_text("fallback.yml", yaml).unwrap();
    assert_eq!(spec.name, "fallback.yml");
}

#[test]
fn symbol_matchers_consume_keywords() {
    let yaml = "commands:\n  if:\n    format: [1, \"then\", 2, \"else\", 3]\n";
    let spec = LexingSpecificationV0::from_text("inline", yaml).unwrap();
    let lines = vec!["if 1 then yes else no".to_string()];
    let raw = decompose_lines(&lines).unwrap();
    let specs = vec![LexingSpecification::V0(spec)];
    let code = lexer::lex(&raw, &specs).unwrap();
    assert_eq!(code[0].items.len(), 4);
    assert!(matches!(&code[0].items[1], LineItem::Number(1)));
    assert!(matches!(&code[0].items[2], LineItem::Label(s) if s == "yes"));
    assert!(matches!(&code[0].items[3], LineItem::Label(s) if s == "no"));
}

#[test]
fn unmatched_symbol_falls_through_to_no_match() {
    let yaml = "commands:\n  if:\n    format: [1, \"then\", 2]\n";
    let spec = LexingSpecificationV0::from_text("inline", yaml).unwrap();
    let lines = vec!["if 1 otherwise 2".to_string()];
    let raw = decompose_lines(&lines).unwrap();
    let specs = vec![LexingSpecification::V0(spec)];
    let err = lexer::lex(&raw, &specs).unwrap_err();
    assert_eq!(err.kind, ErrorKind::LexicalNoMatch);
}

#[test]
fn value_constructors_and_truthiness() {
    assert!(!Value::number_value(0).as_boolean());
    assert!(Value::number_value(3).as_boolean());
    assert!(Value::string_value(&"".to_string()).as_boolean());
    assert!(Value::uninitialized().is_uninitialized());
    assert!(!Value::number_value(0).is_uninitialized());
    assert_eq!(Value::boolean_value(true).number_value, 1);
    assert_eq!(Value::boolean_value(false).number_value, 0);
}

#[test]
fn value_description_renders_numbers() {
    let v = Value::number_value(-7);
    assert_eq!(v.describe(), "<Number Value -7>");
    let s = Value::string_value(&"hi".to_string());
    assert_eq!(s.describe(), "<String Value hi>");
}

#[test]
fn decimal_tails_of_zeros_read_as_whole_numbers() {
    let lines = vec!["say 2.0 -3.00 7.".to_string()];
    let code = decompose_lines(&lines).unwrap();
    assert!(matches!(code[0].items[1], LineItem::Number(2)));
    assert!(matches!(code[0].items[2], LineItem::Number(-3)));
    assert!(matches!(code[0].items[3], LineItem::Number(7)));
}

#[test]
fn fractional_and_exponent_atoms_read_as_labels() {
    let lines = vec!["say 2.5 1e3 .0 2.0.0".to_string()];
    let code = decompose_lines(&lines).unwrap();
    assert!(matches!(&code[0].items[1], LineItem::Label(s) if s == "2.5"));
    assert!(matches!(&code[0].items[2], LineItem::Label(s) if s == "1e3"));
    assert!(matches!(&code[0].items[3], LineItem::Label(s) if s == ".0"));
    assert!(matches!(&code[0].items[4], LineItem::Label(s) if s == "2.0.0"));
}

#[test]
fn number_token_parsing_handles_decimal_tails() {
    assert_eq!(kodit::text::parse_number_token("2.0"), Some(2));
    assert_eq!(kodit::text::parse_number_token("2."), Some(2));
    assert_eq!(kodit::text::parse_number_token("-9223372036854775808.000"), Some(i64::MIN));
    assert_eq!(kodit::text::parse_number_token("2.5"), None);
    assert_eq!(kodit::text::parse_number_token("."), None);
    assert_eq!(kodit::text::parse_number_token("-.0"), None);
}
