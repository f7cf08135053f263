use preproc::preprocessor::{parse_rules, ParseError, Preprocessor};

#[test]
fn parse_rules_succeeds_with_valid_input() {
    let content = "a,b\n^start,end\n(x),(y)";

    let result = parse_rules(content);

    assert!(result.is_ok());
    let rules = result.unwrap();
    assert_eq!(rules.len(), 3);
    assert_eq!(rules[0].pattern(), "a");
    assert_eq!(rules[0].replacement(), "b");
    assert_eq!(rules[1].pattern(), "^start");
    assert_eq!(rules[1].replacement(), "end");
    assert_eq!(rules[2].pattern(), "(x)");
    assert_eq!(rules[2].replacement(), "(y)");
}

#[test]
fn parse_rules_fails_on_malformed_line_without_comma() {
    let content = "a,b\nthis is a malformed line\nc,d";

    let result = parse_rules(content);

    assert!(result.is_err());
    match result.unwrap_err() {
        ParseError::MalformedRule {
            line_number,
            line_content,
        } => {
            assert_eq!(line_number, 2);
            assert_eq!(line_content, "this is a malformed line");
        }
        e => panic!("Expected MalformedRule error, but got {:?}", e),
    }
}

#[test]
fn parse_rules_fails_on_invalid_regex_pattern() {
    let content = "a,b\n(unclosed,replacement\nc,d";

    let result = parse_rules(content);

    assert!(result.is_err());
    match result.unwrap_err() {
        ParseError::InvalidRegex(e) => {
            assert_eq!(e.pattern, "(unclosed");
        }
        e => panic!("Expected InvalidRegex error, but got {:?}", e),
    }
}

#[test]
fn parse_rules_ignores_blank_lines_and_whitespace() {
    let content = "\n  a,b\n\n    # comment-like line,replacement\n  \t  \n c,d \n";

    let result = parse_rules(content);

    assert!(result.is_ok());
    let rules = result.unwrap();
    assert_eq!(rules.len(), 3);
    assert_eq!(rules[0].pattern(), "  a");
    assert_eq!(rules[0].replacement(), "b");
    assert_eq!(rules[1].pattern(), "    # comment-like line");
    assert_eq!(rules[1].replacement(), "replacement");
    assert_eq!(rules[2].pattern(), " c");
    assert_eq!(rules[2].replacement(), "d ");
}

#[test]
fn run_returns_input_when_no_rules_match() {
    let rules_content = "a,x\nb,y";
    let rules = parse_rules(rules_content).unwrap();
    let preprocessor = Preprocessor::new(rules);
    let input = "cde fgh";

    let output = preprocessor.run(input);

    assert_eq!(output, input);
}

#[test]
fn run_performs_single_simple_replacement() {
    let rules_content = "apple,orange";
    let rules = parse_rules(rules_content).unwrap();
    let preprocessor = Preprocessor::new(rules);
    let input = "an apple a day";

    let output = preprocessor.run(input);

    assert_eq!(output, "an orange a day");
}

#[test]
fn run_performs_multiple_non_overlapping_replacements() {
    let rules_content = "a,X\nb,Y";
    let rules = parse_rules(rules_content).unwrap();
    let preprocessor = Preprocessor::new(rules);
    let input = "ab cde ba";

    let output = preprocessor.run(input);

    assert_eq!(output, "XY cde YX");
}

#[test]
fn run_chooses_earliest_starting_match_when_rules_overlap() {
    let rules_content = "b,Y\nab,X";
    let rules = parse_rules(rules_content).unwrap();
    let preprocessor = Preprocessor::new(rules);
    let input = "cabcd";

    let output = preprocessor.run(input);

    assert_eq!(output, "cXcd");
}

#[test]
fn run_processes_matches_sequentially_on_original_input() {
    let rules_content = "a,b\nb,c";
    let rules = parse_rules(rules_content).unwrap();
    let preprocessor = Preprocessor::new(rules);
    let input = "aba";

    let output = preprocessor.run(input);

    assert_eq!(output, "bcb");

    let input2 = "aa";
    let output2 = preprocessor.run(input2);
    assert_eq!(output2, "bb");
}

#[test]
fn run_handles_zero_length_match_at_start_without_looping() {
    let rules_content = "^,START ";
    let rules = parse_rules(rules_content).unwrap();
    let preprocessor = Preprocessor::new(rules);
    let input = "text";

    let output = preprocessor.run(input);

    assert_eq!(output, "START text");
}

#[test]
fn run_handles_zero_length_match_in_middle_without_looping() {
    let rules_content = r"\b, | ";
    let rules = parse_rules(rules_content).unwrap();
    let preprocessor = Preprocessor::new(rules);
    let input = "one two";

    let output = preprocessor.run(input);

    assert_eq!(output, " | one |   | two | ");
}

#[test]
fn run_with_empty_rule_set_returns_input_unchanged() {
    let rules = parse_rules("").unwrap();
    assert_eq!(rules.len(), 0);
    let preprocessor = Preprocessor::new(rules);

    assert_eq!(preprocessor.run("hello, world"), "hello, world");
    assert_eq!(preprocessor.run(""), "");
}

#[test]
fn parse_rules_splits_at_the_last_comma() {
    let rules = parse_rules("x,y,z").unwrap();

    assert_eq!(rules.len(), 1);
    assert_eq!(rules[0].pattern(), "x,y");
    assert_eq!(rules[0].replacement(), "z");
}

#[test]
fn parse_rules_cuts_carriage_return_line_endings() {
    let rules = parse_rules("a,b\r\nc,d\r\n").unwrap();

    assert_eq!(rules.len(), 2);
    assert_eq!(rules[0].pattern(), "a");
    assert_eq!(rules[0].replacement(), "b");
    assert_eq!(rules[1].pattern(), "c");
    assert_eq!(rules[1].replacement(), "d");
}

#[test]
fn parse_rules_keeps_a_carriage_return_not_followed_by_a_line_feed() {
    let rules = parse_rules("a,b\r").unwrap();

    assert_eq!(rules.len(), 1);
    assert_eq!(rules[0].pattern(), "a");
    assert_eq!(rules[0].replacement(), "b\r");
}

#[test]
fn run_handles_zero_length_match_at_end_without_looping() {
    let rules = parse_rules("$,END").unwrap();
    let preprocessor = Preprocessor::new(rules);

    let output = preprocessor.run("ab");

    assert_eq!(output, "abEND");
}

#[test]
fn run_replaces_with_the_empty_string() {
    let rules = parse_rules("a,").unwrap();
    let preprocessor = Preprocessor::new(rules);

    let output = preprocessor.run("banana");

    assert_eq!(output, "bnn");
}

#[test]
fn run_on_empty_input_returns_empty_output() {
    let rules = parse_rules("a,b").unwrap();
    let preprocessor = Preprocessor::new(rules);

    assert_eq!(preprocessor.run(""), "");
}

#[test]
fn run_matches_across_unicode_text() {
    let rules = parse_rules("é,e\nè,e").unwrap();
    let preprocessor = Preprocessor::new(rules);

    let output = preprocessor.run("café crème");

    assert_eq!(output, "cafe creme");
}
