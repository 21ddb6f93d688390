use automata::machine::dfa::{DFAError, Info, Machine};
use automata::parser::{Parser, ParserError};

fn chars(s: &str) -> Vec<char> {
    s.chars().collect()
}

fn validate(text: &str) -> Result<Info, DFAError> {
    let src = chars(text);
    let tokens = Parser::lex(&src).unwrap();
    let parsed = Parser::parse(&src, tokens).unwrap();
    assert!(parsed.check_in_bounds(&src));
    Info::new(parsed, &src)
}

fn run(text: &str, input: &str) -> bool {
    let machine = Machine::new(validate(text).unwrap());
    machine.run(&chars(input))
}

const EVEN_AS: &str = "[states] q0, q1 [alphabet] a, b [initial] q0 [final] q0 \
     [transitions] q0(a) => (q1) q0(b) => (q0) q1(a) => (q0) q1(b) => (q1)";

#[test]
fn dfa_accepts_even_count_of_a() {
    assert!(run(EVEN_AS, "aa"));
    assert!(run(EVEN_AS, ""));
    assert!(run(EVEN_AS, "abba"));
}

#[test]
fn dfa_rejects_odd_count_of_a() {
    assert!(!run(EVEN_AS, "a"));
    assert!(!run(EVEN_AS, "ab"));
}

#[test]
fn dfa_rejects_character_outside_alphabet() {
    assert!(!run(EVEN_AS, "ab a"));
    assert!(!run(EVEN_AS, "c"));
}

#[test]
fn dfa_multiple_transitions_for_one_key_fail_validation() {
    let text = "[states] q0 [alphabet] a [initial] q0 [final] q0 \
                [transitions] q0(a) => (q0) q0(a) => (q0)";
    match validate(text).unwrap_err() {
        DFAError::MultipleTransitions { initial, with_symbol } => {
            assert_eq!(initial, chars("q0"));
            assert_eq!(with_symbol, chars("a"));
        }
        other => panic!("wrong error: {:?}", other),
    }
}

#[test]
fn dfa_incomplete_table_fails_validation() {
    let text = "[states] q0, q1 [alphabet] a [initial] q0 [final] q0 \
                [transitions] q0(a) => (q1)";
    match validate(text).unwrap_err() {
        DFAError::IncompleteDFA { initial, with_symbol } => {
            assert_eq!(initial, chars("q1"));
            assert_eq!(with_symbol, chars("a"));
        }
        other => panic!("wrong error: {:?}", other),
    }
}

#[test]
fn dfa_rejects_stack_material() {
    let text = "[states] q0 [alphabet] a [initial] q0 [final] q0 [stack_alphabet] Z \
                [transitions] q0(a) => (q0)";
    assert!(matches!(validate(text).unwrap_err(), DFAError::StackOperationsNotAllowed));
    let text2 = "[states] q0 [alphabet] a [initial] q0 [final] q0 \
                 [transitions] q0(a) => (q0, POP)";
    assert!(matches!(validate(text2).unwrap_err(), DFAError::StackOperationsNotAllowed));
}

#[test]
fn dfa_rejects_tape_material() {
    let text = "[states] q0 [alphabet] a [initial] q0 [final] q0 [blank_symbol] B \
                [transitions] q0(a) => (q0)";
    assert!(matches!(validate(text).unwrap_err(), DFAError::TapeOperationsNotAllowed));
    let text2 = "[states] q0 [alphabet] a [initial] q0 [final] q0 \
                 [transitions] q0(a) => (q0, WRITE:a)";
    assert!(matches!(validate(text2).unwrap_err(), DFAError::TapeOperationsNotAllowed));
    let text3 = "[states] q0 [alphabet] a [initial] q0 [final] q0 \
                 [transitions] q0(a) => (q0, LEFT)";
    assert!(matches!(validate(text3).unwrap_err(), DFAError::TapeOperationsNotAllowed));
}

#[test]
fn dfa_unknown_state_in_final_list() {
    let text = "[states] q0 [alphabet] a [initial] q0 [final] q9 \
                [transitions] q0(a) => (q0)";
    match validate(text).unwrap_err() {
        DFAError::Parser(ParserError::UnknownState { at }) => {
            // the span of the offending q9
            assert_eq!(at.len, 2);
        }
        other => panic!("wrong error: {:?}", other),
    }
}

#[test]
fn dfa_unknown_start_state() {
    let text = "[states] q0 [alphabet] a [initial] q9 [final] q0 \
                [transitions] q0(a) => (q0)";
    assert!(matches!(
        validate(text).unwrap_err(),
        DFAError::Parser(ParserError::UnknownState { .. })
    ));
}

#[test]
fn dfa_unknown_state_and_symbol_in_transition() {
    let text = "[states] q0 [alphabet] a [initial] q0 [final] q0 \
                [transitions] q9(a) => (q0)";
    assert!(matches!(
        validate(text).unwrap_err(),
        DFAError::Parser(ParserError::UnknownState { .. })
    ));
    let text2 = "[states] q0 [alphabet] a [initial] q0 [final] q0 \
                 [transitions] q0(z) => (q0)";
    assert!(matches!(
        validate(text2).unwrap_err(),
        DFAError::Parser(ParserError::UnknownAlphabetSymbol { .. })
    ));
}

#[test]
fn dfa_duplicate_declarations_collapse() {
    // declaring a state or symbol twice is the same as declaring it once
    let text = "[states] q0, q0 [alphabet] a, a [initial] q0 [final] q0 \
                [transitions] q0(a) => (q0)";
    assert!(Machine::new(validate(text).unwrap()).run(&chars("aaa")));
}

#[test]
fn dfa_only_one_character_symbols_match_input() {
    // a two-character alphabet symbol never matches any input character
    let text = "[states] q0 [alphabet] ab [initial] q0 [final] q0 \
                [transitions] q0(ab) => (q0)";
    let m = Machine::new(validate(text).unwrap());
    assert!(!m.run(&chars("ab")));
    let m2 = Machine::new(validate(text).unwrap());
    assert!(m2.run(&chars("")));
}
