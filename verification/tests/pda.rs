use automata::machine::pda::{Info, Machine, PDAError};
use automata::parser::{Parser, ParserError};

fn chars(s: &str) -> Vec<char> {
    s.chars().collect()
}

fn validate(text: &str) -> Result<Info, PDAError> {
    let src = chars(text);
    let tokens = Parser::lex(&src).unwrap();
    let parsed = Parser::parse(&src, tokens).unwrap();
    assert!(parsed.check_in_bounds(&src));
    Info::new(parsed, &src)
}

fn run(text: &str, input: &str) -> bool {
    let machine = Machine::new(validate(text).unwrap());
    machine.run(&chars(input))
}

const BRACKETS: &str = "[states] s [alphabet] a, b [initial] s [final] s \
     [stack_alphabet] Z [start_stack] Z \
     [transitions] s(a,Z) => (s, PUSH:Z) s(b,Z) => (s, POP)";

#[test]
fn pda_accepts_balanced_pair() {
    assert!(run(BRACKETS, "ab"));
    assert!(run(BRACKETS, "aabb"));
}

#[test]
fn pda_acceptance_checks_state_only() {
    // a lone `b` pops the start symbol; acceptance looks at the state alone
    assert!(run(BRACKETS, "b"));
    assert!(run(BRACKETS, "aab"));
}

#[test]
fn pda_rejects_input_with_no_matching_rule() {
    // after `bb` the stack is empty and the top-specific rule cannot fire
    assert!(!run(BRACKETS, "bb"));
}

#[test]
fn pda_pop_on_empty_stack_is_a_noop() {
    // a top-free POP rule fires with an empty stack and must not underflow
    let text = "[states] s [alphabet] a [initial] s [final] s \
                [stack_alphabet] Z \
                [transitions] s(a) => (s, POP)";
    assert!(run(text, "aaaa"));
}

#[test]
fn pda_specific_top_preferred_over_wildcard() {
    // with Z on the stack the Z-specific rule (to u) wins over the
    // wildcard rule (to t)
    let text = "[states] s, t, u [alphabet] a [initial] s [final] u \
                [stack_alphabet] Z [start_stack] Z \
                [transitions] s(a) => (t, NOOP) s(a,Z) => (u, NOOP)";
    assert!(run(text, "a"));
}

#[test]
fn pda_wildcard_fires_when_top_differs() {
    let text = "[states] s, t, u [alphabet] a [initial] s [final] t \
                [stack_alphabet] Z, A [start_stack] A \
                [transitions] s(a) => (t, NOOP) s(a,Z) => (u, NOOP)";
    assert!(run(text, "a"));
}

#[test]
fn pda_first_declared_rule_wins_among_equals() {
    let text = "[states] s, t, u [alphabet] a [initial] s [final] t \
                [stack_alphabet] Z \
                [transitions] s(a) => (t, NOOP) s(a) => (u, NOOP)";
    assert!(run(text, "a"));
}

#[test]
fn pda_epsilon_rules_fire_before_input() {
    let text = "[states] s, t, u [alphabet] a [initial] s [final] u \
                [stack_alphabet] Z \
                [transitions] s(ε) => (t, NOOP) t(a) => (u, NOOP)";
    assert!(run(text, "a"));
}

#[test]
fn pda_epsilon_rules_fire_after_input_is_consumed() {
    let text = "[states] s, t [alphabet] a [initial] s [final] t \
                [stack_alphabet] Z \
                [transitions] s(a) => (s, NOOP) s(ε) => (t, NOOP)";
    // note: the ε-rule fires eagerly here even before consuming input,
    // stranding the machine in t; from t no rule reads `a`
    assert!(!run(text, "a"));
    assert!(run(text, ""));
}

#[test]
fn pda_missing_stack_alphabet_is_an_error() {
    let text = "[states] s [alphabet] a [initial] s [final] s \
                [transitions] s(a) => (s, POP)";
    assert!(matches!(validate(text).unwrap_err(), PDAError::StackOperationsRequired));
}

#[test]
fn pda_transition_without_stack_action_is_an_error() {
    let text = "[states] s [alphabet] a [initial] s [final] s [stack_alphabet] Z \
                [transitions] s(a) => (s)";
    assert!(matches!(validate(text).unwrap_err(), PDAError::StackOperationsRequired));
}

#[test]
fn pda_unknown_stack_symbols_fail_validation() {
    let text = "[states] s [alphabet] a [initial] s [final] s [stack_alphabet] Z \
                [start_stack] Y [transitions] s(a) => (s, POP)";
    assert!(matches!(
        validate(text).unwrap_err(),
        PDAError::Parser(ParserError::UnknownAlphabetSymbol { .. })
    ));
    let text2 = "[states] s [alphabet] a [initial] s [final] s [stack_alphabet] Z \
                 [transitions] s(a,Y) => (s, POP)";
    assert!(matches!(
        validate(text2).unwrap_err(),
        PDAError::Parser(ParserError::UnknownAlphabetSymbol { .. })
    ));
    let text3 = "[states] s [alphabet] a [initial] s [final] s [stack_alphabet] Z \
                 [transitions] s(a) => (s, PUSH:Y)";
    assert!(matches!(
        validate(text3).unwrap_err(),
        PDAError::Parser(ParserError::UnknownAlphabetSymbol { .. })
    ));
}

#[test]
fn pda_unknown_state_fails_validation() {
    let text = "[states] s [alphabet] a [initial] s [final] s [stack_alphabet] Z \
                [transitions] s(a) => (x, POP)";
    assert!(matches!(
        validate(text).unwrap_err(),
        PDAError::Parser(ParserError::UnknownState { .. })
    ));
}

#[test]
fn pda_epsilon_as_input_symbol_consumes_nothing() {
    // from-symbol ε: the machine can change state without reading
    let text = "[states] s, t [alphabet] a [initial] s [final] t \
                [stack_alphabet] Z [start_stack] Z \
                [transitions] s(ε,Z) => (t, POP)";
    assert!(run(text, ""));
}

#[test]
fn pda_make_transition_pop_on_empty_stack_keeps_state_sound() {
    // drive the machine by hand: the declared alphabet symbol `a` has
    // index 0; two pops in a row on a single-symbol stack must both succeed
    let text = "[states] s [alphabet] a [initial] s [final] s \
                [stack_alphabet] Z [start_stack] Z \
                [transitions] s(a) => (s, POP)";
    let mut machine = Machine::new(validate(text).unwrap());
    assert!(machine.make_transition(0, None));
    assert!(machine.make_transition(0, None));
    assert!(machine.make_transition(0, None));
}

#[test]
fn pda_rejects_character_outside_alphabet() {
    assert!(!run(BRACKETS, "az"));
}

#[test]
fn pda_wildcard_epsilon_rule_fires_on_empty_stack() {
    // with no start symbol the stack is empty and only top-free rules apply
    let text = "[states] s, t [alphabet] a [initial] s [final] t \
                [stack_alphabet] Z \
                [transitions] s(\u{03b5}) => (t, PUSH:Z)";
    assert!(run(text, ""));
    let text2 = "[states] s, t [alphabet] a [initial] s [final] t \
                 [stack_alphabet] Z \
                 [transitions] s(\u{03b5},Z) => (t, NOOP)";
    // the Z-specific rule cannot fire on an empty stack
    assert!(!run(text2, ""));
}
