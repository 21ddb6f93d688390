use automata::machine::nfa::{Info, Machine, NFAError};
use automata::parser::{Parser, ParserError};

fn chars(s: &str) -> Vec<char> {
    s.chars().collect()
}

fn validate(text: &str) -> Result<Info, NFAError> {
    let src = chars(text);
    let tokens = Parser::lex(&src).unwrap();
    let parsed = Parser::parse(&src, tokens).unwrap();
    assert!(parsed.check_in_bounds(&src));
    Info::new(parsed, &src)
}

fn run(text: &str, input: &str) -> bool {
    let machine = Machine::new(validate(text).unwrap());
    machine.run(&chars(input))
}

const EPS_NFA: &str = "[states] p, q, r [alphabet] a [initial] p [final] r \
     [transitions] p(ε) => (q) q(a) => (r)";

#[test]
fn nfa_epsilon_closure_carries_start_into_q() {
    // the closure of {p} is {p, q}, so `a` moves into the final state
    assert!(run(EPS_NFA, "a"));
}

#[test]
fn nfa_rejects_empty_input_when_closure_misses_finals() {
    // closure of p is {p, q}, neither final
    assert!(!run(EPS_NFA, ""));
}

#[test]
fn nfa_closure_follows_epsilon_chains() {
    // closure only ever adds states: the whole ε-chain is reachable at once
    let text = "[states] p, q, r [alphabet] a [initial] p [final] r \
                [transitions] p(ε) => (q) q(ε) => (r)";
    assert!(run(text, ""));
}

#[test]
fn nfa_closure_of_epsilon_cycle_terminates() {
    let text = "[states] p, q [alphabet] a [initial] p [final] q \
                [transitions] p(ε) => (q) q(ε) => (p) p(a) => (p)";
    assert!(run(text, ""));
    assert!(run(text, "aa"));
}

#[test]
fn nfa_nondeterministic_branching() {
    // two transitions for the same key: both branches are followed
    let text = "[states] s, t, u [alphabet] a, b [initial] s [final] u \
                [transitions] s(a) => (t) s(a) => (u) t(b) => (u)";
    assert!(run(text, "a"));
    assert!(run(text, "ab"));
    assert!(!run(text, "b"));
}

#[test]
fn nfa_rejects_when_no_move_exists() {
    assert!(!run(EPS_NFA, "aa"));
}

#[test]
fn nfa_rejects_character_outside_alphabet() {
    assert!(!run(EPS_NFA, "z"));
    // ε never matches an input character, even the literal one
    assert!(!run(EPS_NFA, "ε"));
}

#[test]
fn nfa_rejects_stack_and_tape_material() {
    let text = "[states] p [alphabet] a [initial] p [final] p [start_stack] Z \
                [transitions] p(a) => (p)";
    assert!(matches!(validate(text).unwrap_err(), NFAError::StackOperationsNotAllowed));
    let text2 = "[states] p [alphabet] a [initial] p [final] p \
                 [transitions] p(a) => (p, WRITE:a)";
    assert!(matches!(validate(text2).unwrap_err(), NFAError::StackOperationsNotAllowed));
    let text3 = "[states] p [alphabet] a [initial] p [final] p \
                 [transitions] p(a) => (p, RIGHT)";
    assert!(matches!(validate(text3).unwrap_err(), NFAError::TapeOperationsNotAllowed));
    let text4 = "[states] p [alphabet] a [initial] p [final] p [tape_alphabet] 0 \
                 [transitions] p(a) => (p)";
    assert!(matches!(validate(text4).unwrap_err(), NFAError::TapeOperationsNotAllowed));
}

#[test]
fn nfa_unknown_names_fail_validation() {
    let text = "[states] p [alphabet] a [initial] p [final] x [transitions]";
    assert!(matches!(
        validate(text).unwrap_err(),
        NFAError::Parser(ParserError::UnknownState { .. })
    ));
    let text2 = "[states] p [alphabet] a [initial] p [final] p [transitions] p(z) => (p)";
    assert!(matches!(
        validate(text2).unwrap_err(),
        NFAError::Parser(ParserError::UnknownAlphabetSymbol { .. })
    ));
}

#[test]
fn nfa_epsilon_need_not_be_declared() {
    // ε is implicitly in the alphabet: transitions may use it freely
    let text = "[states] p, q [alphabet] a [initial] p [final] q \
                [transitions] p(ε) => (q)";
    assert!(run(text, ""));
}

#[test]
fn nfa_explicitly_declared_epsilon_is_not_added_twice() {
    // ε may also be declared; it still never matches input characters
    let text = "[states] p, q [alphabet] a, ε [initial] p [final] q \
                [transitions] p(ε) => (q) q(a) => (q)";
    assert!(run(text, ""));
    assert!(run(text, "a"));
    assert!(!run(text, "ε"));
}
