use automata::machine::tm::{Info, InfoError, Machine, Tape};
use automata::parser::{Parser, SectionName};

fn chars(s: &str) -> Vec<char> {
    s.chars().collect()
}

fn validate(text: &str) -> Result<Info, InfoError> {
    let src = chars(text);
    let tokens = Parser::lex(&src).unwrap();
    let parsed = Parser::parse(&src, tokens).unwrap();
    assert!(parsed.check_in_bounds(&src));
    Info::new(parsed, &src)
}

fn run(text: &str, input: &str) -> bool {
    let machine = Machine::new(validate(text).unwrap());
    machine.run(&chars(input))
}

const INCREMENT_BIT: &str = "[states] q0, qf [alphabet] 0, 1 [initial] q0 [final] qf \
     [tape_alphabet] 0, 1, B [blank_symbol] B \
     [transitions] q0(1) => (q0, WRITE:0, RIGHT) q0(0) => (qf, WRITE:1, LEFT) \
     q0(B) => (qf, WRITE:1, LEFT)";

#[test]
fn tm_increments_a_single_bit() {
    // writes 0 over the 1, halts on the blank writing a 1, reaching qf
    assert!(run(INCREMENT_BIT, "1"));
}

#[test]
fn tm_accepts_zero_at_once() {
    assert!(run(INCREMENT_BIT, "0"));
    assert!(run(INCREMENT_BIT, ""));
}

#[test]
fn tm_rejects_when_no_transition_applies() {
    let text = "[states] q0, qf [alphabet] 0 [initial] q0 [final] qf \
                [tape_alphabet] 0, B [blank_symbol] B \
                [transitions] q0(0) => (qf, WRITE:0, RIGHT)";
    // reading the blank in q0 finds no entry: halt and reject
    assert!(!run(text, ""));
    assert!(run(text, "0"));
}

#[test]
fn tm_input_symbol_outside_tape_alphabet_matches_nothing() {
    // a foreign character sits on the tape and no transition fires on it
    assert!(!run(INCREMENT_BIT, "x"));
}

#[test]
fn tm_later_transition_replaces_earlier_for_same_key() {
    // the second q0(0) silently overwrites the first: the run must go to qf
    let text = "[states] q0, qd, qf [alphabet] 0 [initial] q0 [final] qf \
                [tape_alphabet] 0, B [blank_symbol] B \
                [transitions] q0(0) => (qd, WRITE:0, RIGHT) q0(0) => (qf, WRITE:0, RIGHT)";
    assert!(run(text, "0"));
}

#[test]
fn tm_missing_tape_alphabet_is_an_error() {
    let text = "[states] q0 [alphabet] 0 [initial] q0 [final] q0 [blank_symbol] B \
                [transitions]";
    assert_eq!(
        validate(text).unwrap_err(),
        InfoError::MissingSection { section: SectionName::TapeAlphabet }
    );
}

#[test]
fn tm_missing_blank_symbol_is_an_error() {
    let text = "[states] q0 [alphabet] 0 [initial] q0 [final] q0 [tape_alphabet] 0 \
                [transitions]";
    assert_eq!(
        validate(text).unwrap_err(),
        InfoError::MissingSection { section: SectionName::BlankSymbol }
    );
}

#[test]
fn tm_missing_direction_is_an_error() {
    let text = "[states] q0 [alphabet] 0 [initial] q0 [final] q0 \
                [tape_alphabet] 0 [blank_symbol] B \
                [transitions] q0(0) => (q0, WRITE:0)";
    assert_eq!(
        validate(text).unwrap_err(),
        InfoError::MissingSection { section: SectionName::Direction }
    );
}

#[test]
fn tm_stack_operation_is_a_missing_tape_operation() {
    let text = "[states] q0 [alphabet] 0 [initial] q0 [final] q0 \
                [tape_alphabet] 0 [blank_symbol] B \
                [transitions] q0(0) => (q0, NOOP, RIGHT)";
    assert_eq!(validate(text).unwrap_err(), InfoError::MissingTapeOperation);
    let text2 = "[states] q0 [alphabet] 0 [initial] q0 [final] q0 \
                 [tape_alphabet] 0 [blank_symbol] B \
                 [transitions] q0(0) => (q0)";
    assert_eq!(validate(text2).unwrap_err(), InfoError::MissingTapeOperation);
}

#[test]
fn tm_unknown_tape_symbols_fail_validation() {
    let text = "[states] q0 [alphabet] 0 [initial] q0 [final] q0 \
                [tape_alphabet] 0 [blank_symbol] B \
                [transitions] q0(7) => (q0, WRITE:0, RIGHT)";
    assert!(matches!(validate(text).unwrap_err(), InfoError::UnknownTapeSymbol { .. }));
    let text2 = "[states] q0 [alphabet] 0 [initial] q0 [final] q0 \
                 [tape_alphabet] 0 [blank_symbol] B \
                 [transitions] q0(0) => (q0, WRITE:7, RIGHT)";
    assert!(matches!(validate(text2).unwrap_err(), InfoError::UnknownTapeSymbol { .. }));
}

#[test]
fn tm_unknown_state_fails_validation() {
    let text = "[states] q0 [alphabet] 0 [initial] q9 [final] q0 \
                [tape_alphabet] 0 [blank_symbol] B [transitions]";
    assert!(matches!(validate(text).unwrap_err(), InfoError::UnknownState { .. }));
}

#[test]
fn tm_epsilon_transition_fires_on_epsilon_cell() {
    // a from-symbol ε keys the table on the ε cell symbol; an input ε
    // character puts that very symbol on the tape
    let text = "[states] q0, qf [alphabet] e [initial] q0 [final] qf \
                [tape_alphabet] 0 [blank_symbol] B \
                [transitions] q0(ε) => (qf, WRITE:0, RIGHT)";
    assert!(run(text, "ε"));
    assert!(!run(text, "0"));
}

#[test]
fn tape_starts_as_one_blank_cell() {
    let tape = Tape::new(7);
    assert_eq!(tape.get_current_symbol(), 7);
}

#[test]
fn tape_write_then_read_round_trips() {
    let mut tape = Tape::new(7);
    tape.write_symbol(3);
    assert_eq!(tape.get_current_symbol(), 3);
}

#[test]
fn tape_moving_right_extends_with_blanks() {
    let mut tape = Tape::new(7);
    tape.write_symbol(1);
    tape.move_right();
    // the fresh cell was never written: it reads as blank
    assert_eq!(tape.get_current_symbol(), 7);
    tape.move_left();
    // and the previously written cell is undisturbed
    assert_eq!(tape.get_current_symbol(), 1);
}

#[test]
fn tape_moving_left_at_origin_extends_front_with_blank() {
    let mut tape = Tape::new(7);
    tape.write_symbol(2);
    tape.move_left();
    assert_eq!(tape.get_current_symbol(), 7);
    tape.move_right();
    assert_eq!(tape.get_current_symbol(), 2);
}

#[test]
fn tape_extension_preserves_written_cells() {
    let mut tape = Tape::new(9);
    tape.write_symbol(1);
    tape.move_right();
    tape.write_symbol(2);
    tape.move_right();
    tape.write_symbol(3);
    tape.move_left();
    tape.move_left();
    assert_eq!(tape.get_current_symbol(), 1);
    tape.move_right();
    assert_eq!(tape.get_current_symbol(), 2);
    tape.move_right();
    assert_eq!(tape.get_current_symbol(), 3);
}

#[test]
fn tm_blank_outside_tape_alphabet_halts_on_blank_cells() {
    // the blank symbol need not be declared in the tape alphabet, but then
    // no transition can ever read a blank cell
    let text = "[states] q0, qf [alphabet] 0 [initial] q0 [final] qf \
                [tape_alphabet] 0 [blank_symbol] B \
                [transitions] q0(0) => (qf, WRITE:0, RIGHT)";
    assert!(run(text, "0"));
    assert!(!run(text, ""));
}

#[test]
fn tm_moves_left_beyond_origin() {
    // 1 is rewritten to 0 and the head moves left onto a fresh blank,
    // where the machine halts in the final state
    let text = "[states] q0, qf [alphabet] 0, 1 [initial] q0 [final] qf \
                [tape_alphabet] 0, 1, B [blank_symbol] B \
                [transitions] q0(1) => (q0, WRITE:0, LEFT) q0(B) => (qf, WRITE:B, LEFT)";
    assert!(run(text, "1"));
}
