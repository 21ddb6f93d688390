use automata::parser::{
    Direction, Expected, Parser, ParserError, PartialMachineInfo, SectionName, StackTransition,
};

fn chars(s: &str) -> Vec<char> {
    s.chars().collect()
}

fn parse(s: &str) -> Result<PartialMachineInfo, ParserError> {
    let src = chars(s);
    let tokens = Parser::lex(&src).unwrap();
    assert!(automata::parser::tokens_in_bounds(&src, &tokens));
    Parser::parse(&src, tokens)
}

const BASE: &str = "[states] q0, q1 [alphabet] a [initial] q0 [final] q0";

#[test]
fn parse_required_sections() {
    let m = parse(&format!("{} [transitions] q0(a) => (q1)", BASE)).unwrap();
    let src = chars(&format!("{} [transitions] q0(a) => (q1)", BASE));
    assert_eq!(m.states.len(), 2);
    assert_eq!(m.states[0].src(&src), chars("q0"));
    assert_eq!(m.states[1].src(&src), chars("q1"));
    assert_eq!(m.alphabet.len(), 1);
    assert_eq!(m.start_state.src(&src), chars("q0"));
    assert_eq!(m.final_states.len(), 1);
    assert_eq!(m.transitions.len(), 1);
    let tr = &m.transitions[0];
    assert_eq!(tr.from.initial.src(&src), chars("q0"));
    assert_eq!(tr.from.with_symbol.src(&src), chars("a"));
    assert!(tr.from.with_stack_symbol.is_none());
    assert_eq!(tr.to.0.src(&src), chars("q1"));
    assert!(tr.to.1.is_none());
    assert!(tr.to.2.is_none());
    assert!(m.stack_alphabet.is_none());
    assert!(m.start_stack.is_none());
    assert!(m.tape_alphabet.is_none());
    assert!(m.blank_symbol.is_none());
}

#[test]
fn parse_optional_sections_and_operations() {
    let text = "[states] s [alphabet] a [initial] s [final] s \
                [stack_alphabet] Z, A [start_stack] Z \
                [tape_alphabet] 0, 1 [blank_symbol] B \
                [transitions] s(a,Z) => (s, PUSH:A) s(a) => (s, POP) \
                s(a) => (s, NOOP) s(a) => (s, WRITE:1, LEFT) s(a) => (s, RIGHT)";
    let src = chars(text);
    let m = parse(text).unwrap();
    assert!(m.stack_alphabet.is_some());
    assert_eq!(m.stack_alphabet.as_ref().unwrap().len(), 2);
    assert!(m.start_stack.is_some());
    assert!(m.tape_alphabet.is_some());
    assert!(m.blank_symbol.is_some());
    assert_eq!(m.transitions.len(), 5);
    let t0 = &m.transitions[0];
    assert_eq!(t0.from.with_stack_symbol.as_ref().unwrap().src(&src), chars("Z"));
    match &t0.to.1 {
        Some(StackTransition::Push(tok)) => assert_eq!(tok.src(&src), chars("A")),
        other => panic!("wrong op: {:?}", other),
    }
    assert!(matches!(m.transitions[1].to.1, Some(StackTransition::Pop)));
    assert!(matches!(m.transitions[2].to.1, Some(StackTransition::NoOp)));
    match &m.transitions[3].to.1 {
        Some(StackTransition::Write(tok)) => assert_eq!(tok.src(&src), chars("1")),
        other => panic!("wrong op: {:?}", other),
    }
    assert!(matches!(m.transitions[3].to.2, Some(Direction::Left)));
    assert!(m.transitions[4].to.1.is_none());
    assert!(matches!(m.transitions[4].to.2, Some(Direction::Right)));
}

#[test]
fn parse_sections_in_any_order() {
    let m = parse("[transitions] q0(a) => (q0) [final] q0 [alphabet] a [initial] q0 [states] q0")
        .unwrap();
    assert_eq!(m.states.len(), 1);
    assert_eq!(m.transitions.len(), 1);
}

#[test]
fn parse_missing_section_is_an_error() {
    assert_eq!(
        parse("[states] q0 [alphabet] a [initial] q0 [final] q0").unwrap_err(),
        ParserError::MissingSection { section: SectionName::Transitions }
    );
    assert_eq!(
        parse("[alphabet] a [initial] q0 [final] q0 [transitions]").unwrap_err(),
        ParserError::MissingSection { section: SectionName::States }
    );
    assert_eq!(
        parse("[states] q0 [initial] q0 [final] q0 [transitions]").unwrap_err(),
        ParserError::MissingSection { section: SectionName::Alphabet }
    );
    assert_eq!(
        parse("[states] q0 [alphabet] a [final] q0 [transitions]").unwrap_err(),
        ParserError::MissingSection { section: SectionName::StartState }
    );
    assert_eq!(
        parse("[states] q0 [alphabet] a [initial] q0 [transitions]").unwrap_err(),
        ParserError::MissingSection { section: SectionName::FinalStates }
    );
}

#[test]
fn parse_duplicate_section_labels_both_occurrences() {
    let text = "[states] q0 [states] q0 [alphabet] a [initial] q0 [final] q0 [transitions]";
    match parse(text).unwrap_err() {
        ParserError::DuplicateSection { at, other } => {
            assert_eq!(other.offset, 1);
            assert_eq!(at.offset, 13);
        }
        other => panic!("wrong error: {:?}", other),
    }
}

#[test]
fn parse_unknown_section_name_is_an_error() {
    match parse("[nonsense] x").unwrap_err() {
        ParserError::UnknownSectionName { at } => {
            assert_eq!(at.offset, 1);
            assert_eq!(at.len, 8);
        }
        other => panic!("wrong error: {:?}", other),
    }
}

#[test]
fn parse_unexpected_token_where_section_expected() {
    match parse(", [states] q0").unwrap_err() {
        ParserError::UnexpectedToken { at, expected } => {
            assert_eq!(at.offset, 0);
            assert_eq!(expected, Expected::LeftSquareBracket);
        }
        other => panic!("wrong error: {:?}", other),
    }
}

#[test]
fn parse_list_demands_identifier_after_comma() {
    match parse("[states] q0, [alphabet] a").unwrap_err() {
        ParserError::UnexpectedToken { expected, .. } => {
            assert_eq!(expected, Expected::LeftSquareBracket);
        }
        other => panic!("wrong error: {:?}", other),
    }
}

#[test]
fn parse_unexpected_eof_in_section_header() {
    assert_eq!(parse("[states").unwrap_err(), ParserError::UnexpectedEOF);
    assert_eq!(parse("[").unwrap_err(), ParserError::UnexpectedEOF);
}

#[test]
fn parse_transition_demands_destination_group() {
    match parse(&format!("{} [transitions] q0(a) => q1", BASE)).unwrap_err() {
        ParserError::UnexpectedToken { expected, .. } => {
            assert_eq!(expected, Expected::LeftParen);
        }
        other => panic!("wrong error: {:?}", other),
    }
}

#[test]
fn parse_transition_bad_operation_word() {
    match parse(&format!("{} [transitions] q0(a) => (q1, q2)", BASE)).unwrap_err() {
        ParserError::UnexpectedToken { expected, .. } => {
            assert_eq!(expected, Expected::StackOpOrDirection);
        }
        other => panic!("wrong error: {:?}", other),
    }
}

#[test]
fn parse_second_operation_must_be_a_direction() {
    match parse(&format!("{} [transitions] q0(a) => (q1, POP, NOOP)", BASE)).unwrap_err() {
        ParserError::UnexpectedToken { expected, .. } => {
            assert_eq!(expected, Expected::DirectionWord);
        }
        other => panic!("wrong error: {:?}", other),
    }
}

#[test]
fn parse_second_direction_replaces_the_first() {
    let text = format!("{} [transitions] q0(a) => (q1, LEFT, RIGHT)", BASE);
    let m = parse(&text).unwrap();
    assert!(m.transitions[0].to.1.is_none());
    assert!(matches!(m.transitions[0].to.2, Some(Direction::Right)));
}
