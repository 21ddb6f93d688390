//! Pushdown automaton: validator and simulator.
//!
//! Validation demands a declared stack alphabet and an explicit stack action
//! on every transition; a key may hold several rules.  Execution is the
//! documented deterministic greedy approximation, not full nondeterministic
//! recognition: ε-rules fire first, a rule requiring the specific stack top
//! is preferred over one requiring none, and among equals the first in
//! declaration order fires.  Execution may run forever; the simulator stops
//! searching after an enormous number of steps and then rejects, which is
//! the documented safety valve.

use vstd::prelude::*;
use crate::parser::{
    ParserError, PartialMachineInfo, PartialMachineInfoView, StackTransition, TransitionInfo,
    token_str, pm_in_bounds,
};
use crate::machine::{
    texts_of, texts_view, find_text, intern, intern_tokens, lemma_find_text, spec_mark_finals,
    mark_finals, find_char_symbol_noneps, find_vec, find_symbol_char_noneps,
    lemma_find_char_symbol_noneps, eps_text,
};
use crate::machine::nfa::with_eps;

verus! {

/// A resolved rule key: state index, alphabet-symbol index, and the stack
/// top the rule demands (`None` matches any stack, empty included).
#[derive(Debug, Clone, Copy, PartialEq, Eq)]
pub struct PDATransitionFrom {
    pub initial: usize,
    pub with_symbol: usize,
    pub stack_top: Option<usize>,
}

/// A resolved rule result: destination state and stack action.
#[derive(Debug, Clone, Copy, PartialEq, Eq)]
pub struct PDATransitionTo {
    pub state: usize,
    pub stack_action: StackAction,
}

/// What a fired rule does to the stack.
#[derive(Debug, Clone, Copy, PartialEq, Eq)]
pub enum StackAction {
    Push(usize),
    Pop,
    NoOp,
}

#[derive(Debug, Clone, Copy, PartialEq, Eq)]
pub enum PDAError {
    /// The description lacks a stack alphabet, or a transition lacks a
    /// stack action.
    StackOperationsRequired,
    /// A state or symbol mentioned outside the declared sets.
    Parser(ParserError),
}

/// The mathematical shape of a validated pushdown automaton: its rules in
/// declaration order.
pub struct InfoView {
    pub states: Seq<Seq<char>>,
    pub alphabet: Seq<Seq<char>>,
    pub eps: int,
    pub stack_alphabet: Seq<Seq<char>>,
    pub rules: Seq<(PDATransitionFrom, PDATransitionTo)>,
    pub start_state: int,
    pub final_states: Seq<bool>,
    pub start_stack_symbol: Option<usize>,
}

impl InfoView {
    /// Soundness: every index a rule holds points into the declared sets.
    pub open spec fn wf(self) -> bool {
        &&& self.final_states.len() == self.states.len()
        &&& 0 <= self.start_state < self.states.len()
        &&& 0 <= self.eps < self.alphabet.len()
        &&& self.alphabet[self.eps] == eps_text()
        &&& (self.start_stack_symbol matches Some(x) ==> (x as int) < self.stack_alphabet.len())
        &&& forall|k: int|
            0 <= k < self.rules.len() ==> {
                let (f, t) = #[trigger] self.rules[k];
                &&& (f.initial as int) < self.states.len()
                &&& (f.with_symbol as int) < self.alphabet.len()
                &&& (f.stack_top matches Some(x) ==> (x as int) < self.stack_alphabet.len())
                &&& (t.state as int) < self.states.len()
                &&& (t.stack_action matches StackAction::Push(x) ==> (x as int)
                    < self.stack_alphabet.len())
            }
    }
}

/// Folds raw transitions into the rule list: demand an explicit stack
/// action, resolve every name, and keep declaration order.
pub open spec fn spec_fold_pda(
    src: Seq<char>,
    states: Seq<Seq<char>>,
    alphabet: Seq<Seq<char>>,
    stack_alphabet: Seq<Seq<char>>,
    trs: Seq<TransitionInfo>,
    rules: Seq<(PDATransitionFrom, PDATransitionTo)>,
) -> Result<Seq<(PDATransitionFrom, PDATransitionTo)>, PDAError>
    decreases trs.len(),
{
    if trs.len() == 0 {
        Ok(rules)
    } else {
        let tr = trs[0];
        match tr.to.1 {
            None => Err(PDAError::StackOperationsRequired),
            Some(op) => match find_text(states, token_str(src, tr.from.initial)) {
                None => Err(PDAError::Parser(ParserError::UnknownState { at: tr.from.initial.span })),
                Some(si) => match find_text(states, token_str(src, tr.to.0)) {
                    None => Err(PDAError::Parser(ParserError::UnknownState { at: tr.to.0.span })),
                    Some(ti) => match find_text(alphabet, token_str(src, tr.from.with_symbol)) {
                        None => Err(
                            PDAError::Parser(
                                ParserError::UnknownAlphabetSymbol { at: tr.from.with_symbol.span },
                            ),
                        ),
                        Some(ai) => {
                            let top = match tr.from.with_stack_symbol {
                                None => Ok(None),
                                Some(tok) => match find_text(
                                    stack_alphabet,
                                    token_str(src, tok),
                                ) {
                                    None => Err(
                                        PDAError::Parser(
                                            ParserError::UnknownAlphabetSymbol { at: tok.span },
                                        ),
                                    ),
                                    Some(x) => Ok(Some(x as usize)),
                                },
                            };
                            match top {
                                Err(e) => Err(e),
                                Ok(stack_top) => {
                                    let act = match op {
                                        StackTransition::Push(tok) => match find_text(
                                            stack_alphabet,
                                            token_str(src, tok),
                                        ) {
                                            None => Err(
                                                PDAError::Parser(
                                                    ParserError::UnknownAlphabetSymbol {
                                                        at: tok.span,
                                                    },
                                                ),
                                            ),
                                            Some(x) => Ok(StackAction::Push(x as usize)),
                                        },
                                        StackTransition::Pop => Ok(StackAction::Pop),
                                        StackTransition::NoOp => Ok(StackAction::NoOp),
                                        StackTransition::Write(_) => Err(
                                            PDAError::StackOperationsRequired,
                                        ),
                                    };
                                    match act {
                                        Err(e) => Err(e),
                                        Ok(stack_action) => spec_fold_pda(
                                            src,
                                            states,
                                            alphabet,
                                            stack_alphabet,
                                            trs.drop_first(),
                                            rules.push(
                                                (
                                                    PDATransitionFrom {
                                                        initial: si as usize,
                                                        with_symbol: ai as usize,
                                                        stack_top,
                                                    },
                                                    PDATransitionTo {
                                                        state: ti as usize,
                                                        stack_action,
                                                    },
                                                ),
                                            ),
                                        ),
                                    }
                                },
                            }
                        },
                    },
                },
            },
        }
    }
}

/// What validating a description as a pushdown automaton yields.
pub open spec fn spec_validate(m: PartialMachineInfoView, src: Seq<char>) -> Result<
    InfoView,
    PDAError,
> {
    match m.stack_alphabet {
        None => Err(PDAError::StackOperationsRequired),
        Some(stack_toks) => {
            let states = intern(texts_of(src, m.states));
            let alphabet = with_eps(intern(texts_of(src, m.alphabet)));
            let stack_alphabet = intern(texts_of(src, stack_toks));
            let start_stack = match m.start_stack {
                None => Ok(None),
                Some(tok) => match find_text(stack_alphabet, token_str(src, tok)) {
                    None => Err(
                        PDAError::Parser(ParserError::UnknownAlphabetSymbol { at: tok.span }),
                    ),
                    Some(x) => Ok(Some(x as usize)),
                },
            };
            match start_stack {
                Err(e) => Err(e),
                Ok(start_stack_symbol) => match spec_mark_finals(
                    src,
                    states,
                    m.final_states,
                    Seq::new(states.len(), |i: int| false),
                ) {
                    Err(t) => Err(PDAError::Parser(ParserError::UnknownState { at: t.span })),
                    Ok(finals) => match find_text(states, token_str(src, m.start_state)) {
                        None => Err(
                            PDAError::Parser(
                                ParserError::UnknownState { at: m.start_state.span },
                            ),
                        ),
                        Some(si) => match spec_fold_pda(
                            src,
                            states,
                            alphabet,
                            stack_alphabet,
                            m.transitions,
                            Seq::empty(),
                        ) {
                            Err(e) => Err(e),
                            Ok(rules) => Ok(
                                InfoView {
                                    states,
                                    alphabet,
                                    eps: find_text(alphabet, eps_text())->0,
                                    stack_alphabet,
                                    rules,
                                    start_state: si,
                                    final_states: finals,
                                    start_stack_symbol,
                                },
                            ),
                        },
                    },
                },
            }
        },
    }
}

/// Rule-list soundness, for a partial list.
pub open spec fn rules_shape_ok(
    rules: Seq<(PDATransitionFrom, PDATransitionTo)>,
    n: int,
    a: int,
    g: int,
) -> bool {
    forall|k: int|
        0 <= k < rules.len() ==> {
            let (f, t) = #[trigger] rules[k];
            &&& (f.initial as int) < n
            &&& (f.with_symbol as int) < a
            &&& (f.stack_top matches Some(x) ==> (x as int) < g)
            &&& (t.state as int) < n
            &&& (t.stack_action matches StackAction::Push(x) ==> (x as int) < g)
        }
}

proof fn lemma_fold_pda_shape(
    src: Seq<char>,
    states: Seq<Seq<char>>,
    alphabet: Seq<Seq<char>>,
    stack_alphabet: Seq<Seq<char>>,
    trs: Seq<TransitionInfo>,
    rules: Seq<(PDATransitionFrom, PDATransitionTo)>,
)
    requires
        rules_shape_ok(
            rules,
            states.len() as int,
            alphabet.len() as int,
            stack_alphabet.len() as int,
        ),
    ensures
        spec_fold_pda(src, states, alphabet, stack_alphabet, trs, rules) matches Ok(r2)
            ==> rules_shape_ok(
            r2,
            states.len() as int,
            alphabet.len() as int,
            stack_alphabet.len() as int,
        ),
    decreases trs.len(),
{
    if trs.len() > 0 {
        let tr = trs[0];
        if tr.to.1 is Some {
            let op = tr.to.1->0;
            lemma_find_text(states, token_str(src, tr.from.initial));
            lemma_find_text(states, token_str(src, tr.to.0));
            lemma_find_text(alphabet, token_str(src, tr.from.with_symbol));
            if tr.from.with_stack_symbol is Some {
                lemma_find_text(stack_alphabet, token_str(src, tr.from.with_stack_symbol->0));
            }
            match op {
                StackTransition::Push(tok) => {
                    lemma_find_text(stack_alphabet, token_str(src, tok));
                },
                _ => {},
            }
            let r = spec_fold_pda(src, states, alphabet, stack_alphabet, trs, rules);
            if r is Ok {
                // replay the successful step to expose the pushed rule
                let si = find_text(states, token_str(src, tr.from.initial));
                let ti = find_text(states, token_str(src, tr.to.0));
                let ai = find_text(alphabet, token_str(src, tr.from.with_symbol));
                if si is Some && ti is Some && ai is Some {
                    let stack_top = match tr.from.with_stack_symbol {
                        None => None,
                        Some(tok) => match find_text(stack_alphabet, token_str(src, tok)) {
                            None => None,
                            Some(x) => Some(x as usize),
                        },
                    };
                    let act = match op {
                        StackTransition::Push(tok) => match find_text(
                            stack_alphabet,
                            token_str(src, tok),
                        ) {
                            None => StackAction::NoOp,
                            Some(x) => StackAction::Push(x as usize),
                        },
                        StackTransition::Pop => StackAction::Pop,
                        StackTransition::NoOp => StackAction::NoOp,
                        StackTransition::Write(_) => StackAction::NoOp,
                    };
                    let next = rules.push(
                        (
                            PDATransitionFrom {
                                initial: si->0 as usize,
                                with_symbol: ai->0 as usize,
                                stack_top,
                            },
                            PDATransitionTo { state: ti->0 as usize, stack_action: act },
                        ),
                    );
                    if rules_shape_ok(
                        next,
                        states.len() as int,
                        alphabet.len() as int,
                        stack_alphabet.len() as int,
                    ) {
                        lemma_fold_pda_shape(src, states, alphabet, stack_alphabet, trs.drop_first(), next);
                    }
                }
            }
        }
    }
}

/// A validated pushdown automaton is structurally sound.
pub proof fn lemma_validate_wf(m: PartialMachineInfoView, src: Seq<char>)
    ensures
        spec_validate(m, src) matches Ok(iv) ==> iv.wf(),
{
    if m.stack_alphabet is Some {
        let stack_toks = m.stack_alphabet->0;
        let states = intern(texts_of(src, m.states));
        let alphabet = with_eps(intern(texts_of(src, m.alphabet)));
        let stack_alphabet = intern(texts_of(src, stack_toks));
        crate::machine::dfa::lemma_mark_finals_len(
            src,
            states,
            m.final_states,
            Seq::new(states.len(), |i: int| false),
        );
        lemma_find_text(states, token_str(src, m.start_state));
        if m.start_stack is Some {
            lemma_find_text(stack_alphabet, token_str(src, m.start_stack->0));
        }
        crate::machine::lemma_intern(texts_of(src, m.alphabet));
        if !intern(texts_of(src, m.alphabet)).contains(eps_text()) {
            assert(alphabet.last() == eps_text());
        }
        assert(alphabet.contains(eps_text()));
        lemma_find_text(alphabet, eps_text());
        assert(rules_shape_ok(
            Seq::empty(),
            states.len() as int,
            alphabet.len() as int,
            stack_alphabet.len() as int,
        ));
        lemma_fold_pda_shape(src, states, alphabet, stack_alphabet, m.transitions, Seq::empty());
    }
}


proof fn lemma_fold_pda_mentions(
    src: Seq<char>,
    states: Seq<Seq<char>>,
    alphabet: Seq<Seq<char>>,
    stack_alphabet: Seq<Seq<char>>,
    trs: Seq<TransitionInfo>,
    rules: Seq<(PDATransitionFrom, PDATransitionTo)>,
)
    requires
        spec_fold_pda(src, states, alphabet, stack_alphabet, trs, rules) is Ok,
    ensures
        forall|k: int|
            0 <= k < trs.len() ==> {
                let tr = #[trigger] trs[k];
                &&& states.contains(token_str(src, tr.from.initial))
                &&& states.contains(token_str(src, tr.to.0))
                &&& alphabet.contains(token_str(src, tr.from.with_symbol))
                &&& (tr.from.with_stack_symbol matches Some(tok) ==> stack_alphabet.contains(
                    token_str(src, tok),
                ))
                &&& (tr.to.1 matches Some(StackTransition::Push(tok)) ==> stack_alphabet.contains(
                    token_str(src, tok),
                ))
            },
    decreases trs.len(),
{
    if trs.len() > 0 {
        let tr = trs[0];
        if tr.to.1 is Some {
            let op = tr.to.1->0;
            lemma_find_text(states, token_str(src, tr.from.initial));
            lemma_find_text(states, token_str(src, tr.to.0));
            lemma_find_text(alphabet, token_str(src, tr.from.with_symbol));
            match tr.from.with_stack_symbol {
                Some(tok) => {
                    lemma_find_text(stack_alphabet, token_str(src, tok));
                },
                None => {},
            }
            match op {
                StackTransition::Push(tok) => {
                    lemma_find_text(stack_alphabet, token_str(src, tok));
                },
                _ => {},
            }
            let si = find_text(states, token_str(src, tr.from.initial));
            let ti = find_text(states, token_str(src, tr.to.0));
            let ai = find_text(alphabet, token_str(src, tr.from.with_symbol));
            if si is Some && ti is Some && ai is Some {
                let stack_top = match tr.from.with_stack_symbol {
                    None => None,
                    Some(tok) => match find_text(stack_alphabet, token_str(src, tok)) {
                        None => None,
                        Some(x) => Some(x as usize),
                    },
                };
                let act = match op {
                    StackTransition::Push(tok) => match find_text(
                        stack_alphabet,
                        token_str(src, tok),
                    ) {
                        None => StackAction::NoOp,
                        Some(x) => StackAction::Push(x as usize),
                    },
                    StackTransition::Pop => StackAction::Pop,
                    StackTransition::NoOp => StackAction::NoOp,
                    StackTransition::Write(_) => StackAction::NoOp,
                };
                let next = rules.push(
                    (
                        PDATransitionFrom {
                            initial: si->0 as usize,
                            with_symbol: ai->0 as usize,
                            stack_top,
                        },
                        PDATransitionTo { state: ti->0 as usize, stack_action: act },
                    ),
                );
                if spec_fold_pda(src, states, alphabet, stack_alphabet, trs.drop_first(), next)
                    is Ok {
                    lemma_fold_pda_mentions(
                        src,
                        states,
                        alphabet,
                        stack_alphabet,
                        trs.drop_first(),
                        next,
                    );
                    assert forall|k: int| 0 <= k < trs.len() implies {
                        let tr2 = #[trigger] trs[k];
                        &&& states.contains(token_str(src, tr2.from.initial))
                        &&& states.contains(token_str(src, tr2.to.0))
                        &&& alphabet.contains(token_str(src, tr2.from.with_symbol))
                        &&& (tr2.from.with_stack_symbol matches Some(tok)
                            ==> stack_alphabet.contains(token_str(src, tok)))
                        &&& (tr2.to.1 matches Some(StackTransition::Push(tok))
                            ==> stack_alphabet.contains(token_str(src, tok)))
                    } by {
                        if k > 0 {
                            assert(trs.drop_first()[k - 1] == trs[k]);
                        }
                    }
                }
            }
        }
    }
}

/// Every state a validated description mentions is present in the declared
/// `states` list; every consumed symbol in the declared `alphabet` unless it
/// is the reserved "ε"; and every stack symbol — required top, pushed
/// symbol, or start symbol — in the declared stack alphabet.
pub proof fn lemma_validate_mentions_declared(m: PartialMachineInfoView, src: Seq<char>)
    requires
        spec_validate(m, src) is Ok,
    ensures
        texts_of(src, m.states).contains(token_str(src, m.start_state)),
        m.start_stack matches Some(tok) ==> texts_of(src, m.stack_alphabet->0).contains(
            token_str(src, tok),
        ),
        forall|k: int|
            0 <= k < m.final_states.len() ==> texts_of(src, m.states).contains(
                token_str(src, #[trigger] m.final_states[k]),
            ),
        forall|k: int|
            0 <= k < m.transitions.len() ==> {
                let tr = #[trigger] m.transitions[k];
                &&& texts_of(src, m.states).contains(token_str(src, tr.from.initial))
                &&& texts_of(src, m.states).contains(token_str(src, tr.to.0))
                &&& (texts_of(src, m.alphabet).contains(token_str(src, tr.from.with_symbol))
                    || token_str(src, tr.from.with_symbol) == eps_text())
                &&& (tr.from.with_stack_symbol matches Some(tok) ==> texts_of(
                    src,
                    m.stack_alphabet->0,
                ).contains(token_str(src, tok)))
                &&& (tr.to.1 matches Some(StackTransition::Push(tok)) ==> texts_of(
                    src,
                    m.stack_alphabet->0,
                ).contains(token_str(src, tok)))
            },
{
    let stack_toks = m.stack_alphabet->0;
    let states = intern(texts_of(src, m.states));
    let alphabet = with_eps(intern(texts_of(src, m.alphabet)));
    let stack_alphabet = intern(texts_of(src, stack_toks));
    crate::machine::lemma_intern(texts_of(src, m.states));
    crate::machine::lemma_intern(texts_of(src, m.alphabet));
    crate::machine::lemma_intern(texts_of(src, stack_toks));
    lemma_find_text(states, token_str(src, m.start_state));
    assert(states.contains(token_str(src, m.start_state)));
    match m.start_stack {
        Some(tok) => {
            lemma_find_text(stack_alphabet, token_str(src, tok));
            assert(stack_alphabet.contains(token_str(src, tok)));
        },
        None => {},
    }
    let finals0 = Seq::new(states.len(), |i: int| false);
    crate::machine::dfa::lemma_mark_finals_mentions(src, states, m.final_states, finals0);
    assert forall|k: int| 0 <= k < m.final_states.len() implies texts_of(src, m.states).contains(
        token_str(src, #[trigger] m.final_states[k]),
    ) by {
        assert(states.contains(token_str(src, m.final_states[k])));
    }
    lemma_fold_pda_mentions(src, states, alphabet, stack_alphabet, m.transitions, Seq::empty());
    assert forall|k: int| 0 <= k < m.transitions.len() implies {
        let tr = #[trigger] m.transitions[k];
        &&& texts_of(src, m.states).contains(token_str(src, tr.from.initial))
        &&& texts_of(src, m.states).contains(token_str(src, tr.to.0))
        &&& (texts_of(src, m.alphabet).contains(token_str(src, tr.from.with_symbol))
            || token_str(src, tr.from.with_symbol) == eps_text())
        &&& (tr.from.with_stack_symbol matches Some(tok) ==> texts_of(src, stack_toks).contains(
            token_str(src, tok),
        ))
        &&& (tr.to.1 matches Some(StackTransition::Push(tok)) ==> texts_of(src, stack_toks).contains(
            token_str(src, tok),
        ))
    } by {
        let tr = m.transitions[k];
        assert(states.contains(token_str(src, tr.from.initial)));
        assert(states.contains(token_str(src, tr.to.0)));
        assert(alphabet.contains(token_str(src, tr.from.with_symbol)));
        let text = token_str(src, tr.from.with_symbol);
        if text != eps_text() {
            let k2 = choose|k2: int| 0 <= k2 < alphabet.len() && alphabet[k2] == text;
            if intern(texts_of(src, m.alphabet)).contains(eps_text()) {
                assert(intern(texts_of(src, m.alphabet)).contains(text));
            } else {
                if k2 < alphabet.len() - 1 {
                    assert(intern(texts_of(src, m.alphabet))[k2] == text);
                    assert(intern(texts_of(src, m.alphabet)).contains(text));
                } else {
                    assert(alphabet.last() == eps_text());
                    assert(false);
                }
            }
        }
        match tr.from.with_stack_symbol {
            Some(tok) => {
                assert(stack_alphabet.contains(token_str(src, tok)));
            },
            None => {},
        }
        match tr.to.1 {
            Some(StackTransition::Push(tok)) => {
                assert(stack_alphabet.contains(token_str(src, tok)));
            },
            _ => {},
        }
    }
}

/// A validated pushdown automaton.
#[derive(Debug)]
pub struct Info {
    states: Vec<Vec<char>>,
    alphabet: Vec<Vec<char>>,
    eps: usize,
    stack_alphabet: Vec<Vec<char>>,
    transitions: Vec<(PDATransitionFrom, PDATransitionTo)>,
    start_state: usize,
    final_states: Vec<bool>,
    start_stack_symbol: Option<usize>,
}

impl View for Info {
    type V = InfoView;

    closed spec fn view(&self) -> InfoView {
        InfoView {
            states: texts_view(self.states@),
            alphabet: texts_view(self.alphabet@),
            eps: self.eps as int,
            stack_alphabet: texts_view(self.stack_alphabet@),
            rules: self.transitions@,
            start_state: self.start_state as int,
            final_states: self.final_states@,
            start_stack_symbol: self.start_stack_symbol,
        }
    }
}

/// Folds the raw transitions into the rule list, mirroring `spec_fold_pda`.
fn fold_pda_exec(
    src: &[char],
    states: &Vec<Vec<char>>,
    alphabet: &Vec<Vec<char>>,
    stack_alphabet: &Vec<Vec<char>>,
    trs: &Vec<TransitionInfo>,
    rules: &mut Vec<(PDATransitionFrom, PDATransitionTo)>,
) -> (r: Result<(), PDAError>)
    requires
        forall|m: int|
            0 <= m < trs@.len() ==> crate::parser::tr_in_bounds(
                #[trigger] trs@[m],
                src@.len() as int,
            ),
    ensures
        ({
            let s = spec_fold_pda(
                src@,
                texts_view(states@),
                texts_view(alphabet@),
                texts_view(stack_alphabet@),
                trs@,
                old(rules)@,
            );
            match r {
                Ok(()) => s == Ok::<Seq<(PDATransitionFrom, PDATransitionTo)>, PDAError>(
                    final(rules)@,
                ),
                Err(e) => s == Err::<Seq<(PDATransitionFrom, PDATransitionTo)>, PDAError>(e),
            }
        }),
{
    let ghost sv = texts_view(states@);
    let ghost av = texts_view(alphabet@);
    let ghost gv = texts_view(stack_alphabet@);
    let ghost trs0 = trs@;
    let mut k: usize = 0;
    proof {
        assert(trs0.skip(0) =~= trs0);
    }
    while k < trs.len()
        invariant
            0 <= k <= trs@.len(),
            trs@ == trs0,
            sv == texts_view(states@),
            av == texts_view(alphabet@),
            gv == texts_view(stack_alphabet@),
            forall|m: int|
                0 <= m < trs0.len() ==> crate::parser::tr_in_bounds(
                    #[trigger] trs0[m],
                    src@.len() as int,
                ),
            spec_fold_pda(src@, sv, av, gv, trs0, old(rules)@) == spec_fold_pda(
                src@,
                sv,
                av,
                gv,
                trs0.skip(k as int),
                rules@,
            ),
        decreases trs@.len() - k,
    {
        let tr = trs[k];
        proof {
            assert(trs0.skip(k as int)[0] == trs0[k as int]);
            assert(trs0.skip(k as int).drop_first() =~= trs0.skip(k as int + 1));
        }
        let op = match tr.to.1 {
            None => {
                return Err(PDAError::StackOperationsRequired);
            },
            Some(op) => op,
        };
        let ftext = tr.from.initial.src(src);
        let si = match find_vec(states, ftext.as_slice()) {
            None => {
                return Err(PDAError::Parser(ParserError::UnknownState { at: tr.from.initial.span }));
            },
            Some(x) => x,
        };
        let ttext = tr.to.0.src(src);
        let ti = match find_vec(states, ttext.as_slice()) {
            None => {
                return Err(PDAError::Parser(ParserError::UnknownState { at: tr.to.0.span }));
            },
            Some(x) => x,
        };
        let stext = tr.from.with_symbol.src(src);
        let ai = match find_vec(alphabet, stext.as_slice()) {
            None => {
                return Err(
                    PDAError::Parser(
                        ParserError::UnknownAlphabetSymbol { at: tr.from.with_symbol.span },
                    ),
                );
            },
            Some(x) => x,
        };
        let stack_top = match tr.from.with_stack_symbol {
            None => None,
            Some(tok) => {
                let gtext = tok.src(src);
                match find_vec(stack_alphabet, gtext.as_slice()) {
                    None => {
                        return Err(
                            PDAError::Parser(ParserError::UnknownAlphabetSymbol { at: tok.span }),
                        );
                    },
                    Some(x) => Some(x),
                }
            },
        };
        let stack_action = match op {
            StackTransition::Push(tok) => {
                let ptext = tok.src(src);
                match find_vec(stack_alphabet, ptext.as_slice()) {
                    None => {
                        return Err(
                            PDAError::Parser(ParserError::UnknownAlphabetSymbol { at: tok.span }),
                        );
                    },
                    Some(x) => StackAction::Push(x),
                }
            },
            StackTransition::Pop => StackAction::Pop,
            StackTransition::NoOp => StackAction::NoOp,
            StackTransition::Write(_) => {
                return Err(PDAError::StackOperationsRequired);
            },
        };
        rules.push(
            (
                PDATransitionFrom { initial: si, with_symbol: ai, stack_top },
                PDATransitionTo { state: ti, stack_action },
            ),
        );
        k = k + 1;
    }
    proof {
        assert(trs0.skip(trs0.len() as int).len() == 0);
    }
    Ok(())
}

impl Info {
    #[verifier::type_invariant]
    spec fn type_inv(self) -> bool {
        self@.wf()
    }

    /// Validates a parsed description as a pushdown automaton.
    pub fn new(machine: PartialMachineInfo, src: &[char]) -> (r: Result<Info, PDAError>)
        requires
            pm_in_bounds(machine@, src@),
        ensures
            ({
                let s = spec_validate(machine@, src@);
                match r {
                    Ok(info) => s == Ok::<InfoView, PDAError>(info@),
                    Err(e) => s == Err::<InfoView, PDAError>(e),
                }
            }),
    {
        let stack_toks = match &machine.stack_alphabet {
            None => {
                return Err(PDAError::StackOperationsRequired);
            },
            Some(v) => v,
        };
        let states = intern_tokens(src, &machine.states);
        let mut alphabet = intern_tokens(src, &machine.alphabet);
        let mut epsv: Vec<char> = Vec::new();
        epsv.push('\u{03b5}');
        proof {
            assert(epsv@ =~= eps_text());
            lemma_find_text(texts_view(alphabet@), eps_text());
        }
        let eps = match find_vec(&alphabet, epsv.as_slice()) {
            Some(k) => {
                proof {
                    assert(texts_view(alphabet@) =~= with_eps(
                        intern(texts_of(src@, machine@.alphabet)),
                    ));
                }
                k
            },
            None => {
                let ghost before = texts_view(alphabet@);
                let k = alphabet.len();
                alphabet.push(epsv);
                proof {
                    assert(texts_view(alphabet@) =~= before.push(eps_text()));
                    assert(texts_view(alphabet@) =~= with_eps(
                        intern(texts_of(src@, machine@.alphabet)),
                    ));
                }
                k
            },
        };
        let stack_alphabet = intern_tokens(src, stack_toks);
        let ghost sv = texts_view(states@);
        let ghost av = texts_view(alphabet@);
        let ghost gv = texts_view(stack_alphabet@);
        proof {
            crate::machine::lemma_intern(texts_of(src@, machine@.alphabet));
            if !intern(texts_of(src@, machine@.alphabet)).contains(eps_text()) {
                assert(av.last() == eps_text());
            }
            assert(av.contains(eps_text()));
            lemma_find_text(av, eps_text());
            assert(find_text(av, eps_text()) == Some(eps as int));
        }
        let n = states.len();

        let start_stack_symbol = match &machine.start_stack {
            None => None,
            Some(tok) => {
                let text = tok.src(src);
                match find_vec(&stack_alphabet, text.as_slice()) {
                    None => {
                        return Err(
                            PDAError::Parser(ParserError::UnknownAlphabetSymbol { at: tok.span }),
                        );
                    },
                    Some(x) => {
                        proof {
                            lemma_find_text(gv, text@);
                        }
                        Some(x)
                    },
                }
            },
        };

        let mut finals: Vec<bool> = crate::machine::dfa::make_false_vec(n);
        match mark_finals(src, &states, &machine.final_states, &mut finals) {
            Err(t) => {
                return Err(PDAError::Parser(ParserError::UnknownState { at: t.span }));
            },
            Ok(()) => {},
        }

        let start_text = machine.start_state.src(src);
        let si = match find_vec(&states, start_text.as_slice()) {
            None => {
                return Err(
                    PDAError::Parser(ParserError::UnknownState { at: machine.start_state.span }),
                );
            },
            Some(si) => si,
        };
        proof {
            lemma_find_text(sv, start_text@);
        }

        let mut rules: Vec<(PDATransitionFrom, PDATransitionTo)> = Vec::new();
        match fold_pda_exec(src, &states, &alphabet, &stack_alphabet, &machine.transitions, &mut rules) {
            Err(e) => {
                return Err(e);
            },
            Ok(()) => {},
        }

        proof {
            lemma_validate_wf(machine@, src@);
            let iv = InfoView {
                states: sv,
                alphabet: av,
                eps: eps as int,
                stack_alphabet: gv,
                rules: rules@,
                start_state: si as int,
                final_states: finals@,
                start_stack_symbol,
            };
            assert(spec_validate(machine@, src@) == Ok::<InfoView, PDAError>(iv));
            assert(iv.wf());
        }
        let info = Info {
            states,
            alphabet,
            eps,
            stack_alphabet,
            transitions: rules,
            start_state: si,
            final_states: finals,
            start_stack_symbol,
        };
        Ok(info)
    }
}

/// The first rule at or after `i` for this key that demands exactly the
/// stack top `t`.
pub open spec fn find_specific(
    rules: Seq<(PDATransitionFrom, PDATransitionTo)>,
    st: int,
    sym: int,
    t: usize,
    i: int,
) -> Option<int>
    decreases rules.len() - i,
    when 0 <= i
{
    if i >= rules.len() {
        None
    } else if (rules[i].0.initial as int) == st && (rules[i].0.with_symbol as int) == sym
        && rules[i].0.stack_top == Some(t) {
        Some(i)
    } else {
        find_specific(rules, st, sym, t, i + 1)
    }
}

/// The first rule at or after `i` for this key that demands no particular
/// stack top.
pub open spec fn find_wild(
    rules: Seq<(PDATransitionFrom, PDATransitionTo)>,
    st: int,
    sym: int,
    i: int,
) -> Option<int>
    decreases rules.len() - i,
    when 0 <= i
{
    if i >= rules.len() {
        None
    } else if (rules[i].0.initial as int) == st && (rules[i].0.with_symbol as int) == sym
        && rules[i].0.stack_top is None {
        Some(i)
    } else {
        find_wild(rules, st, sym, i + 1)
    }
}

/// The rule the greedy policy fires for (state, symbol, stack top): a rule
/// demanding exactly the current top wins over one demanding none; among
/// equals the first declared wins.  With an empty stack only top-free rules
/// match.
pub open spec fn pick_rule(iv: InfoView, st: int, sym: int, top: Option<usize>) -> Option<int> {
    match top {
        Some(t) => match find_specific(iv.rules, st, sym, t, 0) {
            Some(k) => Some(k),
            None => find_wild(iv.rules, st, sym, 0),
        },
        None => find_wild(iv.rules, st, sym, 0),
    }
}

/// The stack after an action: a pop on an empty stack is a no-op, never an
/// underflow.
pub open spec fn apply_action(stack: Seq<usize>, act: StackAction) -> Seq<usize> {
    match act {
        StackAction::Push(x) => stack.push(x),
        StackAction::Pop => if stack.len() > 0 {
            stack.drop_last()
        } else {
            stack
        },
        StackAction::NoOp => stack,
    }
}

/// The current stack top, `None` for an empty stack.
pub open spec fn top_of(stack: Seq<usize>) -> Option<usize> {
    if stack.len() == 0 {
        None
    } else {
        Some(stack.last())
    }
}

/// The greedy run, one fired rule per unit of fuel.  `None` means the
/// machine had not halted within `fuel` rule firings.  An ε-rule fires
/// whenever one applies; otherwise, with input left, the current character
/// must resolve to a declared symbol and a rule must fire on it, else the
/// input is rejected; with no input left and no ε-rule applicable the
/// machine halts and accepts exactly when the current state is final.
pub open spec fn spec_run_from(
    iv: InfoView,
    st: int,
    stack: Seq<usize>,
    input: Seq<char>,
    pos: int,
    fuel: nat,
) -> Option<bool>
    decreases fuel,
{
    if pos >= input.len() {
        match pick_rule(iv, st, iv.eps, top_of(stack)) {
            None => Some(iv.final_states[st]),
            Some(k) => if fuel == 0 {
                None
            } else {
                spec_run_from(
                    iv,
                    iv.rules[k].1.state as int,
                    apply_action(stack, iv.rules[k].1.stack_action),
                    input,
                    pos,
                    (fuel - 1) as nat,
                )
            },
        }
    } else {
        match find_char_symbol_noneps(iv.alphabet, input[pos]) {
            None => Some(false),
            Some(a) => match pick_rule(iv, st, iv.eps, top_of(stack)) {
                Some(k) => if fuel == 0 {
                    None
                } else {
                    spec_run_from(
                        iv,
                        iv.rules[k].1.state as int,
                        apply_action(stack, iv.rules[k].1.stack_action),
                        input,
                        pos,
                        (fuel - 1) as nat,
                    )
                },
                None => match pick_rule(iv, st, a, top_of(stack)) {
                    None => Some(false),
                    Some(k) => if fuel == 0 {
                        None
                    } else {
                        spec_run_from(
                            iv,
                            iv.rules[k].1.state as int,
                            apply_action(stack, iv.rules[k].1.stack_action),
                            input,
                            pos + 1,
                            (fuel - 1) as nat,
                        )
                    },
                },
            },
        }
    }
}

/// More fuel never changes a result already reached.
pub proof fn lemma_run_fuel_monotone(
    iv: InfoView,
    st: int,
    stack: Seq<usize>,
    input: Seq<char>,
    pos: int,
    f1: nat,
    f2: nat,
)
    requires
        f1 <= f2,
        spec_run_from(iv, st, stack, input, pos, f1) is Some,
    ensures
        spec_run_from(iv, st, stack, input, pos, f2) == spec_run_from(iv, st, stack, input, pos, f1),
    decreases f1,
{
    if pos >= input.len() {
        match pick_rule(iv, st, iv.eps, top_of(stack)) {
            None => {},
            Some(k) => {
                lemma_run_fuel_monotone(
                    iv,
                    iv.rules[k].1.state as int,
                    apply_action(stack, iv.rules[k].1.stack_action),
                    input,
                    pos,
                    (f1 - 1) as nat,
                    (f2 - 1) as nat,
                );
            },
        }
    } else {
        match find_char_symbol_noneps(iv.alphabet, input[pos]) {
            None => {},
            Some(a) => match pick_rule(iv, st, iv.eps, top_of(stack)) {
                Some(k) => {
                    lemma_run_fuel_monotone(
                        iv,
                        iv.rules[k].1.state as int,
                        apply_action(stack, iv.rules[k].1.stack_action),
                        input,
                        pos,
                        (f1 - 1) as nat,
                        (f2 - 1) as nat,
                    );
                },
                None => match pick_rule(iv, st, a, top_of(stack)) {
                    None => {},
                    Some(k) => {
                        lemma_run_fuel_monotone(
                            iv,
                            iv.rules[k].1.state as int,
                            apply_action(stack, iv.rules[k].1.stack_action),
                            input,
                            pos + 1,
                            (f1 - 1) as nat,
                            (f2 - 1) as nat,
                        );
                    },
                },
            },
        }
    }
}

/// The view of a machine: its rules, current state and stack.
pub struct MachineView {
    pub info: InfoView,
    pub current_state: int,
    pub stack: Seq<usize>,
}

/// A pushdown automaton ready to run.
pub struct Machine {
    info: Info,
    current_state: usize,
    stack: Vec<usize>,
}

impl View for Machine {
    type V = MachineView;

    closed spec fn view(&self) -> MachineView {
        MachineView {
            info: self.info@,
            current_state: self.current_state as int,
            stack: self.stack@,
        }
    }
}

/// The first rule the greedy policy fires for this key, if any.
fn pick_rule_exec(info: &Info, st: usize, sym: usize, top: Option<usize>) -> (r: Option<usize>)
    ensures
        ({
            let s = pick_rule(info@, st as int, sym as int, top);
            match r {
                Some(k) => s == Some(k as int) && (k as int) < info@.rules.len(),
                None => s is None,
            }
        }),
{
    let ghost rv = info@.rules;
    proof {
        assert(info.transitions@ == rv);
    }
    if let Some(t) = top {
        let mut k: usize = 0;
        while k < info.transitions.len()
            invariant
                0 <= k <= rv.len(),
                rv == info.transitions@,
                rv == info@.rules,
                top == Some(t),
                find_specific(rv, st as int, sym as int, t, 0) == find_specific(
                    rv,
                    st as int,
                    sym as int,
                    t,
                    k as int,
                ),
            decreases rv.len() - k,
        {
            let rule = &info.transitions[k];
            if rule.0.initial == st && rule.0.with_symbol == sym && (match rule.0.stack_top {
                Some(x) => x == t,
                None => false,
            }) {
                proof {
                    assert(rv[k as int] == info.transitions@[k as int]);
                    assert(find_specific(rv, st as int, sym as int, t, k as int) == Some(
                        k as int,
                    ));
                }
                return Some(k);
            }
            k = k + 1;
        }
    }
    let mut k: usize = 0;
    while k < info.transitions.len()
        invariant
            0 <= k <= rv.len(),
            rv == info.transitions@,
            rv == info@.rules,
            find_wild(rv, st as int, sym as int, 0) == find_wild(rv, st as int, sym as int, k as int),
            (top matches Some(t) ==> find_specific(rv, st as int, sym as int, t, 0) is None),
        decreases rv.len() - k,
    {
        let rule = &info.transitions[k];
        if rule.0.initial == st && rule.0.with_symbol == sym && rule.0.stack_top.is_none() {
            return Some(k);
        }
        k = k + 1;
    }
    None
}

impl Machine {
    #[verifier::type_invariant]
    spec fn type_inv(self) -> bool {
        self.info@.wf() && 0 <= self.current_state < self.info@.states.len()
    }

    /// A machine positioned on the start state, its stack holding the start
    /// symbol if one was declared and nothing otherwise.
    pub fn new(info: Info) -> (r: Machine)
        ensures
            r@.info == info@,
            r@.current_state == info@.start_state,
            r@.stack == match info@.start_stack_symbol {
                Some(x) => seq![x],
                None => Seq::<usize>::empty(),
            },
    {
        proof {
            use_type_invariant(&info);
        }
        let mut stack: Vec<usize> = Vec::new();
        match info.start_stack_symbol {
            Some(x) => {
                stack.push(x);
                proof {
                    assert(stack@ =~= seq![x]);
                }
            },
            None => {
                proof {
                    assert(stack@ =~= Seq::<usize>::empty());
                }
            },
        }
        Machine { current_state: info.start_state, info, stack }
    }

    /// Fires the first rule the greedy policy finds for the given symbol and
    /// stack-top requirement, updating state and stack; reports whether one
    /// fired.  A pop on an empty stack leaves the stack empty: it is a
    /// no-op, never an underflow.
    pub fn make_transition(&mut self, symbol: usize, stack_top: Option<usize>) -> (r: bool)
        ensures
            ({
                let picked = pick_rule(old(self)@.info, old(self)@.current_state, symbol as int, stack_top);
                match picked {
                    None => r == false && final(self)@ == old(self)@,
                    Some(k) => {
                        let rule = old(self)@.info.rules[k];
                        r == true && final(self)@.info == old(self)@.info
                            && final(self)@.current_state == rule.1.state as int && final(self)@.stack
                            == apply_action(old(self)@.stack, rule.1.stack_action)
                    },
                }
            }),
    {
        proof {
            use_type_invariant(&*self);
        }
        let k = match pick_rule_exec(&self.info, self.current_state, symbol, stack_top) {
            None => {
                return false;
            },
            Some(k) => k,
        };
        let rule = self.transitions_at(k);
        let mut st: Vec<usize> = Vec::new();
        std::mem::swap(&mut st, &mut self.stack);
        match rule.1.stack_action {
            StackAction::Push(x) => {
                st.push(x);
            },
            StackAction::Pop => {
                if st.len() > 0 {
                    st.pop();
                    proof {
                        assert(st@ =~= apply_action(old(self)@.stack, StackAction::Pop));
                    }
                }
            },
            StackAction::NoOp => {},
        }
        self.stack = st;
        self.current_state = rule.1.state;
        true
    }

    /// The rule at a given position of the declaration-ordered list.
    fn transitions_at(&self, k: usize) -> (r: (PDATransitionFrom, PDATransitionTo))
        requires
            (k as int) < self@.info.rules.len(),
        ensures
            r == self@.info.rules[k as int],
    {
        self.info.transitions[k]
    }

    /// Whether some ε-rule applies in the current configuration: one for
    /// the current stack top, or one demanding no particular top.
    pub fn can_make_epsilon_transition(&self) -> (r: bool)
        ensures
            r == (pick_rule(
                self@.info,
                self@.current_state,
                self@.info.eps,
                top_of(self@.stack),
            ) is Some),
    {
        let top = self.stack_top();
        pick_rule_exec(&self.info, self.current_state, self.info.eps, top).is_some()
    }

    /// The current stack top, `None` for an empty stack.
    fn stack_top(&self) -> (r: Option<usize>)
        ensures
            r == top_of(self@.stack),
    {
        if self.stack.len() == 0 {
            None
        } else {
            Some(self.stack[self.stack.len() - 1])
        }
    }

    /// Runs the greedy simulation over `input` and decides acceptance.  The
    /// result is what the greedy policy reaches, provided it halts within
    /// `usize::MAX` rule firings; a run still going after that is rejected.
    pub fn run(self, input: &[char]) -> (r: bool)
        ensures
            ({
                let outcome = spec_run_from(
                    self@.info,
                    self@.current_state,
                    self@.stack,
                    input@,
                    0,
                    usize::MAX as nat,
                );
                outcome == Some(r) || (r == false && outcome is None)
            }),
    {
        proof {
            use_type_invariant(&self);
        }
        let ghost iv = self@.info;
        let ghost st0 = self@.current_state;
        let ghost sk0 = self@.stack;
        let mut mach = self;
        let n = input.len();
        let mut pos: usize = 0;
        let mut fuel: usize = usize::MAX;
        loop
            invariant
                iv == mach@.info,
                iv == self@.info,
                st0 == self@.current_state,
                sk0 == self@.stack,
                0 <= pos <= n,
                n == input@.len(),
                fuel <= usize::MAX,
                forall|k: nat|
                    spec_run_from(iv, st0, sk0, input@, 0, ((usize::MAX - fuel) + k) as nat)
                        == #[trigger] spec_run_from(
                        iv,
                        mach@.current_state,
                        mach@.stack,
                        input@,
                        pos as int,
                        k,
                    ),
            decreases fuel,
        {
            let top = mach.stack_top();
            if pos >= n {
                let eps = mach.info.eps;
                proof {
                    assert(iv.eps == eps as int);
                }
                let fired = if fuel == 0 {
                    match pick_rule_exec(&mach.info, mach.current_state, eps, top) {
                        Some(_) => {
                            proof {
                                assert(spec_run_from(
                                    iv,
                                    mach@.current_state,
                                    mach@.stack,
                                    input@,
                                    pos as int,
                                    0,
                                ) is None);
                                assert(spec_run_from(iv, st0, sk0, input@, 0, usize::MAX as nat)
                                    is None);
                            }
                            return false;
                        },
                        None => false,
                    }
                } else {
                    let ghost mst = mach@;
                    let ghost fuel0 = fuel;
                    let fired = mach.make_transition(eps, top);
                    proof {
                        if fired {
                            assert forall|k: nat|
                                spec_run_from(
                                    iv,
                                    st0,
                                    sk0,
                                    input@,
                                    0,
                                    ((usize::MAX - (fuel0 - 1)) + k) as nat,
                                ) == #[trigger] spec_run_from(
                                    iv,
                                    mach@.current_state,
                                    mach@.stack,
                                    input@,
                                    pos as int,
                                    k,
                                ) by {
                                assert(spec_run_from(
                                    iv,
                                    st0,
                                    sk0,
                                    input@,
                                    0,
                                    ((usize::MAX - fuel0) + (k + 1)) as nat,
                                ) == spec_run_from(
                                    iv,
                                    mst.current_state,
                                    mst.stack,
                                    input@,
                                    pos as int,
                                    (k + 1) as nat,
                                ));
                                assert(spec_run_from(
                                    iv,
                                    mst.current_state,
                                    mst.stack,
                                    input@,
                                    pos as int,
                                    (k + 1) as nat,
                                ) == spec_run_from(
                                    iv,
                                    mach@.current_state,
                                    mach@.stack,
                                    input@,
                                    pos as int,
                                    k,
                                ));
                            }
                        }
                    }
                    fired
                };
                if !fired {
                    proof {
                        use_type_invariant(&mach);
                    }
                    let accept = mach.info.final_states[mach.current_state];
                    proof {
                        assert(spec_run_from(
                            iv,
                            mach@.current_state,
                            mach@.stack,
                            input@,
                            pos as int,
                            0,
                        ) == Some(iv.final_states[mach@.current_state]));
                        assert(spec_run_from(iv, st0, sk0, input@, 0, ((usize::MAX - fuel) + 0) as nat)
                            == Some(accept));
                        lemma_run_fuel_monotone(
                            iv,
                            st0,
                            sk0,
                            input@,
                            0,
                            ((usize::MAX - fuel) + 0) as nat,
                            usize::MAX as nat,
                        );
                    }
                    return accept;
                }
                fuel = fuel - 1;
            } else {
                let c = input[pos];
                let a = match find_symbol_char_noneps(&mach.info.alphabet, c) {
                    None => {
                        proof {
                            assert(spec_run_from(
                                iv,
                                mach@.current_state,
                                mach@.stack,
                                input@,
                                pos as int,
                                0,
                            ) == Some(false));
                            lemma_run_fuel_monotone(
                                iv,
                                st0,
                                sk0,
                                input@,
                                0,
                                ((usize::MAX - fuel) + 0) as nat,
                                usize::MAX as nat,
                            );
                        }
                        return false;
                    },
                    Some(a) => a,
                };
                proof {
                    lemma_find_char_symbol_noneps(iv.alphabet, c);
                }
                let eps = mach.info.eps;
                proof {
                    assert(iv.eps == eps as int);
                }
                match pick_rule_exec(&mach.info, mach.current_state, eps, top) {
                    Some(_) => {
                        if fuel == 0 {
                            proof {
                                assert(spec_run_from(
                                    iv,
                                    mach@.current_state,
                                    mach@.stack,
                                    input@,
                                    pos as int,
                                    0,
                                ) is None);
                                assert(spec_run_from(iv, st0, sk0, input@, 0, usize::MAX as nat)
                                    is None);
                            }
                            return false;
                        }
                        let ghost mst = mach@;
                        let ghost fuel0 = fuel;
                        mach.make_transition(eps, top);
                        fuel = fuel - 1;
                        proof {
                            assert forall|k: nat|
                                spec_run_from(
                                    iv,
                                    st0,
                                    sk0,
                                    input@,
                                    0,
                                    ((usize::MAX - fuel) + k) as nat,
                                ) == #[trigger] spec_run_from(
                                    iv,
                                    mach@.current_state,
                                    mach@.stack,
                                    input@,
                                    pos as int,
                                    k,
                                ) by {
                                assert(spec_run_from(
                                    iv,
                                    st0,
                                    sk0,
                                    input@,
                                    0,
                                    ((usize::MAX - fuel0) + (k + 1)) as nat,
                                ) == spec_run_from(
                                    iv,
                                    mst.current_state,
                                    mst.stack,
                                    input@,
                                    pos as int,
                                    (k + 1) as nat,
                                ));
                                assert(spec_run_from(
                                    iv,
                                    mst.current_state,
                                    mst.stack,
                                    input@,
                                    pos as int,
                                    (k + 1) as nat,
                                ) == spec_run_from(
                                    iv,
                                    mach@.current_state,
                                    mach@.stack,
                                    input@,
                                    pos as int,
                                    k,
                                ));
                            }
                        }
                    },
                    None => {
                        match pick_rule_exec(&mach.info, mach.current_state, a, top) {
                            None => {
                                proof {
                                    assert(spec_run_from(
                                        iv,
                                        mach@.current_state,
                                        mach@.stack,
                                        input@,
                                        pos as int,
                                        0,
                                    ) == Some(false));
                                    lemma_run_fuel_monotone(
                                        iv,
                                        st0,
                                        sk0,
                                        input@,
                                        0,
                                        ((usize::MAX - fuel) + 0) as nat,
                                        usize::MAX as nat,
                                    );
                                }
                                return false;
                            },
                            Some(_) => {
                                if fuel == 0 {
                                    proof {
                                        assert(spec_run_from(
                                            iv,
                                            mach@.current_state,
                                            mach@.stack,
                                            input@,
                                            pos as int,
                                            0,
                                        ) is None);
                                        assert(spec_run_from(
                                            iv,
                                            st0,
                                            sk0,
                                            input@,
                                            0,
                                            usize::MAX as nat,
                                        ) is None);
                                    }
                                    return false;
                                }
                                let ghost mst = mach@;
                                let ghost fuel0 = fuel;
                                let ghost pos0 = pos as int;
                                mach.make_transition(a, top);
                                pos = pos + 1;
                                fuel = fuel - 1;
                                proof {
                                    assert forall|k: nat|
                                        spec_run_from(
                                            iv,
                                            st0,
                                            sk0,
                                            input@,
                                            0,
                                            ((usize::MAX - fuel) + k) as nat,
                                        ) == #[trigger] spec_run_from(
                                            iv,
                                            mach@.current_state,
                                            mach@.stack,
                                            input@,
                                            pos as int,
                                            k,
                                        ) by {
                                        assert(spec_run_from(
                                            iv,
                                            st0,
                                            sk0,
                                            input@,
                                            0,
                                            ((usize::MAX - fuel0) + (k + 1)) as nat,
                                        ) == spec_run_from(
                                            iv,
                                            mst.current_state,
                                            mst.stack,
                                            input@,
                                            pos0,
                                            (k + 1) as nat,
                                        ));
                                        assert(spec_run_from(
                                            iv,
                                            mst.current_state,
                                            mst.stack,
                                            input@,
                                            pos0,
                                            (k + 1) as nat,
                                        ) == spec_run_from(
                                            iv,
                                            mach@.current_state,
                                            mach@.stack,
                                            input@,
                                            pos as int,
                                            k,
                                        ));
                                    }
                                }
                            },
                        }
                    },
                }
            }
        }
    }
}

} // verus!
