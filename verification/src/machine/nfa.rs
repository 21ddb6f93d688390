//! Nondeterministic finite automaton: validator and simulator.
//!
//! Validation is the same name-checking as for the deterministic kind, but
//! the reserved symbol "ε" is implicitly added to the alphabet, and a key
//! may map to any number of destinations.  Execution carries a set of
//! states: it starts from the epsilon-closure of the start state, steps
//! through the union of destinations closed again under ε-moves, and
//! accepts when the final set meets a final state.

use vstd::prelude::*;
use crate::parser::{
    ParserError, PartialMachineInfo, PartialMachineInfoView, TransitionInfo, token_str,
    pm_in_bounds,
};
use crate::machine::{
    TransitionTo, texts_of, texts_view, find_text, intern, intern_tokens, lemma_find_text,
    lemma_intern, spec_mark_finals, mark_finals, find_char_symbol_noneps, find_vec,
    find_symbol_char_noneps, lemma_find_char_symbol_noneps, eps_text,
};

verus! {

#[derive(Debug, Clone, Copy, PartialEq, Eq)]
pub enum NFAError {
    /// The description carries stack material a finite automaton cannot use.
    StackOperationsNotAllowed,
    /// The description carries a direction a finite automaton cannot use.
    TapeOperationsNotAllowed,
    /// A state or symbol mentioned outside the declared sets.
    Parser(ParserError),
}

/// The mathematical shape of a validated nondeterministic automaton.
pub struct InfoView {
    pub states: Seq<Seq<char>>,
    pub alphabet: Seq<Seq<char>>,
    pub eps: int,
    pub transitions: Seq<Seq<Seq<TransitionTo>>>,
    pub start_state: int,
    pub final_states: Seq<bool>,
}

impl InfoView {
    /// Soundness of the table: one row per declared state, one column per
    /// alphabet symbol (ε included), every destination a declared state.
    pub open spec fn wf(self) -> bool {
        &&& self.final_states.len() == self.states.len()
        &&& self.transitions.len() == self.states.len()
        &&& forall|s: int|
            0 <= s < self.transitions.len() ==> (#[trigger] self.transitions[s]).len()
                == self.alphabet.len()
        &&& 0 <= self.start_state < self.states.len()
        &&& 0 <= self.eps < self.alphabet.len()
        &&& self.alphabet[self.eps] == eps_text()
        &&& forall|s: int, a: int, m: int|
            0 <= s < self.states.len() && 0 <= a < self.alphabet.len() && 0 <= m
                < self.transitions[s][a].len() ==> 0 <= (#[trigger] self.transitions[s][a][m]).0
                < self.states.len()
    }
}

/// The declared alphabet with the reserved "ε" appended when not declared.
pub open spec fn with_eps(alphabet: Seq<Seq<char>>) -> Seq<Seq<char>> {
    if alphabet.contains(eps_text()) {
        alphabet
    } else {
        alphabet.push(eps_text())
    }
}

/// Folds raw transitions into the table: screen out stack and tape
/// material, resolve the three names, and append the destination to the
/// key's list.
pub open spec fn spec_fold_nfa(
    src: Seq<char>,
    states: Seq<Seq<char>>,
    alphabet: Seq<Seq<char>>,
    trs: Seq<TransitionInfo>,
    table: Seq<Seq<Seq<TransitionTo>>>,
) -> Result<Seq<Seq<Seq<TransitionTo>>>, NFAError>
    decreases trs.len(),
{
    if trs.len() == 0 {
        Ok(table)
    } else {
        let tr = trs[0];
        if tr.from.with_stack_symbol is Some || tr.to.1 is Some {
            Err(NFAError::StackOperationsNotAllowed)
        } else if tr.to.2 is Some {
            Err(NFAError::TapeOperationsNotAllowed)
        } else {
            match find_text(states, token_str(src, tr.from.initial)) {
                None => Err(
                    NFAError::Parser(ParserError::UnknownState { at: tr.from.initial.span }),
                ),
                Some(si) => match find_text(states, token_str(src, tr.to.0)) {
                    None => Err(NFAError::Parser(ParserError::UnknownState { at: tr.to.0.span })),
                    Some(ti) => match find_text(alphabet, token_str(src, tr.from.with_symbol)) {
                        None => Err(
                            NFAError::Parser(
                                ParserError::UnknownAlphabetSymbol { at: tr.from.with_symbol.span },
                            ),
                        ),
                        Some(ai) => spec_fold_nfa(
                            src,
                            states,
                            alphabet,
                            trs.drop_first(),
                            table.update(
                                si,
                                table[si].update(
                                    ai,
                                    table[si][ai].push(TransitionTo(ti as usize)),
                                ),
                            ),
                        ),
                    },
                },
            }
        }
    }
}

/// An empty table: one destination list per (state, symbol), all empty.
pub open spec fn blank_nfa_table(n: nat, a: nat) -> Seq<Seq<Seq<TransitionTo>>> {
    Seq::new(n, |i: int| Seq::new(a, |j: int| Seq::<TransitionTo>::empty()))
}

/// What validating a description as a nondeterministic automaton yields.
pub open spec fn spec_validate(m: PartialMachineInfoView, src: Seq<char>) -> Result<
    InfoView,
    NFAError,
> {
    if m.stack_alphabet is Some || m.start_stack is Some {
        Err(NFAError::StackOperationsNotAllowed)
    } else if m.tape_alphabet is Some || m.blank_symbol is Some {
        Err(NFAError::TapeOperationsNotAllowed)
    } else {
        let states = intern(texts_of(src, m.states));
        let alphabet = with_eps(intern(texts_of(src, m.alphabet)));
        match spec_mark_finals(src, states, m.final_states, Seq::new(states.len(), |i: int| false)) {
            Err(t) => Err(NFAError::Parser(ParserError::UnknownState { at: t.span })),
            Ok(finals) => match find_text(states, token_str(src, m.start_state)) {
                None => Err(NFAError::Parser(ParserError::UnknownState { at: m.start_state.span })),
                Some(si) => match spec_fold_nfa(
                    src,
                    states,
                    alphabet,
                    m.transitions,
                    blank_nfa_table(states.len(), alphabet.len()),
                ) {
                    Err(e) => Err(e),
                    Ok(table) => Ok(
                        InfoView {
                            states,
                            alphabet,
                            eps: find_text(alphabet, eps_text())->0,
                            transitions: table,
                            start_state: si,
                            final_states: finals,
                        },
                    ),
                },
            },
        }
    }
}

/// Shape and bounds of a (possibly partial) table.
pub open spec fn nfa_table_shape_ok(table: Seq<Seq<Seq<TransitionTo>>>, n: int, a: int) -> bool {
    &&& table.len() == n
    &&& forall|s: int| 0 <= s < n ==> (#[trigger] table[s]).len() == a
    &&& forall|s: int, c: int, m: int|
        0 <= s < n && 0 <= c < a && 0 <= m < table[s][c].len() ==> 0 <= (
        #[trigger] table[s][c][m]).0 < n
}

proof fn lemma_fold_nfa_shape(
    src: Seq<char>,
    states: Seq<Seq<char>>,
    alphabet: Seq<Seq<char>>,
    trs: Seq<TransitionInfo>,
    table: Seq<Seq<Seq<TransitionTo>>>,
)
    requires
        nfa_table_shape_ok(table, states.len() as int, alphabet.len() as int),
    ensures
        spec_fold_nfa(src, states, alphabet, trs, table) matches Ok(t2) ==> nfa_table_shape_ok(
            t2,
            states.len() as int,
            alphabet.len() as int,
        ),
    decreases trs.len(),
{
    if trs.len() > 0 {
        let tr = trs[0];
        if !(tr.from.with_stack_symbol is Some || tr.to.1 is Some) && !(tr.to.2 is Some) {
            let si = find_text(states, token_str(src, tr.from.initial));
            let ti = find_text(states, token_str(src, tr.to.0));
            let ai = find_text(alphabet, token_str(src, tr.from.with_symbol));
            if si is Some && ti is Some && ai is Some {
                lemma_find_text(states, token_str(src, tr.from.initial));
                lemma_find_text(states, token_str(src, tr.to.0));
                lemma_find_text(alphabet, token_str(src, tr.from.with_symbol));
                let t2 = table.update(
                    si->0,
                    table[si->0].update(
                        ai->0,
                        table[si->0][ai->0].push(TransitionTo(ti->0 as usize)),
                    ),
                );
                assert(nfa_table_shape_ok(t2, states.len() as int, alphabet.len() as int));
                lemma_fold_nfa_shape(src, states, alphabet, trs.drop_first(), t2);
            }
        }
    }
}

/// A validated automaton is structurally sound.
pub proof fn lemma_validate_wf(m: PartialMachineInfoView, src: Seq<char>)
    ensures
        spec_validate(m, src) matches Ok(iv) ==> iv.wf(),
{
    let r = spec_validate(m, src);
    if r is Ok {
        let iv = r->Ok_0;
        let states = intern(texts_of(src, m.states));
        let alphabet = with_eps(intern(texts_of(src, m.alphabet)));
        crate::machine::dfa::lemma_mark_finals_len(
            src,
            states,
            m.final_states,
            Seq::new(states.len(), |i: int| false),
        );
        lemma_find_text(states, token_str(src, m.start_state));
        lemma_intern(texts_of(src, m.alphabet));
        if !intern(texts_of(src, m.alphabet)).contains(eps_text()) {
            assert(alphabet.last() == eps_text());
        }
        assert(alphabet.contains(eps_text()));
        lemma_find_text(alphabet, eps_text());
        assert(nfa_table_shape_ok(
            blank_nfa_table(states.len(), alphabet.len()),
            states.len() as int,
            alphabet.len() as int,
        ));
        lemma_fold_nfa_shape(
            src,
            states,
            alphabet,
            m.transitions,
            blank_nfa_table(states.len(), alphabet.len()),
        );
    }
}

/// The set a membership table denotes.
pub open spec fn set_of(v: Seq<bool>) -> Set<int> {
    Set::new(|i: int| 0 <= i < v.len() && v[i])
}

/// Whether the automaton has a transition from state `s` on symbol `a` to
/// state `d`.
pub open spec fn has_edge(iv: InfoView, s: int, a: int, d: int) -> bool {
    exists|m: int| 0 <= m < iv.transitions[s][a].len() && (#[trigger] iv.transitions[s][a][m]).0 == d
}

/// A set closed under ε-moves: following any ε-transition from a member
/// stays inside.
pub open spec fn eps_closed(iv: InfoView, c: Set<int>) -> bool {
    forall|s: int, d: int|
        c.contains(s) && 0 <= s < iv.states.len() && #[trigger] has_edge(iv, s, iv.eps, d)
            ==> c.contains(d)
}

/// `c` is the epsilon-closure of `s`: the smallest ε-closed superset of `s`.
pub open spec fn is_closure(iv: InfoView, s: Set<int>, c: Set<int>) -> bool {
    &&& s.subset_of(c)
    &&& eps_closed(iv, c)
    &&& forall|d: Set<int>| s.subset_of(d) && #[trigger] eps_closed(iv, d) ==> c.subset_of(d)
}

/// The epsilon-closure of a state set, as the least fixed point the
/// characterization `is_closure` pins down.
pub open spec fn closure_of(iv: InfoView, s: Set<int>) -> Set<int> {
    choose|c: Set<int>| is_closure(iv, s, c)
}

/// A closure only adds states, never removes: the closed set contains its
/// seed.
pub proof fn lemma_closure_extends(iv: InfoView, s: Set<int>, c: Set<int>)
    requires
        is_closure(iv, s, c),
    ensures
        s.subset_of(c),
{
}

/// Two sets that both satisfy the closure characterization of the same seed
/// are equal: the closure is unique.
pub proof fn lemma_closure_unique(iv: InfoView, s: Set<int>, c1: Set<int>, c2: Set<int>)
    requires
        is_closure(iv, s, c1),
        is_closure(iv, s, c2),
    ensures
        c1 == c2,
{
    assert(c1.subset_of(c2));
    assert(c2.subset_of(c1));
    assert(c1 =~= c2);
}

/// Closing a set twice adds nothing: `closure(closure(S)) == closure(S)`.
pub proof fn lemma_closure_idempotent(iv: InfoView, s: Set<int>, c1: Set<int>, c2: Set<int>)
    requires
        is_closure(iv, s, c1),
        is_closure(iv, c1, c2),
    ensures
        c2 == c1,
{
    assert(is_closure(iv, c1, c1));
    lemma_closure_unique(iv, c1, c1, c2);
}


proof fn lemma_fold_nfa_mentions(
    src: Seq<char>,
    states: Seq<Seq<char>>,
    alphabet: Seq<Seq<char>>,
    trs: Seq<TransitionInfo>,
    table: Seq<Seq<Seq<TransitionTo>>>,
)
    requires
        spec_fold_nfa(src, states, alphabet, trs, table) is Ok,
    ensures
        forall|k: int|
            0 <= k < trs.len() ==> {
                let tr = #[trigger] trs[k];
                states.contains(token_str(src, tr.from.initial)) && states.contains(
                    token_str(src, tr.to.0),
                ) && alphabet.contains(token_str(src, tr.from.with_symbol))
            },
    decreases trs.len(),
{
    if trs.len() > 0 {
        let tr = trs[0];
        lemma_find_text(states, token_str(src, tr.from.initial));
        lemma_find_text(states, token_str(src, tr.to.0));
        lemma_find_text(alphabet, token_str(src, tr.from.with_symbol));
        let si = find_text(states, token_str(src, tr.from.initial));
        let ti = find_text(states, token_str(src, tr.to.0));
        let ai = find_text(alphabet, token_str(src, tr.from.with_symbol));
        let t2 = table.update(
            si->0,
            table[si->0].update(ai->0, table[si->0][ai->0].push(TransitionTo(ti->0 as usize))),
        );
        lemma_fold_nfa_mentions(src, states, alphabet, trs.drop_first(), t2);
        assert forall|k: int| 0 <= k < trs.len() implies {
            let tr2 = #[trigger] trs[k];
            states.contains(token_str(src, tr2.from.initial)) && states.contains(
                token_str(src, tr2.to.0),
            ) && alphabet.contains(token_str(src, tr2.from.with_symbol))
        } by {
            if k > 0 {
                assert(trs.drop_first()[k - 1] == trs[k]);
            }
        }
    }
}

/// Every state a validated description mentions is present in the declared
/// `states` list, and every symbol in the declared `alphabet` unless it is
/// the reserved "ε", which an automaton of this kind may always use.
pub proof fn lemma_validate_mentions_declared(m: PartialMachineInfoView, src: Seq<char>)
    requires
        spec_validate(m, src) is Ok,
    ensures
        texts_of(src, m.states).contains(token_str(src, m.start_state)),
        forall|k: int|
            0 <= k < m.final_states.len() ==> texts_of(src, m.states).contains(
                token_str(src, #[trigger] m.final_states[k]),
            ),
        forall|k: int|
            0 <= k < m.transitions.len() ==> {
                let tr = #[trigger] m.transitions[k];
                texts_of(src, m.states).contains(token_str(src, tr.from.initial)) && texts_of(
                    src,
                    m.states,
                ).contains(token_str(src, tr.to.0)) && (texts_of(src, m.alphabet).contains(
                    token_str(src, tr.from.with_symbol),
                ) || token_str(src, tr.from.with_symbol) == eps_text())
            },
{
    let states = intern(texts_of(src, m.states));
    let alphabet = with_eps(intern(texts_of(src, m.alphabet)));
    lemma_intern(texts_of(src, m.states));
    lemma_intern(texts_of(src, m.alphabet));
    lemma_find_text(states, token_str(src, m.start_state));
    assert(states.contains(token_str(src, m.start_state)));
    let finals0 = Seq::new(states.len(), |i: int| false);
    crate::machine::dfa::lemma_mark_finals_mentions(src, states, m.final_states, finals0);
    assert forall|k: int| 0 <= k < m.final_states.len() implies texts_of(src, m.states).contains(
        token_str(src, #[trigger] m.final_states[k]),
    ) by {
        assert(states.contains(token_str(src, m.final_states[k])));
    }
    lemma_fold_nfa_mentions(
        src,
        states,
        alphabet,
        m.transitions,
        blank_nfa_table(states.len(), alphabet.len()),
    );
    assert forall|k: int| 0 <= k < m.transitions.len() implies {
        let tr = #[trigger] m.transitions[k];
        texts_of(src, m.states).contains(token_str(src, tr.from.initial)) && texts_of(
            src,
            m.states,
        ).contains(token_str(src, tr.to.0)) && (texts_of(src, m.alphabet).contains(
            token_str(src, tr.from.with_symbol),
        ) || token_str(src, tr.from.with_symbol) == eps_text())
    } by {
        let tr = m.transitions[k];
        assert(states.contains(token_str(src, tr.from.initial)));
        assert(states.contains(token_str(src, tr.to.0)));
        assert(alphabet.contains(token_str(src, tr.from.with_symbol)));
        let text = token_str(src, tr.from.with_symbol);
        if text != eps_text() {
            let k2 = choose|k2: int| 0 <= k2 < alphabet.len() && alphabet[k2] == text;
            if intern(texts_of(src, m.alphabet)).contains(eps_text()) {
                assert(intern(texts_of(src, m.alphabet)).contains(text));
            } else {
                if k2 < alphabet.len() - 1 {
                    assert(intern(texts_of(src, m.alphabet))[k2] == text);
                    assert(intern(texts_of(src, m.alphabet)).contains(text));
                } else {
                    assert(alphabet.last() == eps_text());
                    assert(false);
                }
            }
        }
    }
}

/// The number of members a membership table holds.
pub open spec fn count_true(s: Seq<bool>) -> nat
    decreases s.len(),
{
    if s.len() == 0 {
        0
    } else {
        count_true(s.drop_last()) + if s.last() {
            1nat
        } else {
            0nat
        }
    }
}

proof fn lemma_count_true_le(s: Seq<bool>)
    ensures
        count_true(s) <= s.len(),
    decreases s.len(),
{
    if s.len() > 0 {
        lemma_count_true_le(s.drop_last());
    }
}

proof fn lemma_count_true_update(s: Seq<bool>, i: int)
    requires
        0 <= i < s.len(),
        !s[i],
    ensures
        count_true(s.update(i, true)) == count_true(s) + 1,
    decreases s.len(),
{
    if i == s.len() - 1 {
        assert(s.update(i, true).drop_last() =~= s.drop_last());
    } else {
        assert(s.update(i, true).drop_last() =~= s.drop_last().update(i, true));
        lemma_count_true_update(s.drop_last(), i);
    }
}

/// A validated nondeterministic automaton.
#[derive(Debug)]
pub struct Info {
    states: Vec<Vec<char>>,
    alphabet: Vec<Vec<char>>,
    eps: usize,
    transitions: Vec<Vec<Vec<TransitionTo>>>,
    start_state: usize,
    final_states: Vec<bool>,
}

/// The shape of a table held as nested vectors.
pub open spec fn nfa_table_view(t: Seq<Vec<Vec<TransitionTo>>>) -> Seq<Seq<Seq<TransitionTo>>> {
    Seq::new(t.len(), |i: int| Seq::new(t[i]@.len(), |j: int| t[i]@[j]@))
}

impl View for Info {
    type V = InfoView;

    closed spec fn view(&self) -> InfoView {
        InfoView {
            states: texts_view(self.states@),
            alphabet: texts_view(self.alphabet@),
            eps: self.eps as int,
            transitions: nfa_table_view(self.transitions@),
            start_state: self.start_state as int,
            final_states: self.final_states@,
        }
    }
}

/// Folds the raw transitions into the table, mirroring `spec_fold_nfa`.
fn fold_nfa_exec(
    src: &[char],
    states: &Vec<Vec<char>>,
    alphabet: &Vec<Vec<char>>,
    trs: &Vec<TransitionInfo>,
    table: &mut Vec<Vec<Vec<TransitionTo>>>,
) -> (r: Result<(), NFAError>)
    requires
        forall|m: int|
            0 <= m < trs@.len() ==> crate::parser::tr_in_bounds(
                #[trigger] trs@[m],
                src@.len() as int,
            ),
        old(table)@.len() == states@.len(),
        forall|m: int|
            0 <= m < old(table)@.len() ==> (#[trigger] old(table)@[m])@.len() == alphabet@.len(),
    ensures
        ({
            let s = spec_fold_nfa(
                src@,
                texts_view(states@),
                texts_view(alphabet@),
                trs@,
                nfa_table_view(old(table)@),
            );
            match r {
                Ok(()) => s == Ok::<Seq<Seq<Seq<TransitionTo>>>, NFAError>(
                    nfa_table_view(final(table)@),
                ),
                Err(e) => s == Err::<Seq<Seq<Seq<TransitionTo>>>, NFAError>(e),
            }
        }),
{
    let ghost sv = texts_view(states@);
    let ghost av = texts_view(alphabet@);
    let ghost trs0 = trs@;
    let n = states.len();
    let a = alphabet.len();
    let mut k: usize = 0;
    proof {
        assert(trs0.skip(0) =~= trs0);
    }
    while k < trs.len()
        invariant
            0 <= k <= trs@.len(),
            trs@ == trs0,
            sv == texts_view(states@),
            av == texts_view(alphabet@),
            n == states@.len(),
            a == alphabet@.len(),
            forall|m: int|
                0 <= m < trs0.len() ==> crate::parser::tr_in_bounds(
                    #[trigger] trs0[m],
                    src@.len() as int,
                ),
            table@.len() == n,
            forall|m: int| 0 <= m < n ==> (#[trigger] table@[m])@.len() == a,
            spec_fold_nfa(src@, sv, av, trs0, nfa_table_view(old(table)@)) == spec_fold_nfa(
                src@,
                sv,
                av,
                trs0.skip(k as int),
                nfa_table_view(table@),
            ),
        decreases trs@.len() - k,
    {
        let tr = trs[k];
        proof {
            assert(trs0.skip(k as int)[0] == trs0[k as int]);
            assert(trs0.skip(k as int).drop_first() =~= trs0.skip(k as int + 1));
        }
        if tr.from.with_stack_symbol.is_some() || tr.to.1.is_some() {
            return Err(NFAError::StackOperationsNotAllowed);
        }
        if tr.to.2.is_some() {
            return Err(NFAError::TapeOperationsNotAllowed);
        }
        let ftext = tr.from.initial.src(src);
        let si = match find_vec(states, ftext.as_slice()) {
            None => {
                return Err(NFAError::Parser(ParserError::UnknownState { at: tr.from.initial.span }));
            },
            Some(x) => x,
        };
        let ttext = tr.to.0.src(src);
        let ti = match find_vec(states, ttext.as_slice()) {
            None => {
                return Err(NFAError::Parser(ParserError::UnknownState { at: tr.to.0.span }));
            },
            Some(x) => x,
        };
        let stext = tr.from.with_symbol.src(src);
        let ai = match find_vec(alphabet, stext.as_slice()) {
            None => {
                return Err(
                    NFAError::Parser(
                        ParserError::UnknownAlphabetSymbol { at: tr.from.with_symbol.span },
                    ),
                );
            },
            Some(x) => x,
        };
        proof {
            lemma_find_text(sv, ftext@);
            lemma_find_text(sv, ttext@);
            lemma_find_text(av, stext@);
        }
        let key = crate::machine::TransitionFrom { initial: si, with_symbol: ai };
        let ghost tbl_before = nfa_table_view(table@);
        table[key.initial][key.with_symbol].push(TransitionTo(ti));
        proof {
            assert(nfa_table_view(table@) =~~= tbl_before.update(
                si as int,
                tbl_before[si as int].update(
                    ai as int,
                    tbl_before[si as int][ai as int].push(TransitionTo(ti)),
                ),
            ));
        }
        k = k + 1;
    }
    proof {
        assert(trs0.skip(trs0.len() as int).len() == 0);
    }
    Ok(())
}

fn make_blank_nfa_table(n: usize, a: usize) -> (r: Vec<Vec<Vec<TransitionTo>>>)
    ensures
        nfa_table_view(r@) =~~= blank_nfa_table(n as nat, a as nat),
        r@.len() == n,
        forall|m: int| 0 <= m < n ==> (#[trigger] r@[m])@.len() == a,
{
    let mut table: Vec<Vec<Vec<TransitionTo>>> = Vec::new();
    let mut s: usize = 0;
    while s < n
        invariant
            0 <= s <= n,
            table@.len() == s,
            forall|m: int| 0 <= m < s ==> (#[trigger] table@[m])@.len() == a,
            forall|m: int, c: int|
                0 <= m < s && 0 <= c < a ==> (#[trigger] table@[m]@[c])@.len() == 0,
        decreases n - s,
    {
        let mut row: Vec<Vec<TransitionTo>> = Vec::new();
        let mut c: usize = 0;
        while c < a
            invariant
                0 <= c <= a,
                row@.len() == c,
                forall|m: int| 0 <= m < c ==> (#[trigger] row@[m])@.len() == 0,
            decreases a - c,
        {
            row.push(Vec::new());
            c = c + 1;
        }
        table.push(row);
        s = s + 1;
    }
    proof {
        assert(nfa_table_view(table@) =~~= blank_nfa_table(n as nat, a as nat));
    }
    table
}

impl Info {
    #[verifier::type_invariant]
    spec fn type_inv(self) -> bool {
        self@.wf()
    }

    /// Validates a parsed description as a nondeterministic finite automaton.
    pub fn new(machine: PartialMachineInfo, src: &[char]) -> (r: Result<Info, NFAError>)
        requires
            pm_in_bounds(machine@, src@),
        ensures
            ({
                let s = spec_validate(machine@, src@);
                match r {
                    Ok(info) => s == Ok::<InfoView, NFAError>(info@),
                    Err(e) => s == Err::<InfoView, NFAError>(e),
                }
            }),
    {
        if machine.stack_alphabet.is_some() || machine.start_stack.is_some() {
            return Err(NFAError::StackOperationsNotAllowed);
        }
        if machine.tape_alphabet.is_some() || machine.blank_symbol.is_some() {
            return Err(NFAError::TapeOperationsNotAllowed);
        }
        let states = intern_tokens(src, &machine.states);
        let mut alphabet = intern_tokens(src, &machine.alphabet);
        let mut epsv: Vec<char> = Vec::new();
        epsv.push('\u{03b5}');
        proof {
            assert(epsv@ =~= eps_text());
            lemma_find_text(texts_view(alphabet@), eps_text());
        }
        let eps = match find_vec(&alphabet, epsv.as_slice()) {
            Some(k) => {
                proof {
                    assert(texts_view(alphabet@) =~= with_eps(intern(texts_of(src@, machine@.alphabet))));
                }
                k
            },
            None => {
                let ghost before = texts_view(alphabet@);
                let k = alphabet.len();
                alphabet.push(epsv);
                proof {
                    assert(texts_view(alphabet@) =~= before.push(eps_text()));
                    assert(texts_view(alphabet@) =~= with_eps(intern(texts_of(src@, machine@.alphabet))));
                }
                k
            },
        };
        let ghost sv = texts_view(states@);
        let ghost av = texts_view(alphabet@);
        proof {
            lemma_intern(texts_of(src@, machine@.alphabet));
            if !intern(texts_of(src@, machine@.alphabet)).contains(eps_text()) {
                assert(av.last() == eps_text());
            }
            assert(av.contains(eps_text()));
            lemma_find_text(av, eps_text());
            assert(find_text(av, eps_text()) == Some(eps as int));
        }
        let n = states.len();
        let a = alphabet.len();

        let mut finals: Vec<bool> = crate::machine::dfa::make_false_vec(n);
        match mark_finals(src, &states, &machine.final_states, &mut finals) {
            Err(t) => {
                return Err(NFAError::Parser(ParserError::UnknownState { at: t.span }));
            },
            Ok(()) => {},
        }

        let start_text = machine.start_state.src(src);
        let si = match find_vec(&states, start_text.as_slice()) {
            None => {
                return Err(
                    NFAError::Parser(ParserError::UnknownState { at: machine.start_state.span }),
                );
            },
            Some(si) => si,
        };
        proof {
            lemma_find_text(sv, start_text@);
        }

        let mut table = make_blank_nfa_table(n, a);
        match fold_nfa_exec(src, &states, &alphabet, &machine.transitions, &mut table) {
            Err(e) => {
                return Err(e);
            },
            Ok(()) => {},
        }

        proof {
            lemma_validate_wf(machine@, src@);
            let iv = InfoView {
                states: sv,
                alphabet: av,
                eps: eps as int,
                transitions: nfa_table_view(table@),
                start_state: si as int,
                final_states: finals@,
            };
            assert(spec_validate(machine@, src@) == Ok::<InfoView, NFAError>(iv));
            assert(iv.wf());
        }
        let info = Info {
            states,
            alphabet,
            eps,
            transitions: table,
            start_state: si,
            final_states: finals,
        };
        Ok(info)
    }
}

/// The destinations reachable from `cur` in one move on symbol `a`.
pub open spec fn dests_of(iv: InfoView, cur: Set<int>, a: int) -> Set<int> {
    Set::new(
        |d: int|
            exists|s: int|
                cur.contains(s) && 0 <= s < iv.states.len() && #[trigger] has_edge(iv, s, a, d),
    )
}

/// One input step: the union of destinations, closed under ε-moves.
pub open spec fn nfa_step(iv: InfoView, cur: Set<int>, a: int) -> Set<int> {
    closure_of(iv, dests_of(iv, cur, a))
}

/// Whether the current state set meets the final-state set.
pub open spec fn accepts_now(iv: InfoView, cur: Set<int>) -> bool {
    exists|s: int| cur.contains(s) && 0 <= s < iv.states.len() && iv.final_states[s]
}

/// Whether the automaton accepts `input` from the state set `cur`.
pub open spec fn spec_run(iv: InfoView, cur: Set<int>, input: Seq<char>) -> bool
    decreases input.len(),
{
    if input.len() == 0 {
        accepts_now(iv, cur)
    } else {
        match find_char_symbol_noneps(iv.alphabet, input[0]) {
            None => false,
            Some(a) => spec_run(iv, nfa_step(iv, cur, a), input.drop_first()),
        }
    }
}

/// The view of a machine: its table and its current state set.
pub struct MachineView {
    pub info: InfoView,
    pub current_states: Set<int>,
}

/// A nondeterministic automaton ready to run.
pub struct Machine {
    info: Info,
    current_states: Vec<bool>,
}

impl View for Machine {
    type V = MachineView;

    closed spec fn view(&self) -> MachineView {
        MachineView { info: self.info@, current_states: set_of(self.current_states@) }
    }
}

/// Whether a state index occurs on the worklist.
pub open spec fn in_stack(stack: Seq<usize>, s: int) -> bool {
    exists|m: int| 0 <= m < stack.len() && stack[m] == s
}

/// The worklist computation of an epsilon-closure.  The result is `states`
/// plus everything reachable from it through ε-moves alone: it contains its
/// seed, is closed under ε-moves, and is contained in every ε-closed
/// superset of the seed.
fn compute_epsilon_closure(info: &Info, states: Vec<bool>) -> (r: Vec<bool>)
    requires
        states@.len() == info@.states.len(),
    ensures
        r@.len() == info@.states.len(),
        is_closure(info@, set_of(states@), set_of(r@)),
{
    proof {
        use_type_invariant(info);
    }
    let ghost iv = info@;
    let ghost init = set_of(states@);
    let n = states.len();
    let mut closure = states;
    let mut stack: Vec<usize> = Vec::new();

    // Seed the worklist with every member of the initial set.
    let mut k: usize = 0;
    while k < n
        invariant
            0 <= k <= n,
            closure@.len() == n,
            init == set_of(closure@),
            forall|m: int|
                0 <= m < stack@.len() ==> 0 <= #[trigger] stack@[m] < n && closure@[stack@[m] as int],
            forall|s: int| 0 <= s < k && closure@[s] ==> in_stack(stack@, s),
        decreases n - k,
    {
        let ghost stack_before = stack@;
        if closure[k] {
            stack.push(k);
        }
        proof {
            assert forall|s: int| 0 <= s < k + 1 && closure@[s] implies in_stack(stack@, s) by {
                if s < k {
                    let m = choose|m: int| 0 <= m < stack_before.len() && stack_before[m] == s;
                    assert(stack@[m] == s);
                } else {
                    assert(stack@[stack@.len() - 1] == k);
                }
            }
        }
        k = k + 1;
    }

    // Drain the worklist: follow every ε-edge of every popped state.
    while stack.len() > 0
        invariant
            iv == info@,
            iv.wf(),
            n == iv.states.len(),
            closure@.len() == n,
            init.subset_of(set_of(closure@)),
            forall|m: int|
                0 <= m < stack@.len() ==> 0 <= #[trigger] stack@[m] < n && closure@[stack@[m] as int],
            forall|dd: Set<int>|
                init.subset_of(dd) && #[trigger] eps_closed(iv, dd) ==> set_of(closure@).subset_of(
                    dd,
                ),
            forall|s: int, d: int|
                0 <= s < n && closure@[s] && !in_stack(stack@, s) && #[trigger] has_edge(
                    iv,
                    s,
                    iv.eps,
                    d,
                ) ==> closure@[d],
        decreases n - count_true(closure@), stack@.len(),
    {
        proof {
            lemma_count_true_le(closure@);
        }
        let ghost stack0 = stack@;
        let ghost closure0 = closure@;
        let s = stack.pop().unwrap();
        let ghost st1 = stack@;
        let eps = info.eps;
        proof {
            assert(info.transitions@.len() == iv.transitions.len());
            assert(iv.transitions[s as int].len() == iv.alphabet.len());
            assert(info.transitions@[s as int]@.len() == iv.alphabet.len());
        }
        let row = &info.transitions[s][eps];
        proof {
            assert(iv.transitions[s as int][iv.eps] == row@);
        }
        let mut m: usize = 0;
        while m < row.len()
            invariant
                iv == info@,
                iv.wf(),
                n == iv.states.len(),
                0 <= (s as int) < n,
                iv.eps == eps as int,
                row@ == iv.transitions[s as int][iv.eps],
                0 <= m <= row@.len(),
                closure@.len() == n,
                closure@[s as int],
                init.subset_of(set_of(closure@)),
                forall|m2: int|
                    0 <= m2 < stack@.len() ==> 0 <= #[trigger] stack@[m2] < n
                        && closure@[stack@[m2] as int],
                forall|dd: Set<int>|
                    init.subset_of(dd) && #[trigger] eps_closed(iv, dd) ==> set_of(
                        closure@,
                    ).subset_of(dd),
                // what the pre-pop state guaranteed, over the snapshots
                closure0.len() == n,
                forall|s2: int, d: int|
                    0 <= s2 < n && closure0[s2] && !in_stack(stack0, s2) && #[trigger] has_edge(
                        iv,
                        s2,
                        iv.eps,
                        d,
                    ) ==> closure0[d],
                stack0 == st1.push(s),
                // the worklist only grew beyond the popped prefix
                forall|x: int| in_stack(st1, x) ==> in_stack(stack@, x),
                // the membership table only grew, and every newcomer is on
                // the worklist
                forall|x: int| 0 <= x < n && closure0[x] ==> closure@[x],
                forall|x: int| 0 <= x < n && closure@[x] ==> closure0[x] || in_stack(stack@, x),
                // the edges handled so far lead inside
                forall|m2: int|
                    0 <= m2 < m ==> closure@[(#[trigger] row@[m2]).0 as int],
                // for the termination measure
                count_true(closure0) <= count_true(closure@),
                count_true(closure@) > count_true(closure0) || stack@.len() <= st1.len(),
            decreases row@.len() - m,
        {
            let d = row[m].0;
            proof {
                assert(iv.transitions[s as int][iv.eps][m as int].0 == d);
            }
            if !closure[d] {
                let ghost closure_a = closure@;
                let ghost stack_a = stack@;
                closure[d] = true;
                stack.push(d);
                proof {
                    lemma_count_true_update(closure_a, d as int);
                    assert(stack@[stack@.len() - 1] == d);
                    assert forall|x: int| in_stack(stack_a, x) implies in_stack(stack@, x) by {
                        let m3 = choose|m3: int| 0 <= m3 < stack_a.len() && stack_a[m3] == x;
                        assert(stack@[m3] == x);
                    }
                    assert forall|dd: Set<int>|
                        init.subset_of(dd) && #[trigger] eps_closed(iv, dd) implies set_of(
                        closure@,
                    ).subset_of(dd) by {
                        assert(set_of(closure_a).subset_of(dd));
                        assert(dd.contains(s as int));
                        assert(has_edge(iv, s as int, iv.eps, d as int));
                        assert(dd.contains(d as int));
                        assert forall|x: int| set_of(closure@).contains(x) implies dd.contains(
                            x,
                        ) by {
                            if x != d as int {
                                assert(set_of(closure_a).contains(x));
                            }
                        }
                    }
                }
            }
            m = m + 1;
        }
        proof {
            // the popped state is now fully processed: closedness holds for
            // everything off the worklist
            assert forall|s2: int, d: int|
                0 <= s2 < n && closure@[s2] && !in_stack(stack@, s2) && #[trigger] has_edge(
                    iv,
                    s2,
                    iv.eps,
                    d,
                ) implies closure@[d] by {
                if s2 == s as int {
                    let m2 = choose|m2: int|
                        0 <= m2 < iv.transitions[s as int][iv.eps].len()
                            && iv.transitions[s as int][iv.eps][m2].0 == d;
                    assert(closure@[(row@[m2]).0 as int]);
                } else {
                    if in_stack(st1, s2) {
                        assert(in_stack(stack@, s2));
                        assert(false);
                    }
                    assert(!in_stack(stack0, s2));
                    if closure0[s2] {
                        assert(closure0[d]);
                    } else {
                        assert(in_stack(stack@, s2));
                        assert(false);
                    }
                }
            }
            lemma_count_true_le(closure0);
            lemma_count_true_le(closure@);
            assert(stack0.len() == st1.len() + 1);
            if count_true(closure@) == count_true(closure0) {
                assert(stack@.len() < stack0.len());
            } else {
                assert(n - count_true(closure@) < n - count_true(closure0));
            }
        }
    }
    proof {
        assert forall|s2: int, d: int|
            set_of(closure@).contains(s2) && 0 <= s2 < iv.states.len() && #[trigger] has_edge(
                iv,
                s2,
                iv.eps,
                d,
            ) implies set_of(closure@).contains(d) by {
            assert(!in_stack(stack@, s2));
            assert(closure@[d]);
            assert(0 <= d < n) by {
                let m2 = choose|m2: int|
                    0 <= m2 < iv.transitions[s2][iv.eps].len() && iv.transitions[s2][iv.eps][m2].0
                        == d;
            }
        }
        assert(is_closure(iv, init, set_of(closure@)));
    }
    closure
}

/// The union of all destinations on symbol `a` from the members of
/// `current`, as a membership table.
fn get_dests(info: &Info, current: &Vec<bool>, a: usize) -> (r: Vec<bool>)
    requires
        current@.len() == info@.states.len(),
        0 <= (a as int) < info@.alphabet.len(),
    ensures
        r@.len() == info@.states.len(),
        set_of(r@) == dests_of(info@, set_of(current@), a as int),
{
    proof {
        use_type_invariant(info);
    }
    let ghost iv = info@;
    let ghost cur = set_of(current@);
    let n = current.len();
    let mut union = crate::machine::dfa::make_false_vec(n);
    let mut s: usize = 0;
    while s < n
        invariant
            iv == info@,
            iv.wf(),
            n == iv.states.len(),
            cur == set_of(current@),
            current@.len() == n,
            0 <= s <= n,
            0 <= (a as int) < iv.alphabet.len(),
            union@.len() == n,
            forall|d: int| 0 <= d < n && union@[d] ==> dests_of(iv, cur, a as int).contains(d),
            forall|s2: int, m2: int|
                0 <= s2 < s && current@[s2] && 0 <= m2 < iv.transitions[s2][a as int].len()
                    ==> union@[(#[trigger] iv.transitions[s2][a as int][m2]).0 as int],
        decreases n - s,
    {
        if current[s] {
            proof {
                assert(info.transitions@.len() == iv.transitions.len());
                assert(iv.transitions[s as int].len() == iv.alphabet.len());
                assert(info.transitions@[s as int]@.len() == iv.alphabet.len());
            }
            let row = &info.transitions[s][a];
            proof {
                assert(iv.transitions[s as int][a as int] == row@);
            }
            let mut m: usize = 0;
            while m < row.len()
                invariant
                    iv == info@,
                    iv.wf(),
                    n == iv.states.len(),
                    cur == set_of(current@),
                    current@.len() == n,
                    0 <= s < n,
                    current@[s as int],
                    0 <= (a as int) < iv.alphabet.len(),
                    row@ == iv.transitions[s as int][a as int],
                    0 <= m <= row@.len(),
                    union@.len() == n,
                    forall|d: int|
                        0 <= d < n && union@[d] ==> dests_of(iv, cur, a as int).contains(d),
                    forall|s2: int, m2: int|
                        0 <= s2 < s && current@[s2] && 0 <= m2 < iv.transitions[s2][a as int].len()
                            ==> union@[(#[trigger] iv.transitions[s2][a as int][m2]).0 as int],
                    forall|m2: int|
                        0 <= m2 < m ==> union@[(#[trigger] row@[m2]).0 as int],
                decreases row@.len() - m,
            {
                let d = row[m].0;
                proof {
                    assert(iv.transitions[s as int][a as int][m as int].0 == d);
                    assert(has_edge(iv, s as int, a as int, d as int));
                    assert(dests_of(iv, cur, a as int).contains(d as int));
                }
                union[d] = true;
                m = m + 1;
            }
        }
        s = s + 1;
    }
    proof {
        assert forall|d: int| dests_of(iv, cur, a as int).contains(d) implies set_of(
            union@,
        ).contains(d) by {
            let s2 = choose|s2: int|
                cur.contains(s2) && 0 <= s2 < iv.states.len() && has_edge(iv, s2, a as int, d);
            let m2 = choose|m2: int|
                0 <= m2 < iv.transitions[s2][a as int].len() && iv.transitions[s2][a as int][m2].0
                    == d;
            assert(union@[iv.transitions[s2][a as int][m2].0 as int]);
        }
        assert(set_of(union@) =~= dests_of(iv, cur, a as int));
    }
    union
}

impl Machine {
    #[verifier::type_invariant]
    spec fn type_inv(self) -> bool {
        self.info@.wf() && self.current_states@.len() == self.info@.states.len()
    }

    /// A machine positioned on the epsilon-closure of the start state.
    pub fn new(info: Info) -> (r: Machine)
        ensures
            r@.info == info@,
            is_closure(info@, Set::<int>::empty().insert(info@.start_state), r@.current_states),
    {
        proof {
            use_type_invariant(&info);
        }
        let n = info.states.len();
        let mut initial = crate::machine::dfa::make_false_vec(n);
        initial[info.start_state] = true;
        proof {
            assert(set_of(initial@) =~= Set::<int>::empty().insert(info@.start_state));
        }
        let current_states = compute_epsilon_closure(&info, initial);
        Machine { info, current_states }
    }

    /// Runs the automaton over `input` and decides acceptance.
    pub fn run(self, input: &[char]) -> (r: bool)
        ensures
            r == spec_run(self@.info, self@.current_states, input@),
    {
        proof {
            use_type_invariant(&self);
        }
        let ghost iv = self@.info;
        let ghost cur0 = self@.current_states;
        let Machine { info, current_states } = self;
        let mut current = current_states;
        let n = input.len();
        let mut pos: usize = 0;
        proof {
            assert(input@.skip(0) =~= input@);
        }
        while pos < n
            invariant
                iv == info@,
                iv.wf(),
                0 <= pos <= n,
                n == input@.len(),
                current@.len() == iv.states.len(),
                spec_run(self@.info, self@.current_states, input@) == spec_run(
                    iv,
                    set_of(current@),
                    input@.skip(pos as int),
                ),
            decreases n - pos,
        {
            let c = input[pos];
            proof {
                assert(input@.skip(pos as int)[0] == input@[pos as int]);
                assert(input@.skip(pos as int).drop_first() =~= input@.skip(pos as int + 1));
            }
            let a = match find_symbol_char_noneps(&info.alphabet, c) {
                None => {
                    return false;
                },
                Some(a) => a,
            };
            proof {
                lemma_find_char_symbol_noneps(iv.alphabet, c);
            }
            let dests = get_dests(&info, &current, a);
            let next = compute_epsilon_closure(&info, dests);
            proof {
                let dset = dests_of(iv, set_of(current@), a as int);
                assert(is_closure(iv, dset, set_of(next@)));
                assert(is_closure(iv, dset, closure_of(iv, dset))) by {
                    assert(exists|c2: Set<int>| is_closure(iv, dset, c2));
                }
                lemma_closure_unique(iv, dset, set_of(next@), closure_of(iv, dset));
                assert(set_of(next@) == nfa_step(iv, set_of(current@), a as int));
            }
            current = next;
            pos = pos + 1;
        }
        proof {
            assert(input@.skip(n as int).len() == 0);
            assert(spec_run(self@.info, self@.current_states, input@) == accepts_now(
                iv,
                set_of(current@),
            ));
        }
        // Acceptance: does the current set meet the final-state set?
        let m = info.final_states.len();
        let mut s: usize = 0;
        while s < m
            invariant
                iv == info@,
                iv.wf(),
                m == iv.states.len(),
                current@.len() == m,
                0 <= s <= m,
                spec_run(self@.info, self@.current_states, input@) == accepts_now(
                    iv,
                    set_of(current@),
                ),
                forall|s2: int| 0 <= s2 < s ==> !(current@[s2] && iv.final_states[s2]),
            decreases m - s,
        {
            if current[s] && info.final_states[s] {
                proof {
                    assert(set_of(current@).contains(s as int));
                    assert(accepts_now(iv, set_of(current@)));
                }
                return true;
            }
            s = s + 1;
        }
        proof {
            if accepts_now(iv, set_of(current@)) {
                let s2 = choose|s2: int|
                    set_of(current@).contains(s2) && 0 <= s2 < iv.states.len()
                        && iv.final_states[s2];
                assert(!(current@[s2] && iv.final_states[s2]));
            }
        }
        false
    }
}

} // verus!
