//! Deterministic finite automaton: validator and simulator.
//!
//! Validation refuses stack and tape material, checks every mentioned state
//! and symbol against the declared sets, and folds the transitions into a
//! table that must be deterministic (no key twice) and complete (no key
//! missing).  Execution walks the input one character at a time.

use vstd::prelude::*;
use crate::parser::{
    ParserError, PartialMachineInfo, PartialMachineInfoView, StackTransition, TransitionInfo,
    token_str, pm_in_bounds,
};
use crate::machine::{
    TransitionTo, texts_of, texts_view, find_text, intern, intern_tokens, lemma_find_text,
    lemma_intern, spec_mark_finals, mark_finals, find_char_symbol, find_vec, find_symbol_char,
    copy_chars,
};

verus! {

#[derive(Debug, PartialEq, Eq)]
pub enum DFAError {
    /// Two transitions share the same (state, symbol) key: determinism is
    /// violated.
    MultipleTransitions { initial: Vec<char>, with_symbol: Vec<char> },
    /// Some (state, symbol) pair over the declared sets has no transition.
    IncompleteDFA { initial: Vec<char>, with_symbol: Vec<char> },
    /// The description carries stack material a finite automaton cannot use.
    StackOperationsNotAllowed,
    /// The description carries tape material a finite automaton cannot use.
    TapeOperationsNotAllowed,
    /// A state or symbol mentioned outside the declared sets.
    Parser(ParserError),
}

/// The mathematical shape of a `DFAError`.
pub enum DFAErrorView {
    MultipleTransitions { initial: Seq<char>, with_symbol: Seq<char> },
    IncompleteDFA { initial: Seq<char>, with_symbol: Seq<char> },
    StackOperationsNotAllowed,
    TapeOperationsNotAllowed,
    Parser(ParserError),
}

impl View for DFAError {
    type V = DFAErrorView;

    open spec fn view(&self) -> DFAErrorView {
        match self {
            DFAError::MultipleTransitions { initial, with_symbol } => {
                DFAErrorView::MultipleTransitions { initial: initial@, with_symbol: with_symbol@ }
            },
            DFAError::IncompleteDFA { initial, with_symbol } => {
                DFAErrorView::IncompleteDFA { initial: initial@, with_symbol: with_symbol@ }
            },
            DFAError::StackOperationsNotAllowed => DFAErrorView::StackOperationsNotAllowed,
            DFAError::TapeOperationsNotAllowed => DFAErrorView::TapeOperationsNotAllowed,
            DFAError::Parser(e) => DFAErrorView::Parser(*e),
        }
    }
}

/// The mathematical shape of a validated automaton: declared names resolved
/// to indices, and a total transition table over them.
pub struct InfoView {
    pub states: Seq<Seq<char>>,
    pub alphabet: Seq<Seq<char>>,
    pub transitions: Seq<Seq<Option<TransitionTo>>>,
    pub start_state: int,
    pub final_states: Seq<bool>,
}

impl InfoView {
    /// Soundness of the table: one row per declared state, one column per
    /// declared symbol, every entry present (completeness), every
    /// destination a declared state, and by the table shape at most one
    /// destination per key (determinism).
    pub open spec fn wf(self) -> bool {
        &&& self.final_states.len() == self.states.len()
        &&& self.transitions.len() == self.states.len()
        &&& forall|s: int|
            0 <= s < self.transitions.len() ==> (#[trigger] self.transitions[s]).len()
                == self.alphabet.len()
        &&& 0 <= self.start_state < self.states.len()
        &&& forall|s: int, a: int|
            0 <= s < self.states.len() && 0 <= a < self.alphabet.len() ==> (
            #[trigger] self.transitions[s][a]) is Some && 0 <= (self.transitions[s][a]->0).0
                < self.states.len()
    }
}

/// The screening the automaton applies to one raw transition: any stack
/// symbol, stack operation, write operation or direction is refused.
pub open spec fn spec_check_tr_shape(tr: TransitionInfo) -> Option<DFAErrorView> {
    if tr.from.with_stack_symbol is Some {
        Some(DFAErrorView::StackOperationsNotAllowed)
    } else {
        match tr.to.1 {
            Some(StackTransition::Write(_)) => Some(DFAErrorView::TapeOperationsNotAllowed),
            Some(_) => Some(DFAErrorView::StackOperationsNotAllowed),
            None => if tr.to.2 is Some {
                Some(DFAErrorView::TapeOperationsNotAllowed)
            } else {
                None
            },
        }
    }
}

/// Folds raw transitions into the table, one at a time: screen the shape,
/// resolve the three names, refuse a second transition for a key already
/// filled, and record the destination.
pub open spec fn spec_fold_transitions(
    src: Seq<char>,
    states: Seq<Seq<char>>,
    alphabet: Seq<Seq<char>>,
    trs: Seq<TransitionInfo>,
    table: Seq<Seq<Option<TransitionTo>>>,
) -> Result<Seq<Seq<Option<TransitionTo>>>, DFAErrorView>
    decreases trs.len(),
{
    if trs.len() == 0 {
        Ok(table)
    } else {
        let tr = trs[0];
        match spec_check_tr_shape(tr) {
            Some(e) => Err(e),
            None => match find_text(states, token_str(src, tr.from.initial)) {
                None => Err(
                    DFAErrorView::Parser(ParserError::UnknownState { at: tr.from.initial.span }),
                ),
                Some(si) => match find_text(states, token_str(src, tr.to.0)) {
                    None => Err(
                        DFAErrorView::Parser(ParserError::UnknownState { at: tr.to.0.span }),
                    ),
                    Some(ti) => match find_text(alphabet, token_str(src, tr.from.with_symbol)) {
                        None => Err(
                            DFAErrorView::Parser(
                                ParserError::UnknownAlphabetSymbol { at: tr.from.with_symbol.span },
                            ),
                        ),
                        Some(ai) => {
                            if table[si][ai] is Some {
                                Err(
                                    DFAErrorView::MultipleTransitions {
                                        initial: states[si],
                                        with_symbol: alphabet[ai],
                                    },
                                )
                            } else {
                                spec_fold_transitions(
                                    src,
                                    states,
                                    alphabet,
                                    trs.drop_first(),
                                    table.update(
                                        si,
                                        table[si].update(ai, Some(TransitionTo(ti as usize))),
                                    ),
                                )
                            }
                        },
                    },
                },
            },
        }
    }
}

/// The first missing column at or after `j` in one table row.
pub open spec fn row_first_missing(row: Seq<Option<TransitionTo>>, j: int) -> Option<int>
    decreases row.len() - j,
    when 0 <= j
{
    if j >= row.len() {
        None
    } else if row[j] is None {
        Some(j)
    } else {
        row_first_missing(row, j + 1)
    }
}

/// The first missing (state, symbol) pair at or after row `i`, scanning each
/// row left to right.
pub open spec fn table_first_missing(table: Seq<Seq<Option<TransitionTo>>>, i: int) -> Option<
    (int, int),
>
    decreases table.len() - i,
    when 0 <= i
{
    if i >= table.len() {
        None
    } else {
        match row_first_missing(table[i], 0) {
            Some(j) => Some((i, j)),
            None => table_first_missing(table, i + 1),
        }
    }
}

/// An empty table: one row per state, one column per symbol, no entry yet.
pub open spec fn blank_table(n: nat, a: nat) -> Seq<Seq<Option<TransitionTo>>> {
    Seq::new(n, |i: int| Seq::new(a, |j: int| None::<TransitionTo>))
}

/// What validating a description as a deterministic automaton yields: the
/// checks in order, ending in a resolved `InfoView` or the first error.
pub open spec fn spec_validate(m: PartialMachineInfoView, src: Seq<char>) -> Result<
    InfoView,
    DFAErrorView,
> {
    if m.stack_alphabet is Some || m.start_stack is Some {
        Err(DFAErrorView::StackOperationsNotAllowed)
    } else if m.tape_alphabet is Some || m.blank_symbol is Some {
        Err(DFAErrorView::TapeOperationsNotAllowed)
    } else {
        let states = intern(texts_of(src, m.states));
        let alphabet = intern(texts_of(src, m.alphabet));
        match spec_mark_finals(src, states, m.final_states, Seq::new(states.len(), |i: int| false)) {
            Err(t) => Err(DFAErrorView::Parser(ParserError::UnknownState { at: t.span })),
            Ok(finals) => match find_text(states, token_str(src, m.start_state)) {
                None => Err(
                    DFAErrorView::Parser(ParserError::UnknownState { at: m.start_state.span }),
                ),
                Some(si) => match spec_fold_transitions(
                    src,
                    states,
                    alphabet,
                    m.transitions,
                    blank_table(states.len(), alphabet.len()),
                ) {
                    Err(e) => Err(e),
                    Ok(table) => match table_first_missing(table, 0) {
                        Some((s, a)) => Err(
                            DFAErrorView::IncompleteDFA {
                                initial: states[s],
                                with_symbol: alphabet[a],
                            },
                        ),
                        None => Ok(
                            InfoView {
                                states,
                                alphabet,
                                transitions: table,
                                start_state: si,
                                final_states: finals,
                            },
                        ),
                    },
                },
            },
        }
    }
}

/// Shape and bounds of a (possibly partial) table.
pub open spec fn table_shape_ok(table: Seq<Seq<Option<TransitionTo>>>, n: int, a: int) -> bool {
    &&& table.len() == n
    &&& forall|s: int| 0 <= s < n ==> (#[trigger] table[s]).len() == a
    &&& forall|s: int, c: int|
        0 <= s < n && 0 <= c < a && (#[trigger] table[s][c]) is Some ==> 0 <= (table[s][c]->0).0 < n
}

/// Folding preserves the table's shape and destination bounds.
pub proof fn lemma_fold_shape(
    src: Seq<char>,
    states: Seq<Seq<char>>,
    alphabet: Seq<Seq<char>>,
    trs: Seq<TransitionInfo>,
    table: Seq<Seq<Option<TransitionTo>>>,
)
    requires
        table_shape_ok(table, states.len() as int, alphabet.len() as int),
    ensures
        spec_fold_transitions(src, states, alphabet, trs, table) matches Ok(t2)
            ==> table_shape_ok(t2, states.len() as int, alphabet.len() as int),
    decreases trs.len(),
{
    if trs.len() > 0 {
        let tr = trs[0];
        if spec_check_tr_shape(tr) is None {
            let si = find_text(states, token_str(src, tr.from.initial));
            let ti = find_text(states, token_str(src, tr.to.0));
            let ai = find_text(alphabet, token_str(src, tr.from.with_symbol));
            if si is Some && ti is Some && ai is Some {
                lemma_find_text(states, token_str(src, tr.from.initial));
                lemma_find_text(states, token_str(src, tr.to.0));
                lemma_find_text(alphabet, token_str(src, tr.from.with_symbol));
                let s0 = si->0;
                let a0 = ai->0;
                if !(table[s0][a0] is Some) {
                    let t2 = table.update(
                        s0,
                        table[s0].update(a0, Some(TransitionTo(ti->0 as usize))),
                    );
                    assert(table_shape_ok(t2, states.len() as int, alphabet.len() as int));
                    lemma_fold_shape(src, states, alphabet, trs.drop_first(), t2);
                }
            }
        }
    }
}

/// A marking pass keeps the membership table's length.
pub proof fn lemma_mark_finals_len(
    src: Seq<char>,
    states: Seq<Seq<char>>,
    toks: Seq<crate::parser::Token>,
    acc: Seq<bool>,
)
    requires
        acc.len() == states.len(),
    ensures
        spec_mark_finals(src, states, toks, acc) matches Ok(f) ==> f.len() == acc.len(),
    decreases toks.len(),
{
    if toks.len() > 0 {
        let t = toks[0];
        lemma_find_text(states, token_str(src, t));
        match find_text(states, token_str(src, t)) {
            None => {},
            Some(k) => {
                lemma_mark_finals_len(src, states, toks.drop_first(), acc.update(k, true));
            },
        }
    }
}

pub proof fn lemma_row_first_missing(row: Seq<Option<TransitionTo>>, j: int)
    requires
        0 <= j,
    ensures
        row_first_missing(row, j) is None ==> forall|m: int|
            j <= m < row.len() ==> (#[trigger] row[m]) is Some,
    decreases row.len() - j,
{
    if j < row.len() && !(row[j] is None) {
        lemma_row_first_missing(row, j + 1);
    }
}

pub proof fn lemma_table_first_missing(table: Seq<Seq<Option<TransitionTo>>>, i: int)
    requires
        0 <= i,
    ensures
        table_first_missing(table, i) is None ==> forall|s: int, c: int|
            i <= s < table.len() && 0 <= c < table[s].len() ==> (#[trigger] table[s][c]) is Some,
    decreases table.len() - i,
{
    if i < table.len() {
        if row_first_missing(table[i], 0) is None {
            lemma_row_first_missing(table[i], 0);
            lemma_table_first_missing(table, i + 1);
        }
    }
}

/// A validated automaton is structurally sound: this is the determinism and
/// completeness guarantee — for every declared state and alphabet symbol the
/// table holds exactly one destination, itself a declared state.
pub proof fn lemma_validate_wf(m: PartialMachineInfoView, src: Seq<char>)
    ensures
        spec_validate(m, src) matches Ok(iv) ==> iv.wf(),
{
    let r = spec_validate(m, src);
    if r is Ok {
        let iv = r->Ok_0;
        let states = intern(texts_of(src, m.states));
        let alphabet = intern(texts_of(src, m.alphabet));
        lemma_mark_finals_len(
            src,
            states,
            m.final_states,
            Seq::new(states.len(), |i: int| false),
        );
        lemma_find_text(states, token_str(src, m.start_state));
        assert(table_shape_ok(
            blank_table(states.len(), alphabet.len()),
            states.len() as int,
            alphabet.len() as int,
        ));
        lemma_fold_shape(
            src,
            states,
            alphabet,
            m.transitions,
            blank_table(states.len(), alphabet.len()),
        );
        lemma_table_first_missing(iv.transitions, 0);
    }
}

/// Every state and symbol a validated description mentions — in its
/// transitions, its final states, and its start state — is present in the
/// declared `states` and `alphabet` lists.
pub proof fn lemma_validate_mentions_declared(m: PartialMachineInfoView, src: Seq<char>)
    requires
        spec_validate(m, src) is Ok,
    ensures
        texts_of(src, m.states).contains(token_str(src, m.start_state)),
        forall|k: int|
            0 <= k < m.final_states.len() ==> texts_of(src, m.states).contains(
                token_str(src, #[trigger] m.final_states[k]),
            ),
        forall|k: int|
            0 <= k < m.transitions.len() ==> {
                let tr = #[trigger] m.transitions[k];
                texts_of(src, m.states).contains(token_str(src, tr.from.initial))
                    && texts_of(src, m.states).contains(token_str(src, tr.to.0)) && texts_of(
                    src,
                    m.alphabet,
                ).contains(token_str(src, tr.from.with_symbol))
            },
{
    let states = intern(texts_of(src, m.states));
    let alphabet = intern(texts_of(src, m.alphabet));
    lemma_intern(texts_of(src, m.states));
    lemma_intern(texts_of(src, m.alphabet));
    lemma_find_text(states, token_str(src, m.start_state));
    assert(states.contains(token_str(src, m.start_state)));
    let finals0 = Seq::new(states.len(), |i: int| false);
    lemma_mark_finals_mentions(src, states, m.final_states, finals0);
    assert forall|k: int| 0 <= k < m.final_states.len() implies texts_of(src, m.states).contains(
        token_str(src, #[trigger] m.final_states[k]),
    ) by {
        assert(states.contains(token_str(src, m.final_states[k])));
    }
    lemma_fold_mentions(
        src,
        states,
        alphabet,
        m.transitions,
        blank_table(states.len(), alphabet.len()),
    );
    assert forall|k: int| 0 <= k < m.transitions.len() implies {
        let tr = #[trigger] m.transitions[k];
        texts_of(src, m.states).contains(token_str(src, tr.from.initial)) && texts_of(
            src,
            m.states,
        ).contains(token_str(src, tr.to.0)) && texts_of(src, m.alphabet).contains(
            token_str(src, tr.from.with_symbol),
        )
    } by {
        let tr = m.transitions[k];
        assert(states.contains(token_str(src, tr.from.initial)));
        assert(states.contains(token_str(src, tr.to.0)));
        assert(alphabet.contains(token_str(src, tr.from.with_symbol)));
    }
}

pub proof fn lemma_mark_finals_mentions(
    src: Seq<char>,
    states: Seq<Seq<char>>,
    toks: Seq<crate::parser::Token>,
    acc: Seq<bool>,
)
    requires
        spec_mark_finals(src, states, toks, acc) is Ok,
    ensures
        forall|k: int|
            0 <= k < toks.len() ==> states.contains(token_str(src, #[trigger] toks[k])),
    decreases toks.len(),
{
    if toks.len() > 0 {
        let t = toks[0];
        lemma_find_text(states, token_str(src, t));
        match find_text(states, token_str(src, t)) {
            None => {},
            Some(si) => {
                assert(states.contains(token_str(src, t)));
                lemma_mark_finals_mentions(src, states, toks.drop_first(), acc.update(si, true));
                assert forall|k: int| 0 <= k < toks.len() implies states.contains(
                    token_str(src, #[trigger] toks[k]),
                ) by {
                    if k > 0 {
                        assert(toks.drop_first()[k - 1] == toks[k]);
                    }
                }
            },
        }
    }
}

proof fn lemma_fold_mentions(
    src: Seq<char>,
    states: Seq<Seq<char>>,
    alphabet: Seq<Seq<char>>,
    trs: Seq<TransitionInfo>,
    table: Seq<Seq<Option<TransitionTo>>>,
)
    requires
        spec_fold_transitions(src, states, alphabet, trs, table) is Ok,
    ensures
        forall|k: int|
            0 <= k < trs.len() ==> {
                let tr = #[trigger] trs[k];
                states.contains(token_str(src, tr.from.initial)) && states.contains(
                    token_str(src, tr.to.0),
                ) && alphabet.contains(token_str(src, tr.from.with_symbol))
            },
    decreases trs.len(),
{
    if trs.len() > 0 {
        let tr = trs[0];
        lemma_find_text(states, token_str(src, tr.from.initial));
        lemma_find_text(states, token_str(src, tr.to.0));
        lemma_find_text(alphabet, token_str(src, tr.from.with_symbol));
        let si = find_text(states, token_str(src, tr.from.initial));
        let ai = find_text(alphabet, token_str(src, tr.from.with_symbol));
        let t2 = table.update(
            si->0,
            table[si->0].update(
                ai->0,
                Some(TransitionTo(find_text(states, token_str(src, tr.to.0))->0 as usize)),
            ),
        );
        lemma_fold_mentions(src, states, alphabet, trs.drop_first(), t2);
        assert forall|k: int| 0 <= k < trs.len() implies {
            let tr2 = #[trigger] trs[k];
            states.contains(token_str(src, tr2.from.initial)) && states.contains(
                token_str(src, tr2.to.0),
            ) && alphabet.contains(token_str(src, tr2.from.with_symbol))
        } by {
            if k > 0 {
                assert(trs.drop_first()[k - 1] == trs[k]);
            }
        }
    }
}

/// A validated deterministic automaton, exclusively owned by its machine.
#[derive(Debug)]
pub struct Info {
    states: Vec<Vec<char>>,
    alphabet: Vec<Vec<char>>,
    transitions: Vec<Vec<Option<TransitionTo>>>,
    start_state: usize,
    final_states: Vec<bool>,
}

/// The shape of a table held as nested vectors.
pub open spec fn table_view(t: Seq<Vec<Option<TransitionTo>>>) -> Seq<Seq<Option<TransitionTo>>> {
    Seq::new(t.len(), |i: int| t[i]@)
}

impl View for Info {
    type V = InfoView;

    closed spec fn view(&self) -> InfoView {
        InfoView {
            states: texts_view(self.states@),
            alphabet: texts_view(self.alphabet@),
            transitions: table_view(self.transitions@),
            start_state: self.start_state as int,
            final_states: self.final_states@,
        }
    }
}

pub(crate) fn make_false_vec(n: usize) -> (r: Vec<bool>)
    ensures
        r@ =~= Seq::new(n as nat, |i: int| false),
{
    let mut finals: Vec<bool> = Vec::new();
    let mut k: usize = 0;
    while k < n
        invariant
            0 <= k <= n,
            finals@.len() == k,
            forall|m: int| 0 <= m < k ==> finals@[m] == false,
        decreases n - k,
    {
        finals.push(false);
        k = k + 1;
    }
    proof {
        assert(finals@ =~= Seq::new(n as nat, |i: int| false));
    }
    finals
}

fn make_blank_table(n: usize, a: usize) -> (r: Vec<Vec<Option<TransitionTo>>>)
    ensures
        table_view(r@) =~~= blank_table(n as nat, a as nat),
        r@.len() == n,
        forall|m: int| 0 <= m < n ==> (#[trigger] r@[m])@.len() == a,
{
    let mut table: Vec<Vec<Option<TransitionTo>>> = Vec::new();
    let mut s: usize = 0;
    while s < n
        invariant
            0 <= s <= n,
            table@.len() == s,
            forall|m: int| 0 <= m < s ==> (#[trigger] table@[m])@.len() == a,
            forall|m: int, c: int| 0 <= m < s && 0 <= c < a ==> (#[trigger] table@[m]@[c]) is None,
        decreases n - s,
    {
        let mut row: Vec<Option<TransitionTo>> = Vec::new();
        let mut c: usize = 0;
        while c < a
            invariant
                0 <= c <= a,
                row@.len() == c,
                forall|m: int| 0 <= m < c ==> (#[trigger] row@[m]) is None,
            decreases a - c,
        {
            row.push(None);
            c = c + 1;
        }
        table.push(row);
        s = s + 1;
    }
    proof {
        assert(table_view(table@) =~~= blank_table(n as nat, a as nat));
    }
    table
}

/// Folds the raw transitions into the table, mirroring
/// `spec_fold_transitions` step by step.
fn fold_transitions_exec(
    src: &[char],
    states: &Vec<Vec<char>>,
    alphabet: &Vec<Vec<char>>,
    trs: &Vec<TransitionInfo>,
    table: &mut Vec<Vec<Option<TransitionTo>>>,
) -> (r: Result<(), DFAError>)
    requires
        forall|m: int|
            0 <= m < trs@.len() ==> crate::parser::tr_in_bounds(
                #[trigger] trs@[m],
                src@.len() as int,
            ),
        old(table)@.len() == states@.len(),
        forall|m: int|
            0 <= m < old(table)@.len() ==> (#[trigger] old(table)@[m])@.len() == alphabet@.len(),
    ensures
        ({
            let s = spec_fold_transitions(
                src@,
                texts_view(states@),
                texts_view(alphabet@),
                trs@,
                table_view(old(table)@),
            );
            match r {
                Ok(()) => s == Ok::<Seq<Seq<Option<TransitionTo>>>, DFAErrorView>(
                    table_view(final(table)@),
                ) && final(table)@.len() == old(table)@.len() && (forall|m: int|
                    0 <= m < final(table)@.len() ==> (#[trigger] final(table)@[m])@.len()
                        == alphabet@.len()),
                Err(e) => s == Err::<Seq<Seq<Option<TransitionTo>>>, DFAErrorView>(e@),
            }
        }),
{
    let ghost sv = texts_view(states@);
    let ghost av = texts_view(alphabet@);
    let ghost trs0 = trs@;
    let n = states.len();
    let a = alphabet.len();
    let mut k: usize = 0;
    proof {
        assert(trs0.skip(0) =~= trs0);
    }
    while k < trs.len()
        invariant
            0 <= k <= trs@.len(),
            trs@ == trs0,
            sv == texts_view(states@),
            av == texts_view(alphabet@),
            n == states@.len(),
            a == alphabet@.len(),
            forall|m: int|
                0 <= m < trs0.len() ==> crate::parser::tr_in_bounds(
                    #[trigger] trs0[m],
                    src@.len() as int,
                ),
            table@.len() == n,
            forall|m: int| 0 <= m < n ==> (#[trigger] table@[m])@.len() == a,
            spec_fold_transitions(src@, sv, av, trs0, table_view(old(table)@))
                == spec_fold_transitions(src@, sv, av, trs0.skip(k as int), table_view(table@)),
        decreases trs@.len() - k,
    {
        let tr = trs[k];
        proof {
            assert(trs0.skip(k as int)[0] == trs0[k as int]);
            assert(trs0.skip(k as int).drop_first() =~= trs0.skip(k as int + 1));
        }
        if tr.from.with_stack_symbol.is_some() {
            return Err(DFAError::StackOperationsNotAllowed);
        }
        match tr.to.1 {
            Some(StackTransition::Write(_)) => {
                return Err(DFAError::TapeOperationsNotAllowed);
            },
            Some(_) => {
                return Err(DFAError::StackOperationsNotAllowed);
            },
            None => {},
        }
        if tr.to.2.is_some() {
            return Err(DFAError::TapeOperationsNotAllowed);
        }
        let ftext = tr.from.initial.src(src);
        let si2 = match find_vec(states, ftext.as_slice()) {
            None => {
                return Err(
                    DFAError::Parser(ParserError::UnknownState { at: tr.from.initial.span }),
                );
            },
            Some(x) => x,
        };
        let ttext = tr.to.0.src(src);
        let ti = match find_vec(states, ttext.as_slice()) {
            None => {
                return Err(DFAError::Parser(ParserError::UnknownState { at: tr.to.0.span }));
            },
            Some(x) => x,
        };
        let stext = tr.from.with_symbol.src(src);
        let ai = match find_vec(alphabet, stext.as_slice()) {
            None => {
                return Err(
                    DFAError::Parser(
                        ParserError::UnknownAlphabetSymbol { at: tr.from.with_symbol.span },
                    ),
                );
            },
            Some(x) => x,
        };
        proof {
            lemma_find_text(sv, ftext@);
            lemma_find_text(sv, ttext@);
            lemma_find_text(av, stext@);
        }
        let key = crate::machine::TransitionFrom { initial: si2, with_symbol: ai };
        if table[key.initial][key.with_symbol].is_some() {
            return Err(DFAError::MultipleTransitions { initial: ftext, with_symbol: stext });
        }
        let ghost tbl_before = table_view(table@);
        table[key.initial][key.with_symbol] = Some(TransitionTo(ti));
        proof {
            assert(table_view(table@) =~~= tbl_before.update(
                si2 as int,
                tbl_before[si2 as int].update(ai as int, Some(TransitionTo(ti))),
            ));
        }
        k = k + 1;
    }
    proof {
        assert(trs0.skip(trs0.len() as int).len() == 0);
    }
    Ok(())
}

/// The first (state, symbol) pair the table does not cover, scanning rows
/// top to bottom and columns left to right.
fn first_missing_exec(table: &Vec<Vec<Option<TransitionTo>>>, n: usize, a: usize) -> (r: Option<
    (usize, usize),
>)
    requires
        table@.len() == n,
        forall|m: int| 0 <= m < n ==> (#[trigger] table@[m])@.len() == a,
    ensures
        ({
            let s = table_first_missing(table_view(table@), 0);
            match r {
                Some((x, y)) => s == Some((x as int, y as int)) && x < n && y < a,
                None => s is None,
            }
        }),
{
    let ghost tbl = table_view(table@);
    let mut s: usize = 0;
    while s < n
        invariant
            0 <= s <= n,
            n == table@.len(),
            forall|m: int| 0 <= m < n ==> (#[trigger] table@[m])@.len() == a,
            tbl == table_view(table@),
            table_first_missing(tbl, 0) == table_first_missing(tbl, s as int),
        decreases n - s,
    {
        let mut c: usize = 0;
        while c < a
            invariant
                0 <= c <= a,
                0 <= s < n,
                n == table@.len(),
                forall|m: int| 0 <= m < n ==> (#[trigger] table@[m])@.len() == a,
                tbl == table_view(table@),
                table_first_missing(tbl, 0) == table_first_missing(tbl, s as int),
                row_first_missing(tbl[s as int], 0) == row_first_missing(tbl[s as int], c as int),
            decreases a - c,
        {
            if table[s][c].is_none() {
                proof {
                    assert(row_first_missing(tbl[s as int], c as int) == Some(c as int));
                }
                return Some((s, c));
            }
            c = c + 1;
        }
        proof {
            assert(row_first_missing(tbl[s as int], a as int) == None::<int>);
        }
        s = s + 1;
    }
    None
}

impl Info {
    #[verifier::type_invariant]
    spec fn type_inv(self) -> bool {
        self@.wf()
    }

    /// Validates a parsed description as a deterministic finite automaton.
    pub fn new(machine: PartialMachineInfo, src: &[char]) -> (r: Result<Info, DFAError>)
        requires
            pm_in_bounds(machine@, src@),
        ensures
            ({
                let s = spec_validate(machine@, src@);
                match r {
                    Ok(info) => s == Ok::<InfoView, DFAErrorView>(info@),
                    Err(e) => s == Err::<InfoView, DFAErrorView>(e@),
                }
            }),
    {
        if machine.stack_alphabet.is_some() || machine.start_stack.is_some() {
            return Err(DFAError::StackOperationsNotAllowed);
        }
        if machine.tape_alphabet.is_some() || machine.blank_symbol.is_some() {
            return Err(DFAError::TapeOperationsNotAllowed);
        }
        let states = intern_tokens(src, &machine.states);
        let alphabet = intern_tokens(src, &machine.alphabet);
        let ghost sv = texts_view(states@);
        let ghost av = texts_view(alphabet@);
        let n = states.len();
        let a = alphabet.len();

        let mut finals: Vec<bool> = make_false_vec(n);
        match mark_finals(src, &states, &machine.final_states, &mut finals) {
            Err(t) => {
                return Err(DFAError::Parser(ParserError::UnknownState { at: t.span }));
            },
            Ok(()) => {},
        }

        let start_text = machine.start_state.src(src);
        let si = match find_vec(&states, start_text.as_slice()) {
            None => {
                return Err(
                    DFAError::Parser(ParserError::UnknownState { at: machine.start_state.span }),
                );
            },
            Some(si) => si,
        };
        proof {
            lemma_find_text(sv, start_text@);
        }

        let mut table = make_blank_table(n, a);
        match fold_transitions_exec(src, &states, &alphabet, &machine.transitions, &mut table) {
            Err(e) => {
                return Err(e);
            },
            Ok(()) => {},
        }

        match first_missing_exec(&table, n, a) {
            Some((s, c)) => {
                return Err(
                    DFAError::IncompleteDFA {
                        initial: copy_chars(&states[s]),
                        with_symbol: copy_chars(&alphabet[c]),
                    },
                );
            },
            None => {},
        }

        proof {
            lemma_validate_wf(machine@, src@);
            let iv = InfoView {
                states: sv,
                alphabet: av,
                transitions: table_view(table@),
                start_state: si as int,
                final_states: finals@,
            };
            assert(spec_validate(machine@, src@) == Ok::<InfoView, DFAErrorView>(iv));
            assert(iv.wf());
        }
        let info = Info {
            states,
            alphabet,
            transitions: table,
            start_state: si,
            final_states: finals,
        };
        Ok(info)
    }
}

/// One execution step: the input character resolved against the alphabet,
/// then the table consulted; `None` is a run-time rejection, not an error.
pub open spec fn spec_step(iv: InfoView, st: int, c: char) -> Option<int> {
    match find_char_symbol(iv.alphabet, c) {
        None => None,
        Some(a) => match iv.transitions[st][a] {
            Some(t) => Some(t.0 as int),
            None => None,
        },
    }
}

/// Whether the automaton accepts `input` starting in state `st`: each
/// character must resolve and step; after the last one the current state
/// must be final.
pub open spec fn spec_run(iv: InfoView, st: int, input: Seq<char>) -> bool
    decreases input.len(),
{
    if input.len() == 0 {
        iv.final_states[st]
    } else {
        match spec_step(iv, st, input[0]) {
            None => false,
            Some(t) => spec_run(iv, t, input.drop_first()),
        }
    }
}

/// The view of a machine: its table and its current state.
pub struct MachineView {
    pub info: InfoView,
    pub current_state: int,
}

/// A deterministic automaton ready to run, consumed by its one-shot `run`.
pub struct Machine {
    info: Info,
    current_state: usize,
}

impl View for Machine {
    type V = MachineView;

    closed spec fn view(&self) -> MachineView {
        MachineView { info: self.info@, current_state: self.current_state as int }
    }
}

impl Machine {
    #[verifier::type_invariant]
    spec fn type_inv(self) -> bool {
        self.info@.wf() && 0 <= self.current_state < self.info@.states.len()
    }

    /// A machine positioned on the automaton's start state.
    pub fn new(info: Info) -> (r: Machine)
        ensures
            r@.info == info@,
            r@.current_state == info@.start_state,
    {
        proof {
            use_type_invariant(&info);
        }
        Machine { current_state: info.start_state, info }
    }

    /// Runs the automaton over `input` and decides acceptance.
    pub fn run(self, input: &[char]) -> (r: bool)
        ensures
            r == spec_run(self@.info, self@.current_state, input@),
    {
        proof {
            use_type_invariant(&self);
        }
        let ghost iv = self@.info;
        let n = input.len();
        let mut st = self.current_state;
        let mut pos: usize = 0;
        proof {
            assert(input@.skip(0) =~= input@);
        }
        while pos < n
            invariant
                0 <= pos <= n,
                n == input@.len(),
                iv == self@.info,
                iv.wf(),
                0 <= st < iv.states.len(),
                spec_run(iv, self@.current_state, input@) == spec_run(
                    iv,
                    st as int,
                    input@.skip(pos as int),
                ),
            decreases n - pos,
        {
            let c = input[pos];
            proof {
                assert(input@.skip(pos as int)[0] == input@[pos as int]);
                assert(input@.skip(pos as int).drop_first() =~= input@.skip(pos as int + 1));
            }
            let a = match crate::machine::find_symbol_char(&self.info.alphabet, c) {
                None => {
                    return false;
                },
                Some(a) => a,
            };
            proof {
                crate::machine::lemma_find_char_symbol(iv.alphabet, c);
            }
            match self.info.transitions[st][a] {
                Some(t) => {
                    st = t.0;
                },
                None => {
                    return false;
                },
            }
            pos = pos + 1;
        }
        proof {
            assert(input@.skip(n as int).len() == 0);
        }
        self.info.final_states[st]
    }
}

} // verus!
